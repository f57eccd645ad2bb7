use vstd::prelude::*;
use crate::btree::node::Node;
use crate::btree::repair::{law_rank_correction, ranks_fit, spec_rank_correction};
use crate::btree::scan::{
    child_overflow_ok, law_child_overflow_preserves_content, law_min_size_check_keeps_no_more,
    law_overflow_check_preserves_content, min_size_ok, overflow_ok, spec_child_overflow,
    spec_min_size_check, spec_overflow_check,
};
use crate::btree::sort::{
    all_children_comparable, all_keys_sorted, children_comparable, law_sort_children_preserves_content,
    law_sort_everything, law_sort_main_preserves_content, spec_sort_children_nodes,
    spec_sort_everything, spec_sort_main_nodes,
};
use crate::btree::tree::{content, Tree};

verus! {

/// The trees after each pass of the repair sequence run after a mutation.
pub open spec fn repair_stages(t: Tree, ns: int) -> Seq<Tree> {
    let t1 = spec_overflow_check(t, ns);
    let t2 = spec_min_size_check(t1, ns);
    let t3 = spec_sort_main_nodes(t2);
    let t4 = spec_sort_children_nodes(t3);
    let t5 = spec_child_overflow(t4);
    let t6 = spec_min_size_check(t5, ns);
    let t7 = spec_overflow_check(t6, ns);
    let t8 = spec_min_size_check(t7, ns);
    let t9 = spec_sort_main_nodes(t8);
    let t10 = spec_child_overflow(t9);
    let t11 = spec_rank_correction(t10);
    let t12 = spec_sort_everything(t11);
    let t13 = spec_overflow_check(t12, ns);
    let t14 = spec_min_size_check(t13, ns);
    let t15 = spec_child_overflow(t14);
    let t16 = spec_rank_correction(t15);
    let t17 = spec_sort_everything(t16);
    seq![t, t1, t2, t3, t4, t5, t6, t7, t8, t9, t10, t11, t12, t13, t14, t15, t16, t17]
}

/// The tree after the whole repair sequence.
pub open spec fn spec_validate_after_mutation(t: Tree, ns: int) -> Tree {
    repair_stages(t, ns)[17]
}

/// Every pass of the repair sequence can run on what the previous one left.
pub open spec fn validate_ok(t: Tree, ns: int) -> bool {
    let s = repair_stages(t, ns);
    &&& overflow_ok(s[0], ns)
    &&& min_size_ok(s[1], ns)
    &&& children_comparable(s[3].children)
    &&& child_overflow_ok(s[4])
    &&& min_size_ok(s[5], ns)
    &&& overflow_ok(s[6], ns)
    &&& min_size_ok(s[7], ns)
    &&& child_overflow_ok(s[9])
    &&& ranks_fit(s[10], s[10].rank as int)
    &&& all_children_comparable(s[11])
    &&& overflow_ok(s[12], ns)
    &&& min_size_ok(s[13], ns)
    &&& child_overflow_ok(s[14])
    &&& ranks_fit(s[15], s[15].rank as int)
    &&& all_children_comparable(s[16])
}

impl Node {
    /// Runs the repair sequence (see `repair_stages`), testing before each
    /// pass that it can run. `false`, with the tree left partly repaired,
    /// where a pass would read a key that does not exist or a rank would
    /// leave `u32`.
    pub fn try_validate_after_mutation(node: &mut Node, node_size: usize) -> (ok: bool)
        ensures
            ok == validate_ok(old(node)@, node_size as int),
            ok ==> final(node)@ == spec_validate_after_mutation(old(node)@, node_size as int),
    {
        let ghost s = repair_stages(node@, node_size as int);
        let ghost ns = node_size as int;
        if !crate::btree::checks::can_check_overflow(node, node_size) {
            return false;
        }
        Node::overflow_check(node, node_size);
        if !Node::try_min_size_check(node, node_size) {
            return false;
        }
        Node::sort_main_nodes(node);
        if !crate::btree::checks::children_can_compare(&node.children) {
            proof {
                crate::btree::tree::lemma_views_of_node(*node);
            }
            return false;
        }
        proof {
            crate::btree::tree::lemma_views_of_node(*node);
        }
        Node::sort_children_nodes(node);
        if !Node::try_child_overflow(node) {
            return false;
        }
        if !Node::try_min_size_check(node, node_size) {
            return false;
        }
        if !crate::btree::checks::can_check_overflow(node, node_size) {
            return false;
        }
        Node::overflow_check(node, node_size);
        if !Node::try_min_size_check(node, node_size) {
            return false;
        }
        Node::sort_main_nodes(node);
        if !Node::try_child_overflow(node) {
            return false;
        }
        if !crate::btree::checks::ranks_can_fit(node, node.rank) {
            return false;
        }
        Node::rank_correction(node);
        if !crate::btree::checks::all_can_compare(node) {
            return false;
        }
        Node::sort_everything(node);
        if !crate::btree::checks::can_check_overflow(node, node_size) {
            return false;
        }
        Node::overflow_check(node, node_size);
        if !Node::try_min_size_check(node, node_size) {
            return false;
        }
        if !Node::try_child_overflow(node) {
            return false;
        }
        if !crate::btree::checks::ranks_can_fit(node, node.rank) {
            return false;
        }
        Node::rank_correction(node);
        if !crate::btree::checks::all_can_compare(node) {
            return false;
        }
        Node::sort_everything(node);
        true
    }

    /// The repair sequence run after each insertion: overflow, underflow and
    /// mismatch passes with sorting and rank renumbering in between (see
    /// `repair_stages`).
    pub fn validate_after_mutation(node: &mut Node, node_size: usize)
        requires
            validate_ok(old(node)@, node_size as int),
        ensures
            final(node)@ == spec_validate_after_mutation(old(node)@, node_size as int),
    {
        let ghost s = repair_stages(node@, node_size as int);
        Node::overflow_check(node, node_size);
        Node::min_size_check(node, node_size);
        Node::sort_main_nodes(node);
        Node::sort_children_nodes(node);
        Node::child_overflow(node);
        Node::min_size_check(node, node_size);
        Node::overflow_check(node, node_size);
        Node::min_size_check(node, node_size);
        Node::sort_main_nodes(node);
        Node::child_overflow(node);
        Node::rank_correction(node);
        Node::sort_everything(node);
        Node::overflow_check(node, node_size);
        Node::min_size_check(node, node_size);
        Node::child_overflow(node);
        Node::rank_correction(node);
        Node::sort_everything(node);
    }
}

/// The repair sequence never adds an entry to the tree: every entry after it
/// was in the tree before it.
pub proof fn law_validate_keeps_no_more(t: Tree, ns: int)
    requires
        validate_ok(t, ns),
    ensures
        content(spec_validate_after_mutation(t, ns)).subset_of(content(t)),
{
    let s = repair_stages(t, ns);
    law_overflow_check_preserves_content(s[0], ns);
    law_min_size_check_keeps_no_more(s[1], ns);
    law_sort_main_preserves_content(s[2]);
    law_sort_children_preserves_content(s[3]);
    law_child_overflow_preserves_content(s[4]);
    law_min_size_check_keeps_no_more(s[5], ns);
    law_overflow_check_preserves_content(s[6], ns);
    law_min_size_check_keeps_no_more(s[7], ns);
    law_sort_main_preserves_content(s[8]);
    law_child_overflow_preserves_content(s[9]);
    law_rank_correction(s[10]);
    law_sort_everything(s[11]);
    law_overflow_check_preserves_content(s[12], ns);
    law_min_size_check_keeps_no_more(s[13], ns);
    law_child_overflow_preserves_content(s[14]);
    law_rank_correction(s[15]);
    law_sort_everything(s[16]);
    assert forall|x| #[trigger] content(s[17]).count(x) <= content(s[0]).count(x) by {
        assert(content(s[17]).count(x) <= content(s[16]).count(x));
        assert(content(s[16]).count(x) <= content(s[15]).count(x));
        assert(content(s[15]).count(x) <= content(s[14]).count(x));
        assert(content(s[14]).count(x) <= content(s[13]).count(x));
        assert(content(s[13]).count(x) <= content(s[12]).count(x));
        assert(content(s[12]).count(x) <= content(s[11]).count(x));
        assert(content(s[11]).count(x) <= content(s[10]).count(x));
        assert(content(s[10]).count(x) <= content(s[9]).count(x));
        assert(content(s[9]).count(x) <= content(s[8]).count(x));
        assert(content(s[8]).count(x) <= content(s[7]).count(x));
        assert(content(s[7]).count(x) <= content(s[6]).count(x));
        assert(content(s[6]).count(x) <= content(s[5]).count(x));
        assert(content(s[5]).count(x) <= content(s[4]).count(x));
        assert(content(s[4]).count(x) <= content(s[3]).count(x));
        assert(content(s[3]).count(x) <= content(s[2]).count(x));
        assert(content(s[2]).count(x) <= content(s[1]).count(x));
        assert(content(s[1]).count(x) <= content(s[0]).count(x));
    }
}

/// After the repair sequence the keys of every node are in order, so every
/// search path is in key order.
pub proof fn law_repair_sorts_every_node(t: Tree, ns: int, key: u32)
    ensures
        all_keys_sorted(spec_validate_after_mutation(t, ns)),
        crate::btree::path::path_sorted(spec_validate_after_mutation(t, ns), key),
{
    let s = repair_stages(t, ns);
    law_sort_everything(s[16]);
    lemma_sorted_path(s[17], key);
}

/// A tree whose every node is in key order has every search path in order.
pub proof fn lemma_sorted_path(t: Tree, key: u32)
    requires
        all_keys_sorted(t),
    ensures
        crate::btree::path::path_sorted(t, key),
    decreases t,
{
    if crate::btree::path::find_index(t.input, key, 0) is None {
        match crate::btree::path::route(t, key) {
            Some(c) => {
                if 0 <= c < t.children.len() {
                    lemma_sorted_path(t.children[c], key);
                }
            },
            None => {},
        }
    }
}

/// When no two entries of the tree share a key, the repair sequence keeps
/// every entry: the tree after it holds exactly what it held before.
pub proof fn law_validate_keeps_every_entry(t: Tree, ns: int)
    requires
        validate_ok(t, ns),
        crate::btree::scan::keys_unique(content(t)),
    ensures
        content(spec_validate_after_mutation(t, ns)) == content(t),
{
    let s = repair_stages(t, ns);
    law_overflow_check_preserves_content(s[0], ns);
    crate::btree::scan::law_min_size_check_keeps_every_entry(s[1], ns);
    law_sort_main_preserves_content(s[2]);
    law_sort_children_preserves_content(s[3]);
    law_child_overflow_preserves_content(s[4]);
    crate::btree::scan::law_min_size_check_keeps_every_entry(s[5], ns);
    law_overflow_check_preserves_content(s[6], ns);
    crate::btree::scan::law_min_size_check_keeps_every_entry(s[7], ns);
    law_sort_main_preserves_content(s[8]);
    law_child_overflow_preserves_content(s[9]);
    law_rank_correction(s[10]);
    law_sort_everything(s[11]);
    law_overflow_check_preserves_content(s[12], ns);
    crate::btree::scan::law_min_size_check_keeps_every_entry(s[13], ns);
    law_child_overflow_preserves_content(s[14]);
    law_rank_correction(s[15]);
    law_sort_everything(s[16]);
}

} // verus!
