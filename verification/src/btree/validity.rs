//! The shape of a valid B-tree, and what the repair sequence run after a
//! mutation keeps of it: a valid tree is left as it is, and an insertion
//! that splits at most the leaf taking the new key, or whose split climbs
//! into a full root of leaves, leaves a valid tree that holds one entry
//! more.
use vstd::prelude::*;
use crate::btree::ops::{new_item, spec_add_new_keys, spec_find_update, spec_insert};
use crate::btree::order::{insert_sorted, lemma_insert_sorted_perm, lemma_stable_sort_perm, sorted_by, stable_sort};
use crate::btree::path::{find_index, key_in_gap, lemma_find_index, route};
use crate::btree::repair::{law_rank_correction, ranks_fit, spec_ranked, spec_rank_correction, spec_split_nodes};
use crate::btree::scan::{
    child_overflow_ok, folded, min_size_ok, overflow_ok, propagate_all, propagate_all_ok,
    spec_child_overflow, spec_min_size_check, spec_overflow_check, under_indices, under_sized,
};
use crate::btree::sort::{
    all_children_comparable, children_comparable, law_sort_everything, law_sort_main_preserves_content, pair_first_key, pair_snd, sorted_pairs,
    spec_sort_children_nodes, spec_sort_everything, spec_sort_main_nodes,
};
use crate::btree::tree::{content, entry_one, first_key, item_at_rank, item_key, lemma_child_smaller, with_rank, ItemsView, Tree};
use crate::btree::validation::{repair_stages, spec_validate_after_mutation, validate_ok};
use crate::btree::regroup::{
    adopt, child_bounds, distribute, distribute_ok, encloses, encloses_some, first_of, fix_ok, last_of,
    order_last_two, parent_one_bounds, parent_two_bounds, regroup, regroup_ok, regroup_step, regrouped_children,
    scan_ok, spec_fix_child_count_mismatch, within,
};

verus! {

broadcast use vstd::seq_lib::group_to_multiset_ensures, vstd::multiset::group_multiset_axioms;

/// The keys of a node in strictly increasing order.
pub open spec fn strictly_ascending(s: Seq<ItemsView>) -> bool {
    forall|i: int, j: int| 0 <= i < j < s.len() ==> s[i].key < s[j].key
}

/// Every key of the subtree lies strictly between `lo` and `hi`.
pub open spec fn keys_between(t: Tree, lo: int, hi: int) -> bool
    decreases t,
{
    &&& forall|k: int| 0 <= k < t.input.len() ==> lo < #[trigger] t.input[k].key < hi
    &&& forall|i: int| 0 <= i < t.children.len() ==> keys_between(#[trigger] t.children[i], lo, hi)
}

/// The key below which the keys of child `i` lie (no bound after the last key).
pub open spec fn upper_bound(t: Tree, i: int) -> int {
    if i < t.input.len() {
        t.input[i].key as int
    } else {
        u32::MAX as int + 1
    }
}

/// The key above which the keys of child `i` lie (no bound before the first key).
pub open spec fn lower_bound(t: Tree, i: int) -> int {
    if i == 0 {
        -1
    } else {
        t.input[i - 1].key as int
    }
}

/// A B-tree node of height `h` with at most `ns` keys: keys strictly
/// ascending, at least half of `ns` keys below the root, every key at the
/// rank of its node, and, in an inner node, one child more than keys, each
/// child one rank lower, of height `h - 1`, with its keys in the gap between
/// the two keys around it.
pub open spec fn btree_node(t: Tree, ns: int, root: bool, h: nat) -> bool
    decreases t,
{
    &&& strictly_ascending(t.input)
    &&& t.input.len() <= ns
    &&& !root ==> t.input.len() >= ns / 2
    &&& forall|k: int| 0 <= k < t.input.len() ==> #[trigger] t.input[k].rank == t.rank
    &&& if h == 0 {
        t.children.len() == 0
    } else {
        &&& t.input.len() > 0
        &&& t.children.len() == t.input.len() + 1
        &&& forall|i: int|
            0 <= i < t.children.len() ==> {
                &&& (#[trigger] t.children[i]).rank == t.rank + 1
                &&& keys_between(t.children[i], lower_bound(t, i), upper_bound(t, i))
                &&& btree_node(t.children[i], ns, false, (h - 1) as nat)
            }
    }
}

/// The number of levels below the root, counted down the first child.
pub open spec fn height(t: Tree) -> nat
    decreases t,
{
    if t.children.len() == 0 {
        0
    } else {
        1 + height(t.children[0])
    }
}

/// A valid B-tree with at most `ns` keys per node: its root is at rank 1, and
/// all its leaves are at one depth.
pub open spec fn valid_btree(t: Tree, ns: int) -> bool {
    &&& t.rank == 1
    &&& btree_node(t, ns, true, height(t))
}

/// No two keys of a node are equal.
pub open spec fn keys_distinct(s: Seq<ItemsView>) -> bool {
    forall|i: int, j: int| 0 <= i < s.len() && 0 <= j < s.len() && i != j ==> s[i].key != s[j].key
}

/// The shape of a B-tree node of height `h` without its demands on order and
/// ranks: the keys of a leaf need only be distinct, not ordered, and no rank
/// is looked at.
pub open spec fn loose_node(t: Tree, ns: int, root: bool, h: nat) -> bool
    decreases t,
{
    &&& keys_distinct(t.input)
    &&& t.input.len() <= ns
    &&& !root ==> t.input.len() >= ns / 2
    &&& if h == 0 {
        t.children.len() == 0
    } else {
        &&& strictly_ascending(t.input)
        &&& t.input.len() > 0
        &&& t.children.len() == t.input.len() + 1
        &&& forall|i: int|
            0 <= i < t.children.len() ==> {
                &&& keys_between(#[trigger] t.children[i], lower_bound(t, i), upper_bound(t, i))
                &&& loose_node(t.children[i], ns, false, (h - 1) as nat)
            }
    }
}

/// Every child is one rank below its parent, all the way down.
pub open spec fn levels_ok(t: Tree) -> bool
    decreases t,
{
    forall|i: int|
        0 <= i < t.children.len() ==> (#[trigger] t.children[i]).rank == t.rank + 1 && levels_ok(
            t.children[i],
        )
}

/// Every key of the tree sits at the rank of its node.
pub open spec fn items_ranked(t: Tree) -> bool
    decreases t,
{
    &&& forall|k: int| 0 <= k < t.input.len() ==> #[trigger] t.input[k].rank == t.rank
    &&& forall|i: int| 0 <= i < t.children.len() ==> items_ranked(#[trigger] t.children[i])
}

proof fn lemma_btree_is_loose(t: Tree, ns: int, root: bool, h: nat)
    requires
        btree_node(t, ns, root, h),
    ensures
        loose_node(t, ns, root, h),
        items_ranked(t),
        levels_ok(t),
        t.rank + h <= u32::MAX,
    decreases t,
{
    assert forall|i: int| 0 <= i < t.children.len() implies loose_node(#[trigger] t.children[i], ns, false, (h - 1) as nat)
        && items_ranked(t.children[i]) && levels_ok(t.children[i]) && t.children[i].rank + (h - 1) <= u32::MAX by {
        lemma_btree_is_loose(t.children[i], ns, false, (h - 1) as nat);
    }
    if h > 0 {
        assert(t.children[0].rank + (h - 1) <= u32::MAX);
    }
}

/// A B-tree node has the height it was built for.
proof fn lemma_height(t: Tree, ns: int, root: bool, h: nat)
    requires
        loose_node(t, ns, root, h),
    ensures
        height(t) == h,
    decreases t,
{
    if h > 0 {
        lemma_height(t.children[0], ns, false, (h - 1) as nat);
    }
}

pub proof fn lemma_sorted_stable_sort<A>(s: Seq<A>, key: spec_fn(A) -> int)
    requires
        sorted_by(s, key),
    ensures
        stable_sort(s, key) == s,
    decreases s.len(),
{
    if s.len() > 0 {
        let p = s.drop_last();
        assert(sorted_by(p, key));
        lemma_sorted_stable_sort(p, key);
        if p.len() == 0 {
            assert(seq![s.last()] =~= s);
        } else {
            assert(key(p.last()) <= key(s.last()));
            assert(insert_sorted(p, s.last(), key) == p.push(s.last()));
            assert(p.push(s.last()) =~= s);
        }
    }
}

proof fn lemma_first_key_between(c: Tree, lo: int, hi: int)
    requires
        keys_between(c, lo, hi),
        c.input.len() > 0,
    ensures
        lo < c.input[0].key < hi,
{
    assert(lo < c.input[0].key < hi);
}

/// The children of a B-tree node are ordered by their first keys, and each
/// has a key.
proof fn lemma_children_sorted(t: Tree, ns: int, root: bool, h: nat)
    requires
        loose_node(t, ns, root, h),
        ns >= 2,
    ensures
        sorted_by(t.children, first_key()),
        children_comparable(t.children),
        forall|i: int| 0 <= i < t.children.len() ==> #[trigger] t.children[i].input.len() > 0,
{
    assert forall|i: int| 0 <= i < t.children.len() implies #[trigger] t.children[i].input.len() > 0 by {
        assert(loose_node(t.children[i], ns, false, (h - 1) as nat));
    }
    assert forall|i: int, j: int| 0 <= i <= j < t.children.len() implies first_key()(t.children[i])
        <= first_key()(t.children[j]) by {
        if i < j {
            lemma_first_key_between(t.children[i], lower_bound(t, i), upper_bound(t, i));
            lemma_first_key_between(t.children[j], lower_bound(t, j), upper_bound(t, j));
            assert(t.input[i].key <= t.input[j - 1].key);
        }
    }
}

proof fn lemma_overflow_identity(t: Tree, ns: int, root: bool, h: nat)
    requires
        loose_node(t, ns, root, h),
    ensures
        overflow_ok(t, ns),
        spec_overflow_check(t, ns) == t,
    decreases t,
{
    assert forall|i: int| 0 <= i < t.children.len() implies overflow_ok(#[trigger] t.children[i], ns)
        && spec_overflow_check(t.children[i], ns) == t.children[i] by {
        lemma_overflow_identity(t.children[i], ns, false, (h - 1) as nat);
    }
    assert(spec_overflow_check(t, ns).children =~= t.children);
}

proof fn lemma_no_under(cs: Seq<Tree>, ns: int, i: int)
    requires
        0 <= i <= cs.len(),
        forall|j: int| 0 <= j < cs.len() ==> !under_sized(#[trigger] cs[j], ns),
    ensures
        under_indices(cs, ns, i) == Seq::<usize>::empty(),
    decreases i,
{
    if i > 0 {
        lemma_no_under(cs, ns, i - 1);
    }
}

proof fn lemma_min_size_identity(t: Tree, ns: int, root: bool, h: nat)
    requires
        loose_node(t, ns, root, h),
    ensures
        min_size_ok(t, ns),
        spec_min_size_check(t, ns) == t,
    decreases t,
{
    assert forall|j: int| 0 <= j < t.children.len() implies !under_sized(#[trigger] t.children[j], ns) by {
        assert(loose_node(t.children[j], ns, false, (h - 1) as nat));
    }
    lemma_no_under(t.children, ns, t.children.len() as int);
    let idxs = under_indices(t.children, ns, t.children.len() as int);
    assert(idxs.len() == 0);
    assert(propagate_all(t, idxs) == t);
    assert(propagate_all_ok(t, idxs));
    assert(folded(t, ns) == t);
    assert forall|i: int| 0 <= i < t.children.len() implies tree_size_smaller_and_fixed(t, i, ns) by {
        lemma_child_smaller(t, i);
        lemma_min_size_identity(t.children[i], ns, false, (h - 1) as nat);
    }
    assert(spec_min_size_check(t, ns).children =~= t.children) by {
        assert forall|i: int| 0 <= i < t.children.len() implies spec_min_size_check(t, ns).children[i]
            == t.children[i] by {
            assert(tree_size_smaller_and_fixed(t, i, ns));
        }
    }
    assert(min_size_ok(t, ns)) by {
        assert forall|i: int|
            0 <= i < t.children.len() && (#[trigger] t.children[i]).children.len() > 0 implies (
            crate::btree::tree::tree_size(t.children[i]) < crate::btree::tree::tree_size(t)
                && min_size_ok(t.children[i], ns)) by {
            assert(tree_size_smaller_and_fixed(t, i, ns));
        }
    }
}

spec fn tree_size_smaller_and_fixed(t: Tree, i: int, ns: int) -> bool {
    &&& crate::btree::tree::tree_size(t.children[i]) < crate::btree::tree::tree_size(t)
    &&& min_size_ok(t.children[i], ns)
    &&& spec_min_size_check(t.children[i], ns) == t.children[i]
}

proof fn lemma_child_overflow_identity(t: Tree, ns: int, root: bool, h: nat)
    requires
        loose_node(t, ns, root, h),
    ensures
        child_overflow_ok(t),
        spec_child_overflow(t) == t,
    decreases t,
{
    assert forall|i: int| 0 <= i < t.children.len() implies child_overflow_ok(#[trigger] t.children[i])
        && spec_child_overflow(t.children[i]) == t.children[i] by {
        lemma_child_overflow_identity(t.children[i], ns, false, (h - 1) as nat);
    }
    assert(spec_child_overflow(t).children =~= t.children);
}

proof fn lemma_ranked_identity(t: Tree, ns: int, root: bool, h: nat)
    requires
        btree_node(t, ns, root, h),
    ensures
        spec_ranked(t, t.rank as int) == t,
        ranks_fit(t, t.rank as int),
    decreases t,
{
    assert(with_rank(t.input, t.rank) =~= t.input) by {
        assert forall|k: int| 0 <= k < t.input.len() implies item_at_rank(t.input[k], t.rank)
            == t.input[k] by {
            assert(t.input[k].rank == t.rank);
        }
    }
    assert forall|i: int| 0 <= i < t.children.len() implies spec_ranked(
        #[trigger] t.children[i],
        t.rank + 1,
    ) == t.children[i] && ranks_fit(t.children[i], t.rank + 1) by {
        lemma_ranked_identity(t.children[i], ns, false, (h - 1) as nat);
    }
    if t.children.len() > 0 {
        assert(t.children[0].rank == t.rank + 1);
    }
    assert(spec_ranked(t, t.rank as int).children =~= t.children);
}

proof fn lemma_rank_correction_identity(t: Tree, ns: int, root: bool, h: nat)
    requires
        btree_node(t, ns, root, h),
    ensures
        spec_rank_correction(t) == t,
        ranks_fit(t, t.rank as int),
{
    lemma_ranked_identity(t, ns, root, h);
    if t.children.len() > 0 {
        assert forall|i: int| 0 <= i < t.children.len() implies spec_ranked(
            #[trigger] t.children[i],
            t.rank + 1,
        ) == t.children[i] by {
            lemma_ranked_identity(t.children[i], ns, false, (h - 1) as nat);
        }
        assert(spec_rank_correction(t).children =~= t.children);
    }
}

proof fn lemma_sort_everything_identity(t: Tree, ns: int, root: bool, h: nat)
    requires
        btree_node(t, ns, root, h),
        ns >= 2,
    ensures
        all_children_comparable(t),
        spec_sort_everything(t) == t,
    decreases t,
{
    lemma_btree_is_loose(t, ns, root, h);
    lemma_children_sorted(t, ns, root, h);
    lemma_sorted_stable_sort(t.input, item_key());
    assert forall|i: int| 0 <= i < t.children.len() implies all_children_comparable(
        #[trigger] t.children[i],
    ) && spec_sort_everything(t.children[i]) == t.children[i] by {
        lemma_sort_everything_identity(t.children[i], ns, false, (h - 1) as nat);
    }
    let ps = sorted_pairs(t);
    assert forall|i: int, j: int| 0 <= i <= j < ps.len() implies pair_first_key()(ps[i])
        <= pair_first_key()(ps[j]) by {
        assert(first_key()(t.children[i]) <= first_key()(t.children[j]));
    }
    lemma_sorted_stable_sort(ps, pair_first_key());
    assert(ps.map_values(pair_snd()) =~= t.children);
}

/// The repair sequence run after a mutation leaves a valid B-tree as it is:
/// every pass can run on it, and the tree that comes out is the tree that
/// went in.
pub proof fn law_repair_keeps_valid_btree(t: Tree, ns: int)
    requires
        ns >= 4,
        valid_btree(t, ns),
    ensures
        validate_ok(t, ns),
        spec_validate_after_mutation(t, ns) == t,
        valid_btree(spec_validate_after_mutation(t, ns), ns),
{
    let h = height(t);
    lemma_btree_is_loose(t, ns, true, h);
    lemma_overflow_identity(t, ns, true, h);
    lemma_min_size_identity(t, ns, true, h);
    lemma_children_sorted(t, ns, true, h);
    lemma_sorted_stable_sort(t.input, item_key());
    lemma_sorted_stable_sort(t.children, first_key());
    assert(spec_sort_main_nodes(t) =~= t);
    assert(spec_sort_children_nodes(t) =~= t);
    lemma_child_overflow_identity(t, ns, true, h);
    lemma_rank_correction_identity(t, ns, true, h);
    lemma_sort_everything_identity(t, ns, true, h);
    let s = repair_stages(t, ns);
    assert(s[1] == t);
    assert(s[2] == t);
    assert(s[3] == t);
    assert(s[4] == t);
    assert(s[5] == t);
    assert(s[6] == t);
    assert(s[7] == t);
    assert(s[8] == t);
    assert(s[9] == t);
    assert(s[10] == t);
    assert(s[11] == t);
    assert(s[12] == t);
    assert(s[13] == t);
    assert(s[14] == t);
    assert(s[15] == t);
    assert(s[16] == t);
    assert(s[17] == t);
}


/// No node of the tree holds the key `k`.
pub open spec fn key_absent(t: Tree, k: u32) -> bool
    decreases t,
{
    &&& forall|j: int| 0 <= j < t.input.len() ==> #[trigger] t.input[j].key != k
    &&& forall|i: int| 0 <= i < t.children.len() ==> key_absent(#[trigger] t.children[i], k)
}

/// The leaf that an insertion of `k` adds its key to (see
/// `spec_add_new_keys`) holds fewer than `ns` keys.
pub open spec fn leaf_has_room(t: Tree, k: u32, ns: int) -> bool
    decreases t,
{
    if t.children.len() == 0 {
        t.input.len() < ns
    } else if k < t.input[0].key {
        leaf_has_room(t.children[0], k, ns)
    } else if k > t.input[t.input.len() - 1].key {
        leaf_has_room(t.children[t.children.len() - 1], k, ns)
    } else {
        forall|c: int|
            0 <= c < t.children.len() && 1 <= c < t.input.len() && key_in_gap(t.input, k, c - 1)
                ==> leaf_has_room(#[trigger] t.children[c], k, ns)
    }
}

proof fn lemma_keys_between_any(t: Tree)
    ensures
        keys_between(t, -1, u32::MAX as int + 1),
    decreases t,
{
    assert forall|i: int| 0 <= i < t.children.len() implies keys_between(
        #[trigger] t.children[i],
        -1,
        u32::MAX as int + 1,
    ) by {
        lemma_keys_between_any(t.children[i]);
    }
}

proof fn lemma_add_keys_between(t: Tree, x: ItemsView, a: int, b: int)
    requires
        keys_between(t, a, b),
        a < x.key < b,
    ensures
        keys_between(spec_add_new_keys(t, x), a, b),
        spec_add_new_keys(t, x).rank == t.rank,
        spec_add_new_keys(t, x).children.len() == t.children.len(),
    decreases t,
{
    let u = spec_add_new_keys(t, x);
    if t.children.len() > 0 {
        assert forall|i: int| 0 <= i < t.children.len() implies keys_between(#[trigger] u.children[i], a, b) by {
            lemma_add_keys_between(t.children[i], x, a, b);
        }
    }
}

/// Adding a key that no node holds to a B-tree whose leaf on the key's path
/// has room gives a loose B-tree of the same height, whose root keeps its
/// keys unless it is that leaf.
proof fn lemma_add_loose(t: Tree, x: ItemsView, ns: int, root: bool, h: nat)
    requires
        btree_node(t, ns, root, h),
        key_absent(t, x.key),
        leaf_has_room(t, x.key, ns),
        ns >= 2,
    ensures
        loose_node(spec_add_new_keys(t, x), ns, root, h),
        spec_add_new_keys(t, x).rank == t.rank,
        h > 0 ==> spec_add_new_keys(t, x).input == t.input,
        h == 0 ==> spec_add_new_keys(t, x).input == t.input.push(x),
        crate::btree::ops::add_ok(t, x),
    decreases t,
{
    let u = spec_add_new_keys(t, x);
    lemma_btree_is_loose(t, ns, root, h);
    if h == 0 {
        assert(u.input == t.input.push(x));
        assert(keys_distinct(u.input));
    } else {
        assert(u.input == t.input);
        let last = t.input.len() - 1;
        assert forall|i: int| 0 <= i < u.children.len() implies {
            &&& (#[trigger] u.children[i]).rank == u.rank + 1
            &&& keys_between(u.children[i], lower_bound(u, i), upper_bound(u, i))
            &&& loose_node(u.children[i], ns, false, (h - 1) as nat)
        } by {
            let c = t.children[i];
            assert(btree_node(c, ns, false, (h - 1) as nat));
            assert(keys_between(c, lower_bound(t, i), upper_bound(t, i)));
            assert(key_absent(c, x.key));
            let goes = if x.key < t.input[0].key {
                i == 0
            } else if x.key > t.input[last].key {
                i == t.children.len() - 1
            } else {
                1 <= i < t.input.len() && key_in_gap(t.input, x.key, i - 1)
            };
            if goes {
                assert(u.children[i] == spec_add_new_keys(c, x));
                assert(leaf_has_room(c, x.key, ns));
                lemma_add_loose(c, x, ns, false, (h - 1) as nat);
                assert(lower_bound(t, i) < x.key < upper_bound(t, i)) by {
                    if x.key < t.input[0].key {
                    } else if x.key > t.input[last].key {
                        assert(t.input[last].key < x.key);
                    } else {
                        assert(key_in_gap(t.input, x.key, i - 1));
                    }
                }
                lemma_add_keys_between(c, x, lower_bound(t, i), upper_bound(t, i));
            } else {
                assert(u.children[i] == c);
                lemma_btree_is_loose(c, ns, false, (h - 1) as nat);
            }
        }
        assert(crate::btree::ops::add_ok(t, x)) by {
            if x.key < t.input[0].key {
                lemma_add_loose(t.children[0], x, ns, false, (h - 1) as nat);
            } else if x.key > t.input[last].key {
                lemma_add_loose(t.children[t.children.len() - 1], x, ns, false, (h - 1) as nat);
            } else {
                assert forall|i: int|
                    0 <= i && i + 1 < t.input.len() && #[trigger] key_in_gap(t.input, x.key, i) implies i + 1
                    < t.children.len() && crate::btree::ops::add_ok(t.children[i + 1], x) by {
                    lemma_add_loose(t.children[i + 1], x, ns, false, (h - 1) as nat);
                }
            }
        }
    }
}

/// Sorting a sequence of keys with distinct keys puts them in strictly
/// ascending order, and every key of the result comes from the input.
proof fn lemma_sort_distinct(s: Seq<ItemsView>)
    requires
        keys_distinct(s),
    ensures
        strictly_ascending(stable_sort(s, item_key())),
        stable_sort(s, item_key()).len() == s.len(),
        forall|i: int| 0 <= i < s.len() ==> s.contains(#[trigger] stable_sort(s, item_key())[i]),
    decreases s.len(),
{
    lemma_stable_sort_perm(s, item_key());
    let r = stable_sort(s, item_key());
    assert forall|i: int| 0 <= i < s.len() implies s.contains(#[trigger] r[i]) by {
        assert(r.contains(r[i]));
        assert(r.to_multiset().count(r[i]) > 0);
    }
    if s.len() > 0 {
        let p = s.drop_last();
        let x = s.last();
        assert(keys_distinct(p));
        lemma_sort_distinct(p);
        let r0 = stable_sort(p, item_key());
        assert forall|i: int| 0 <= i < r0.len() implies #[trigger] r0[i].key != x.key by {
            assert(p.contains(r0[i]));
            let j = choose|j: int| 0 <= j < p.len() && p[j] == r0[i];
            assert(s[j] == p[j]);
            assert(s[s.len() - 1] == x);
        }
        lemma_insert_distinct(r0, x);
    }
}

proof fn lemma_insert_distinct(r: Seq<ItemsView>, x: ItemsView)
    requires
        strictly_ascending(r),
        forall|i: int| 0 <= i < r.len() ==> #[trigger] r[i].key != x.key,
    ensures
        strictly_ascending(insert_sorted(r, x, item_key())),
    decreases r.len(),
{
    if r.len() == 0 {
    } else if r.last().key <= x.key {
        assert(r.last().key < x.key);
        let q = r.push(x);
        assert forall|i: int, j: int| 0 <= i < j < q.len() implies q[i].key < q[j].key by {
            if j == r.len() {
                assert(r[i].key <= r.last().key);
            }
        }
    } else {
        let p = r.drop_last();
        assert(strictly_ascending(p));
        lemma_insert_distinct(p, x);
        let q0 = insert_sorted(p, x, item_key());
        lemma_insert_sorted_perm(p, x, item_key());
        assert forall|i: int| 0 <= i < q0.len() implies #[trigger] q0[i].key < r.last().key by {
            assert(q0.contains(q0[i]));
            assert(q0.to_multiset().count(q0[i]) > 0);
            if q0[i] != x {
                assert(p.to_multiset().count(q0[i]) > 0);
                assert(p.contains(q0[i]));
                let j = choose|j: int| 0 <= j < p.len() && p[j] == q0[i];
                assert(r[j] == p[j]);
            }
        }
        let q = q0.push(r.last());
        assert forall|i: int, j: int| 0 <= i < j < q.len() implies q[i].key < q[j].key by {
            if j == q0.len() {
                assert(q0[i].key < r.last().key);
            }
        }
    }
}

/// The ranks handed down from `r` fit when `r` plus the height does.
proof fn lemma_ranks_fit_by_height(t: Tree, ns: int, root: bool, h: nat, r: int)
    requires
        loose_node(t, ns, root, h),
        r + h <= u32::MAX,
    ensures
        ranks_fit(t, r),
    decreases t,
{
    if t.children.len() > 0 {
        assert forall|i: int| 0 <= i < t.children.len() implies ranks_fit(#[trigger] t.children[i], r + 1) by {
            lemma_ranks_fit_by_height(t.children[i], ns, false, (h - 1) as nat, r + 1);
        }
    }
}

proof fn lemma_loose_comparable(t: Tree, ns: int, root: bool, h: nat)
    requires
        loose_node(t, ns, root, h),
        ns >= 2,
    ensures
        all_children_comparable(t),
    decreases t,
{
    lemma_children_sorted(t, ns, root, h);
    assert forall|i: int| 0 <= i < t.children.len() implies all_children_comparable(#[trigger] t.children[i]) by {
        lemma_loose_comparable(t.children[i], ns, false, (h - 1) as nat);
    }
}

proof fn lemma_ranked_keys_between(t: Tree, r: int, a: int, b: int)
    requires
        keys_between(t, a, b),
    ensures
        keys_between(spec_ranked(t, r), a, b),
    decreases t,
{
    let u = spec_ranked(t, r);
    assert forall|k: int| 0 <= k < u.input.len() implies a < #[trigger] u.input[k].key < b by {
        assert(u.input[k].key == t.input[k].key);
    }
    assert forall|i: int| 0 <= i < u.children.len() implies keys_between(#[trigger] u.children[i], a, b) by {
        lemma_ranked_keys_between(t.children[i], r + 1, a, b);
    }
}

/// Moving a loose subtree to level `r` keeps its shape and its keys, puts
/// every child one rank below its parent and every key at the rank of its
/// node.
proof fn lemma_ranked_loose(t: Tree, ns: int, root: bool, h: nat, r: int)
    requires
        loose_node(t, ns, root, h),
        0 <= r,
        r + h <= u32::MAX,
    ensures
        loose_node(spec_ranked(t, r), ns, root, h),
        items_ranked(spec_ranked(t, r)),
        levels_ok(spec_ranked(t, r)),
        spec_ranked(t, r).rank == r,
        spec_ranked(t, r).input.len() == t.input.len(),
        forall|k: int| 0 <= k < t.input.len() ==> #[trigger] spec_ranked(t, r).input[k].key == t.input[k].key,
    decreases t,
{
    let u = spec_ranked(t, r);
    assert forall|k: int| 0 <= k < t.input.len() implies #[trigger] u.input[k].key == t.input[k].key
        && u.input[k].rank == u.rank by {
    }
    assert forall|i: int| 0 <= i < u.children.len() implies {
        &&& (#[trigger] u.children[i]).rank == u.rank + 1
        &&& keys_between(u.children[i], lower_bound(u, i), upper_bound(u, i))
        &&& loose_node(u.children[i], ns, false, (h - 1) as nat)
        &&& items_ranked(u.children[i])
        &&& levels_ok(u.children[i])
    } by {
        let c = t.children[i];
        lemma_ranked_loose(c, ns, false, (h - 1) as nat, r + 1);
        lemma_ranked_keys_between(c, r + 1, lower_bound(t, i), upper_bound(t, i));
        assert(lower_bound(u, i) == lower_bound(t, i));
        assert(upper_bound(u, i) == upper_bound(t, i));
    }
}

/// Sorting a loose tree whose keys sit at their nodes' ranks throughout
/// gives a B-tree node, with its keys still in the same bounds.
proof fn lemma_sort_everything_loose(t: Tree, ns: int, root: bool, h: nat, a: int, b: int)
    requires
        loose_node(t, ns, root, h),
        items_ranked(t),
        levels_ok(t),
        keys_between(t, a, b),
        ns >= 2,
    ensures
        btree_node(spec_sort_everything(t), ns, root, h),
        keys_between(spec_sort_everything(t), a, b),
        spec_sort_everything(t).rank == t.rank,
    decreases t,
{
    let r = spec_sort_everything(t);
    lemma_sort_distinct(t.input);
    assert forall|k: int| 0 <= k < r.input.len() implies #[trigger] r.input[k].rank == r.rank && a
        < r.input[k].key < b by {
        assert(t.input.contains(r.input[k]));
    }
    if h == 0 {
        assert(sorted_pairs(t).len() == 0);
        assert(r.children.len() == 0);
    } else {
        lemma_children_sorted(t, ns, root, h);
        lemma_sorted_stable_sort(t.input, item_key());
        assert(r.input == t.input);
        let ps = sorted_pairs(t);
        assert forall|i: int, j: int| 0 <= i <= j < ps.len() implies pair_first_key()(ps[i])
            <= pair_first_key()(ps[j]) by {
            assert(first_key()(t.children[i]) <= first_key()(t.children[j]));
        }
        lemma_sorted_stable_sort(ps, pair_first_key());
        assert(r.children.len() == t.children.len());
        assert forall|i: int| 0 <= i < r.children.len() implies {
            &&& (#[trigger] r.children[i]).rank == r.rank + 1
            &&& keys_between(r.children[i], lower_bound(r, i), upper_bound(r, i))
            &&& btree_node(r.children[i], ns, false, (h - 1) as nat)
            &&& keys_between(r.children[i], a, b)
        } by {
            let c = t.children[i];
            assert(r.children[i] == spec_sort_everything(c));
            lemma_sort_everything_loose(c, ns, false, (h - 1) as nat, lower_bound(t, i), upper_bound(t, i));
            lemma_sort_everything_loose(c, ns, false, (h - 1) as nat, a, b);
        }
    }
}

/// Every node on the path of a key that no node holds misses it.
proof fn lemma_absent_not_found(t: Tree, k: u32, v: Option<String>, txn: u32)
    requires
        key_absent(t, k),
    ensures
        !spec_find_update(t, k, v, txn, false).1,
    decreases t,
{
    lemma_find_index(t.input, k, 0);
    if find_index(t.input, k, 0) is None {
        match route(t, k) {
            Some(c) => {
                if 0 <= c < t.children.len() {
                    lemma_absent_not_found(t.children[c], k, v, txn);
                }
            },
            None => {},
        }
    }
}

/// A key that no node holds is not found by a search.
proof fn lemma_absent_not_fetched(t: Tree, k: u32)
    requires
        key_absent(t, k),
    ensures
        crate::mvcc::visibility::spec_fetch(t, k) is None,
    decreases t,
{
    lemma_find_index(t.input, k, 0);
    if find_index(t.input, k, 0) is None {
        match route(t, k) {
            Some(c) => {
                if 0 <= c < t.children.len() {
                    lemma_absent_not_fetched(t.children[c], k);
                }
            },
            None => {},
        }
    }
}

/// Every node of a B-tree has its keys in order, so every search path has.
proof fn lemma_btree_path_sorted(t: Tree, k: u32, ns: int, root: bool, h: nat)
    requires
        btree_node(t, ns, root, h),
    ensures
        crate::btree::path::path_sorted(t, k),
    decreases t,
{
    if find_index(t.input, k, 0) is None {
        match route(t, k) {
            Some(c) => {
                if 0 <= c < t.children.len() {
                    lemma_btree_path_sorted(t.children[c], k, ns, false, (h - 1) as nat);
                }
            },
            None => {},
        }
    }
}

/// The last passes of the repair sequence on a loose tree whose root is at
/// rank 1 with its keys at that rank: renumbering the ranks and sorting
/// everything give a valid B-tree of the same height with the same entries,
/// which the passes after that leave as it is.
proof fn lemma_finish(s: Tree, ns: int, h: nat)
    requires
        ns >= 4,
        1 + h <= u32::MAX,
        loose_node(s, ns, true, h),
        s.rank == 1,
        forall|j: int| 0 <= j < s.input.len() ==> #[trigger] s.input[j].rank == 1,
    ensures
        ranks_fit(s, s.rank as int),
        all_children_comparable(spec_rank_correction(s)),
        ({
            let s12 = spec_sort_everything(spec_rank_correction(s));
            &&& valid_btree(s12, ns)
            &&& height(s12) == h
            &&& content(s12) == content(s)
            &&& overflow_ok(s12, ns)
            &&& spec_overflow_check(s12, ns) == s12
            &&& min_size_ok(s12, ns)
            &&& spec_min_size_check(s12, ns) == s12
            &&& child_overflow_ok(s12)
            &&& spec_child_overflow(s12) == s12
            &&& ranks_fit(s12, s12.rank as int)
            &&& spec_rank_correction(s12) == s12
            &&& all_children_comparable(s12)
            &&& spec_sort_everything(s12) == s12
        }),
{
    lemma_ranks_fit_by_height(s, ns, true, h, 1);
    // renumbering the ranks
    let w = spec_rank_correction(s);
    if h == 0 {
        assert(w == s);
        assert(items_ranked(w));
        assert(levels_ok(w));
        assert(loose_node(w, ns, true, h));
    } else {
        assert forall|i: int| 0 <= i < w.children.len() implies {
            &&& (#[trigger] w.children[i]).rank == w.rank + 1
            &&& keys_between(w.children[i], lower_bound(w, i), upper_bound(w, i))
            &&& loose_node(w.children[i], ns, false, (h - 1) as nat)
            &&& items_ranked(w.children[i])
            &&& levels_ok(w.children[i])
        } by {
            let c = s.children[i];
            assert(w.children[i] == spec_ranked(c, s.rank + 1));
            lemma_ranked_loose(c, ns, false, (h - 1) as nat, s.rank + 1);
            lemma_ranked_keys_between(c, s.rank + 1, lower_bound(s, i), upper_bound(s, i));
        }
        assert(loose_node(w, ns, true, h));
        assert(items_ranked(w));
        assert(levels_ok(w));
    }
    lemma_loose_comparable(w, ns, true, h);
    lemma_keys_between_any(w);
    lemma_sort_everything_loose(w, ns, true, h, -1, u32::MAX as int + 1);
    let s12 = spec_sort_everything(w);
    assert(s12.rank == 1);
    lemma_btree_is_loose(s12, ns, true, h);
    lemma_height(s12, ns, true, h);
    lemma_overflow_identity(s12, ns, true, h);
    lemma_min_size_identity(s12, ns, true, h);
    lemma_child_overflow_identity(s12, ns, true, h);
    lemma_rank_correction_identity(s12, ns, true, h);
    lemma_sort_everything_identity(s12, ns, true, h);
    law_rank_correction(s);
    law_sort_everything(w);
}

/// The repair sequence from its third pass on, run on a loose tree whose
/// root is at rank 1 with its keys at that rank: every pass can run, and what
/// comes out is a valid B-tree of the same height holding the same entries.
proof fn lemma_repair_tail(t0: Tree, ns: int, h: nat)
    requires
        ns >= 4,
        1 + h <= u32::MAX,
        loose_node(repair_stages(t0, ns)[2], ns, true, h),
        repair_stages(t0, ns)[2].rank == 1,
        forall|j: int|
            0 <= j < repair_stages(t0, ns)[2].input.len() ==> #[trigger] repair_stages(t0, ns)[2].input[j].rank == 1,
    ensures
        ({
            let st = repair_stages(t0, ns);
            &&& children_comparable(st[3].children)
            &&& child_overflow_ok(st[4])
            &&& min_size_ok(st[5], ns)
            &&& overflow_ok(st[6], ns)
            &&& min_size_ok(st[7], ns)
            &&& child_overflow_ok(st[9])
            &&& ranks_fit(st[10], st[10].rank as int)
            &&& all_children_comparable(st[11])
            &&& overflow_ok(st[12], ns)
            &&& min_size_ok(st[13], ns)
            &&& child_overflow_ok(st[14])
            &&& ranks_fit(st[15], st[15].rank as int)
            &&& all_children_comparable(st[16])
            &&& valid_btree(st[17], ns)
            &&& content(st[17]) == content(st[2])
        }),
{
    let st = repair_stages(t0, ns);
    let u = st[2];
    // sorting the root's keys
    let s3 = spec_sort_main_nodes(u);
    lemma_sort_distinct(u.input);
    assert(s3.children == u.children);
    assert(loose_node(s3, ns, true, h)) by {
        if h > 0 {
            lemma_sorted_stable_sort(u.input, item_key());
        }
    }
    assert forall|j: int| 0 <= j < s3.input.len() implies #[trigger] s3.input[j].rank == s3.rank by {
        assert(u.input.contains(s3.input[j]));
    }
    assert(strictly_ascending(s3.input));
    lemma_children_sorted(s3, ns, true, h);
    lemma_sorted_stable_sort(s3.children, first_key());
    assert(spec_sort_children_nodes(s3) == s3);
    lemma_child_overflow_identity(s3, ns, true, h);
    lemma_overflow_identity(s3, ns, true, h);
    lemma_min_size_identity(s3, ns, true, h);
    lemma_sorted_stable_sort(s3.input, item_key());
    assert(spec_sort_main_nodes(s3) == s3);
    lemma_finish(s3, ns, h);
    let w = spec_rank_correction(s3);
    let s12 = spec_sort_everything(w);
    assert(st[3] == s3);
    assert(st[4] == s3);
    assert(st[5] == s3);
    assert(st[6] == s3);
    assert(st[7] == s3);
    assert(st[8] == s3);
    assert(st[9] == s3);
    assert(st[10] == s3);
    assert(st[11] == w);
    assert(st[12] == s12);
    assert(st[13] == s12);
    assert(st[14] == s12);
    assert(st[15] == s12);
    assert(st[16] == s12);
    assert(st[17] == s12);
    law_sort_main_preserves_content(u);
}

/// Inserting a key that no node holds into a valid B-tree, where the leaf
/// that takes the key has room for it, adds the key and leaves a valid
/// B-tree: every pass of the repair sequence can run, and the tree that comes
/// out is a valid B-tree again.
pub proof fn law_insert_with_room_keeps_valid_btree(t: Tree, k: u32, v: String, txn: u32, ns: int)
    requires
        ns >= 4,
        valid_btree(t, ns),
        key_absent(t, k),
        leaf_has_room(t, k, ns),
    ensures
        spec_insert(t, k, v, txn, ns).1,
        crate::btree::ops::add_ok(t, new_item(k, v, txn)),
        validate_ok(spec_add_new_keys(t, new_item(k, v, txn)), ns),
        valid_btree(spec_insert(t, k, v, txn, ns).0, ns),
        content(spec_insert(t, k, v, txn, ns).0) == content(t).add(entry_one(new_item(k, v, txn))),
{
    let h = height(t);
    let x = new_item(k, v, txn);
    lemma_absent_not_found(t, k, Some(v), txn);
    lemma_add_loose(t, x, ns, true, h);
    let u = spec_add_new_keys(t, x);
    // the root's keys sit at its rank
    assert forall|j: int| 0 <= j < u.input.len() implies #[trigger] u.input[j].rank == u.rank by {
        if h == 0 {
            if j < t.input.len() {
                assert(u.input[j] == t.input[j]);
            }
        }
    }
    lemma_overflow_identity(u, ns, true, h);
    lemma_min_size_identity(u, ns, true, h);
    let st = repair_stages(u, ns);
    assert(st[1] == u);
    assert(st[2] == u);
    lemma_btree_is_loose(t, ns, true, h);
    lemma_repair_tail(u, ns, h);
    // what the tree holds: the new entry added, nothing else changed
    lemma_absent_not_fetched(t, k);
    lemma_btree_path_sorted(t, k, ns, true, h);
    crate::mvcc::visibility::lemma_add_content(t, x);
}

/// A write to a key changes versions only: the tree keeps its shape, its
/// keys and their ranks.
proof fn lemma_find_update_keeps_shape(t: Tree, k: u32, v: Option<String>, txn: u32, ns: int, root: bool, h: nat, a: int, b: int)
    requires
        btree_node(t, ns, root, h),
        keys_between(t, a, b),
    ensures
        btree_node(spec_find_update(t, k, v, txn, false).0, ns, root, h),
        keys_between(spec_find_update(t, k, v, txn, false).0, a, b),
        spec_find_update(t, k, v, txn, false).0.rank == t.rank,
        spec_find_update(t, k, v, txn, false).0.input.len() == t.input.len(),
        forall|j: int| 0 <= j < t.input.len() ==> (#[trigger] spec_find_update(t, k, v, txn, false).0.input[j]).key
            == t.input[j].key,
    decreases t,
{
    let r = spec_find_update(t, k, v, txn, false).0;
    match find_index(t.input, k, 0) {
        Some(i) => {
            lemma_find_index(t.input, k, 0);
            assert forall|j: int| 0 <= j < t.input.len() implies #[trigger] r.input[j].key == t.input[j].key
                && r.input[j].rank == t.input[j].rank by {
            }
            assert(r.children == t.children);
        },
        None => match route(t, k) {
            Some(c) => {
                if 0 <= c < t.children.len() {
                    let nc = spec_find_update(t.children[c], k, v, txn, false).0;
                    lemma_find_update_keeps_shape(t.children[c], k, v, txn, ns, false, (h - 1) as nat, a, b);
                    lemma_find_update_keeps_shape(t.children[c], k, v, txn, ns, false, (h - 1) as nat, lower_bound(t, c), upper_bound(t, c));
                    assert(r.children == t.children.update(c, nc));
                    assert forall|i: int| 0 <= i < r.children.len() implies keys_between(#[trigger] r.children[i], a, b) by {
                        if i != c {
                            assert(r.children[i] == t.children[i]);
                        }
                    }
                }
            },
            None => {},
        },
    }
}

/// Inserting a key that its search path already holds writes a new version
/// of it and leaves a valid B-tree valid.
pub proof fn law_insert_existing_keeps_valid_btree(t: Tree, k: u32, v: String, txn: u32, ns: int)
    requires
        valid_btree(t, ns),
        spec_find_update(t, k, Some(v), txn, false).1,
    ensures
        !spec_insert(t, k, v, txn, ns).1,
        valid_btree(spec_insert(t, k, v, txn, ns).0, ns),
{
    let h = height(t);
    lemma_keys_between_any(t);
    lemma_find_update_keeps_shape(t, k, Some(v), txn, ns, true, h, -1, u32::MAX as int + 1);
    let r = spec_insert(t, k, v, txn, ns).0;
    lemma_btree_is_loose(r, ns, true, h);
    lemma_height(r, ns, true, h);
}

/// The child an insertion of `k` goes down to from an inner node whose keys
/// do not hold it: the first below the first key, the last above the last
/// key, else the one after the gap that holds `k`.
pub open spec fn add_index(t: Tree, k: u32) -> int {
    if k < t.input[0].key {
        0
    } else if k > t.input[t.input.len() - 1].key {
        t.children.len() - 1
    } else {
        crate::btree::path::first_gap(t.input, k, 0)->0 + 1
    }
}

/// An insertion of a key that an inner B-tree node does not hold goes down
/// into exactly one child, whose gap holds the key.
proof fn lemma_add_into(t: Tree, x: ItemsView, ns: int, root: bool, h: nat)
    requires
        btree_node(t, ns, root, h),
        h > 0,
        key_absent(t, x.key),
    ensures
        0 <= add_index(t, x.key) < t.children.len(),
        lower_bound(t, add_index(t, x.key)) < x.key < upper_bound(t, add_index(t, x.key)),
        spec_add_new_keys(t, x) == (Tree {
            children: t.children.update(add_index(t, x.key), spec_add_new_keys(t.children[add_index(t, x.key)], x)),
            ..t
        }),
{
    let k = x.key;
    let last = t.input.len() - 1;
    let j = add_index(t, k);
    let u = spec_add_new_keys(t, x);
    let target = t.children.update(j, spec_add_new_keys(t.children[j], x));
    if k < t.input[0].key {
        assert(u.children =~= target);
    } else if k > t.input[last].key {
        assert(u.children =~= target);
    } else {
        lemma_find_index(t.input, k, 0);
        assert(find_index(t.input, k, 0) is None) by {
            if find_index(t.input, k, 0) is Some {
                let i = find_index(t.input, k, 0)->0;
                assert(t.input[i].key == k);
            }
        }
        assert forall|a: int, b: int| 0 <= a <= b < t.input.len() implies t.input[a].key <= t.input[b].key by {
        }
        crate::mvcc::visibility::lemma_one_gap(t.input, k);
        crate::btree::path::lemma_first_gap(t.input, k, 0);
        let g = crate::btree::path::first_gap(t.input, k, 0)->0;
        assert(key_in_gap(t.input, k, g));
        assert forall|c: int| 0 <= c < t.children.len() implies #[trigger] u.children[c] == target[c] by {
            if 1 <= c < t.input.len() && key_in_gap(t.input, k, c - 1) {
                assert(c - 1 == g);
            }
        }
        assert(u.children =~= target);
    }
}

/// Of the first `i` trees, only the one at `j` is undersized.
proof fn lemma_under_one(cs: Seq<Tree>, ns: int, j: int, i: int)
    requires
        0 <= j < cs.len(),
        0 <= i <= cs.len(),
        under_sized(cs[j], ns),
        forall|m: int| 0 <= m < cs.len() && m != j ==> !under_sized(#[trigger] cs[m], ns),
    ensures
        under_indices(cs, ns, i) == (if i > j { seq![j as usize] } else { Seq::<usize>::empty() }),
    decreases i,
{
    if i > 0 {
        lemma_under_one(cs, ns, j, i - 1);
        if i - 1 == j {
            assert(Seq::<usize>::empty().push(j as usize) =~= seq![j as usize]);
        }
    }
}

/// Splitting a leaf that holds one key more than `ns`, all its keys
/// distinct and inside two ranges: one middle key stays, the smaller and the
/// larger keys make two leaves of at least half of `ns` keys each.
proof fn lemma_split_leaf(l: Tree, ns: int, lb: int, ub: int, lo: int, hi: int)
    requires
        ns >= 4,
        l.children.len() == 0,
        l.input.len() == ns + 1,
        keys_distinct(l.input),
        keys_between(l, lb, ub),
        keys_between(l, lo, hi),
    ensures
        ({
            let sp = spec_split_nodes(l);
            let mid = sp.input[0].key as int;
            &&& sp.input.len() == 1
            &&& sp.rank == l.rank
            &&& sp.children.len() == 2
            &&& lb < mid < ub
            &&& lo < mid < hi
            &&& loose_node(sp.children[0], ns, false, 0)
            &&& loose_node(sp.children[1], ns, false, 0)
            &&& keys_between(sp.children[0], lb, mid)
            &&& keys_between(sp.children[1], mid, ub)
            &&& keys_between(sp.children[0], lo, hi)
            &&& keys_between(sp.children[1], lo, hi)
            &&& sp.children[0].input.len() > 0
            &&& sp.children[1].input.len() > 0
            &&& sp.children[0].input[0].key < mid < sp.children[1].input[0].key
        }),
{
    let sl = stable_sort(l.input, item_key());
    lemma_sort_distinct(l.input);
    let n = sl.len();
    let bp = crate::btree::repair::breaking_point(n);
    assert(bp == ns / 2 + 1);
    let lower = crate::btree::repair::split_lower(sl);
    let upper = crate::btree::repair::split_upper(sl);
    assert(lower == sl.take(bp - 1));
    assert(lower.len() == ns / 2);
    assert(upper.len() == ns + 1 - bp);
    let sp = spec_split_nodes(l);
    let r = (l.rank + 1) as u32;
    assert(sp.children =~= seq![crate::btree::tree::leaf(lower, r), crate::btree::tree::leaf(upper, r)]);
    assert forall|i: int| 0 <= i < n implies lb < #[trigger] sl[i].key < ub && lo < sl[i].key < hi by {
        assert(l.input.contains(sl[i]));
        let m = choose|m: int| 0 <= m < l.input.len() && l.input[m] == sl[i];
        assert(lb < l.input[m].key < ub);
        assert(lo < l.input[m].key < hi);
    }
    let a = sp.children[0];
    let b = sp.children[1];
    let mid = sl[bp - 1].key as int;
    assert(sp.input[0] == sl[bp - 1]);
    assert forall|i: int| 0 <= i < a.input.len() implies #[trigger] a.input[i].key == sl[i].key by {
    }
    assert forall|i: int| 0 <= i < b.input.len() implies #[trigger] b.input[i].key == sl[bp + i].key by {
    }
    assert(keys_distinct(a.input)) by {
        assert forall|i: int, j: int| 0 <= i < a.input.len() && 0 <= j < a.input.len() && i != j implies a.input[i].key
            != a.input[j].key by {
            assert(a.input[i].key == sl[i].key);
            assert(a.input[j].key == sl[j].key);
        }
    }
    assert(keys_distinct(b.input)) by {
        assert forall|i: int, j: int| 0 <= i < b.input.len() && 0 <= j < b.input.len() && i != j implies b.input[i].key
            != b.input[j].key by {
            assert(b.input[i].key == sl[bp + i].key);
            assert(b.input[j].key == sl[bp + j].key);
        }
    }
    assert(keys_between(a, lb, mid)) by {
        assert forall|k: int| 0 <= k < a.input.len() implies lb < #[trigger] a.input[k].key < mid by {
            assert(a.input[k].key == sl[k].key);
            assert(sl[k].key < sl[bp - 1].key);
        }
    }
    assert(keys_between(b, mid, ub)) by {
        assert forall|k: int| 0 <= k < b.input.len() implies mid < #[trigger] b.input[k].key < ub by {
            assert(b.input[k].key == sl[bp + k].key);
            assert(sl[bp - 1].key < sl[bp + k].key);
        }
    }
    assert(keys_between(a, lo, hi)) by {
        assert forall|k: int| 0 <= k < a.input.len() implies lo < #[trigger] a.input[k].key < hi by {
            assert(a.input[k].key == sl[k].key);
        }
    }
    assert(keys_between(b, lo, hi)) by {
        assert forall|k: int| 0 <= k < b.input.len() implies lo < #[trigger] b.input[k].key < hi by {
            assert(b.input[k].key == sl[bp + k].key);
        }
    }
    assert(a.input[0].key == sl[0].key);
    assert(b.input[0].key == sl[bp].key);
    assert(sl[0].key < sl[bp - 1].key);
    assert(sl[bp - 1].key < sl[bp].key);
}

/// Adding a key that falls in the gap before position `j` of strictly
/// ascending keys, then sorting, puts it at position `j`.
proof fn lemma_insert_key_in_gap(inp: Seq<ItemsView>, m: ItemsView, j: int)
    requires
        strictly_ascending(inp),
        0 <= j <= inp.len(),
        j == 0 || inp[j - 1].key < m.key,
        j == inp.len() || m.key < inp[j].key,
    ensures
        stable_sort(inp.push(m), item_key()).len() == inp.len() + 1,
        strictly_ascending(stable_sort(inp.push(m), item_key())),
        forall|i: int|
            0 <= i <= inp.len() ==> #[trigger] stable_sort(inp.push(m), item_key())[i] == (if i < j {
                inp[i]
            } else if i == j {
                m
            } else {
                inp[i - 1]
            }),
{
    lemma_sorted_stable_sort(inp, item_key());
    assert(inp.push(m).drop_last() =~= inp);
    assert forall|k: int| j <= k < inp.len() implies item_key()(inp[k]) > item_key()(m) by {
        assert(inp[j].key <= inp[k].key || j == k);
    }
    crate::btree::order::lemma_insert_sorted_at(inp, m, item_key(), j);
    let ii = inp.take(j).push(m) + inp.skip(j);
    assert(stable_sort(inp.push(m), item_key()) == ii);
    assert forall|x1: int, x2: int| 0 <= x1 < x2 < ii.len() implies ii[x1].key < ii[x2].key by {
        if x1 < j && x2 == j {
            assert(inp[x1].key <= inp[j - 1].key);
        } else if x1 == j && x2 > j {
            assert(inp[j].key <= inp[x2 - 1].key);
        }
    }
}

/// Two trees whose first keys fall in the gap before position `j` of trees
/// ordered by first key, added and sorted, come at positions `j` and `j + 1`.
proof fn lemma_sort_two_in_gap(r: Seq<Tree>, a: Tree, b: Tree, j: int)
    requires
        sorted_by(r, first_key()),
        0 <= j <= r.len(),
        j == 0 || first_key()(r[j - 1]) < first_key()(a),
        first_key()(a) < first_key()(b),
        forall|m: int| j <= m < r.len() ==> first_key()(#[trigger] r[m]) > first_key()(b),
    ensures
        stable_sort(r.push(a).push(b), first_key()).len() == r.len() + 2,
        forall|i: int|
            0 <= i < r.len() + 2 ==> #[trigger] stable_sort(r.push(a).push(b), first_key())[i] == (if i < j {
                r[i]
            } else if i == j {
                a
            } else if i == j + 1 {
                b
            } else {
                r[i - 2]
            }),
{
    lemma_sorted_stable_sort(r, first_key());
    assert(r.push(a).push(b).drop_last() =~= r.push(a));
    assert(r.push(a).drop_last() =~= r);
    crate::btree::order::lemma_insert_sorted_at(r, a, first_key(), j);
    let r2 = r.take(j).push(a) + r.skip(j);
    assert(r2[j] == a);
    assert forall|m: int| j + 1 <= m < r2.len() implies first_key()(#[trigger] r2[m]) > first_key()(b) by {
        assert(r2[m] == r[m - 1]);
    }
    crate::btree::order::lemma_insert_sorted_at(r2, b, first_key(), j + 1);
    let q = r.push(a).push(b);
    assert(stable_sort(r.push(a), first_key()) == insert_sorted(stable_sort(r, first_key()), a, first_key()));
    assert(stable_sort(r.push(a), first_key()) == r2);
    assert(stable_sort(q, first_key()) == insert_sorted(stable_sort(r.push(a), first_key()), b, first_key()));
    let c = r2.take(j + 1).push(b) + r2.skip(j + 1);
    assert(stable_sort(q, first_key()) == c);
    assert forall|i: int| 0 <= i < r.len() + 2 implies #[trigger] c[i] == (if i < j {
        r[i]
    } else if i == j {
        a
    } else if i == j + 1 {
        b
    } else {
        r[i - 2]
    }) by {
        if i > j + 1 {
            assert(c[i] == r2[i - 1]);
            assert(r2[i - 1] == r[i - 2]);
        }
    }
}

/// Folding the split child `j` into its parent keeps every other child and
/// the split child's two leaves, and drops the split child.
proof fn lemma_fold_filter(t: Tree, j: int, sp: Tree, ns: int, root: bool)
    requires
        btree_node(t, ns, root, 1),
        ns >= 2,
        0 <= j < t.children.len(),
        sp.input.len() == 1,
        sp.children.len() == 2,
        lower_bound(t, j) < sp.input[0].key < upper_bound(t, j),
        sp.children[0].input.len() > 0,
        sp.children[1].input.len() > 0,
        sp.children[0].input[0].key < sp.input[0].key < sp.children[1].input[0].key,
    ensures
        (t.children.update(j, sp) + sp.children).filter(crate::btree::repair::keeps_key(sp.input[0].key))
            == t.children.remove(j) + seq![sp.children[0], sp.children[1]],
{
    let mid = sp.input[0];
    let kk = crate::btree::repair::keeps_key(mid.key);
    let s1c = t.children.update(j, sp);
    let r = t.children.remove(j);
    lemma_btree_is_loose(t, ns, root, 1);
    crate::btree::repair::lemma_filter_drops_failing(s1c, j, sp.children, kk);
    assert(s1c.remove(j) =~= r);
    assert(sp.children =~= seq![sp.children[0], sp.children[1]]);
    let f = r + seq![sp.children[0], sp.children[1]];
    assert forall|i: int| 0 <= i < f.len() implies kk(#[trigger] f[i]) by {
        if i < r.len() {
            let o = if i < j { i } else { i + 1 };
            assert(f[i] == t.children[o]);
            assert(loose_node(t.children[o], ns, false, 0));
            lemma_first_key_between(t.children[o], lower_bound(t, o), upper_bound(t, o));
            if o < j {
                assert(t.input[o].key <= t.input[j - 1].key);
            } else {
                assert(t.input[j].key <= t.input[o - 1].key);
            }
        }
    }
    crate::btree::repair::lemma_filter_all_pass(f, kk);
}

/// The underflow pass at a parent of leaves whose child `j` was split folds
/// exactly that child into it.
proof fn lemma_fold_is_propagate(t: Tree, j: int, sp: Tree, ns: int, root: bool, lo: int, hi: int)
    requires
        ns >= 4,
        ns <= usize::MAX,
        btree_node(t, ns, root, 1),
        keys_between(t, lo, hi),
        t.rank >= 1,
        0 <= j < t.children.len(),
        sp.input.len() == 1,
        sp.rank == t.rank + 1,
        sp.children.len() == 2,
        lower_bound(t, j) < sp.input[0].key < upper_bound(t, j),
        lo < sp.input[0].key < hi,
        loose_node(sp.children[0], ns, false, 0),
        loose_node(sp.children[1], ns, false, 0),
        keys_between(sp.children[0], lower_bound(t, j), sp.input[0].key as int),
        keys_between(sp.children[1], sp.input[0].key as int, upper_bound(t, j)),
        keys_between(sp.children[0], lo, hi),
        keys_between(sp.children[1], lo, hi),
        sp.children[0].input.len() > 0,
        sp.children[1].input.len() > 0,
        sp.children[0].input[0].key < sp.input[0].key < sp.children[1].input[0].key,
    ensures
        ({
            let s1 = Tree { children: t.children.update(j, sp), ..t };
            &&& folded(s1, ns) == crate::btree::repair::spec_propagate_up(s1, j)
            &&& propagate_all_ok(s1, under_indices(s1.children, ns, s1.children.len() as int))
            &&& crate::btree::repair::propagate_ok(s1, j)
        }),
{
    let s1 = Tree { children: t.children.update(j, sp), ..t };
    lemma_btree_is_loose(t, ns, root, 1);
    assert forall|m: int| 0 <= m < s1.children.len() && m != j implies !under_sized(#[trigger] s1.children[m], ns) by {
        assert(s1.children[m] == t.children[m]);
        assert(loose_node(t.children[m], ns, false, 0));
    }
    lemma_under_one(s1.children, ns, j, s1.children.len() as int);
    let idxs = under_indices(s1.children, ns, s1.children.len() as int);
    assert(idxs.drop_last() =~= Seq::<usize>::empty());
    let p = crate::btree::repair::spec_propagate_up(s1, j);
    assert(idxs.last() as int == j);
    assert(propagate_all(p, Seq::<usize>::empty()) == p);
    assert(propagate_all_ok(p, Seq::<usize>::empty()));
    assert forall|i: int| 0 <= i < s1.children.len() implies #[trigger] s1.children[i].input.len() > 0 by {
        if i != j {
            assert(loose_node(t.children[i], ns, false, 0));
        }
    }
}

/// Where the keys and children of the folded parent sit.
proof fn lemma_propagate_layout(t: Tree, j: int, sp: Tree, ns: int, root: bool, lo: int, hi: int)
    requires
        ns >= 4,
        ns <= usize::MAX,
        btree_node(t, ns, root, 1),
        keys_between(t, lo, hi),
        t.rank >= 1,
        0 <= j < t.children.len(),
        sp.input.len() == 1,
        sp.rank == t.rank + 1,
        sp.children.len() == 2,
        lower_bound(t, j) < sp.input[0].key < upper_bound(t, j),
        lo < sp.input[0].key < hi,
        loose_node(sp.children[0], ns, false, 0),
        loose_node(sp.children[1], ns, false, 0),
        keys_between(sp.children[0], lower_bound(t, j), sp.input[0].key as int),
        keys_between(sp.children[1], sp.input[0].key as int, upper_bound(t, j)),
        keys_between(sp.children[0], lo, hi),
        keys_between(sp.children[1], lo, hi),
        sp.children[0].input.len() > 0,
        sp.children[1].input.len() > 0,
        sp.children[0].input[0].key < sp.input[0].key < sp.children[1].input[0].key,
    ensures
        ({
            let s1 = Tree { children: t.children.update(j, sp), ..t };
            let p = crate::btree::repair::spec_propagate_up(s1, j);
            &&& p.rank == t.rank
            &&& p.input.len() == t.input.len() + 1
            &&& strictly_ascending(p.input)
            &&& forall|i: int|
                0 <= i <= t.input.len() ==> #[trigger] p.input[i] == (if i < j {
                    t.input[i]
                } else if i == j {
                    item_at_rank(sp.input[0], t.rank)
                } else {
                    t.input[i - 1]
                })
            &&& p.children.len() == t.children.len() + 1
            &&& forall|i: int|
                0 <= i < p.children.len() ==> #[trigger] p.children[i] == (if i < j {
                    t.children[i]
                } else if i == j {
                    sp.children[0]
                } else if i == j + 1 {
                    sp.children[1]
                } else {
                    t.children[i - 1]
                })
        }),
{
    let s1 = Tree { children: t.children.update(j, sp), ..t };
    let mid = sp.input[0];
    let a = sp.children[0];
    let b = sp.children[1];
    let p = crate::btree::repair::spec_propagate_up(s1, j);
    lemma_btree_is_loose(t, ns, root, 1);
    let midr = item_at_rank(mid, t.rank);
    assert(with_rank(sp.input, t.rank) =~= seq![midr]);
    assert(s1.input + with_rank(sp.input, t.rank) =~= t.input.push(midr));
    lemma_insert_key_in_gap(t.input, midr, j);
    lemma_fold_filter(t, j, sp, ns, root);
    let r = t.children.remove(j);
    lemma_children_sorted(t, ns, root, 1);
    assert(sorted_by(r, first_key())) by {
        assert forall|x1: int, x2: int| 0 <= x1 <= x2 < r.len() implies first_key()(r[x1]) <= first_key()(r[x2]) by {
            let o1 = if x1 < j { x1 } else { x1 + 1 };
            let o2 = if x2 < j { x2 } else { x2 + 1 };
            assert(r[x1] == t.children[o1]);
            assert(r[x2] == t.children[o2]);
        }
    }
    lemma_first_key_between(a, lower_bound(t, j), mid.key as int);
    lemma_first_key_between(b, mid.key as int, upper_bound(t, j));
    assert forall|m: int| j <= m < r.len() implies first_key()(#[trigger] r[m]) > first_key()(b) by {
        assert(r[m] == t.children[m + 1]);
        assert(loose_node(t.children[m + 1], ns, false, 0));
        lemma_first_key_between(t.children[m + 1], lower_bound(t, m + 1), upper_bound(t, m + 1));
        assert(t.input[j].key <= t.input[m].key);
    }
    if j > 0 {
        assert(r[j - 1] == t.children[j - 1]);
        assert(loose_node(t.children[j - 1], ns, false, 0));
        lemma_first_key_between(t.children[j - 1], lower_bound(t, j - 1), upper_bound(t, j - 1));
    }
    assert(r + seq![a, b] =~= r.push(a).push(b));
    lemma_sort_two_in_gap(r, a, b, j);
    let c = p.children;
    assert forall|i: int| 0 <= i < c.len() implies #[trigger] c[i] == (if i < j {
        t.children[i]
    } else if i == j {
        a
    } else if i == j + 1 {
        b
    } else {
        t.children[i - 1]
    }) by {
        if i > j + 1 {
            assert(r[i - 2] == t.children[i - 1]);
        } else if i < j {
            assert(r[i] == t.children[i]);
        }
    }
}

/// A parent of leaves whose child `j` was split into a middle key over two
/// leaves: the underflow pass folds exactly that child into it, keeping
/// every entry, and the parent's children are leaves.
proof fn lemma_fold_core(t: Tree, j: int, sp: Tree, ns: int, root: bool, lo: int, hi: int)
    requires
        ns >= 4,
        ns <= usize::MAX,
        btree_node(t, ns, root, 1),
        keys_between(t, lo, hi),
        t.rank >= 1,
        0 <= j < t.children.len(),
        sp.input.len() == 1,
        sp.rank == t.rank + 1,
        sp.children.len() == 2,
        lower_bound(t, j) < sp.input[0].key < upper_bound(t, j),
        lo < sp.input[0].key < hi,
        loose_node(sp.children[0], ns, false, 0),
        loose_node(sp.children[1], ns, false, 0),
        keys_between(sp.children[0], lower_bound(t, j), sp.input[0].key as int),
        keys_between(sp.children[1], sp.input[0].key as int, upper_bound(t, j)),
        keys_between(sp.children[0], lo, hi),
        keys_between(sp.children[1], lo, hi),
        sp.children[0].input.len() > 0,
        sp.children[1].input.len() > 0,
        sp.children[0].input[0].key < sp.input[0].key < sp.children[1].input[0].key,
    ensures
        ({
            let s1 = Tree { children: t.children.update(j, sp), ..t };
            let s2 = spec_min_size_check(s1, ns);
            &&& min_size_ok(s1, ns)
            &&& s2 == crate::btree::repair::spec_propagate_up(s1, j)
            &&& content(s2) == content(s1)
            &&& forall|i: int| 0 <= i < s2.children.len() ==> (#[trigger] s2.children[i]).children.len() == 0
        }),
{
    let s1 = Tree { children: t.children.update(j, sp), ..t };
    let p = crate::btree::repair::spec_propagate_up(s1, j);
    lemma_fold_is_propagate(t, j, sp, ns, root, lo, hi);
    lemma_propagate_layout(t, j, sp, ns, root, lo, hi);
    lemma_btree_is_loose(t, ns, root, 1);
    let c = p.children;
    assert forall|i: int| 0 <= i < c.len() implies (#[trigger] c[i]).children.len() == 0 by {
        if i < j {
            assert(loose_node(t.children[i], ns, false, 0));
        } else if i > j + 1 {
            assert(loose_node(t.children[i - 1], ns, false, 0));
        }
    }
    let s2 = spec_min_size_check(s1, ns);
    assert(s2.children =~= c);
    assert(s2 == p);
    // folding keeps every entry: no other child starts with the middle key
    assert forall|i: int| 0 <= i < s1.children.len() && i != j implies #[trigger] s1.children[i].input[0].key
        != s1.children[j].input[0].key by {
        assert(s1.children[i] == t.children[i]);
        assert(loose_node(t.children[i], ns, false, 0));
        lemma_first_key_between(t.children[i], lower_bound(t, i), upper_bound(t, i));
        if i < j {
            assert(t.input[i].key <= t.input[j - 1].key);
        } else {
            assert(t.input[j].key <= t.input[i - 1].key);
        }
    }
    assert(s1.children[j] == sp);
    crate::btree::repair::law_propagate_up_preserves_content(s1, j);
}

/// A parent of leaves with room for one more key, whose child `j` was split
/// into a middle key over two leaves: the underflow pass folds that child
/// into the parent, and the parent comes out a loose B-tree node of height 1
/// with the middle key and the two leaves in their places.
proof fn lemma_fold_split_child(t: Tree, j: int, sp: Tree, ns: int, root: bool, lo: int, hi: int)
    requires
        ns >= 4,
        ns <= usize::MAX,
        btree_node(t, ns, root, 1),
        keys_between(t, lo, hi),
        t.rank >= 1,
        t.input.len() < ns,
        0 <= j < t.children.len(),
        sp.input.len() == 1,
        sp.rank == t.rank + 1,
        sp.children.len() == 2,
        lower_bound(t, j) < sp.input[0].key < upper_bound(t, j),
        lo < sp.input[0].key < hi,
        loose_node(sp.children[0], ns, false, 0),
        loose_node(sp.children[1], ns, false, 0),
        keys_between(sp.children[0], lower_bound(t, j), sp.input[0].key as int),
        keys_between(sp.children[1], sp.input[0].key as int, upper_bound(t, j)),
        keys_between(sp.children[0], lo, hi),
        keys_between(sp.children[1], lo, hi),
        sp.children[0].input.len() > 0,
        sp.children[1].input.len() > 0,
        sp.children[0].input[0].key < sp.input[0].key < sp.children[1].input[0].key,
    ensures
        ({
            let s1 = Tree { children: t.children.update(j, sp), ..t };
            let s2 = spec_min_size_check(s1, ns);
            &&& min_size_ok(s1, ns)
            &&& loose_node(s2, ns, root, 1)
            &&& keys_between(s2, lo, hi)
            &&& s2.rank == t.rank
            &&& forall|k: int| 0 <= k < s2.input.len() ==> #[trigger] s2.input[k].rank == t.rank
            &&& content(s2) == content(s1)
        }),
{
    let s1 = Tree { children: t.children.update(j, sp), ..t };
    let p = crate::btree::repair::spec_propagate_up(s1, j);
    lemma_fold_core(t, j, sp, ns, root, lo, hi);
    lemma_propagate_layout(t, j, sp, ns, root, lo, hi);
    lemma_folded_shape(t, j, sp, ns, root, lo, hi, p);
}

/// The shape of the folded parent, from where its keys and children sit.
proof fn lemma_folded_shape(t: Tree, j: int, sp: Tree, ns: int, root: bool, lo: int, hi: int, p: Tree)
    requires
        ns >= 4,
        btree_node(t, ns, root, 1),
        keys_between(t, lo, hi),
        t.input.len() < ns,
        0 <= j < t.children.len(),
        sp.input.len() == 1,
        sp.children.len() == 2,
        lower_bound(t, j) < sp.input[0].key < upper_bound(t, j),
        lo < sp.input[0].key < hi,
        loose_node(sp.children[0], ns, false, 0),
        loose_node(sp.children[1], ns, false, 0),
        keys_between(sp.children[0], lower_bound(t, j), sp.input[0].key as int),
        keys_between(sp.children[1], sp.input[0].key as int, upper_bound(t, j)),
        keys_between(sp.children[0], lo, hi),
        keys_between(sp.children[1], lo, hi),
        p.rank == t.rank,
        p.input.len() == t.input.len() + 1,
        strictly_ascending(p.input),
        forall|i: int|
            0 <= i <= t.input.len() ==> #[trigger] p.input[i] == (if i < j {
                t.input[i]
            } else if i == j {
                item_at_rank(sp.input[0], t.rank)
            } else {
                t.input[i - 1]
            }),
        p.children.len() == t.children.len() + 1,
        forall|i: int|
            0 <= i < p.children.len() ==> #[trigger] p.children[i] == (if i < j {
                t.children[i]
            } else if i == j {
                sp.children[0]
            } else if i == j + 1 {
                sp.children[1]
            } else {
                t.children[i - 1]
            }),
    ensures
        loose_node(p, ns, root, 1),
        keys_between(p, lo, hi),
        forall|k: int| 0 <= k < p.input.len() ==> #[trigger] p.input[k].rank == t.rank,
{
    let mid = sp.input[0];
    lemma_btree_is_loose(t, ns, root, 1);
    assert forall|i: int| 0 <= i < p.children.len() implies {
        &&& keys_between(#[trigger] p.children[i], lower_bound(p, i), upper_bound(p, i))
        &&& loose_node(p.children[i], ns, false, 0)
        &&& keys_between(p.children[i], lo, hi)
    } by {
        if i < j {
            assert(lower_bound(p, i) == lower_bound(t, i));
            assert(upper_bound(p, i) == upper_bound(t, i));
            assert(loose_node(t.children[i], ns, false, 0));
        } else if i == j {
            assert(lower_bound(p, i) == lower_bound(t, j));
            assert(upper_bound(p, i) == mid.key);
        } else if i == j + 1 {
            assert(lower_bound(p, i) == mid.key);
            assert(upper_bound(p, i) == upper_bound(t, j));
        } else {
            assert(lower_bound(p, i) == lower_bound(t, i - 1));
            assert(upper_bound(p, i) == upper_bound(t, i - 1));
            assert(loose_node(t.children[i - 1], ns, false, 0));
        }
    }
    assert forall|k: int| 0 <= k < p.input.len() implies lo < #[trigger] p.input[k].key < hi && p.input[k].rank
        == t.rank by {
    }
    assert(keys_distinct(p.input));
}

/// Along the path of `k`, the leaf that an insertion adds `k` to is full and
/// its parent has room for one more key: the split of that leaf stays in its
/// parent.
pub open spec fn split_stays_in_parent(t: Tree, k: u32, ns: int) -> bool
    decreases t,
{
    &&& t.children.len() > 0
    &&& 0 <= add_index(t, k) < t.children.len()
    &&& if t.children[add_index(t, k)].children.len() == 0 {
        t.children[add_index(t, k)].input.len() == ns && t.input.len() < ns
    } else {
        split_stays_in_parent(t.children[add_index(t, k)], k, ns)
    }
}

/// Adding a key that no node holds can read what it compares in a B-tree.
proof fn lemma_btree_add_ok(t: Tree, x: ItemsView, ns: int, root: bool, h: nat)
    requires
        btree_node(t, ns, root, h),
        key_absent(t, x.key),
    ensures
        crate::btree::ops::add_ok(t, x),
    decreases t,
{
    if h > 0 {
        assert forall|i: int| 0 <= i < t.children.len() implies crate::btree::ops::add_ok(#[trigger] t.children[i], x) by {
            lemma_btree_add_ok(t.children[i], x, ns, false, (h - 1) as nat);
        }
    }
}

/// Adding a key whose leaf is full under a parent with room: the overflow
/// pass splits that leaf, the underflow pass folds the split into the
/// parent, and the tree comes out loose, of the same height, with the same
/// keys at the root unless the root is that parent.
proof fn lemma_split_path(t: Tree, x: ItemsView, ns: int, root: bool, h: nat, lo: int, hi: int)
    requires
        ns >= 4,
        ns <= usize::MAX,
        btree_node(t, ns, root, h),
        h >= 1,
        keys_between(t, lo, hi),
        lo < x.key < hi,
        key_absent(t, x.key),
        split_stays_in_parent(t, x.key, ns),
        t.rank >= 1,
        t.rank + h < u32::MAX,
    ensures
        ({
            let u = spec_add_new_keys(t, x);
            let s1 = spec_overflow_check(u, ns);
            let s2 = spec_min_size_check(s1, ns);
            &&& overflow_ok(u, ns)
            &&& min_size_ok(s1, ns)
            &&& s1.input == t.input
            &&& s1.children.len() == t.children.len()
            &&& loose_node(s2, ns, root, h)
            &&& keys_between(s2, lo, hi)
            &&& s2.rank == t.rank
            &&& forall|k: int| 0 <= k < s2.input.len() ==> #[trigger] s2.input[k].rank == t.rank
            &&& content(s2) == content(s1)
        }),
    decreases t,
{
    let u = spec_add_new_keys(t, x);
    let s1 = spec_overflow_check(u, ns);
    lemma_add_into(t, x, ns, root, h);
    lemma_btree_is_loose(t, ns, root, h);
    let j = add_index(t, x.key);
    let cj = t.children[j];
    let lb = lower_bound(t, j);
    let ub = upper_bound(t, j);
    assert(btree_node(cj, ns, false, (h - 1) as nat));
    assert(keys_between(cj, lb, ub));
    assert(keys_between(cj, lo, hi));
    assert(key_absent(cj, x.key));
    assert forall|i: int| 0 <= i < t.children.len() && i != j implies spec_overflow_check(#[trigger] t.children[i], ns)
        == t.children[i] && overflow_ok(t.children[i], ns) by {
        lemma_overflow_identity(t.children[i], ns, false, (h - 1) as nat);
    }
    if h == 1 {
        let l2 = spec_add_new_keys(cj, x);
        assert(l2.input == cj.input.push(x));
        assert(keys_distinct(l2.input)) by {
            assert(strictly_ascending(cj.input));
        }
        lemma_add_keys_between(cj, x, lb, ub);
        lemma_add_keys_between(cj, x, lo, hi);
        lemma_split_leaf(l2, ns, lb, ub, lo, hi);
        let sp = spec_split_nodes(l2);
        assert(cj.children.len() == 0);
        assert(t.input.len() < ns && cj.input.len() == ns);
        assert(u.input.len() < ns);
        assert(u.children[j] == l2);
        assert(l2.input.len() > ns);
        assert(spec_overflow_check(l2, ns) == sp);
        assert(cj.rank == t.rank + 1);
        assert(overflow_ok(l2, ns));
        assert forall|i: int| 0 <= i < u.children.len() implies #[trigger] s1.children[i] == t.children.update(j, sp)[i]
            && overflow_ok(u.children[i], ns) by {
            if i != j {
                assert(u.children[i] == t.children[i]);
            }
        }
        assert(s1.children =~= t.children.update(j, sp));
        assert(s1 == Tree { children: t.children.update(j, sp), ..t });
        assert(overflow_ok(u, ns));
        lemma_fold_split_child(t, j, sp, ns, root, lo, hi);
    } else {
        lemma_split_path(cj, x, ns, false, (h - 1) as nat, lb, ub);
        lemma_split_path(cj, x, ns, false, (h - 1) as nat, lo, hi);
        let uc = spec_add_new_keys(cj, x);
        let s1c = spec_overflow_check(uc, ns);
        let s2c = spec_min_size_check(s1c, ns);
        assert(s1.children =~= t.children.update(j, s1c));
        assert(overflow_ok(u, ns));
        // no child is undersized, so nothing is folded here
        assert forall|m: int| 0 <= m < s1.children.len() implies !under_sized(#[trigger] s1.children[m], ns) by {
            if m == j {
                assert(s1c.input == cj.input);
            }
            assert(loose_node(t.children[m], ns, false, (h - 1) as nat));
        }
        lemma_no_under(s1.children, ns, s1.children.len() as int);
        let idxs = under_indices(s1.children, ns, s1.children.len() as int);
        assert(propagate_all(s1, idxs) == s1);
        assert(folded(s1, ns) == s1);
        assert forall|i: int| 0 <= i < s1.children.len() implies tree_size_smaller_and_fixed(t, i, ns) by {
            lemma_child_smaller(t, i);
            lemma_min_size_identity(t.children[i], ns, false, (h - 1) as nat);
        }
        let s2 = spec_min_size_check(s1, ns);
        assert forall|i: int| 0 <= i < s1.children.len() implies crate::btree::tree::tree_size(#[trigger] s1.children[i])
            < crate::btree::tree::tree_size(s1) by {
            lemma_child_smaller(s1, i);
        }
        assert forall|i: int| 0 <= i < s1.children.len() implies (#[trigger] s1.children[i]).children.len() > 0 by {
            if i != j {
                assert(loose_node(t.children[i], ns, false, (h - 1) as nat));
            }
        }
        assert(s2.children =~= t.children.update(j, s2c)) by {
            assert forall|i: int| 0 <= i < t.children.len() && i != j implies s2.children[i] == t.children[i] by {
                assert(tree_size_smaller_and_fixed(t, i, ns));
            }
        }
        assert(min_size_ok(s1, ns)) by {
            assert forall|i: int|
                0 <= i < s1.children.len() && (#[trigger] s1.children[i]).children.len() > 0 implies (
                crate::btree::tree::tree_size(s1.children[i]) < crate::btree::tree::tree_size(s1)
                    && min_size_ok(s1.children[i], ns)) by {
                if i != j {
                    assert(tree_size_smaller_and_fixed(t, i, ns));
                }
            }
        }
        assert(loose_node(s2, ns, root, h)) by {
            assert forall|i: int| 0 <= i < s2.children.len() implies {
                &&& keys_between(#[trigger] s2.children[i], lower_bound(s2, i), upper_bound(s2, i))
                &&& loose_node(s2.children[i], ns, false, (h - 1) as nat)
            } by {
                assert(lower_bound(s2, i) == lower_bound(t, i));
                assert(upper_bound(s2, i) == upper_bound(t, i));
            }
        }
        assert(keys_between(s2, lo, hi)) by {
            assert forall|i: int| 0 <= i < s2.children.len() implies keys_between(#[trigger] s2.children[i], lo, hi) by {
            }
        }
        // only the child on the path changed, and it holds the same entries
        crate::btree::regroup::lemma_forest_update(t.children, j, s1c);
        crate::btree::regroup::lemma_forest_update(t.children, j, s2c);
        let f1 = crate::btree::tree::forest_content(t.children.update(j, s1c));
        let f2 = crate::btree::tree::forest_content(t.children.update(j, s2c));
        assert(content(s2c) == content(s1c));
        assert(f1.add(content(cj)) == f2.add(content(cj)));
        assert(f1 =~= f2) by {
            assert forall|e| #[trigger] f1.count(e) == f2.count(e) by {
                assert(f1.add(content(cj)).count(e) == f1.count(e) + content(cj).count(e));
                assert(f2.add(content(cj)).count(e) == f2.count(e) + content(cj).count(e));
            }
        }
        assert(s1.children == t.children.update(j, s1c));
        assert(s2.children == t.children.update(j, s2c));
    }
}

/// Inserting a key that no node holds into a valid B-tree, where the leaf
/// that takes the key is full and its parent has room for one more key, adds
/// the key and leaves a valid B-tree: the leaf is split, its middle key goes
/// up into the parent, every pass of the repair sequence can run, and the
/// tree that comes out is a valid B-tree of the same height.
pub proof fn law_insert_splitting_a_leaf_keeps_valid_btree(t: Tree, k: u32, v: String, txn: u32, ns: int)
    requires
        ns >= 4,
        ns <= usize::MAX,
        valid_btree(t, ns),
        key_absent(t, k),
        split_stays_in_parent(t, k, ns),
        height(t) + 1 < u32::MAX,
    ensures
        spec_insert(t, k, v, txn, ns).1,
        crate::btree::ops::add_ok(t, new_item(k, v, txn)),
        validate_ok(spec_add_new_keys(t, new_item(k, v, txn)), ns),
        valid_btree(spec_insert(t, k, v, txn, ns).0, ns),
        content(spec_insert(t, k, v, txn, ns).0) == content(t).add(entry_one(new_item(k, v, txn))),
{
    let h = height(t);
    let x = new_item(k, v, txn);
    lemma_absent_not_found(t, k, Some(v), txn);
    lemma_btree_add_ok(t, x, ns, true, h);
    lemma_btree_is_loose(t, ns, true, h);
    assert(h >= 1);
    lemma_keys_between_any(t);
    lemma_split_path(t, x, ns, true, h, -1, u32::MAX as int + 1);
    let u = spec_add_new_keys(t, x);
    let st = repair_stages(u, ns);
    lemma_repair_tail(u, ns, h);
    // what the tree holds: the new entry added, nothing else changed
    crate::btree::scan::law_overflow_check_preserves_content(u, ns);
    lemma_absent_not_fetched(t, k);
    lemma_btree_path_sorted(t, k, ns, true, h);
    crate::mvcc::visibility::lemma_add_content(t, x);
}

/// Inserting a key into a valid B-tree that is a single full leaf splits it
/// into a root holding the middle key over two leaves, a valid B-tree one
/// level higher.
proof fn lemma_insert_into_full_root_leaf(t: Tree, x: ItemsView, ns: int)
    requires
        ns >= 4,
        valid_btree(t, ns),
        t.children.len() == 0,
        t.input.len() == ns,
        key_absent(t, x.key),
        x.rank == 1,
    ensures
        ({
            let u = spec_add_new_keys(t, x);
            let st = repair_stages(u, ns);
            &&& overflow_ok(u, ns)
            &&& min_size_ok(st[1], ns)
            &&& loose_node(st[2], ns, true, 1)
            &&& st[2].rank == 1
            &&& forall|j: int| 0 <= j < st[2].input.len() ==> #[trigger] st[2].input[j].rank == 1
            &&& content(st[2]) == content(u)
        }),
{
    let u = spec_add_new_keys(t, x);
    let st = repair_stages(u, ns);
    assert(height(t) == 0);
    lemma_btree_is_loose(t, ns, true, 0);
    assert(u.input == t.input.push(x));
    assert(keys_distinct(u.input)) by {
        assert(strictly_ascending(t.input));
    }
    lemma_keys_between_any(u);
    lemma_split_leaf(u, ns, -1, u32::MAX as int + 1, -1, u32::MAX as int + 1);
    let sp = spec_split_nodes(u);
    assert(st[1] == sp);
    assert(sp.input[0].rank == 1) by {
        let sl = stable_sort(u.input, item_key());
        lemma_sort_distinct(u.input);
        let bp = crate::btree::repair::breaking_point(sl.len());
        assert(sp.input[0] == sl[bp - 1]);
        assert(u.input.contains(sl[bp - 1]));
        let m = choose|m: int| 0 <= m < u.input.len() && u.input[m] == sl[bp - 1];
        if m < t.input.len() {
            assert(u.input[m] == t.input[m]);
        }
    }
    // neither new leaf is undersized, and they have no children
    assert forall|m: int| 0 <= m < sp.children.len() implies !under_sized(#[trigger] sp.children[m], ns) by {
    }
    lemma_no_under(sp.children, ns, sp.children.len() as int);
    let idxs = under_indices(sp.children, ns, sp.children.len() as int);
    assert(propagate_all(sp, idxs) == sp);
    assert(folded(sp, ns) == sp);
    let s2 = spec_min_size_check(sp, ns);
    assert(s2.children =~= sp.children);
    assert(s2 == sp);
    assert(min_size_ok(sp, ns));
    assert(strictly_ascending(sp.input));
    assert(loose_node(sp, ns, true, 1)) by {
        assert forall|i: int| 0 <= i < sp.children.len() implies {
            &&& keys_between(#[trigger] sp.children[i], lower_bound(sp, i), upper_bound(sp, i))
            &&& loose_node(sp.children[i], ns, false, 0)
        } by {
        }
    }
    crate::btree::repair::law_split_preserves_content(u);
}

/// Whether inserting `k` splits no node but, at most, the leaf that takes
/// the key: that leaf has room, or it is the root, or its parent has room.
pub open spec fn split_does_not_cascade(t: Tree, k: u32, ns: int) -> bool {
    ||| leaf_has_room(t, k, ns)
    ||| t.children.len() == 0
    ||| split_stays_in_parent(t, k, ns)
}

/// The root holds `ns` keys over leaves, and the leaf that takes `k` is full
/// too: the split of the leaf climbs into the root and splits it.
pub open spec fn splits_full_root_of_leaves(t: Tree, k: u32, ns: int) -> bool {
    &&& height(t) == 1
    &&& t.input.len() == ns
    &&& t.children[add_index(t, k)].input.len() == ns
}

/// Every key of the tree, and `k`, lies strictly between 0 and `u32::MAX`.
pub open spec fn keys_strictly_inside(t: Tree, k: u32) -> bool {
    &&& keys_between(t, 0, u32::MAX as int)
    &&& 0 < k < u32::MAX
}

/// The insertions of `k` that the repairs are shown to handle: those that
/// split at most the leaf taking the key, and those where that split climbs
/// into a full root of leaves, with every key strictly between 0 and
/// `u32::MAX`.
pub open spec fn insertion_covered(t: Tree, k: u32, ns: int) -> bool {
    ||| split_does_not_cascade(t, k, ns)
    ||| splits_full_root_of_leaves(t, k, ns) && keys_strictly_inside(t, k)
}

/// Inserting a key into a valid B-tree leaves a valid B-tree: a key already
/// on its search path gets a new version; otherwise the key is added, the
/// leaf that takes it is split when it is full, a full root of leaves that
/// the split climbs into is split in turn and its leaves regrouped, and
/// every pass of the repair sequence can run.
pub proof fn law_insert_keeps_valid_btree(t: Tree, k: u32, v: String, txn: u32, ns: int)
    requires
        ns >= 4,
        ns <= usize::MAX,
        valid_btree(t, ns),
        spec_find_update(t, k, Some(v), txn, false).1 || (key_absent(t, k) && insertion_covered(t, k, ns)),
        height(t) + 1 < u32::MAX,
    ensures
        valid_btree(spec_insert(t, k, v, txn, ns).0, ns),
        spec_insert(t, k, v, txn, ns).1 ==> validate_ok(spec_add_new_keys(t, new_item(k, v, txn)), ns),
        spec_insert(t, k, v, txn, ns).1 ==> content(spec_insert(t, k, v, txn, ns).0) == content(t).add(
            entry_one(new_item(k, v, txn)),
        ),
{
    if spec_find_update(t, k, Some(v), txn, false).1 {
        law_insert_existing_keeps_valid_btree(t, k, v, txn, ns);
    } else if leaf_has_room(t, k, ns) {
        law_insert_with_room_keeps_valid_btree(t, k, v, txn, ns);
    } else if t.children.len() == 0 {
        let x = new_item(k, v, txn);
        lemma_btree_is_loose(t, ns, true, 0);
        assert(t.input.len() == ns);
        lemma_insert_into_full_root_leaf(t, x, ns);
        lemma_repair_tail(spec_add_new_keys(t, x), ns, 1);
        lemma_absent_not_fetched(t, k);
        lemma_btree_path_sorted(t, k, ns, true, 0);
        lemma_btree_add_ok(t, x, ns, true, 0);
        crate::mvcc::visibility::lemma_add_content(t, x);
    } else if split_stays_in_parent(t, k, ns) {
        law_insert_splitting_a_leaf_keeps_valid_btree(t, k, v, txn, ns);
    } else {
        law_insert_splitting_a_full_root_keeps_valid_btree(t, k, v, txn, ns);
    }
}

/// A root of leaves, after its child `j` was split and folded into it: one
/// key more than `ns`, all at rank 1, in order and strictly inside `0` and
/// `u32::MAX`, over `ns + 2` leaves in their gaps.
pub open spec fn overfull_root_of_leaves(p: Tree, ns: int) -> bool {
    &&& p.rank == 1
    &&& p.input.len() == ns + 1
    &&& strictly_ascending(p.input)
    &&& forall|k: int| 0 <= k < p.input.len() ==> (#[trigger] p.input[k]).rank == 1 && 0 < p.input[k].key < u32::MAX
    &&& p.children.len() == ns + 2
    &&& forall|i: int|
        0 <= i < p.children.len() ==> {
            &&& (#[trigger] p.children[i]).children.len() == 0
            &&& loose_node(p.children[i], ns, false, 0)
            &&& keys_between(p.children[i], lower_bound(p, i), upper_bound(p, i))
            &&& keys_between(p.children[i], 0, u32::MAX as int)
            &&& p.children[i].input.len() > 0
        }
}

/// Adding a key to a full leaf under a full root of leaves: the overflow pass
/// splits the leaf and the underflow pass folds the split into the root,
/// which is then one key too full.
proof fn lemma_root_cascade_fold(t: Tree, x: ItemsView, ns: int)
    requires
        ns >= 4,
        ns <= usize::MAX,
        valid_btree(t, ns),
        height(t) == 1,
        t.input.len() == ns,
        t.children[add_index(t, x.key)].input.len() == ns,
        key_absent(t, x.key),
        keys_between(t, 0, u32::MAX as int),
        0 < x.key < u32::MAX,
    ensures
        ({
            let u = spec_add_new_keys(t, x);
            let st = repair_stages(u, ns);
            &&& overflow_ok(u, ns)
            &&& min_size_ok(st[1], ns)
            &&& overfull_root_of_leaves(st[2], ns)
            &&& content(st[2]) == content(u)
        }),
{
    let u = spec_add_new_keys(t, x);
    let st = repair_stages(u, ns);
    let s1 = spec_overflow_check(u, ns);
    lemma_add_into(t, x, ns, true, 1);
    lemma_btree_is_loose(t, ns, true, 1);
    let j = add_index(t, x.key);
    let cj = t.children[j];
    let lb = lower_bound(t, j);
    let ub = upper_bound(t, j);
    let lo = 0int;
    let hi = u32::MAX as int;
    assert(btree_node(cj, ns, false, 0));
    assert(keys_between(cj, lb, ub));
    assert(keys_between(cj, lo, hi));
    assert(key_absent(cj, x.key));
    assert forall|i: int| 0 <= i < t.children.len() && i != j implies spec_overflow_check(#[trigger] t.children[i], ns)
        == t.children[i] && overflow_ok(t.children[i], ns) by {
        lemma_overflow_identity(t.children[i], ns, false, 0);
    }
    let l2 = spec_add_new_keys(cj, x);
    assert(l2.input == cj.input.push(x));
    assert(keys_distinct(l2.input)) by {
        assert(strictly_ascending(cj.input));
    }
    lemma_add_keys_between(cj, x, lb, ub);
    lemma_add_keys_between(cj, x, lo, hi);
    lemma_split_leaf(l2, ns, lb, ub, lo, hi);
    let sp = spec_split_nodes(l2);
    assert(u.children[j] == l2);
    assert(u.input.len() == ns);
    assert(l2.input.len() > ns);
    assert(spec_overflow_check(l2, ns) == sp);
    assert(cj.rank == t.rank + 1);
    assert(overflow_ok(l2, ns));
    assert forall|i: int| 0 <= i < u.children.len() implies #[trigger] s1.children[i] == t.children.update(j, sp)[i]
        && overflow_ok(u.children[i], ns) by {
        if i != j {
            assert(u.children[i] == t.children[i]);
        }
    }
    assert(s1.children =~= t.children.update(j, sp));
    assert(s1 == Tree { children: t.children.update(j, sp), ..t });
    assert(overflow_ok(u, ns));
    lemma_fold_core(t, j, sp, ns, true, lo, hi);
    lemma_propagate_layout(t, j, sp, ns, true, lo, hi);
    let p = st[2];
    assert(p == crate::btree::repair::spec_propagate_up(s1, j));
    crate::btree::scan::law_overflow_check_preserves_content(u, ns);
    // where the keys and children of the folded root sit
    let a = sp.children[0];
    let b = sp.children[1];
    let mid = sp.input[0];
    assert forall|k: int| 0 <= k < p.input.len() implies (#[trigger] p.input[k]).rank == 1 && 0 < p.input[k].key
        < u32::MAX by {
    }
    assert forall|i: int| 0 <= i < p.children.len() implies {
        &&& (#[trigger] p.children[i]).children.len() == 0
        &&& loose_node(p.children[i], ns, false, 0)
        &&& keys_between(p.children[i], lower_bound(p, i), upper_bound(p, i))
        &&& keys_between(p.children[i], 0, u32::MAX as int)
        &&& p.children[i].input.len() > 0
    } by {
        if i < j {
            assert(lower_bound(p, i) == lower_bound(t, i));
            assert(upper_bound(p, i) == upper_bound(t, i));
            assert(loose_node(t.children[i], ns, false, 0));
        } else if i == j {
            assert(lower_bound(p, i) == lower_bound(t, j));
            assert(upper_bound(p, i) == mid.key);
        } else if i == j + 1 {
            assert(lower_bound(p, i) == mid.key);
            assert(upper_bound(p, i) == upper_bound(t, j));
        } else {
            assert(lower_bound(p, i) == lower_bound(t, i - 1));
            assert(upper_bound(p, i) == upper_bound(t, i - 1));
            assert(loose_node(t.children[i - 1], ns, false, 0));
        }
    }
}

/// Widening the bounds keeps a subtree's keys inside them.
proof fn lemma_keys_between_widen(t: Tree, a: int, b: int, a2: int, b2: int)
    requires
        keys_between(t, a, b),
        a2 <= a,
        b <= b2,
    ensures
        keys_between(t, a2, b2),
    decreases t,
{
    assert forall|i: int| 0 <= i < t.children.len() implies keys_between(#[trigger] t.children[i], a2, b2) by {
        lemma_keys_between_widen(t.children[i], a, b, a2, b2);
    }
}

/// The passes between the fold and the second overflow pass leave an
/// overfull root of leaves alone; that overflow pass splits it, and the
/// passes after it leave the split root alone up to the regrouping.
proof fn lemma_overfull_root_passes(p: Tree, ns: int)
    requires
        ns >= 4,
        overfull_root_of_leaves(p, ns),
    ensures
        spec_sort_main_nodes(p) == p,
        spec_sort_children_nodes(p) == p,
        children_comparable(p.children),
        child_overflow_ok(p),
        spec_child_overflow(p) == p,
        min_size_ok(p, ns),
        spec_min_size_check(p, ns) == p,
        overflow_ok(p, ns),
        spec_overflow_check(p, ns) == spec_split_nodes(p),
        min_size_ok(spec_split_nodes(p), ns),
        spec_min_size_check(spec_split_nodes(p), ns) == spec_split_nodes(p),
        spec_sort_main_nodes(spec_split_nodes(p)) == spec_split_nodes(p),
{
    lemma_sorted_stable_sort(p.input, item_key());
    assert(spec_sort_main_nodes(p) == p);
    assert(sorted_by(p.children, first_key())) by {
        assert forall|x1: int, x2: int| 0 <= x1 <= x2 < p.children.len() implies first_key()(p.children[x1])
            <= first_key()(p.children[x2]) by {
            if x1 < x2 {
                lemma_first_key_between(p.children[x1], lower_bound(p, x1), upper_bound(p, x1));
                lemma_first_key_between(p.children[x2], lower_bound(p, x2), upper_bound(p, x2));
                assert(p.input[x1].key <= p.input[x2 - 1].key);
            }
        }
    }
    lemma_sorted_stable_sort(p.children, first_key());
    assert(spec_sort_children_nodes(p) == p);
    assert forall|i: int| 0 <= i < p.children.len() implies child_overflow_ok(#[trigger] p.children[i])
        && spec_child_overflow(p.children[i]) == p.children[i] && spec_min_size_check(p.children[i], ns)
        == p.children[i] && !under_sized(p.children[i], ns) by {
        lemma_child_overflow_identity(p.children[i], ns, false, 0);
        lemma_min_size_identity(p.children[i], ns, false, 0);
    }
    assert(spec_child_overflow(p).children =~= p.children);
    lemma_no_under(p.children, ns, p.children.len() as int);
    assert(propagate_all(p, under_indices(p.children, ns, p.children.len() as int)) == p);
    assert(spec_min_size_check(p, ns).children =~= p.children);
    // the split of the overfull root
    let r = spec_split_nodes(p);
    let sl = stable_sort(p.input, item_key());
    let bp = crate::btree::repair::breaking_point(sl.len());
    assert(bp == ns / 2 + 1);
    let ll = crate::btree::tree::leaf(crate::btree::repair::split_lower(sl), 2);
    let uu = crate::btree::tree::leaf(crate::btree::repair::split_upper(sl), 2);
    assert(r.children == p.children.push(ll).push(uu));
    assert(ll.input.len() == ns / 2);
    assert(uu.input.len() == ns + 1 - bp);
    assert forall|i: int| 0 <= i < r.children.len() implies !under_sized(#[trigger] r.children[i], ns)
        && r.children[i].children.len() == 0 by {
        if i < p.children.len() {
            assert(r.children[i] == p.children[i]);
        }
    }
    lemma_no_under(r.children, ns, r.children.len() as int);
    assert(propagate_all(r, under_indices(r.children, ns, r.children.len() as int)) == r);
    assert(spec_min_size_check(r, ns).children =~= r.children);
    assert(r.input.len() == 1);
    assert(stable_sort(r.input, item_key()) == r.input) by {
        lemma_sorted_stable_sort(r.input, item_key());
    }
}

proof fn lemma_encloses_some_at(cs: Seq<Tree>, p: Tree, j: int, n: int, m: int)
    requires
        0 <= j <= m < n,
        encloses(p, cs[m]),
    ensures
        encloses_some(cs, p, j, n),
    decreases m - j,
{
    if j < m && !encloses(p, cs[j]) {
        lemma_encloses_some_at(cs, p, j + 1, n, m);
    }
}

proof fn lemma_encloses_none(cs: Seq<Tree>, p: Tree, j: int, n: int)
    requires
        0 <= j,
        forall|m: int| j <= m < n ==> !encloses(p, #[trigger] cs[m]),
    ensures
        !encloses_some(cs, p, j, n),
    decreases n - j,
{
    if j < n {
        lemma_encloses_none(cs, p, j + 1, n);
    }
}

proof fn lemma_scan_ok_all(cs: Seq<Tree>, p: Tree, j: int, n: int)
    requires
        0 <= j,
        n <= cs.len(),
        forall|m: int| 0 <= m < cs.len() ==> (#[trigger] cs[m]).input.len() > 0,
    ensures
        scan_ok(cs, p, j, n),
    decreases n - j,
{
    if j < n {
        lemma_scan_ok_all(cs, p, j + 1, n);
    }
}

/// Children from `i` up to `m0` that enclose no child stay where they are.
proof fn lemma_regroup_skip(cs: Seq<Tree>, i: int, m0: int, n: int)
    requires
        0 <= i <= m0 <= n,
        n == cs.len(),
        forall|m: int| 0 <= m < cs.len() ==> (#[trigger] cs[m]).input.len() > 0,
        forall|a: int, c: int| i <= a < m0 && 0 <= c < n ==> !encloses(#[trigger] cs[a], #[trigger] cs[c]),
    ensures
        regroup(cs, i, n) == regroup(cs, m0, n),
        regroup_ok(cs, i, n) == regroup_ok(cs, m0, n),
    decreases m0 - i,
{
    if i < m0 {
        assert forall|c: int| 0 <= c < n implies !encloses(cs[i], #[trigger] cs[c]) by {
        }
        lemma_encloses_none(cs, cs[i], 0, n);
        assert(regroup_step(cs, i, n) == cs);
        lemma_scan_ok_all(cs, cs[i], 0, n);
        lemma_regroup_skip(cs, i + 1, m0, n);
    }
}

/// The split of an overfull root of leaves: the middle key over the old
/// leaves followed by two new leaves of the keys below and above it.
proof fn lemma_split_root_facts(p: Tree, ns: int)
    requires
        ns >= 4,
        overfull_root_of_leaves(p, ns),
    ensures
        ({
            let r = spec_split_nodes(p);
            let bp = ns / 2 + 1;
            let ll = r.children[ns + 2];
            let uu = r.children[ns + 3];
            &&& r.rank == 1
            &&& r.input.len() == 1
            &&& r.input[0] == p.input[bp - 1]
            &&& r.children.len() == ns + 4
            &&& forall|i: int| 0 <= i < ns + 2 ==> #[trigger] r.children[i] == p.children[i]
            &&& ll.children.len() == 0 && uu.children.len() == 0
            &&& ll.rank == 2 && uu.rank == 2
            &&& ll.input.len() == bp - 1
            &&& uu.input.len() == ns + 1 - bp
            &&& forall|i: int| 0 <= i < bp - 1 ==> (#[trigger] ll.input[i]).key == p.input[i].key && ll.input[i].rank == 2
            &&& forall|i: int| 0 <= i < ns + 1 - bp ==> (#[trigger] uu.input[i]).key == p.input[bp + i].key && uu.input[i].rank == 2
        }),
{
    lemma_sorted_stable_sort(p.input, item_key());
    let r = spec_split_nodes(p);
    let sl = stable_sort(p.input, item_key());
    assert(sl == p.input);
    let bp = crate::btree::repair::breaking_point(sl.len());
    assert(bp == ns / 2 + 1);
    let ll = crate::btree::tree::leaf(crate::btree::repair::split_lower(sl), 2);
    let uu = crate::btree::tree::leaf(crate::btree::repair::split_upper(sl), 2);
    assert(r.children == p.children.push(ll).push(uu));
    assert(r.children[ns + 2] == ll);
    assert(r.children[ns + 3] == uu);
}

/// The regrouping pass on the split root: the old leaves enclose nothing,
/// the leaf of lower keys encloses the second old leaf and is moved to the
/// end, and ordering the last two puts the children back as they were.
proof fn lemma_regroup_split_root(p: Tree, ns: int)
    requires
        ns >= 4,
        overfull_root_of_leaves(p, ns),
    ensures
        regroup_ok(spec_split_nodes(p).children, 0, ns + 4),
        regrouped_children(spec_split_nodes(p)) == spec_split_nodes(p).children,
{
    let r = spec_split_nodes(p);
    lemma_split_root_facts(p, ns);
    let bp = ns / 2 + 1;
    let n = ns + 4;
    let cs = r.children;
    let ll = cs[ns + 2];
    let uu = cs[ns + 3];
    let c = p.children;
    assert forall|m: int| 0 <= m < cs.len() implies (#[trigger] cs[m]).input.len() > 0 by {
        if m < ns + 2 {
            assert(cs[m] == c[m]);
        }
    }
    // first and last keys
    assert(first_of(ll) == p.input[0].key);
    assert(last_of(ll) == p.input[bp - 2].key);
    assert(first_of(uu) == p.input[bp].key);
    assert(last_of(uu) == p.input[ns].key);
    assert forall|i: int| 0 <= i < ns + 2 implies lower_bound(p, i) < first_of(#[trigger] c[i]) && last_of(c[i])
        < upper_bound(p, i) by {
        assert(keys_between(c[i], lower_bound(p, i), upper_bound(p, i)));
        assert(lower_bound(p, i) < c[i].input[0].key < upper_bound(p, i));
        assert(lower_bound(p, i) < c[i].input[c[i].input.len() - 1].key < upper_bound(p, i));
    }
    // an old leaf encloses no child
    assert forall|a: int, b: int| 0 <= a < ns + 2 && 0 <= b < n implies !encloses(#[trigger] cs[a], #[trigger] cs[b]) by {
        assert(cs[a] == c[a]);
        if b < ns + 2 {
            assert(cs[b] == c[b]);
            if a < b {
                assert(p.input[a].key <= p.input[b - 1].key);
            } else if a > b {
                assert(p.input[b].key <= p.input[a - 1].key);
            }
        } else if b == ns + 2 {
            if a > 0 {
                assert(p.input[0].key <= p.input[a - 1].key);
            } else {
                assert(p.input[0].key <= p.input[bp - 2].key);
            }
        } else {
            if a > bp {
                assert(p.input[bp].key <= p.input[a - 1].key);
            } else {
                assert(p.input[a].key <= p.input[bp].key);
                assert(p.input[bp].key <= p.input[ns].key);
            }
        }
    }
    lemma_regroup_skip(cs, 0, ns + 2, n);
    // the leaf of lower keys encloses the second old leaf
    assert(encloses(ll, c[1])) by {
        assert(p.input[1].key <= p.input[bp - 2].key);
    }
    assert(cs[1] == c[1]);
    lemma_encloses_some_at(cs, ll, 0, n, 1);
    let cs1 = cs.push(ll).remove(ns + 2);
    assert(regroup_step(cs, ns + 2, n) == cs1);
    assert(cs1 =~= c + seq![uu, ll]);
    assert(cs1[1] == c[1]);
    assert(cs1[ns + 3] == ll);
    lemma_encloses_some_at(cs1, ll, 0, n, 1);
    assert(cs1.push(ll).remove(ns + 3) =~= cs1);
    assert(regroup_step(cs1, ns + 3, n) == cs1);
    assert(regroup(cs1, n, n) == cs1);
    assert(regroup(cs1, ns + 3, n) == cs1);
    assert(regroup(cs, ns + 2, n) == cs1);
    assert forall|m: int| 0 <= m < cs1.len() implies (#[trigger] cs1[m]).input.len() > 0 by {
        if m < ns + 2 {
            assert(cs1[m] == c[m]);
        }
    }
    lemma_scan_ok_all(cs, ll, 0, n);
    lemma_scan_ok_all(cs1, ll, 0, n);
    assert(regroup_ok(cs1, n, n));
    assert(regroup_ok(cs1, ns + 3, n));
    assert(regroup_ok(cs, ns + 2, n));
    assert(r.children.len() == n);
    assert(first_of(cs1[n - 2]) > first_of(cs1[n - 1])) by {
        assert(p.input[0].key < p.input[bp].key);
    }
    assert(order_last_two(cs1) =~= cs);
}

/// The children while the regrouping moves the old leaves, from `i` on,
/// under the two new parents: those below the middle key (the first `bp`)
/// under `ll`, the others under `uu`.
pub open spec fn distribute_state(c: Seq<Tree>, ll: Tree, uu: Tree, bp: int, i: int) -> Seq<Tree> {
    c.subrange(i, c.len() as int) + seq![
        Tree { children: c.subrange(0, if i < bp { i } else { bp }), ..ll },
        Tree { children: c.subrange(bp, if i < bp { bp } else { i }), ..uu },
    ]
}

proof fn lemma_distribute_root(p: Tree, ns: int, i: int)
    requires
        ns >= 4,
        overfull_root_of_leaves(p, ns),
        0 <= i <= ns + 2,
    ensures
        ({
            let r = spec_split_nodes(p);
            let bp = ns / 2 + 1;
            let mid = p.input[bp - 1].key;
            let b1 = seq![0u32, mid];
            let b2 = seq![mid, u32::MAX];
            let st = distribute_state(p.children, r.children[ns + 2], r.children[ns + 3], bp, i);
            &&& distribute(st, 0, (ns + 2 - i) as nat, b1, b2) == distribute_state(
                p.children,
                r.children[ns + 2],
                r.children[ns + 3],
                bp,
                ns + 2,
            )
            &&& distribute_ok(st, 0, (ns + 2 - i) as nat, b1, b2)
        }),
    decreases ns + 2 - i,
{
    let r = spec_split_nodes(p);
    lemma_split_root_facts(p, ns);
    let bp = ns / 2 + 1;
    let mid = p.input[bp - 1].key;
    let b1 = seq![0u32, mid];
    let b2 = seq![mid, u32::MAX];
    let c = p.children;
    let ll = r.children[ns + 2];
    let uu = r.children[ns + 3];
    let big = ns + 2;
    if i < big {
        let cs = distribute_state(c, ll, uu, bp, i);
        let m = cs.len();
        let k = cs[0];
        assert(k == c[i]);
        assert(keys_between(c[i], lower_bound(p, i), upper_bound(p, i)));
        assert(keys_between(c[i], 0, u32::MAX as int));
        let last = c[i].input.len() - 1;
        assert(0 < c[i].input[0].key < u32::MAX);
        assert(0 < c[i].input[last].key < u32::MAX);
        assert(lower_bound(p, i) < c[i].input[0].key);
        assert(c[i].input[last].key < upper_bound(p, i));
        if i < bp {
            assert(p.input[i].key <= p.input[bp - 1].key);
            assert(within(k, b1));
            let nx = cs.update(m - 2, adopt(cs[m - 2], k)).remove(0);
            assert(c.subrange(0, i).push(c[i]) =~= c.subrange(0, i + 1));
            assert(nx =~= distribute_state(c, ll, uu, bp, i + 1));
        } else {
            assert(p.input[bp - 1].key <= p.input[i - 1].key);
            assert(!within(k, b1));
            assert(within(k, b2));
            let nx = cs.update(m - 1, adopt(cs[m - 1], k)).remove(0);
            assert(c.subrange(bp, i).push(c[i]) =~= c.subrange(bp, i + 1));
            assert(nx =~= distribute_state(c, ll, uu, bp, i + 1));
        }
        lemma_distribute_root(p, ns, i + 1);
    }
}

/// The regrouping of the split root: the old leaves below the middle key go
/// under the leaf of lower keys, the others under the leaf of higher keys.
proof fn lemma_fix_split_root(p: Tree, ns: int)
    requires
        ns >= 4,
        overfull_root_of_leaves(p, ns),
    ensures
        ({
            let r = spec_split_nodes(p);
            let bp = ns / 2 + 1;
            &&& crate::btree::scan::mismatched(r)
            &&& fix_ok(r)
            &&& spec_fix_child_count_mismatch(r) == (Tree {
                children: distribute_state(p.children, r.children[ns + 2], r.children[ns + 3], bp, ns + 2),
                ..r
            })
        }),
{
    let r = spec_split_nodes(p);
    lemma_split_root_facts(p, ns);
    lemma_regroup_split_root(p, ns);
    let bp = ns / 2 + 1;
    let c = p.children;
    let ll = r.children[ns + 2];
    let uu = r.children[ns + 3];
    let mid = p.input[bp - 1].key;
    let b = regrouped_children(r);
    assert(b == r.children);
    assert(distribute_state(c, ll, uu, bp, 0) =~= r.children) by {
        assert(c.subrange(0, 0) =~= ll.children);
        assert(c.subrange(bp, bp) =~= uu.children);
        assert(c.subrange(0, ns + 2) =~= c);
    }
    assert(last_of(ll) == p.input[bp - 2].key);
    assert(first_of(uu) == p.input[bp].key);
    assert(last_of(uu) == p.input[ns].key);
    assert(p.input[bp - 2].key < mid);
    assert(p.input[ns].key > mid);
    assert(parent_one_bounds(r) == seq![0u32, mid]);
    assert(parent_two_bounds(r) == seq![mid, u32::MAX]);
    lemma_distribute_root(p, ns, 0);
}

/// After the regrouping, the split root holds its middle key over two
/// parents of leaves: a loose B-tree node of height 2.
proof fn lemma_fixed_root_shape(p: Tree, ns: int)
    requires
        ns >= 4,
        overfull_root_of_leaves(p, ns),
    ensures
        ({
            let r = spec_split_nodes(p);
            let f = Tree {
                children: distribute_state(p.children, r.children[ns + 2], r.children[ns + 3], ns / 2 + 1, ns + 2),
                ..r
            };
            &&& loose_node(f, ns, true, 2)
            &&& f.rank == 1
            &&& forall|j: int| 0 <= j < f.input.len() ==> #[trigger] f.input[j].rank == 1
        }),
{
    let r = spec_split_nodes(p);
    lemma_split_root_facts(p, ns);
    let bp = ns / 2 + 1;
    let big = ns + 2;
    let c = p.children;
    let ll = r.children[ns + 2];
    let uu = r.children[ns + 3];
    let mid = p.input[bp - 1].key;
    let f = Tree { children: distribute_state(c, ll, uu, bp, big), ..r };
    let l2 = Tree { children: c.subrange(0, bp), ..ll };
    let u2 = Tree { children: c.subrange(bp, big), ..uu };
    assert(f.children =~= seq![l2, u2]);
    assert(f.input == r.input);
    assert(upper_bound(f, 0) == mid as int);
    assert(lower_bound(f, 1) == mid as int);
    // the parent of the lower leaves
    assert(strictly_ascending(l2.input)) by {
        assert forall|x1: int, x2: int| 0 <= x1 < x2 < l2.input.len() implies l2.input[x1].key < l2.input[x2].key by {
            assert(l2.input[x1].key == p.input[x1].key);
            assert(l2.input[x2].key == p.input[x2].key);
        }
    }
    assert forall|i: int| 0 <= i < l2.children.len() implies {
        &&& keys_between(#[trigger] l2.children[i], lower_bound(l2, i), upper_bound(l2, i))
        &&& loose_node(l2.children[i], ns, false, 0)
        &&& keys_between(l2.children[i], -1, mid as int)
    } by {
        assert(l2.children[i] == c[i]);
        assert(keys_between(c[i], lower_bound(p, i), upper_bound(p, i)));
        if i > 0 {
            assert(lower_bound(l2, i) == lower_bound(p, i));
        }
        assert(p.input[i].key <= mid);
        if i < bp - 1 {
            assert(upper_bound(l2, i) == upper_bound(p, i));
        }
        lemma_keys_between_widen(c[i], lower_bound(p, i), upper_bound(p, i), lower_bound(l2, i), upper_bound(l2, i));
        lemma_keys_between_widen(c[i], lower_bound(p, i), upper_bound(p, i), -1, mid as int);
    }
    assert(loose_node(l2, ns, false, 1));
    assert(keys_between(l2, -1, mid as int)) by {
        assert forall|k: int| 0 <= k < l2.input.len() implies -1 < #[trigger] l2.input[k].key < mid by {
            assert(l2.input[k].key == p.input[k].key);
        }
    }
    // the parent of the higher leaves
    assert(strictly_ascending(u2.input)) by {
        assert forall|x1: int, x2: int| 0 <= x1 < x2 < u2.input.len() implies u2.input[x1].key < u2.input[x2].key by {
            assert(u2.input[x1].key == p.input[bp + x1].key);
            assert(u2.input[x2].key == p.input[bp + x2].key);
        }
    }
    assert forall|i: int| 0 <= i < u2.children.len() implies {
        &&& keys_between(#[trigger] u2.children[i], lower_bound(u2, i), upper_bound(u2, i))
        &&& loose_node(u2.children[i], ns, false, 0)
        &&& keys_between(u2.children[i], mid as int, u32::MAX as int + 1)
    } by {
        assert(u2.children[i] == c[bp + i]);
        assert(keys_between(c[bp + i], lower_bound(p, bp + i), upper_bound(p, bp + i)));
        if i > 0 {
            assert(lower_bound(u2, i) == lower_bound(p, bp + i));
        }
        assert(upper_bound(u2, i) == upper_bound(p, bp + i));
        assert(mid <= p.input[bp + i - 1].key);
        lemma_keys_between_widen(
            c[bp + i],
            lower_bound(p, bp + i),
            upper_bound(p, bp + i),
            lower_bound(u2, i),
            upper_bound(u2, i),
        );
        lemma_keys_between_widen(c[bp + i], lower_bound(p, bp + i), upper_bound(p, bp + i), mid as int, u32::MAX as int + 1);
    }
    assert(loose_node(u2, ns, false, 1));
    assert(keys_between(u2, mid as int, u32::MAX as int + 1)) by {
        assert forall|k: int| 0 <= k < u2.input.len() implies mid < #[trigger] u2.input[k].key by {
            assert(u2.input[k].key == p.input[bp + k].key);
        }
    }
    assert forall|i: int| 0 <= i < f.children.len() implies {
        &&& keys_between(#[trigger] f.children[i], lower_bound(f, i), upper_bound(f, i))
        &&& loose_node(f.children[i], ns, false, 1)
    } by {
    }
}

/// Inserting a key into a valid B-tree whose root holds `ns` keys over
/// leaves, where the leaf that takes the key is full too, and every key lies
/// strictly between 0 and `u32::MAX`: the leaf is split and its middle key
/// goes up, the root overflows and is split in turn, the leaves are regrouped
/// under the two halves of the root, and the tree that comes out is a valid
/// B-tree one level higher, holding one entry more.
pub proof fn law_insert_splitting_a_full_root_keeps_valid_btree(t: Tree, k: u32, v: String, txn: u32, ns: int)
    requires
        ns >= 4,
        ns <= usize::MAX,
        valid_btree(t, ns),
        height(t) == 1,
        t.input.len() == ns,
        key_absent(t, k),
        t.children[add_index(t, k)].input.len() == ns,
        keys_between(t, 0, u32::MAX as int),
        0 < k < u32::MAX,
    ensures
        spec_insert(t, k, v, txn, ns).1,
        crate::btree::ops::add_ok(t, new_item(k, v, txn)),
        validate_ok(spec_add_new_keys(t, new_item(k, v, txn)), ns),
        valid_btree(spec_insert(t, k, v, txn, ns).0, ns),
        height(spec_insert(t, k, v, txn, ns).0) == 2,
        content(spec_insert(t, k, v, txn, ns).0) == content(t).add(entry_one(new_item(k, v, txn))),
{
    let x = new_item(k, v, txn);
    let u = spec_add_new_keys(t, x);
    let st = repair_stages(u, ns);
    lemma_absent_not_found(t, k, Some(v), txn);
    lemma_btree_add_ok(t, x, ns, true, 1);
    lemma_root_cascade_fold(t, x, ns);
    let p = st[2];
    lemma_overfull_root_passes(p, ns);
    let r = spec_split_nodes(p);
    assert(st[3] == p);
    assert(st[4] == p);
    assert(st[5] == p);
    assert(st[6] == p);
    assert(st[7] == r);
    assert(st[8] == r);
    assert(st[9] == r);
    lemma_fix_split_root(p, ns);
    lemma_fixed_root_shape(p, ns);
    let f = spec_fix_child_count_mismatch(r);
    assert(st[10] == f);
    crate::btree::regroup::law_fix_child_count_mismatch_preserves_content(r);
    crate::btree::scan::law_overflow_check_preserves_content(p, ns);
    lemma_finish(f, ns, 2);
    let w = spec_rank_correction(f);
    let s12 = spec_sort_everything(w);
    assert(st[11] == w);
    assert(st[12] == s12);
    assert(st[13] == s12);
    assert(st[14] == s12);
    assert(st[15] == s12);
    assert(st[16] == s12);
    assert(st[17] == s12);
    // what the tree holds: the new entry added, nothing else changed
    lemma_absent_not_fetched(t, k);
    lemma_btree_path_sorted(t, k, ns, true, 1);
    crate::mvcc::visibility::lemma_add_content(t, x);
}

} // verus!
