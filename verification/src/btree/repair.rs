//! Repairs of a node: splitting an overfull node, folding an underfull child
//! into its parent, regrouping children under new parents, and renumbering
//! ranks.
use vstd::prelude::*;
use crate::btree::node::{Items, Node};
use crate::btree::order::{lemma_stable_sort_perm, stable_sort};
use crate::btree::sort::spec_sort_main_nodes;
use crate::btree::regroup::{
    adopt, child_bounds, distribute, distribute_ok, encloses_some, first_of, fix_ok, gap_bounds,
    last_of, lemma_regroup_len, parent_one_bounds, parent_two_bounds, regroup, regroup_ok,
    regroup_step, regrouped_children, scan_ok, spec_fix_child_count_mismatch,
};
use crate::btree::tree::{
    content, entry_one, first_key, forest_content, item_at_rank, item_key, items_content, items_view, leaf,
    lemma_forest_pointwise, lemma_forest_push, lemma_items_concat, lemma_items_content_with_rank, lemma_items_perm,
    lemma_items_push, lemma_tree_of, lemma_tree_of_auto, lemma_views_of_node, nodes_view, Tree, ItemsView,
    with_rank,
};

verus! {

broadcast use lemma_tree_of_auto;

/// Where an overfull node is cut: the middle key's 1-based position.
pub open spec fn breaking_point(n: nat) -> int {
    ((n + 1) / 2) as int
}

/// The keys that go to the left new child: those before the middle key.
pub open spec fn split_lower(s: Seq<ItemsView>) -> Seq<ItemsView> {
    if breaking_point(s.len()) >= 1 {
        s.take(breaking_point(s.len()) - 1)
    } else {
        Seq::empty()
    }
}

/// The middle key, which stays in the node.
pub open spec fn split_middle(s: Seq<ItemsView>) -> Seq<ItemsView> {
    if s.len() >= 1 {
        seq![s[breaking_point(s.len()) - 1]]
    } else {
        Seq::empty()
    }
}

/// The keys that go to the right new child: those after the middle key.
pub open spec fn split_upper(s: Seq<ItemsView>) -> Seq<ItemsView> {
    s.skip(breaking_point(s.len()))
}

/// A node split at its middle key: it keeps only the middle key, and two new
/// childless nodes one level lower, holding the smaller and the larger keys,
/// are appended to its children.
pub open spec fn spec_split_nodes(t: Tree) -> Tree {
    let s = stable_sort(t.input, item_key());
    let r = (t.rank + 1) as u32;
    Tree {
        input: split_middle(s),
        rank: t.rank,
        children: t.children.push(leaf(split_lower(s), r)).push(leaf(split_upper(s), r)),
    }
}

impl Node {
    /// Splits this node at its middle key (after sorting its keys): the node
    /// keeps the middle key, and the keys before and after it become two new
    /// children of rank one more than the node's, appended to its children.
    pub fn split_nodes(self_node: &mut Node)
        requires
            old(self_node).rank < u32::MAX,
        ensures
            final(self_node)@ == spec_split_nodes(old(self_node)@),
    {
        Node::sort_main_nodes(self_node);
        proof {
            lemma_views_of_node(*self_node);
        }
        let ghost s = self_node@.input;
        let ghost old_children = self_node.children@;
        let mut struct_one = Node::new();
        let mut struct_two = Node::new();
        let items_size = self_node.input.len();
        let breaking = items_size / 2 + items_size % 2;
        let child_rank = self_node.rank + 1;
        let ghost bp = breaking as int;
        assert(bp == breaking_point(s.len()));
        let mut rest: Vec<Items> = Vec::new();
        std::mem::swap(&mut rest, &mut self_node.input);
        assert(items_view(rest@) == s);
        assert(s.skip(0) =~= s);
        let mut count: usize = 0;
        while count < items_size
            invariant
                count <= items_size,
                items_size == s.len(),
                bp == breaking_point(s.len()),
                bp == breaking as int,
                child_rank == self_node.rank + 1,
                items_view(rest@) == s.skip(count as int),
                rest@.len() == items_size - count,
                count < bp ==> self_node.input@.len() == 0,
                count >= bp && s.len() >= 1 ==> items_view(self_node.input@) == split_middle(s),
                count < bp ==> items_view(struct_one.input@) == with_rank(
                    s.take(count as int),
                    child_rank,
                ),
                count >= bp && bp >= 1 ==> items_view(struct_one.input@) == with_rank(
                    s.take(bp - 1),
                    child_rank,
                ),
                count <= bp ==> struct_two.input@.len() == 0,
                count > bp ==> items_view(struct_two.input@) == with_rank(
                    s.subrange(bp, count as int),
                    child_rank,
                ),
                struct_one.children@.len() == 0,
                struct_two.children@.len() == 0,
                count == 0 ==> struct_one.input@.len() == 0 && struct_two.input@.len() == 0
                    && self_node.input@.len() == 0,
                self_node.children@ == old_children,
            decreases items_size - count,
        {
            assert(items_view(rest@)[0] == s[count as int]);
            let ghost pre = rest@;
            let mut item = rest.remove(0);
            assert forall|k: int| 0 <= k < rest@.len() implies #[trigger] items_view(rest@)[k]
                == s.skip(count + 1)[k] by {
                assert(rest@[k] == pre[k + 1]);
                assert(items_view(pre)[k + 1] == s.skip(count as int)[k + 1]);
            }
            assert(items_view(rest@) =~= s.skip(count + 1));
            assert(item@ == s[count as int]);
            if count + 1 == breaking {
                self_node.input.push(item);
                assert(items_view(self_node.input@) =~= split_middle(s));
            } else if count + 1 < breaking {
                item.rank = child_rank;
                assert(item@ == item_at_rank(s[count as int], child_rank));
                let ghost before = struct_one.input@;
                struct_one.input.push(item);
                assert(items_view(struct_one.input@) =~= items_view(before).push(item@));
                assert(s.take(count + 1) =~= s.take(count as int).push(s[count as int]));
                assert(items_view(struct_one.input@) =~= with_rank(s.take(count + 1), child_rank));
            } else {
                item.rank = child_rank;
                assert(item@ == item_at_rank(s[count as int], child_rank));
                let ghost before = struct_two.input@;
                struct_two.input.push(item);
                assert(items_view(struct_two.input@) =~= items_view(before).push(item@));
                assert(s.subrange(bp, count + 1) =~= s.subrange(bp, count as int).push(
                    s[count as int],
                ));
                if count == breaking {
                    assert(items_view(before) =~= with_rank(s.subrange(bp, count as int), child_rank));
                }
                assert(items_view(struct_two.input@) =~= with_rank(
                    s.subrange(bp, count + 1),
                    child_rank,
                ));
            }
            count += 1;
        }
        struct_one.rank = child_rank;
        struct_two.rank = child_rank;
        proof {
            lemma_views_of_node(struct_one);
            lemma_views_of_node(struct_two);
            if s.len() == 0 {
                assert(items_view(struct_one.input@) =~= with_rank(split_lower(s), child_rank));
                assert(items_view(struct_two.input@) =~= with_rank(split_upper(s), child_rank));
                assert(items_view(self_node.input@) =~= split_middle(s));
            } else {
                assert(s.subrange(bp, s.len() as int) =~= split_upper(s));
                if bp == s.len() {
                    assert(items_view(struct_two.input@) =~= with_rank(split_upper(s), child_rank));
                }
            }
            assert(struct_one@.children =~= Seq::<Tree>::empty());
            assert(struct_two@.children =~= Seq::<Tree>::empty());
            assert(struct_one@.input == with_rank(split_lower(s), child_rank));
            assert(struct_two@.input == with_rank(split_upper(s), child_rank));
            assert(struct_one@ =~= leaf(split_lower(s), child_rank));
            assert(struct_two@ =~= leaf(split_upper(s), child_rank));
        }
        self_node.children.push(struct_one);
        self_node.children.push(struct_two);
        proof {
            lemma_views_of_node(*self_node);
            assert(nodes_view(old_children) == old(self_node)@.children) by {
                lemma_views_of_node(*old(self_node));
            }
            assert(self_node@.children =~= spec_split_nodes(old(self_node)@).children);
        }
        assert(self_node@ =~= spec_split_nodes(old(self_node)@));
    }
}

} // verus!

verus! {

/// A childless node's entries are its keys' entries.
pub proof fn lemma_leaf_content(s: Seq<ItemsView>, r: u32)
    ensures
        content(leaf(s, r)) == items_content(s),
{
    lemma_items_content_with_rank(s, r);
    assert(forest_content(Seq::<Tree>::empty()) == vstd::multiset::Multiset::<
        (u32, Seq<crate::mvcc::versions::Version>),
    >::empty());
    assert(content(leaf(s, r)) =~= items_content(s));
}

/// Splitting a node neither loses nor adds a key: the tree holds the same
/// entries before and after.
pub proof fn law_split_preserves_content(t: Tree)
    ensures
        content(spec_split_nodes(t)) == content(t),
{
    let s = stable_sort(t.input, item_key());
    let r = (t.rank + 1) as u32;
    lemma_stable_sort_perm(t.input, item_key());
    lemma_items_perm(s, t.input);
    lemma_leaf_content(split_lower(s), r);
    lemma_leaf_content(split_upper(s), r);
    lemma_forest_push(t.children, leaf(split_lower(s), r));
    lemma_forest_push(t.children.push(leaf(split_lower(s), r)), leaf(split_upper(s), r));
    if s.len() == 0 {
        assert(split_lower(s) =~= s);
        assert(split_upper(s) =~= s);
        assert(split_middle(s) =~= s);
    } else {
        assert(s =~= split_lower(s) + split_middle(s) + split_upper(s));
        lemma_items_concat(split_lower(s) + split_middle(s), split_upper(s));
        lemma_items_concat(split_lower(s), split_middle(s));
    }
    assert(content(spec_split_nodes(t)) =~= content(t));
}

} // verus!

verus! {

/// The subtree `t` moved to level `r`: each node at depth `d` below it, and
/// each of its keys, gets rank `r + d`.
pub open spec fn spec_ranked(t: Tree, r: int) -> Tree
    decreases t,
{
    Tree {
        input: with_rank(t.input, r as u32),
        rank: r as u32,
        children: Seq::new(
            t.children.len(),
            |i: int|
                if 0 <= i < t.children.len() {
                    spec_ranked(t.children[i], r + 1)
                } else {
                    t
                },
        ),
    }
}

/// The tree with every node below the root, and each of its keys, at rank
/// one more than its parent's.
pub open spec fn spec_rank_correction(t: Tree) -> Tree {
    if t.children.len() == 0 {
        t
    } else {
        Tree {
            children: Seq::new(t.children.len(), |i: int| spec_ranked(t.children[i], t.rank + 1)),
            ..t
        }
    }
}

/// The ranks handed down from `r` at the top of `t` fit in a `u32`: every
/// node with children is at a rank below the largest.
pub open spec fn ranks_fit(t: Tree, r: int) -> bool
    decreases t,
{
    t.children.len() > 0 ==> {
        &&& r < u32::MAX
        &&& forall|i: int| 0 <= i < t.children.len() ==> ranks_fit(#[trigger] t.children[i], r + 1)
    }
}

/// Every child is one level below its parent and every key sits at the rank
/// of its node, all the way down.
pub open spec fn ranks_consistent(t: Tree) -> bool
    decreases t,
{
    forall|i: int|
        0 <= i < t.children.len() ==> {
            &&& (#[trigger] t.children[i]).rank == t.rank + 1
            &&& forall|k: int|
                0 <= k < t.children[i].input.len() ==> #[trigger] t.children[i].input[k].rank
                    == t.children[i].rank
            &&& ranks_consistent(t.children[i])
        }
}

impl Node {
    /// Puts this node and each of its keys at rank `r`.
    fn set_rank(node: &mut Node, r: u32)
        ensures
            final(node)@ == (Tree { input: with_rank(old(node)@.input, r), rank: r, ..old(node)@ }),
            final(node).children == old(node).children,
    {
        proof {
            lemma_views_of_node(*node);
        }
        node.rank = r;
        let mut i: usize = 0;
        while i < node.input.len()
            invariant
                i <= node.input@.len(),
                node.input@.len() == old(node).input@.len(),
                node.children == old(node).children,
                node.rank == r,
                forall|k: int|
                    0 <= k < i ==> #[trigger] node.input@[k]@ == item_at_rank(
                        old(node).input@[k]@,
                        r,
                    ),
                forall|k: int| i <= k < node.input@.len() ==> #[trigger] node.input@[k] == old(
                    node,
                ).input@[k],
            decreases node.input@.len() - i,
        {
            node.input[i].rank = r;
            i += 1;
        }
        proof {
            lemma_views_of_node(*node);
            lemma_views_of_node(*old(node));
        }
        assert(node@.input =~= with_rank(old(node)@.input, r));
        assert(node@ =~= (Tree { input: with_rank(old(node)@.input, r), rank: r, ..old(node)@ }));
    }

    /// Moves this subtree to level `r` (see `spec_ranked`).
    fn rank_correct_at(node: &mut Node, r: u32)
        requires
            ranks_fit(old(node)@, r as int),
        ensures
            final(node)@ == spec_ranked(old(node)@, r as int),
        decreases *old(node),
    {
        Node::set_rank(node, r);
        let ghost mid = node.children@;
        if node.children.len() > 0 {
            let below = r + 1;
            let mut i: usize = 0;
            while i < node.children.len()
                invariant
                    i <= node.children@.len(),
                    node.children@.len() == mid.len(),
                    mid == old(node).children@,
                    below == r + 1,
                    ranks_fit(old(node)@, r as int),
                    node@.input == with_rank(old(node)@.input, r),
                    node.rank == r,
                    forall|j: int| i <= j < mid.len() ==> node.children@[j] == mid[j],
                    forall|j: int|
                        0 <= j < i ==> #[trigger] node.children@[j]@ == spec_ranked(
                            mid[j]@,
                            r + 1,
                        ),
                decreases node.children@.len() - i,
            {
                proof {
                    assert(decreases_to!(*old(node) => old(node).children@[i as int]));
                    assert(old(node)@.children[i as int] == mid[i as int]@);
                    assert(ranks_fit(old(node)@.children[i as int], r + 1));
                }
                Node::rank_correct_at(&mut node.children[i], below);
                i += 1;
            }
        }
        proof {
            lemma_tree_of(*node);
            lemma_tree_of(*old(node));
        }
        assert(node@.children =~= spec_ranked(old(node)@, r as int).children);
        assert(node@ =~= spec_ranked(old(node)@, r as int));
    }

    /// Renumbers ranks below this node: each child gets rank one more than its
    /// parent, and so do all its keys, all the way down.
    pub fn rank_correction(self_node: &mut Node)
        requires
            ranks_fit(old(self_node)@, old(self_node).rank as int),
        ensures
            final(self_node)@ == spec_rank_correction(old(self_node)@),
    {
        if self_node.children.len() == 0 {
            return;
        }
        let child_rank = self_node.rank + 1;
        let ghost mid = self_node.children@;
        let mut i: usize = 0;
        while i < self_node.children.len()
            invariant
                i <= self_node.children@.len(),
                self_node.children@.len() == mid.len(),
                mid == old(self_node).children@,
                mid.len() > 0,
                child_rank == old(self_node).rank + 1,
                ranks_fit(old(self_node)@, old(self_node).rank as int),
                self_node.input == old(self_node).input,
                self_node.rank == old(self_node).rank,
                forall|j: int| i <= j < mid.len() ==> self_node.children@[j] == mid[j],
                forall|j: int|
                    0 <= j < i ==> #[trigger] self_node.children@[j]@ == spec_ranked(
                        mid[j]@,
                        child_rank as int,
                    ),
            decreases self_node.children@.len() - i,
        {
            proof {
                assert(old(self_node)@.children[i as int] == mid[i as int]@);
                assert(ranks_fit(old(self_node)@.children[i as int], child_rank as int));
            }
            Node::rank_correct_at(&mut self_node.children[i], child_rank);
            i += 1;
        }
        proof {
            lemma_tree_of(*self_node);
            lemma_tree_of(*old(self_node));
        }
        assert(self_node@.input =~= old(self_node)@.input);
        assert(self_node@.children =~= spec_rank_correction(old(self_node)@).children);
        assert(self_node@ =~= spec_rank_correction(old(self_node)@));
    }
}

} // verus!

verus! {

pub proof fn lemma_ranked(t: Tree, r: int)
    requires
        ranks_fit(t, r),
        0 <= r <= u32::MAX,
    ensures
        content(spec_ranked(t, r)) == content(t),
        ranks_consistent(spec_ranked(t, r)),
        spec_ranked(t, r).rank == r as u32,
        forall|k: int|
            0 <= k < spec_ranked(t, r).input.len() ==> #[trigger] spec_ranked(t, r).input[k].rank
                == r as u32,
    decreases t,
{
    let s = spec_ranked(t, r);
    lemma_items_content_with_rank(t.input, r as u32);
    assert forall|i: int| 0 <= i < t.children.len() implies #[trigger] content(s.children[i])
        == content(t.children[i]) by {
        lemma_ranked(t.children[i], r + 1);
    }
    lemma_forest_pointwise(s.children, t.children);
    assert forall|i: int| 0 <= i < s.children.len() implies {
        &&& (#[trigger] s.children[i]).rank == s.rank + 1
        &&& forall|k: int|
            0 <= k < s.children[i].input.len() ==> #[trigger] s.children[i].input[k].rank
                == s.children[i].rank
        &&& ranks_consistent(s.children[i])
    } by {
        lemma_ranked(t.children[i], r + 1);
    }
    assert(content(s) == content(t));
}

/// Renumbering ranks keeps every entry, and afterwards each child is one
/// level below its parent and each key at its node's rank.
pub proof fn law_rank_correction(t: Tree)
    requires
        ranks_fit(t, t.rank as int),
    ensures
        content(spec_rank_correction(t)) == content(t),
        ranks_consistent(spec_rank_correction(t)),
{
    if t.children.len() > 0 {
        let s = spec_rank_correction(t);
        assert forall|i: int| 0 <= i < t.children.len() implies #[trigger] content(s.children[i])
            == content(t.children[i]) by {
            lemma_ranked(t.children[i], t.rank + 1);
        }
        lemma_forest_pointwise(s.children, t.children);
        assert forall|i: int| 0 <= i < s.children.len() implies {
            &&& (#[trigger] s.children[i]).rank == s.rank + 1
            &&& forall|k: int|
                0 <= k < s.children[i].input.len() ==> #[trigger] s.children[i].input[k].rank
                    == s.children[i].rank
            &&& ranks_consistent(s.children[i])
        } by {
            lemma_ranked(t.children[i], t.rank + 1);
        }
    } else {
        assert(ranks_consistent(t));
    }
}

} // verus!

verus! {

/// Whether a tree's first key differs from `k`.
pub open spec fn keeps_key(k: u32) -> spec_fn(Tree) -> bool {
    |x: Tree| x.input[0].key != k
}

/// Moves the keys of `src`, in order, to the end of `dst`, putting them at
/// rank `r`.
fn append_at_rank(dst: &mut Vec<Items>, src: Vec<Items>, r: u32)
    ensures
        items_view(final(dst)@) == items_view(old(dst)@) + with_rank(items_view(src@), r),
{
    let ghost orig = items_view(src@);
    let mut src = src;
    let ghost n = src@.len();
    assert(n == src.len());
    assert(orig.skip(0) =~= orig);
    assert(orig.take(0) =~= Seq::<ItemsView>::empty());
    assert(with_rank(orig.take(0), r) =~= Seq::<ItemsView>::empty());
    assert(items_view(dst@) =~= items_view(old(dst)@) + with_rank(orig.take(0), r));
    let mut i: usize = 0;
    while src.len() > 0
        invariant
            items_view(src@) == orig.skip(i as int),
            src@.len() + i == n,
            n == orig.len(),
            n <= usize::MAX,
            items_view(dst@) == items_view(old(dst)@) + with_rank(orig.take(i as int), r),
        decreases src@.len(),
    {
        let ghost pre = src@;
        let ghost before = dst@;
        let mut it = src.remove(0);
        assert(it@ == orig[i as int]) by {
            assert(items_view(pre)[0] == orig.skip(i as int)[0]);
        }
        assert forall|k: int| 0 <= k < src@.len() implies #[trigger] items_view(src@)[k]
            == orig.skip(i + 1)[k] by {
            assert(src@[k] == pre[k + 1]);
            assert(items_view(pre)[k + 1] == orig.skip(i as int)[k + 1]);
        }
        assert(items_view(src@) =~= orig.skip(i + 1));
        it.rank = r;
        dst.push(it);
        assert(orig.take(i + 1) =~= orig.take(i as int).push(orig[i as int]));
        assert(items_view(dst@) =~= items_view(before).push(item_at_rank(orig[i as int], r)));
        assert(items_view(dst@) =~= items_view(old(dst)@) + with_rank(orig.take(i + 1), r));
        i += 1;
    }
    assert(orig.take(i as int) =~= orig);
}

/// Moves the trees of `src`, in order, to the end of `dst`, dropping those
/// whose first key is `k`.
fn append_keeping(dst: &mut Vec<Node>, src: Vec<Node>, k: u32)
    requires
        forall|i: int| 0 <= i < src@.len() ==> #[trigger] src@[i].input@.len() > 0,
    ensures
        nodes_view(final(dst)@) == nodes_view(old(dst)@) + nodes_view(src@).filter(keeps_key(k)),
{
    let ghost orig = nodes_view(src@);
    let ghost osrc = src@;
    let mut src = src;
    let ghost n = src@.len();
    assert(n == src.len());
    assert(orig.skip(0) =~= orig);
    assert(orig.take(0) =~= Seq::<Tree>::empty());
    assert(orig.take(0).filter(keeps_key(k)) =~= Seq::<Tree>::empty()) by {
        reveal_with_fuel(Seq::<_>::filter, 1);
    }
    assert(nodes_view(dst@) =~= nodes_view(old(dst)@) + orig.take(0).filter(keeps_key(k)));
    let mut i: usize = 0;
    while src.len() > 0
        invariant
            src@ == osrc.skip(i as int),
            orig == nodes_view(osrc),
            src@.len() + i == n,
            n == osrc.len(),
            n <= usize::MAX,
            forall|j: int| 0 <= j < osrc.len() ==> #[trigger] osrc[j].input@.len() > 0,
            nodes_view(dst@) == nodes_view(old(dst)@) + orig.take(i as int).filter(keeps_key(k)),
        decreases src@.len(),
    {
        let ghost before = dst@;
        let x = src.remove(0);
        assert(x == osrc[i as int]) by {
            assert(osrc.skip(i as int)[0] == osrc[i as int]);
        }
        assert(src@ =~= osrc.skip(i + 1));
        assert(orig[i as int] == x@);
        proof {
            lemma_tree_of(x);
            assert(orig.take(i + 1) =~= orig.take(i as int).push(orig[i as int]));
            orig.take(i as int).lemma_filter_push(orig[i as int], keeps_key(k));
        }
        if x.input[0].key != k {
            dst.push(x);
            assert(nodes_view(dst@) =~= nodes_view(before).push(orig[i as int]));
        }
        assert(nodes_view(dst@) =~= nodes_view(old(dst)@) + orig.take(i + 1).filter(
            keeps_key(k),
        ));
        i += 1;
    }
    assert(orig.take(i as int) =~= orig);
}

/// Folding child `ci` into its parent is possible: the child exists, and the
/// first key of every child, and of every child of that child, can be read.
pub open spec fn propagate_ok(t: Tree, ci: int) -> bool {
    &&& 0 <= ci < t.children.len()
    &&& forall|i: int| 0 <= i < t.children.len() ==> #[trigger] t.children[i].input.len() > 0
    &&& forall|g: int|
        0 <= g < t.children[ci].children.len() ==> #[trigger] t.children[ci].children[g].input.len()
            > 0
}

/// The node with child `ci` folded into it: the child's keys join the node's
/// keys at the node's rank, the child's children join the node's children,
/// every child whose first key is the folded child's first key is dropped, and
/// keys and children are sorted.
pub open spec fn spec_propagate_up(t: Tree, ci: int) -> Tree {
    let c = t.children[ci];
    Tree {
        input: stable_sort(t.input + with_rank(c.input, t.rank), item_key()),
        rank: t.rank,
        children: stable_sort((t.children + c.children).filter(keeps_key(c.input[0].key)), first_key()),
    }
}

pub proof fn lemma_filter_drops_failing(a: Seq<Tree>, ci: int, b: Seq<Tree>, p: spec_fn(Tree) -> bool)
    requires
        0 <= ci < a.len(),
        !p(a[ci]),
    ensures
        (a + b).filter(p) == (a.remove(ci) + b).filter(p),
{
    let x = a.take(ci);
    let y = a.skip(ci + 1);
    assert(a =~= x + seq![a[ci]] + y);
    assert(a.remove(ci) =~= x + y);
    assert((x + seq![a[ci]] + y) + b =~= x + (seq![a[ci]] + (y + b)));
    assert((x + y) + b =~= x + (y + b));
    Seq::filter_distributes_over_add(x, seq![a[ci]] + (y + b), p);
    Seq::filter_distributes_over_add(seq![a[ci]], y + b, p);
    Seq::filter_distributes_over_add(x, y + b, p);
    assert(seq![a[ci]].filter(p) =~= Seq::<Tree>::empty()) by {
        reveal_with_fuel(Seq::<_>::filter, 2);
        assert(seq![a[ci]].drop_last() =~= Seq::<Tree>::empty());
    }
    assert(seq![a[ci]] + (y + b) =~= seq![a[ci]] + (y + b));
}

impl Node {
    /// Folds child `child_index` into this node: the child's keys move up to
    /// this node's rank, its children become this node's children, children
    /// with the same first key as the folded child are dropped, and the keys
    /// and children are sorted again.
    pub fn propagate_up(self_node: &mut Node, child_index: usize)
        requires
            propagate_ok(old(self_node)@, child_index as int),
        ensures
            final(self_node)@ == spec_propagate_up(old(self_node)@, child_index as int),
    {
        let ghost t = self_node@;
        proof {
            lemma_views_of_node(*self_node);
        }
        let rank = self_node.rank;
        let mut child = self_node.children.remove(child_index);
        proof {
            lemma_views_of_node(child);
            assert(child@ == t.children[child_index as int]);
        }
        let key = child.input[0].key;
        let mut moved: Vec<Items> = Vec::new();
        std::mem::swap(&mut moved, &mut child.input);
        append_at_rank(&mut self_node.input, moved, rank);
        let mut rest: Vec<Node> = Vec::new();
        std::mem::swap(&mut rest, &mut self_node.children);
        let ghost rest_view = nodes_view(rest@);
        assert(rest_view =~= t.children.remove(child_index as int));
        assert forall|i: int| 0 <= i < rest@.len() implies #[trigger] rest@[i].input@.len() > 0 by {
            assert(rest_view[i] == rest@[i]@);
        }
        let mut grand: Vec<Node> = Vec::new();
        std::mem::swap(&mut grand, &mut child.children);
        assert forall|i: int| 0 <= i < grand@.len() implies #[trigger] grand@[i].input@.len() > 0 by {
            assert(nodes_view(grand@)[i] == grand@[i]@);
        }
        append_keeping(&mut self_node.children, rest, key);
        append_keeping(&mut self_node.children, grand, key);
        proof {
            lemma_filter_drops_failing(t.children, child_index as int, t.children[child_index as int].children, keeps_key(key));
            Seq::filter_distributes_over_add(t.children.remove(child_index as int), t.children[child_index as int].children, keeps_key(key));
            assert(nodes_view(self_node.children@) =~= (t.children + t.children[child_index as int].children).filter(keeps_key(key)));
            lemma_views_of_node(*self_node);
            let f = (t.children + t.children[child_index as int].children).filter(keeps_key(key));
            assert forall|i: int| 0 <= i < f.len() implies #[trigger] f[i].input.len() > 0 by {
                assert(f.contains(f[i]));
                Seq::lemma_filter_contains_rev(t.children + t.children[child_index as int].children, keeps_key(key), f[i]);
                let w = choose|w: int| 0 <= w < (t.children + t.children[child_index as int].children).len() && (t.children + t.children[child_index as int].children)[w] == f[i];
                if w < t.children.len() {
                } else {
                    assert((t.children + t.children[child_index as int].children)[w] == t.children[child_index as int].children[w - t.children.len()]);
                }
            }
        }
        Node::sort_main_nodes(self_node);
        Node::sort_children_nodes(self_node);
        assert(self_node@ =~= spec_propagate_up(t, child_index as int));
    }
}

} // verus!

verus! {

pub proof fn lemma_filter_all_pass<A>(s: Seq<A>, p: spec_fn(A) -> bool)
    requires
        forall|i: int| 0 <= i < s.len() ==> p(#[trigger] s[i]),
    ensures
        s.filter(p) == s,
    decreases s.len(),
{
    reveal_with_fuel(Seq::<_>::filter, 1);
    if s.len() > 0 {
        lemma_filter_all_pass(s.drop_last(), p);
        assert(s.drop_last().push(s.last()) =~= s);
    } else {
        assert(s.filter(p) =~= s);
    }
}

/// Folding a child into its parent keeps every entry, provided no other
/// child of the parent, and no child of the folded child, starts with the
/// folded child's first key (such a subtree would be dropped with it).
pub proof fn law_propagate_up_preserves_content(t: Tree, ci: int)
    requires
        propagate_ok(t, ci),
        forall|i: int|
            0 <= i < t.children.len() && i != ci ==> #[trigger] t.children[i].input[0].key
                != t.children[ci].input[0].key,
        forall|g: int|
            0 <= g < t.children[ci].children.len() ==> #[trigger] t.children[ci].children[g].input[0].key
                != t.children[ci].input[0].key,
    ensures
        content(spec_propagate_up(t, ci)) == content(t),
{
    let c = t.children[ci];
    let k = c.input[0].key;
    let rest = t.children.remove(ci);
    let all = rest + c.children;
    let r = spec_propagate_up(t, ci);
    assert(r.children.to_multiset() == all.to_multiset()) by {
        assert forall|i: int| 0 <= i < all.len() implies keeps_key(k)(#[trigger] all[i]) by {
            if i < rest.len() {
                if i < ci {
                    assert(all[i] == t.children[i]);
                } else {
                    assert(all[i] == t.children[i + 1]);
                }
            } else {
                assert(all[i] == c.children[i - rest.len()]);
            }
        }
        lemma_filter_all_pass(all, keeps_key(k));
        lemma_filter_drops_failing(t.children, ci, c.children, keeps_key(k));
        lemma_stable_sort_perm(all, first_key());
    }
    let a = items_content(t.input);
    let b = items_content(c.input);
    let f = forest_content(rest);
    let g = forest_content(c.children);
    assert(forest_content(r.children) == f.add(g)) by {
        crate::btree::tree::lemma_forest_perm(r.children, all);
        crate::btree::tree::lemma_forest_concat(rest, c.children);
    }
    assert(items_content(r.input) == a.add(b)) by {
        let ins = t.input + with_rank(c.input, t.rank);
        lemma_stable_sort_perm(ins, item_key());
        lemma_items_perm(stable_sort(ins, item_key()), ins);
        lemma_items_concat(t.input, with_rank(c.input, t.rank));
        lemma_items_content_with_rank(c.input, t.rank);
    }
    assert(forest_content(t.children) == f.add(content(c))) by {
        crate::btree::tree::lemma_forest_remove(t.children, ci);
    }
    assert(content(c) == b.add(g));
    assert(content(t) == a.add(f.add(b.add(g))));
    assert(content(r) == a.add(b).add(f.add(g)));
    assert(a.add(b).add(f.add(g)) =~= a.add(f.add(b.add(g))));
}

} // verus!

verus! {

/// The first and last keys of a node that has keys.
fn first_last(node: &Node) -> (r: (u32, u32))
    requires
        node.input@.len() > 0,
    ensures
        r.0 == first_of(node@),
        r.1 == last_of(node@),
{
    proof {
        lemma_tree_of(*node);
    }
    (node.input[0].key, node.input[node.input.len() - 1].key)
}

/// The bounds of the keys that may go under the new parent `p` (see
/// `child_bounds`).
fn child_bounds_of(inp: &Vec<Items>, p: &Node) -> (r: Vec<u32>)
    requires
        inp@.len() > 0,
        p.input@.len() > 0,
    ensures
        r@ == child_bounds(items_view(inp@), p@),
        r@.len() == 0 || r@.len() == 2,
{
    let ghost iv = items_view(inp@);
    let (lo, hi) = first_last(p);
    let first = inp[0].key;
    let last = inp[inp.len() - 1].key;
    assert(iv[0].key == first && iv[iv.len() - 1].key == last);
    if hi < first {
        let mut r = Vec::new();
        r.push(0);
        r.push(first);
        assert(r@ =~= seq![0u32, first]);
        r
    } else if lo > last {
        let mut r = Vec::new();
        r.push(last);
        r.push(u32::MAX);
        assert(r@ =~= seq![last, u32::MAX]);
        r
    } else {
        let mut placeholder: Vec<u32> = Vec::new();
        let mut j: usize = 0;
        while j < inp.len() - 1
            invariant
                j + 1 <= inp@.len(),
                inp@.len() > 0,
                iv == items_view(inp@),
                placeholder@ == gap_bounds(iv, lo, hi, j - 1),
                placeholder@.len() == 0 || placeholder@.len() == 2,
            decreases inp@.len() - j,
        {
            if lo > inp[j].key && hi < inp[j + 1].key {
                let mut r = Vec::new();
                r.push(inp[j].key);
                r.push(inp[j + 1].key);
                placeholder = r;
                assert(placeholder@ =~= gap_bounds(iv, lo, hi, j as int));
            } else {
                assert(gap_bounds(iv, lo, hi, j as int) == gap_bounds(iv, lo, hi, j - 1));
            }
            j += 1;
        }
        assert(gap_bounds(iv, lo, hi, -1) =~= Seq::<u32>::empty());
        placeholder
    }
}

/// A node whose children gained `k` at the end is modelled by adopting `k`.
proof fn lemma_tree_of_adopt(a: Node, b: Node, k: Tree)
    requires
        b.input == a.input,
        b.rank == a.rank,
        nodes_view(b.children@) == nodes_view(a.children@).push(k),
    ensures
        b@ == adopt(a@, k),
{
    lemma_views_of_node(a);
    lemma_views_of_node(b);
    assert(b@.children =~= a@.children.push(k));
    assert(b@ =~= adopt(a@, k));
}

/// Removing child `j` and having the node now at position `p - 1` adopt it
/// is modelled by the update-then-remove of `distribute`.
proof fn lemma_distribute_view(cur: Seq<Tree>, mid: Seq<Node>, fin: Seq<Node>, j: int, p: int, kv: Tree)
    requires
        0 <= j < p < cur.len(),
        cur[j] == kv,
        nodes_view(mid) == cur.remove(j),
        fin.len() == mid.len(),
        forall|x: int| 0 <= x < mid.len() && x != p - 1 ==> #[trigger] fin[x] == mid[x],
        fin[p - 1]@ == adopt(mid[p - 1]@, kv),
    ensures
        nodes_view(fin) == cur.update(p, adopt(cur[p], kv)).remove(j),
{
    let r = cur.update(p, adopt(cur[p], kv)).remove(j);
    assert(nodes_view(mid).len() == mid.len());
    assert(cur.remove(j).len() == cur.len() - 1);
    assert forall|x: int| 0 <= x < fin.len() implies #[trigger] nodes_view(fin)[x] == r[x] by {
        assert(nodes_view(mid)[x] == mid[x]@);
        assert(nodes_view(fin)[x] == fin[x]@);
        if x == p - 1 {
            assert(cur.remove(j)[p - 1] == cur[p]);
        } else if x < j {
            assert(cur.remove(j)[x] == cur[x]);
        } else {
            assert(cur.remove(j)[x] == cur[x + 1]);
        }
    }
    assert(nodes_view(fin) =~= r);
}

impl Node {
    /// Regroups the children of a node whose child count does not match its
    /// key count: each child whose key range encloses another child's is moved
    /// to the end; the last two children, ordered by first key, become the new
    /// parents; every other child whose range falls strictly inside the bounds
    /// of a new parent (see `child_bounds`) moves under that parent.
    /// `false`, with the children left partly regrouped, where regrouping
    /// would read a key that does not exist (see `fix_ok`).
    pub fn try_fix_child_count_mismatch(self_node: &mut Node) -> (ok: bool)
        ensures
            ok == fix_ok(old(self_node)@),
            ok ==> final(self_node)@ == spec_fix_child_count_mismatch(old(self_node)@),
    {
        let ghost t = self_node@;
        proof {
            lemma_views_of_node(*self_node);
        }
        let n = self_node.children.len();
        if n < 2 || self_node.input.len() == 0 {
            return false;
        }
        let ghost nn = n as int;
        let mut i: usize = 0;
        proof {
            lemma_regroup_len(t.children, 0, nn);
        }
        while i < n
            invariant
                n == self_node.children@.len(),
                nn == n,
                i <= n,
                self_node.input == old(self_node).input,
                self_node.rank == old(self_node).rank,
                t == old(self_node)@,
                regroup(nodes_view(self_node.children@), i as int, nn) == regroup(t.children, 0, nn),
                regroup_ok(nodes_view(self_node.children@), i as int, nn) == regroup_ok(t.children, 0, nn),
                t.children.len() == nn,
                nn >= 2,
                t.input.len() > 0,
            decreases n - i,
        {
            let ghost cur = nodes_view(self_node.children@);
            assert(cur[i as int] == self_node.children@[i as int]@);
            proof {
                lemma_tree_of(self_node.children@[i as int]);
            }
            if self_node.children[i].input.len() == 0 {
                return false;
            }
            let (pf, pl) = first_last(&self_node.children[i]);
            let ghost p = cur[i as int];
            let mut j: usize = 0;
            let mut found = false;
            while !found && j < n
                invariant
                    n == self_node.children@.len(),
                    nn == n,
                    j <= n,
                    cur == nodes_view(self_node.children@),
                    pf == first_of(p),
                    pl == last_of(p),
                    found ==> encloses_some(cur, p, 0, nn),
                    found ==> scan_ok(cur, p, 0, nn),
                    !found ==> encloses_some(cur, p, 0, nn) == encloses_some(cur, p, j as int, nn),
                    !found ==> scan_ok(cur, p, 0, nn) == scan_ok(cur, p, j as int, nn),
                    regroup_ok(cur, i as int, nn) == regroup_ok(t.children, 0, nn),
                    t == old(self_node)@,
                    t.children.len() == nn,
                    cur[i as int] == p,
                    p.input.len() > 0,
                    0 <= i < nn,
                decreases n - j + (if found { 0int } else { 1int }),
            {
                assert(cur[j as int] == self_node.children@[j as int]@);
                proof {
                    lemma_tree_of(self_node.children@[j as int]);
                }
                if self_node.children[j].input.len() == 0 {
                    assert(!scan_ok(cur, p, j as int, nn));
                    assert(!scan_ok(cur, cur[i as int], 0, nn));
                    assert(!regroup_ok(cur, i as int, nn));
                    return false;
                }
                let (of, ol) = first_last(&self_node.children[j]);
                if pf < of && pl > ol {
                    found = true;
                } else {
                    j += 1;
                }
            }
            if found {
                let c = self_node.children.remove(i);
                self_node.children.push(c);
                assert(nodes_view(self_node.children@) =~= cur.push(cur[i as int]).remove(i as int));
            }
            assert(nodes_view(self_node.children@) == regroup_step(cur, i as int, nn));
            i += 1;
        }
        let ghost a = nodes_view(self_node.children@);
        assert(a == regroup(t.children, 0, nn));
        let m = self_node.children.len();
        assert(nodes_view(self_node.children@)[m - 2] == self_node.children@[m - 2]@);
        assert(nodes_view(self_node.children@)[m - 1] == self_node.children@[m - 1]@);
        proof {
            lemma_tree_of(self_node.children@[m - 2]);
            lemma_tree_of(self_node.children@[m - 1]);
        }
        if self_node.children[m - 2].input.len() == 0 || self_node.children[m - 1].input.len() == 0 {
            assert(!fix_ok(t)) by {
                let b = regrouped_children(t);
                if first_of(a[m - 2]) > first_of(a[m - 1]) {
                    assert(b[m - 2] == a[m - 1] && b[m - 1] == a[m - 2]);
                }
            }
            return false;
        }
        let (k1, _) = first_last(&self_node.children[m - 2]);
        let (k2, _) = first_last(&self_node.children[m - 1]);
        if k1 > k2 {
            let last = self_node.children.pop().unwrap();
            let second = self_node.children.pop().unwrap();
            self_node.children.push(last);
            self_node.children.push(second);
        }
        let ghost b = nodes_view(self_node.children@);
        assert(b =~= regrouped_children(t));
        assert(b[m - 2] == self_node.children@[m - 2]@);
        assert(b[m - 1] == self_node.children@[m - 1]@);
        let b1 = child_bounds_of(&self_node.input, &self_node.children[m - 2]);
        let b2 = child_bounds_of(&self_node.input, &self_node.children[m - 1]);
        assert(b1@ == parent_one_bounds(t));
        assert(b2@ == parent_two_bounds(t));
        let steps = m - 2;
        let mut j: usize = 0;
        let mut done: usize = 0;
        while done < steps
            invariant
                done <= steps,
                steps == m - 2,
                self_node.children@.len() == j + (steps - done) + 2,
                self_node.children@.len() <= m,
                distribute(nodes_view(self_node.children@), j as int, (steps - done) as nat, b1@, b2@)
                    == distribute(b, 0, steps as nat, b1@, b2@),
                distribute_ok(nodes_view(self_node.children@), j as int, (steps - done) as nat, b1@, b2@)
                    == distribute_ok(b, 0, steps as nat, b1@, b2@),
                fix_ok(t) == distribute_ok(b, 0, steps as nat, b1@, b2@),
                t == old(self_node)@,
                b == regrouped_children(t),
                b1@.len() == 0 || b1@.len() == 2,
                b2@.len() == 0 || b2@.len() == 2,
                self_node.input == old(self_node).input,
                self_node.rank == old(self_node).rank,
            decreases steps - done,
        {
            let ghost cur = nodes_view(self_node.children@);
            let ghost l = cur.len();
            assert(cur[j as int] == self_node.children@[j as int]@);
            proof {
                lemma_tree_of(self_node.children@[j as int]);
            }
            if self_node.children[j].input.len() == 0 || b1.len() == 0 {
                return false;
            }
            let (kf, kl) = first_last(&self_node.children[j]);
            if !(kf > b1[0] && kl < b1[1]) && b2.len() == 0 {
                return false;
            }
            if kf > b1[0] && kl < b1[1] {
                let ghost before_rm = self_node.children@;
                let k = self_node.children.remove(j);
                let len = self_node.children.len();
                let ghost mid_seq = self_node.children@;
                let ghost kv = k@;
                let ghost kn = k;
                self_node.children[len - 2].children.push(k);
                proof {
                    assert(nodes_view(mid_seq) =~= cur.remove(j as int)) by {
                        assert(mid_seq == before_rm.remove(j as int));
                        assert forall|x: int| 0 <= x < mid_seq.len() implies #[trigger] nodes_view(mid_seq)[x] == cur.remove(j as int)[x] by {
                            assert(nodes_view(before_rm)[if x < j { x } else { x + 1 }] == before_rm[if x < j { x } else { x + 1 }]@);
                        }
                    }
                    assert(cur[j as int] == kv) by {
                        assert(nodes_view(before_rm)[j as int] == before_rm[j as int]@);
                    }
                    assert(self_node.children@[len - 2].children@ == mid_seq[len - 2].children@.push(kn));
                    assert(nodes_view(self_node.children@[len - 2].children@) =~= nodes_view(mid_seq[len - 2].children@).push(kv));
                    lemma_tree_of_adopt(mid_seq[len - 2], self_node.children@[len - 2], kv);
                    lemma_distribute_view(cur, mid_seq, self_node.children@, j as int, l - 2, kv);
                }
            } else if kf > b2[0] && kl < b2[1] {
                let ghost before_rm = self_node.children@;
                let k = self_node.children.remove(j);
                let len = self_node.children.len();
                let ghost mid_seq = self_node.children@;
                let ghost kv = k@;
                let ghost kn = k;
                self_node.children[len - 1].children.push(k);
                proof {
                    assert(nodes_view(mid_seq) =~= cur.remove(j as int)) by {
                        assert(mid_seq == before_rm.remove(j as int));
                        assert forall|x: int| 0 <= x < mid_seq.len() implies #[trigger] nodes_view(mid_seq)[x] == cur.remove(j as int)[x] by {
                            assert(nodes_view(before_rm)[if x < j { x } else { x + 1 }] == before_rm[if x < j { x } else { x + 1 }]@);
                        }
                    }
                    assert(cur[j as int] == kv) by {
                        assert(nodes_view(before_rm)[j as int] == before_rm[j as int]@);
                    }
                    assert(self_node.children@[len - 1].children@ == mid_seq[len - 1].children@.push(kn));
                    assert(nodes_view(self_node.children@[len - 1].children@) =~= nodes_view(mid_seq[len - 1].children@).push(kv));
                    lemma_tree_of_adopt(mid_seq[len - 1], self_node.children@[len - 1], kv);
                    lemma_distribute_view(cur, mid_seq, self_node.children@, j as int, l - 1, kv);
                }
            } else {
                j += 1;
            }
            done += 1;
        }
        proof {
            lemma_views_of_node(*self_node);
        }
        assert(self_node@ =~= spec_fix_child_count_mismatch(t));
        true
    }

    /// Regroups the children of a node whose child count does not match its
    /// key count (see `try_fix_child_count_mismatch`), where regrouping reads
    /// only keys that exist.
    pub fn fix_child_count_mismatch(self_node: &mut Node)
        requires
            fix_ok(old(self_node)@),
        ensures
            final(self_node)@ == spec_fix_child_count_mismatch(old(self_node)@),
    {
        Node::try_fix_child_count_mismatch(self_node);
    }
}

} // verus!
