//! Passes over the whole tree that find nodes breaking the B-tree shape and
//! repair them: overfull nodes, underfull children, and nodes whose child
//! count does not match their key count.
use vstd::prelude::*;
use crate::btree::node::Node;
use crate::btree::regroup::{fix_ok, law_fix_child_count_mismatch_preserves_content, spec_fix_child_count_mismatch};
use crate::btree::order::{lemma_stable_sort_perm, stable_sort};
use crate::btree::repair::{
    keeps_key, law_split_preserves_content, propagate_ok, spec_propagate_up, spec_split_nodes,
};
use crate::btree::tree::{
    content, first_key, forest_content, lemma_child_smaller, lemma_forest_pointwise,
    lemma_tree_of, lemma_views_of_node, nodes_view, tree_size, Tree,
};

verus! {

broadcast use vstd::seq_lib::group_to_multiset_ensures;

/// Every node with more than `ns` keys is split; the new children of a split
/// node are not examined.
pub open spec fn spec_overflow_check(t: Tree, ns: int) -> Tree
    decreases t,
{
    if t.input.len() > ns {
        spec_split_nodes(t)
    } else {
        Tree {
            children: Seq::new(
                t.children.len(),
                |i: int|
                    if 0 <= i < t.children.len() {
                        spec_overflow_check(t.children[i], ns)
                    } else {
                        t
                    },
            ),
            ..t
        }
    }
}

/// Every node that gets split has a rank below the largest, so its new
/// children's rank fits.
pub open spec fn overflow_ok(t: Tree, ns: int) -> bool
    decreases t,
{
    if t.input.len() > ns {
        t.rank < u32::MAX
    } else {
        forall|i: int| 0 <= i < t.children.len() ==> overflow_ok(#[trigger] t.children[i], ns)
    }
}

/// A node has children, but not one more than it has keys.
pub open spec fn mismatched(t: Tree) -> bool {
    t.children.len() > 0 && t.input.len() + 1 != t.children.len()
}

/// Every mismatched node whose ancestors are not mismatched is regrouped.
pub open spec fn spec_child_overflow(t: Tree) -> Tree
    decreases t,
{
    if mismatched(t) {
        spec_fix_child_count_mismatch(t)
    } else {
        Tree {
            children: Seq::new(
                t.children.len(),
                |i: int|
                    if 0 <= i < t.children.len() {
                        spec_child_overflow(t.children[i])
                    } else {
                        t
                    },
            ),
            ..t
        }
    }
}

/// Every node that gets regrouped can be (see `fix_ok`).
pub open spec fn child_overflow_ok(t: Tree) -> bool
    decreases t,
{
    if mismatched(t) {
        fix_ok(t)
    } else {
        forall|i: int| 0 <= i < t.children.len() ==> child_overflow_ok(#[trigger] t.children[i])
    }
}

impl Node {
    /// Splits every node that holds more than `node_size` keys; a node that
    /// is split is not searched further.
    pub fn overflow_check(root: &mut Node, node_size: usize)
        requires
            overflow_ok(old(root)@, node_size as int),
        ensures
            final(root)@ == spec_overflow_check(old(root)@, node_size as int),
        decreases *old(root),
    {
        if root.input.len() > node_size {
            proof {
                lemma_tree_of(*root);
            }
            Node::split_nodes(root);
            return;
        }
        let ghost mid = root.children@;
        let mut i: usize = 0;
        while i < root.children.len()
            invariant
                i <= root.children@.len(),
                root.children@.len() == mid.len(),
                mid == old(root).children@,
                root.input == old(root).input,
                root.rank == old(root).rank,
                old(root).input@.len() <= node_size,
                overflow_ok(old(root)@, node_size as int),
                forall|j: int| i <= j < mid.len() ==> root.children@[j] == mid[j],
                forall|j: int|
                    0 <= j < i ==> #[trigger] root.children@[j]@ == spec_overflow_check(
                        mid[j]@,
                        node_size as int,
                    ),
            decreases root.children@.len() - i,
        {
            proof {
                assert(decreases_to!(*old(root) => old(root).children@[i as int]));
                lemma_tree_of(*old(root));
                assert(old(root)@.children[i as int] == mid[i as int]@);
            }
            Node::overflow_check(&mut root.children[i], node_size);
            i += 1;
        }
        proof {
            lemma_tree_of(*root);
            lemma_tree_of(*old(root));
        }
        assert(root@.children =~= spec_overflow_check(old(root)@, node_size as int).children);
        assert(root@ =~= spec_overflow_check(old(root)@, node_size as int));
    }

    /// Regroups every node whose child count does not match its key count
    /// (see `fix_child_count_mismatch`); a regrouped node is not searched
    /// further. `false`, with the tree left partly repaired, where a
    /// regrouping would read a key that does not exist.
    pub fn try_child_overflow(self_node: &mut Node) -> (ok: bool)
        ensures
            ok == child_overflow_ok(old(self_node)@),
            ok ==> final(self_node)@ == spec_child_overflow(old(self_node)@),
        decreases *old(self_node),
    {
        proof {
            lemma_tree_of(*self_node);
        }
        if self_node.children.len() > 0 && self_node.input.len() != self_node.children.len() - 1 {
            return Node::try_fix_child_count_mismatch(self_node);
        }
        let ghost mid = self_node.children@;
        let mut i: usize = 0;
        while i < self_node.children.len()
            invariant
                i <= self_node.children@.len(),
                self_node.children@.len() == mid.len(),
                mid == old(self_node).children@,
                self_node.input == old(self_node).input,
                self_node.rank == old(self_node).rank,
                !mismatched(old(self_node)@),
                old(self_node)@.children.len() == mid.len(),
                forall|j: int| 0 <= j < mid.len() ==> #[trigger] old(self_node)@.children[j] == mid[j]@,
                forall|j: int| 0 <= j < i ==> child_overflow_ok(#[trigger] old(self_node)@.children[j]),
                forall|j: int| i <= j < mid.len() ==> self_node.children@[j] == mid[j],
                forall|j: int|
                    0 <= j < i ==> #[trigger] self_node.children@[j]@ == spec_child_overflow(
                        mid[j]@,
                    ),
            decreases self_node.children@.len() - i,
        {
            proof {
                assert(decreases_to!(*old(self_node) => old(self_node).children@[i as int]));
            }
            if !Node::try_child_overflow(&mut self_node.children[i]) {
                assert(!child_overflow_ok(old(self_node)@.children[i as int]));
                return false;
            }
            i += 1;
        }
        proof {
            lemma_tree_of(*self_node);
        }
        assert(self_node@.children =~= spec_child_overflow(old(self_node)@).children);
        assert(self_node@ =~= spec_child_overflow(old(self_node)@));
        true
    }

    /// Regroups every node whose child count does not match its key count
    /// (see `try_child_overflow`), where every regrouping reads only keys
    /// that exist.
    pub fn child_overflow(self_node: &mut Node)
        requires
            child_overflow_ok(old(self_node)@),
        ensures
            final(self_node)@ == spec_child_overflow(old(self_node)@),
    {
        Node::try_child_overflow(self_node);
    }
}

/// The overflow pass keeps every entry of the tree.
pub proof fn law_overflow_check_preserves_content(t: Tree, ns: int)
    ensures
        content(spec_overflow_check(t, ns)) == content(t),
    decreases t,
{
    if t.input.len() > ns {
        law_split_preserves_content(t);
    } else {
        let r = spec_overflow_check(t, ns);
        assert forall|i: int| 0 <= i < t.children.len() implies #[trigger] content(r.children[i])
            == content(t.children[i]) by {
            law_overflow_check_preserves_content(t.children[i], ns);
        }
        lemma_forest_pointwise(r.children, t.children);
        assert(content(r) =~= content(t));
    }
}

/// The mismatch pass keeps every entry of the tree.
pub proof fn law_child_overflow_preserves_content(t: Tree)
    requires
        child_overflow_ok(t),
    ensures
        content(spec_child_overflow(t)) == content(t),
    decreases t,
{
    if mismatched(t) {
        law_fix_child_count_mismatch_preserves_content(t);
    } else {
        let r = spec_child_overflow(t);
        assert forall|i: int| 0 <= i < t.children.len() implies #[trigger] content(r.children[i])
            == content(t.children[i]) by {
            law_child_overflow_preserves_content(t.children[i]);
        }
        lemma_forest_pointwise(r.children, t.children);
        assert(content(r) =~= content(t));
    }
}

} // verus!

verus! {

/// A child with fewer than half of `ns` keys, below the root level.
pub open spec fn under_sized(c: Tree, ns: int) -> bool {
    c.input.len() < ns / 2 && c.rank > 1
}

/// The positions, in increasing order, of the undersized children among the
/// first `i`.
pub open spec fn under_indices(cs: Seq<Tree>, ns: int, i: int) -> Seq<usize>
    decreases i,
{
    if i <= 0 {
        Seq::empty()
    } else if under_sized(cs[i - 1], ns) {
        under_indices(cs, ns, i - 1).push((i - 1) as usize)
    } else {
        under_indices(cs, ns, i - 1)
    }
}

/// The node after folding the children at the listed positions into it, the
/// last position first. A position is taken as it stands when its turn comes.
pub open spec fn propagate_all(t: Tree, idxs: Seq<usize>) -> Tree
    decreases idxs.len(),
{
    if idxs.len() == 0 {
        t
    } else {
        propagate_all(spec_propagate_up(t, idxs.last() as int), idxs.drop_last())
    }
}

/// Each of those folds is possible when its turn comes.
pub open spec fn propagate_all_ok(t: Tree, idxs: Seq<usize>) -> bool
    decreases idxs.len(),
{
    idxs.len() == 0 || {
        &&& propagate_ok(t, idxs.last() as int)
        &&& propagate_all_ok(spec_propagate_up(t, idxs.last() as int), idxs.drop_last())
    }
}

/// The node with its undersized children folded in.
pub open spec fn folded(t: Tree, ns: int) -> Tree {
    propagate_all(t, under_indices(t.children, ns, t.children.len() as int))
}

/// Undersized children are folded into their parent, then every child that
/// has children is treated the same way. (The size test only makes the
/// definition total; the children of a folded node are always smaller than
/// the node.)
pub open spec fn spec_min_size_check(t: Tree, ns: int) -> Tree
    decreases tree_size(t),
{
    let t1 = folded(t, ns);
    Tree {
        children: Seq::new(
            t1.children.len(),
            |i: int|
                if 0 <= i < t1.children.len() && t1.children[i].children.len() > 0 && tree_size(
                    t1.children[i],
                ) < tree_size(t) {
                    spec_min_size_check(t1.children[i], ns)
                } else {
                    t1.children[i]
                },
        ),
        ..t1
    }
}

/// Every fold done by the pass is possible.
pub open spec fn min_size_ok(t: Tree, ns: int) -> bool
    decreases tree_size(t),
{
    let t1 = folded(t, ns);
    &&& propagate_all_ok(t, under_indices(t.children, ns, t.children.len() as int))
    &&& forall|i: int|
        0 <= i < t1.children.len() && (#[trigger] t1.children[i]).children.len() > 0 ==> (tree_size(
            t1.children[i],
        ) < tree_size(t) && min_size_ok(t1.children[i], ns))
}

pub proof fn lemma_propagate_smaller(cur: Tree, ci: int, bound: nat)
    requires
        propagate_ok(cur, ci),
        forall|i: int| 0 <= i < cur.children.len() ==> tree_size(#[trigger] cur.children[i]) < bound,
    ensures
        forall|i: int|
            0 <= i < spec_propagate_up(cur, ci).children.len() ==> tree_size(
                #[trigger] spec_propagate_up(cur, ci).children[i],
            ) < bound,
{
    let c = cur.children[ci];
    let all = cur.children + c.children;
    let f = all.filter(keeps_key(c.input[0].key));
    let r = spec_propagate_up(cur, ci).children;
    lemma_stable_sort_perm(f, first_key());
    assert forall|i: int| 0 <= i < r.len() implies tree_size(#[trigger] r[i]) < bound by {
        assert(r.contains(r[i]));
        assert(r.to_multiset().count(r[i]) > 0);
        assert(f.to_multiset().count(r[i]) > 0);
        assert(f.contains(r[i]));
        Seq::lemma_filter_contains_rev(all, keeps_key(c.input[0].key), r[i]);
        let w = choose|w: int| 0 <= w < all.len() && all[w] == r[i];
        if w < cur.children.len() {
            assert(all[w] == cur.children[w]);
        } else {
            assert(all[w] == c.children[w - cur.children.len()]);
            lemma_child_smaller(c, w - cur.children.len());
        }
    }
}

pub proof fn lemma_propagate_all_smaller(cur: Tree, idxs: Seq<usize>, bound: nat)
    requires
        propagate_all_ok(cur, idxs),
        forall|i: int| 0 <= i < cur.children.len() ==> tree_size(#[trigger] cur.children[i]) < bound,
    ensures
        forall|i: int|
            0 <= i < propagate_all(cur, idxs).children.len() ==> tree_size(
                #[trigger] propagate_all(cur, idxs).children[i],
            ) < bound,
    decreases idxs.len(),
{
    if idxs.len() > 0 {
        let nxt = spec_propagate_up(cur, idxs.last() as int);
        lemma_propagate_smaller(cur, idxs.last() as int, bound);
        lemma_propagate_all_smaller(nxt, idxs.drop_last(), bound);
        assert(propagate_all(cur, idxs) == propagate_all(nxt, idxs.drop_last()));
        assert forall|i: int| 0 <= i < propagate_all(cur, idxs).children.len() implies tree_size(
            #[trigger] propagate_all(cur, idxs).children[i],
        ) < bound by {
            assert(propagate_all(nxt, idxs.drop_last()).children[i] == propagate_all(cur, idxs).children[i]);
        }
    } else {
        assert(propagate_all(cur, idxs) == cur);
    }
}

/// The children of a folded node are smaller than the node.
pub proof fn lemma_folded_smaller(t: Tree, ns: int)
    requires
        propagate_all_ok(t, under_indices(t.children, ns, t.children.len() as int)),
    ensures
        forall|i: int|
            0 <= i < folded(t, ns).children.len() ==> tree_size(#[trigger] folded(t, ns).children[i])
                < tree_size(t),
{
    assert forall|i: int| 0 <= i < t.children.len() implies tree_size(#[trigger] t.children[i]) < tree_size(t) by {
        lemma_child_smaller(t, i);
    }
    lemma_propagate_all_smaller(t, under_indices(t.children, ns, t.children.len() as int), tree_size(t));
}

impl Node {
    /// Folds every undersized child (fewer than `node_size / 2` keys, rank
    /// above 1) into this node, last position first, then does the same in
    /// every child that has children. `false`, with the tree left partly
    /// repaired, where a fold would read a key that does not exist.
    pub fn try_min_size_check(self_node: &mut Node, node_size: usize) -> (ok: bool)
        ensures
            ok == min_size_ok(old(self_node)@, node_size as int),
            ok ==> final(self_node)@ == spec_min_size_check(old(self_node)@, node_size as int),
        decreases tree_size(old(self_node)@),
    {
        let ghost t = self_node@;
        let ghost ns = node_size as int;
        proof {
            lemma_views_of_node(*self_node);
        }
        let half = node_size / 2;
        let mut idxs: Vec<usize> = Vec::new();
        let mut idx: usize = 0;
        while idx < self_node.children.len()
            invariant
                idx <= self_node.children@.len(),
                self_node@ == t,
                t.children == nodes_view(self_node.children@),
                half == node_size / 2,
                ns == node_size as int,
                idxs@ == under_indices(t.children, ns, idx as int),
            decreases self_node.children@.len() - idx,
        {
            assert(t.children[idx as int] == self_node.children@[idx as int]@);
            proof {
                lemma_tree_of(self_node.children@[idx as int]);
            }
            if self_node.children[idx].input.len() < half && self_node.children[idx].rank > 1 {
                idxs.push(idx);
            }
            idx += 1;
        }
        let mut k = idxs.len();
        assert(idxs@.take(k as int) =~= idxs@);
        while k > 0
            invariant
                k <= idxs@.len(),
                propagate_all(self_node@, idxs@.take(k as int)) == folded(t, ns),
                propagate_all_ok(self_node@, idxs@.take(k as int)) == propagate_all_ok(t, idxs@),
                idxs@ == under_indices(t.children, ns, t.children.len() as int),
                t == old(self_node)@,
                ns == node_size as int,
            decreases k,
        {
            k -= 1;
            let i = idxs[k];
            assert(idxs@.take(k + 1).last() == i);
            assert(idxs@.take(k + 1).drop_last() =~= idxs@.take(k as int));
            if !crate::btree::checks::can_propagate(self_node, i) {
                assert(!min_size_ok(t, ns));
                return false;
            }
            Node::propagate_up(self_node, i);
        }
        assert(idxs@.take(0) =~= Seq::<usize>::empty());
        let ghost t1 = self_node@;
        assert(t1 == folded(t, ns));
        proof {
            lemma_folded_smaller(t, ns);
            lemma_views_of_node(*self_node);
        }
        let ghost mid = self_node.children@;
        let mut i: usize = 0;
        while i < self_node.children.len()
            invariant
                i <= self_node.children@.len(),
                self_node.children@.len() == mid.len(),
                nodes_view(mid) == t1.children,
                self_node@.input == t1.input,
                self_node.rank == t1.rank,
                t1 == folded(t, ns),
                t == old(self_node)@,
                ns == node_size as int,
                propagate_all_ok(t, under_indices(t.children, ns, t.children.len() as int)),
                forall|j: int|
                    0 <= j < i && (#[trigger] t1.children[j]).children.len() > 0 ==> min_size_ok(
                        t1.children[j],
                        ns,
                    ),
                forall|j: int|
                    0 <= j < t1.children.len() ==> tree_size(#[trigger] t1.children[j]) < tree_size(t),
                forall|j: int| i <= j < mid.len() ==> self_node.children@[j] == mid[j],
                forall|j: int|
                    0 <= j < i ==> #[trigger] self_node.children@[j]@ == spec_min_size_check(t, ns).children[j],
            decreases self_node.children@.len() - i,
        {
            assert(t1.children[i as int] == mid[i as int]@);
            proof {
                lemma_tree_of(mid[i as int]);
            }
            if self_node.children[i].children.len() > 0 {
                if !Node::try_min_size_check(&mut self_node.children[i], node_size) {
                    assert(!min_size_ok(t, ns));
                    return false;
                }
            }
            i += 1;
        }
        proof {
            lemma_views_of_node(*self_node);
        }
        assert(self_node@.children =~= spec_min_size_check(t, ns).children);
        assert(self_node@ =~= spec_min_size_check(t, ns));
        true
    }

    /// Folds every undersized child into this node, then does the same in
    /// every child that has children (see `try_min_size_check`), where every
    /// fold reads only keys that exist.
    pub fn min_size_check(self_node: &mut Node, node_size: usize)
        requires
            min_size_ok(old(self_node)@, node_size as int),
        ensures
            final(self_node)@ == spec_min_size_check(old(self_node)@, node_size as int),
    {
        Node::try_min_size_check(self_node, node_size);
    }
}

} // verus!

verus! {

pub proof fn lemma_forest_filter_subset(s: Seq<Tree>, p: spec_fn(Tree) -> bool)
    ensures
        forest_content(s.filter(p)).subset_of(forest_content(s)),
    decreases s.len(),
{
    reveal_with_fuel(Seq::<_>::filter, 1);
    if s.len() > 0 {
        lemma_forest_filter_subset(s.drop_last(), p);
        assert(s.drop_last().push(s.last()) =~= s);
        s.drop_last().lemma_filter_push(s.last(), p);
        crate::btree::tree::lemma_forest_push(s.drop_last().filter(p), s.last());
        crate::btree::tree::lemma_forest_push(s.drop_last(), s.last());
    } else {
        assert(s.filter(p) =~= s);
    }
}

/// Folding a child into its parent never adds an entry: what it drops are
/// the subtrees that start with the folded child's first key.
pub proof fn law_propagate_up_keeps_no_more(t: Tree, ci: int)
    requires
        propagate_ok(t, ci),
    ensures
        content(spec_propagate_up(t, ci)).subset_of(content(t)),
{
    let c = t.children[ci];
    let k = c.input[0].key;
    let rest = t.children.remove(ci);
    let all = rest + c.children;
    let r = spec_propagate_up(t, ci);
    crate::btree::repair::lemma_filter_drops_failing(t.children, ci, c.children, keeps_key(k));
    let f = all.filter(keeps_key(k));
    lemma_stable_sort_perm(f, first_key());
    crate::btree::tree::lemma_forest_perm(r.children, f);
    lemma_forest_filter_subset(all, keeps_key(k));
    crate::btree::tree::lemma_forest_concat(rest, c.children);
    crate::btree::tree::lemma_forest_remove(t.children, ci);
    let ins = t.input + crate::btree::tree::with_rank(c.input, t.rank);
    lemma_stable_sort_perm(ins, crate::btree::tree::item_key());
    crate::btree::tree::lemma_items_perm(stable_sort(ins, crate::btree::tree::item_key()), ins);
    crate::btree::tree::lemma_items_concat(t.input, crate::btree::tree::with_rank(c.input, t.rank));
    crate::btree::tree::lemma_items_content_with_rank(c.input, t.rank);
    let a = crate::btree::tree::items_content(t.input);
    let b = crate::btree::tree::items_content(c.input);
    let fr = forest_content(rest);
    let g = forest_content(c.children);
    assert(content(r) == a.add(b).add(forest_content(f)));
    assert(content(t) == a.add(fr.add(b.add(g))));
    assert forall|x| #[trigger] content(r).count(x) <= content(t).count(x) by {
        assert(forest_content(f).count(x) <= fr.add(g).count(x));
    }
}

pub proof fn lemma_propagate_all_keeps_no_more(t: Tree, idxs: Seq<usize>)
    requires
        propagate_all_ok(t, idxs),
    ensures
        content(propagate_all(t, idxs)).subset_of(content(t)),
    decreases idxs.len(),
{
    if idxs.len() > 0 {
        let nxt = spec_propagate_up(t, idxs.last() as int);
        law_propagate_up_keeps_no_more(t, idxs.last() as int);
        lemma_propagate_all_keeps_no_more(nxt, idxs.drop_last());
        assert(propagate_all(t, idxs) == propagate_all(nxt, idxs.drop_last()));
    }
}

pub proof fn lemma_forest_pointwise_subset(a: Seq<Tree>, b: Seq<Tree>)
    requires
        a.len() == b.len(),
        forall|i: int| 0 <= i < a.len() ==> (#[trigger] content(a[i])).subset_of(content(b[i])),
    ensures
        forest_content(a).subset_of(forest_content(b)),
    decreases a.len(),
{
    if a.len() > 0 {
        assert(content(a[a.len() - 1]).subset_of(content(b[b.len() - 1])));
        lemma_forest_pointwise_subset(a.drop_last(), b.drop_last());
    }
}

/// The underflow pass never adds an entry to the tree.
pub proof fn law_min_size_check_keeps_no_more(t: Tree, ns: int)
    requires
        min_size_ok(t, ns),
    ensures
        content(spec_min_size_check(t, ns)).subset_of(content(t)),
    decreases tree_size(t),
{
    let t1 = folded(t, ns);
    let r = spec_min_size_check(t, ns);
    lemma_propagate_all_keeps_no_more(t, under_indices(t.children, ns, t.children.len() as int));
    assert forall|i: int| 0 <= i < t1.children.len() implies (#[trigger] content(r.children[i])).subset_of(
        content(t1.children[i]),
    ) by {
        if t1.children[i].children.len() > 0 {
            law_min_size_check_keeps_no_more(t1.children[i], ns);
        }
    }
    lemma_forest_pointwise_subset(r.children, t1.children);
    assert forall|x| #[trigger] content(r).count(x) <= content(t).count(x) by {
        assert(content(r).count(x) <= content(t1).count(x));
    }
}

/// No two entries of `m` share a key, and no entry is there twice.
pub open spec fn keys_unique(m: vstd::multiset::Multiset<(u32, Seq<crate::mvcc::versions::Version>)>) -> bool {
    forall|e1: (u32, Seq<crate::mvcc::versions::Version>), e2: (u32, Seq<crate::mvcc::versions::Version>)|
        #![trigger m.count(e1), m.count(e2)]
        m.count(e1) > 0 && m.count(e2) > 0 && e1.0 == e2.0 ==> e1 == e2 && m.count(e1) == 1
}

/// A part of a multiset whose keys are unique has unique keys.
proof fn lemma_keys_unique_part(
    a: vstd::multiset::Multiset<(u32, Seq<crate::mvcc::versions::Version>)>,
    m: vstd::multiset::Multiset<(u32, Seq<crate::mvcc::versions::Version>)>,
)
    requires
        a.subset_of(m),
        keys_unique(m),
    ensures
        keys_unique(a),
{
    assert forall|e1: (u32, Seq<crate::mvcc::versions::Version>), e2: (u32, Seq<crate::mvcc::versions::Version>)|
        a.count(e1) > 0 && a.count(e2) > 0 && e1.0 == e2.0 implies e1 == e2 && a.count(e1) == 1 by {
        assert(a.count(e1) <= m.count(e1));
        assert(a.count(e2) <= m.count(e2));
    }
}

/// The first key of a tree with keys is among its entries.
proof fn lemma_first_entry(x: Tree)
    requires
        x.input.len() > 0,
    ensures
        content(x).count(crate::btree::tree::entry(x.input[0])) > 0,
{
    crate::btree::tree::lemma_msum_remove(x.input, 0, |it: crate::btree::tree::ItemsView| crate::btree::tree::entry_one(it));
    assert(crate::btree::tree::items_content(x.input) == crate::btree::tree::msum(
        x.input,
        |it: crate::btree::tree::ItemsView| crate::btree::tree::entry_one(it),
    ));
}

/// Two different children are counted apart in what their parents hold.
proof fn lemma_forest_two(cs: Seq<Tree>, i: int, k: int)
    requires
        0 <= i < cs.len(),
        0 <= k < cs.len(),
        i != k,
    ensures
        content(cs[i]).add(content(cs[k])).subset_of(forest_content(cs)),
{
    crate::btree::tree::lemma_forest_remove(cs, k);
    let r = cs.remove(k);
    let i2 = if i < k { i } else { i - 1 };
    assert(r[i2] == cs[i]);
    crate::btree::tree::lemma_forest_remove(r, i2);
}

/// With unique keys, folding a child keeps every entry: no other child, and
/// no child of the folded child, starts with the folded child's first key.
proof fn lemma_fold_keeps_every_entry(t: Tree, ci: int)
    requires
        propagate_ok(t, ci),
        keys_unique(content(t)),
    ensures
        content(spec_propagate_up(t, ci)) == content(t),
{
    let c = t.children[ci];
    let ec = crate::btree::tree::entry(c.input[0]);
    lemma_first_entry(c);
    crate::btree::tree::lemma_forest_remove(t.children, ci);
    assert forall|i: int| 0 <= i < t.children.len() && i != ci implies #[trigger] t.children[i].input[0].key
        != t.children[ci].input[0].key by {
        let x = t.children[i];
        let ex = crate::btree::tree::entry(x.input[0]);
        lemma_first_entry(x);
        lemma_forest_two(t.children, i, ci);
        if x.input[0].key == c.input[0].key {
            let f = forest_content(t.children);
            assert(content(t).count(ex) >= f.count(ex));
            assert(f.count(ex) >= content(x).add(content(c)).count(ex));
            assert(content(t).count(ex) > 0);
            assert(content(t).count(ec) >= f.count(ec));
            assert(f.count(ec) >= content(x).add(content(c)).count(ec));
            assert(content(t).count(ec) > 0);
            assert(ex == ec);
            assert(content(x).add(content(c)).count(ec) >= 2);
            assert(false);
        }
    }
    assert forall|g: int| 0 <= g < c.children.len() implies #[trigger] c.children[g].input[0].key
        != c.input[0].key by {
        let x = c.children[g];
        let ex = crate::btree::tree::entry(x.input[0]);
        lemma_first_entry(x);
        crate::btree::tree::lemma_forest_remove(c.children, g);
        crate::btree::tree::lemma_msum_remove(c.input, 0, |it: crate::btree::tree::ItemsView| crate::btree::tree::entry_one(it));
        let f = forest_content(t.children);
        let ic = crate::btree::tree::items_content(c.input);
        let fc = forest_content(c.children);
        assert(content(c) == ic.add(fc));
        assert(content(t).count(ec) >= f.count(ec));
        assert(f.count(ec) >= content(c).count(ec));
        if x.input[0].key == c.input[0].key {
            assert(ic.count(ec) > 0);
            assert(fc.count(ex) >= content(x).count(ex));
            assert(content(t).count(ex) > 0);
            assert(content(t).count(ec) > 0);
            assert(ex == ec);
            assert(content(c).count(ec) >= 2);
            assert(false);
        }
    }
    crate::btree::repair::law_propagate_up_preserves_content(t, ci);
}

proof fn lemma_propagate_all_keeps_every_entry(t: Tree, idxs: Seq<usize>)
    requires
        propagate_all_ok(t, idxs),
        keys_unique(content(t)),
    ensures
        content(propagate_all(t, idxs)) == content(t),
    decreases idxs.len(),
{
    if idxs.len() > 0 {
        let nxt = spec_propagate_up(t, idxs.last() as int);
        lemma_fold_keeps_every_entry(t, idxs.last() as int);
        lemma_propagate_all_keeps_every_entry(nxt, idxs.drop_last());
        assert(propagate_all(t, idxs) == propagate_all(nxt, idxs.drop_last()));
    }
}

/// A child holds part of what its parent holds.
proof fn lemma_child_part(t: Tree, i: int)
    requires
        0 <= i < t.children.len(),
    ensures
        content(t.children[i]).subset_of(content(t)),
{
    crate::btree::tree::lemma_forest_remove(t.children, i);
}

/// When no two entries of the tree share a key, the underflow pass keeps
/// every entry of the tree.
pub proof fn law_min_size_check_keeps_every_entry(t: Tree, ns: int)
    requires
        min_size_ok(t, ns),
        keys_unique(content(t)),
    ensures
        content(spec_min_size_check(t, ns)) == content(t),
    decreases tree_size(t),
{
    let t1 = folded(t, ns);
    let r = spec_min_size_check(t, ns);
    lemma_propagate_all_keeps_every_entry(t, under_indices(t.children, ns, t.children.len() as int));
    assert forall|i: int| 0 <= i < t1.children.len() implies #[trigger] content(r.children[i]) == content(
        t1.children[i],
    ) by {
        if t1.children[i].children.len() > 0 {
            lemma_child_part(t1, i);
            lemma_keys_unique_part(content(t1.children[i]), content(t1));
            law_min_size_check_keeps_every_entry(t1.children[i], ns);
        }
    }
    lemma_forest_pointwise(r.children, t1.children);
}

} // verus!
