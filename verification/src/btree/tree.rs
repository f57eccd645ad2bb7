//! The mathematical model of the tree: a node is a sequence of keys with
//! their versions, a rank and a sequence of child trees. What a tree holds is
//! the multiset of its (key, versions) entries, wherever they sit.
use vstd::prelude::*;
use vstd::multiset::Multiset;
use crate::mvcc::versions::Version;
use crate::btree::node::{Items, Node};

verus! {

broadcast use vstd::seq_lib::group_to_multiset_ensures, vstd::multiset::group_multiset_axioms;

/// The model of one key of a node.
pub struct ItemsView {
    pub key: u32,
    pub rank: u32,
    pub version: Seq<Version>,
}

/// The model of a node and the subtree under it.
pub struct Tree {
    pub input: Seq<ItemsView>,
    pub rank: u32,
    pub children: Seq<Tree>,
}

pub open spec fn empty_tree() -> Tree {
    Tree { input: Seq::empty(), rank: 0, children: Seq::empty() }
}

/// The model of a node, built down the whole subtree.
pub open spec fn tree_of(n: Node) -> Tree
    decreases n,
{
    Tree {
        input: items_view(n.input@),
        rank: n.rank,
        children: Seq::new(
            n.children@.len(),
            |i: int|
                if 0 <= i < n.children@.len() {
                    tree_of(n.children@[i])
                } else {
                    empty_tree()
                },
        ),
    }
}

pub proof fn lemma_tree_of(n: Node)
    ensures
        n@.rank == n.rank,
        n@.input.len() == n.input@.len(),
        forall|i: int| 0 <= i < n.input@.len() ==> #[trigger] n@.input[i] == n.input@[i]@,
        n@.children.len() == n.children@.len(),
        forall|i: int| 0 <= i < n.children@.len() ==> #[trigger] n@.children[i] == n.children@[i]@,
{
}

pub broadcast proof fn lemma_tree_of_auto(n: Node)
    ensures
        (#[trigger] tree_of(n)).rank == n.rank,
        tree_of(n).input.len() == n.input@.len(),
        forall|i: int| 0 <= i < n.input@.len() ==> #[trigger] tree_of(n).input[i] == n.input@[i]@,
        tree_of(n).children.len() == n.children@.len(),
        forall|i: int|
            0 <= i < n.children@.len() ==> #[trigger] tree_of(n).children[i] == tree_of(
                n.children@[i],
            ),
{
}

pub open spec fn item_view_fn() -> spec_fn(Items) -> ItemsView {
    |it: Items| it@
}

pub open spec fn node_view_fn() -> spec_fn(Node) -> Tree {
    |n: Node| n@
}

/// The views of a sequence of items.
pub open spec fn items_view(s: Seq<Items>) -> Seq<ItemsView> {
    s.map_values(item_view_fn())
}

/// The views of a sequence of nodes.
pub open spec fn nodes_view(s: Seq<Node>) -> Seq<Tree> {
    s.map_values(node_view_fn())
}

/// The key by which the keys of a node are ordered.
pub open spec fn item_key() -> spec_fn(ItemsView) -> int {
    |it: ItemsView| it.key as int
}

/// The key by which the children of a node are ordered: their first key.
pub open spec fn first_key() -> spec_fn(Tree) -> int {
    |t: Tree| t.input[0].key as int
}

pub proof fn lemma_views_of_node(n: Node)
    ensures
        n@.input == items_view(n.input@),
        n@.children == nodes_view(n.children@),
{
    assert(n@.input =~= items_view(n.input@));
    assert(n@.children =~= nodes_view(n.children@));
}

/// What one key contributes to the contents of a tree.
pub open spec fn entry(it: ItemsView) -> (u32, Seq<Version>) {
    (it.key, it.version)
}

/// A sum of multisets, one per element of a sequence.
pub open spec fn msum<A, B>(s: Seq<A>, f: spec_fn(A) -> Multiset<B>) -> Multiset<B>
    decreases s.len(),
{
    if s.len() == 0 {
        Multiset::empty()
    } else {
        msum(s.drop_last(), f).add(f(s.last()))
    }
}

pub open spec fn entry_one(it: ItemsView) -> Multiset<(u32, Seq<Version>)> {
    Multiset::singleton(entry(it))
}

/// The entries of a sequence of keys.
pub open spec fn items_content(s: Seq<ItemsView>) -> Multiset<(u32, Seq<Version>)> {
    msum(s, |it: ItemsView| entry_one(it))
}

/// The entries of a tree: its own keys and those of every subtree.
pub open spec fn content(t: Tree) -> Multiset<(u32, Seq<Version>)>
    decreases t,
{
    items_content(t.input).add(forest_content(t.children))
}

/// The entries of a sequence of trees.
pub open spec fn forest_content(cs: Seq<Tree>) -> Multiset<(u32, Seq<Version>)>
    decreases cs,
{
    if cs.len() == 0 {
        Multiset::empty()
    } else {
        forest_content(cs.drop_last()).add(content(cs.last()))
    }
}

pub open spec fn content_fn() -> spec_fn(Tree) -> Multiset<(u32, Seq<Version>)> {
    |t: Tree| content(t)
}

pub proof fn lemma_forest_is_msum(cs: Seq<Tree>)
    ensures
        forest_content(cs) == msum(cs, content_fn()),
    decreases cs.len(),
{
    if cs.len() > 0 {
        lemma_forest_is_msum(cs.drop_last());
    }
}

pub proof fn lemma_msum_concat<A, B>(a: Seq<A>, b: Seq<A>, f: spec_fn(A) -> Multiset<B>)
    ensures
        msum(a + b, f) == msum(a, f).add(msum(b, f)),
    decreases b.len(),
{
    if b.len() == 0 {
        assert(a + b =~= a);
        assert(msum(a, f).add(Multiset::empty()) =~= msum(a, f));
    } else {
        lemma_msum_concat(a, b.drop_last(), f);
        assert((a + b).drop_last() =~= a + b.drop_last());
        assert((a + b).last() == b.last());
        assert(msum(a + b, f) =~= msum(a, f).add(msum(b, f)));
    }
}

pub proof fn lemma_msum_single<A, B>(x: A, f: spec_fn(A) -> Multiset<B>)
    ensures
        msum(seq![x], f) == f(x),
{
    assert(seq![x].drop_last() =~= Seq::<A>::empty());
    assert(seq![x].last() == x);
    assert(msum(Seq::<A>::empty(), f) == Multiset::<B>::empty());
    assert(msum(seq![x], f) =~= f(x));
}

pub proof fn lemma_msum_remove<A, B>(s: Seq<A>, k: int, f: spec_fn(A) -> Multiset<B>)
    requires
        0 <= k < s.len(),
    ensures
        msum(s, f) == msum(s.remove(k), f).add(f(s[k])),
{
    let a = s.take(k);
    let b = s.skip(k + 1);
    assert(s =~= a + seq![s[k]] + b);
    assert(s.remove(k) =~= a + b);
    lemma_msum_concat(a + seq![s[k]], b, f);
    lemma_msum_concat(a, seq![s[k]], f);
    lemma_msum_concat(a, b, f);
    lemma_msum_single(s[k], f);
    assert(msum(s, f) =~= msum(s.remove(k), f).add(f(s[k])));
}

/// Reordering a sequence does not change the sum.
pub proof fn lemma_msum_perm<A, B>(a: Seq<A>, b: Seq<A>, f: spec_fn(A) -> Multiset<B>)
    requires
        a.to_multiset() == b.to_multiset(),
    ensures
        msum(a, f) == msum(b, f),
    decreases a.len(),
{
    if a.len() == 0 {
        assert(b.len() == 0) by {
            assert(b.to_multiset().len() == 0);
        }
    } else {
        let x = a.last();
        assert(a.drop_last().push(x) =~= a);
        assert(a.to_multiset().count(x) > 0);
        assert(b.contains(x));
        let k = choose|k: int| 0 <= k < b.len() && b[k] == x;
        assert(b.remove(k).to_multiset() == b.to_multiset().remove(x));
        assert(a.drop_last().to_multiset() == a.to_multiset().remove(x)) by {
            assert(a.drop_last().push(x).to_multiset() == a.drop_last().to_multiset().insert(x));
            assert(a.drop_last().to_multiset().insert(x) == a.to_multiset());
            assert(a.drop_last().to_multiset() =~= a.to_multiset().remove(x));
        }
        lemma_msum_perm(a.drop_last(), b.remove(k), f);
        lemma_msum_remove(b, k, f);
    }
}

pub proof fn lemma_forest_concat(a: Seq<Tree>, b: Seq<Tree>)
    ensures
        forest_content(a + b) == forest_content(a).add(forest_content(b)),
{
    lemma_forest_is_msum(a + b);
    lemma_forest_is_msum(a);
    lemma_forest_is_msum(b);
    lemma_msum_concat(a, b, content_fn());
}

pub proof fn lemma_forest_remove(cs: Seq<Tree>, k: int)
    requires
        0 <= k < cs.len(),
    ensures
        forest_content(cs) == forest_content(cs.remove(k)).add(content(cs[k])),
{
    lemma_forest_is_msum(cs);
    lemma_forest_is_msum(cs.remove(k));
    lemma_msum_remove(cs, k, content_fn());
}

pub proof fn lemma_forest_perm(a: Seq<Tree>, b: Seq<Tree>)
    requires
        a.to_multiset() == b.to_multiset(),
    ensures
        forest_content(a) == forest_content(b),
{
    lemma_forest_is_msum(a);
    lemma_forest_is_msum(b);
    lemma_msum_perm(a, b, content_fn());
}

pub proof fn lemma_items_concat(a: Seq<ItemsView>, b: Seq<ItemsView>)
    ensures
        items_content(a + b) == items_content(a).add(items_content(b)),
{
    lemma_msum_concat(a, b, |it: ItemsView| entry_one(it));
}

pub proof fn lemma_items_perm(a: Seq<ItemsView>, b: Seq<ItemsView>)
    requires
        a.to_multiset() == b.to_multiset(),
    ensures
        items_content(a) == items_content(b),
{
    lemma_msum_perm(a, b, |it: ItemsView| entry_one(it));
}

} // verus!

verus! {

/// A key moved to the level of rank `r`.
pub open spec fn item_at_rank(it: ItemsView, r: u32) -> ItemsView {
    ItemsView { rank: r, ..it }
}

/// Keys moved to the level of rank `r`.
pub open spec fn with_rank(s: Seq<ItemsView>, r: u32) -> Seq<ItemsView> {
    s.map_values(|it: ItemsView| item_at_rank(it, r))
}

/// A childless node of rank `r` holding `s`.
pub open spec fn leaf(s: Seq<ItemsView>, r: u32) -> Tree {
    Tree { input: with_rank(s, r), rank: r, children: Seq::empty() }
}

pub proof fn lemma_items_content_with_rank(s: Seq<ItemsView>, r: u32)
    ensures
        items_content(with_rank(s, r)) == items_content(s),
    decreases s.len(),
{
    if s.len() > 0 {
        lemma_items_content_with_rank(s.drop_last(), r);
        assert(with_rank(s, r).drop_last() =~= with_rank(s.drop_last(), r));
    }
}

pub proof fn lemma_forest_push(cs: Seq<Tree>, t: Tree)
    ensures
        forest_content(cs.push(t)) == forest_content(cs).add(content(t)),
{
    assert(cs.push(t).drop_last() =~= cs);
}

pub proof fn lemma_items_push(s: Seq<ItemsView>, it: ItemsView)
    ensures
        items_content(s.push(it)) == items_content(s).add(entry_one(it)),
{
    assert(s.push(it).drop_last() =~= s);
}

} // verus!

verus! {

/// Two sequences of trees whose trees hold the same entries, position by
/// position, hold the same entries.
pub proof fn lemma_forest_pointwise(a: Seq<Tree>, b: Seq<Tree>)
    requires
        a.len() == b.len(),
        forall|i: int| 0 <= i < a.len() ==> #[trigger] content(a[i]) == content(b[i]),
    ensures
        forest_content(a) == forest_content(b),
    decreases a.len(),
{
    if a.len() > 0 {
        assert(content(a[a.len() - 1]) == content(b[b.len() - 1]));
        lemma_forest_pointwise(a.drop_last(), b.drop_last());
    }
}

} // verus!

verus! {

/// The number of nodes of a tree.
pub open spec fn tree_size(t: Tree) -> nat
    decreases t,
{
    1 + forest_size(t.children)
}

/// The number of nodes of a sequence of trees.
pub open spec fn forest_size(cs: Seq<Tree>) -> nat
    decreases cs,
{
    if cs.len() == 0 {
        0
    } else {
        forest_size(cs.drop_last()) + tree_size(cs.last())
    }
}

pub proof fn lemma_forest_size_elem(cs: Seq<Tree>, i: int)
    requires
        0 <= i < cs.len(),
    ensures
        tree_size(cs[i]) <= forest_size(cs),
    decreases cs.len(),
{
    if i < cs.len() - 1 {
        lemma_forest_size_elem(cs.drop_last(), i);
    }
}

/// A child is smaller than its parent.
pub proof fn lemma_child_smaller(t: Tree, i: int)
    requires
        0 <= i < t.children.len(),
    ensures
        tree_size(t.children[i]) < tree_size(t),
{
    lemma_forest_size_elem(t.children, i);
}

} // verus!
