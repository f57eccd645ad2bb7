use vstd::prelude::*;
use crate::btree::node::{Items, Node};
use crate::btree::order::{
    insert_sorted, lemma_stable_sort_sorted, sorted_by, lemma_insert_sorted_at, lemma_sort_step, lemma_stable_sort_map,
    lemma_stable_sort_perm, stable_sort,
};
use crate::btree::tree::{
    content, empty_tree, first_key, lemma_forest_perm, lemma_forest_pointwise, lemma_items_perm, item_key, item_view_fn, items_view, lemma_tree_of, lemma_tree_of_auto, lemma_views_of_node,
    node_view_fn, nodes_view, Tree,
};

verus! {

broadcast use lemma_tree_of_auto, vstd::seq_lib::group_to_multiset_ensures;

pub open spec fn exec_item_key() -> spec_fn(Items) -> int {
    |it: Items| it.key as int
}

pub open spec fn exec_first_key() -> spec_fn(Node) -> int {
    |n: Node| n@.input[0].key as int
}

/// Stable insertion sort of a node's keys by key.
pub fn sort_items_by_key(v: &mut Vec<Items>)
    ensures
        items_view(final(v)@) == stable_sort(items_view(old(v)@), item_key()),
{
    let ghost o = v@;
    let ghost k = exec_item_key();
    let mut i: usize = 0;
    while i < v.len()
        invariant
            i <= v.len(),
            v@.len() == o.len(),
            v@.take(i as int) == stable_sort(o.take(i as int), k),
            v@.skip(i as int) == o.skip(i as int),
            k == exec_item_key(),
        decreases v.len() - i,
    {
        let ghost prefix = v@.take(i as int);
        assert(v@[i as int] == o[i as int]) by {
            assert(v@.skip(i as int)[0] == o.skip(i as int)[0]);
        }
        let x = v.remove(i);
        assert(v@.take(i as int) == prefix);
        let mut j: usize = i;
        while j > 0 && v[j - 1].key > x.key
            invariant
                j <= i,
                i < o.len(),
                v@.len() == o.len() - 1,
                v@.take(i as int) == prefix,
                prefix.len() == i,
                forall|m: int| j <= m < i ==> k(prefix[m]) > k(x),
                k == exec_item_key(),
            decreases j,
        {
            j -= 1;
        }
        proof {
            lemma_insert_sorted_at(prefix, x, k, j as int);
            lemma_sort_step(o, k, i as int);
        }
        let ghost before = v@;
        v.insert(j, x);
        proof {
            assert(v@.take(i + 1) =~= prefix.take(j as int).push(x) + prefix.skip(j as int));
            assert(v@.skip(i + 1) =~= before.skip(i as int));
            assert(before.skip(i as int) =~= o.skip(i + 1)) by {
                assert(o.skip(i as int).drop_first() =~= o.skip(i + 1));
            }
        }
        i += 1;
    }
    proof {
        assert(v@ =~= v@.take(o.len() as int));
        assert(o =~= o.take(o.len() as int));
        lemma_stable_sort_map(o, item_view_fn(), k, item_key());
    }
}

/// Whether the children can be compared by their first keys: each has a key
/// when there are at least two of them (a single child is never compared).
pub open spec fn children_comparable(cs: Seq<Tree>) -> bool {
    cs.len() >= 2 ==> forall|i: int| 0 <= i < cs.len() ==> #[trigger] cs[i].input.len() > 0
}

/// Stable insertion sort of a node's children by their first keys.
pub fn sort_nodes_by_first_key(v: &mut Vec<Node>)
    requires
        children_comparable(nodes_view(old(v)@)),
    ensures
        nodes_view(final(v)@) == stable_sort(nodes_view(old(v)@), first_key()),
        final(v)@.to_multiset() == old(v)@.to_multiset(),
{
    let ghost o = v@;
    let ghost k = exec_first_key();
    assert forall|m: int| 0 <= m < o.len() && o.len() >= 2 implies #[trigger] o[m].input@.len()
        > 0 by {
        assert(nodes_view(o)[m] == o[m]@);
    }
    let mut i: usize = 0;
    while i < v.len()
        invariant
            i <= v.len(),
            v@.len() == o.len(),
            v@.take(i as int) == stable_sort(o.take(i as int), k),
            v@.skip(i as int) == o.skip(i as int),
            k == exec_first_key(),
            forall|m: int| 0 <= m < o.len() && o.len() >= 2 ==> #[trigger] o[m].input@.len() > 0,
        decreases v.len() - i,
    {
        let ghost prefix = v@.take(i as int);
        assert(v@[i as int] == o[i as int]) by {
            assert(v@.skip(i as int)[0] == o.skip(i as int)[0]);
        }
        let x = v.remove(i);
        assert(v@.take(i as int) == prefix);
        proof {
            lemma_stable_sort_perm(o.take(i as int), k);
        }
        if i > 0 {
            assert(o[i as int].input@.len() > 0);
        }
        assert forall|m: int| 0 <= m < i implies #[trigger] prefix[m].input@.len() > 0 by {
            assert(prefix[m] == prefix[m]);
            assert(prefix.contains(prefix[m]));
            assert(prefix.to_multiset().count(prefix[m]) > 0);
            assert(o.take(i as int).to_multiset().count(prefix[m]) > 0);
            assert(o.take(i as int).contains(prefix[m]));
            let w = choose|w: int| 0 <= w < o.take(i as int).len() && o.take(i as int)[w] == prefix[m];
            assert(o[w] == prefix[m]);
        }
        assert forall|m: int| 0 <= m < i implies #[trigger] v@[m] == prefix[m] by {}
        let mut j: usize = i;
        while j > 0 && v[j - 1].input[0].key > x.input[0].key
            invariant
                j <= i,
                i < o.len(),
                v@.len() == o.len() - 1,
                v@.take(i as int) == prefix,
                prefix.len() == i,
                x == o[i as int],
                forall|m: int| j <= m < i ==> k(prefix[m]) > k(x),
                k == exec_first_key(),
                forall|m: int| 0 <= m < i ==> #[trigger] prefix[m].input@.len() > 0,
                forall|m: int| 0 <= m < i ==> #[trigger] v@[m] == prefix[m],
                i > 0 ==> x.input@.len() > 0,
            decreases j,
        {
            assert(v@[j - 1] == prefix[j - 1]);
            proof {
                lemma_tree_of(prefix[j - 1]);
                lemma_tree_of(x);
            }
            j -= 1;
        }
        proof {
            lemma_insert_sorted_at(prefix, x, k, j as int);
            lemma_sort_step(o, k, i as int);
        }
        let ghost before = v@;
        v.insert(j, x);
        proof {
            assert(v@.take(i + 1) =~= prefix.take(j as int).push(x) + prefix.skip(j as int));
            assert(v@.skip(i + 1) =~= before.skip(i as int));
            assert(before.skip(i as int) =~= o.skip(i + 1)) by {
                assert(o.skip(i as int).drop_first() =~= o.skip(i + 1));
            }
        }
        i += 1;
    }
    proof {
        assert(v@ =~= v@.take(o.len() as int));
        assert(o =~= o.take(o.len() as int));
        assert forall|y: Node| #[trigger] first_key()(node_view_fn()(y)) == k(y) by {}
        lemma_stable_sort_map(o, node_view_fn(), k, first_key());
        lemma_stable_sort_perm(o, k);
    }
}

} // verus!

verus! {

/// The node with its keys in stable order of key.
pub open spec fn spec_sort_main_nodes(t: Tree) -> Tree {
    Tree { input: stable_sort(t.input, item_key()), ..t }
}

/// The node with its children in stable order of their first keys.
pub open spec fn spec_sort_children_nodes(t: Tree) -> Tree {
    Tree { children: stable_sort(t.children, first_key()), ..t }
}

/// Each child paired with the result of sorting it throughout.
pub open spec fn sorted_pairs(t: Tree) -> Seq<(Tree, Tree)>
    decreases t, 0nat,
{
    Seq::new(
        t.children.len(),
        |i: int|
            if 0 <= i < t.children.len() {
                (t.children[i], spec_sort_everything(t.children[i]))
            } else {
                (empty_tree(), empty_tree())
            },
    )
}

pub open spec fn pair_first_key() -> spec_fn((Tree, Tree)) -> int {
    |p: (Tree, Tree)| p.0.input[0].key as int
}

pub open spec fn pair_fst() -> spec_fn((Tree, Tree)) -> Tree {
    |p: (Tree, Tree)| p.0
}

pub open spec fn pair_snd() -> spec_fn((Tree, Tree)) -> Tree {
    |p: (Tree, Tree)| p.1
}

/// The tree with the keys of every node and the children of every node in
/// stable order: the children of a node are ordered by their first keys as
/// they were before their own keys were sorted.
pub open spec fn spec_sort_everything(t: Tree) -> Tree
    decreases t, 1nat,
{
    Tree {
        input: stable_sort(t.input, item_key()),
        rank: t.rank,
        children: stable_sort(sorted_pairs(t), pair_first_key()).map_values(pair_snd()),
    }
}

/// Every node of the tree can have its children sorted.
pub open spec fn all_children_comparable(t: Tree) -> bool
    decreases t,
{
    &&& children_comparable(t.children)
    &&& forall|i: int|
        0 <= i < t.children.len() ==> all_children_comparable(#[trigger] t.children[i])
}

/// The children of the fully sorted tree are the fully sorted children, taken
/// in stable order of their first keys.
pub proof fn lemma_sort_everything_children(t: Tree)
    ensures
        spec_sort_everything(t).children.len() == t.children.len(),
        forall|j: int|
            0 <= j < t.children.len() ==> #[trigger] spec_sort_everything(t).children[j]
                == spec_sort_everything(stable_sort(t.children, first_key())[j]),
{
    let ps = sorted_pairs(t);
    let p = stable_sort(ps, pair_first_key());
    lemma_stable_sort_perm(ps, pair_first_key());
    assert(ps.map_values(pair_fst()) =~= t.children);
    assert forall|y: (Tree, Tree)| #[trigger] first_key()(pair_fst()(y)) == pair_first_key()(y) by {}
    lemma_stable_sort_map(ps, pair_fst(), pair_first_key(), first_key());
    assert forall|j: int| 0 <= j < t.children.len() implies #[trigger] spec_sort_everything(
        t,
    ).children[j] == spec_sort_everything(stable_sort(t.children, first_key())[j]) by {
        assert(p.contains(p[j]));
        assert(p.to_multiset().count(p[j]) > 0);
        assert(ps.to_multiset().count(p[j]) > 0);
        assert(ps.contains(p[j]));
        let w = choose|w: int| 0 <= w < ps.len() && ps[w] == p[j];
        assert(p.map_values(pair_fst())[j] == p[j].0);
    }
}

pub proof fn lemma_comparable_child(t: Tree, i: int)
    requires
        all_children_comparable(t),
        0 <= i < t.children.len(),
    ensures
        all_children_comparable(t.children[i]),
{
    assert(all_children_comparable(t.children[i]));
}

impl Node {
    /// Sorts the keys of this node by key (stable).
    pub fn sort_main_nodes(self_node: &mut Node)
        ensures
            final(self_node)@ == spec_sort_main_nodes(old(self_node)@),
            final(self_node).children == old(self_node).children,
    {
        proof {
            lemma_views_of_node(*self_node);
        }
        sort_items_by_key(&mut self_node.input);
        proof {
            lemma_views_of_node(*self_node);
        }
        assert(self_node@ =~= spec_sort_main_nodes(old(self_node)@));
    }

    /// Sorts the children of this node by their first keys (stable).
    pub fn sort_children_nodes(self_node: &mut Node)
        requires
            children_comparable(old(self_node)@.children),
        ensures
            final(self_node)@ == spec_sort_children_nodes(old(self_node)@),
            final(self_node).children@.to_multiset() == old(self_node).children@.to_multiset(),
            final(self_node).input == old(self_node).input,
    {
        proof {
            lemma_views_of_node(*self_node);
        }
        sort_nodes_by_first_key(&mut self_node.children);
        proof {
            lemma_views_of_node(*self_node);
        }
        assert(self_node@ =~= spec_sort_children_nodes(old(self_node)@));
    }

    /// Sorts the keys and the children of every node of the tree: a node's
    /// keys and children are sorted before its children are sorted in turn.
    pub fn sort_everything(self_node: &mut Node)
        requires
            all_children_comparable(old(self_node)@),
        ensures
            final(self_node)@ == spec_sort_everything(old(self_node)@),
        decreases *old(self_node),
    {
        let ghost t = self_node@;
        let ghost orig = self_node.children@;
        proof {
            lemma_views_of_node(*self_node);
        }
        Node::sort_main_nodes(self_node);
        proof {
            lemma_views_of_node(*self_node);
        }
        let ghost pre_children = self_node.children@;
        Node::sort_children_nodes(self_node);
        proof {
            lemma_views_of_node(*self_node);
            lemma_sort_everything_children(t);
            assert(self_node.children@.to_multiset() == orig.to_multiset()) by {
                assert(pre_children == orig);
            }
        }
        let ghost mid = self_node.children@;
        let ghost mid_view = stable_sort(t.children, first_key());
        assert(nodes_view(mid) == mid_view);
        assert(mid.to_multiset().len() == orig.to_multiset().len());
        let mut i: usize = 0;
        while i < self_node.children.len()
            invariant
                i <= self_node.children@.len(),
                self_node.children@.len() == mid.len(),
                mid.len() == orig.len(),
                mid.to_multiset() == orig.to_multiset(),
                orig == old(self_node).children@,
                all_children_comparable(old(self_node)@),
                nodes_view(mid) == mid_view,
                self_node@.input == stable_sort(t.input, item_key()),
                self_node.rank == t.rank,
                t == old(self_node)@,
                forall|j: int| i <= j < mid.len() ==> self_node.children@[j] == mid[j],
                forall|j: int|
                    0 <= j < i ==> #[trigger] self_node.children@[j]@ == spec_sort_everything(
                        mid_view[j],
                    ),
            decreases self_node.children@.len() - i,
        {
            proof {
                assert(mid.contains(mid[i as int]));
                assert(mid.to_multiset().count(mid[i as int]) > 0);
                assert(orig.to_multiset().count(mid[i as int]) > 0);
                assert(orig.contains(mid[i as int]));
                let w = choose|w: int| 0 <= w < orig.len() && orig[w] == mid[i as int];
                assert(decreases_to!(*old(self_node) => old(self_node).children@[w]));
                lemma_views_of_node(*old(self_node));
                assert(old(self_node)@.children[w] == orig[w]@);
                lemma_comparable_child(old(self_node)@, w);
                assert(nodes_view(mid)[i as int] == mid[i as int]@);
            }
            Node::sort_everything(&mut self_node.children[i]);
            i += 1;
        }
        proof {
            lemma_views_of_node(*self_node);
            lemma_tree_of(*self_node);
        }
        assert(self_node@.children =~= spec_sort_everything(t).children);
        assert(self_node@ =~= spec_sort_everything(t));
    }
}

} // verus!

verus! {

/// Sorting a node's keys keeps every entry.
pub proof fn law_sort_main_preserves_content(t: Tree)
    ensures
        content(spec_sort_main_nodes(t)) == content(t),
{
    lemma_stable_sort_perm(t.input, item_key());
    lemma_items_perm(stable_sort(t.input, item_key()), t.input);
}

/// Sorting a node's children keeps every entry.
pub proof fn law_sort_children_preserves_content(t: Tree)
    ensures
        content(spec_sort_children_nodes(t)) == content(t),
{
    lemma_stable_sort_perm(t.children, first_key());
    lemma_forest_perm(stable_sort(t.children, first_key()), t.children);
}

/// The keys of every node of the tree are in order.
pub open spec fn all_keys_sorted(t: Tree) -> bool
    decreases t,
{
    &&& sorted_by(t.input, item_key())
    &&& forall|i: int| 0 <= i < t.children.len() ==> all_keys_sorted(#[trigger] t.children[i])
}

/// Sorting the whole tree keeps every entry, and leaves the keys of every
/// node in order.
pub proof fn law_sort_everything(t: Tree)
    ensures
        content(spec_sort_everything(t)) == content(t),
        all_keys_sorted(spec_sort_everything(t)),
    decreases t,
{
    let ps = sorted_pairs(t);
    let p = stable_sort(ps, pair_first_key());
    let r = spec_sort_everything(t);
    lemma_stable_sort_perm(ps, pair_first_key());
    lemma_stable_sort_sorted(t.input, item_key());
    assert(ps.map_values(pair_fst()) =~= t.children);
    let q = p.map_values(pair_fst());
    assert(q.to_multiset() == t.children.to_multiset()) by {
        assert forall|y: (Tree, Tree)| #[trigger] first_key()(pair_fst()(y)) == pair_first_key()(y) by {}
        lemma_stable_sort_map(ps, pair_fst(), pair_first_key(), first_key());
        lemma_stable_sort_perm(t.children, first_key());
    }
    assert forall|j: int| 0 <= j < r.children.len() implies #[trigger] content(r.children[j]) == content(q[j])
        && all_keys_sorted(r.children[j]) by {
        assert(p.contains(p[j]));
        assert(p.to_multiset().count(p[j]) > 0);
        assert(ps.to_multiset().count(p[j]) > 0);
        assert(ps.contains(p[j]));
        let w = choose|w: int| 0 <= w < ps.len() && ps[w] == p[j];
        law_sort_everything(t.children[w]);
    }
    lemma_forest_pointwise(r.children, q);
    lemma_forest_perm(q, t.children);
    law_sort_main_preserves_content(t);
    assert forall|j: int| 0 <= j < r.children.len() implies all_keys_sorted(#[trigger] r.children[j]) by {
        assert(content(r.children[j]) == content(q[j]));
    }
    assert(all_keys_sorted(r));
    assert(content(r) =~= content(t));
}

} // verus!
