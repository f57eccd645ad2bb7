//! Building tree nodes from saved nodes.
use vstd::prelude::*;
use crate::btree::node::{items_same, Node};
use crate::btree::tree::{items_view, lemma_tree_of, lemma_views_of_node, nodes_view, Tree};
use crate::storage::deser::tree_nodes::{hier_views, lemma_hier_of, HierView, HierarchicalNode};

verus! {

/// The tree node built from a saved node: its keys, the rank of its first
/// key, and the nodes built from the saved nodes under it.
pub open spec fn spec_get_node(h: HierView) -> Tree
    decreases h,
{
    Tree {
        input: h.parent.items,
        rank: h.parent.items[0].rank,
        children: Seq::new(
            h.children.len(),
            |i: int|
                if 0 <= i < h.children.len() {
                    spec_get_node(h.children[i])
                } else {
                    Tree { input: Seq::empty(), rank: 0, children: Seq::empty() }
                },
        ),
    }
}

/// Every saved node has a key (its rank is read from the first one).
pub open spec fn get_node_ok(h: HierView) -> bool
    decreases h,
{
    &&& h.parent.items.len() > 0
    &&& forall|i: int| 0 <= i < h.children.len() ==> get_node_ok(#[trigger] h.children[i])
}

/// Tells whether every saved node, down the whole hierarchy, has a key.
pub fn all_saved_nodes_have_keys(h: &HierarchicalNode) -> (r: bool)
    ensures
        r == get_node_ok(h@),
    decreases h,
{
    proof {
        lemma_hier_of(*h);
    }
    if h.parent.items.len() == 0 {
        return false;
    }
    let mut i: usize = 0;
    while i < h.children.len()
        invariant
            i <= h.children@.len(),
            h@.children == hier_views(h.children@),
            h@.parent.items.len() > 0,
            forall|j: int| 0 <= j < i ==> get_node_ok(#[trigger] h@.children[j]),
        decreases h.children@.len() - i,
    {
        proof {
            assert(decreases_to!(h => h.children));
            assert(decreases_to!(h.children => h.children@));
            assert(decreases_to!(h.children@ => h.children@[i as int]));
        }
        if !all_saved_nodes_have_keys(&h.children[i]) {
            assert(!get_node_ok(h@.children[i as int]));
            return false;
        }
        i += 1;
    }
    true
}

/// Builds the tree node for a saved node and the nodes under it.
pub fn get_node(deserialized_data: HierarchicalNode) -> (r: Node)
    requires
        get_node_ok(deserialized_data@),
    ensures
        r@ == spec_get_node(deserialized_data@),
    decreases deserialized_data,
{
    let ghost h = deserialized_data@;
    let ghost whole = deserialized_data;
    proof {
        lemma_hier_of(deserialized_data);
    }
    let HierarchicalNode { parent, children } = deserialized_data;
    let rank = parent.items[0].rank;
    let mut new_node = Node { input: parent.items, rank, children: Vec::new() };
    let mut rest = children;
    let ghost orig = rest@;
    let ghost n = rest@.len();
    assert(n == rest.len());
    assert(orig.skip(0) =~= orig);
    while rest.len() > 0
        invariant
            rest@ == orig.skip((n - rest@.len()) as int),
            rest@.len() <= n,
            n == orig.len(),
            orig == whole.children@,
            whole == deserialized_data,
            hier_views(orig) == h.children,
            get_node_ok(h),
            new_node.children@.len() == n - rest@.len(),
            forall|j: int| 0 <= j < new_node.children@.len() ==> #[trigger] new_node.children@[j]@
                == spec_get_node(h.children[j]),
            items_view(new_node.input@) == h.parent.items,
            new_node.rank == rank,
        decreases rest@.len(),
    {
        let ghost k = (n - rest@.len()) as int;
        let c = rest.remove(0);
        assert(c == orig[k]) by {
            assert(orig.skip(k)[0] == orig[k]);
        }
        assert(rest@ =~= orig.skip(k + 1));
        proof {
            assert(0 <= k < orig.len());
            assert(decreases_to!(whole => whole.children));
            assert(decreases_to!(whole.children => whole.children@));
            assert(decreases_to!(whole.children@ => whole.children@[k]));
            assert(decreases_to!(whole => c));
            assert(hier_views(orig)[k] == c@);
            assert(get_node_ok(h.children[k]));
        }
        let built = get_node(c);
        new_node.children.push(built);
    }
    proof {
        lemma_views_of_node(new_node);
    }
    assert(new_node@.children =~= spec_get_node(h).children);
    assert(new_node@ =~= spec_get_node(h));
    new_node
}

/// Some later child of `cs` starts with the same key as child `i`.
pub open spec fn has_later_twin(cs: Seq<Tree>, i: int) -> bool {
    exists|j: int| i < j < cs.len() && #[trigger] items_same(cs[i].input[0], cs[j].input[0])
}

/// The positions, from `from` on, of the children that no later child
/// repeats (by first key): the last child of each first key stays.
pub open spec fn kept_from(cs: Seq<Tree>, from: int) -> Seq<int>
    decreases cs.len() - from,
{
    if from < 0 || from >= cs.len() {
        Seq::empty()
    } else if has_later_twin(cs, from) {
        kept_from(cs, from + 1)
    } else {
        seq![from] + kept_from(cs, from + 1)
    }
}

/// The positions of the children that survive the removal of duplicates.
pub open spec fn kept(cs: Seq<Tree>) -> Seq<int> {
    kept_from(cs, 0)
}

pub proof fn lemma_kept_from_bounds(cs: Seq<Tree>, from: int)
    requires
        0 <= from,
    ensures
        forall|k: int|
            0 <= k < kept_from(cs, from).len() ==> from <= #[trigger] kept_from(cs, from)[k] < cs.len(),
        forall|a: int, b: int|
            0 <= a < b < kept_from(cs, from).len() ==> kept_from(cs, from)[a] < kept_from(cs, from)[b],
        kept_from(cs, from).len() <= if from <= cs.len() { cs.len() - from } else { 0 },
    decreases cs.len() - from,
{
    if from < cs.len() {
        lemma_kept_from_bounds(cs, from + 1);
    }
}

pub proof fn lemma_kept_from_no_twin(cs: Seq<Tree>, from: int)
    requires
        0 <= from,
    ensures
        forall|k: int|
            0 <= k < kept_from(cs, from).len() ==> !has_later_twin(cs, #[trigger] kept_from(cs, from)[k]),
    decreases cs.len() - from,
{
    if from < cs.len() {
        lemma_kept_from_no_twin(cs, from + 1);
        if !has_later_twin(cs, from) {
            let s = kept_from(cs, from);
            assert forall|k: int| 0 <= k < s.len() implies !has_later_twin(cs, #[trigger] s[k]) by {
                if k > 0 {
                    assert(s[k] == kept_from(cs, from + 1)[k - 1]);
                }
            }
        }
    }
}

/// After duplicates are dropped, no two children of the node start with the
/// same key.
pub proof fn law_dedup_first_keys_distinct(t: Tree)
    requires
        dedup_ok(t),
    ensures
        forall|a: int, b: int|
            0 <= a < b < spec_dedup(t).children.len() ==> !items_same(
                #[trigger] spec_dedup(t).children[a].input[0],
                #[trigger] spec_dedup(t).children[b].input[0],
            ),
{
    let ks = kept(t.children);
    lemma_kept_from_bounds(t.children, 0);
    lemma_kept_from_no_twin(t.children, 0);
    assert forall|a: int, b: int| 0 <= a < b < spec_dedup(t).children.len() implies !items_same(
        #[trigger] spec_dedup(t).children[a].input[0],
        #[trigger] spec_dedup(t).children[b].input[0],
    ) by {
        assert(spec_dedup(t).children.len() == ks.len());
        assert(0 <= ks[a] < t.children.len());
        assert(0 <= ks[b] < t.children.len());
        assert(spec_dedup(t.children[ks[a]]).input == t.children[ks[a]].input);
        assert(spec_dedup(t.children[ks[b]]).input == t.children[ks[b]].input);
        assert(spec_dedup(t).children[a].input == t.children[ks[a]].input);
        assert(spec_dedup(t).children[b].input == t.children[ks[b]].input);
        assert(ks[a] < ks[b]);
        assert(!has_later_twin(t.children, ks[a]));
    }
}

/// The tree after duplicate children are dropped at this node and, within
/// the first half (by the count before dropping) of the surviving children,
/// inside every child that has children of its own.
pub open spec fn spec_dedup(t: Tree) -> Tree
    decreases t,
{
    let ks = kept(t.children);
    let half = t.children.len() / 2;
    Tree {
        input: t.input,
        rank: t.rank,
        children: Seq::new(
            ks.len(),
            |k: int|
                if 0 <= ks[k] < t.children.len() {
                    if k < half && t.children[ks[k]].children.len() > 0 {
                        spec_dedup(t.children[ks[k]])
                    } else {
                        t.children[ks[k]]
                    }
                } else {
                    t
                },
        ),
    }
}

/// The inputs on which the removal of duplicates reads only what exists:
/// every child has a first key, half the children there were survive, and the
/// same holds inside every surviving child of the first half that has
/// children.
pub open spec fn dedup_ok(t: Tree) -> bool
    decreases t,
{
    &&& forall|j: int| 0 <= j < t.children.len() ==> (#[trigger] t.children[j]).input.len() > 0
    &&& t.children.len() / 2 <= kept(t.children).len()
    &&& forall|k: int|
        0 <= k < t.children.len() / 2 && 0 <= #[trigger] kept(t.children)[k] < t.children.len()
            && t.children[kept(t.children)[k]].children.len() > 0 ==> dedup_ok(
            t.children[kept(t.children)[k]],
        )
}

/// Drops every child whose first key a later child repeats, then does the
/// same inside each surviving child of the first half (half of the children
/// there were before) that has children of its own. `None` where a child has
/// no key, or fewer than half the children survive, here or below.
pub fn try_deduplicate_children(self_node: Node) -> (r: Option<Node>)
    ensures
        r is Some <==> dedup_ok(self_node@),
        r is Some ==> r->0@ == spec_dedup(self_node@),
    decreases self_node,
{
    let ghost t = self_node@;
    let ghost whole = self_node;
    proof {
        lemma_tree_of(self_node);
        lemma_kept_from_bounds(t.children, 0);
    }
    let Node { input, rank, children } = self_node;
    let ghost orig = children@;
    let dup_child_len = children.len() / 2;
    let mut cur = children;
    let mut i: usize = 0;
    let ghost mut p: int = 0;
    let ghost mut pre: Seq<int> = Seq::empty();
    assert(kept(t.children) =~= pre + kept_from(t.children, 0));
    while i < cur.len()
        invariant
            0 <= p <= orig.len(),
            i <= p,
            pre.len() == i,
            cur@.len() == i + (orig.len() - p),
            forall|k: int| 0 <= k < i ==> 0 <= #[trigger] pre[k] < orig.len() && cur@[k] == orig[pre[k]],
            forall|k: int| 0 <= k < orig.len() - p ==> #[trigger] cur@[i + k] == orig[p + k],
            kept(t.children) == pre + kept_from(t.children, p),
            orig == whole.children@,
            t == whole@,
            whole == self_node,
            t.children.len() == orig.len(),
            forall|x: int| 0 <= x < orig.len() ==> #[trigger] t.children[x] == orig[x]@,
            forall|x: int| 0 <= x < p ==> (#[trigger] t.children[x]).input.len() > 0,
        decreases orig.len() - p,
    {
        proof {
            lemma_tree_of(cur@[i as int]);
            assert(cur@[i + 0] == orig[p + 0]);
        }
        if cur[i].input.len() == 0 {
            assert(!dedup_ok(t)) by {
                assert(t.children[p].input.len() == 0);
            }
            return None;
        }
        let mut found = false;
        let mut j: usize = i + 1;
        while j < cur.len() && !found
            invariant
                i < j <= cur@.len(),
                cur@[i as int]@ == t.children[p],
                t.children[p].input.len() > 0,
                cur@.len() == i + (orig.len() - p),
                forall|k: int| 0 <= k < orig.len() - p ==> #[trigger] cur@[i + k] == orig[p + k],
                forall|x: int| 0 <= x < orig.len() ==> #[trigger] t.children[x] == orig[x]@,
                t.children.len() == orig.len(),
                t == self_node@,
                0 <= p < orig.len(),
                found ==> has_later_twin(t.children, p),
                !found ==> forall|y: int|
                    p < y < p + (j - i) ==> !#[trigger] items_same(t.children[p].input[0], t.children[y].input[0]),
            decreases cur@.len() - j, (if found { 0int } else { 1int }),
        {
            let ghost y = p + (j - i);
            proof {
                assert(cur@[i + (j - i)] == orig[p + (j - i)]);
                lemma_tree_of(cur@[j as int]);
            }
            if cur[j].input.len() == 0 {
                assert(!dedup_ok(t)) by {
                    assert(t.children[y].input.len() == 0);
                }
                return None;
            }
            if cur[i].input[0].equals(&cur[j].input[0]) {
                assert(items_same(t.children[p].input[0], t.children[y].input[0]));
                found = true;
            } else {
                j += 1;
            }
        }
        proof {
            if !found {
                assert(!has_later_twin(t.children, p));
            }
        }
        if found {
            let ghost before = cur@;
            cur.remove(i);
            proof {
                assert(kept_from(t.children, p) == kept_from(t.children, p + 1));
                assert forall|k: int| 0 <= k < orig.len() - (p + 1) implies #[trigger] cur@[i + k] == orig[(p + 1) + k] by {
                    assert(cur@[i + k] == before[i + k + 1]);
                    assert(before[i + (k + 1)] == orig[p + (k + 1)]);
                }
                p = p + 1;
            }
        } else {
            proof {
                assert(kept_from(t.children, p) == seq![p] + kept_from(t.children, p + 1));
                assert(pre.push(p) + kept_from(t.children, p + 1) =~= pre + (seq![p] + kept_from(t.children, p + 1)));
                assert(cur@[i + 0] == orig[p + 0]);
                pre = pre.push(p);
                assert forall|k: int| 0 <= k < orig.len() - (p + 1) implies #[trigger] cur@[(i + 1) + k] == orig[(p + 1) + k] by {
                    assert(cur@[i + (k + 1)] == orig[p + (k + 1)]);
                }
                p = p + 1;
            }
            i += 1;
        }
    }
    proof {
        assert(kept_from(t.children, p) =~= Seq::<int>::empty());
        assert(pre =~= kept(t.children));
    }
    if cur.len() < dup_child_len {
        return None;
    }
    let ghost ks = pre;
    let mut out: Vec<Node> = Vec::new();
    let mut k: usize = 0;
    let ghost spec_kids = spec_dedup(t).children;
    while cur.len() > 0
        invariant
            k <= ks.len(),
            ks.len() <= orig.len(),
            orig.len() <= usize::MAX,
            cur@.len() == ks.len() - k,
            forall|m: int| 0 <= m < cur@.len() ==> #[trigger] cur@[m] == orig[ks[k + m]],
            forall|m: int| 0 <= m < ks.len() ==> 0 <= #[trigger] ks[m] < orig.len(),
            ks == kept(t.children),
            orig == whole.children@,
            whole == self_node,
            t == whole@,
            forall|x: int| 0 <= x < t.children.len() ==> (#[trigger] t.children[x]).input.len() > 0,
            t.children.len() / 2 <= kept(t.children).len(),
            forall|m: int|
                0 <= m < k && m < t.children.len() / 2 && t.children[ks[m]].children.len() > 0
                    ==> dedup_ok(#[trigger] t.children[ks[m]]),
            dup_child_len == t.children.len() / 2,
            t.children.len() == orig.len(),
            forall|x: int| 0 <= x < orig.len() ==> #[trigger] t.children[x] == orig[x]@,
            spec_kids == spec_dedup(t).children,
            spec_kids.len() == ks.len(),
            out@.len() == k,
            forall|m: int| 0 <= m < k ==> #[trigger] out@[m]@ == spec_kids[m],
        decreases cur@.len(),
    {
        let ghost x = ks[k as int];
        proof {
            assert(cur@[0] == orig[ks[k + 0]]);
        }
        let c = cur.remove(0);
        assert forall|m: int| 0 <= m < cur@.len() implies #[trigger] cur@[m] == orig[ks[(k + 1) + m]] by {
            assert(cur@[m] == orig[ks[k + (m + 1)]]);
        }
        proof {
            lemma_tree_of(c);
        }
        if k < dup_child_len && c.children.len() > 0 {
            proof {
                assert(decreases_to!(whole => whole.children));
                assert(decreases_to!(whole.children => whole.children@));
                assert(decreases_to!(whole.children@ => whole.children@[x]));
            }
            match try_deduplicate_children(c) {
                Some(d) => {
                    out.push(d);
                },
                None => {
                    assert(!dedup_ok(t)) by {
                        assert(0 <= kept(t.children)[k as int] < t.children.len());
                    }
                    return None;
                },
            }
        } else {
            out.push(c);
        }
        k += 1;
    }
    proof {
        assert forall|m: int|
            0 <= m < t.children.len() / 2 && 0 <= #[trigger] kept(t.children)[m] < t.children.len()
                && t.children[kept(t.children)[m]].children.len() > 0 implies dedup_ok(
            t.children[kept(t.children)[m]],
        ) by {
            assert(m < k);
        }
        assert(dedup_ok(t));
    }
    let r = Node { input, rank, children: out };
    proof {
        lemma_tree_of(r);
        assert(r@.children =~= spec_kids);
    }
    Some(r)
}

/// Drops every child whose first key a later child repeats, then does the
/// same inside each surviving child of the first half (half of the children
/// there were before) that has children of its own.
pub fn deduplicate_children_recursive(self_node: Node) -> (r: Node)
    requires
        dedup_ok(self_node@),
    ensures
        r@ == spec_dedup(self_node@),
{
    match try_deduplicate_children(self_node) {
        Some(n) => n,
        None => Node::new(),
    }
}

} // verus!
