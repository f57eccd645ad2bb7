//! Tests a caller runs before a search or a write: that the search path for
//! a key can be followed, is in order, and ends, where the key is found,
//! at a key with a version.
use vstd::prelude::*;
use crate::btree::node::Node;
use crate::btree::ops::find_update_ok;
use crate::btree::path::{find_index, first_gap, key_in_gap, lemma_find_index, lemma_first_gap, path_sorted, route, search_ok};
use crate::btree::tree::{lemma_tree_of, nodes_view, ItemsView};
use crate::btree::node::Items;
use crate::btree::scan::overflow_ok;
use crate::btree::repair::{propagate_ok, ranks_fit};
use crate::btree::sort::{all_children_comparable, children_comparable};
use crate::btree::ops::add_ok;

verus! {

/// The position of `key` among the keys of a node, if it is there.
fn index_of(node: &Node, key: u32) -> (r: Option<usize>)
    ensures
        match r {
            Some(i) => find_index(node@.input, key, 0) == Some(i as int),
            None => find_index(node@.input, key, 0) is None,
        },
{
    proof {
        lemma_tree_of(*node);
        lemma_find_index(node@.input, key, 0);
    }
    let mut i: usize = 0;
    while i < node.input.len()
        invariant
            i <= node.input@.len(),
            node@.input.len() == node.input@.len(),
            forall|k: int| 0 <= k < node.input@.len() ==> #[trigger] node@.input[k] == node.input@[k]@,
            forall|m: int| 0 <= m < i ==> node@.input[m].key != key,
        decreases node.input@.len() - i,
    {
        if node.input[i].key == key {
            proof {
                assert(node@.input[i as int] == node.input@[i as int]@);
                lemma_find_index(node@.input, key, 0);
            }
            return Some(i);
        }
        i += 1;
    }
    proof {
        lemma_find_index(node@.input, key, 0);
    }
    None
}

/// The child a search for `key` goes down to (see `route`), for a node with
/// keys.
fn route_of(node: &Node, key: u32) -> (r: Option<usize>)
    requires
        node@.children.len() > 0 ==> node@.input.len() > 0,
    ensures
        match r {
            Some(c) => route(node@, key) == Some(c as int),
            None => route(node@, key) is None,
        },
{
    proof {
        lemma_tree_of(*node);
        lemma_first_gap(node@.input, key, 0);
    }
    if node.children.len() == 0 {
        return None;
    }
    let last = node.input.len() - 1;
    if key < node.input[0].key {
        return Some(0);
    }
    if key > node.input[last].key {
        return Some(node.children.len() - 1);
    }
    assert(node@.input[0] == node.input@[0]@);
    assert(node@.input[last as int] == node.input@[last as int]@);
    let mut g: usize = 0;
    while g < last
        invariant
            g <= last,
            last == node.input@.len() - 1,
            node@.children.len() > 0,
            node@.children.len() == node.children@.len(),
            !(key < node@.input[0].key),
            !(key > node@.input[last as int].key),
            node@.input.len() == node.input@.len(),
            forall|k: int| 0 <= k < node.input@.len() ==> #[trigger] node@.input[k] == node.input@[k]@,
            forall|m: int| 0 <= m < g ==> !key_in_gap(node@.input, key, m),
        decreases last - g,
    {
        proof {
            assert(node@.input[g as int] == node.input@[g as int]@);
            assert(node@.input[g + 1] == node.input@[g + 1]@);
        }
        if key > node.input[g].key && key < node.input[g + 1].key {
            proof {
                assert(key_in_gap(node@.input, key, g as int));
                lemma_first_gap(node@.input, key, 0);
            }
            return Some(g + 1);
        }
        g += 1;
    }
    proof {
        lemma_first_gap(node@.input, key, 0);
    }
    None
}

/// Tells whether the keys of a node are in ascending order.
fn keys_ascending(node: &Node) -> (r: bool)
    ensures
        r == forall|i: int, j: int|
            0 <= i <= j < node@.input.len() ==> node@.input[i].key <= node@.input[j].key,
{
    proof {
        lemma_tree_of(*node);
    }
    let n = node.input.len();
    if n == 0 {
        return true;
    }
    let mut k: usize = 1;
    while k < n
        invariant
            1 <= k <= n,
            n == node@.input.len(),
            node@.input.len() == node.input@.len(),
            forall|m: int| 0 <= m < node.input@.len() ==> #[trigger] node@.input[m] == node.input@[m]@,
            forall|i: int, j: int| 0 <= i <= j < k ==> node@.input[i].key <= node@.input[j].key,
        decreases n - k,
    {
        if node.input[k - 1].key > node.input[k].key {
            assert(node@.input[k - 1].key > node@.input[k as int].key);
            return false;
        }
        assert forall|i: int, j: int| 0 <= i <= j < k + 1 implies node@.input[i].key <= node@.input[j].key by {
            if j == k && i < k {
                assert(node@.input[i].key <= node@.input[k - 1].key);
            }
        }
        k += 1;
    }
    true
}

impl Node {
    /// Tells whether a search for `key` can be made from this node: the
    /// search path can be followed and the keys of each node on it are in
    /// ascending order.
    pub fn can_search(&self, key: u32) -> (r: bool)
        ensures
            r == (search_ok(self@, key) && path_sorted(self@, key)),
        decreases self,
    {
        proof {
            lemma_tree_of(*self);
        }
        let sorted = keys_ascending(self);
        let found = index_of(self, key);
        if found.is_some() {
            return sorted;
        }
        if self.children.len() > 0 && self.input.len() == 0 {
            return false;
        }
        match route_of(self, key) {
            None => sorted,
            Some(c) => {
                if c >= self.children.len() {
                    return false;
                }
                proof {
                    assert(decreases_to!(self => self.children));
                    assert(decreases_to!(self.children => self.children@));
                    assert(decreases_to!(self.children@ => self.children@[c as int]));
                }
                let below = self.children[c].can_search(key);
                sorted && below
            },
        }
    }

    /// Tells whether a write to `key` can be made from this node (see
    /// `find_update_ok`).
    pub fn can_write(&self, key: u32) -> (r: bool)
        ensures
            r == find_update_ok(self@, key),
        decreases self,
    {
        proof {
            lemma_tree_of(*self);
        }
        match index_of(self, key) {
            Some(i) => {
                proof {
                    lemma_find_index(self@.input, key, 0);
                }
                assert(self@.input[i as int] == self.input@[i as int]@);
                self.input[i].version.len() > 0
            },
            None => {
                if self.children.len() > 0 && self.input.len() == 0 {
                    return false;
                }
                match route_of(self, key) {
                    None => true,
                    Some(c) => {
                        if c >= self.children.len() {
                            return false;
                        }
                        proof {
                            assert(decreases_to!(self => self.children));
                            assert(decreases_to!(self.children => self.children@));
                            assert(decreases_to!(self.children@ => self.children@[c as int]));
                        }
                        self.children[c].can_write(key)
                    },
                }
            },
        }
    }
}

/// Tells whether every node that the overflow pass splits has a rank below
/// the largest (see `overflow_ok`).
pub fn can_check_overflow(node: &Node, node_size: usize) -> (r: bool)
    ensures
        r == overflow_ok(node@, node_size as int),
    decreases node,
{
    proof {
        lemma_tree_of(*node);
    }
    if node.input.len() > node_size {
        return node.rank < u32::MAX;
    }
    let mut i: usize = 0;
    while i < node.children.len()
        invariant
            i <= node.children@.len(),
            node@.input.len() <= node_size,
            node@.children.len() == node.children@.len(),
            forall|k: int| 0 <= k < node.children@.len() ==> #[trigger] node@.children[k] == node.children@[k]@,
            forall|k: int| 0 <= k < i ==> overflow_ok(#[trigger] node@.children[k], node_size as int),
        decreases node.children@.len() - i,
    {
        proof {
            assert(decreases_to!(node => node.children));
            assert(decreases_to!(node.children => node.children@));
            assert(decreases_to!(node.children@ => node.children@[i as int]));
        }
        if !can_check_overflow(&node.children[i], node_size) {
            assert(!overflow_ok(node@.children[i as int], node_size as int));
            return false;
        }
        i += 1;
    }
    true
}

/// Tells whether the ranks handed down from `r` fit (see `ranks_fit`).
pub fn ranks_can_fit(node: &Node, r: u32) -> (ok: bool)
    ensures
        ok == ranks_fit(node@, r as int),
    decreases node,
{
    proof {
        lemma_tree_of(*node);
    }
    if node.children.len() == 0 {
        return true;
    }
    if r == u32::MAX {
        return false;
    }
    let mut i: usize = 0;
    while i < node.children.len()
        invariant
            i <= node.children@.len(),
            r < u32::MAX,
            node@.children.len() == node.children@.len(),
            forall|k: int| 0 <= k < node.children@.len() ==> #[trigger] node@.children[k] == node.children@[k]@,
            forall|k: int| 0 <= k < i ==> ranks_fit(#[trigger] node@.children[k], r + 1),
        decreases node.children@.len() - i,
    {
        proof {
            assert(decreases_to!(node => node.children));
            assert(decreases_to!(node.children => node.children@));
            assert(decreases_to!(node.children@ => node.children@[i as int]));
        }
        if !ranks_can_fit(&node.children[i], r + 1) {
            assert(!ranks_fit(node@.children[i as int], r + 1));
            return false;
        }
        i += 1;
    }
    true
}

/// Tells whether children can be ordered by their first keys (see
/// `children_comparable`).
pub fn children_can_compare(children: &Vec<Node>) -> (r: bool)
    ensures
        r == children_comparable(nodes_view(children@)),
{
    if children.len() < 2 {
        return true;
    }
    let mut i: usize = 0;
    while i < children.len()
        invariant
            i <= children@.len(),
            children@.len() >= 2,
            forall|k: int| 0 <= k < i ==> (#[trigger] nodes_view(children@)[k]).input.len() > 0,
        decreases children@.len() - i,
    {
        proof {
            lemma_tree_of(children@[i as int]);
        }
        assert(nodes_view(children@)[i as int] == children@[i as int]@);
        if children[i].input.len() == 0 {
            return false;
        }
        i += 1;
    }
    true
}

/// Tells whether the children of every node can be ordered by their first
/// keys (see `all_children_comparable`).
pub fn all_can_compare(node: &Node) -> (r: bool)
    ensures
        r == all_children_comparable(node@),
    decreases node,
{
    proof {
        lemma_tree_of(*node);
        crate::btree::tree::lemma_views_of_node(*node);
    }
    if !children_can_compare(&node.children) {
        return false;
    }
    let mut i: usize = 0;
    while i < node.children.len()
        invariant
            i <= node.children@.len(),
            children_comparable(node@.children),
            node@.children.len() == node.children@.len(),
            forall|k: int| 0 <= k < node.children@.len() ==> #[trigger] node@.children[k] == node.children@[k]@,
            forall|k: int| 0 <= k < i ==> all_children_comparable(#[trigger] node@.children[k]),
        decreases node.children@.len() - i,
    {
        proof {
            assert(decreases_to!(node => node.children));
            assert(decreases_to!(node.children => node.children@));
            assert(decreases_to!(node.children@ => node.children@[i as int]));
        }
        if !all_can_compare(&node.children[i]) {
            assert(!all_children_comparable(node@.children[i as int]));
            return false;
        }
        i += 1;
    }
    true
}

/// Tells whether adding `x` can read what it compares (see `add_ok`).
pub fn can_add(node: &Node, x: &Items) -> (r: bool)
    ensures
        r == add_ok(node@, x@),
    decreases node,
{
    proof {
        lemma_tree_of(*node);
    }
    if node.children.len() == 0 {
        return true;
    }
    if node.input.len() == 0 {
        return false;
    }
    let last = node.input.len() - 1;
    assert(node@.input[0] == node.input@[0]@);
    assert(node@.input[last as int] == node.input@[last as int]@);
    proof {
        assert(decreases_to!(node => node.children));
        assert(decreases_to!(node.children => node.children@));
    }
    if x.key < node.input[0].key {
        proof {
            assert(decreases_to!(node.children@ => node.children@[0]));
        }
        return can_add(&node.children[0], x);
    }
    if x.key > node.input[last].key {
        let lc = node.children.len() - 1;
        proof {
            assert(decreases_to!(node.children@ => node.children@[lc as int]));
        }
        return can_add(&node.children[lc], x);
    }
    let mut g: usize = 0;
    while g < last
        invariant
            g <= last,
            last == node.input@.len() - 1,
            node@.input.len() == node.input@.len(),
            node@.children.len() == node.children@.len(),
            node@.children.len() > 0,
            !(x@.key < node@.input[0].key),
            !(x@.key > node@.input[last as int].key),
            forall|k: int| 0 <= k < node.input@.len() ==> #[trigger] node@.input[k] == node.input@[k]@,
            forall|k: int| 0 <= k < node.children@.len() ==> #[trigger] node@.children[k] == node.children@[k]@,
            forall|i: int|
                0 <= i < g && #[trigger] key_in_gap(node@.input, x@.key, i) ==> i + 1 < node@.children.len()
                    && add_ok(node@.children[i + 1], x@),
        decreases last - g,
    {
        assert(node@.input[g as int] == node.input@[g as int]@);
        assert(node@.input[g + 1] == node.input@[g + 1]@);
        if x.key > node.input[g].key && x.key < node.input[g + 1].key {
            if g + 1 >= node.children.len() {
                assert(key_in_gap(node@.input, x@.key, g as int));
                return false;
            }
            proof {
                assert(decreases_to!(node => node.children));
                assert(decreases_to!(node.children => node.children@));
                assert(decreases_to!(node.children@ => node.children@[g + 1]));
            }
            if !can_add(&node.children[g + 1], x) {
                assert(key_in_gap(node@.input, x@.key, g as int));
                return false;
            }
        }
        g += 1;
    }
    true
}

/// Tells whether child `ci` can be folded into its parent (see
/// `propagate_ok`).
pub fn can_propagate(node: &Node, ci: usize) -> (r: bool)
    ensures
        r == propagate_ok(node@, ci as int),
{
    proof {
        lemma_tree_of(*node);
    }
    if ci >= node.children.len() {
        return false;
    }
    let mut i: usize = 0;
    while i < node.children.len()
        invariant
            i <= node.children@.len(),
            ci < node.children@.len(),
            node@.children.len() == node.children@.len(),
            forall|k: int| 0 <= k < node.children@.len() ==> #[trigger] node@.children[k] == node.children@[k]@,
            forall|k: int| 0 <= k < i ==> (#[trigger] node@.children[k]).input.len() > 0,
        decreases node.children@.len() - i,
    {
        proof {
            lemma_tree_of(node.children@[i as int]);
        }
        if node.children[i].input.len() == 0 {
            assert(node@.children[i as int].input.len() == 0);
            return false;
        }
        i += 1;
    }
    let c = &node.children[ci];
    proof {
        lemma_tree_of(*c);
    }
    let mut g: usize = 0;
    while g < c.children.len()
        invariant
            g <= c.children@.len(),
            ci < node.children@.len(),
            *c == node.children@[ci as int],
            node@.children[ci as int] == c@,
            c@.children.len() == c.children@.len(),
            forall|k: int| 0 <= k < c.children@.len() ==> #[trigger] c@.children[k] == c.children@[k]@,
            forall|k: int| 0 <= k < node@.children.len() ==> (#[trigger] node@.children[k]).input.len() > 0,
            forall|k: int| 0 <= k < g ==> (#[trigger] c@.children[k]).input.len() > 0,
        decreases c.children@.len() - g,
    {
        proof {
            lemma_tree_of(c.children@[g as int]);
        }
        if c.children[g].input.len() == 0 {
            assert(c@.children[g as int].input.len() == 0);
            return false;
        }
        g += 1;
    }
    true
}

} // verus!
