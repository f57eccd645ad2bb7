//! The path a key search takes down the tree.
use vstd::prelude::*;
use crate::btree::tree::{ItemsView, Tree};

verus! {

/// The key lies strictly between keys `i` and `i + 1` of a node.
pub open spec fn key_in_gap(inp: Seq<ItemsView>, key: u32, i: int) -> bool {
    inp[i].key < key && key < inp[i + 1].key
}

/// The first gap, from position `i` on, that holds the key.
pub open spec fn first_gap(inp: Seq<ItemsView>, key: u32, i: int) -> Option<int>
    decreases inp.len() - i,
{
    if i < 0 || i + 1 >= inp.len() {
        None
    } else if key_in_gap(inp, key, i) {
        Some(i)
    } else {
        first_gap(inp, key, i + 1)
    }
}

/// The first position, from `i` on, of a key equal to `key`.
pub open spec fn find_index(inp: Seq<ItemsView>, key: u32, i: int) -> Option<int>
    decreases inp.len() - i,
{
    if i < 0 || i >= inp.len() {
        None
    } else if inp[i].key == key {
        Some(i)
    } else {
        find_index(inp, key, i + 1)
    }
}

/// The child a search for `key` goes down to from a node that does not hold
/// it: the first child below the first key, the last child above the last
/// key, else the child after the first gap that holds the key.
pub open spec fn route(t: Tree, key: u32) -> Option<int> {
    if t.children.len() == 0 {
        None
    } else if key < t.input[0].key {
        Some(0)
    } else if key > t.input[t.input.len() - 1].key {
        Some(t.children.len() - 1)
    } else {
        match first_gap(t.input, key, 0) {
            Some(i) => Some(i + 1),
            None => None,
        }
    }
}

/// A search for `key` from this node can read what it compares: a node that
/// has children and does not hold the key has keys, and the child it picks
/// exists; the same holds along the rest of the path.
pub open spec fn search_ok(t: Tree, key: u32) -> bool
    decreases t,
{
    find_index(t.input, key, 0) is None && t.children.len() > 0 ==> {
        &&& t.input.len() > 0
        &&& match route(t, key) {
            Some(c) => 0 <= c < t.children.len() && search_ok(t.children[c], key),
            None => true,
        }
    }
}

/// The keys of every node on the search path for `key` are in ascending
/// order.
pub open spec fn path_sorted(t: Tree, key: u32) -> bool
    decreases t,
{
    &&& forall|i: int, j: int| 0 <= i <= j < t.input.len() ==> t.input[i].key <= t.input[j].key
    &&& find_index(t.input, key, 0) is None ==> match route(t, key) {
        Some(c) => 0 <= c < t.children.len() ==> path_sorted(t.children[c], key),
        None => true,
    }
}

pub proof fn lemma_find_index(inp: Seq<ItemsView>, key: u32, i: int)
    requires
        0 <= i,
    ensures
        find_index(inp, key, i) matches Some(k) ==> i <= k < inp.len() && inp[k].key == key && forall|m: int| i <= m < k ==> inp[m].key != key,
        find_index(inp, key, i) is None ==> forall|m: int| i <= m < inp.len() ==> inp[m].key != key,
    decreases inp.len() - i,
{
    if i < inp.len() && inp[i].key != key {
        lemma_find_index(inp, key, i + 1);
    }
}

pub proof fn lemma_first_gap(inp: Seq<ItemsView>, key: u32, i: int)
    requires
        0 <= i,
    ensures
        first_gap(inp, key, i) matches Some(k) ==> i <= k && k + 1 < inp.len() && key_in_gap(inp, key, k)
            && forall|m: int| i <= m < k ==> !key_in_gap(inp, key, m),
        first_gap(inp, key, i) is None ==> forall|m: int| i <= m && m + 1 < inp.len() ==> !key_in_gap(inp, key, m),
    decreases inp.len() - i,
{
    if i + 1 < inp.len() && !key_in_gap(inp, key, i) {
        lemma_first_gap(inp, key, i + 1);
    }
}

} // verus!

verus! {

/// Two key sequences with the same keys, position by position.
pub open spec fn same_keys(a: Seq<ItemsView>, b: Seq<ItemsView>) -> bool {
    a.len() == b.len() && forall|i: int| 0 <= i < a.len() ==> #[trigger] a[i].key == b[i].key
}

pub proof fn lemma_same_keys_search(a: Seq<ItemsView>, b: Seq<ItemsView>, key: u32, i: int)
    requires
        same_keys(a, b),
    ensures
        find_index(a, key, i) == find_index(b, key, i),
        first_gap(a, key, i) == first_gap(b, key, i),
    decreases a.len() - i,
{
    if 0 <= i < a.len() {
        lemma_same_keys_search(a, b, key, i + 1);
        assert(a[i].key == b[i].key);
        if i + 1 < a.len() {
            assert(a[i + 1].key == b[i + 1].key);
        }
    }
}

} // verus!
