//! Reads: the versions stored under a key, and which of them a transaction
//! sees.
use vstd::prelude::*;
use crate::btree::node::Node;
use crate::btree::ops::{add_ok, find_update_ok, insert_ok, new_item, spec_add_new_keys, spec_find_update, spec_insert, update_versions};
use crate::btree::path::{
    find_index, first_gap, key_in_gap, lemma_find_index, lemma_first_gap, lemma_same_keys_search, path_sorted, route, same_keys,
    search_ok,
};
use crate::btree::tree::{content, entry_one, forest_content, items_view, lemma_views_of_node, nodes_view, ItemsView, Tree};
use crate::mvcc::versions::{duplicate_versions, Version};
use crate::transactions::transactions::{TransactionItems, TransactionStatus};
use std::collections::HashMap;

verus! {

/// The versions stored under `key`, found along its search path.
pub open spec fn spec_fetch(t: Tree, key: u32) -> Option<Seq<Version>>
    decreases t,
{
    match find_index(t.input, key, 0) {
        Some(i) => Some(t.input[i].version),
        None => match route(t, key) {
            Some(c) => if 0 <= c < t.children.len() {
                spec_fetch(t.children[c], key)
            } else {
                None
            },
            None => None,
        },
    }
}

/// Searches `key` down the tree and returns a copy of its versions, or
/// `None` when the search path does not hold it. The keys of each node on
/// the path must be in ascending order.
pub fn fetch_versions_for_key(node: &Node, key: u32) -> (r: Option<Vec<Version>>)
    requires
        search_ok(node@, key),
        path_sorted(node@, key),
    ensures
        match r {
            Some(v) => spec_fetch(node@, key) == Some(v@),
            None => spec_fetch(node@, key) is None,
        },
    decreases *node,
{
    let ghost t = node@;
    proof {
        lemma_views_of_node(*node);
        lemma_find_index(t.input, key, 0);
    }
    let mut i: usize = 0;
    while i < node.input.len()
        invariant
            i <= node.input@.len(),
            t == node@,
            t.input == items_view(node.input@),
            forall|m: int| 0 <= m < i ==> #[trigger] node.input@[m].key != key,
        decreases node.input@.len() - i,
    {
        if node.input[i].key == key {
            proof {
                assert(t.input[i as int] == node.input@[i as int]@);
                assert forall|m: int| 0 <= m < i implies t.input[m].key != key by {
                    assert(t.input[m] == node.input@[m]@);
                }
                lemma_find_index(t.input, key, 0);
                if find_index(t.input, key, 0) is Some {
                    assert(find_index(t.input, key, 0).unwrap() == i);
                }
            }
            return Some(duplicate_versions(&node.input[i].version));
        }
        i += 1;
    }
    assert(find_index(t.input, key, 0) is None) by {
        if find_index(t.input, key, 0) is Some {
            let k = find_index(t.input, key, 0).unwrap();
            assert(t.input[k] == node.input@[k]@);
        }
    }
    if node.children.len() > 0 {
        proof {
            assert(t.input[0] == node.input@[0]@);
            assert(t.input[t.input.len() - 1] == node.input@[t.input.len() - 1]@);
        }
        let last = node.input.len() - 1;
        if key < node.input[0].key {
            assert(t.children[0] == node.children@[0]@);
            return fetch_versions_for_key(&node.children[0], key);
        } else if key > node.input[last].key {
            let lc = node.children.len() - 1;
            assert(t.children[lc as int] == node.children@[lc as int]@);
            return fetch_versions_for_key(&node.children[lc], key);
        } else {
            let mut g: usize = 0;
            while g < last
                invariant
                    g <= last,
                    last == node.input@.len() - 1,
                    t == node@,
                    t.input == items_view(node.input@),
                    t.children == nodes_view(node.children@),
                    find_index(t.input, key, 0) is None,
                    search_ok(t, key),
                    path_sorted(t, key),
                    node.children@.len() > 0,
                    !(key < t.input[0].key),
                    !(key > t.input[t.input.len() - 1].key),
                    forall|m: int| 0 <= m < g ==> !key_in_gap(t.input, key, m),
                decreases last - g,
            {
                assert(t.input[g as int] == node.input@[g as int]@);
                assert(t.input[g + 1] == node.input@[g + 1]@);
                if key > node.input[g].key && key < node.input[g + 1].key {
                    proof {
                        lemma_first_gap(t.input, key, 0);
                        assert(key_in_gap(t.input, key, g as int));
                        assert(first_gap(t.input, key, 0) == Some(g as int));
                    }
                    let c = g + 1;
                    assert(route(t, key) == Some(c as int));
                    assert(t.children[c as int] == node.children@[c as int]@);
                    return fetch_versions_for_key(&node.children[c], key);
                }
                g += 1;
            }
            proof {
                lemma_first_gap(t.input, key, 0);
            }
            assert(first_gap(t.input, key, 0) is None);
        }
    }
    None
}

} // verus!

verus! {

/// What a read gives back after a write: writing to `key` finds it exactly
/// when a read would, and a read afterwards gives the versions the read
/// would have given, updated by the write (see `update_versions`).
pub proof fn law_read_after_write(t: Tree, key: u32, v: Option<String>, txn: u32, delete: bool)
    requires
        find_update_ok(t, key),
    ensures
        spec_find_update(t, key, v, txn, delete).1 == spec_fetch(t, key) is Some,
        spec_fetch(spec_find_update(t, key, v, txn, delete).0, key) == match spec_fetch(t, key) {
            Some(vs) => Some(update_versions(vs, v, txn, delete)),
            None => None,
        },
    decreases t,
{
    let r = spec_find_update(t, key, v, txn, delete).0;
    match find_index(t.input, key, 0) {
        Some(i) => {
            lemma_find_index(t.input, key, 0);
            assert(same_keys(r.input, t.input));
            lemma_same_keys_search(r.input, t.input, key, 0);
        },
        None => {
            assert(r.input == t.input);
            match route(t, key) {
                Some(c) => {
                    if 0 <= c < t.children.len() {
                        law_read_after_write(t.children[c], key, v, txn, delete);
                        assert(r.children[c] == spec_find_update(t.children[c], key, v, txn, delete).0);
                        assert(route(r, key) == route(t, key));
                    }
                },
                None => {},
            }
        },
    }
}

} // verus!

verus! {

broadcast use vstd::std_specs::hash::group_hash_axioms;

/// Whether `xid` is a transaction known to be in `status`.
pub open spec fn has_status(
    st: Map<u32, TransactionItems>,
    xid: u32,
    status: TransactionStatus,
) -> bool {
    st.contains_key(xid) && st[xid].status == status
}

/// A version is visible to a reader whose snapshot starts at `last_txd`
/// when it has not ended (no `xmax`), or ended at or after `last_txd`, or
/// ended by a transaction still active; and it was created by `last_txd`
/// itself, or by a committed transaction before `last_txd`.
pub open spec fn visible(v: Version, last_txd: u32, st: Map<u32, TransactionItems>) -> bool {
    let end_visible = match v.xmax {
        Some(x) => x >= last_txd || has_status(st, x, TransactionStatus::Active),
        None => true,
    };
    let start_visible = v.xmin == last_txd || (has_status(st, v.xmin, TransactionStatus::Committed)
        && v.xmin < last_txd);
    end_visible && start_visible
}

/// A live version written by the reading transaction itself.
pub open spec fn own_live(v: Version, current_txd: u32) -> bool {
    v.xmax is None && v.xmin == current_txd
}

/// The first position of a live version of the reader's own.
pub open spec fn first_own(vs: Seq<Version>, current_txd: u32, i: int) -> Option<int>
    decreases vs.len() - i,
{
    if i < 0 || i >= vs.len() {
        None
    } else if own_live(vs[i], current_txd) {
        Some(i)
    } else {
        first_own(vs, current_txd, i + 1)
    }
}

/// The last visible version among the first `n`.
pub open spec fn last_visible(vs: Seq<Version>, last_txd: u32, st: Map<u32, TransactionItems>, n: int) -> Option<int>
    decreases n,
{
    if n <= 0 {
        None
    } else if visible(vs[n - 1], last_txd, st) {
        Some(n - 1)
    } else {
        last_visible(vs, last_txd, st, n - 1)
    }
}

/// The value a reader sees among the versions of a key: its own live
/// version if it has one (the first), else the newest visible version.
pub open spec fn spec_select(vs: Seq<Version>, last_txd: u32, current_txd: u32, st: Map<u32, TransactionItems>) -> Option<String> {
    match first_own(vs, current_txd, 0) {
        Some(i) => Some(vs[i].value),
        None => match last_visible(vs, last_txd, st, vs.len() as int) {
            Some(i) => Some(vs[i].value),
            None => None,
        },
    }
}

/// The value of key `k` that a reader sees (see `spec_select`), when the key
/// is on its search path; `last_txd` starts the reader's snapshot,
/// `current_txd` is the reader's own transaction and `statuses` the state of
/// each transaction.
pub fn select_key(
    node: &Node,
    k: u32,
    last_txd: u32,
    current_txd: u32,
    statuses: &HashMap<u32, TransactionItems>,
) -> (r: Option<String>)
    requires
        search_ok(node@, k),
        path_sorted(node@, k),
    ensures
        r == match spec_fetch(node@, k) {
            Some(vs) => spec_select(vs, last_txd, current_txd, statuses@),
            None => None::<String>,
        },
{
    let result = match fetch_versions_for_key(node, k) {
        Some(version) => version,
        None => {
            return None;
        },
    };
    let ghost vs = result@;
    let ghost st = statuses@;
    let mut selected: Option<String> = None;
    let mut i: usize = 0;
    while i < result.len()
        invariant
            i <= result@.len(),
            vs == result@,
            st == statuses@,
            spec_fetch(node@, k) == Some(vs),
            forall|m: int| 0 <= m < i ==> !own_live(#[trigger] vs[m], current_txd),
            selected == match last_visible(vs, last_txd, st, i as int) {
                Some(j) => Some(vs[j].value),
                None => None::<String>,
            },
        decreases result@.len() - i,
    {
        let result_max = result[i].xmax;
        let result_min = result[i].xmin;
        let mut visible_xmax = false;
        let mut visible_xmin = false;
        match result_max {
            Some(xmax) => {
                if xmax >= last_txd {
                    visible_xmax = true;
                }
                match statuses.get(&xmax) {
                    Some(max_status) => {
                        if max_status.status == TransactionStatus::Active {
                            visible_xmax = true;
                        }
                    },
                    None => {},
                }
            },
            None => {
                visible_xmax = true;
                if result_min == current_txd {
                    proof {
                        assert(first_own(vs, current_txd, 0) == Some(i as int)) by {
                            lemma_first_own(vs, current_txd, 0);
                        }
                    }
                    let val = result[i].value.clone();
                    assert(spec_fetch(node@, k) == Some(vs));
                    assert(val == vs[i as int].value);
                    assert(spec_select(vs, last_txd, current_txd, st) == Some(val));
                    return Some(val);
                }
            },
        }
        if result_min == last_txd {
            visible_xmin = true;
        } else {
            match statuses.get(&result_min) {
                Some(min_status) => {
                    if min_status.status == TransactionStatus::Committed && result_min < last_txd {
                        visible_xmin = true;
                    }
                },
                None => {},
            }
        }
        assert(visible_xmax && visible_xmin <==> visible(vs[i as int], last_txd, st));
        if visible_xmax && visible_xmin {
            selected = Some(result[i].value.clone());
        }
        i += 1;
    }
    proof {
        lemma_first_own(vs, current_txd, 0);
    }
    selected
}

pub proof fn lemma_first_own(vs: Seq<Version>, current_txd: u32, i: int)
    requires
        0 <= i,
    ensures
        first_own(vs, current_txd, i) matches Some(k) ==> i <= k < vs.len() && own_live(vs[k], current_txd)
            && forall|m: int| i <= m < k ==> !own_live(#[trigger] vs[m], current_txd),
        first_own(vs, current_txd, i) is None ==> forall|m: int| i <= m < vs.len() ==> !own_live(#[trigger] vs[m], current_txd),
    decreases vs.len() - i,
{
    if i < vs.len() && !own_live(vs[i], current_txd) {
        lemma_first_own(vs, current_txd, i + 1);
    }
}

} // verus!

verus! {

proof fn lemma_forest_update(cs: Seq<Tree>, k: int, y: Tree)
    requires
        0 <= k < cs.len(),
    ensures
        forest_content(cs.update(k, y)).add(content(cs[k])) == forest_content(cs).add(content(y)),
{
    crate::btree::tree::lemma_forest_remove(cs, k);
    crate::btree::tree::lemma_forest_remove(cs.update(k, y), k);
    assert(cs.update(k, y).remove(k) =~= cs.remove(k));
    let r = forest_content(cs.remove(k));
    assert(forest_content(cs.update(k, y)).add(content(cs[k])) =~= r.add(content(y)).add(content(cs[k])));
    assert(forest_content(cs).add(content(y)) =~= r.add(content(cs[k])).add(content(y)));
}

/// A sorted node whose key range covers `key`, and which does not hold it,
/// has exactly one gap holding it.
pub proof fn lemma_one_gap(inp: Seq<ItemsView>, key: u32)
    requires
        inp.len() > 0,
        forall|i: int, j: int| 0 <= i <= j < inp.len() ==> inp[i].key <= inp[j].key,
        !(key < inp[0].key),
        !(key > inp[inp.len() - 1].key),
        find_index(inp, key, 0) is None,
    ensures
        first_gap(inp, key, 0) is Some,
        forall|i: int| 0 <= i && i + 1 < inp.len() && #[trigger] key_in_gap(inp, key, i) ==> i == first_gap(
            inp,
            key,
            0,
        )->0,
{
    lemma_find_index(inp, key, 0);
    lemma_first_gap(inp, key, 0);
    if first_gap(inp, key, 0) is None {
        lemma_below_all(inp, key, inp.len() - 1);
        assert(false);
    }
    let g = first_gap(inp, key, 0)->0;
    assert forall|i: int| 0 <= i && i + 1 < inp.len() && #[trigger] key_in_gap(inp, key, i) implies i == g by {
        if i < g {
            assert(inp[i + 1].key <= inp[g].key);
        } else if i > g {
            assert(inp[g + 1].key <= inp[i].key);
        }
    }
}

proof fn lemma_below_all(inp: Seq<ItemsView>, key: u32, m: int)
    requires
        0 <= m < inp.len(),
        !(key < inp[0].key),
        forall|i: int| 0 <= i < inp.len() ==> inp[i].key != key,
        forall|i: int| 0 <= i && i + 1 < inp.len() ==> !key_in_gap(inp, key, i),
    ensures
        inp[m].key < key,
    decreases m,
{
    if m > 0 {
        lemma_below_all(inp, key, m - 1);
        assert(!key_in_gap(inp, key, m - 1));
    }
}

/// Adding a key along a sorted search path that does not hold it adds
/// exactly that key's entry to the tree.
pub proof fn lemma_add_content(t: Tree, x: ItemsView)
    requires
        add_ok(t, x),
        path_sorted(t, x.key),
        spec_fetch(t, x.key) is None,
    ensures
        content(spec_add_new_keys(t, x)) == content(t).add(entry_one(x)),
    decreases t,
{
    let key = x.key;
    let r = spec_add_new_keys(t, x);
    lemma_find_index(t.input, key, 0);
    if t.children.len() == 0 {
        crate::btree::tree::lemma_items_push(t.input, x);
        assert(content(r) =~= content(t).add(entry_one(x)));
    } else {
        assert(find_index(t.input, key, 0) is None);
        let c: int = if key < t.input[0].key {
            0
        } else if key > t.input[t.input.len() - 1].key {
            t.children.len() - 1
        } else {
            lemma_one_gap(t.input, key);
            first_gap(t.input, key, 0)->0 + 1
        };
        assert(route(t, key) == Some(c));
        if !(key < t.input[0].key) && !(key > t.input[t.input.len() - 1].key) {
            lemma_first_gap(t.input, key, 0);
            assert(key_in_gap(t.input, key, c - 1));
        }
        assert(0 <= c < t.children.len());
        assert(add_ok(t.children[c], x));
        lemma_add_content(t.children[c], x);
        assert(r.children =~= t.children.update(c, spec_add_new_keys(t.children[c], x)));
        lemma_forest_update(t.children, c, spec_add_new_keys(t.children[c], x));
        let f = forest_content(t.children);
        let fr = forest_content(r.children);
        let cc = content(t.children[c]);
        assert(fr =~= f.add(entry_one(x))) by {
            assert forall|e| #[trigger] fr.count(e) == f.add(entry_one(x)).count(e) by {
                assert(fr.add(cc).count(e) == f.add(cc.add(entry_one(x))).count(e));
            }
        }
        assert(content(r) =~= content(t).add(entry_one(x)));
    }
}

/// What an insertion leaves: a new key adds its entry and nothing else, as
/// the repairs never add an entry, and, when no two entries then share a
/// key, exactly its entry; a key already on its search path gets the new
/// value as a new version (see `update_versions`). The search path must be
/// in key order.
pub proof fn law_insert(t: Tree, k: u32, v: String, txn: u32, ns: int)
    requires
        insert_ok(t, k, v, txn, ns),
        path_sorted(t, k),
    ensures
        spec_insert(t, k, v, txn, ns).1 ==> content(spec_insert(t, k, v, txn, ns).0).subset_of(
            content(t).add(entry_one(new_item(k, v, txn))),
        ),
        spec_insert(t, k, v, txn, ns).1 && crate::btree::scan::keys_unique(
            content(t).add(entry_one(new_item(k, v, txn))),
        ) ==> content(spec_insert(t, k, v, txn, ns).0) == content(t).add(entry_one(new_item(k, v, txn))),
        !spec_insert(t, k, v, txn, ns).1 ==> spec_fetch(spec_insert(t, k, v, txn, ns).0, k) == Some(
            update_versions(spec_fetch(t, k)->0, Some(v), txn, false),
        ),
{
    law_read_after_write(t, k, Some(v), txn, false);
    if spec_insert(t, k, v, txn, ns).1 {
        let a = spec_add_new_keys(t, new_item(k, v, txn));
        lemma_add_content(t, new_item(k, v, txn));
        crate::btree::validation::law_validate_keeps_no_more(a, ns);
        if crate::btree::scan::keys_unique(content(t).add(entry_one(new_item(k, v, txn)))) {
            crate::btree::validation::law_validate_keeps_every_entry(a, ns);
        }
    }
}

/// The last position of `vs` is at `n - 1` or later only where the version
/// there is visible; the search from `n` finds `i` when no version after it
/// is visible.
proof fn lemma_last_visible_at(vs: Seq<Version>, last_txd: u32, st: Map<u32, TransactionItems>, n: int, i: int)
    requires
        0 <= i < n <= vs.len(),
        visible(vs[i], last_txd, st),
        forall|j: int| i < j < n ==> !visible(#[trigger] vs[j], last_txd, st),
    ensures
        last_visible(vs, last_txd, st, n) == Some(i),
    decreases n,
{
    if n - 1 > i {
        lemma_last_visible_at(vs, last_txd, st, n - 1, i);
    }
}

proof fn lemma_no_own(vs: Seq<Version>, current_txd: u32, i: int)
    requires
        0 <= i,
        forall|j: int| 0 <= j < vs.len() ==> !((#[trigger] vs[j]).xmax is None && vs[j].xmin == current_txd),
    ensures
        first_own(vs, current_txd, i) is None,
    decreases vs.len() - i,
{
    if i < vs.len() {
        lemma_no_own(vs, current_txd, i + 1);
    }
}

/// A committed version whose end was written by a transaction that is still
/// active stays what a reader sees: when version `i` was created by a
/// transaction committed before the reader's snapshot and ended by an active
/// transaction, no later version was created by the snapshot's transaction
/// or by a committed one before it, and the reader has no live version of its
/// own, the read gives version `i`'s value.
pub proof fn law_select_sees_version_ended_by_active(
    vs: Seq<Version>,
    last_txd: u32,
    current_txd: u32,
    st: Map<u32, TransactionItems>,
    i: int,
)
    requires
        0 <= i < vs.len(),
        vs[i].xmax is Some,
        st.contains_key(vs[i].xmax->0),
        st[vs[i].xmax->0].status == TransactionStatus::Active,
        vs[i].xmin < last_txd,
        st.contains_key(vs[i].xmin),
        st[vs[i].xmin].status == TransactionStatus::Committed,
        forall|j: int|
            i < j < vs.len() ==> (#[trigger] vs[j]).xmin != last_txd && !(st.contains_key(vs[j].xmin)
                && st[vs[j].xmin].status == TransactionStatus::Committed && vs[j].xmin < last_txd),
        forall|j: int| 0 <= j < vs.len() ==> !((#[trigger] vs[j]).xmax is None && vs[j].xmin == current_txd),
    ensures
        spec_select(vs, last_txd, current_txd, st) == Some(vs[i].value),
{
    lemma_no_own(vs, current_txd, 0);
    lemma_last_visible_at(vs, last_txd, st, vs.len() as int, i);
}

proof fn lemma_first_own_at(vs: Seq<Version>, current_txd: u32, k: int, i: int)
    requires
        0 <= k <= i < vs.len(),
        vs[i].xmax is None && vs[i].xmin == current_txd,
        forall|j: int| k <= j < i ==> !((#[trigger] vs[j]).xmax is None && vs[j].xmin == current_txd),
    ensures
        first_own(vs, current_txd, k) == Some(i),
    decreases i - k,
{
    if k < i {
        lemma_first_own_at(vs, current_txd, k + 1, i);
    }
}

/// A reader sees its own write: when version `i` is the first live version
/// written by the reader's own transaction, the read gives its value,
/// whatever the other versions and transactions are.
pub proof fn law_select_sees_own_write(
    vs: Seq<Version>,
    last_txd: u32,
    current_txd: u32,
    st: Map<u32, TransactionItems>,
    i: int,
)
    requires
        0 <= i < vs.len(),
        vs[i].xmax is None,
        vs[i].xmin == current_txd,
        forall|j: int| 0 <= j < i ==> !((#[trigger] vs[j]).xmax is None && vs[j].xmin == current_txd),
    ensures
        spec_select(vs, last_txd, current_txd, st) == Some(vs[i].value),
{
    lemma_first_own_at(vs, current_txd, 0, i);
}

proof fn lemma_none_visible(vs: Seq<Version>, last_txd: u32, st: Map<u32, TransactionItems>, n: int)
    requires
        0 <= n <= vs.len(),
        forall|j: int|
            0 <= j < vs.len() ==> (#[trigger] vs[j]).xmin != last_txd && !(st.contains_key(vs[j].xmin)
                && st[vs[j].xmin].status == TransactionStatus::Committed && vs[j].xmin < last_txd),
    ensures
        last_visible(vs, last_txd, st, n) is None,
    decreases n,
{
    if n > 0 {
        lemma_none_visible(vs, last_txd, st, n - 1);
    }
}

/// Uncommitted writes of others stay hidden: when no version was created by
/// the snapshot's transaction or by a transaction committed before it, and
/// the reader has no live version of its own, the read gives nothing.
pub proof fn law_select_hides_uncommitted(vs: Seq<Version>, last_txd: u32, current_txd: u32, st: Map<u32, TransactionItems>)
    requires
        forall|j: int|
            0 <= j < vs.len() ==> (#[trigger] vs[j]).xmin != last_txd && !(st.contains_key(vs[j].xmin)
                && st[vs[j].xmin].status == TransactionStatus::Committed && vs[j].xmin < last_txd),
        forall|j: int| 0 <= j < vs.len() ==> !((#[trigger] vs[j]).xmax is None && vs[j].xmin == current_txd),
    ensures
        spec_select(vs, last_txd, current_txd, st) is None,
{
    lemma_no_own(vs, current_txd, 0);
    lemma_none_visible(vs, last_txd, st, vs.len() as int);
}

} // verus!
