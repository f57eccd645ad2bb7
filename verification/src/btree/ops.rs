//! Writes: new versions of existing keys, and insertion of new keys.
use vstd::prelude::*;
use crate::btree::node::{Items, Node};
use crate::btree::path::{
    find_index, first_gap, key_in_gap, lemma_find_index, lemma_first_gap, route, search_ok,
};
use crate::btree::tree::{lemma_tree_of, lemma_views_of_node, items_view, nodes_view, ItemsView, Tree};
use crate::btree::validation::{spec_validate_after_mutation, validate_ok};
use crate::mvcc::versions::{Version, VersionInfo, VersionStatus};

verus! {

/// A live version created by `txn`.
pub open spec fn fresh_version(value: String, txn: u32) -> Version {
    Version {
        value,
        xmin: txn,
        xmax: None,
        version_info: VersionInfo { version_status: VersionStatus::Active, vid: 0 },
    }
}

/// The versions of a key after a write by `txn`: the newest version is ended
/// (by `txn`, or on a delete by its own creator), the one before it is made
/// open-ended again, and a new value, when there is one, is appended as a
/// live version.
pub open spec fn update_versions(vs: Seq<Version>, v: Option<String>, txn: u32, delete: bool) -> Seq<Version> {
    let n = vs.len() as int;
    let last = vs[n - 1];
    let ended = Version { xmax: Some(if delete { last.xmin } else { txn }), ..last };
    let s1 = vs.update(n - 1, ended);
    let s2 = if n >= 2 { s1.update(n - 2, Version { xmax: None, ..s1[n - 2] }) } else { s1 };
    match v {
        Some(value) => s2.push(fresh_version(value, txn)),
        None => s2,
    }
}

/// The tree after writing to `key` along its search path, and whether the
/// key was found.
pub open spec fn spec_find_update(t: Tree, key: u32, v: Option<String>, txn: u32, delete: bool) -> (Tree, bool)
    decreases t,
{
    match find_index(t.input, key, 0) {
        Some(i) => (
            Tree {
                input: t.input.update(
                    i,
                    ItemsView { version: update_versions(t.input[i].version, v, txn, delete), ..t.input[i] },
                ),
                ..t
            },
            true,
        ),
        None => match route(t, key) {
            Some(c) => if 0 <= c < t.children.len() {
                let (nc, found) = spec_find_update(t.children[c], key, v, txn, delete);
                (Tree { children: t.children.update(c, nc), ..t }, found)
            } else {
                (t, false)
            },
            None => (t, false),
        },
    }
}

/// The write can read what it uses: the search path exists, and the key,
/// where found, has at least one version.
pub open spec fn find_update_ok(t: Tree, key: u32) -> bool
    decreases t,
{
    &&& search_ok(t, key)
    &&& match find_index(t.input, key, 0) {
        Some(i) => t.input[i].version.len() > 0,
        None => match route(t, key) {
            Some(c) => 0 <= c < t.children.len() ==> find_update_ok(t.children[c], key),
            None => true,
        },
    }
}

impl Node {
    /// Writes to `key`: at the first node on its search path that holds it,
    /// its newest version is ended (by `txn`, or on a delete by that
    /// version's own creator), the version before it is reopened, and `v`,
    /// if given, becomes a new live version. Returns `Some(())` when the key
    /// was found, `None` (and no change) otherwise.
    pub fn find_and_update_key_version(
        node: &mut Node,
        key: u32,
        v: Option<String>,
        txn: u32,
        delete: bool,
    ) -> (r: Option<()>)
        requires
            find_update_ok(old(node)@, key),
        ensures
            final(node)@ == spec_find_update(old(node)@, key, v, txn, delete).0,
            r is Some <==> spec_find_update(old(node)@, key, v, txn, delete).1,
        decreases *old(node),
    {
        let ghost t = node@;
        proof {
            lemma_views_of_node(*node);
            lemma_find_index(t.input, key, 0);
        }
        let mut i: usize = 0;
        while i < node.input.len()
            invariant
                i <= node.input@.len(),
                *node == *old(node),
                t == old(node)@,
                t.input == items_view(node.input@),
                find_update_ok(t, key),
                forall|m: int| 0 <= m < i ==> #[trigger] node.input@[m].key != key,
            decreases node.input@.len() - i,
        {
            if node.input[i].key == key {
                proof {
                    assert(t.input[i as int] == node.input@[i as int]@);
                    assert forall|m: int| 0 <= m < i implies t.input[m].key != key by {
                        assert(t.input[m] == node.input@[m]@);
                    }
                    assert(find_index(t.input, key, 0) == Some(i as int)) by {
                        lemma_find_index(t.input, key, 0);
                        if find_index(t.input, key, 0) is Some {
                            let k = find_index(t.input, key, 0).unwrap();
                            assert(k == i);
                        } else {
                            assert(t.input[i as int].key == key);
                        }
                    }
                    assert(t.input[i as int].version.len() > 0);
                }
                let ghost vs = node.input@[i as int].version@;
                let ver_count = node.input[i].version.len();
                if delete {
                    let last_xmin = node.input[i].version[ver_count - 1].xmin;
                    node.input[i].version[ver_count - 1].xmax = Some(last_xmin);
                } else {
                    node.input[i].version[ver_count - 1].xmax = Some(txn);
                }
                if ver_count >= 2 {
                    node.input[i].version[ver_count - 2].xmax = None;
                }
                let ghost v0 = v;
                if let Some(value) = v {
                    node.input[i].version.push(Version::fresh(value, txn));
                }
                proof {
                    lemma_views_of_node(*node);
                    assert(node.input@[i as int].version@ =~= update_versions(vs, v0, txn, delete));
                    assert(node@.input =~= spec_find_update(t, key, v0, txn, delete).0.input);
                }
                assert(node@ =~= spec_find_update(t, key, v0, txn, delete).0);
                return Some(());
            }
            i += 1;
        }
        assert(find_index(t.input, key, 0) is None) by {
            if find_index(t.input, key, 0) is Some {
                let k = find_index(t.input, key, 0).unwrap();
                assert(t.input[k] == node.input@[k]@);
            }
        }
        if node.children.len() > 0 {
            proof {
                lemma_first_gap(t.input, key, 0);
                assert(t.input[0] == node.input@[0]@);
                assert(t.input[t.input.len() - 1] == node.input@[t.input.len() - 1]@);
            }
            let last = node.input.len() - 1;
            if key < node.input[0].key {
                let ghost c = 0int;
                proof {
                    assert(decreases_to!(*old(node) => old(node).children@[0]));
                    assert(t.children[0] == node.children@[0]@);
                }
                assert(route(t, key) == Some(0int));
                let ghost before = node.children@;
                let r = Node::find_and_update_key_version(&mut node.children[0], key, v, txn, delete);
                proof {
                    lemma_views_of_node(*node);
                    assert(node@.children =~= t.children.update(0, node.children@[0]@));
                }
                assert(node@ =~= spec_find_update(t, key, v, txn, delete).0);
                return r;
            } else if key > node.input[last].key {
                let lc = node.children.len() - 1;
                proof {
                    assert(decreases_to!(*old(node) => old(node).children@[lc as int]));
                    assert(t.children[lc as int] == node.children@[lc as int]@);
                }
                assert(route(t, key) == Some(lc as int));
                let r = Node::find_and_update_key_version(&mut node.children[lc], key, v, txn, delete);
                proof {
                    lemma_views_of_node(*node);
                    assert(node@.children =~= t.children.update(lc as int, node.children@[lc as int]@));
                }
                assert(node@ =~= spec_find_update(t, key, v, txn, delete).0);
                return r;
            } else {
                let mut g: usize = 0;
                while g < last
                    invariant
                        g <= last,
                        last == node.input@.len() - 1,
                        *node == *old(node),
                        t == old(node)@,
                        t.input == items_view(node.input@),
                        find_index(t.input, key, 0) is None,
                        find_update_ok(t, key),
                        node.children@.len() > 0,
                        nodes_view(node.children@) == t.children,
                        route(t, key) == (match first_gap(t.input, key, 0) {
                            Some(i) => Some(i + 1),
                            None => None::<int>,
                        }),
                        first_gap(t.input, key, 0) matches Some(k) ==> g <= k,
                    decreases last - g,
                {
                    assert(t.input[g as int] == node.input@[g as int]@);
                    assert(t.input[g + 1] == node.input@[g + 1]@);
                    if key > node.input[g].key && key < node.input[g + 1].key {
                        assert(first_gap(t.input, key, 0) == Some(g as int)) by {
                            lemma_first_gap(t.input, key, 0);
                            assert(key_in_gap(t.input, key, g as int));
                        }
                        let c = g + 1;
                        assert(route(t, key) == Some(c as int));
                        assert(search_ok(t, key));
                        assert(c < node.children@.len());
                        proof {
                            assert(decreases_to!(*old(node) => old(node).children@[c as int]));
                            assert(t.children[c as int] == node.children@[c as int]@);
                        }
                        let r = Node::find_and_update_key_version(&mut node.children[c], key, v, txn, delete);
                        proof {
                            lemma_views_of_node(*node);
                            assert(node@.children =~= t.children.update(c as int, node.children@[c as int]@));
                        }
                        assert(node@ =~= spec_find_update(t, key, v, txn, delete).0);
                        return r;
                    }
                    proof {
                        lemma_first_gap(t.input, key, 0);
                        assert(!key_in_gap(t.input, key, g as int));
                    }
                    g += 1;
                }
                proof {
                    lemma_first_gap(t.input, key, 0);
                }
                assert(first_gap(t.input, key, 0) is None);
            }
        }
        None
    }
}

} // verus!

verus! {

/// The tree after adding the key `x` along its search path: to the end of
/// the keys of the leaf it reaches; in an inner node, into every child that
/// follows a gap holding the key (none when the key equals a key of the
/// node).
pub open spec fn spec_add_new_keys(t: Tree, x: ItemsView) -> Tree
    decreases t,
{
    if t.children.len() == 0 {
        Tree { input: t.input.push(x), ..t }
    } else if x.key < t.input[0].key {
        Tree { children: t.children.update(0, spec_add_new_keys(t.children[0], x)), ..t }
    } else if x.key > t.input[t.input.len() - 1].key {
        Tree {
            children: t.children.update(
                t.children.len() - 1,
                spec_add_new_keys(t.children[t.children.len() - 1], x),
            ),
            ..t
        }
    } else {
        Tree {
            children: Seq::new(
                t.children.len(),
                |c: int|
                    if 0 <= c < t.children.len() && 1 <= c < t.input.len() && key_in_gap(
                        t.input,
                        x.key,
                        c - 1,
                    ) {
                        spec_add_new_keys(t.children[c], x)
                    } else {
                        t.children[c]
                    },
            ),
            ..t
        }
    }
}

/// Adding the key can read what it compares: an inner node on the way has
/// keys, and every child it goes into exists.
pub open spec fn add_ok(t: Tree, x: ItemsView) -> bool
    decreases t,
{
    t.children.len() > 0 ==> {
        &&& t.input.len() > 0
        &&& (x.key < t.input[0].key ==> add_ok(t.children[0], x))
        &&& (!(x.key < t.input[0].key) && x.key > t.input[t.input.len() - 1].key ==> add_ok(
            t.children[t.children.len() - 1],
            x,
        ))
        &&& (!(x.key < t.input[0].key) && !(x.key > t.input[t.input.len() - 1].key) ==> forall|
            i: int,
        |
            0 <= i && i + 1 < t.input.len() && #[trigger] key_in_gap(t.input, x.key, i) ==> i + 1
                < t.children.len() && add_ok(t.children[i + 1], x))
    }
}

impl Node {
    /// Adds the key `x` along its search path (see `spec_add_new_keys`).
    fn add_new_keys(self_node: &mut Node, x: Items)
        requires
            add_ok(old(self_node)@, x@),
        ensures
            final(self_node)@ == spec_add_new_keys(old(self_node)@, x@),
        decreases *old(self_node),
    {
        let ghost t = self_node@;
        let ghost xv = x@;
        proof {
            lemma_views_of_node(*self_node);
        }
        if self_node.children.len() == 0 {
            self_node.input.push(x);
            proof {
                lemma_views_of_node(*self_node);
                assert(self_node@.input =~= t.input.push(xv));
            }
            assert(self_node@ =~= spec_add_new_keys(t, xv));
            return;
        }
        let last = self_node.input.len() - 1;
        assert(t.input[0] == self_node.input@[0]@);
        assert(t.input[last as int] == self_node.input@[last as int]@);
        if x.key < self_node.input[0].key {
            proof {
                assert(decreases_to!(*old(self_node) => old(self_node).children@[0]));
                assert(t.children[0] == self_node.children@[0]@);
            }
            Node::add_new_keys(&mut self_node.children[0], x);
            proof {
                lemma_views_of_node(*self_node);
                assert(self_node@.children =~= t.children.update(0, self_node.children@[0]@));
            }
            assert(self_node@ =~= spec_add_new_keys(t, xv));
        } else if x.key > self_node.input[last].key {
            let lc = self_node.children.len() - 1;
            proof {
                assert(decreases_to!(*old(self_node) => old(self_node).children@[lc as int]));
                assert(t.children[lc as int] == self_node.children@[lc as int]@);
            }
            Node::add_new_keys(&mut self_node.children[lc], x);
            proof {
                lemma_views_of_node(*self_node);
                assert(self_node@.children =~= t.children.update(lc as int, self_node.children@[lc as int]@));
            }
            assert(self_node@ =~= spec_add_new_keys(t, xv));
        } else {
            let mut i: usize = 0;
            while i < last
                invariant
                    i <= last,
                    last == self_node.input@.len() - 1,
                    self_node.input == old(self_node).input,
                    self_node.rank == old(self_node).rank,
                    self_node.children@.len() == old(self_node).children@.len(),
                    t == old(self_node)@,
                    t.input == items_view(self_node.input@),
                    x@ == xv,
                    add_ok(t, xv),
                    t.children.len() > 0,
                    !(xv.key < t.input[0].key),
                    !(xv.key > t.input[t.input.len() - 1].key),
                    forall|c: int|
                        0 <= c < t.children.len() ==> #[trigger] self_node.children@[c]@ == (if 1 <= c
                            <= i && key_in_gap(t.input, xv.key, c - 1) {
                            spec_add_new_keys(t.children[c], xv)
                        } else {
                            t.children[c]
                        }),
                    forall|c: int|
                        0 <= c < t.children.len() && !(1 <= c <= i && key_in_gap(t.input, xv.key, c - 1))
                            ==> #[trigger] self_node.children@[c] == old(self_node).children@[c],
                decreases last - i,
            {
                assert(t.input[i as int] == self_node.input@[i as int]@);
                assert(t.input[i + 1] == self_node.input@[i + 1]@);
                if x.key > self_node.input[i].key && x.key < self_node.input[i + 1].key {
                    let c = i + 1;
                    assert(key_in_gap(t.input, xv.key, c - 1));
                    proof {
                        let ci = c as int;
                        assert(1 <= ci < t.input.len());
                        assert(key_in_gap(t.input, xv.key, ci - 1));
                        assert(ci < t.children.len() && add_ok(t.children[ci], xv));
                    }
                    proof {
                        assert(decreases_to!(*old(self_node) => old(self_node).children@[c as int]));
                        lemma_views_of_node(*old(self_node));
                        assert(t.children[c as int] == old(self_node).children@[c as int]@);
                    }
                    let ghost before = self_node.children@;
                    Node::add_new_keys(&mut self_node.children[c], x.duplicate());
                    assert forall|m: int| 0 <= m < t.children.len() && m != c implies #[trigger] self_node.children@[m] == before[m] by {}
                }
                i += 1;
            }
            proof {
                lemma_views_of_node(*self_node);
            }
            assert(self_node@.children =~= spec_add_new_keys(t, xv).children);
            assert(self_node@ =~= spec_add_new_keys(t, xv));
        }
    }
}

} // verus!

verus! {

/// The key created by an insertion: rank 1, one live version.
pub open spec fn new_item(k: u32, v: String, txn: u32) -> ItemsView {
    ItemsView { key: k, rank: 1, version: seq![fresh_version(v, txn)] }
}

/// The tree after inserting `k` with value `v` for `txn`, and whether a new
/// key was added. When the search path already holds `k`, the insertion is a
/// write of a new version (see `spec_find_update`) and nothing else happens;
/// otherwise the key is added (see `spec_add_new_keys`) and the tree is
/// repaired (see `spec_validate_after_mutation`).
pub open spec fn spec_insert(t: Tree, k: u32, v: String, txn: u32, ns: int) -> (Tree, bool) {
    let (t1, found) = spec_find_update(t, k, Some(v), txn, false);
    if found {
        (t1, false)
    } else {
        (spec_validate_after_mutation(spec_add_new_keys(t, new_item(k, v, txn)), ns), true)
    }
}

/// Each step of the insertion can run (see the `_ok` predicates of the steps).
pub open spec fn insert_ok(t: Tree, k: u32, v: String, txn: u32, ns: int) -> bool {
    &&& find_update_ok(t, k)
    &&& !spec_find_update(t, k, Some(v), txn, false).1 ==> {
        &&& add_ok(t, new_item(k, v, txn))
        &&& validate_ok(spec_add_new_keys(t, new_item(k, v, txn)), ns)
    }
}

/// A write that does not find its key changes nothing.
pub proof fn lemma_find_update_not_found(t: Tree, key: u32, v: Option<String>, txn: u32, delete: bool)
    ensures
        !spec_find_update(t, key, v, txn, delete).1 ==> spec_find_update(t, key, v, txn, delete).0 == t,
    decreases t,
{
    if find_index(t.input, key, 0) is None {
        if let Some(c) = route(t, key) {
            if 0 <= c < t.children.len() {
                lemma_find_update_not_found(t.children[c], key, v, txn, delete);
                assert(t.children.update(c, t.children[c]) =~= t.children);
            }
        }
    }
}

impl Node {
    /// Inserts `k` with value `v` for transaction `txn` (see `insert`),
    /// testing first that each step can run. `None`, with the tree left
    /// partly changed, where a step would read a key that does not exist or
    /// a rank would leave `u32` (see `insert_ok`).
    pub fn try_insert(self_node: &mut Node, k: u32, v: String, txn: u32, node_size: usize) -> (r: Option<bool>)
        ensures
            r is Some <==> insert_ok(old(self_node)@, k, v, txn, node_size as int),
            r is Some ==> final(self_node)@ == spec_insert(old(self_node)@, k, v, txn, node_size as int).0
                && r->0 == spec_insert(old(self_node)@, k, v, txn, node_size as int).1,
    {
        let ghost t = self_node@;
        let ghost vg = v;
        if !self_node.can_write(k) {
            return None;
        }
        let ver = Version::fresh(v.clone(), txn);
        match Node::find_and_update_key_version(self_node, k, Some(v), txn, false) {
            Some(_) => {
                return Some(false);
            },
            None => {
                proof {
                    lemma_find_update_not_found(t, k, Some(vg), txn, false);
                }
                let mut version: Vec<Version> = Vec::new();
                version.push(ver);
                let item = Items { key: k, rank: 1, version };
                assert(item@ =~= new_item(k, vg, txn)) by {
                    assert(item@.version =~= seq![fresh_version(vg, txn)]);
                }
                if !crate::btree::checks::can_add(self_node, &item) {
                    return None;
                }
                Node::add_new_keys(self_node, item);
            },
        }
        if !Node::try_validate_after_mutation(self_node, node_size) {
            return None;
        }
        Some(true)
    }

    /// Inserts `k` with value `v` for transaction `txn`. If the key is already
    /// on its search path, a new version is written instead and `false` is
    /// returned; otherwise the key is added, the tree is repaired with
    /// `node_size` as the largest key count of a node, and `true` is returned.
    pub fn insert(self_node: &mut Node, k: u32, v: String, txn: u32, node_size: usize) -> (inserted: bool)
        requires
            insert_ok(old(self_node)@, k, v, txn, node_size as int),
        ensures
            final(self_node)@ == spec_insert(old(self_node)@, k, v, txn, node_size as int).0,
            inserted == spec_insert(old(self_node)@, k, v, txn, node_size as int).1,
    {
        match Node::try_insert(self_node, k, v, txn, node_size) {
            Some(b) => b,
            None => false,
        }
    }
}

} // verus!
