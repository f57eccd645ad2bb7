//! The view of the tree as of a transaction threshold, used when it is
//! saved.
use vstd::prelude::*;
use crate::btree::node::Node;
use crate::btree::tree::{lemma_tree_of, lemma_views_of_node, ItemsView, Tree};
use crate::mvcc::versions::Version;

verus! {

broadcast use vstd::seq_lib::group_filter_ensures;

/// A version as of `thr`: an end after `thr` is forgotten.
pub open spec fn cap_xmax(v: Version, thr: u32) -> Version {
    match v.xmax {
        Some(x) => if x > thr {
            Version { xmax: None, ..v }
        } else {
            v
        },
        None => v,
    }
}

pub open spec fn cap_fn(thr: u32) -> spec_fn(Version) -> Version {
    |v: Version| cap_xmax(v, thr)
}

pub open spec fn started_fn(thr: u32) -> spec_fn(Version) -> bool {
    |v: Version| v.xmin <= thr
}

/// The versions of a key as of `thr`: ends after `thr` forgotten, versions
/// created after `thr` dropped.
pub open spec fn snapshot_versions(vs: Seq<Version>, thr: u32) -> Seq<Version> {
    vs.map_values(cap_fn(thr)).filter(started_fn(thr))
}

pub open spec fn snapshot_item(it: ItemsView, thr: u32) -> ItemsView {
    ItemsView { version: snapshot_versions(it.version, thr), ..it }
}

/// The whole tree as of `thr`.
pub open spec fn spec_fetch_serializable_btree(t: Tree, thr: u32) -> Tree
    decreases t,
{
    Tree {
        input: t.input.map_values(|it: ItemsView| snapshot_item(it, thr)),
        rank: t.rank,
        children: Seq::new(
            t.children.len(),
            |i: int|
                if 0 <= i < t.children.len() {
                    spec_fetch_serializable_btree(t.children[i], thr)
                } else {
                    t
                },
        ),
    }
}

/// Rewrites the versions of a key as of `thr`.
fn snapshot_version_list(v: &mut Vec<Version>, thr: u32)
    ensures
        final(v)@ == snapshot_versions(old(v)@, thr),
{
    let ghost o = v@;
    let ghost m = o.map_values(cap_fn(thr));
    let mut src: Vec<Version> = Vec::new();
    std::mem::swap(&mut src, v);
    let ghost n = src@.len();
    assert(n == src.len());
    let mut i: usize = 0;
    assert(o.skip(0) =~= o);
    assert(m.take(0).filter(started_fn(thr)) =~= Seq::<Version>::empty()) by {
        reveal_with_fuel(Seq::<_>::filter, 1);
    }
    while src.len() > 0
        invariant
            src@ == o.skip(i as int),
            src@.len() + i == n,
            n == o.len(),
            n <= usize::MAX,
            m == o.map_values(cap_fn(thr)),
            v@ == m.take(i as int).filter(started_fn(thr)),
        decreases src@.len(),
    {
        let mut x = src.remove(0);
        assert(x == o[i as int]) by {
            assert(o.skip(i as int)[0] == o[i as int]);
        }
        assert(src@ =~= o.skip(i + 1));
        match x.xmax {
            Some(xmax) => {
                if xmax > thr {
                    x.xmax = None;
                }
            },
            None => {},
        }
        assert(x == m[i as int]);
        proof {
            assert(m.take(i + 1) =~= m.take(i as int).push(m[i as int]));
            m.take(i as int).lemma_filter_push(m[i as int], started_fn(thr));
        }
        if x.xmin <= thr {
            v.push(x);
        }
        i += 1;
    }
    assert(m.take(i as int) =~= m);
}

/// Rewrites every version of every key of the tree as of `xmax_threshold`:
/// an end after the threshold is forgotten and a version created after it is
/// dropped.
pub fn fetch_serializable_btree(node: &mut Node, xmax_threshold: u32)
    ensures
        final(node)@ == spec_fetch_serializable_btree(old(node)@, xmax_threshold),
    decreases *old(node),
{
    let mut i: usize = 0;
    while i < node.input.len()
        invariant
            i <= node.input@.len(),
            node.input@.len() == old(node).input@.len(),
            node.children == old(node).children,
            node.rank == old(node).rank,
            forall|k: int|
                0 <= k < i ==> #[trigger] node.input@[k]@ == snapshot_item(old(node).input@[k]@, xmax_threshold),
            forall|k: int| i <= k < node.input@.len() ==> #[trigger] node.input@[k] == old(node).input@[k],
        decreases node.input@.len() - i,
    {
        snapshot_version_list(&mut node.input[i].version, xmax_threshold);
        i += 1;
    }
    proof {
        lemma_views_of_node(*node);
        lemma_views_of_node(*old(node));
    }
    let ghost input_view = node@.input;
    assert(input_view =~= spec_fetch_serializable_btree(old(node)@, xmax_threshold).input);
    let ghost mid = node.children@;
    let mut j: usize = 0;
    while j < node.children.len()
        invariant
            j <= node.children@.len(),
            node.children@.len() == mid.len(),
            mid == old(node).children@,
            node@.input == input_view,
            node.rank == old(node).rank,
            forall|c: int| j <= c < mid.len() ==> node.children@[c] == mid[c],
            forall|c: int|
                0 <= c < j ==> #[trigger] node.children@[c]@ == spec_fetch_serializable_btree(mid[c]@, xmax_threshold),
        decreases node.children@.len() - j,
    {
        proof {
            assert(decreases_to!(*old(node) => old(node).children@[j as int]));
        }
        fetch_serializable_btree(&mut node.children[j], xmax_threshold);
        j += 1;
    }
    proof {
        lemma_views_of_node(*node);
        lemma_tree_of(*old(node));
    }
    assert(node@.children =~= spec_fetch_serializable_btree(old(node)@, xmax_threshold).children);
    assert(node@ =~= spec_fetch_serializable_btree(old(node)@, xmax_threshold));
}

/// Every version left by the snapshot was created at or before the
/// threshold and, if it has ended, ended at or before it.
pub open spec fn within_threshold(vs: Seq<Version>, thr: u32) -> bool {
    forall|j: int|
        0 <= j < vs.len() ==> (#[trigger] vs[j]).xmin <= thr && match vs[j].xmax {
            Some(x) => x <= thr,
            None => true,
        }
}

/// After the snapshot, every version of a key lies within the threshold,
/// and taking the snapshot again changes nothing.
pub proof fn law_snapshot_versions(vs: Seq<Version>, thr: u32)
    ensures
        within_threshold(snapshot_versions(vs, thr), thr),
        snapshot_versions(snapshot_versions(vs, thr), thr) == snapshot_versions(vs, thr),
{
    let s = snapshot_versions(vs, thr);
    let m = vs.map_values(cap_fn(thr));
    assert forall|j: int| 0 <= j < s.len() implies (#[trigger] s[j]).xmin <= thr && match s[j].xmax {
        Some(x) => x <= thr,
        None => true,
    } by {
        assert(started_fn(thr)(s[j]));
        assert(m.filter(started_fn(thr)).contains(s[j]));
        Seq::lemma_filter_contains_rev(m, started_fn(thr), s[j]);
        let w = choose|w: int| 0 <= w < m.len() && m[w] == s[j];
        assert(m[w] == cap_xmax(vs[w], thr));
    }
    let m2 = s.map_values(cap_fn(thr));
    assert forall|j: int| 0 <= j < s.len() implies #[trigger] m2[j] == s[j] by {
        assert(s[j].xmin <= thr);
    }
    assert(m2 =~= s);
    assert forall|j: int| 0 <= j < s.len() implies started_fn(thr)(#[trigger] s[j]) by {}
    crate::btree::repair::lemma_filter_all_pass(s, started_fn(thr));
}

/// Every version of every key of every node lies within the threshold.
pub open spec fn tree_within_threshold(t: Tree, thr: u32) -> bool
    decreases t,
{
    &&& forall|i: int| 0 <= i < t.input.len() ==> within_threshold(#[trigger] t.input[i].version, thr)
    &&& forall|c: int| 0 <= c < t.children.len() ==> tree_within_threshold(#[trigger] t.children[c], thr)
}

/// After the snapshot, no version anywhere in the tree, in the root or in
/// any node below it, was created or ended after the threshold.
pub proof fn law_snapshot_whole_tree(t: Tree, thr: u32)
    ensures
        tree_within_threshold(spec_fetch_serializable_btree(t, thr), thr),
        spec_fetch_serializable_btree(t, thr).children.len() == t.children.len(),
        spec_fetch_serializable_btree(t, thr).input.len() == t.input.len(),
    decreases t,
{
    let r = spec_fetch_serializable_btree(t, thr);
    assert forall|i: int| 0 <= i < r.input.len() implies within_threshold(#[trigger] r.input[i].version, thr) by {
        assert(r.input[i] == snapshot_item(t.input[i], thr));
        law_snapshot_versions(t.input[i].version, thr);
    }
    assert forall|c: int| 0 <= c < r.children.len() implies tree_within_threshold(#[trigger] r.children[c], thr) by {
        law_snapshot_whole_tree(t.children[c], thr);
    }
}

} // verus!
