//! Garbage collection of versions no transaction can see any more.
use vstd::prelude::*;
use crate::btree::node::Node;
use crate::btree::tree::{items_view, lemma_tree_of, lemma_views_of_node, ItemsView, Tree};
use crate::mvcc::versions::Version;

verus! {

/// A version is still needed when it has not ended, or ended at or after the
/// oldest active transaction.
pub open spec fn alive(v: Version, oldest: u32) -> bool {
    match v.xmax {
        Some(x) => x >= oldest,
        None => true,
    }
}

pub open spec fn alive_fn(oldest: u32) -> spec_fn(Version) -> bool {
    |v: Version| alive(v, oldest)
}

/// A key with only its needed versions, in their order.
pub open spec fn gc_item(it: ItemsView, oldest: u32) -> ItemsView {
    ItemsView { version: it.version.filter(alive_fn(oldest)), ..it }
}

/// A node with only the needed versions of each of its keys.
pub open spec fn spec_retain_active_txd(t: Tree, oldest: u32) -> Tree {
    Tree { input: t.input.map_values(|it: ItemsView| gc_item(it, oldest)), ..t }
}

/// The tree with only the needed versions of every key of every node.
pub open spec fn spec_remove_dead_version(t: Tree, oldest: u32) -> Tree
    decreases t,
{
    Tree {
        input: t.input.map_values(|it: ItemsView| gc_item(it, oldest)),
        rank: t.rank,
        children: Seq::new(
            t.children.len(),
            |i: int|
                if 0 <= i < t.children.len() {
                    spec_remove_dead_version(t.children[i], oldest)
                } else {
                    t
                },
        ),
    }
}

/// Keeps, in order, the versions of `v` that are still needed.
fn retain_alive(v: &mut Vec<Version>, oldest: u32)
    ensures
        final(v)@ == old(v)@.filter(alive_fn(oldest)),
{
    let ghost o = v@;
    let mut src: Vec<Version> = Vec::new();
    std::mem::swap(&mut src, v);
    let ghost n = src@.len();
    assert(n == src.len());
    let mut i: usize = 0;
    assert(o.skip(0) =~= o);
    assert(o.take(0).filter(alive_fn(oldest)) =~= Seq::<Version>::empty()) by {
        reveal_with_fuel(Seq::<_>::filter, 1);
    }
    while src.len() > 0
        invariant
            src@ == o.skip(i as int),
            src@.len() + i == n,
            n == o.len(),
            n <= usize::MAX,
            v@ == o.take(i as int).filter(alive_fn(oldest)),
        decreases src@.len(),
    {
        let x = src.remove(0);
        assert(x == o[i as int]) by {
            assert(o.skip(i as int)[0] == o[i as int]);
        }
        assert(src@ =~= o.skip(i + 1));
        proof {
            assert(o.take(i + 1) =~= o.take(i as int).push(o[i as int]));
            o.take(i as int).lemma_filter_push(o[i as int], alive_fn(oldest));
        }
        let keep = match x.xmax {
            Some(x_max) => x_max >= oldest,
            None => true,
        };
        if keep {
            v.push(x);
        }
        i += 1;
    }
    assert(o.take(i as int) =~= o);
}

/// Drops, from every key of this node, the versions that ended before
/// `oldest_active_txd`.
pub fn retain_active_txd(node: &mut Node, oldest_active_txd: u32)
    ensures
        final(node)@ == spec_retain_active_txd(old(node)@, oldest_active_txd),
        final(node).children == old(node).children,
{
    let mut i: usize = 0;
    while i < node.input.len()
        invariant
            i <= node.input@.len(),
            node.input@.len() == old(node).input@.len(),
            node.children == old(node).children,
            node.rank == old(node).rank,
            forall|k: int|
                0 <= k < i ==> #[trigger] node.input@[k]@ == gc_item(old(node).input@[k]@, oldest_active_txd),
            forall|k: int| i <= k < node.input@.len() ==> #[trigger] node.input@[k] == old(node).input@[k],
        decreases node.input@.len() - i,
    {
        retain_alive(&mut node.input[i].version, oldest_active_txd);
        i += 1;
    }
    proof {
        lemma_views_of_node(*node);
        lemma_views_of_node(*old(node));
    }
    assert(node@.input =~= spec_retain_active_txd(old(node)@, oldest_active_txd).input);
    assert(node@ =~= spec_retain_active_txd(old(node)@, oldest_active_txd));
}

/// Drops, from every key of every node, the versions that ended before
/// `oldest_active_txd`.
pub fn remove_dead_version(node: &mut Node, oldest_active_txd: u32)
    ensures
        final(node)@ == spec_remove_dead_version(old(node)@, oldest_active_txd),
    decreases *old(node),
{
    retain_active_txd(node, oldest_active_txd);
    let ghost mid = node.children@;
    let ghost after_retain = node@;
    let mut i: usize = 0;
    while i < node.children.len()
        invariant
            i <= node.children@.len(),
            node.children@.len() == mid.len(),
            mid == old(node).children@,
            node@.input == after_retain.input,
            after_retain == spec_retain_active_txd(old(node)@, oldest_active_txd),
            node.rank == old(node).rank,
            forall|j: int| i <= j < mid.len() ==> node.children@[j] == mid[j],
            forall|j: int|
                0 <= j < i ==> #[trigger] node.children@[j]@ == spec_remove_dead_version(mid[j]@, oldest_active_txd),
        decreases node.children@.len() - i,
    {
        proof {
            assert(decreases_to!(*old(node) => old(node).children@[i as int]));
        }
        remove_dead_version(&mut node.children[i], oldest_active_txd);
        i += 1;
    }
    proof {
        lemma_views_of_node(*node);
        lemma_views_of_node(*old(node));
        lemma_tree_of(*node);
    }
    assert(node@.input =~= spec_remove_dead_version(old(node)@, oldest_active_txd).input);
    assert(node@.children =~= spec_remove_dead_version(old(node)@, oldest_active_txd).children);
    assert(node@ =~= spec_remove_dead_version(old(node)@, oldest_active_txd));
}

} // verus!

verus! {

broadcast use vstd::seq_lib::group_filter_ensures;

/// No version anywhere in the tree ended before `oldest`.
pub open spec fn no_dead_versions(t: Tree, oldest: u32) -> bool
    decreases t,
{
    &&& forall|i: int, j: int|
        0 <= i < t.input.len() && 0 <= j < t.input[i].version.len() ==> alive(
            #[trigger] t.input[i].version[j],
            oldest,
        )
    &&& forall|c: int| 0 <= c < t.children.len() ==> no_dead_versions(#[trigger] t.children[c], oldest)
}

/// After garbage collection no version in the tree ended before the oldest
/// active transaction, and collecting again changes nothing.
pub proof fn law_remove_dead_version(t: Tree, oldest: u32)
    ensures
        no_dead_versions(spec_remove_dead_version(t, oldest), oldest),
        spec_remove_dead_version(spec_remove_dead_version(t, oldest), oldest) == spec_remove_dead_version(t, oldest),
    decreases t,
{
    let r = spec_remove_dead_version(t, oldest);
    let rr = spec_remove_dead_version(r, oldest);
    assert forall|i: int, j: int|
        0 <= i < r.input.len() && 0 <= j < r.input[i].version.len() implies alive(
        #[trigger] r.input[i].version[j],
        oldest,
    ) by {
        assert(r.input[i] == gc_item(t.input[i], oldest));
        assert(alive_fn(oldest)(t.input[i].version.filter(alive_fn(oldest))[j]));
    }
    assert forall|c: int| 0 <= c < r.children.len() implies no_dead_versions(#[trigger] r.children[c], oldest)
        && rr.children[c] == r.children[c] by {
        law_remove_dead_version(t.children[c], oldest);
    }
    assert forall|i: int| 0 <= i < r.input.len() implies #[trigger] rr.input[i] == r.input[i] by {
        let f = t.input[i].version.filter(alive_fn(oldest));
        assert forall|j: int| 0 <= j < f.len() implies alive_fn(oldest)(#[trigger] f[j]) by {}
        crate::btree::repair::lemma_filter_all_pass(f, alive_fn(oldest));
    }
    assert(rr.input =~= r.input);
    assert(rr.children =~= r.children);
    assert(no_dead_versions(r, oldest));
}

pub open spec fn unended_fn() -> spec_fn(Version) -> bool {
    |v: Version| v.xmax is None
}

/// Every key of `b` has, in order, the same versions without an end as the
/// key at the same place in `a`, in every node.
pub open spec fn same_unended_versions(a: Tree, b: Tree) -> bool
    decreases a,
{
    &&& a.input.len() == b.input.len()
    &&& forall|i: int|
        0 <= i < a.input.len() ==> (#[trigger] b.input[i]).version.filter(unended_fn()) == a.input[i].version.filter(
            unended_fn(),
        ) && b.input[i].key == a.input[i].key
    &&& a.children.len() == b.children.len()
    &&& forall|c: int| 0 <= c < a.children.len() ==> same_unended_versions(#[trigger] a.children[c], b.children[c])
}

/// Keeping the versions that pass `p` keeps every version without an end
/// when each of those passes `p`.
proof fn lemma_filter_keeps_unended(vs: Seq<Version>, p: spec_fn(Version) -> bool)
    requires
        forall|v: Version| v.xmax is None ==> #[trigger] p(v),
    ensures
        vs.filter(p).filter(unended_fn()) == vs.filter(unended_fn()),
    decreases vs.len(),
{
    reveal_with_fuel(Seq::<_>::filter, 1);
    if vs.len() == 0 {
        assert(vs.filter(p).filter(unended_fn()) =~= vs.filter(unended_fn()));
    } else {
        let d = vs.drop_last();
        let x = vs.last();
        lemma_filter_keeps_unended(d, p);
        assert(vs =~= d.push(x));
        d.lemma_filter_push(x, p);
        d.lemma_filter_push(x, unended_fn());
        if p(x) {
            d.filter(p).lemma_filter_push(x, unended_fn());
        }
    }
}

/// Garbage collection never drops a version that has not ended: in every
/// node, every key keeps, in order, exactly the versions without an end it
/// had, whatever transaction wrote them.
pub proof fn law_gc_keeps_unended_versions(t: Tree, oldest: u32)
    ensures
        same_unended_versions(t, spec_remove_dead_version(t, oldest)),
    decreases t,
{
    let r = spec_remove_dead_version(t, oldest);
    assert forall|i: int| 0 <= i < t.input.len() implies (#[trigger] r.input[i]).version.filter(unended_fn())
        == t.input[i].version.filter(unended_fn()) && r.input[i].key == t.input[i].key by {
        assert(r.input[i] == gc_item(t.input[i], oldest));
        lemma_filter_keeps_unended(t.input[i].version, alive_fn(oldest));
    }
    assert forall|c: int| 0 <= c < t.children.len() implies same_unended_versions(#[trigger] t.children[c], r.children[c]) by {
        law_gc_keeps_unended_versions(t.children[c], oldest);
    }
}

pub open spec fn ended_from_fn(oldest: u32) -> spec_fn(Version) -> bool {
    |v: Version| v.xmax matches Some(x) && x >= oldest
}

/// Keeping the versions that pass `p` keeps, in order, every version that
/// passes `q`, when each of those passes `p`.
proof fn lemma_filter_keeps(vs: Seq<Version>, p: spec_fn(Version) -> bool, q: spec_fn(Version) -> bool)
    requires
        forall|v: Version| #[trigger] q(v) ==> p(v),
    ensures
        vs.filter(p).filter(q) == vs.filter(q),
    decreases vs.len(),
{
    reveal_with_fuel(Seq::<_>::filter, 1);
    if vs.len() == 0 {
        assert(vs.filter(p).filter(q) =~= vs.filter(q));
    } else {
        let d = vs.drop_last();
        let x = vs.last();
        lemma_filter_keeps(d, p, q);
        assert(vs =~= d.push(x));
        d.lemma_filter_push(x, p);
        d.lemma_filter_push(x, q);
        if p(x) {
            d.filter(p).lemma_filter_push(x, q);
        }
    }
}

/// Garbage collection keeps every version that ended at or after the oldest
/// active transaction, in order, and drops every version that ended before
/// it: of each key it keeps the versions with no end or a late end.
pub proof fn law_gc_keeps_late_ended_versions(vs: Seq<Version>, oldest: u32)
    ensures
        gc_item(ItemsView { key: 0, rank: 0, version: vs }, oldest).version.filter(ended_from_fn(oldest))
            == vs.filter(ended_from_fn(oldest)),
        forall|j: int|
            0 <= j < gc_item(ItemsView { key: 0, rank: 0, version: vs }, oldest).version.len() ==> match (
            #[trigger] gc_item(ItemsView { key: 0, rank: 0, version: vs }, oldest).version[j]).xmax {
                Some(x) => x >= oldest,
                None => true,
            },
{
    lemma_filter_keeps(vs, alive_fn(oldest), ended_from_fn(oldest));
    let r = vs.filter(alive_fn(oldest));
    assert forall|j: int| 0 <= j < r.len() implies match (#[trigger] r[j]).xmax {
        Some(x) => x >= oldest,
        None => true,
    } by {
        assert(alive_fn(oldest)(r[j]));
    }
}

} // verus!
