//! The model of regrouping a node's children when their number does not
//! match its keys: children whose key range encloses another's are moved to
//! the end, the last two children become the new parents, and the other
//! children that fall between the node's keys around one of them move under
//! it.
use vstd::prelude::*;
use crate::btree::tree::{content, forest_content, ItemsView, Tree};

verus! {

broadcast use vstd::seq_lib::group_to_multiset_ensures, vstd::multiset::group_multiset_axioms;

pub open spec fn first_of(x: Tree) -> u32 {
    x.input[0].key
}

pub open spec fn last_of(x: Tree) -> u32 {
    x.input[x.input.len() - 1].key
}

/// `p`'s key range strictly encloses `o`'s.
pub open spec fn encloses(p: Tree, o: Tree) -> bool {
    first_of(p) < first_of(o) && last_of(p) > last_of(o)
}

/// Some child at position `j` or later (below `n`) is enclosed by `p`.
pub open spec fn encloses_some(cs: Seq<Tree>, p: Tree, j: int, n: int) -> bool
    decreases n - j,
{
    if j >= n {
        false
    } else if encloses(p, cs[j]) {
        true
    } else {
        encloses_some(cs, p, j + 1, n)
    }
}

/// The search for an enclosed child from position `j` reads only children
/// that have keys.
pub open spec fn scan_ok(cs: Seq<Tree>, p: Tree, j: int, n: int) -> bool
    decreases n - j,
{
    if j >= n {
        true
    } else {
        cs[j].input.len() > 0 && (encloses(p, cs[j]) || scan_ok(cs, p, j + 1, n))
    }
}

/// Child `i` moves to the end when its range encloses another child's.
pub open spec fn regroup_step(cs: Seq<Tree>, i: int, n: int) -> Seq<Tree> {
    if encloses_some(cs, cs[i], 0, n) {
        cs.push(cs[i]).remove(i)
    } else {
        cs
    }
}

/// The children after examining positions `i` to `n - 1` in turn.
pub open spec fn regroup(cs: Seq<Tree>, i: int, n: int) -> Seq<Tree>
    decreases n - i,
{
    if i >= n {
        cs
    } else {
        regroup(regroup_step(cs, i, n), i + 1, n)
    }
}

/// Examining positions `i` to `n - 1` reads only children that have keys.
pub open spec fn regroup_ok(cs: Seq<Tree>, i: int, n: int) -> bool
    decreases n - i,
{
    if i >= n {
        true
    } else {
        &&& cs[i].input.len() > 0
        &&& scan_ok(cs, cs[i], 0, n)
        &&& regroup_ok(regroup_step(cs, i, n), i + 1, n)
    }
}

/// The last two children in order of their first keys.
pub open spec fn order_last_two(cs: Seq<Tree>) -> Seq<Tree> {
    let m = cs.len();
    if m >= 2 && first_of(cs[m - 2]) > first_of(cs[m - 1]) {
        cs.update(m - 2, cs[m - 1]).update(m - 1, cs[m - 2])
    } else {
        cs
    }
}

/// The last gap `[inp[j'], inp[j' + 1]]` with `j' <= j` that strictly holds
/// the range `lo..hi`, or nothing.
pub open spec fn gap_bounds(inp: Seq<ItemsView>, lo: u32, hi: u32, j: int) -> Seq<u32>
    decreases j + 1,
{
    if j < 0 {
        Seq::empty()
    } else if lo > inp[j].key && hi < inp[j + 1].key {
        seq![inp[j].key, inp[j + 1].key]
    } else {
        gap_bounds(inp, lo, hi, j - 1)
    }
}

/// The range of keys that the children of the new parent `p` must fall in:
/// below the node's first key, above its last key, or in the gap between two
/// of its keys that holds `p`'s range; nothing when no gap holds it.
pub open spec fn child_bounds(inp: Seq<ItemsView>, p: Tree) -> Seq<u32> {
    let lo = first_of(p);
    let hi = last_of(p);
    if hi < inp[0].key {
        seq![0, inp[0].key]
    } else if lo > inp[inp.len() - 1].key {
        seq![inp[inp.len() - 1].key, u32::MAX]
    } else {
        gap_bounds(inp, lo, hi, inp.len() - 2)
    }
}

/// `k`'s key range lies strictly inside the bounds `b`.
pub open spec fn within(k: Tree, b: Seq<u32>) -> bool {
    first_of(k) > b[0] && last_of(k) < b[1]
}

/// `p` with `k` appended to its children.
pub open spec fn adopt(p: Tree, k: Tree) -> Tree {
    Tree { children: p.children.push(k), ..p }
}

/// `steps` more children, from position `j`, are examined: one within the
/// bounds of a new parent moves under it, otherwise the next one is examined.
pub open spec fn distribute(cs: Seq<Tree>, j: int, steps: nat, b1: Seq<u32>, b2: Seq<u32>) -> Seq<Tree>
    decreases steps,
{
    if steps == 0 {
        cs
    } else {
        let m = cs.len();
        let k = cs[j];
        if within(k, b1) {
            distribute(cs.update(m - 2, adopt(cs[m - 2], k)).remove(j), j, (steps - 1) as nat, b1, b2)
        } else if within(k, b2) {
            distribute(cs.update(m - 1, adopt(cs[m - 1], k)).remove(j), j, (steps - 1) as nat, b1, b2)
        } else {
            distribute(cs, j + 1, (steps - 1) as nat, b1, b2)
        }
    }
}

/// The examination reads only children that have keys and bounds that exist.
pub open spec fn distribute_ok(cs: Seq<Tree>, j: int, steps: nat, b1: Seq<u32>, b2: Seq<u32>) -> bool
    decreases steps,
{
    steps == 0 || {
        let m = cs.len();
        let k = cs[j];
        &&& k.input.len() > 0
        &&& b1.len() > 0
        &&& (!within(k, b1) ==> b2.len() > 0)
        &&& if within(k, b1) {
            distribute_ok(cs.update(m - 2, adopt(cs[m - 2], k)).remove(j), j, (steps - 1) as nat, b1, b2)
        } else if within(k, b2) {
            distribute_ok(cs.update(m - 1, adopt(cs[m - 1], k)).remove(j), j, (steps - 1) as nat, b1, b2)
        } else {
            distribute_ok(cs, j + 1, (steps - 1) as nat, b1, b2)
        }
    }
}

/// The children after the overlap pass and the ordering of the last two.
pub open spec fn regrouped_children(t: Tree) -> Seq<Tree> {
    order_last_two(regroup(t.children, 0, t.children.len() as int))
}

pub open spec fn parent_one_bounds(t: Tree) -> Seq<u32> {
    let b = regrouped_children(t);
    child_bounds(t.input, b[b.len() - 2])
}

pub open spec fn parent_two_bounds(t: Tree) -> Seq<u32> {
    let b = regrouped_children(t);
    child_bounds(t.input, b[b.len() - 1])
}

/// The node with its children regrouped under the last two of them.
pub open spec fn spec_fix_child_count_mismatch(t: Tree) -> Tree {
    let b = regrouped_children(t);
    Tree {
        children: distribute(b, 0, (b.len() - 2) as nat, parent_one_bounds(t), parent_two_bounds(t)),
        ..t
    }
}

/// Regrouping reads only what exists: at least two children, a key in the
/// node, keys in every child it examines, and the bounds it compares with.
pub open spec fn fix_ok(t: Tree) -> bool {
    let n = t.children.len() as int;
    let b = regrouped_children(t);
    &&& n >= 2
    &&& t.input.len() > 0
    &&& regroup_ok(t.children, 0, n)
    &&& b[n - 2].input.len() > 0
    &&& b[n - 1].input.len() > 0
    &&& distribute_ok(b, 0, (n - 2) as nat, parent_one_bounds(t), parent_two_bounds(t))
}

pub proof fn lemma_regroup_len(cs: Seq<Tree>, i: int, n: int)
    requires
        0 <= i,
        n == cs.len(),
    ensures
        regroup(cs, i, n).len() == cs.len(),
        regroup(cs, i, n).to_multiset() == cs.to_multiset(),
    decreases n - i,
{
    if i < n {
        let s = regroup_step(cs, i, n);
        if encloses_some(cs, cs[i], 0, n) {
            assert(cs.push(cs[i]).remove(i).to_multiset() == cs.push(cs[i]).to_multiset().remove(
                cs.push(cs[i])[i],
            ));
            assert(cs.push(cs[i]).to_multiset() == cs.to_multiset().insert(cs[i]));
            assert(s.to_multiset() =~= cs.to_multiset());
        }
        lemma_regroup_len(s, i + 1, n);
    }
}

} // verus!

verus! {

pub proof fn lemma_adopt_content(p: Tree, k: Tree)
    ensures
        content(adopt(p, k)) == content(p).add(content(k)),
{
    crate::btree::tree::lemma_forest_push(p.children, k);
    assert(content(adopt(p, k)) =~= content(p).add(content(k)));
}

/// Replacing position `i` changes the entries by what it held and what
/// replaces it.
pub proof fn lemma_forest_update(cs: Seq<Tree>, i: int, x: Tree)
    requires
        0 <= i < cs.len(),
    ensures
        forest_content(cs.update(i, x)).add(content(cs[i])) == forest_content(cs).add(content(x)),
{
    crate::btree::tree::lemma_forest_remove(cs, i);
    crate::btree::tree::lemma_forest_remove(cs.update(i, x), i);
    assert(cs.update(i, x).remove(i) =~= cs.remove(i));
    assert(forest_content(cs.update(i, x)).add(content(cs[i])) =~= forest_content(cs).add(content(x)));
}

proof fn lemma_move_under(cs: Seq<Tree>, j: int, p: int)
    requires
        0 <= j < p < cs.len(),
    ensures
        forest_content(cs.update(p, adopt(cs[p], cs[j])).remove(j)) == forest_content(cs),
{
    let k = cs[j];
    let x = adopt(cs[p], k);
    let u = cs.update(p, x);
    lemma_forest_update(cs, p, x);
    lemma_adopt_content(cs[p], k);
    crate::btree::tree::lemma_forest_remove(u, j);
    assert(u[j] == k);
    let fu = forest_content(u);
    let fc = forest_content(cs);
    let cp = content(cs[p]);
    let ck = content(k);
    assert(fu.add(cp) == fc.add(cp.add(ck)));
    assert forall|v| #[trigger] fu.count(v) == fc.add(ck).count(v) by {
        assert(fu.add(cp).count(v) == fc.add(cp.add(ck)).count(v));
    }
    assert(fu =~= fc.add(ck));
    let fr = forest_content(u.remove(j));
    assert(fr.add(ck) == fu);
    assert forall|v| #[trigger] fr.count(v) == fc.count(v) by {
        assert(fr.add(ck).count(v) == fu.count(v));
    }
    assert(fr =~= fc);
}

/// Moving a child under a new parent keeps every entry.
pub proof fn lemma_distribute_content(cs: Seq<Tree>, j: int, steps: nat, b1: Seq<u32>, b2: Seq<u32>)
    requires
        0 <= j,
        cs.len() == j + steps + 2,
    ensures
        forest_content(distribute(cs, j, steps, b1, b2)) == forest_content(cs),
    decreases steps,
{
    if steps > 0 {
        let m = cs.len() as int;
        let k = cs[j];
        if within(k, b1) || within(k, b2) {
            let p = if within(k, b1) { m - 2 } else { m - 1 };
            lemma_move_under(cs, j, p);
            lemma_distribute_content(cs.update(p, adopt(cs[p], k)).remove(j), j, (steps - 1) as nat, b1, b2);
        } else {
            lemma_distribute_content(cs, j + 1, (steps - 1) as nat, b1, b2);
        }
    }
}

/// Regrouping the children of a node (with at least two children) keeps
/// every entry of the tree.
pub proof fn law_fix_child_count_mismatch_preserves_content(t: Tree)
    requires
        t.children.len() >= 2,
    ensures
        content(spec_fix_child_count_mismatch(t)) == content(t),
{
    let n = t.children.len() as int;
    let a = regroup(t.children, 0, n);
    lemma_regroup_len(t.children, 0, n);
    crate::btree::tree::lemma_forest_perm(a, t.children);
    let b = order_last_two(a);
    assert(b.to_multiset() == a.to_multiset()) by {
        if b != a {
            let m = a.len() as int;
            assert(a.update(m - 2, a[m - 1]).to_multiset() == a.to_multiset().insert(a[m - 1]).remove(
                a[m - 2],
            ));
            assert(a.update(m - 2, a[m - 1]).update(m - 1, a[m - 2]).to_multiset()
                == a.update(m - 2, a[m - 1]).to_multiset().insert(a[m - 2]).remove(a[m - 1]));
            assert(b.to_multiset() =~= a.to_multiset());
        }
    }
    crate::btree::tree::lemma_forest_perm(b, a);
    lemma_distribute_content(b, 0, (b.len() - 2) as nat, parent_one_bounds(t), parent_two_bounds(t));
    assert(content(spec_fix_child_count_mismatch(t)) =~= content(t));
}

} // verus!
