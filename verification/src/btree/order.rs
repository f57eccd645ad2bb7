//! Stable sorting by an integer key: the definition, and the facts that its
//! result is an ordered rearrangement of its input.
use vstd::prelude::*;

verus! {

broadcast use vstd::seq_lib::group_to_multiset_ensures, vstd::multiset::group_multiset_axioms;

/// `x` placed after the last element of `s`, counted from the end, whose key
/// is not greater than its own.
pub open spec fn insert_sorted<A>(s: Seq<A>, x: A, key: spec_fn(A) -> int) -> Seq<A>
    decreases s.len(),
{
    if s.len() == 0 {
        seq![x]
    } else if key(s.last()) <= key(x) {
        s.push(x)
    } else {
        insert_sorted(s.drop_last(), x, key).push(s.last())
    }
}

/// The stable sort of `s` by `key`: ordered by key, and elements with equal
/// keys keep their relative order.
pub open spec fn stable_sort<A>(s: Seq<A>, key: spec_fn(A) -> int) -> Seq<A>
    decreases s.len(),
{
    if s.len() == 0 {
        s
    } else {
        insert_sorted(stable_sort(s.drop_last(), key), s.last(), key)
    }
}

pub open spec fn sorted_by<A>(s: Seq<A>, key: spec_fn(A) -> int) -> bool {
    forall|i: int, j: int| 0 <= i <= j < s.len() ==> key(s[i]) <= key(s[j])
}

pub proof fn lemma_insert_sorted_at<A>(p: Seq<A>, x: A, key: spec_fn(A) -> int, j: int)
    requires
        0 <= j <= p.len(),
        j == 0 || key(p[j - 1]) <= key(x),
        forall|k: int| j <= k < p.len() ==> key(p[k]) > key(x),
    ensures
        insert_sorted(p, x, key) == p.take(j).push(x) + p.skip(j),
    decreases p.len(),
{
    if p.len() == j {
        if j == 0 {
            assert(p.take(j).push(x) + p.skip(j) =~= seq![x]);
        } else {
            assert(p.take(j).push(x) + p.skip(j) =~= p.push(x));
        }
    } else {
        assert(key(p.last()) > key(x));
        lemma_insert_sorted_at(p.drop_last(), x, key, j);
        assert(p.drop_last().take(j) =~= p.take(j));
        assert((p.drop_last().take(j).push(x) + p.drop_last().skip(j)).push(p.last()) =~= p.take(
            j,
        ).push(x) + p.skip(j));
    }
}

pub proof fn lemma_insert_sorted_perm<A>(s: Seq<A>, x: A, key: spec_fn(A) -> int)
    ensures
        insert_sorted(s, x, key).to_multiset() == s.to_multiset().insert(x),
        insert_sorted(s, x, key).len() == s.len() + 1,
    decreases s.len(),
{
    if s.len() == 0 {
        assert(seq![x] =~= Seq::<A>::empty().push(x));
        assert(Seq::<A>::empty().to_multiset() =~= vstd::multiset::Multiset::empty());
    } else if key(s.last()) <= key(x) {
    } else {
        lemma_insert_sorted_perm(s.drop_last(), x, key);
        assert(s.drop_last().push(s.last()) =~= s);
        assert(insert_sorted(s, x, key).to_multiset() =~= s.to_multiset().insert(x));
    }
}

pub proof fn lemma_stable_sort_perm<A>(s: Seq<A>, key: spec_fn(A) -> int)
    ensures
        stable_sort(s, key).to_multiset() == s.to_multiset(),
        stable_sort(s, key).len() == s.len(),
    decreases s.len(),
{
    if s.len() > 0 {
        lemma_stable_sort_perm(s.drop_last(), key);
        lemma_insert_sorted_perm(stable_sort(s.drop_last(), key), s.last(), key);
        assert(s.drop_last().push(s.last()) =~= s);
    }
}

pub proof fn lemma_insert_sorted_sorted<A>(s: Seq<A>, x: A, key: spec_fn(A) -> int)
    requires
        sorted_by(s, key),
    ensures
        sorted_by(insert_sorted(s, x, key), key),
        forall|i: int|
            0 <= i < insert_sorted(s, x, key).len() ==> #[trigger] key(
                insert_sorted(s, x, key)[i],
            ) == key(x) || exists|k: int| 0 <= k < s.len() && key(s[k]) == key(
                insert_sorted(s, x, key)[i],
            ),
    decreases s.len(),
{
    lemma_insert_sorted_perm(s, x, key);
    if s.len() == 0 {
    } else if key(s.last()) <= key(x) {
        let r = s.push(x);
        assert forall|i: int| 0 <= i < r.len() implies #[trigger] key(r[i]) == key(x) || exists|
            k: int,
        | 0 <= k < s.len() && key(s[k]) == key(r[i]) by {
            if i < s.len() {
                assert(key(s[i]) == key(r[i]));
            }
        }
    } else {
        let p = s.drop_last();
        lemma_insert_sorted_sorted(p, x, key);
        let q = insert_sorted(p, x, key);
        let r = q.push(s.last());
        assert forall|i: int, j: int| 0 <= i <= j < r.len() implies key(r[i]) <= key(r[j]) by {
            if j == r.len() - 1 && i < j {
                if key(q[i]) == key(x) {
                } else {
                    let k = choose|k: int| 0 <= k < p.len() && key(p[k]) == key(q[i]);
                    assert(key(s[k]) <= key(s[s.len() - 1]));
                }
            }
        }
        assert forall|i: int| 0 <= i < r.len() implies #[trigger] key(r[i]) == key(x) || exists|
            k: int,
        | 0 <= k < s.len() && key(s[k]) == key(r[i]) by {
            if i == r.len() - 1 {
                assert(key(s[s.len() - 1]) == key(r[i]));
            } else {
                if key(q[i]) != key(x) {
                    let k = choose|k: int| 0 <= k < p.len() && key(p[k]) == key(q[i]);
                    assert(key(s[k]) == key(r[i]));
                }
            }
        }
    }
}

pub proof fn lemma_stable_sort_sorted<A>(s: Seq<A>, key: spec_fn(A) -> int)
    ensures
        sorted_by(stable_sort(s, key), key),
    decreases s.len(),
{
    if s.len() > 0 {
        lemma_stable_sort_sorted(s.drop_last(), key);
        lemma_insert_sorted_sorted(stable_sort(s.drop_last(), key), s.last(), key);
    }
}

pub proof fn lemma_insert_sorted_map<A, B>(
    s: Seq<A>,
    x: A,
    f: spec_fn(A) -> B,
    ka: spec_fn(A) -> int,
    kb: spec_fn(B) -> int,
)
    requires
        forall|y: A| #[trigger] kb(f(y)) == ka(y),
    ensures
        insert_sorted(s, x, ka).map_values(f) == insert_sorted(s.map_values(f), f(x), kb),
    decreases s.len(),
{
    let t = s.map_values(f);
    if s.len() == 0 {
        assert(seq![x].map_values(f) =~= seq![f(x)]);
    } else {
        assert(t.last() == f(s.last()));
        assert(kb(t.last()) == ka(s.last()));
        assert(kb(f(x)) == ka(x));
        assert(t.drop_last() =~= s.drop_last().map_values(f));
        if ka(s.last()) <= ka(x) {
            assert(s.push(x).map_values(f) =~= t.push(f(x)));
        } else {
            lemma_insert_sorted_map(s.drop_last(), x, f, ka, kb);
            assert(insert_sorted(s.drop_last(), x, ka).push(s.last()).map_values(f)
                =~= insert_sorted(s.drop_last(), x, ka).map_values(f).push(f(s.last())));
        }
    }
}

pub proof fn lemma_stable_sort_map<A, B>(
    s: Seq<A>,
    f: spec_fn(A) -> B,
    ka: spec_fn(A) -> int,
    kb: spec_fn(B) -> int,
)
    requires
        forall|y: A| #[trigger] kb(f(y)) == ka(y),
    ensures
        stable_sort(s, ka).map_values(f) == stable_sort(s.map_values(f), kb),
    decreases s.len(),
{
    if s.len() == 0 {
        assert(s.map_values(f) =~= Seq::<B>::empty());
    } else {
        lemma_stable_sort_map(s.drop_last(), f, ka, kb);
        assert(s.map_values(f).drop_last() =~= s.drop_last().map_values(f));
        lemma_insert_sorted_map(stable_sort(s.drop_last(), ka), s.last(), f, ka, kb);
    }
}

/// One step of insertion sort: with the first `i` elements in stable order,
/// take element `i` and place it after the last of them whose key is not
/// greater.
pub proof fn lemma_sort_step<A>(o: Seq<A>, key: spec_fn(A) -> int, i: int)
    requires
        0 <= i < o.len(),
    ensures
        stable_sort(o.take(i + 1), key) == insert_sorted(stable_sort(o.take(i), key), o[i], key),
{
    assert(o.take(i + 1).drop_last() =~= o.take(i));
}

} // verus!
