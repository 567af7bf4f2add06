//! Stable sorting, of values that have a rank.

use vstd::prelude::*;
use vstd::seq_lib::*;

verus! {

/// `s` with `x` put behind the last value that `x` is not less than.
pub open spec fn insert_by<A>(s: Seq<A>, x: A, less: spec_fn(A, A) -> bool) -> Seq<A>
    decreases s.len(),
{
    if s.len() == 0 || !less(x, s.last()) {
        s.push(x)
    } else {
        insert_by(s.drop_last(), x, less).push(s.last())
    }
}

/// The values of `s` in order; of two values neither of which is less than
/// the other, the one that stands first in `s` comes first.
pub open spec fn sorted<A>(s: Seq<A>, less: spec_fn(A, A) -> bool) -> Seq<A>
    decreases s.len(),
{
    if s.len() == 0 {
        s
    } else {
        insert_by(sorted(s.drop_last(), less), s.last(), less)
    }
}

/// No value is less than one that stands in front of it.
pub open spec fn in_order<A>(s: Seq<A>, less: spec_fn(A, A) -> bool) -> bool {
    forall|i: int, j: int| 0 <= i < j < s.len() ==> !less(#[trigger] s[j], #[trigger] s[i])
}

/// A strict order in which ties are possible.
pub open spec fn is_weak_order<A>(less: spec_fn(A, A) -> bool) -> bool {
    &&& forall|a: A, b: A| #[trigger] less(a, b) ==> !less(b, a)
    &&& forall|a: A, b: A, c: A|
        !(#[trigger] less(b, a)) && !(#[trigger] less(c, b)) ==> !less(c, a)
}

proof fn lemma_insert_by<A>(s: Seq<A>, x: A, less: spec_fn(A, A) -> bool)
    requires
        is_weak_order(less),
        in_order(s, less),
    ensures
        in_order(insert_by(s, x, less), less),
        insert_by(s, x, less).to_multiset() == s.to_multiset().insert(x),
        insert_by(s, x, less).len() == s.len() + 1,
        forall|i: int|
            0 <= i < insert_by(s, x, less).len() ==> (#[trigger] insert_by(s, x, less)[i]) == x
                || s.contains(insert_by(s, x, less)[i]),
    decreases s.len(),
{
    broadcast use to_multiset_build;

    let r = insert_by(s, x, less);
    if s.len() == 0 || !less(x, s.last()) {
        assert forall|i: int, j: int| 0 <= i < j < r.len() implies !less(
            #[trigger] r[j],
            #[trigger] r[i],
        ) by {
            if j == s.len() && i < s.len() - 1 {
                assert(!less(s[s.len() - 1], s[i]));
            } else if j < s.len() {
                assert(!less(s[j], s[i]));
            }
        }
        assert forall|i: int| 0 <= i < r.len() implies (#[trigger] r[i]) == x || s.contains(r[i]) by {
            if i < s.len() {
                assert(r[i] == s[i]);
            }
        }
    } else {
        let t = s.drop_last();
        let q = insert_by(t, x, less);
        assert(in_order(t, less)) by {
            assert forall|i: int, j: int| 0 <= i < j < t.len() implies !less(
                #[trigger] t[j],
                #[trigger] t[i],
            ) by {
                assert(!less(s[j], s[i]));
            }
        }
        lemma_insert_by(t, x, less);
        assert(r =~= q.push(s.last()));
        assert forall|i: int, j: int| 0 <= i < j < r.len() implies !less(
            #[trigger] r[j],
            #[trigger] r[i],
        ) by {
            if j < q.len() {
                assert(!less(q[j], q[i]));
            } else {
                assert(q[i] == x || t.contains(q[i]));
                if q[i] != x {
                    let k = choose|k: int| 0 <= k < t.len() && t[k] == q[i];
                    assert(!less(s[s.len() - 1], s[k]));
                }
            }
        }
        assert(s =~= t.push(s.last()));
        assert(t.to_multiset().insert(x).insert(s.last()) =~= t.to_multiset().insert(
            s.last(),
        ).insert(x));
        assert forall|i: int| 0 <= i < r.len() implies (#[trigger] r[i]) == x || s.contains(r[i]) by {
            if i < q.len() {
                assert(q[i] == x || t.contains(q[i]));
                if q[i] != x {
                    let k = choose|k: int| 0 <= k < t.len() && t[k] == q[i];
                    assert(s[k] == r[i]);
                }
            } else {
                assert(s[s.len() - 1] == r[i]);
            }
        }
    }
}

/// Sorting puts the values in order and neither adds nor loses one.
pub proof fn law_sorted<A>(s: Seq<A>, less: spec_fn(A, A) -> bool)
    requires
        is_weak_order(less),
    ensures
        in_order(sorted(s, less), less),
        sorted(s, less).to_multiset() == s.to_multiset(),
        sorted(s, less).len() == s.len(),
    decreases s.len(),
{
    broadcast use to_multiset_build;

    if s.len() > 0 {
        let t = s.drop_last();
        law_sorted(t, less);
        lemma_insert_by(sorted(t, less), s.last(), less);
        assert(s =~= t.push(s.last()));
    } else {
        assert(sorted(s, less) =~= s);
    }
}

/// Where the order tells all values apart, the same values in whatever order are
/// sorted into the same list.
pub proof fn law_order_is_unique<A>(s: Seq<A>, t: Seq<A>, less: spec_fn(A, A) -> bool)
    requires
        is_weak_order(less),
        forall|a: A, b: A| !(#[trigger] less(a, b)) && !less(b, a) ==> a == b,
        s.to_multiset() == t.to_multiset(),
    ensures
        sorted(s, less) == sorted(t, less),
{
    let leq = |a: A, b: A| !less(b, a);
    law_sorted(s, less);
    law_sorted(t, less);
    assert(vstd::relations::total_ordering(leq));
    assert(vstd::relations::sorted_by(sorted(s, less), leq));
    assert(vstd::relations::sorted_by(sorted(t, less), leq));
    lemma_sorted_unique(sorted(s, less), sorted(t, less), leq);
}

proof fn lemma_insert_by_map<A, B>(
    s: Seq<A>,
    x: A,
    f: spec_fn(A) -> B,
    less: spec_fn(A, A) -> bool,
    less_mapped: spec_fn(B, B) -> bool,
)
    requires
        forall|a: A, b: A| #[trigger] less(a, b) == less_mapped(f(a), f(b)),
    ensures
        insert_by(s, x, less).map_values(f) == insert_by(s.map_values(f), f(x), less_mapped),
    decreases s.len(),
{
    let m = s.map_values(f);
    if s.len() == 0 || !less(x, s.last()) {
        assert(s.len() > 0 ==> m.last() == f(s.last()));
        assert(insert_by(s, x, less).map_values(f) =~= m.push(f(x)));
    } else {
        lemma_insert_by_map(s.drop_last(), x, f, less, less_mapped);
        assert(m.last() == f(s.last()));
        assert(m.drop_last() =~= s.drop_last().map_values(f));
        assert(insert_by(s, x, less).map_values(f) =~= insert_by(
            m.drop_last(),
            f(x),
            less_mapped,
        ).push(m.last()));
    }
}

/// Sorting and taking views can change places.
pub proof fn lemma_sorted_map<A, B>(
    s: Seq<A>,
    f: spec_fn(A) -> B,
    less: spec_fn(A, A) -> bool,
    less_mapped: spec_fn(B, B) -> bool,
)
    requires
        forall|a: A, b: A| #[trigger] less(a, b) == less_mapped(f(a), f(b)),
    ensures
        sorted(s, less).map_values(f) == sorted(s.map_values(f), less_mapped),
    decreases s.len(),
{
    let m = s.map_values(f);
    if s.len() > 0 {
        lemma_sorted_map(s.drop_last(), f, less, less_mapped);
        lemma_insert_by_map(sorted(s.drop_last(), less), s.last(), f, less, less_mapped);
        assert(m.drop_last() =~= s.drop_last().map_values(f));
        assert(m.last() == f(s.last()));
    } else {
        assert(m =~= Seq::<B>::empty());
        assert(sorted(s, less).map_values(f) =~= sorted(m, less_mapped));
    }
}

/// Values with a rank, by which they are sorted.
pub trait Ranked: Sized {
    /// Whether this value comes before the other.
    spec fn before(self, other: Self) -> bool;

    /// Whether this value comes before the other.
    fn comes_before(&self, other: &Self) -> (r: bool)
        ensures
            r == self.before(*other),
    ;
}

/// The order by rank.
pub open spec fn by_rank<T: Ranked>() -> spec_fn(T, T) -> bool {
    |a: T, b: T| a.before(b)
}

/// Puts a value behind those that it does not come before.
fn insert_ranked<T: Ranked>(v: &mut Vec<T>, x: T)
    ensures
        final(v)@ == insert_by(old(v)@, x, by_rank::<T>()),
{
    let ghost given = v@;
    let ghost less = by_rank::<T>();
    let mut at: usize = v.len();
    proof {
        assert(given.take(at as int) =~= given);
        assert(insert_by(given, x, less) =~= insert_by(given.take(at as int), x, less)
            + given.skip(at as int));
    }
    while at > 0 && x.comes_before(&v[at - 1])
        invariant
            at <= v.len(),
            v@ == given,
            less == by_rank::<T>(),
            insert_by(given, x, less) == insert_by(given.take(at as int), x, less) + given.skip(
                at as int,
            ),
        decreases at,
    {
        proof {
            let t = given.take(at as int);
            assert(t.drop_last() =~= given.take(at - 1));
            assert(insert_by(t, x, less) =~= insert_by(given.take(at - 1), x, less).push(t.last()));
            assert(insert_by(given, x, less) =~= insert_by(given.take(at - 1), x, less)
                + given.skip(at - 1));
        }
        at = at - 1;
    }
    v.insert(at, x);
    proof {
        assert(v@ =~= given.take(at as int).push(x) + given.skip(at as int));
    }
}

/// Sorts the values by rank, keeping the order of values of equal rank.
pub fn sort_ranked<T: Ranked>(v: Vec<T>) -> (r: Vec<T>)
    ensures
        r@ == sorted(v@, by_rank::<T>()),
{
    let ghost given = v@;
    let mut v: Vec<T> = v;
    let mut reversed: Vec<T> = Vec::new();
    while v.len() > 0
        invariant
            v@ + reversed@.reverse() == given,
        decreases v.len(),
    {
        let ghost before = v@;
        let ghost tail = reversed@;
        if let Some(x) = v.pop() {
            reversed.push(x);
            proof {
                assert(before =~= v@.push(x));
                assert(reversed@.reverse() =~= seq![x] + tail.reverse());
                assert(v@ + reversed@.reverse() =~= before + tail.reverse());
            }
        }
    }
    proof {
        assert(reversed@.reverse() =~= given);
    }
    let mut r: Vec<T> = Vec::new();
    while reversed.len() > 0
        invariant
            reversed.len() <= given.len(),
            reversed@.reverse() == given.skip(given.len() - reversed.len()),
            r@ == sorted(given.take(given.len() - reversed.len()), by_rank::<T>()),
        decreases reversed.len(),
    {
        let ghost before = reversed@;
        if let Some(x) = reversed.pop() {
            proof {
                let k = given.len() - before.len();
                assert(before.reverse()[0] == x);
                assert(given.skip(k)[0] == given[k]);
                assert(given.take(k + 1).drop_last() =~= given.take(k));
                assert(given.take(k + 1).last() == x);
                assert(reversed@.reverse() =~= before.reverse().skip(1));
                assert(given.skip(k).skip(1) =~= given.skip(k + 1));
            }
            insert_ranked(&mut r, x);
        }
    }
    proof {
        assert(given.take(given.len() as int) =~= given);
    }
    r
}

/// Tells the values that tie with one.
pub open spec fn ties_with<A>(a: A, less: spec_fn(A, A) -> bool) -> spec_fn(A) -> bool {
    |x: A| !less(x, a) && !less(a, x)
}

proof fn lemma_filter_push<A>(s: Seq<A>, x: A, p: spec_fn(A) -> bool)
    ensures
        s.push(x).filter(p) == (if p(x) {
            s.filter(p).push(x)
        } else {
            s.filter(p)
        }),
{
    reveal(Seq::filter);
    assert(s.push(x).drop_last() =~= s);
}

proof fn lemma_insert_behind_ties<A>(s: Seq<A>, x: A, a: A, less: spec_fn(A, A) -> bool)
    requires
        is_weak_order(less),
    ensures
        insert_by(s, x, less).filter(ties_with(a, less)) == s.push(x).filter(ties_with(a, less)),
    decreases s.len(),
{
    let p = ties_with(a, less);
    if s.len() > 0 && less(x, s.last()) {
        let t = s.drop_last();
        let y = s.last();
        let u = insert_by(t, x, less);
        lemma_insert_behind_ties(t, x, a, less);
        lemma_filter_push(u, y, p);
        lemma_filter_push(t, x, p);
        lemma_filter_push(t, y, p);
        lemma_filter_push(s, x, p);
        assert(s =~= t.push(y));
        assert(!(p(x) && p(y))) by {
            if p(x) && p(y) {
                assert(!less(a, y) && !less(x, a));
                assert(!less(x, y));
            }
        }
    }
}

/// Sorting is stable: values of which neither comes before the other stay in the order in which
/// they were given.
pub proof fn law_sorting_is_stable<A>(s: Seq<A>, a: A, less: spec_fn(A, A) -> bool)
    requires
        is_weak_order(less),
    ensures
        sorted(s, less).filter(ties_with(a, less)) == s.filter(ties_with(a, less)),
    decreases s.len(),
{
    if s.len() > 0 {
        let t = s.drop_last();
        let p = ties_with(a, less);
        law_sorting_is_stable(t, a, less);
        lemma_insert_behind_ties(sorted(t, less), s.last(), a, less);
        lemma_filter_push(sorted(t, less), s.last(), p);
        lemma_filter_push(t, s.last(), p);
        assert(s =~= t.push(s.last()));
    }
}

} // verus!
