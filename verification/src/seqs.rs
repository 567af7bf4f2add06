//! Facts about sequences that several modules use.

use vstd::prelude::*;
use vstd::seq_lib::*;

verus! {

/// A value passes the filter exactly if it was there and meets the condition.
pub proof fn lemma_filter_contains<A>(s: Seq<A>, p: spec_fn(A) -> bool, x: A)
    ensures
        s.filter(p).contains(x) == (s.contains(x) && p(x)),
    decreases s.len(),
{
    reveal(Seq::filter);
    if s.len() > 0 {
        let t = s.drop_last();
        lemma_filter_contains(t, p, x);
        let f = s.filter(p);
        let g = t.filter(p);
        if g.contains(x) {
            let i = choose|i: int| 0 <= i < g.len() && g[i] == x;
            assert(f[i] == x);
        }
        if f.contains(x) {
            let i = choose|i: int| 0 <= i < f.len() && f[i] == x;
            if i < g.len() {
                assert(g[i] == x);
            } else {
                assert(s[s.len() - 1] == x);
            }
        }
        if t.contains(x) {
            let i = choose|i: int| 0 <= i < t.len() && t[i] == x;
            assert(s[i] == x);
        }
        if s.contains(x) && p(x) {
            let i = choose|i: int| 0 <= i < s.len() && s[i] == x;
            if i < t.len() {
                assert(t[i] == x);
            } else {
                assert(f[f.len() - 1] == x);
            }
        }
    }
}

/// Lists with the same values have the same mapped values.
pub proof fn lemma_map_multiset<A, B>(s: Seq<A>, t: Seq<A>, f: spec_fn(A) -> B)
    requires
        s.to_multiset() == t.to_multiset(),
    ensures
        s.map_values(f).to_multiset() == t.map_values(f).to_multiset(),
    decreases s.len(),
{
    broadcast use {to_multiset_build, to_multiset_len, to_multiset_contains, to_multiset_remove};

    assert(s.to_multiset().len() == s.len());
    assert(t.to_multiset().len() == t.len());
    if s.len() == 0 {
        assert(s.map_values(f) =~= t.map_values(f));
    } else {
        let x = s.last();
        let s0 = s.drop_last();
        assert(s =~= s0.push(x));
        assert(s[s.len() - 1] == x);
        assert(s.to_multiset().count(x) > 0);
        assert(t.to_multiset().count(x) > 0);
        let k = choose|k: int| 0 <= k < t.len() && t[k] == x;
        let t0 = t.remove(k);
        assert(t0.to_multiset() =~= t.to_multiset().remove(x));
        assert(s0.to_multiset() =~= s.to_multiset().remove(x));
        lemma_map_multiset(s0, t0, f);
        assert(s.map_values(f) =~= s0.map_values(f).push(f(x)));
        assert(t0.map_values(f) =~= t.map_values(f).remove(k));
        assert(t.map_values(f)[k] == f(x));
        assert(t.map_values(f).to_multiset() =~= t0.map_values(f).to_multiset().insert(f(x)));
    }
}

/// Lists with the same multiset of values have the same members.
pub proof fn lemma_same_members<A>(s: Seq<A>, t: Seq<A>)
    requires
        s.to_multiset() == t.to_multiset(),
    ensures
        forall|i: int| 0 <= i < s.len() ==> t.contains(#[trigger] s[i]),
        forall|i: int| 0 <= i < t.len() ==> s.contains(#[trigger] t[i]),
{
    broadcast use to_multiset_contains;

    assert forall|i: int| 0 <= i < s.len() implies t.contains(#[trigger] s[i]) by {
        assert(s.contains(s[i]));
        assert(s.to_multiset().count(s[i]) > 0);
        assert(t.to_multiset().count(s[i]) > 0);
    }
    assert forall|i: int| 0 <= i < t.len() implies s.contains(#[trigger] t[i]) by {
        assert(t.contains(t[i]));
        assert(t.to_multiset().count(t[i]) > 0);
        assert(s.to_multiset().count(t[i]) > 0);
    }
}

/// Lists of the same values, each once, are the same but for the order.
pub proof fn lemma_no_duplicates_multiset<A>(s: Seq<A>, t: Seq<A>)
    requires
        s.no_duplicates(),
        t.no_duplicates(),
        forall|x: A| #[trigger] s.contains(x) == t.contains(x),
    ensures
        s.to_multiset() == t.to_multiset(),
{
    s.lemma_multiset_has_no_duplicates();
    t.lemma_multiset_has_no_duplicates();
    s.to_multiset_ensures();
    t.to_multiset_ensures();
    assert forall|x: A| #[trigger] s.to_multiset().count(x) == t.to_multiset().count(x) by {
        assert(s.contains(x) == t.contains(x));
        assert(s.contains(x) <==> s.to_multiset().count(x) > 0);
        assert(t.contains(x) <==> t.to_multiset().count(x) > 0);
    }
    assert(s.to_multiset() =~= t.to_multiset());
}

/// Where every value passes, the filter keeps the sequence as it is.
pub proof fn lemma_filter_all<A>(s: Seq<A>, p: spec_fn(A) -> bool)
    requires
        forall|i: int| 0 <= i < s.len() ==> p(#[trigger] s[i]),
    ensures
        s.filter(p) == s,
    decreases s.len(),
{
    reveal(Seq::filter);
    if s.len() > 0 {
        let t = s.drop_last();
        assert forall|i: int| 0 <= i < t.len() implies p(#[trigger] t[i]) by {
            assert(p(s[i]));
        }
        assert(p(s[s.len() - 1]));
        lemma_filter_all(t, p);
        assert(s =~= t.push(s.last()));
    } else {
        assert(s.filter(p) =~= s);
    }
}

/// Where no value passes, nothing is left.
pub proof fn lemma_filter_none<A>(s: Seq<A>, p: spec_fn(A) -> bool)
    requires
        forall|i: int| 0 <= i < s.len() ==> !p(#[trigger] s[i]),
    ensures
        s.filter(p) == Seq::<A>::empty(),
    decreases s.len(),
{
    reveal(Seq::filter);
    if s.len() > 0 {
        let t = s.drop_last();
        assert forall|i: int| 0 <= i < t.len() implies !p(#[trigger] t[i]) by {
            assert(!p(s[i]));
        }
        assert(!p(s[s.len() - 1]));
        lemma_filter_none(t, p);
    } else {
        assert(s.filter(p) =~= Seq::<A>::empty());
    }
}

/// What passes and what does not are together what was there.
pub proof fn lemma_filter_parts<A>(s: Seq<A>, p: spec_fn(A) -> bool, q: spec_fn(A) -> bool)
    requires
        forall|x: A| #[trigger] p(x) != q(x),
    ensures
        (s.filter(p) + s.filter(q)).to_multiset() == s.to_multiset(),
        s.filter(p).len() + s.filter(q).len() == s.len(),
    decreases s.len(),
{
    reveal(Seq::filter);
    broadcast use to_multiset_build;

    if s.len() > 0 {
        let t = s.drop_last();
        let x = s.last();
        lemma_filter_parts(t, p, q);
        lemma_multiset_commutative(t.filter(p), t.filter(q));
        lemma_multiset_commutative(s.filter(p), s.filter(q));
        assert(s =~= t.push(x));
        assert(p(x) != q(x));
        if p(x) {
            assert(s.filter(p) =~= t.filter(p).push(x));
        } else {
            assert(s.filter(q) =~= t.filter(q).push(x));
        }
        assert((s.filter(p) + s.filter(q)).to_multiset() =~= s.to_multiset());
    } else {
        assert(s.filter(p) + s.filter(q) =~= s);
    }
}

} // verus!
