//! Splitting text at a separator character, and joining it again.

use crate::text;
use crate::text::{chars_of, find_from, substring};
use vstd::prelude::*;

verus! {

/// The pieces of `s` between the occurrences of `c`; there is always at least one.
pub open spec fn split_at_char(s: Seq<char>, c: char) -> Seq<Seq<char>>
    decreases s.len(),
{
    let i = text::index_of(s, c);
    if 0 <= i < s.len() {
        seq![s.take(i)] + split_at_char(s.skip(i + 1), c)
    } else {
        seq![s]
    }
}

/// The first `n - 1` pieces of `s` between the occurrences of `c`, and then
/// whatever is left, separators and all.
pub open spec fn splitn_at_char(s: Seq<char>, c: char, n: nat) -> Seq<Seq<char>>
    decreases n,
{
    let i = text::index_of(s, c);
    if n > 1 && 0 <= i < s.len() {
        seq![s.take(i)] + splitn_at_char(s.skip(i + 1), c, (n - 1) as nat)
    } else {
        seq![s]
    }
}

/// What stands before the first `c` and what stands after it.
pub open spec fn split_once_at(s: Seq<char>, c: char) -> Option<(Seq<char>, Seq<char>)> {
    let i = text::index_of(s, c);
    if 0 <= i < s.len() {
        Some((s.take(i), s.skip(i + 1)))
    } else {
        None
    }
}

/// A piece without the separator, the separator and a rest split into that
/// piece and the pieces of the rest.
pub proof fn lemma_split_piece(a: Seq<char>, c: char, rest: Seq<char>)
    requires
        !a.contains(c),
    ensures
        split_at_char(a + seq![c] + rest, c) == seq![a] + split_at_char(rest, c),
        split_once_at(a + seq![c] + rest, c) == Some((a, rest)),
{
    let s = a + seq![c] + rest;
    assert forall|j: int| 0 <= j < a.len() implies s[j] != c by {
        assert(s[j] == a[j]);
    }
    assert(s[a.len() as int] == c);
    text::lemma_index_of_is(s, c, a.len() as int);
    assert(s.take(a.len() as int) =~= a);
    assert(s.skip((a.len() + 1) as int) =~= rest);
}

/// The same for a limited number of pieces.
pub proof fn lemma_splitn_piece(a: Seq<char>, c: char, rest: Seq<char>, n: nat)
    requires
        !a.contains(c),
        n > 1,
    ensures
        splitn_at_char(a + seq![c] + rest, c, n) == seq![a] + splitn_at_char(
            rest,
            c,
            (n - 1) as nat,
        ),
{
    let s = a + seq![c] + rest;
    assert forall|j: int| 0 <= j < a.len() implies s[j] != c by {
        assert(s[j] == a[j]);
    }
    assert(s[a.len() as int] == c);
    text::lemma_index_of_is(s, c, a.len() as int);
    assert(s.take(a.len() as int) =~= a);
    assert(s.skip((a.len() + 1) as int) =~= rest);
}

/// Text without the separator is a single piece.
pub proof fn lemma_split_last(a: Seq<char>, c: char)
    requires
        !a.contains(c),
    ensures
        split_at_char(a, c) == seq![a],
        split_once_at(a, c) is None,
{
    text::lemma_index_of(a, c);
}

/// No piece holds the separator.
pub proof fn lemma_split_pieces(s: Seq<char>, c: char)
    ensures
        split_at_char(s, c).len() >= 1,
        forall|k: int| 0 <= k < split_at_char(s, c).len() ==> !(#[trigger] split_at_char(s, c)[k]).contains(c),
    decreases s.len(),
{
    text::lemma_index_of(s, c);
    let i = text::index_of(s, c);
    if 0 <= i < s.len() {
        lemma_split_pieces(s.skip(i + 1), c);
        let tail = split_at_char(s.skip(i + 1), c);
        assert forall|k: int| 0 <= k < split_at_char(s, c).len() implies !(
        #[trigger] split_at_char(s, c)[k]).contains(c) by {
            if k > 0 {
                assert(split_at_char(s, c)[k] == tail[k - 1]);
            }
        }
    }
}

/// The first piece begins with whatever the text begins with that does not hold
/// the separator.
pub proof fn lemma_split_first(p: Seq<char>, c: char, rest: Seq<char>)
    requires
        !p.contains(c),
    ensures
        text::has_prefix(split_at_char(p + rest, c)[0], p),
{
    let s = p + rest;
    let first = split_at_char(s, c)[0];
    text::lemma_index_of(s, c);
    let i = text::index_of(s, c);
    if i < p.len() {
        assert(p[i] == s[i]);
        assert(p.contains(c));
    }
    assert(first =~= s.take(i));
    assert(first.take(p.len() as int) =~= p);
}

/// The pieces of the string between the occurrences of the character.
pub fn split(s: &str, c: char) -> (r: Vec<String>)
    ensures
        text::texts(r@) == split_at_char(s@, c),
{
    let v: Vec<char> = chars_of(s);
    let mut r: Vec<String> = Vec::new();
    let mut from: usize = 0;
    proof {
        assert(s@.skip(0) =~= s@);
        assert(text::texts(r@) =~= Seq::<Seq<char>>::empty());
        assert(text::texts(r@) + split_at_char(s@, c) =~= split_at_char(s@, c));
    }
    loop
        invariant
            from <= v.len(),
            v@ == s@,
            text::texts(r@) + split_at_char(v@.skip(from as int), c) == split_at_char(s@, c),
        decreases v.len() - from,
    {
        let i: usize = find_from(&v, from, c);
        let piece: String = substring(&v, from, i);
        let ghost before = r@;
        r.push(piece);
        proof {
            let t = v@.skip(from as int);
            assert(text::texts(r@) =~= text::texts(before).push(v@.subrange(from as int, i as int)));
            assert(v@.subrange(from as int, i as int) =~= t.take(i - from));
        }
        if i == v.len() {
            proof {
                let t = v@.skip(from as int);
                assert(t.take(i - from) =~= t);
                assert(text::texts(r@) =~= text::texts(before) + split_at_char(t, c));
            }
            return r;
        }
        proof {
            let t = v@.skip(from as int);
            assert(t.skip(i - from + 1) =~= v@.skip(i + 1));
            assert(text::texts(r@) + split_at_char(v@.skip(i + 1), c) =~= text::texts(before) + split_at_char(
                t,
                c,
            ));
        }
        from = i + 1;
    }
}

/// The first `n - 1` pieces between the occurrences of the character, and the rest.
pub fn splitn(s: &str, c: char, n: usize) -> (r: Vec<String>)
    ensures
        text::texts(r@) == splitn_at_char(s@, c, n as nat),
{
    let v: Vec<char> = chars_of(s);
    let mut r: Vec<String> = Vec::new();
    let mut from: usize = 0;
    let mut left: usize = n;
    proof {
        assert(s@.skip(0) =~= s@);
        assert(text::texts(r@) =~= Seq::<Seq<char>>::empty());
        assert(text::texts(r@) + splitn_at_char(s@, c, n as nat) =~= splitn_at_char(s@, c, n as nat));
    }
    loop
        invariant
            from <= v.len(),
            v@ == s@,
            text::texts(r@) + splitn_at_char(v@.skip(from as int), c, left as nat) == splitn_at_char(
                s@,
                c,
                n as nat,
            ),
        decreases left,
    {
        let ghost t = v@.skip(from as int);
        let ghost before = r@;
        let i: usize = if left > 1 {
            find_from(&v, from, c)
        } else {
            v.len()
        };
        let piece: String = substring(&v, from, i);
        r.push(piece);
        proof {
            assert(text::texts(r@) =~= text::texts(before).push(v@.subrange(from as int, i as int)));
            assert(v@.subrange(from as int, i as int) =~= t.take(i - from));
        }
        if i == v.len() {
            proof {
                assert(t.take(i - from) =~= t);
                assert(text::texts(r@) =~= text::texts(before) + splitn_at_char(t, c, left as nat));
            }
            return r;
        }
        proof {
            assert(t.skip(i - from + 1) =~= v@.skip(i + 1));
            assert(text::texts(r@) + splitn_at_char(v@.skip(i + 1), c, (left - 1) as nat) =~= text::texts(
                before,
            ) + splitn_at_char(t, c, left as nat));
        }
        from = i + 1;
        left = left - 1;
    }
}

/// What stands before the first occurrence of the character and what after it.
pub fn split_once(s: &str, c: char) -> (r: Option<(String, String)>)
    ensures
        match r {
            Some((a, b)) => split_once_at(s@, c) == Some((a@, b@)),
            None => split_once_at(s@, c) is None,
        },
{
    let v: Vec<char> = chars_of(s);
    let i: usize = find_from(&v, 0, c);
    proof {
        assert(s@.skip(0) =~= s@);
    }
    if i == v.len() {
        return None;
    }
    let a: String = substring(&v, 0, i);
    let b: String = substring(&v, i + 1, v.len());
    proof {
        assert(a@ =~= s@.take(i as int));
        assert(b@ =~= s@.skip(i + 1));
    }
    Some((a, b))
}

/// The pieces one after the other, with the separator between any two.
pub open spec fn joined_by(parts: Seq<Seq<char>>, c: char) -> Seq<char>
    decreases parts.len(),
{
    if parts.len() == 0 {
        Seq::empty()
    } else if parts.len() == 1 {
        parts[0]
    } else {
        parts[0] + seq![c] + joined_by(parts.skip(1), c)
    }
}

/// Joined by the separator, the pieces are the text again, and no piece holds the
/// separator.
pub proof fn law_pieces_are_the_text(s: Seq<char>, c: char)
    ensures
        split_at_char(s, c).len() > 0,
        joined_by(split_at_char(s, c), c) == s,
        forall|i: int|
            0 <= i < split_at_char(s, c).len() ==> !(#[trigger] split_at_char(s, c)[i]).contains(c),
    decreases s.len(),
{
    text::lemma_index_of(s, c);
    let i = text::index_of(s, c);
    let parts = split_at_char(s, c);
    if i < s.len() {
        let rest = s.skip(i + 1);
        law_pieces_are_the_text(rest, c);
        assert(parts.skip(1) =~= split_at_char(rest, c));
        assert(s =~= s.take(i) + seq![c] + rest);
        assert forall|k: int| 0 <= k < parts.len() implies !(#[trigger] parts[k]).contains(c) by {
            if k > 0 {
                assert(parts[k] == split_at_char(rest, c)[k - 1]);
            }
        }
    }
}

/// At most so many pieces, which joined are the text again; only the last of them may
/// hold the separator, and only if there are that many.
pub proof fn law_first_pieces_are_the_text(s: Seq<char>, c: char, n: nat)
    requires
        n > 0,
    ensures
        1 <= splitn_at_char(s, c, n).len() <= n,
        joined_by(splitn_at_char(s, c, n), c) == s,
        forall|i: int|
            0 <= i < splitn_at_char(s, c, n).len() - 1 ==> !(#[trigger] splitn_at_char(
                s,
                c,
                n,
            )[i]).contains(c),
        splitn_at_char(s, c, n).len() < n ==> !splitn_at_char(s, c, n).last().contains(c),
    decreases n,
{
    text::lemma_index_of(s, c);
    let i = text::index_of(s, c);
    let parts = splitn_at_char(s, c, n);
    if n > 1 && i < s.len() {
        let rest = s.skip(i + 1);
        let m = (n - 1) as nat;
        law_first_pieces_are_the_text(rest, c, m);
        let tail = splitn_at_char(rest, c, m);
        assert(parts.skip(1) =~= tail);
        assert(s =~= s.take(i) + seq![c] + rest);
        assert forall|k: int| 0 <= k < parts.len() - 1 implies !(#[trigger] parts[k]).contains(
            c,
        ) by {
            if k > 0 {
                assert(parts[k] == tail[k - 1]);
            }
        }
        assert(parts.last() == tail.last());
    }
}

/// Cutting at the first separator gives what stands before it, which does not hold the
/// separator, and what stands after it; without a separator there is no cut.
pub proof fn law_cut_at_the_first(s: Seq<char>, c: char)
    ensures
        split_once_at(s, c) is Some <==> s.contains(c),
        split_once_at(s, c) matches Some((a, b)) ==> s == a + seq![c] + b && !a.contains(c),
{
    text::lemma_index_of(s, c);
    let i = text::index_of(s, c);
    if i < s.len() {
        assert(s =~= s.take(i) + seq![c] + s.skip(i + 1));
    }
}

} // verus!
