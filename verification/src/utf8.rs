//! How many bytes text takes in UTF-8.

use crate::text::{chars_of, code_of, substring};
use vstd::prelude::*;

verus! {

/// How many bytes text takes.
pub open spec fn byte_len(s: Seq<char>) -> nat {
    vstd::utf8::encode_utf8(s).len()
}

/// How many bytes a character takes.
pub open spec fn width(c: char) -> nat {
    if (c as int) < 0x80 {
        1
    } else if (c as int) < 0x800 {
        2
    } else if (c as int) < 0x10000 {
        3
    } else {
        4
    }
}

/// Text behind text takes as many bytes as both.
pub proof fn lemma_byte_len_concat(a: Seq<char>, b: Seq<char>)
    ensures
        byte_len(a + b) == byte_len(a) + byte_len(b),
    decreases a.len(),
{
    if a.len() == 0 {
        assert(a + b =~= b);
    } else {
        assert((a + b).drop_first() =~= a.drop_first() + b);
        lemma_byte_len_concat(a.drop_first(), b);
    }
}

/// Text behind text is encoded as both, one behind the other.
pub proof fn lemma_encode_concat(a: Seq<char>, b: Seq<char>)
    ensures
        vstd::utf8::encode_utf8(a + b) == vstd::utf8::encode_utf8(a) + vstd::utf8::encode_utf8(b),
    decreases a.len(),
{
    if a.len() == 0 {
        assert(a + b =~= b);
        assert(vstd::utf8::encode_utf8(a) =~= Seq::<u8>::empty());
    } else {
        assert((a + b).drop_first() =~= a.drop_first() + b);
        assert((a + b)[0] == a[0]);
        lemma_encode_concat(a.drop_first(), b);
        assert(vstd::utf8::encode_utf8(a + b) =~= vstd::utf8::encode_utf8(a)
            + vstd::utf8::encode_utf8(b));
    }
}

/// A character of ASCII is encoded as its number.
pub proof fn lemma_encode_ascii(c: char)
    requires
        (c as int) < 0x80,
    ensures
        vstd::utf8::encode_utf8(seq![c]) == seq![c as u8],
{
    vstd::utf8::is_ascii_chars_encode_utf8(seq![c]);
    assert(vstd::utf8::encode_utf8(seq![c]) =~= seq![c as u8]);
}

/// A single character takes as many bytes as its width.
pub proof fn lemma_byte_len_one(c: char)
    ensures
        byte_len(seq![c]) == width(c),
{
    let s = seq![c];
    assert(s.drop_first() =~= Seq::<char>::empty());
    assert(vstd::utf8::encode_utf8(s.drop_first()).len() == 0);
    assert(vstd::utf8::encode_scalar(c as u32).len() == width(c));
}

/// A character more takes its width more.
pub proof fn lemma_byte_len_push(s: Seq<char>, c: char)
    ensures
        byte_len(s.push(c)) == byte_len(s) + width(c),
{
    assert(s.push(c) =~= s + seq![c]);
    lemma_byte_len_concat(s, seq![c]);
    lemma_byte_len_one(c);
}

/// How many bytes a character takes.
pub fn char_width(c: char) -> (r: usize)
    ensures
        r == width(c),
{
    let u: u32 = code_of(c);
    if u < 0x80 {
        1
    } else if u < 0x800 {
        2
    } else if u < 0x10000 {
        3
    } else {
        4
    }
}

/// The longest beginning of the text that takes at most so many bytes.
pub open spec fn longest_prefix(s: Seq<char>, max: nat) -> Seq<char>
    decreases s.len(),
{
    if byte_len(s) <= max || s.len() == 0 {
        s
    } else {
        longest_prefix(s.drop_last(), max)
    }
}

/// The longest beginning is one that fits, and one character more would not.
pub proof fn law_longest_prefix(s: Seq<char>, max: nat)
    ensures
        longest_prefix(s, max).len() <= s.len(),
        longest_prefix(s, max) == s.take(longest_prefix(s, max).len() as int),
        byte_len(longest_prefix(s, max)) <= max,
        longest_prefix(s, max).len() < s.len() ==> byte_len(
            s.take(longest_prefix(s, max).len() as int + 1),
        ) > max,
    decreases s.len(),
{
    if byte_len(s) <= max || s.len() == 0 {
        assert(s.take(s.len() as int) =~= s);
        if s.len() == 0 {
            assert(vstd::utf8::encode_utf8(s).len() == 0);
        }
    } else {
        let t = s.drop_last();
        law_longest_prefix(t, max);
        let n = longest_prefix(t, max).len() as int;
        assert(t.take(n) =~= s.take(n));
        if n < t.len() {
            assert(t.take(n + 1) =~= s.take(n + 1));
        } else {
            assert(s.take(n + 1) =~= s);
        }
    }
}

proof fn lemma_prefix_grows(s: Seq<char>, i: int, j: int)
    requires
        0 <= i <= j <= s.len(),
    ensures
        byte_len(s.take(i)) <= byte_len(s.take(j)),
{
    assert(s.take(j) =~= s.take(i) + s.subrange(i, j));
    lemma_byte_len_concat(s.take(i), s.subrange(i, j));
}

proof fn lemma_prefix_is_longest(s: Seq<char>, max: nat, n: int)
    requires
        0 <= n <= s.len(),
        byte_len(s.take(n)) <= max,
        n < s.len() ==> byte_len(s.take(n + 1)) > max,
    ensures
        longest_prefix(s, max) == s.take(n),
{
    law_longest_prefix(s, max);
    let m = longest_prefix(s, max).len() as int;
    if m < n {
        lemma_prefix_grows(s, m + 1, n);
    }
    if n < m {
        lemma_prefix_grows(s, n + 1, m);
    }
}

/// The longest beginning of the text that takes at most so many bytes.
pub fn truncated(s: &str, max: usize) -> (r: String)
    ensures
        r@ == longest_prefix(s@, max as nat),
{
    let v: Vec<char> = chars_of(s);
    let mut used: usize = 0;
    let mut i: usize = 0;
    assert(v@.take(0) =~= Seq::<char>::empty());
    while i < v.len()
        invariant
            v@ == s@,
            i <= v.len(),
            used <= max,
            used == byte_len(v@.take(i as int)),
        decreases v.len() - i,
    {
        let w: usize = char_width(v[i]);
        proof {
            assert(v@.take(i + 1) =~= v@.take(i as int).push(v@[i as int]));
            lemma_byte_len_push(v@.take(i as int), v@[i as int]);
        }
        if w > max - used {
            proof {
                lemma_prefix_is_longest(s@, max as nat, i as int);
            }
            let r = substring(&v, 0, i);
            assert(v@.subrange(0, i as int) =~= v@.take(i as int));
            return r;
        }
        used = used + w;
        i = i + 1;
    }
    proof {
        lemma_prefix_is_longest(s@, max as nat, i as int);
    }
    let r = substring(&v, 0, i);
    assert(v@.subrange(0, i as int) =~= v@.take(i as int));
    r
}

} // verus!
