//! Numbers in text: decimal and hexadecimal numerals, written and read.

use crate::text::{chars_of, code_of};
use vstd::prelude::*;

verus! {

/// The character for a digit below sixteen, letters in lower case.
pub open spec fn digit_char(d: nat) -> char {
    if d < 10 {
        (48 + d) as char
    } else {
        (87 + d) as char
    }
}

/// The value of a digit in either case; 99 for what is no digit.
pub open spec fn digit_value(c: char) -> nat {
    let u = c as nat;
    if 48 <= u <= 57 {
        (u - 48) as nat
    } else if 97 <= u <= 102 {
        (u - 87) as nat
    } else if 65 <= u <= 70 {
        (u - 55) as nat
    } else {
        99
    }
}

/// The numeral of `n`, without leading zeros.
pub open spec fn numeral(n: nat, radix: nat) -> Seq<char>
    decreases n,
{
    if radix < 2 || n < radix {
        seq![digit_char(n)]
    } else {
        proof {
            assert(n / radix < n) by (nonlinear_arith)
                requires
                    radix >= 2,
                    n >= radix,
            ;
        }
        numeral(n / radix, radix).push(digit_char(n % radix))
    }
}

/// The decimal numeral of `n`.
pub open spec fn decimal(n: nat) -> Seq<char> {
    numeral(n, 10)
}

/// The hexadecimal numeral of `n`, in lower case.
pub open spec fn hexadecimal(n: nat) -> Seq<char> {
    numeral(n, 16)
}

/// Whether the text is made of digits below `radix`, at least one.
pub open spec fn is_numeral(s: Seq<char>, radix: nat) -> bool {
    s.len() > 0 && forall|i: int| 0 <= i < s.len() ==> digit_value(#[trigger] s[i]) < radix
}

/// The number that the digits stand for.
pub open spec fn value_of(s: Seq<char>, radix: nat) -> nat
    decreases s.len(),
{
    if s.len() == 0 {
        0
    } else {
        value_of(s.drop_last(), radix) * radix + digit_value(s.last())
    }
}

/// An unsigned number as it is read: one plus sign may stand before the
/// digits, and the value may not exceed `max`.
pub open spec fn parse_number(s: Seq<char>, radix: nat, max: nat) -> Option<nat> {
    let body = if s.len() > 0 && s[0] == '+' {
        s.skip(1)
    } else {
        s
    };
    if is_numeral(body, radix) && value_of(body, radix) <= max {
        Some(value_of(body, radix))
    } else {
        None
    }
}

/// Reading back the numeral of a number gives the number.
pub proof fn lemma_numeral_value(n: nat, radix: nat)
    requires
        2 <= radix <= 16,
    ensures
        is_numeral(numeral(n, radix), radix),
        value_of(numeral(n, radix), radix) == n,
        forall|i: int|
            0 <= i < numeral(n, radix).len() ==> {
                let u = #[trigger] numeral(n, radix)[i] as int;
                48 <= u <= 57 || 97 <= u <= 102
            },
    decreases n,
{
    let s = numeral(n, radix);
    if n < radix {
        assert(s.drop_last() =~= Seq::<char>::empty());
        assert(value_of(s.drop_last(), radix) == 0);
        assert(0 * radix == 0) by (nonlinear_arith);
    } else {
        let q = n / radix;
        let d = n % radix;
        assert(q < n && d < radix && q * radix + d == n) by (nonlinear_arith)
            requires
                2 <= radix,
                radix <= n,
                q == n / radix,
                d == n % radix,
        ;
        lemma_numeral_value(q, radix);
        let t = numeral(q, radix);
        assert(s =~= t.push(digit_char(d)));
        assert(s.drop_last() =~= t);
        assert forall|i: int| 0 <= i < s.len() implies digit_value(#[trigger] s[i]) < radix by {
            if i < t.len() {
                assert(s[i] == t[i]);
            }
        }
        assert forall|i: int| 0 <= i < s.len() implies ({
            let u = #[trigger] s[i] as int;
            48 <= u <= 57 || 97 <= u <= 102
        }) by {
            if i < t.len() {
                assert(s[i] == t[i]);
            }
        }
    }
}

/// A number not above `max` is read back from its numeral.
pub proof fn lemma_parse_numeral(n: nat, radix: nat, max: nat)
    requires
        2 <= radix <= 16,
        n <= max,
    ensures
        parse_number(numeral(n, radix), radix, max) == Some(n),
{
    lemma_numeral_value(n, radix);
    assert(numeral(n, radix)[0] != '+');
}

/// A decimal digit is the character for its value.
proof fn lemma_digit_char(c: char)
    requires
        digit_value(c) < 10,
    ensures
        digit_char(digit_value(c)) == c,
{
}

/// A numeral without a leading zero is the numeral of its value.
pub proof fn lemma_value_numeral(s: Seq<char>)
    requires
        is_numeral(s, 10),
        s.len() == 1 || s[0] != '0',
    ensures
        numeral(value_of(s, 10), 10) == s,
        s.len() > 1 ==> value_of(s, 10) >= 10,
    decreases s.len(),
{
    let t = s.drop_last();
    let d = digit_value(s.last());
    assert(digit_value(s[s.len() - 1]) < 10);
    lemma_digit_char(s.last());
    if s.len() == 1 {
        assert(value_of(t, 10) == 0);
        assert(value_of(s, 10) == d);
        assert(s =~= seq![digit_char(d)]);
    } else {
        assert forall|i: int| 0 <= i < t.len() implies digit_value(#[trigger] t[i]) < 10 by {
            assert(t[i] == s[i]);
        }
        assert(t[0] == s[0]);
        lemma_value_numeral(t);
        let v = value_of(t, 10);
        assert(v >= 1) by {
            if t.len() == 1 {
                assert(value_of(t.drop_last(), 10) == 0);
                assert(t.last() == s[0]);
                lemma_digit_char(s[0]);
            }
        }
        let n = value_of(s, 10);
        assert(n == v * 10 + d);
        lemma_last_digit(v, d);
        assert(numeral(n, 10) == numeral(v, 10).push(digit_char(d)));
        assert(s =~= t.push(s.last()));
    }
}

proof fn lemma_last_digit(v: nat, d: nat)
    requires
        d < 10,
    ensures
        (v * 10 + d) / 10 == v,
        (v * 10 + d) % 10 == d,
{
}

/// More digits never make the value smaller.
pub proof fn lemma_value_monotone(s: Seq<char>, i: int, radix: nat)
    requires
        0 <= i <= s.len(),
        radix >= 1,
    ensures
        value_of(s.take(i), radix) <= value_of(s, radix),
    decreases s.len() - i,
{
    if i < s.len() {
        lemma_value_monotone(s, i + 1, radix);
        let a = s.take(i + 1);
        assert(a.drop_last() =~= s.take(i));
        assert(value_of(s.take(i), radix) <= value_of(s.take(i), radix) * radix)
            by (nonlinear_arith)
            requires
                radix >= 1,
        ;
    } else {
        assert(s.take(i) =~= s);
    }
}

/// `d` as a digit character.
fn digit(d: u8) -> (c: char)
    requires
        d < 16,
    ensures
        c == digit_char(d as nat),
{
    if d < 10 {
        (48 + d) as char
    } else {
        (87 + d) as char
    }
}

/// Appends the numeral of `n`.
pub fn push_numeral(out: &mut String, n: u128, radix: u128)
    requires
        2 <= radix <= 16,
    ensures
        final(out)@ == old(out)@ + numeral(n as nat, radix as nat),
    decreases n,
{
    let ghost start = out@;
    if n >= radix {
        assert(n / radix < n) by (nonlinear_arith)
            requires
                n >= radix,
                radix >= 2,
        ;
        push_numeral(out, n / radix, radix);
    }
    let d: u128 = n % radix;
    assert(d < radix);
    out.push(digit(d as u8));
    proof {
        if n < radix {
            assert(n % radix == n) by (nonlinear_arith)
                requires
                    n < radix,
            ;
        }
        assert(out@ =~= start + numeral(n as nat, radix as nat));
    }
}

/// The decimal numeral of `n`.
pub fn decimal_of(n: u64) -> (s: String)
    ensures
        s@ == decimal(n as nat),
{
    let mut s: String = String::new();
    push_numeral(&mut s, n as u128, 10);
    assert(s@ =~= decimal(n as nat));
    s
}

/// The value of a digit character; 99 for what is no digit.
fn value_of_digit(c: char) -> (d: u32)
    ensures
        d == digit_value(c),
{
    let u: u32 = code_of(c);
    if 48 <= u && u <= 57 {
        u - 48
    } else if 97 <= u && u <= 102 {
        u - 87
    } else if 65 <= u && u <= 70 {
        u - 55
    } else {
        99
    }
}

/// Reads an unsigned number not above `max`.
pub fn read_number(s: &str, radix: u32, max: u64) -> (r: Option<u64>)
    requires
        2 <= radix <= 16,
    ensures
        match r {
            Some(n) => parse_number(s@, radix as nat, max as nat) == Some(n as nat),
            None => parse_number(s@, radix as nat, max as nat) is None,
        },
{
    let v: Vec<char> = chars_of(s);
    let from: usize = if v.len() > 0 && v[0] == '+' {
        1
    } else {
        0
    };
    let ghost body = v@.skip(from as int);
    proof {
        assert(s@.skip(0) =~= s@);
    }
    if from == v.len() {
        return None;
    }
    let mut i: usize = from;
    let mut n: u64 = 0;
    proof {
        assert(body.take(0) =~= Seq::<char>::empty());
    }
    while i < v.len()
        invariant
            2 <= radix <= 16,
            from <= i <= v.len(),
            body == v@.skip(from as int),
            n == value_of(body.take(i - from), radix as nat),
            n <= max,
            forall|j: int| 0 <= j < i - from ==> digit_value(#[trigger] body[j]) < radix,
            parse_number(s@, radix as nat, max as nat) == (if is_numeral(body, radix as nat)
                && value_of(body, radix as nat) <= max {
                Some(value_of(body, radix as nat))
            } else {
                None
            }),
        decreases v.len() - i,
    {
        let d: u32 = value_of_digit(v[i]);
        assert(body[i - from] == v@[i as int]);
        if d >= radix {
            return None;
        }
        assert(n * radix <= u64::MAX * 16) by (nonlinear_arith)
            requires
                n <= u64::MAX,
                radix <= 16,
        ;
        let next: u128 = n as u128 * radix as u128 + d as u128;
        proof {
            let k = i - from;
            assert(body.take(k + 1).drop_last() =~= body.take(k));
            assert(body.take(k + 1).last() == body[k]);
            lemma_value_monotone(body, k + 1, radix as nat);
        }
        if next > max as u128 {
            return None;
        }
        n = next as u64;
        i = i + 1;
    }
    proof {
        assert(body.take(i - from) =~= body);
    }
    Some(n)
}

/// A number is read back from its numeral, also behind a plus sign and behind zeros, unless it
/// is above what is asked for; what is no numeral is not read.
pub proof fn law_number_is_read_back(n: nat, radix: nat, max: nat, s: Seq<char>)
    requires
        2 <= radix <= 16,
    ensures
        n <= max ==> parse_number(numeral(n, radix), radix, max) == Some(n),
        n <= max ==> parse_number(seq!['+'] + numeral(n, radix), radix, max) == Some(n),
        n <= max ==> parse_number(seq!['0'] + numeral(n, radix), radix, max) == Some(n),
        n > max ==> parse_number(numeral(n, radix), radix, max) is None,
        s.len() == 0 ==> parse_number(s, radix, max) is None,
        parse_number(s, radix, max) matches Some(v) ==> v <= max,
{
    let t = numeral(n, radix);
    lemma_numeral_value(n, radix);
    assert(t[0] != '+');
    let plus = seq!['+'] + t;
    assert(plus.skip(1) =~= t);
    let zero = seq!['0'] + t;
    assert(zero[0] != '+');
    lemma_leading_zero(t, radix);
    assert forall|i: int| 0 <= i < zero.len() implies digit_value(#[trigger] zero[i]) < radix by {
        if i > 0 {
            assert(zero[i] == t[i - 1]);
        }
    }
}

proof fn lemma_leading_zero(t: Seq<char>, radix: nat)
    ensures
        value_of(seq!['0'] + t, radix) == value_of(t, radix),
    decreases t.len(),
{
    let zero = seq!['0'] + t;
    if t.len() == 0 {
        assert(zero.drop_last() =~= Seq::<char>::empty());
        assert(value_of(zero.drop_last(), radix) == 0);
        assert(0 * radix == 0) by (nonlinear_arith);
    } else {
        assert(zero.drop_last() =~= seq!['0'] + t.drop_last());
        assert(zero.last() == t.last());
        lemma_leading_zero(t.drop_last(), radix);
    }
}

} // verus!
