//! Network addresses as plain values.

use crate::numeral;
use crate::numeral::{push_numeral, read_number};
use crate::split;
use crate::text;
use crate::text::chars_of;
use vstd::prelude::*;

verus! {

/// An IPv4 address, as its 32 bits; the first octet is the highest.
#[derive(Clone, Copy, Debug, PartialEq, Eq, PartialOrd, Ord, Hash, Structural)]
pub struct Ipv4Addr {
    pub bits: u32,
}

/// An IP address of either family.
#[derive(Clone, Copy, Debug, PartialEq, Eq, PartialOrd, Ord, Hash, Structural)]
pub enum IpAddr {
    V4(Ipv4Addr),
    V6(u128),
}

/// An IPv4 address and a port.
#[derive(Clone, Copy, Debug, PartialEq, Eq, PartialOrd, Ord, Hash, Structural)]
pub struct SocketAddr {
    pub ip: Ipv4Addr,
    pub port: u16,
}

/// The address with the given four octets, as a number.
pub open spec fn from_octets(a: nat, b: nat, c: nat, d: nat) -> nat {
    a * 0x100_0000 + b * 0x1_0000 + c * 0x100 + d
}

/// Octet `k` of an address, counted from the first.
pub open spec fn octet(bits: nat, k: nat) -> nat {
    if k == 0 {
        bits / 0x100_0000
    } else if k == 1 {
        bits / 0x1_0000 % 0x100
    } else if k == 2 {
        bits / 0x100 % 0x100
    } else {
        bits % 0x100
    }
}

/// The dotted form of four octets.
pub open spec fn dotted(a: nat, b: nat, c: nat, d: nat) -> Seq<char> {
    numeral::decimal(a) + seq!['.'] + (numeral::decimal(b) + seq!['.'] + (numeral::decimal(c)
        + seq!['.'] + numeral::decimal(d)))
}

/// The dotted form of an address.
pub open spec fn ipv4_text(bits: nat) -> Seq<char> {
    dotted(octet(bits, 0), octet(bits, 1), octet(bits, 2), octet(bits, 3))
}

/// The address with the dotted form `s`, if there is one.
pub open spec fn ipv4_of_text(s: Seq<char>) -> Option<Ipv4Addr> {
    if exists|ip: Ipv4Addr| #[trigger] ipv4_text(ip.bits as nat) == s {
        Some(choose|ip: Ipv4Addr| #[trigger] ipv4_text(ip.bits as nat) == s)
    } else {
        None
    }
}

/// Reading the dotted form of an address gives the address back.
pub proof fn law_ipv4_text_round_trip(ip: Ipv4Addr)
    ensures
        ipv4_of_text(ipv4_text(ip.bits as nat)) == Some(ip),
{
    let s = ipv4_text(ip.bits as nat);
    let r = choose|r: Ipv4Addr| #[trigger] ipv4_text(r.bits as nat) == s;
    lemma_ipv4_text_injective(r.bits as nat, ip.bits as nat);
}

/// The dotted form of an address holds no character but dots and digits.
pub proof fn lemma_ipv4_text_chars(bits: nat)
    ensures
        ipv4_text(bits).len() > 0,
        forall|i: int|
            0 <= i < ipv4_text(bits).len() ==> {
                let u = #[trigger] ipv4_text(bits)[i] as int;
                u == 46 || 48 <= u <= 57 || 97 <= u <= 102
            },
{
    numeral::lemma_numeral_value(octet(bits, 0), 10);
    numeral::lemma_numeral_value(octet(bits, 1), 10);
    numeral::lemma_numeral_value(octet(bits, 2), 10);
    numeral::lemma_numeral_value(octet(bits, 3), 10);
}

proof fn lemma_no_dot(n: nat)
    ensures
        !numeral::decimal(n).contains('.'),
{
    numeral::lemma_numeral_value(n, 10);
}

/// The pieces of a dotted form between its dots are the numerals of its octets.
proof fn lemma_dotted_pieces(a: nat, b: nat, c: nat, d: nat)
    ensures
        split::split_at_char(dotted(a, b, c, d), '.') == seq![
            numeral::decimal(a),
            numeral::decimal(b),
            numeral::decimal(c),
            numeral::decimal(d),
        ],
{
    lemma_no_dot(a);
    lemma_no_dot(b);
    lemma_no_dot(c);
    lemma_no_dot(d);
    let r2 = numeral::decimal(c) + seq!['.'] + numeral::decimal(d);
    let r1 = numeral::decimal(b) + seq!['.'] + r2;
    split::lemma_split_piece(numeral::decimal(a), '.', r1);
    split::lemma_split_piece(numeral::decimal(b), '.', r2);
    split::lemma_split_piece(numeral::decimal(c), '.', numeral::decimal(d));
    split::lemma_split_last(numeral::decimal(d), '.');
    assert(split::split_at_char(dotted(a, b, c, d), '.') =~= seq![
        numeral::decimal(a),
        numeral::decimal(b),
        numeral::decimal(c),
        numeral::decimal(d),
    ]);
}

/// The text that splits into four pieces is those pieces with dots between.
proof fn lemma_four_pieces(s: Seq<char>)
    requires
        split::split_at_char(s, '.').len() == 4,
    ensures
        ({
            let p = split::split_at_char(s, '.');
            s == p[0] + seq!['.'] + (p[1] + seq!['.'] + (p[2] + seq!['.'] + p[3]))
        }),
{
    reveal_with_fuel(split::split_at_char, 5);
    let p = split::split_at_char(s, '.');
    text::lemma_index_of(s, '.');
    let i = text::index_of(s, '.');
    let s1 = s.skip(i + 1);
    text::lemma_index_of(s1, '.');
    let j = text::index_of(s1, '.');
    let s2 = s1.skip(j + 1);
    text::lemma_index_of(s2, '.');
    let k = text::index_of(s2, '.');
    let s3 = s2.skip(k + 1);
    assert(p =~= seq![s.take(i)] + split::split_at_char(s1, '.'));
    assert(split::split_at_char(s1, '.').len() == 3);
    assert(split::split_at_char(s1, '.') =~= seq![s1.take(j)] + split::split_at_char(s2, '.'));
    assert(split::split_at_char(s2, '.').len() == 2);
    assert(split::split_at_char(s2, '.') =~= seq![s2.take(k)] + split::split_at_char(s3, '.'));
    assert(split::split_at_char(s3, '.').len() == 1);
    assert(split::split_at_char(s3, '.') =~= seq![s3]) by {
        text::lemma_index_of(s3, '.');
        let l = text::index_of(s3, '.');
        if l < s3.len() {
            split::lemma_split_pieces(s3.skip(l + 1), '.');
        }
    }
    assert(s2 =~= s2.take(k) + seq!['.'] + s3);
    assert(s1 =~= s1.take(j) + seq!['.'] + s2);
    assert(s =~= s.take(i) + seq!['.'] + s1);
}

/// The octets of the address made from four octets are those octets.
pub proof fn lemma_octets(a: nat, b: nat, c: nat, d: nat)
    requires
        a < 256,
        b < 256,
        c < 256,
        d < 256,
    ensures
        octet(from_octets(a, b, c, d), 0) == a,
        octet(from_octets(a, b, c, d), 1) == b,
        octet(from_octets(a, b, c, d), 2) == c,
        octet(from_octets(a, b, c, d), 3) == d,
        from_octets(a, b, c, d) <= u32::MAX,
{
    let n = from_octets(a, b, c, d);
    let high = a * 0x100 + b;
    assert(n / 0x100_0000 == a) by {
        let low = b * 0x1_0000 + c * 0x100 + d;
        assert(low < 0x100_0000);
        assert(n == a * 0x100_0000 + low);
    }
    assert(n / 0x1_0000 == high) by {
        let low = c * 0x100 + d;
        assert(low < 0x1_0000);
        assert(n == high * 0x1_0000 + low);
    }
    assert(high % 0x100 == b);
    assert(n / 0x100 == high * 0x100 + c) by {
        assert(n == (high * 0x100 + c) * 0x100 + d);
    }
    assert((high * 0x100 + c) % 0x100 == c);
    assert(n % 0x100 == d) by {
        assert(n == (high * 0x100 + c) * 0x100 + d);
    }
}

/// The address made from its own octets is the address.
pub proof fn lemma_from_own_octets(n: nat)
    requires
        n <= u32::MAX,
    ensures
        from_octets(octet(n, 0), octet(n, 1), octet(n, 2), octet(n, 3)) == n,
        octet(n, 0) < 256,
        octet(n, 1) < 256,
        octet(n, 2) < 256,
        octet(n, 3) < 256,
{
}

/// Two addresses with the same dotted form are the same address.
pub proof fn lemma_ipv4_text_injective(m: nat, n: nat)
    requires
        m <= u32::MAX,
        n <= u32::MAX,
        ipv4_text(m) == ipv4_text(n),
    ensures
        m == n,
{
    lemma_from_own_octets(m);
    lemma_from_own_octets(n);
    lemma_dotted_pieces(octet(m, 0), octet(m, 1), octet(m, 2), octet(m, 3));
    lemma_dotted_pieces(octet(n, 0), octet(n, 1), octet(n, 2), octet(n, 3));
    let p = split::split_at_char(ipv4_text(m), '.');
    assert forall|k: nat| k < 4 implies octet(m, k) == octet(n, k) by {
        numeral::lemma_numeral_value(octet(m, k), 10);
        numeral::lemma_numeral_value(octet(n, k), 10);
        assert(p[k as int] == numeral::decimal(octet(m, k)));
        assert(p[k as int] == numeral::decimal(octet(n, k)));
    }
    assert(octet(m, 0) == octet(n, 0));
    assert(octet(m, 1) == octet(n, 1));
    assert(octet(m, 2) == octet(n, 2));
    assert(octet(m, 3) == octet(n, 3));
}

/// Whether the text is the numeral of an octet.
pub open spec fn is_octet_text(s: Seq<char>) -> bool {
    exists|n: nat| n < 256 && s == #[trigger] numeral::decimal(n)
}

/// The octet with this numeral, if it is one.
fn read_octet(s: &str) -> (r: Option<u8>)
    ensures
        match r {
            Some(n) => s@ == numeral::decimal(n as nat),
            None => !is_octet_text(s@),
        },
{
    let v: Vec<char> = chars_of(s);
    let n: Option<u64> = read_number(s, 10, 255);
    proof {
        assert forall|m: nat| m < 256 && s@ == #[trigger] numeral::decimal(m) implies ({
            &&& n == Some(m as u64)
            &&& s@.len() > 0
            &&& s@[0] != '+'
            &&& (s@.len() == 1 || s@[0] != '0')
        }) by {
            numeral::lemma_parse_numeral(m, 10, 255);
            numeral::lemma_numeral_value(m, 10);
            lemma_no_leading_zero(m);
        }
    }
    if v.len() == 0 || v[0] == '+' || (v.len() > 1 && v[0] == '0') {
        return None;
    }
    match n {
        None => None,
        Some(n) => {
            proof {
                numeral::lemma_value_numeral(s@);
            }
            Some(n as u8)
        },
    }
}

/// A numeral of more than one digit does not begin with a zero.
proof fn lemma_no_leading_zero(m: nat)
    ensures
        numeral::decimal(m).len() == 1 || numeral::decimal(m)[0] != '0',
        m > 0 ==> numeral::decimal(m)[0] != '0',
    decreases m,
{
    if m >= 10 {
        lemma_no_leading_zero(m / 10);
        assert(numeral::decimal(m)[0] == numeral::decimal(m / 10)[0]) by {
            assert(numeral::decimal(m) =~= numeral::decimal(m / 10).push(
                numeral::digit_char(m % 10),
            ));
            numeral::lemma_numeral_value(m / 10, 10);
        }
    }
}

impl Ipv4Addr {
    /// The address with the given octets.
    pub fn new(a: u8, b: u8, c: u8, d: u8) -> (r: Self)
        ensures
            r.bits == from_octets(a as nat, b as nat, c as nat, d as nat),
    {
        Ipv4Addr { bits: a as u32 * 0x100_0000 + b as u32 * 0x1_0000 + c as u32 * 0x100 + d as u32 }
    }

    /// The four octets.
    pub fn octets(&self) -> (r: (u8, u8, u8, u8))
        ensures
            r.0 == octet(self.bits as nat, 0),
            r.1 == octet(self.bits as nat, 1),
            r.2 == octet(self.bits as nat, 2),
            r.3 == octet(self.bits as nat, 3),
    {
        let n: u32 = self.bits;
        (
            (n / 0x100_0000) as u8,
            (n / 0x1_0000 % 0x100) as u8,
            (n / 0x100 % 0x100) as u8,
            (n % 0x100) as u8,
        )
    }

    /// The dotted form.
    pub fn to_text(&self) -> (s: String)
        ensures
            s@ == ipv4_text(self.bits as nat),
    {
        let (a, b, c, d) = self.octets();
        let mut s: String = String::new();
        push_numeral(&mut s, a as u128, 10);
        s.push('.');
        push_numeral(&mut s, b as u128, 10);
        s.push('.');
        push_numeral(&mut s, c as u128, 10);
        s.push('.');
        push_numeral(&mut s, d as u128, 10);
        assert(s@ =~= ipv4_text(self.bits as nat));
        s
    }

    /// The address with this dotted form, if there is one: four decimal
    /// octets without leading zeros.
    pub fn parse(s: &str) -> (r: Option<Self>)
        ensures
            r == ipv4_of_text(s@),
    {
        let parts: Vec<String> = split::split(s, '.');
        let ghost p = split::split_at_char(s@, '.');
        proof {
            assert(parts@.len() == p.len());
            assert forall|ip: Ipv4Addr| #[trigger] ipv4_text(ip.bits as nat) == s@ implies ({
                &&& p.len() == 4
                &&& forall|k: int| 0 <= k < 4 ==> is_octet_text(#[trigger] p[k])
            }) by {
                let n = ip.bits as nat;
                lemma_from_own_octets(n);
                lemma_dotted_pieces(octet(n, 0), octet(n, 1), octet(n, 2), octet(n, 3));
                assert forall|k: int| 0 <= k < 4 implies is_octet_text(#[trigger] p[k]) by {
                    assert(p[k] == numeral::decimal(octet(n, k as nat)));
                    assert(octet(n, k as nat) < 256);
                }
            }
        }
        if parts.len() != 4 {
            return None;
        }
        proof {
            assert(forall|k: int| 0 <= k < 4 ==> p[k] == (#[trigger] parts@[k])@);
        }
        let a: Option<u8> = read_octet(&parts[0]);
        let b: Option<u8> = read_octet(&parts[1]);
        let c: Option<u8> = read_octet(&parts[2]);
        let d: Option<u8> = read_octet(&parts[3]);
        match (a, b, c, d) {
            (Some(a), Some(b), Some(c), Some(d)) => {
                let r: Ipv4Addr = Ipv4Addr::new(a, b, c, d);
                proof {
                    lemma_octets(a as nat, b as nat, c as nat, d as nat);
                    lemma_four_pieces(s@);
                    assert(s@ =~= ipv4_text(r.bits as nat));
                    law_ipv4_text_round_trip(r);
                }
                Some(r)
            },
            _ => {
                proof {
                    assert(!is_octet_text(p[0]) || !is_octet_text(p[1]) || !is_octet_text(p[2])
                        || !is_octet_text(p[3])) by {
                        assert(p[0] == parts@[0]@);
                        assert(p[1] == parts@[1]@);
                        assert(p[2] == parts@[2]@);
                        assert(p[3] == parts@[3]@);
                    }
                }
                None
            },
        }
    }
}

/// An address is written as its four bytes in decimal, from the highest on, with dots
/// between them.
pub proof fn law_address_is_written_byte_by_byte(a: nat, b: nat, c: nat, d: nat)
    requires
        a < 256,
        b < 256,
        c < 256,
        d < 256,
    ensures
        ipv4_text(a * 16_777_216 + b * 65_536 + c * 256 + d) == numeral::decimal(a) + seq!['.'] + (
        numeral::decimal(b) + seq!['.'] + (numeral::decimal(c) + seq!['.'] + numeral::decimal(d))),
{
    lemma_octets(a, b, c, d);
}

} // verus!
