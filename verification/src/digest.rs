//! Digests of bytes, in hexadecimal.

use crate::numeral;
use vstd::prelude::*;

verus! {

/// Bytes in hexadecimal: two small digits each.
pub open spec fn hex_text(b: Seq<u8>) -> Seq<char>
    decreases b.len(),
{
    if b.len() == 0 {
        Seq::empty()
    } else {
        hex_text(b.drop_last()) + seq![
            numeral::digit_char((b.last() / 16) as nat),
            numeral::digit_char((b.last() % 16) as nat),
        ]
    }
}

/// Whether all characters are small hexadecimal digits.
pub open spec fn is_lower_hex(s: Seq<char>) -> bool {
    forall|i: int| 0 <= i < s.len() ==> ('0' <= #[trigger] s[i] <= '9' || 'a' <= s[i] <= 'f')
}

/// Bytes in hexadecimal take two characters each, all of them small digits.
pub proof fn law_hex_text(b: Seq<u8>)
    ensures
        hex_text(b).len() == 2 * b.len(),
        is_lower_hex(hex_text(b)),
    decreases b.len(),
{
    if b.len() > 0 {
        law_hex_text(b.drop_last());
    }
}

/// Bytes can be told from their text in hexadecimal.
pub proof fn law_hex_text_tells_apart(a: Seq<u8>, b: Seq<u8>)
    requires
        hex_text(a) == hex_text(b),
    ensures
        a == b,
    decreases a.len(),
{
    law_hex_text(a);
    law_hex_text(b);
    if a.len() > 0 {
        let x = hex_text(a);
        let y = hex_text(b);
        law_hex_text(a.drop_last());
        law_hex_text(b.drop_last());
        let n = 2 * (a.len() - 1);
        assert(x.take(n) =~= hex_text(a.drop_last()));
        assert(y.take(n) =~= hex_text(b.drop_last()));
        law_hex_text_tells_apart(a.drop_last(), b.drop_last());
        assert(x[n] == y[n] && x[n + 1] == y[n + 1]);
        assert(a.last() == b.last());
        assert(a =~= a.drop_last().push(a.last()));
        assert(b =~= b.drop_last().push(b.last()));
    } else {
        assert(a =~= b);
    }
}

/// What `sha2::Sha256` makes of the bytes.
pub uninterp spec fn sha256_of(b: Seq<u8>) -> Seq<u8>;

/// `sha2::Sha256::digest`: the digest of the bytes, 32 bytes long.
#[verifier::external_body]
pub(crate) fn sha256(b: &[u8]) -> (r: Vec<u8>)
    ensures
        r@ == sha256_of(b@),
        r@.len() == 32,
{
    <sha2::Sha256 as sha2::Digest>::digest(b).to_vec()
}

/// `hex::encode`: two small hexadecimal digits for each byte.
#[verifier::external_body]
pub(crate) fn hex_encode(b: &[u8]) -> (r: String)
    ensures
        r@ == hex_text(b@),
{
    hex::encode(b)
}

// ---------------------------------------------------------------------------
// A digest over pieces
// ---------------------------------------------------------------------------

/// `blake3::Hasher`.
#[verifier::external_type_specification]
#[verifier::external_body]
pub struct ExBlake3Hasher(blake3::Hasher);

/// The bytes that a `blake3::Hasher` has taken in; nothing for one that was
/// made with a key, for a derivation, or with an input offset.
pub uninterp spec fn absorbed(h: blake3::Hasher) -> Option<Seq<u8>>;

/// What `blake3` makes of the bytes.
pub uninterp spec fn blake3_sum(b: Seq<u8>) -> Seq<u8>;

/// The same in hexadecimal.
pub open spec fn blake3_hex(b: Seq<u8>) -> Seq<char> {
    hex_text(blake3_sum(b))
}

/// `blake3::Hasher::new`: a plain hasher that has taken in nothing.
#[verifier::external_body]
fn hasher_new() -> (h: blake3::Hasher)
    ensures
        absorbed(h) == Some(Seq::<u8>::empty()),
{
    blake3::Hasher::new()
}

/// `blake3::Hasher::update`: the bytes are taken in behind those before.
#[verifier::external_body]
fn hasher_update(h: &mut blake3::Hasher, b: &[u8])
    requires
        absorbed(*old(h)) is Some,
    ensures
        absorbed(*final(h)) == Some(absorbed(*old(h))->0 + b@),
{
    h.update(b);
}

/// `blake3::Hasher::finalize` and `blake3::Hash::to_hex`: the digest of all
/// that was taken in, 32 bytes, in small hexadecimal digits.
#[verifier::external_body]
fn hasher_hex(h: &blake3::Hasher) -> (r: String)
    requires
        absorbed(*h) is Some,
    ensures
        r@ == hex_text(blake3_sum(absorbed(*h)->0)),
        r@.len() == 64,
{
    h.finalize().to_hex().to_string()
}

/// A digest that takes in bytes piece by piece.
pub struct Blake3 {
    hasher: blake3::Hasher,
}

impl View for Blake3 {
    type V = Seq<u8>;

    /// The bytes taken in so far.
    closed spec fn view(&self) -> Seq<u8> {
        absorbed(self.hasher)->0
    }
}

impl Blake3 {
    #[verifier::type_invariant]
    spec fn is_plain(self) -> bool {
        absorbed(self.hasher) is Some
    }

    /// A digest of nothing.
    pub fn new() -> (r: Self)
        ensures
            r@.len() == 0,
    {
        Blake3 { hasher: hasher_new() }
    }

    /// Takes in more bytes.
    pub fn update(&mut self, b: &[u8])
        ensures
            final(self)@ == old(self)@ + b@,
    {
        proof {
            use_type_invariant(&*self);
        }
        let mut h = hasher_new();
        std::mem::swap(&mut h, &mut self.hasher);
        hasher_update(&mut h, b);
        self.hasher = h;
    }

    /// The digest of what was taken in, in hexadecimal.
    pub fn hex(&self) -> (r: String)
        ensures
            r@ == blake3_hex(self@),
            r@.len() == 64,
            is_lower_hex(r@),
    {
        proof {
            use_type_invariant(self);
            law_hex_text(blake3_sum(self@));
        }
        hasher_hex(&self.hasher)
    }
}

/// The digest of the bytes, in hexadecimal.
pub fn blake3_of(b: &[u8]) -> (r: String)
    ensures
        r@ == blake3_hex(b@),
        r@.len() == 64,
        is_lower_hex(r@),
{
    let mut d = Blake3::new();
    d.update(b);
    assert(d@ =~= b@);
    d.hex()
}

/// Each byte stands in the text at its own place, its higher half first.
pub proof fn law_hex_text_goes_byte_by_byte(b: Seq<u8>, i: int)
    requires
        0 <= i < b.len(),
    ensures
        hex_text(b).len() == 2 * b.len(),
        numeral::digit_value(hex_text(b)[2 * i]) * 16 + numeral::digit_value(hex_text(b)[2 * i + 1])
            == b[i],
    decreases b.len(),
{
    law_hex_text(b);
    law_hex_text(b.drop_last());
    if i < b.len() - 1 {
        law_hex_text_goes_byte_by_byte(b.drop_last(), i);
        assert(hex_text(b)[2 * i] == hex_text(b.drop_last())[2 * i]);
        assert(hex_text(b)[2 * i + 1] == hex_text(b.drop_last())[2 * i + 1]);
    }
}

} // verus!
