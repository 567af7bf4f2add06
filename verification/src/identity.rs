//! Who a peer is: a certificate of its own, known by the digest of it.

use crate::digest;
use crate::digest::{hex_encode, sha256};
use crate::text;
use crate::text::{owned, same_text};
use vstd::prelude::*;
use vstd::string::StringExecFns;

verus! {

/// Our own identity.
pub struct Identity {
    pub cert_der: Vec<u8>,
    pub key_der: Vec<u8>,
    /// The fingerprint of the certificate.
    pub fingerprint: String,
}

/// The name that our certificates are made out to.
pub const CERTIFICATE_NAME: &'static str = "bigpaw";

/// Why there is no identity.
#[derive(Debug, Clone, PartialEq, Eq)]
pub enum IdentityError {
    /// A file could not be read or written.
    Io(String),
    /// No certificate could be made.
    Rcgen(String),
}

impl IdentityError {
    /// The message for the user.
    pub open spec fn message(self) -> Seq<char> {
        match self {
            IdentityError::Io(why) => "io: "@ + why@,
            IdentityError::Rcgen(why) => "证书生成失败: "@ + why@,
        }
    }

    /// The message for the user.
    pub fn to_text(&self) -> (r: String)
        ensures
            r@ == self.message(),
    {
        match self {
            IdentityError::Io(why) => {
                let mut s = owned("io: ");
                s.append(why.as_str());
                s
            },
            IdentityError::Rcgen(why) => {
                let mut s = owned("证书生成失败: ");
                s.append(why.as_str());
                s
            },
        }
    }
}

/// `rcgen::Error`.
#[verifier::external_type_specification]
#[verifier::external_body]
pub struct ExRcgenError(rcgen::Error);

/// `rcgen::generate_simple_self_signed`: a new key and a certificate for it, in
/// DER, made out to the names. The key is drawn at random, so nothing is stated
/// of either.
#[verifier::external_body]
fn self_signed(names: Vec<String>) -> (r: Result<(Vec<u8>, Vec<u8>), rcgen::Error>) {
    let made = rcgen::generate_simple_self_signed(names)?;
    Ok((made.cert.der().to_vec(), made.key_pair.serialize_der()))
}

/// `rcgen::Error` in words, as its `Display` gives them; nothing is stated of
/// them.
#[verifier::external_body]
fn rcgen_text(e: &rcgen::Error) -> (r: String) {
    e.to_string()
}

/// The fingerprint of a certificate: its SHA-256 digest in hexadecimal.
pub open spec fn fingerprint_of(cert: Seq<u8>) -> Seq<char> {
    digest::hex_text(digest::sha256_of(cert))
}

/// The fingerprint of a certificate, 64 small hexadecimal digits.
pub fn fp_of(cert: &[u8]) -> (r: String)
    ensures
        r@ == fingerprint_of(cert@),
        r@.len() == 64,
        digest::is_lower_hex(r@),
{
    let d = sha256(cert);
    proof {
        digest::law_hex_text(d@);
    }
    hex_encode(d.as_slice())
}

/// The names that a new certificate is made out to.
pub fn certificate_names() -> (r: Vec<String>)
    ensures
        text::texts(r@) == seq![CERTIFICATE_NAME@],
{
    let mut names: Vec<String> = Vec::new();
    names.push(owned(CERTIFICATE_NAME));
    assert(text::texts(names@) =~= seq![CERTIFICATE_NAME@]);
    names
}

impl Identity {
    /// The identity with this certificate and this key.
    pub fn from_parts(cert_der: Vec<u8>, key_der: Vec<u8>) -> (r: Self)
        ensures
            r.cert_der@ == cert_der@,
            r.key_der@ == key_der@,
            r.fingerprint@ == fingerprint_of(cert_der@),
            r.fingerprint@.len() == 64,
            digest::is_lower_hex(r.fingerprint@),
    {
        let fingerprint = fp_of(cert_der.as_slice());
        Identity { cert_der, key_der, fingerprint }
    }

    /// The identity of a certificate and a key that were just made, or why they
    /// could not be.
    pub fn created(made: Result<(Vec<u8>, Vec<u8>), String>) -> (r: Result<Self, IdentityError>)
        ensures
            match made {
                Ok((cert, key)) => {
                    &&& r is Ok
                    &&& r->Ok_0.cert_der@ == cert@
                    &&& r->Ok_0.key_der@ == key@
                    &&& r->Ok_0.fingerprint@ == fingerprint_of(cert@)
                    &&& r->Ok_0.fingerprint@.len() == 64
                },
                Err(why) => r == Err::<Self, IdentityError>(IdentityError::Rcgen(why)),
            },
    {
        match made {
            Ok((cert, key)) => Ok(Identity::from_parts(cert, key)),
            Err(why) => Err(IdentityError::Rcgen(why)),
        }
    }

    /// The identity that is kept, or a new one. `found` is what the two files
    /// hold, if both are there. Says also whether the identity is new, and so
    /// has to be kept.
    pub fn load_or_create(found: Option<(Vec<u8>, Vec<u8>)>) -> (r: Result<
        (Self, bool),
        IdentityError,
    >)
        ensures
            match found {
                Some((cert, key)) => {
                    &&& r is Ok
                    &&& r->Ok_0.0.cert_der@ == cert@
                    &&& r->Ok_0.0.key_der@ == key@
                    &&& !r->Ok_0.1
                },
                None => match r {
                    Ok((_, fresh)) => fresh,
                    Err(e) => e is Rcgen,
                },
            },
            r matches Ok((id, _)) ==> id.fingerprint@ == fingerprint_of(id.cert_der@)
                && id.fingerprint@.len() == 64,
    {
        match found {
            Some((cert, key)) => Ok((Identity::from_parts(cert, key), false)),
            None => {
                let made = match self_signed(certificate_names()) {
                    Ok(pair) => Ok(pair),
                    Err(e) => Err(rcgen_text(&e)),
                };
                match Identity::created(made) {
                    Ok(id) => Ok((id, true)),
                    Err(e) => Err(e),
                }
            },
        }
    }
}

/// Whether a server's certificate is the one that is expected: its fingerprint
/// is the pinned one.
pub fn pin_matches(cert: &[u8], expected_fp: &str) -> (r: bool)
    ensures
        r == (fingerprint_of(cert@) == expected_fp@),
{
    let fp = fp_of(cert);
    same_text(fp.as_str(), expected_fp)
}

/// The fingerprint of the other end: that of the first certificate it showed.
pub fn peer_fingerprint(certs: &[Vec<u8>]) -> (r: Option<String>)
    ensures
        r is Some <==> certs@.len() > 0,
        r matches Some(fp) ==> fp@ == fingerprint_of(certs@[0]@),
{
    if certs.len() > 0 {
        Some(fp_of(certs[0].as_slice()))
    } else {
        None
    }
}

/// Two certificates have the same fingerprint only if they have the same
/// digest.
pub proof fn law_fingerprint_is_the_digest(a: Seq<u8>, b: Seq<u8>)
    ensures
        fingerprint_of(a) == fingerprint_of(b) <==> digest::sha256_of(a) == digest::sha256_of(b),
{
    if fingerprint_of(a) == fingerprint_of(b) {
        digest::law_hex_text_tells_apart(digest::sha256_of(a), digest::sha256_of(b));
    }
}

/// The fingerprint writes the digest of the certificate byte by byte in small hexadecimal.
pub proof fn law_fingerprint_writes_the_digest(cert: Seq<u8>, i: int)
    requires
        0 <= i < digest::sha256_of(cert).len(),
    ensures
        fingerprint_of(cert).len() == 2 * digest::sha256_of(cert).len(),
        digest::is_lower_hex(fingerprint_of(cert)),
        crate::numeral::digit_value(fingerprint_of(cert)[2 * i]) * 16
            + crate::numeral::digit_value(fingerprint_of(cert)[2 * i + 1])
            == digest::sha256_of(cert)[i],
{
    digest::law_hex_text(digest::sha256_of(cert));
    digest::law_hex_text_goes_byte_by_byte(digest::sha256_of(cert), i);
}

} // verus!
