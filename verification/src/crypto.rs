//! The cryptographic primitives, called through trusted wrappers: HMAC
//! signing and verification for the session-token codec, and RSA signature
//! verification for identity-provider tokens.  Everything around them —
//! token framing, base64url, JSON, claim checks — is verified code.

use core::str::FromStr;
use vstd::prelude::*;

verus! {

/// The base64url text (as bytes) of the HMAC-SHA-256 tag of `msg` under
/// `secret`, as `jsonwebtoken::crypto::sign` produces it for `HS256`.
/// HMAC is a function of the two arguments alone.
pub uninterp spec fn hs256_sig_of(secret: Seq<u8>, msg: Seq<u8>) -> Seq<u8>;

/// Whether `jsonwebtoken::crypto::verify` accepts `sig` (base64url text,
/// as bytes) for `msg` under the RSA public key with base64url components
/// `n` and `e` and the algorithm named `alg`.  False whenever a component
/// or the signature does not decode, the key is unusable, or the algorithm
/// name is unknown; the outcome is a function of the five arguments alone.
pub uninterp spec fn rsa_sig_ok(
    n: Seq<char>,
    e: Seq<char>,
    alg: Seq<char>,
    msg: Seq<u8>,
    sig: Seq<u8>,
) -> bool;

/// Relies on `jsonwebtoken::crypto::sign` with `Algorithm::HS256`: HMAC
/// signing accepts a secret of any length, never fails, depends on the
/// secret and the message alone, and returns base64url ASCII text.
#[verifier::external_body]
pub fn hs256_sign(secret: &[u8], msg: &[u8]) -> (r: Vec<u8>)
    ensures
        r@ == hs256_sig_of(secret@, msg@),
        forall|i: int| 0 <= i < r@.len() ==> r@[i] < 128,
{
    let key = jsonwebtoken::EncodingKey::from_secret(secret);
    match jsonwebtoken::crypto::sign(msg, &key, jsonwebtoken::Algorithm::HS256) {
        Ok(s) => s.into_bytes(),
        Err(_) => Vec::new(),
    }
}

/// Relies on `jsonwebtoken::crypto::verify` with `Algorithm::HS256`: it
/// recomputes the HMAC tag of `msg` under `secret` and accepts exactly the
/// canonical base64url text of that tag — the engine rejects padding and
/// non-zero trailing bits, so each tag has one accepted encoding, and a
/// signature that is not UTF-8 cannot be that ASCII text.
#[verifier::external_body]
pub fn hs256_verify(secret: &[u8], msg: &[u8], sig: &[u8]) -> (r: bool)
    ensures
        r == (sig@ == hs256_sig_of(secret@, msg@)),
{
    let sig_s = match core::str::from_utf8(sig) {
        Ok(s) => s,
        Err(_) => return false,
    };
    let key = jsonwebtoken::DecodingKey::from_secret(secret);
    matches!(
        jsonwebtoken::crypto::verify(sig_s, msg, &key, jsonwebtoken::Algorithm::HS256),
        Ok(true)
    )
}

/// Relies on `jsonwebtoken::crypto::verify` with a key built by
/// `DecodingKey::from_rsa_components(n, e)` and the algorithm parsed by
/// `Algorithm::from_str(alg_name)`: RSA verification is deterministic in
/// these five arguments, and every failure — an unknown algorithm name, a
/// component, key or signature that does not decode, or a signature that
/// does not check out — comes back as `false`.
#[verifier::external_body]
pub fn rsa_verify(n: &str, e: &str, alg_name: &str, msg: &[u8], sig: &[u8]) -> (r: bool)
    ensures
        r == rsa_sig_ok(n@, e@, alg_name@, msg@, sig@),
{
    let algorithm = match jsonwebtoken::Algorithm::from_str(alg_name) {
        Ok(a) => a,
        Err(_) => return false,
    };
    let key = match jsonwebtoken::DecodingKey::from_rsa_components(n, e) {
        Ok(k) => k,
        Err(_) => return false,
    };
    let sig_s = match core::str::from_utf8(sig) {
        Ok(s) => s,
        Err(_) => return false,
    };
    matches!(jsonwebtoken::crypto::verify(sig_s, msg, &key, algorithm), Ok(true))
}

} // verus!
