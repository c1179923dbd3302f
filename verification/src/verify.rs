//! Verification of identity-provider tokens against a fetched key set:
//! the token's key is located by the key-id of its header, the algorithm
//! is taken from the stored key (never from the attacker-controlled
//! header), and full verification is attempted once per acceptable issuer.
//! Framing, header and claim checks are verified code; only the RSA
//! signature check itself is a trusted call.

use vstd::prelude::*;
use vstd::string::StringSliceAdditionalSpecFns;
use vstd::utf8::{encode_utf8, valid_utf8};

use crate::bytesutil::{bytes_eq, bytes_to_string, find_byte, first_index, lemma_first_index};
use crate::base64url::{b64_decode, b64url_decode_range};
use crate::crypto::{rsa_sig_ok, rsa_verify};
use crate::json::{
    fields_view, get_int_field, get_str_field, parse_top_fields, req_int, req_str,
    spec_top_fields,
};
use crate::keys::{name_alg, name_kid, spec_find_key, JwkKey, JwkKeys};
use crate::session::{name_exp, name_sub};

verus! {

/// The claim set of a verified identity-provider token.
#[derive(Debug, PartialEq, Eq)]
pub struct Claims {
    /// The audience the token was issued for.
    pub aud: String,
    /// The expiry, as epoch seconds.
    pub exp: i64,
    /// The token issuer.
    pub iss: String,
    /// The subject the token refers to.
    pub sub: String,
    /// When the token was issued, as epoch seconds.
    pub iat: i64,
    /// Provider profile fields.
    pub email: String,
    pub name: String,
    pub picture: String,
}

/// The mathematical content of a parsed claim set, strings as their bytes.
pub struct ClaimsBytes {
    pub aud: Seq<u8>,
    pub exp: i64,
    pub iss: Seq<u8>,
    pub sub: Seq<u8>,
    pub iat: i64,
    pub email: Seq<u8>,
    pub name: Seq<u8>,
    pub picture: Seq<u8>,
}

/// Whether the claim struct holds exactly the parsed bytes, field for field.
pub open spec fn claims_match(c: Claims, b: ClaimsBytes) -> bool {
    &&& encode_utf8(c.aud@) == b.aud
    &&& c.exp == b.exp
    &&& encode_utf8(c.iss@) == b.iss
    &&& encode_utf8(c.sub@) == b.sub
    &&& c.iat == b.iat
    &&& encode_utf8(c.email@) == b.email
    &&& encode_utf8(c.name@) == b.name
    &&& encode_utf8(c.picture@) == b.picture
}

/// Whether every string field can be held in a `String`.
pub open spec fn claims_utf8(b: ClaimsBytes) -> bool {
    valid_utf8(b.aud) && valid_utf8(b.iss) && valid_utf8(b.sub) && valid_utf8(b.email)
        && valid_utf8(b.name) && valid_utf8(b.picture)
}

/// Why one issuer's verification attempt failed.
#[derive(Debug, PartialEq, Eq, Structural, Clone, Copy)]
pub enum IssuerError {
    /// The signature does not verify under the located key.
    BadSignature,
    /// The payload is not a claim set of the expected shape.
    MalformedClaims,
    /// The audience differs from the configured audience.
    WrongAudience,
    /// The issuer claim differs from this acceptable issuer.
    WrongIssuer,
    /// The expiry has passed.
    Expired,
}

/// Why a token was rejected as a whole.
#[derive(Debug)]
pub enum VerificationError {
    /// The header could not be read, or carries no usable key-id.
    InvalidToken(String),
    /// No key in the key set has the token's key-id: the caller should
    /// refresh the key set and retry rather than fail hard.
    KeyNotFound,
    /// Every acceptable issuer was tried and failed, each for this reason.
    FailedToDecode(Vec<IssuerError>),
    /// The located key declares an algorithm the verifier cannot evaluate.
    UnknownKeyAlgorithm,
}

/// The specification-level rejection.
pub enum VerifyErrorS {
    InvalidToken,
    KeyNotFound,
    FailedToDecode(Seq<IssuerError>),
    UnknownKeyAlgorithm,
}

pub open spec fn name_aud() -> Seq<u8> {
    seq![97u8, 117u8, 100u8]  // aud
}

pub open spec fn name_iss() -> Seq<u8> {
    seq![105u8, 115u8, 115u8]  // iss
}

pub open spec fn name_iat() -> Seq<u8> {
    seq![105u8, 97u8, 116u8]  // iat
}

pub open spec fn name_email() -> Seq<u8> {
    seq![101u8, 109u8, 97u8, 105u8, 108u8]  // email
}

pub open spec fn name_name() -> Seq<u8> {
    seq![110u8, 97u8, 109u8, 101u8]  // name
}

pub open spec fn name_picture() -> Seq<u8> {
    seq![112u8, 105u8, 99u8, 116u8, 117u8, 114u8, 101u8]  // picture
}

/// The algorithm names a token header may declare.
pub open spec fn known_alg(a: Seq<u8>) -> bool {
    ||| a == seq![72u8, 83u8, 50u8, 53u8, 54u8]  // HS256
    ||| a == seq![72u8, 83u8, 51u8, 56u8, 52u8]  // HS384
    ||| a == seq![72u8, 83u8, 53u8, 49u8, 50u8]  // HS512
    ||| a == seq![69u8, 83u8, 50u8, 53u8, 54u8]  // ES256
    ||| a == seq![69u8, 83u8, 51u8, 56u8, 52u8]  // ES384
    ||| a == seq![82u8, 83u8, 50u8, 53u8, 54u8]  // RS256
    ||| a == seq![82u8, 83u8, 51u8, 56u8, 52u8]  // RS384
    ||| a == seq![82u8, 83u8, 53u8, 49u8, 50u8]  // RS512
    ||| a == seq![80u8, 83u8, 50u8, 53u8, 54u8]  // PS256
    ||| a == seq![80u8, 83u8, 51u8, 56u8, 52u8]  // PS384
    ||| a == seq![80u8, 83u8, 53u8, 49u8, 50u8]  // PS512
    ||| a == seq![69u8, 100u8, 68u8, 83u8, 65u8]  // EdDSA
}

/// The algorithm names the verifier can evaluate for a JWK RSA key.
pub open spec fn rsa_alg(a: Seq<u8>) -> bool {
    ||| a == seq![82u8, 83u8, 50u8, 53u8, 54u8]  // RS256
    ||| a == seq![82u8, 83u8, 51u8, 56u8, 52u8]  // RS384
    ||| a == seq![82u8, 83u8, 53u8, 49u8, 50u8]  // RS512
    ||| a == seq![80u8, 83u8, 50u8, 53u8, 54u8]  // PS256
    ||| a == seq![80u8, 83u8, 51u8, 56u8, 52u8]  // PS384
    ||| a == seq![80u8, 83u8, 53u8, 49u8, 50u8]  // PS512
}

/// The eight required claim fields; unknown members are ignored, and a
/// missing, duplicate or differently-typed field rejects the claim set,
/// as does a string field that is not valid UTF-8.
pub open spec fn claims_of_fields(flds: Seq<(Seq<u8>, crate::json::JFieldS)>) -> Option<
    ClaimsBytes,
> {
    match (
        req_str(flds, name_aud()),
        req_int(flds, name_exp()),
        req_str(flds, name_iss()),
        req_str(flds, name_sub()),
        req_int(flds, name_iat()),
        req_str(flds, name_email()),
        req_str(flds, name_name()),
        req_str(flds, name_picture()),
    ) {
        (
            Some(aud),
            Some(exp),
            Some(iss),
            Some(sub),
            Some(iat),
            Some(email),
            Some(name),
            Some(picture),
        ) => {
            let b = ClaimsBytes { aud, exp, iss, sub, iat, email, name, picture };
            if claims_utf8(b) {
                Some(b)
            } else {
                None
            }
        },
        _ => None,
    }
}

/// The claim set carried by token bytes `t` with dots at `d1` and `d2`.
pub open spec fn spec_token_claims(t: Seq<u8>, d1: int, d2: int) -> Option<ClaimsBytes> {
    match b64_decode(t.subrange(d1 + 1, d2)) {
        Some(pb) => match spec_top_fields(pb) {
            Some(pf) => claims_of_fields(pf),
            None => None,
        },
        None => None,
    }
}

/// The key-id of the token header, if the header is well formed: it must
/// decode, be a JSON object, declare a known algorithm, and name a key-id.
pub open spec fn spec_header_kid(t: Seq<u8>, d1: int) -> Option<Seq<u8>> {
    match b64_decode(t.subrange(0, d1)) {
        Some(hb) => match spec_top_fields(hb) {
            Some(hf) => match (req_str(hf, name_alg()), req_str(hf, name_kid())) {
                (Some(alg), Some(kid)) => if known_alg(alg) && valid_utf8(kid) {
                    Some(kid)
                } else {
                    None
                },
                _ => None,
            },
            None => None,
        },
        None => None,
    }
}

/// The outcome of one issuer's attempt: `None` is success.  The signature
/// is checked first, then the claim set's shape, then the audience, the
/// issuer, and last the expiry; issued-at is carried but not checked.
pub open spec fn issuer_outcome(
    sig_ok: bool,
    copt: Option<ClaimsBytes>,
    aud: Seq<u8>,
    iss: Seq<u8>,
    now: u64,
) -> Option<IssuerError> {
    if !sig_ok {
        Some(IssuerError::BadSignature)
    } else {
        match copt {
            None => Some(IssuerError::MalformedClaims),
            Some(c) => {
                if c.aud != aud {
                    Some(IssuerError::WrongAudience)
                } else if c.iss != iss {
                    Some(IssuerError::WrongIssuer)
                } else if !(now < c.exp) {
                    Some(IssuerError::Expired)
                } else {
                    None
                }
            },
        }
    }
}

/// Tries the issuers in order: the first success wins and the claims come
/// back unchanged; if every issuer fails, all their errors come back.
pub open spec fn run_issuers(
    sig_ok: bool,
    copt: Option<ClaimsBytes>,
    aud: Seq<u8>,
    issuers: Seq<Seq<u8>>,
    now: u64,
    acc: Seq<IssuerError>,
) -> Result<ClaimsBytes, Seq<IssuerError>>
    decreases issuers.len(),
{
    if issuers.len() == 0 {
        Err(acc)
    } else {
        match issuer_outcome(sig_ok, copt, aud, issuers.first(), now) {
            None => Ok(copt.unwrap()),
            Some(e) => run_issuers(sig_ok, copt, aud, issuers.drop_first(), now, acc.push(e)),
        }
    }
}

/// However many earlier issuers fail, a configured issuer whose checks
/// all pass makes verification succeed, and the claims come back
/// unchanged: with a good signature and a well-shaped claim set naming
/// the configured audience, the issuer at position `k`, and an expiry
/// still ahead, the issuer iteration ends in success.
pub proof fn lemma_issuer_match_wins(
    sig_ok: bool,
    copt: Option<ClaimsBytes>,
    aud: Seq<u8>,
    issuers: Seq<Seq<u8>>,
    now: u64,
    acc: Seq<IssuerError>,
    k: int,
)
    requires
        0 <= k < issuers.len(),
        issuer_outcome(sig_ok, copt, aud, issuers[k], now) is None,
    ensures
        run_issuers(sig_ok, copt, aud, issuers, now, acc) == Ok::<ClaimsBytes, Seq<IssuerError>>(
            copt.unwrap(),
        ),
    decreases issuers.len(),
{
    match issuer_outcome(sig_ok, copt, aud, issuers.first(), now) {
        None => {},
        Some(e) => {
            assert(k != 0);
            assert(issuers.drop_first()[k - 1] == issuers[k]);
            lemma_issuer_match_wins(
                sig_ok,
                copt,
                aud,
                issuers.drop_first(),
                now,
                acc.push(e),
                k - 1,
            );
        },
    }
}

/// Index of the latest key whose key-id has these bytes.
pub open spec fn spec_find_key_bytes(keys: Seq<JwkKey>, kid: Seq<u8>) -> Option<int>
    decreases keys.len(),
{
    if keys.len() == 0 {
        None
    } else if encode_utf8(keys.last().kid@) == kid {
        Some(keys.len() - 1)
    } else {
        spec_find_key_bytes(keys.drop_last(), kid)
    }
}

/// Key lookup by decoded text and by bytes agree.
proof fn lemma_find_key_bytes(keys: Seq<JwkKey>, s: Seq<char>)
    ensures
        spec_find_key(keys, s) == spec_find_key_bytes(keys, encode_utf8(s)),
    decreases keys.len(),
{
    if keys.len() > 0 {
        if encode_utf8(keys.last().kid@) == encode_utf8(s) {
            crate::bytesutil::lemma_encode_utf8_injective(keys.last().kid@, s);
        }
        lemma_find_key_bytes(keys.drop_last(), s);
    }
}

/// The issuer strings as byte sequences.
pub open spec fn issuers_bytes(v: Seq<String>) -> Seq<Seq<u8>> {
    v.map_values(|s: String| encode_utf8(s@))
}

/// What verification of token bytes `t` yields against the key set `keys`
/// for the configured audience and acceptable issuers at time `now`.
pub open spec fn spec_verify_jwt(
    t: Seq<u8>,
    keys: Seq<JwkKey>,
    aud: Seq<u8>,
    issuers: Seq<Seq<u8>>,
    now: u64,
) -> Result<ClaimsBytes, VerifyErrorS> {
    let d1 = first_index(t, 46);
    if d1 == t.len() {
        Err(VerifyErrorS::InvalidToken)
    } else {
        let d2 = d1 + 1 + first_index(t.skip(d1 + 1), 46);
        if d2 == t.len() {
            Err(VerifyErrorS::InvalidToken)
        } else {
            match spec_header_kid(t, d1) {
                None => Err(VerifyErrorS::InvalidToken),
                Some(kid) => match spec_find_key_bytes(keys, kid) {
                    None => Err(VerifyErrorS::KeyNotFound),
                    Some(ki) => {
                        let key = keys[ki];
                        if !rsa_alg(encode_utf8(key.alg@)) {
                            Err(VerifyErrorS::UnknownKeyAlgorithm)
                        } else {
                            let sig_ok = rsa_sig_ok(
                                key.n@,
                                key.e@,
                                key.alg@,
                                t.take(d2),
                                t.skip(d2 + 1),
                            );
                            let copt = spec_token_claims(t, d1, d2);
                            match run_issuers(sig_ok, copt, aud, issuers, now, Seq::empty()) {
                                Ok(c) => Ok(c),
                                Err(es) => Err(VerifyErrorS::FailedToDecode(es)),
                            }
                        }
                    },
                },
            }
        }
    }
}

/// The verifier's configuration: the expected audience and the issuers
/// that are acceptable, tried in order.
pub struct JwtVerifier {
    pub audience: String,
    pub issuers: Vec<String>,
}

/// Whether `b` spells one of the twelve algorithm names.
fn is_known_alg(b: &[u8]) -> (r: bool)
    ensures
        r == known_alg(b@),
{
    let hs256: [u8; 5] = [72, 83, 50, 53, 54];
    let hs384: [u8; 5] = [72, 83, 51, 56, 52];
    let hs512: [u8; 5] = [72, 83, 53, 49, 50];
    let es256: [u8; 5] = [69, 83, 50, 53, 54];
    let es384: [u8; 5] = [69, 83, 51, 56, 52];
    let eddsa: [u8; 5] = [69, 100, 68, 83, 65];
    let r: bool = is_rsa_alg(b) || bytes_eq(b, hs256.as_slice()) || bytes_eq(b, hs384.as_slice())
        || bytes_eq(b, hs512.as_slice()) || bytes_eq(b, es256.as_slice()) || bytes_eq(
        b,
        es384.as_slice(),
    ) || bytes_eq(b, eddsa.as_slice());
    proof {
        assert(hs256@ =~= seq![72u8, 83u8, 50u8, 53u8, 54u8]);
        assert(hs384@ =~= seq![72u8, 83u8, 51u8, 56u8, 52u8]);
        assert(hs512@ =~= seq![72u8, 83u8, 53u8, 49u8, 50u8]);
        assert(es256@ =~= seq![69u8, 83u8, 50u8, 53u8, 54u8]);
        assert(es384@ =~= seq![69u8, 83u8, 51u8, 56u8, 52u8]);
        assert(eddsa@ =~= seq![69u8, 100u8, 68u8, 83u8, 65u8]);
    }
    r
}

/// Whether `b` spells an algorithm name the verifier can evaluate.
fn is_rsa_alg(b: &[u8]) -> (r: bool)
    ensures
        r == rsa_alg(b@),
{
    let rs256: [u8; 5] = [82, 83, 50, 53, 54];
    let rs384: [u8; 5] = [82, 83, 51, 56, 52];
    let rs512: [u8; 5] = [82, 83, 53, 49, 50];
    let ps256: [u8; 5] = [80, 83, 50, 53, 54];
    let ps384: [u8; 5] = [80, 83, 51, 56, 52];
    let ps512: [u8; 5] = [80, 83, 53, 49, 50];
    let r: bool = bytes_eq(b, rs256.as_slice()) || bytes_eq(b, rs384.as_slice()) || bytes_eq(
        b,
        rs512.as_slice(),
    ) || bytes_eq(b, ps256.as_slice()) || bytes_eq(b, ps384.as_slice()) || bytes_eq(
        b,
        ps512.as_slice(),
    );
    proof {
        assert(rs256@ =~= seq![82u8, 83u8, 50u8, 53u8, 54u8]);
        assert(rs384@ =~= seq![82u8, 83u8, 51u8, 56u8, 52u8]);
        assert(rs512@ =~= seq![82u8, 83u8, 53u8, 49u8, 50u8]);
        assert(ps256@ =~= seq![80u8, 83u8, 50u8, 53u8, 54u8]);
        assert(ps384@ =~= seq![80u8, 83u8, 51u8, 56u8, 52u8]);
        assert(ps512@ =~= seq![80u8, 83u8, 53u8, 49u8, 50u8]);
    }
    r
}

/// Reads the claim set out of collected payload fields.
fn claims_from_fields(pf: &Vec<crate::json::Field>) -> (r: Option<Claims>)
    ensures
        match r {
            Some(c) => claims_of_fields(fields_view(pf@)) matches Some(b) && claims_match(c, b),
            None => claims_of_fields(fields_view(pf@)) is None,
        },
{
    let name_aud_a: [u8; 3] = [97, 117, 100];
    let name_exp_a: [u8; 3] = [101, 120, 112];
    let name_iss_a: [u8; 3] = [105, 115, 115];
    let name_sub_a: [u8; 3] = [115, 117, 98];
    let name_iat_a: [u8; 3] = [105, 97, 116];
    let name_email_a: [u8; 5] = [101, 109, 97, 105, 108];
    let name_name_a: [u8; 4] = [110, 97, 109, 101];
    let name_picture_a: [u8; 7] = [112, 105, 99, 116, 117, 114, 101];
    proof {
        assert(name_aud_a@ =~= name_aud());
        assert(name_exp_a@ =~= name_exp());
        assert(name_iss_a@ =~= name_iss());
        assert(name_sub_a@ =~= name_sub());
        assert(name_iat_a@ =~= name_iat());
        assert(name_email_a@ =~= name_email());
        assert(name_name_a@ =~= name_name());
        assert(name_picture_a@ =~= name_picture());
    }
    let aud_b = match get_str_field(pf, name_aud_a.as_slice()) {
        Some(v) => v,
        None => {
            return None;
        },
    };
    let exp = match get_int_field(pf, name_exp_a.as_slice()) {
        Some(v) => v,
        None => {
            return None;
        },
    };
    let iss_b = match get_str_field(pf, name_iss_a.as_slice()) {
        Some(v) => v,
        None => {
            return None;
        },
    };
    let sub_b = match get_str_field(pf, name_sub_a.as_slice()) {
        Some(v) => v,
        None => {
            return None;
        },
    };
    let iat = match get_int_field(pf, name_iat_a.as_slice()) {
        Some(v) => v,
        None => {
            return None;
        },
    };
    let email_b = match get_str_field(pf, name_email_a.as_slice()) {
        Some(v) => v,
        None => {
            return None;
        },
    };
    let name_b = match get_str_field(pf, name_name_a.as_slice()) {
        Some(v) => v,
        None => {
            return None;
        },
    };
    let picture_b = match get_str_field(pf, name_picture_a.as_slice()) {
        Some(v) => v,
        None => {
            return None;
        },
    };
    let aud = match bytes_to_string(aud_b) {
        Some(v) => v,
        None => {
            return None;
        },
    };
    let iss = match bytes_to_string(iss_b) {
        Some(v) => v,
        None => {
            return None;
        },
    };
    let sub = match bytes_to_string(sub_b) {
        Some(v) => v,
        None => {
            return None;
        },
    };
    let email = match bytes_to_string(email_b) {
        Some(v) => v,
        None => {
            return None;
        },
    };
    let name = match bytes_to_string(name_b) {
        Some(v) => v,
        None => {
            return None;
        },
    };
    let picture = match bytes_to_string(picture_b) {
        Some(v) => v,
        None => {
            return None;
        },
    };
    Some(Claims { aud, exp, iss, sub, iat, email, name, picture })
}

impl JwtVerifier {
    /// Verifies a signed identity-provider token against the key set: the
    /// header's key-id picks the key, the key's declared algorithm (never
    /// the header's) picks the verification algorithm, and the issuers are
    /// tried in order until one accepts.
    #[verifier::rlimit(100)]
    pub fn verify_jwt(&self, token: &str, keys: &JwkKeys, now: u64) -> (r: Result<
        Claims,
        VerificationError,
    >)
        ensures
            match spec_verify_jwt(
                token.spec_bytes(),
                keys.keys@,
                encode_utf8(self.audience@),
                issuers_bytes(self.issuers@),
                now,
            ) {
                Ok(cb) => r matches Ok(c) && claims_match(c, cb),
                Err(e) => {
                    match e {
                        VerifyErrorS::InvalidToken => r matches Err(f)
                            && f is InvalidToken,
                        VerifyErrorS::KeyNotFound => r matches Err(f) && f is KeyNotFound,
                        VerifyErrorS::UnknownKeyAlgorithm => r matches Err(f)
                            && f is UnknownKeyAlgorithm,
                        VerifyErrorS::FailedToDecode(es) => r matches Err(f) && f matches
                            VerificationError::FailedToDecode(v) && v@ == es,
                    }
                },
            },
    {
        let ghost t = token.spec_bytes();
        let s: &[u8] = token.as_bytes();
        let n: usize = s.len();
        let d1: usize = find_byte(s, 0, 46);
        proof {
            lemma_first_index(t, 46);
            assert(first_index(t, 46) == d1);
        }
        if d1 == n {
            return Err(VerificationError::InvalidToken(header_reason()));
        }
        let d2: usize = find_byte(s, d1 + 1, 46);
        proof {
            lemma_first_index(t.skip(d1 + 1), 46);
            assert forall|k: int| 0 <= k < d2 - d1 - 1 implies #[trigger] t.skip(d1 + 1)[k]
                != 46 by {
                assert(t.skip(d1 + 1)[k] == t[d1 + 1 + k]);
            }
            if (d2 as int) < n {
                assert(t.skip(d1 + 1)[d2 - d1 - 1] == 46);
            }
            assert(first_index(t.skip(d1 + 1), 46) == d2 - d1 - 1);
        }
        if d2 == n {
            return Err(VerificationError::InvalidToken(header_reason()));
        }
        // the header: it must decode, declare a known algorithm, and name a key-id
        let hb = match b64url_decode_range(s, 0, d1) {
            Some(v) => v,
            None => {
                proof {
                    assert(t.subrange(0, d1 as int) =~= s@.subrange(0, d1 as int));
                }
                return Err(VerificationError::InvalidToken(header_reason()));
            },
        };
        let hf = match parse_top_fields(hb.as_slice()) {
            Some(v) => v,
            None => {
                return Err(VerificationError::InvalidToken(header_reason()));
            },
        };
        let name_alg_a: [u8; 3] = [97, 108, 103];
        let name_kid_a: [u8; 3] = [107, 105, 100];
        proof {
            assert(name_alg_a@ =~= name_alg());
            assert(name_kid_a@ =~= name_kid());
        }
        let halg = match get_str_field(&hf, name_alg_a.as_slice()) {
            Some(v) => v,
            None => {
                return Err(VerificationError::InvalidToken(header_reason()));
            },
        };
        if !is_known_alg(halg.as_slice()) {
            return Err(VerificationError::InvalidToken(header_reason()));
        }
        let kid_b = match get_str_field(&hf, name_kid_a.as_slice()) {
            Some(v) => v,
            None => {
                return Err(VerificationError::InvalidToken(kid_reason()));
            },
        };
        let kid = match bytes_to_string(kid_b) {
            Some(v) => v,
            None => {
                return Err(VerificationError::InvalidToken(kid_reason()));
            },
        };
        // the key: located by key-id; its declared algorithm is used
        let key = match keys.find_key(kid.as_str()) {
            Some(k) => k,
            None => {
                proof {
                    lemma_find_key_bytes(keys.keys@, kid@);
                }
                return Err(VerificationError::KeyNotFound);
            },
        };
        proof {
            lemma_find_key_bytes(keys.keys@, kid@);
        }
        if !is_rsa_alg(key.alg.as_str().as_bytes()) {
            return Err(VerificationError::UnknownKeyAlgorithm);
        }
        // the signature, checked once: it does not depend on the issuer
        let msg: &[u8] = vstd::slice::slice_subrange(s, 0, d2);
        let sig: &[u8] = vstd::slice::slice_subrange(s, d2 + 1, n);
        proof {
            assert(msg@ =~= t.take(d2 as int));
            assert(sig@ =~= t.skip(d2 + 1));
        }
        let sig_ok: bool = rsa_verify(
            key.n.as_str(),
            key.e.as_str(),
            key.alg.as_str(),
            msg,
            sig,
        );
        // the claim set, parsed once
        let claims: Option<Claims> = match b64url_decode_range(s, d1 + 1, d2) {
            Some(pb) => match parse_top_fields(pb.as_slice()) {
                Some(pf) => claims_from_fields(&pf),
                None => None,
            },
            None => None,
        };
        let ghost copt = spec_token_claims(t, d1 as int, d2 as int);
        proof {
            assert(t.subrange(d1 + 1, d2 as int) =~= s@.subrange(d1 + 1, d2 as int));
        }
        let aud_bytes: &[u8] = self.audience.as_str().as_bytes();
        let m: usize = self.issuers.len();
        let mut errs: Vec<IssuerError> = Vec::new();
        let mut i: usize = 0;
        let ghost ibs = issuers_bytes(self.issuers@);
        let ghost full = spec_verify_jwt(
            t,
            keys.keys@,
            encode_utf8(self.audience@),
            ibs,
            now,
        );
        proof {
            assert(ibs.skip(0) =~= ibs);
            assert(full == (match run_issuers(
                sig_ok,
                copt,
                encode_utf8(self.audience@),
                ibs.skip(0),
                now,
                errs@,
            ) {
                Ok(c) => Ok::<ClaimsBytes, VerifyErrorS>(c),
                Err(es) => Err::<ClaimsBytes, VerifyErrorS>(VerifyErrorS::FailedToDecode(es)),
            }));
        }
        while i < m
            invariant
                i <= m,
                m == self.issuers@.len(),
                ibs == issuers_bytes(self.issuers@),
                ibs.len() == m,
                errs@.len() == i,
                full == spec_verify_jwt(
                    t,
                    keys.keys@,
                    encode_utf8(self.audience@),
                    ibs,
                    now,
                ),
                full == (match run_issuers(
                    sig_ok,
                    copt,
                    encode_utf8(self.audience@),
                    ibs.skip(i as int),
                    now,
                    errs@,
                ) {
                    Ok(c) => Ok::<ClaimsBytes, VerifyErrorS>(c),
                    Err(es) => Err::<ClaimsBytes, VerifyErrorS>(VerifyErrorS::FailedToDecode(es)),
                }),
                aud_bytes@ == encode_utf8(self.audience@),
                t == token.spec_bytes(),
                match claims {
                    Some(c) => copt matches Some(b) && claims_match(c, b),
                    None => copt is None,
                },
            decreases m - i,
        {
            let issuer: &String = &self.issuers[i];
            proof {
                assert(ibs.skip(i as int).first() == encode_utf8(self.issuers@[i as int]@));
                assert(ibs.skip(i as int).drop_first() =~= ibs.skip(i + 1));
            }
            let outcome: Option<IssuerError> = if !sig_ok {
                Some(IssuerError::BadSignature)
            } else {
                match &claims {
                    None => Some(IssuerError::MalformedClaims),
                    Some(c) => {
                        if !bytes_eq(c.aud.as_str().as_bytes(), aud_bytes) {
                            Some(IssuerError::WrongAudience)
                        } else if !bytes_eq(c.iss.as_str().as_bytes(), issuer.as_str().as_bytes()) {
                            Some(IssuerError::WrongIssuer)
                        } else if c.exp <= 0 || now >= (c.exp as u64) {
                            Some(IssuerError::Expired)
                        } else {
                            None
                        }
                    },
                }
            };
            match outcome {
                None => {
                    match claims {
                        Some(c) => {
                            return Ok(c);
                        },
                        None => {
                            proof {
                                assert(false);
                            }
                            return Err(VerificationError::KeyNotFound);
                        },
                    }
                },
                Some(e) => {
                    errs.push(e);
                },
            }
            i = i + 1;
        }
        proof {
            assert(ibs.skip(m as int).len() == 0);
        }
        Err(VerificationError::FailedToDecode(errs))
    }
}

/// The reason text for a header that could not be read.
fn header_reason() -> String {
    "Failed to decode header".to_owned()
}

/// The reason text for a header without a usable key-id.
fn kid_reason() -> String {
    "header.kid not present".to_owned()
}

} // verus!
