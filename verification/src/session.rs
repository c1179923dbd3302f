//! The service's own session tokens: a compact signed token whose payload
//! carries a subject identifier and an expiry, signed with a shared secret
//! (HMAC-SHA-256).  The codec frames and parses the token itself — header,
//! base64url and payload JSON are verified code — and only the HMAC tag
//! goes through the trusted signing and verification wrappers.

use vstd::prelude::*;
use vstd::string::{StrSliceExecFns, StringSliceAdditionalSpecFns};
use vstd::utf8::{encode_scalar, encode_utf8, valid_utf8};

use crate::base64url::{b64_decode, b64_encode, b64url_decode_range, b64url_encode};
use crate::bytesutil::{bytes_to_string, find_byte, first_index, lemma_first_index};
use crate::crypto::{hs256_sig_of, hs256_sign, hs256_verify};
use crate::json::{
    fields_view, get_int_field, get_str_field, hex_val, parse_top_fields, req_int, req_str,
    spec_hex4, spec_string_body, spec_top_fields,
};
use crate::keys::name_alg;

verus! {

/// The payload of a session token: whom it names and when it expires,
/// in seconds since the epoch.
#[derive(Debug, PartialEq, Eq)]
pub struct Claims {
    pub sub: String,
    pub exp: u64,
}

/// The mathematical content of session claims.
pub struct ClaimsV {
    pub sub: Seq<char>,
    pub exp: u64,
}

impl View for Claims {
    type V = ClaimsV;

    open spec fn view(&self) -> ClaimsV {
        ClaimsV { sub: self.sub@, exp: self.exp }
    }
}

/// Why a session token could not be issued.
#[derive(Debug, PartialEq, Eq, Structural)]
pub enum EncodeError {
    /// No signing secret is configured.
    SecretKeyEnvNotFound,
    /// The signer failed.
    SigningError,
}

/// Why a session token was rejected.
#[derive(Debug, PartialEq, Eq, Structural)]
pub enum DecodeError {
    /// No signing secret is configured.
    SecretKeyEnvNotFound,
    /// The signature is valid but the expiry lies in the past.
    TokenExpired,
    /// Anything else: framing, signature, encoding or payload is wrong.
    InvalidSignatureOrFormat,
}

/// The largest expiry the codec can carry: the payload integer must fit
/// in a 64-bit signed number when read back.
pub const MAX_EXPIRY: u64 = 0x7FFFFFFFFFFFFFFF;

/// A lower-case hexadecimal digit.
pub open spec fn hex_digit(v: u8) -> u8 {
    if v < 10 {
        (48 + v) as u8
    } else {
        (87 + v) as u8
    }
}

/// The JSON escape of one byte of string content: quote and backslash get
/// a backslash, control bytes a `\u00XX` escape, all else stands as it is.
pub open spec fn escape_byte(b: u8) -> Seq<u8> {
    if b == 34 {
        seq![92u8, 34u8]
    } else if b == 92 {
        seq![92u8, 92u8]
    } else if b < 32 {
        seq![92u8, 117u8, 48u8, 48u8, hex_digit(b / 16), hex_digit(b % 16)]
    } else {
        seq![b]
    }
}

/// The JSON escape of string content, byte for byte.
pub open spec fn escape_bytes(s: Seq<u8>) -> Seq<u8>
    decreases s.len(),
{
    if s.len() == 0 {
        Seq::empty()
    } else {
        escape_bytes(s.drop_last()) + escape_byte(s.last())
    }
}

/// The decimal digits of `v`, most significant first, no leading zero.
pub open spec fn u64_digits(v: u64) -> Seq<u8>
    decreases v,
{
    if v < 10 {
        seq![(48 + v) as u8]
    } else {
        u64_digits(v / 10).push((48 + v % 10) as u8)
    }
}

/// The constant token header: the bytes of `{"alg":"HS256","typ":"JWT"}`.
pub open spec fn session_header_bytes() -> Seq<u8> {
    seq![
        123u8, 34u8, 97u8, 108u8, 103u8, 34u8, 58u8, 34u8, 72u8, 83u8, 50u8, 53u8, 54u8, 34u8,
        44u8, 34u8, 116u8, 121u8, 112u8, 34u8, 58u8, 34u8, 74u8, 87u8, 84u8, 34u8, 125u8,
    ]
}

/// The payload bytes: `{"sub":"<escaped subject>","exp":<digits>}`.
pub open spec fn spec_payload_bytes(c: ClaimsV) -> Seq<u8> {
    seq![123u8, 34u8, 115u8, 117u8, 98u8, 34u8, 58u8, 34u8] + escape_bytes(encode_utf8(c.sub))
        + seq![34u8, 44u8, 34u8, 101u8, 120u8, 112u8, 34u8, 58u8] + u64_digits(c.exp)
        + seq![125u8]
}

/// The signed part of the token: base64url header, a dot, base64url payload.
pub open spec fn spec_message_bytes(c: ClaimsV) -> Seq<u8> {
    b64_encode(session_header_bytes()) + seq![46u8] + b64_encode(spec_payload_bytes(c))
}

/// The whole token: the message, a dot, and its HMAC tag under `secret`.
pub open spec fn spec_token_bytes(c: ClaimsV, secret: Seq<u8>) -> Seq<u8> {
    spec_message_bytes(c) + seq![46u8] + hs256_sig_of(secret, spec_message_bytes(c))
}

pub open spec fn name_sub() -> Seq<u8> {
    seq![115u8, 117u8, 98u8]  // sub
}

pub open spec fn name_exp() -> Seq<u8> {
    seq![101u8, 120u8, 112u8]  // exp
}

pub open spec fn hs256_name() -> Seq<u8> {
    seq![72u8, 83u8, 50u8, 53u8, 54u8]  // HS256
}

/// What decoding token bytes `t` yields under `secret` at time `now`: the
/// subject's bytes and the expiry.  The signature is checked before
/// anything is parsed; an expiry is "past" as soon as `now` reaches it.
pub open spec fn spec_decode_body(t: Seq<u8>, d1: int, d2: int, now: u64) -> Result<
    (Seq<u8>, u64),
    DecodeError,
> {
    match (b64_decode(t.subrange(0, d1)), b64_decode(t.subrange(d1 + 1, d2))) {
        (Some(hb), Some(pb)) => match (spec_top_fields(hb), spec_top_fields(pb)) {
            (Some(hf), Some(pf)) => {
                if req_str(hf, name_alg()) != Some(hs256_name()) {
                    Err(DecodeError::InvalidSignatureOrFormat)
                } else {
                    match (req_str(pf, name_sub()), req_int(pf, name_exp())) {
                        (Some(sub), Some(exp)) => {
                            if exp < 0 || !valid_utf8(sub) {
                                Err(DecodeError::InvalidSignatureOrFormat)
                            } else if now < exp as u64 {
                                Ok((sub, exp as u64))
                            } else {
                                Err(DecodeError::TokenExpired)
                            }
                        },
                        _ => Err(DecodeError::InvalidSignatureOrFormat),
                    }
                }
            },
            _ => Err(DecodeError::InvalidSignatureOrFormat),
        },
        _ => Err(DecodeError::InvalidSignatureOrFormat),
    }
}

pub open spec fn spec_session_decode(t: Seq<u8>, secret: Seq<u8>, now: u64) -> Result<
    (Seq<u8>, u64),
    DecodeError,
> {
    let d1 = first_index(t, 46);
    if d1 == t.len() {
        Err(DecodeError::InvalidSignatureOrFormat)
    } else {
        let d2 = d1 + 1 + first_index(t.skip(d1 + 1), 46);
        if d2 == t.len() {
            Err(DecodeError::InvalidSignatureOrFormat)
        } else if t.skip(d2 + 1) != hs256_sig_of(secret, t.take(d2)) {
            Err(DecodeError::InvalidSignatureOrFormat)
        } else {
            spec_decode_body(t, d1, d2, now)
        }
    }
}

/// How long a freshly minted session lasts: thirty days, in seconds.
pub const SESSION_VALIDITY_SECS: u64 = 2592000;

/// The claims minted at login for a user: the session runs thirty days
/// from `now`, capped at the largest expiry the codec carries.
pub fn session_claims_for_login(userid: String, now: u64) -> (r: Claims)
    ensures
        r.sub == userid,
        r.exp == if now + SESSION_VALIDITY_SECS <= MAX_EXPIRY {
            (now + SESSION_VALIDITY_SECS) as int
        } else {
            MAX_EXPIRY as int
        },
        r.exp <= MAX_EXPIRY,
{
    let exp: u64 = if now <= MAX_EXPIRY - SESSION_VALIDITY_SECS {
        now + SESSION_VALIDITY_SECS
    } else {
        MAX_EXPIRY
    };
    Claims { sub: userid, exp }
}

/// The token of an `Authorization: Bearer <token>` header value, if the
/// value carries the `Bearer ` prefix.
pub fn bearer_token(header: &str) -> (r: Option<&str>)
    ensures
        match r {
            Some(t) => header@.len() >= 7 && header@.subrange(0, 7) == bearer_prefix() && t@
                == header@.skip(7),
            None => !(header@.len() >= 7 && header@.subrange(0, 7) == bearer_prefix()),
        },
{
    let n: usize = header.unicode_len();
    if n < 7 {
        proof {
            assert(bearer_prefix().len() == 7);
        }
        return None;
    }
    let ok: bool = header.get_char(0) == 'B' && header.get_char(1) == 'e' && header.get_char(2)
        == 'a' && header.get_char(3) == 'r' && header.get_char(4) == 'e' && header.get_char(5)
        == 'r' && header.get_char(6) == ' ';
    if ok {
        let rest: &str = header.substring_char(7, n);
        proof {
            assert(header@.subrange(0, 7) =~= bearer_prefix());
            assert(rest@ =~= header@.skip(7));
        }
        Some(rest)
    } else {
        proof {
            if header@.subrange(0, 7) == bearer_prefix() {
                assert(header@[0] == bearer_prefix()[0]);
                assert(header@[1] == bearer_prefix()[1]);
                assert(header@[2] == bearer_prefix()[2]);
                assert(header@[3] == bearer_prefix()[3]);
                assert(header@[4] == bearer_prefix()[4]);
                assert(header@[5] == bearer_prefix()[5]);
                assert(header@[6] == bearer_prefix()[6]);
            }
        }
        None
    }
}

/// The characters of `Bearer `, prefix of an authorization header value.
pub open spec fn bearer_prefix() -> Seq<char> {
    seq!['B', 'e', 'a', 'r', 'e', 'r', ' ']
}

/// Escaping can be read off from the front as well.
proof fn lemma_escape_front(s: Seq<u8>)
    requires
        s.len() > 0,
    ensures
        escape_bytes(s) == escape_byte(s[0]) + escape_bytes(s.drop_first()),
    decreases s.len(),
{
    if s.len() == 1 {
        assert(s.drop_last() =~= Seq::<u8>::empty());
        assert(s.drop_first() =~= Seq::<u8>::empty());
        assert(escape_bytes(s) =~= escape_byte(s[0]) + escape_bytes(s.drop_first()));
    } else {
        let dl = s.drop_last();
        lemma_escape_front(dl);
        assert(s.drop_first().drop_last() =~= dl.drop_first());
        assert(s.drop_first().last() == s.last());
        assert(escape_bytes(s.drop_first()) == escape_bytes(dl.drop_first()) + escape_byte(
            s.last(),
        ));
        assert(escape_bytes(s) =~= escape_byte(s[0]) + escape_bytes(s.drop_first()));
    }
}

/// Bytes that need no escape pass through escaping unchanged.
proof fn lemma_escape_plain(s: Seq<u8>)
    requires
        forall|k: int| 0 <= k < s.len() ==> 32 <= #[trigger] s[k] && s[k] != 34 && s[k] != 92,
    ensures
        escape_bytes(s) == s,
    decreases s.len(),
{
    if s.len() > 0 {
        lemma_escape_plain(s.drop_last());
        assert(escape_byte(s.last()) =~= seq![s.last()]);
        assert(escape_bytes(s) =~= s);
    }
}

/// Reading a string body over the escape of `raw`, closed by a quote,
/// recovers `raw` exactly and stops just past the quote.
proof fn lemma_unescape(s: Seq<u8>, i: int, raw: Seq<u8>, acc: Seq<u8>)
    requires
        0 <= i,
        i + escape_bytes(raw).len() + 1 <= s.len(),
        s.subrange(i, i + escape_bytes(raw).len()) == escape_bytes(raw),
        s[i + escape_bytes(raw).len()] == 34,
    ensures
        spec_string_body(s, i, acc) == Some((acc + raw, i + escape_bytes(raw).len() + 1)),
    decreases raw.len(),
{
    if raw.len() == 0 {
        assert(escape_bytes(raw).len() == 0);
        assert(s[i] == 34);
        assert(acc + raw =~= acc);
    } else {
        let b = raw[0];
        let eb = escape_byte(b);
        let raw2 = raw.drop_first();
        lemma_escape_front(raw);
        let l = escape_bytes(raw).len() as int;
        let k = eb.len() as int;
        let l2 = escape_bytes(raw2).len() as int;
        assert(l == k + l2);
        assert forall|m: int| 0 <= m < l implies s[i + m] == escape_bytes(raw)[m] by {
            assert(s.subrange(i, i + l)[m] == s[i + m]);
        }
        assert forall|m: int| 0 <= m < k implies s[i + m] == eb[m] by {
            assert(escape_bytes(raw)[m] == eb[m]);
        }
        assert(s.subrange(i + k, i + k + l2) =~= escape_bytes(raw2)) by {
            assert forall|m: int| 0 <= m < l2 implies s.subrange(i + k, i + k + l2)[m]
                == escape_bytes(raw2)[m] by {
                assert(s.subrange(i + k, i + k + l2)[m] == s[i + k + m]);
                assert(escape_bytes(raw)[k + m] == escape_bytes(raw2)[m]);
            }
        }
        lemma_unescape(s, i + k, raw2, acc.push(b));
        assert(acc.push(b) + raw2 =~= acc + raw);
        assert(s[i + 0] == eb[0]);
        if b == 34 || b == 92 {
            assert(s[i] == 92 && s[i + 1] == b);
        } else if b < 32 {
            assert(s[i] == 92 && s[i + 1] == 117);
            assert(s[i + 2] == 48 && s[i + 3] == 48);
            assert(s[i + 4] == hex_digit(b / 16) && s[i + 5] == hex_digit(b % 16));
            assert(hex_val(48) == Some(0u8));
            assert(hex_val(hex_digit(b / 16)) == Some((b / 16) as u8));
            assert(hex_val(hex_digit(b % 16)) == Some((b % 16) as u8));
            let cp = spec_hex4(s, i + 2).unwrap();
            assert(cp == b);
            assert(vstd::utf8::has_width_1_encoding(cp));
            assert((cp & 0x7F) == cp) by (bit_vector)
                requires
                    cp < 128,
            ;
            assert(encode_scalar(cp) =~= seq![b]);
            assert(acc + encode_scalar(cp) =~= acc.push(b));
        } else {
            assert(eb =~= seq![b]);
            assert(s[i] == b);
        }
    }
}

/// The digits of `v` read back as `v`: at least one digit, all digits,
/// and no leading zero unless `v` itself is a single digit.
proof fn lemma_u64_digits(v: u64)
    ensures
        u64_digits(v).len() >= 1,
        crate::bytesutil::all_digits(u64_digits(v)),
        crate::bytesutil::digits_val(u64_digits(v)) == v,
        u64_digits(v)[0] == 48 ==> u64_digits(v).len() == 1,
        crate::bytesutil::is_digit(u64_digits(v)[0]),
    decreases v,
{
    if v < 10 {
        let d = u64_digits(v);
        assert(d =~= seq![(48 + v) as u8]);
        assert(d.len() == 1);
        assert(d[0] == (48 + v) as u8);
        assert(d.drop_last() =~= Seq::<u8>::empty());
        assert(crate::bytesutil::digits_val(d.drop_last()) == 0);
        assert(crate::bytesutil::digits_val(d) == crate::bytesutil::digits_val(d.drop_last()) * 10
            + (d[0] - 48) as nat);
        assert(crate::bytesutil::digits_val(d) == v);
    } else {
        lemma_u64_digits(v / 10);
        let d = u64_digits(v);
        let dd = u64_digits(v / 10);
        assert(d == dd.push((48 + v % 10) as u8));
        assert(d.drop_last() =~= dd);
        assert(d.last() == (48 + v % 10) as u8);
        assert(crate::bytesutil::digits_val(d) == crate::bytesutil::digits_val(dd) * 10 + (d[d.len()
            - 1] - 48) as nat);
        assert(crate::bytesutil::digits_val(d) == (v / 10) * 10 + v % 10);
        assert forall|k: int|
            0 <= k < d.len() implies crate::bytesutil::is_digit(#[trigger] d[k]) by {
            if k < dd.len() {
                assert(d[k] == dd[k]);
            }
        }
        assert(d[0] == dd[0]);
        if d[0] == 48 {
            assert(dd[0] == 48);
            assert(dd.len() == 1);
            if v / 10 < 10 {
                assert(dd =~= seq![(48 + v / 10) as u8]);
                assert(dd[0] == (48 + v / 10) as u8);
                assert(v / 10 >= 1);
                assert(false);
            } else {
                lemma_u64_digits(v / 100);
                assert(dd == u64_digits(v / 100).push((48 + (v / 10) % 10) as u8));
                assert(dd.len() >= 2);
                assert(false);
            }
        }
    }
}

/// A digit run closed by a non-digit reads as a plain integer.
proof fn lemma_number_at(s: Seq<u8>, i: int, v: u64)
    requires
        0 <= i,
        v <= MAX_EXPIRY,
        i + u64_digits(v).len() < s.len(),
        s.subrange(i, i + u64_digits(v).len()) == u64_digits(v),
        s[i + u64_digits(v).len()] == 125,
    ensures
        crate::json::spec_number(s, i) == Some((Some(v as i64), i + u64_digits(v).len())),
{
    lemma_u64_digits(v);
    let d = u64_digits(v);
    let l = d.len() as int;
    assert forall|m: int| 0 <= m < l implies s[i + m] == d[m] by {
        assert(s.subrange(i, i + l)[m] == s[i + m]);
    }
    assert(crate::bytesutil::is_digit(s[i]));
    assert(s[i] != 45);
    crate::json::lemma_scan_digits_props(s, i);
    let sc = crate::json::spec_scan_digits(s, i);
    if sc < i + l {
        assert(s[sc] == d[sc - i]);
        assert(crate::bytesutil::is_digit(s[sc]));
        assert(false);
    }
    if sc > i + l {
        assert(crate::bytesutil::is_digit(s[i + l]));
        assert(false);
    }
    assert(sc == i + l);
    if s[i] == 48 {
        assert(d[0] == 48);
        assert(l == 1);
        assert(!crate::bytesutil::is_digit(s[i + 1]));
    }
    assert(s.subrange(i, sc) =~= d);
    assert(s[sc] == 125);
    assert(crate::bytesutil::digits_val(s.subrange(i, sc)) == v);
}

/// Where each piece of the canonical payload document stands.
#[verifier::rlimit(100)]
proof fn lemma_payload_layout(c: ClaimsV)
    ensures
        spec_payload_bytes(c).len() == 17 + escape_bytes(encode_utf8(c.sub)).len() + u64_digits(
            c.exp,
        ).len(),
        spec_payload_bytes(c)[0] == 123,
        spec_payload_bytes(c)[1] == 34,
        spec_payload_bytes(c).subrange(2, 5) == name_sub(),
        spec_payload_bytes(c)[5] == 34,
        spec_payload_bytes(c)[6] == 58,
        spec_payload_bytes(c)[7] == 34,
        spec_payload_bytes(c).subrange(8, 8 + escape_bytes(encode_utf8(c.sub)).len() as int)
            == escape_bytes(encode_utf8(c.sub)),
        spec_payload_bytes(c)[8 + escape_bytes(encode_utf8(c.sub)).len() as int] == 34,
        spec_payload_bytes(c)[9 + escape_bytes(encode_utf8(c.sub)).len() as int] == 44,
        spec_payload_bytes(c)[10 + escape_bytes(encode_utf8(c.sub)).len() as int] == 34,
        spec_payload_bytes(c).subrange(
            11 + escape_bytes(encode_utf8(c.sub)).len() as int,
            14 + escape_bytes(encode_utf8(c.sub)).len() as int,
        ) == name_exp(),
        spec_payload_bytes(c)[14 + escape_bytes(encode_utf8(c.sub)).len() as int] == 34,
        spec_payload_bytes(c)[15 + escape_bytes(encode_utf8(c.sub)).len() as int] == 58,
        spec_payload_bytes(c).subrange(
            16 + escape_bytes(encode_utf8(c.sub)).len() as int,
            16 + escape_bytes(encode_utf8(c.sub)).len() + u64_digits(c.exp).len() as int,
        ) == u64_digits(c.exp),
        spec_payload_bytes(c)[16 + escape_bytes(encode_utf8(c.sub)).len() + u64_digits(
            c.exp,
        ).len() as int] == 125,
{
    let p = spec_payload_bytes(c);
    let e = escape_bytes(encode_utf8(c.sub));
    let d = u64_digits(c.exp);
    let le = e.len() as int;
    let ld = d.len() as int;
    let pre = seq![123u8, 34u8, 115u8, 117u8, 98u8, 34u8, 58u8, 34u8];
    let mid = seq![34u8, 44u8, 34u8, 101u8, 120u8, 112u8, 34u8, 58u8];
    assert(p.len() == 17 + le + ld);
    assert forall|m: int| 0 <= m < 8 implies p[m] == pre[m] by {}
    assert forall|m: int| 0 <= m < le implies p[8 + m] == e[m] by {}
    assert forall|m: int| 0 <= m < 8 implies p[8 + le + m] == mid[m] by {}
    assert forall|m: int| 0 <= m < ld implies p[16 + le + m] == d[m] by {}
    assert(p.subrange(2, 5) =~= name_sub());
    assert(p.subrange(8, 8 + le) =~= e);
    assert(p.subrange(11 + le, 14 + le) =~= name_exp());
    assert(p.subrange(16 + le, 16 + le + ld) =~= d);
}

/// The fields of the canonical payload document, read back exactly.
#[verifier::rlimit(100)]
proof fn lemma_payload_fields(c: ClaimsV)
    requires
        c.exp <= MAX_EXPIRY,
    ensures
        crate::json::spec_top_fields(spec_payload_bytes(c)) == Some(
            seq![
                (name_sub(), crate::json::JFieldS::FStr(encode_utf8(c.sub))),
                (name_exp(), crate::json::JFieldS::FInt(c.exp as i64)),
            ],
        ),
{
    let p = spec_payload_bytes(c);
    let e = escape_bytes(encode_utf8(c.sub));
    let d = u64_digits(c.exp);
    let le = e.len() as int;
    let ld = d.len() as int;
    lemma_payload_layout(c);
    lemma_u64_digits(c.exp);
    // the document: one object, no surrounding whitespace
    assert(crate::json::spec_skip_ws(p, 0) == 0);
    assert(crate::json::spec_skip_ws(p, 1) == 1);
    // the key `sub`
    let sub_key = seq![115u8, 117u8, 98u8];
    lemma_escape_plain(sub_key);
    assert(p.subrange(2, 5) == escape_bytes(sub_key));
    lemma_unescape(p, 2, sub_key, Seq::empty());
    assert(Seq::<u8>::empty() + sub_key =~= sub_key);
    assert(crate::json::spec_parse_string(p, 1) == Some((sub_key, 6int)));
    // the colon, then the subject string
    assert(crate::json::spec_skip_ws(p, 6) == 6);
    assert(crate::json::spec_skip_ws(p, 7) == 7);
    lemma_unescape(p, 8, encode_utf8(c.sub), Seq::empty());
    assert(Seq::<u8>::empty() + encode_utf8(c.sub) =~= encode_utf8(c.sub));
    assert(crate::json::spec_parse_string(p, 7) == Some((encode_utf8(c.sub), 9 + le)));
    assert(crate::json::spec_field_value(p, 7) == Some(
        (crate::json::JFieldS::FStr(encode_utf8(c.sub)), 9 + le),
    ));
    // the second member and the closing brace
    let f1 = (sub_key, crate::json::JFieldS::FStr(encode_utf8(c.sub)));
    let f2 = (name_exp(), crate::json::JFieldS::FInt(c.exp as i64));
    assert(crate::json::spec_skip_ws(p, 9 + le) == 9 + le);
    assert(crate::json::spec_skip_ws(p, 10 + le) == 10 + le);
    lemma_payload_second_member(c);
    assert(Seq::<(Seq<u8>, crate::json::JFieldS)>::empty().push(f1) =~= seq![f1]);
    assert(crate::json::spec_fields(p, 1, Seq::empty()) == Some(
        (seq![f1].push(f2), 17 + le + ld),
    ));
    assert(seq![f1].push(f2) =~= seq![f1, f2]);
    assert(crate::json::spec_object_fields(p, 0) == Some((seq![f1, f2], 17 + le + ld)));
    assert(crate::json::spec_top_fields(p) == Some(seq![f1, f2]));
}

/// The second member of the canonical payload, `"exp":<digits>`, and the
/// closing brace, read off from the key position on.
#[verifier::rlimit(100)]
proof fn lemma_payload_second_member(c: ClaimsV)
    requires
        c.exp <= MAX_EXPIRY,
    ensures
        ({
            let p = spec_payload_bytes(c);
            let le = escape_bytes(encode_utf8(c.sub)).len() as int;
            let ld = u64_digits(c.exp).len() as int;
            crate::json::spec_fields(
                p,
                10 + le,
                seq![(name_sub(), crate::json::JFieldS::FStr(encode_utf8(c.sub)))],
            ) == Some(
                (
                    seq![(name_sub(), crate::json::JFieldS::FStr(encode_utf8(c.sub)))].push(
                        (name_exp(), crate::json::JFieldS::FInt(c.exp as i64)),
                    ),
                    17 + le + ld,
                ),
            )
        }),
{
    let p = spec_payload_bytes(c);
    let e = escape_bytes(encode_utf8(c.sub));
    let d = u64_digits(c.exp);
    let le = e.len() as int;
    let ld = d.len() as int;
    lemma_payload_layout(c);
    lemma_u64_digits(c.exp);
    let exp_key = seq![101u8, 120u8, 112u8];
    lemma_escape_plain(exp_key);
    assert(p.subrange(11 + le, 14 + le) == escape_bytes(exp_key));
    lemma_unescape(p, 11 + le, exp_key, Seq::empty());
    assert(Seq::<u8>::empty() + exp_key =~= exp_key);
    assert(crate::json::spec_parse_string(p, 10 + le) == Some((exp_key, 15 + le)));
    assert(crate::json::spec_skip_ws(p, 15 + le) == 15 + le);
    assert(crate::json::spec_skip_ws(p, 16 + le) == 16 + le);
    lemma_number_at(p, 16 + le, c.exp);
    assert(crate::bytesutil::is_digit(p[16 + le]));
    assert(crate::json::spec_field_value(p, 16 + le) == Some(
        (crate::json::JFieldS::FInt(c.exp as i64), 16 + le + ld),
    ));
    assert(crate::json::spec_skip_ws(p, 16 + le + ld) == 16 + le + ld);
    assert(crate::json::spec_skip_ws(p, 17 + le + ld) == 17 + le + ld);
}

/// The fields of the constant header document, read back exactly.
#[verifier::rlimit(100)]
proof fn lemma_header_fields()
    ensures
        crate::json::spec_top_fields(session_header_bytes()) == Some(
            seq![
                (crate::keys::name_alg(), crate::json::JFieldS::FStr(hs256_name())),
                (seq![116u8, 121u8, 112u8], crate::json::JFieldS::FStr(seq![74u8, 87u8, 84u8])),
            ],
        ),
{
    let h = session_header_bytes();
    assert(h.len() == 27);
    assert(crate::json::spec_skip_ws(h, 0) == 0);
    assert(h[0] == 123);
    assert(crate::json::spec_skip_ws(h, 1) == 1);
    // the key `alg` and its value `HS256`
    let alg_key = seq![97u8, 108u8, 103u8];
    lemma_escape_plain(alg_key);
    assert(h.subrange(2, 5) =~= escape_bytes(alg_key));
    assert(h[5] == 34);
    lemma_unescape(h, 2, alg_key, Seq::empty());
    assert(Seq::<u8>::empty() + alg_key =~= alg_key);
    assert(crate::json::spec_parse_string(h, 1) == Some((alg_key, 6int)));
    assert(h[6] == 58);
    assert(crate::json::spec_skip_ws(h, 6) == 6);
    assert(crate::json::spec_skip_ws(h, 7) == 7);
    let hs = seq![72u8, 83u8, 50u8, 53u8, 54u8];
    lemma_escape_plain(hs);
    assert(h.subrange(8, 13) =~= escape_bytes(hs));
    assert(h[13] == 34);
    lemma_unescape(h, 8, hs, Seq::empty());
    assert(Seq::<u8>::empty() + hs =~= hs);
    assert(crate::json::spec_parse_string(h, 7) == Some((hs, 14int)));
    assert(crate::json::spec_field_value(h, 7) == Some(
        (crate::json::JFieldS::FStr(hs), 14int),
    ));
    assert(h[14] == 44);
    assert(crate::json::spec_skip_ws(h, 14) == 14);
    assert(crate::json::spec_skip_ws(h, 15) == 15);
    let f1 = (alg_key, crate::json::JFieldS::FStr(hs));
    let f2 = (seq![116u8, 121u8, 112u8], crate::json::JFieldS::FStr(seq![74u8, 87u8, 84u8]));
    lemma_header_second_member();
    assert(Seq::<(Seq<u8>, crate::json::JFieldS)>::empty().push(f1) =~= seq![f1]);
    assert(crate::json::spec_fields(h, 1, Seq::empty()) == Some((seq![f1].push(f2), 27int)));
    assert(seq![f1].push(f2) =~= seq![f1, f2]);
    assert(alg_key =~= crate::keys::name_alg());
    assert(hs =~= hs256_name());
    assert(crate::json::spec_object_fields(h, 0) == Some((seq![f1, f2], 27int)));
    assert(crate::json::spec_top_fields(h) == Some(seq![f1, f2]));
}

/// The second member of the constant header, `"typ":"JWT"`, and the
/// closing brace, read off from the key position on.
#[verifier::rlimit(100)]
proof fn lemma_header_second_member()
    ensures
        crate::json::spec_fields(
            session_header_bytes(),
            15,
            seq![(crate::keys::name_alg(), crate::json::JFieldS::FStr(hs256_name()))],
        ) == Some(
            (
                seq![(crate::keys::name_alg(), crate::json::JFieldS::FStr(hs256_name()))].push(
                    (seq![116u8, 121u8, 112u8], crate::json::JFieldS::FStr(seq![74u8, 87u8, 84u8])),
                ),
                27int,
            ),
        ),
{
    let h = session_header_bytes();
    assert(h.len() == 27);
    let typ_key = seq![116u8, 121u8, 112u8];
    lemma_escape_plain(typ_key);
    assert(h.subrange(16, 19) =~= escape_bytes(typ_key));
    assert(h[19] == 34);
    lemma_unescape(h, 16, typ_key, Seq::empty());
    assert(Seq::<u8>::empty() + typ_key =~= typ_key);
    assert(crate::json::spec_parse_string(h, 15) == Some((typ_key, 20int)));
    assert(h[20] == 58);
    assert(crate::json::spec_skip_ws(h, 20) == 20);
    assert(crate::json::spec_skip_ws(h, 21) == 21);
    let jwt = seq![74u8, 87u8, 84u8];
    lemma_escape_plain(jwt);
    assert(h.subrange(22, 25) =~= escape_bytes(jwt));
    assert(h[25] == 34);
    lemma_unescape(h, 22, jwt, Seq::empty());
    assert(Seq::<u8>::empty() + jwt =~= jwt);
    assert(crate::json::spec_parse_string(h, 21) == Some((jwt, 26int)));
    assert(crate::json::spec_field_value(h, 21) == Some(
        (crate::json::JFieldS::FStr(jwt), 26int),
    ));
    assert(h[26] == 125);
    assert(crate::json::spec_skip_ws(h, 26) == 26);
    assert(crate::json::spec_skip_ws(h, 27) == 27);
}

/// Decoding a freshly encoded token under the same secret yields exactly
/// the encoded subject and expiry while the expiry lies ahead, and
/// `TokenExpired` — never success, never another error — once `now` has
/// reached it.  A tampered signature, by contrast, fails the signature
/// comparison and yields `InvalidSignatureOrFormat`.
/// Where the dots of a freshly encoded token stand, and what the three
/// segments are.
#[verifier::rlimit(100)]
proof fn lemma_token_layout(c: ClaimsV, secret: Seq<u8>)
    ensures
        ({
            let t = spec_token_bytes(c, secret);
            let msg = spec_message_bytes(c);
            let lh = b64_encode(session_header_bytes()).len() as int;
            let lp = b64_encode(spec_payload_bytes(c)).len() as int;
            &&& crate::bytesutil::first_index(t, 46) == lh
            &&& lh < t.len()
            &&& crate::bytesutil::first_index(t.skip(lh + 1), 46) == lp
            &&& lh + 1 + lp < t.len()
            &&& t.take(lh + 1 + lp) == msg
            &&& t.skip(lh + 1 + lp + 1) == hs256_sig_of(secret, msg)
            &&& t.subrange(0, lh) == b64_encode(session_header_bytes())
            &&& t.subrange(lh + 1, lh + 1 + lp) == b64_encode(spec_payload_bytes(c))
        }),
{
    let h = session_header_bytes();
    let p = spec_payload_bytes(c);
    let hb = crate::base64url::b64_encode(h);
    let pb = crate::base64url::b64_encode(p);
    let msg = spec_message_bytes(c);
    let sig = hs256_sig_of(secret, msg);
    let t = spec_token_bytes(c, secret);
    let lh = hb.len() as int;
    let lp = pb.len() as int;
    crate::base64url::lemma_encode_ascii(h);
    crate::base64url::lemma_encode_ascii(p);
    assert(t.len() == lh + 1 + lp + 1 + sig.len());
    assert forall|m: int| 0 <= m < lh implies t[m] == hb[m] && t[m] != 46 by {
        assert(t[m] == msg[m]);
        assert(msg[m] == hb[m]);
    }
    assert(t[lh] == msg[lh]);
    assert(t[lh] == 46);
    assert forall|m: int| 0 <= m < lp implies t[lh + 1 + m] == pb[m] && t[lh + 1 + m] != 46 by {
        assert(t[lh + 1 + m] == msg[lh + 1 + m]);
        assert(msg[lh + 1 + m] == pb[m]);
    }
    assert(t[lh + 1 + lp] == 46);
    // the first dot closes the header segment
    crate::bytesutil::lemma_first_index(t, 46);
    let d1 = crate::bytesutil::first_index(t, 46);
    if d1 > lh {
        assert(t[lh] != 46);
        assert(false);
    }
    if d1 < lh {
        assert(t[d1] != 46);
        assert(t[d1] == 46);
        assert(false);
    }
    assert(d1 == lh);
    // the second dot closes the payload segment
    let rest = t.skip(d1 + 1);
    crate::bytesutil::lemma_first_index(rest, 46);
    let f2 = crate::bytesutil::first_index(rest, 46);
    assert forall|m: int| 0 <= m < rest.len() implies rest[m] == t[d1 + 1 + m] by {}
    assert(rest[lp] == 46);
    if f2 > lp {
        assert(rest[lp] != 46);
        assert(false);
    }
    if f2 < lp {
        assert(rest[f2] == t[d1 + 1 + f2]);
        assert(rest[f2] == pb[f2]);
        assert(rest[f2] != 46);
        assert(rest[f2] == 46);
        assert(false);
    }
    assert(t.take(lh + 1 + lp) =~= msg);
    assert(t.skip(lh + 1 + lp + 1) =~= sig);
    assert(t.subrange(0, lh) =~= hb);
    assert(t.subrange(lh + 1, lh + 1 + lp) =~= pb);
}

#[verifier::rlimit(100)]
pub proof fn lemma_session_round_trip(c: ClaimsV, secret: Seq<u8>, now: u64)
    requires
        c.exp <= MAX_EXPIRY,
    ensures
        spec_session_decode(spec_token_bytes(c, secret), secret, now) == if now < c.exp {
            Ok::<(Seq<u8>, u64), DecodeError>((encode_utf8(c.sub), c.exp))
        } else {
            Err::<(Seq<u8>, u64), DecodeError>(DecodeError::TokenExpired)
        },
{
    let h = session_header_bytes();
    let p = spec_payload_bytes(c);
    let hb = crate::base64url::b64_encode(h);
    let pb = crate::base64url::b64_encode(p);
    let msg = spec_message_bytes(c);
    let sig = hs256_sig_of(secret, msg);
    let t = spec_token_bytes(c, secret);
    let lh = hb.len() as int;
    let lp = pb.len() as int;
    lemma_token_layout(c, secret);
    let d1 = lh;
    let d2 = lh + 1 + lp;
    lemma_decode_body_of_encoded(c, t, d1, d2, now);
}

/// Evaluating the post-signature decoding on the segments of a freshly
/// encoded token: the subject and expiry come back, or `TokenExpired`.
#[verifier::rlimit(100)]
proof fn lemma_decode_body_of_encoded(c: ClaimsV, t: Seq<u8>, d1: int, d2: int, now: u64)
    requires
        c.exp <= MAX_EXPIRY,
        0 <= d1 <= d2,
        t.subrange(0, d1) == b64_encode(session_header_bytes()),
        t.subrange(d1 + 1, d2) == b64_encode(spec_payload_bytes(c)),
    ensures
        spec_decode_body(t, d1, d2, now) == (if now < c.exp {
            Ok::<(Seq<u8>, u64), DecodeError>((encode_utf8(c.sub), c.exp))
        } else {
            Err::<(Seq<u8>, u64), DecodeError>(DecodeError::TokenExpired)
        }),
{
    let h = session_header_bytes();
    let p = spec_payload_bytes(c);
    crate::base64url::lemma_b64_roundtrip(h);
    crate::base64url::lemma_b64_roundtrip(p);
    lemma_header_fields();
    lemma_payload_fields(c);
    // the header names HS256; the payload names the subject and expiry
    let f1h = (crate::keys::name_alg(), crate::json::JFieldS::FStr(hs256_name()));
    let f2h = (seq![116u8, 121u8, 112u8], crate::json::JFieldS::FStr(seq![74u8, 87u8, 84u8]));
    let f1p = (name_sub(), crate::json::JFieldS::FStr(encode_utf8(c.sub)));
    let f2p = (name_exp(), crate::json::JFieldS::FInt(c.exp as i64));
    assert(f1h.0 != f2h.0);
    assert(f1p.0 != f2p.0);
    lemma_pair_lookup(f1h, f2h);
    lemma_pair_lookup(f1p, f2p);
    assert(crate::json::spec_top_fields(h) == Some(seq![f1h, f2h]));
    assert(crate::json::spec_top_fields(p) == Some(seq![f1p, f2p]));
    assert(crate::json::req_str(seq![f1h, f2h], crate::keys::name_alg()) == Some(hs256_name()));
    assert(crate::json::req_str(seq![f1p, f2p], name_sub()) == Some(encode_utf8(c.sub)));
    assert(crate::json::req_int(seq![f1p, f2p], name_exp()) == Some(c.exp as i64));
    vstd::utf8::encode_utf8_valid_utf8(c.sub);
    assert(b64_decode(t.subrange(0, d1)) == Some(h));
    assert(b64_decode(t.subrange(d1 + 1, d2)) == Some(p));
}

/// Looking keys up in a two-member list with distinct keys.
proof fn lemma_pair_lookup(f1: (Seq<u8>, crate::json::JFieldS), f2: (Seq<u8>, crate::json::JFieldS))
    requires
        f1.0 != f2.0,
    ensures
        crate::json::count_key(seq![f1, f2], f1.0) == 1,
        crate::json::count_key(seq![f1, f2], f2.0) == 1,
        crate::json::the_val(seq![f1, f2], f1.0) == f1.1,
        crate::json::the_val(seq![f1, f2], f2.0) == f2.1,
{
    reveal_with_fuel(crate::json::count_key, 4);
    reveal_with_fuel(crate::json::the_val, 4);
    let flds = seq![f1, f2];
    assert(flds.drop_last() =~= seq![f1]);
    assert(seq![f1].drop_last() =~= Seq::<(Seq<u8>, crate::json::JFieldS)>::empty());
}

/// A lower-case hexadecimal digit.
fn hex_digit_exec(v: u8) -> (r: u8)
    requires
        v < 16,
    ensures
        r == hex_digit(v),
{
    if v < 10 {
        48 + v
    } else {
        87 + v
    }
}

/// Appends the decimal digits of `v` to `out`.
fn push_u64_digits(out: &mut Vec<u8>, v: u64)
    ensures
        final(out)@ == old(out)@ + u64_digits(v),
    decreases v,
{
    let ghost out0 = out@;
    if v < 10 {
        out.push(48 + (v as u8));
        proof {
            assert(out@ =~= out0 + u64_digits(v));
        }
    } else {
        push_u64_digits(out, v / 10);
        out.push(48 + ((v % 10) as u8));
        proof {
            assert(out@ =~= out0 + u64_digits(v));
        }
    }
}

/// Appends the JSON escape of the content bytes `s` to `out`.
fn push_escaped(out: &mut Vec<u8>, s: &[u8])
    ensures
        final(out)@ == old(out)@ + escape_bytes(s@),
{
    let ghost out0 = out@;
    let n: usize = s.len();
    let mut i: usize = 0;
    proof {
        assert(out@ =~= out0 + escape_bytes(s@.take(0)));
    }
    while i < n
        invariant
            i <= n,
            n == s@.len(),
            out@ == out0 + escape_bytes(s@.take(i as int)),
        decreases n - i,
    {
        let b: u8 = s[i];
        proof {
            assert(s@.take(i + 1).drop_last() =~= s@.take(i as int));
            assert(s@.take(i + 1).last() == b);
        }
        let ghost out_before = out@;
        if b == 34 {
            out.push(92);
            out.push(34);
        } else if b == 92 {
            out.push(92);
            out.push(92);
        } else if b < 32 {
            out.push(92);
            out.push(117);
            out.push(48);
            out.push(48);
            out.push(hex_digit_exec(b / 16));
            out.push(hex_digit_exec(b % 16));
        } else {
            out.push(b);
        }
        proof {
            assert(out@ =~= out_before + escape_byte(b));
            assert(out0 + escape_bytes(s@.take(i + 1)) =~= (out0 + escape_bytes(s@.take(i as int)))
                + escape_byte(b));
        }
        i = i + 1;
    }
    proof {
        assert(s@.take(n as int) =~= s@);
    }
}

/// All bytes below 128 form valid UTF-8.
pub proof fn lemma_ascii_valid_utf8(bytes: Seq<u8>)
    requires
        forall|i: int| 0 <= i < bytes.len() ==> bytes[i] < 128,
    ensures
        valid_utf8(bytes),
    decreases bytes.len(),
{
    if bytes.len() > 0 {
        let b = bytes[0];
        assert(vstd::utf8::is_leading_byte_width_1(b));
        assert((b & 0x7F) == b) by (bit_vector)
            requires
                b < 128,
        ;
        assert(vstd::utf8::valid_first_scalar(bytes));
        assert(vstd::utf8::pop_first_scalar(bytes) =~= bytes.skip(1));
        lemma_ascii_valid_utf8(bytes.skip(1));
    }
}

/// The part of decoding that follows the signature check: both segments
/// must decode and parse, the header must name HS256, and the payload's
/// subject and expiry come back.
#[verifier::rlimit(100)]
fn decode_body(s: &[u8], d1: usize, d2: usize, now: u64) -> (r: Result<Claims, DecodeError>)
    requires
        d1 < d2 <= s@.len(),
    ensures
        match spec_decode_body(s@, d1 as int, d2 as int, now) {
            Ok(p) => r matches Ok(c) && encode_utf8(c.sub@) == p.0 && c.exp == p.1,
            Err(e) => r == Err::<Claims, DecodeError>(e),
        },
{
    let hb = match b64url_decode_range(s, 0, d1) {
        Some(v) => v,
        None => {
            return Err(DecodeError::InvalidSignatureOrFormat);
        },
    };
    let pb = match b64url_decode_range(s, d1 + 1, d2) {
        Some(v) => v,
        None => {
            return Err(DecodeError::InvalidSignatureOrFormat);
        },
    };
    let hf = match parse_top_fields(hb.as_slice()) {
        Some(v) => v,
        None => {
            return Err(DecodeError::InvalidSignatureOrFormat);
        },
    };
    let pf = match parse_top_fields(pb.as_slice()) {
        Some(v) => v,
        None => {
            return Err(DecodeError::InvalidSignatureOrFormat);
        },
    };
    let name_alg_a: [u8; 3] = [97, 108, 103];
    let hs256_a: [u8; 5] = [72, 83, 50, 53, 54];
    proof {
        assert(name_alg_a@ =~= name_alg());
        assert(hs256_a@ =~= hs256_name());
    }
    let alg_ok: bool = match get_str_field(&hf, name_alg_a.as_slice()) {
        Some(v) => crate::bytesutil::bytes_eq(v.as_slice(), hs256_a.as_slice()),
        None => false,
    };
    if !alg_ok {
        return Err(DecodeError::InvalidSignatureOrFormat);
    }
    let name_sub_a: [u8; 3] = [115, 117, 98];
    let name_exp_a: [u8; 3] = [101, 120, 112];
    proof {
        assert(name_sub_a@ =~= name_sub());
        assert(name_exp_a@ =~= name_exp());
    }
    let sub_bytes = match get_str_field(&pf, name_sub_a.as_slice()) {
        Some(v) => v,
        None => {
            return Err(DecodeError::InvalidSignatureOrFormat);
        },
    };
    let exp_i = match get_int_field(&pf, name_exp_a.as_slice()) {
        Some(v) => v,
        None => {
            return Err(DecodeError::InvalidSignatureOrFormat);
        },
    };
    if exp_i < 0 {
        return Err(DecodeError::InvalidSignatureOrFormat);
    }
    let sub = match bytes_to_string(sub_bytes) {
        Some(v) => v,
        None => {
            return Err(DecodeError::InvalidSignatureOrFormat);
        },
    };
    let exp: u64 = exp_i as u64;
    if now < exp {
        Ok(Claims { sub, exp })
    } else {
        Err(DecodeError::TokenExpired)
    }
}

impl Claims {
    /// Issues a compact signed session token for these claims under the
    /// configured shared secret; without a secret nothing is issued.
    pub fn encode(&self, secret: Option<&str>) -> (r: Result<String, EncodeError>)
        requires
            self.exp <= MAX_EXPIRY,
        ensures
            match secret {
                None => r == Err::<String, EncodeError>(EncodeError::SecretKeyEnvNotFound),
                Some(sec) => r matches Ok(t) && t@.len() > 0 && encode_utf8(t@)
                    == spec_token_bytes(self@, encode_utf8(sec@)),
            },
    {
        let sec = match secret {
            Some(s) => s,
            None => {
                return Err(EncodeError::SecretKeyEnvNotFound);
            },
        };
        let mut payload: Vec<u8> = Vec::new();
        payload.push(123);
        payload.push(34);
        payload.push(115);
        payload.push(117);
        payload.push(98);
        payload.push(34);
        payload.push(58);
        payload.push(34);
        let ghost prefix = seq![123u8, 34u8, 115u8, 117u8, 98u8, 34u8, 58u8, 34u8];
        proof {
            assert(payload@ =~= prefix);
        }
        push_escaped(&mut payload, self.sub.as_str().as_bytes());
        let ghost with_sub = payload@;
        payload.push(34);
        payload.push(44);
        payload.push(34);
        payload.push(101);
        payload.push(120);
        payload.push(112);
        payload.push(34);
        payload.push(58);
        proof {
            assert(payload@ =~= with_sub + seq![34u8, 44u8, 34u8, 101u8, 120u8, 112u8, 34u8, 58u8]);
        }
        push_u64_digits(&mut payload, self.exp);
        payload.push(125);
        proof {
            assert(payload@ =~= spec_payload_bytes(self@));
        }
        let header: [u8; 27] = [
            123, 34, 97, 108, 103, 34, 58, 34, 72, 83, 50, 53, 54, 34, 44, 34, 116, 121, 112, 34,
            58, 34, 74, 87, 84, 34, 125,
        ];
        proof {
            assert(header@ =~= session_header_bytes());
        }
        let mut msg: Vec<u8> = b64url_encode(header.as_slice());
        msg.push(46);
        let mut pb64: Vec<u8> = b64url_encode(payload.as_slice());
        msg.append(&mut pb64);
        proof {
            assert(msg@ =~= spec_message_bytes(self@));
        }
        let mut sig: Vec<u8> = hs256_sign(sec.as_bytes(), msg.as_slice());
        let mut token_bytes: Vec<u8> = msg;
        token_bytes.push(46);
        let ghost sig_view = sig@;
        token_bytes.append(&mut sig);
        proof {
            assert(token_bytes@ =~= spec_token_bytes(self@, encode_utf8(sec@)));
            crate::base64url::lemma_encode_ascii(session_header_bytes());
            crate::base64url::lemma_encode_ascii(spec_payload_bytes(self@));
            assert forall|i: int| 0 <= i < token_bytes@.len() implies token_bytes@[i] < 128 by {
                let m = spec_message_bytes(self@);
                if i < m.len() {
                    let h = b64_encode(session_header_bytes());
                    if i < h.len() {
                        assert(m[i] == h[i]);
                    } else if i == h.len() {
                        assert(m[i] == 46);
                    } else {
                        assert(m[i] == b64_encode(spec_payload_bytes(self@))[i - h.len() - 1]);
                    }
                    assert(token_bytes@[i] == m[i]);
                } else if i == m.len() {
                    assert(token_bytes@[i] == 46);
                } else {
                    assert(token_bytes@[i] == sig_view[i - m.len() - 1]);
                }
            }
            lemma_ascii_valid_utf8(token_bytes@);
        }
        let ghost tb = token_bytes@;
        match bytes_to_string(token_bytes) {
            Some(t) => {
                proof {
                    if t@.len() == 0 {
                        assert(encode_utf8(t@) =~= Seq::<u8>::empty());
                        assert(b64_encode(session_header_bytes()).len() > 0);
                    }
                }
                Ok(t)
            },
            None => {
                proof {
                    assert(false);
                }
                Err(EncodeError::SigningError)
            },
        }
    }

    /// Checks a session token under the configured shared secret at time
    /// `now` and returns its claims; an expired token is told apart from
    /// every other kind of rejection.
    #[verifier::rlimit(100)]
    pub fn decode(token: &str, secret: Option<&str>, now: u64) -> (r: Result<Claims, DecodeError>)
        ensures
            match secret {
                None => r == Err::<Claims, DecodeError>(DecodeError::SecretKeyEnvNotFound),
                Some(sec) => {
                    match spec_session_decode(token.spec_bytes(), encode_utf8(sec@), now) {
                        Ok(p) => r matches Ok(c) && encode_utf8(c.sub@) == p.0 && c.exp == p.1,
                        Err(e) => r == Err::<Claims, DecodeError>(e),
                    }
                },
            },
    {
        let sec = match secret {
            Some(s) => s,
            None => {
                return Err(DecodeError::SecretKeyEnvNotFound);
            },
        };
        let s: &[u8] = token.as_bytes();
        let n: usize = s.len();
        let ghost t = token.spec_bytes();
        let d1: usize = find_byte(s, 0, 46);
        proof {
            lemma_first_index(t, 46);
            assert(first_index(t, 46) == d1);
        }
        if d1 == n {
            return Err(DecodeError::InvalidSignatureOrFormat);
        }
        let d2: usize = find_byte(s, d1 + 1, 46);
        proof {
            lemma_first_index(t.skip(d1 + 1), 46);
            assert forall|k: int| 0 <= k < d2 - d1 - 1 implies #[trigger] t.skip(d1 + 1)[k]
                != 46 by {
                assert(t.skip(d1 + 1)[k] == t[d1 + 1 + k]);
            }
            if (d2 as int) < n {
                assert(t.skip(d1 + 1)[d2 - d1 - 1] == 46);
            }
            assert(first_index(t.skip(d1 + 1), 46) == d2 - d1 - 1);
        }
        if d2 == n {
            return Err(DecodeError::InvalidSignatureOrFormat);
        }
        let msg: &[u8] = vstd::slice::slice_subrange(s, 0, d2);
        let sig: &[u8] = vstd::slice::slice_subrange(s, d2 + 1, n);
        proof {
            assert(sig@ =~= t.skip(d2 + 1));
            assert(msg@ =~= t.take(d2 as int));
        }
        if !hs256_verify(sec.as_bytes(), msg, sig) {
            return Err(DecodeError::InvalidSignatureOrFormat);
        }
        decode_body(s, d1, d2, now)
    }
}

} // verus!
