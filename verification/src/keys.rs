//! The identity provider's key set: one fetched snapshot of its public
//! signing keys, stamped with its creation time and a validity duration
//! taken from the response's `Cache-Control` max-age (with a fixed
//! fallback), and the parser for the JWK JSON body
//! `{"keys": [{"e", "alg", "kty", "kid", "n"}, ...]}`.

use vstd::prelude::*;
use vstd::string::StringSliceAdditionalSpecFns;
use vstd::utf8::{encode_utf8, valid_utf8};

use crate::bytesutil::{bytes_eq, bytes_to_string};
use crate::json::{
    fields_view, get_str_field, parse_object_fields, parse_string, req_str, skip_value, skip_ws,
    spec_object_fields, spec_parse_string, spec_skip_value, spec_skip_ws, Field, JFieldS,
    JSON_DEPTH_LIMIT,
};
use crate::max_age::{parse_max_age_value, spec_parse_max_age, MaxAgeParseError};

verus! {

/// Seconds a key set stays valid when the response names no usable max-age.
pub const FALLBACK_TIMEOUT_SECS: u64 = 60;

/// One public signing key of the identity provider, as the JWK body
/// carries it.  Immutable once fetched.
#[derive(Debug)]
pub struct JwkKey {
    pub e: String,
    pub alg: String,
    pub kty: String,
    pub kid: String,
    pub n: String,
}

/// The raw bytes of one JWK entry as the parser reads them.
pub struct JwkEntryBytes {
    pub e: Seq<u8>,
    pub alg: Seq<u8>,
    pub kty: Seq<u8>,
    pub kid: Seq<u8>,
    pub n: Seq<u8>,
}

/// Whether the key holds exactly the parsed entry, field for field.
pub open spec fn key_matches(k: JwkKey, ent: JwkEntryBytes) -> bool {
    &&& encode_utf8(k.e@) == ent.e
    &&& encode_utf8(k.alg@) == ent.alg
    &&& encode_utf8(k.kty@) == ent.kty
    &&& encode_utf8(k.kid@) == ent.kid
    &&& encode_utf8(k.n@) == ent.n
}

/// Whether every field of the entry is valid UTF-8, so that it can be held
/// in a `String`.
pub open spec fn entry_utf8(ent: JwkEntryBytes) -> bool {
    valid_utf8(ent.e) && valid_utf8(ent.alg) && valid_utf8(ent.kty) && valid_utf8(ent.kid)
        && valid_utf8(ent.n)
}

pub open spec fn name_e() -> Seq<u8> {
    seq![101u8]  // e
}

pub open spec fn name_alg() -> Seq<u8> {
    seq![97u8, 108u8, 103u8]  // alg
}

pub open spec fn name_kty() -> Seq<u8> {
    seq![107u8, 116u8, 121u8]  // kty
}

pub open spec fn name_kid() -> Seq<u8> {
    seq![107u8, 105u8, 100u8]  // kid
}

pub open spec fn name_n() -> Seq<u8> {
    seq![110u8]  // n
}

pub open spec fn name_keys() -> Seq<u8> {
    seq![107u8, 101u8, 121u8, 115u8]  // keys
}

/// The five required string fields of one JWK object; other members are
/// ignored, and a missing, duplicate or non-string field rejects the body.
pub open spec fn jwk_of_fields(flds: Seq<(Seq<u8>, JFieldS)>) -> Option<JwkEntryBytes> {
    match (
        req_str(flds, name_e()),
        req_str(flds, name_alg()),
        req_str(flds, name_kty()),
        req_str(flds, name_kid()),
        req_str(flds, name_n()),
    ) {
        (Some(e), Some(alg), Some(kty), Some(kid), Some(n)) => Some(
            JwkEntryBytes { e, alg, kty, kid, n },
        ),
        _ => None,
    }
}

/// Reads the key objects of the `keys` array, the next starting at `i`.
pub open spec fn spec_jwk_elems(s: Seq<u8>, i: int, acc: Seq<JwkEntryBytes>) -> Option<
    (Seq<JwkEntryBytes>, int),
>
    decreases s.len() - i,
{
    match spec_object_fields(s, i) {
        None => None,
        Some(p) => match jwk_of_fields(p.0) {
            None => None,
            Some(entry) => {
                let ja = spec_skip_ws(s, p.1);
                if !(0 <= ja < s.len()) {
                    None
                } else if s[ja] == 44 {
                    let jn = spec_skip_ws(s, ja + 1);
                    if !(i < jn && jn <= s.len()) {
                        None
                    } else {
                        spec_jwk_elems(s, jn, acc.push(entry))
                    }
                } else if s[ja] == 93 {
                    Some((acc.push(entry), ja + 1))
                } else {
                    None
                }
            },
        },
    }
}

/// Reads the members of the body's root object, the next key starting at
/// `i`; `found` carries the `keys` array if already seen.  The member
/// `keys` must occur exactly once and hold an array of key objects.
pub open spec fn spec_jwks_members(
    s: Seq<u8>,
    i: int,
    found: Option<Seq<JwkEntryBytes>>,
) -> Option<(Seq<JwkEntryBytes>, int)>
    decreases s.len() - i,
{
    match spec_parse_string(s, i) {
        None => None,
        Some(p) => {
            let jc = spec_skip_ws(s, p.1);
            if !(0 <= jc < s.len() && s[jc] == 58) {
                None
            } else {
                let jv = spec_skip_ws(s, jc + 1);
                if !(i < jv && jv <= s.len()) {
                    None
                } else {
                    let after: Option<(Option<Seq<JwkEntryBytes>>, int)> = if p.0 == name_keys() {
                        if found is Some {
                            None  // a duplicate `keys` member
                        } else if jv < s.len() && s[jv] == 91 {
                            let jw2 = spec_skip_ws(s, jv + 1);
                            if !(jv < jw2 && jw2 <= s.len()) {
                                None
                            } else if jw2 < s.len() && s[jw2] == 93 {
                                Some((Some(Seq::empty()), jw2 + 1))
                            } else {
                                match spec_jwk_elems(s, jw2, Seq::empty()) {
                                    Some(q) => Some((Some(q.0), q.1)),
                                    None => None,
                                }
                            }
                        } else {
                            None  // `keys` is not an array
                        }
                    } else {
                        match spec_skip_value(s, jv, JSON_DEPTH_LIMIT as nat) {
                            Some(j2) => Some((found, j2)),
                            None => None,
                        }
                    };
                    match after {
                        None => None,
                        Some(q) => {
                            let ja = spec_skip_ws(s, q.1);
                            if !(0 <= ja < s.len()) {
                                None
                            } else if s[ja] == 44 {
                                let jn = spec_skip_ws(s, ja + 1);
                                if !(i < jn && jn <= s.len()) {
                                    None
                                } else {
                                    spec_jwks_members(s, jn, q.0)
                                }
                            } else if s[ja] == 125 {
                                match q.0 {
                                    Some(es) => Some((es, ja + 1)),
                                    None => None,  // no `keys` member at all
                                }
                            } else {
                                None
                            }
                        },
                    }
                }
            }
        },
    }
}

/// The key entries of a whole JWK body: one object with a `keys` array,
/// surrounded by nothing but whitespace.
pub open spec fn spec_jwks_body(s: Seq<u8>) -> Option<Seq<JwkEntryBytes>> {
    let j0 = spec_skip_ws(s, 0);
    if !(0 <= j0 < s.len() && s[j0] == 123) {
        None
    } else {
        let jw = spec_skip_ws(s, j0 + 1);
        if !(j0 < jw && jw <= s.len()) {
            None
        } else if jw < s.len() && s[jw] == 125 {
            None  // an empty object has no `keys` member
        } else {
            match spec_jwks_members(s, jw, None) {
                None => None,
                Some(p) => {
                    if spec_skip_ws(s, p.1) == s.len() {
                        Some(p.0)
                    } else {
                        None
                    }
                },
            }
        }
    }
}

/// Every entry's fields are valid UTF-8.
pub open spec fn entries_utf8(es: Seq<JwkEntryBytes>) -> bool {
    forall|i: int| 0 <= i < es.len() ==> entry_utf8(#[trigger] es[i])
}

/// The keys correspond to the parsed entries pointwise.
pub open spec fn keys_match_entries(keys: Seq<JwkKey>, es: Seq<JwkEntryBytes>) -> bool {
    keys.len() == es.len() && forall|i: int|
        0 <= i < keys.len() ==> key_matches(#[trigger] keys[i], es[i])
}

/// The validity duration taken from a `Cache-Control` header value, with
/// the fixed fallback when the header is absent or unusable.
pub open spec fn spec_validity_of_header(cc: Option<Seq<u8>>) -> u64 {
    match cc {
        Some(h) => match spec_parse_max_age(h) {
            Ok(v) => v,
            Err(_) => FALLBACK_TIMEOUT_SECS,
        },
        None => FALLBACK_TIMEOUT_SECS,
    }
}

/// The `Cache-Control` bytes of an optional header value.
pub open spec fn spec_header_bytes(cc: Option<&str>) -> Option<Seq<u8>> {
    match cc {
        Some(h) => Some(h.spec_bytes()),
        None => None,
    }
}

/// Why a fetched key-set body was rejected.
#[derive(Debug, PartialEq, Eq, Structural)]
pub enum KeysParseError {
    /// The body is not a JWK document of the expected shape.
    ParseError,
}

/// A fetched snapshot of the identity provider's public keys, never
/// changed after construction: a refresh builds a new `JwkKeys` value.
#[derive(Debug)]
pub struct JwkKeys {
    pub keys: Vec<JwkKey>,
    pub created: u64,
    pub validity: u64,
}

impl JwkKeys {
    /// Whether the snapshot is still valid at time `now` (both in seconds):
    /// exactly while `now` lies strictly before `created + validity`.
    pub fn is_still_valid(&self, now: u64) -> (r: bool)
        ensures
            r == (now < self.created + self.validity),
    {
        match self.created.checked_add(self.validity) {
            Some(end) => now < end,
            None => true,
        }
    }

    /// The key with the given key-id.  With several equal key-ids the
    /// latest entry wins, as in a map built by later inserts replacing
    /// earlier ones.
    pub fn find_key(&self, kid: &str) -> (r: Option<&JwkKey>)
        ensures
            match r {
                Some(k) => {
                    &&& spec_find_key(self.keys@, kid@) is Some
                    &&& k == self.keys@[spec_find_key(self.keys@, kid@).unwrap()]
                    &&& k.kid@ == kid@
                },
                None => spec_find_key(self.keys@, kid@) is None,
            },
    {
        let n: usize = self.keys.len();
        let mut i: usize = n;
        proof {
            assert(self.keys@.take(n as int) =~= self.keys@);
        }
        while i > 0
            invariant
                i <= n,
                n == self.keys@.len(),
                spec_find_key(self.keys@, kid@) == spec_find_key(self.keys@.take(i as int), kid@),
            decreases i,
        {
            i = i - 1;
            proof {
                assert(self.keys@.take(i + 1).last() == self.keys@[i as int]);
                assert(self.keys@.take(i + 1).drop_last() =~= self.keys@.take(i as int));
            }
            if bytes_eq(self.keys[i].kid.as_str().as_bytes(), kid.as_bytes()) {
                proof {
                    crate::bytesutil::lemma_encode_utf8_injective(self.keys@[i as int].kid@, kid@);
                }
                return Some(&self.keys[i]);
            }
        }
        proof {
            assert(self.keys@.take(0) =~= Seq::<JwkKey>::empty());
        }
        None
    }

    /// Builds the snapshot for a fetched body: the JWK entries parsed from
    /// `body`, stamped `created == now`, with the validity that the
    /// response's `Cache-Control` header gives (or the fallback).
    pub fn parse(body: &str, cache_control: Option<&str>, now: u64) -> (r: Result<
        JwkKeys,
        KeysParseError,
    >)
        ensures
            match r {
                Ok(ks) => {
                    &&& spec_jwks_body(body.spec_bytes()) matches Some(es)
                    &&& entries_utf8(spec_jwks_body(body.spec_bytes()).unwrap())
                    &&& keys_match_entries(ks.keys@, spec_jwks_body(body.spec_bytes()).unwrap())
                    &&& ks.created == now
                    &&& ks.validity == spec_validity_of_header(spec_header_bytes(cache_control))
                },
                Err(e) => {
                    &&& e == KeysParseError::ParseError
                    &&& (spec_jwks_body(body.spec_bytes()) is None || !entries_utf8(
                        spec_jwks_body(body.spec_bytes()).unwrap(),
                    ))
                },
            },
    {
        let raw = match parse_jwks_entries(body.as_bytes()) {
            Some(v) => v,
            None => {
                return Err(KeysParseError::ParseError);
            },
        };
        let keys = match raw_entries_to_keys(raw) {
            Some(ks) => ks,
            None => {
                return Err(KeysParseError::ParseError);
            },
        };
        let validity: u64 = match cache_control {
            Some(h) => match parse_max_age_value(h) {
                Ok(v) => v,
                Err(_) => FALLBACK_TIMEOUT_SECS,
            },
            None => FALLBACK_TIMEOUT_SECS,
        };
        Ok(JwkKeys { keys, created: now, validity })
    }
}

/// Index of the latest key whose key-id reads `kid`, if any.
pub open spec fn spec_find_key(keys: Seq<JwkKey>, kid: Seq<char>) -> Option<int>
    decreases keys.len(),
{
    if keys.len() == 0 {
        None
    } else if keys.last().kid@ == kid {
        Some(keys.len() - 1)
    } else {
        spec_find_key(keys.drop_last(), kid)
    }
}

/// One parsed JWK entry before its fields become strings.
pub struct RawJwk {
    pub e: Vec<u8>,
    pub alg: Vec<u8>,
    pub kty: Vec<u8>,
    pub kid: Vec<u8>,
    pub n: Vec<u8>,
}

impl View for RawJwk {
    type V = JwkEntryBytes;

    open spec fn view(&self) -> JwkEntryBytes {
        JwkEntryBytes { e: self.e@, alg: self.alg@, kty: self.kty@, kid: self.kid@, n: self.n@ }
    }
}

pub open spec fn raws_view(v: Seq<RawJwk>) -> Seq<JwkEntryBytes> {
    v.map_values(|r: RawJwk| r@)
}

/// The five fields of one key object, collected and checked.
fn jwk_from_fields(fields: &Vec<Field>) -> (r: Option<RawJwk>)
    ensures
        match r {
            Some(raw) => jwk_of_fields(fields_view(fields@)) == Some(raw@),
            None => jwk_of_fields(fields_view(fields@)) is None,
        },
{
    let name_e_a: [u8; 1] = [101];
    let name_alg_a: [u8; 3] = [97, 108, 103];
    let name_kty_a: [u8; 3] = [107, 116, 121];
    let name_kid_a: [u8; 3] = [107, 105, 100];
    let name_n_a: [u8; 1] = [110];
    proof {
        assert(name_e_a@ =~= name_e());
        assert(name_alg_a@ =~= name_alg());
        assert(name_kty_a@ =~= name_kty());
        assert(name_kid_a@ =~= name_kid());
        assert(name_n_a@ =~= name_n());
    }
    let e = match get_str_field(fields, name_e_a.as_slice()) {
        Some(v) => v,
        None => {
            return None;
        },
    };
    let alg = match get_str_field(fields, name_alg_a.as_slice()) {
        Some(v) => v,
        None => {
            return None;
        },
    };
    let kty = match get_str_field(fields, name_kty_a.as_slice()) {
        Some(v) => v,
        None => {
            return None;
        },
    };
    let kid = match get_str_field(fields, name_kid_a.as_slice()) {
        Some(v) => v,
        None => {
            return None;
        },
    };
    let n = match get_str_field(fields, name_n_a.as_slice()) {
        Some(v) => v,
        None => {
            return None;
        },
    };
    Some(RawJwk { e, alg, kty, kid, n })
}

/// Reads the key objects of the `keys` array, the first starting at `i`.
#[verifier::loop_isolation(false)]
fn parse_jwk_elems(s: &[u8], i: usize) -> (r: Option<(Vec<RawJwk>, usize)>)
    requires
        i <= s@.len(),
    ensures
        match r {
            Some(p) => spec_jwk_elems(s@, i as int, Seq::empty()) == Some(
                (raws_view(p.0@), p.1 as int),
            ) && i < p.1 <= s@.len(),
            None => spec_jwk_elems(s@, i as int, Seq::empty()) is None,
        },
{
    let n: usize = s.len();
    let mut acc: Vec<RawJwk> = Vec::new();
    let mut cur: usize = i;
    proof {
        assert(raws_view(acc@) =~= Seq::<JwkEntryBytes>::empty());
    }
    loop
        invariant
            i <= cur <= n,
            spec_jwk_elems(s@, i as int, Seq::empty()) == spec_jwk_elems(
                s@,
                cur as int,
                raws_view(acc@),
            ),
        decreases n - cur,
    {
        let (fields, j2) = match parse_object_fields(s, cur) {
            Some(p) => p,
            None => {
                return None;
            },
        };
        let entry = match jwk_from_fields(&fields) {
            Some(e) => e,
            None => {
                return None;
            },
        };
        let ja: usize = skip_ws(s, j2);
        if ja >= n {
            return None;
        }
        let ghost acc0 = acc@;
        let ghost ev = entry@;
        if s[ja] == 44 {
            let jn: usize = skip_ws(s, ja + 1);
            acc.push(entry);
            proof {
                assert(raws_view(acc@) =~= raws_view(acc0).push(ev));
            }
            cur = jn;
        } else if s[ja] == 93 {
            acc.push(entry);
            proof {
                assert(raws_view(acc@) =~= raws_view(acc0).push(ev));
            }
            return Some((acc, ja + 1));
        } else {
            return None;
        }
    }
}

/// The `keys` entries seen so far, as the specification tracks them.
spec fn found_view(found: Option<Vec<RawJwk>>) -> Option<Seq<JwkEntryBytes>> {
    match found {
        Some(v) => Some(raws_view(v@)),
        None => None,
    }
}

/// Reads the members of the body's root object, the first key at `i`.
#[verifier::loop_isolation(false)]
#[verifier::rlimit(100)]
fn parse_jwks_members(s: &[u8], i: usize) -> (r: Option<(Vec<RawJwk>, usize)>)
    requires
        i <= s@.len(),
    ensures
        match r {
            Some(p) => spec_jwks_members(s@, i as int, None) == Some(
                (raws_view(p.0@), p.1 as int),
            ) && i < p.1 <= s@.len(),
            None => spec_jwks_members(s@, i as int, None) is None,
        },
{
    let n: usize = s.len();
    let mut found: Option<Vec<RawJwk>> = None;
    let mut cur: usize = i;
    loop
        invariant
            i <= cur <= n,
            spec_jwks_members(s@, i as int, None) == spec_jwks_members(
                s@,
                cur as int,
                found_view(found),
            ),
        decreases n - cur,
    {
        let (key, j) = match parse_string(s, cur) {
            Some(p) => p,
            None => {
                return None;
            },
        };
        let jc: usize = skip_ws(s, j);
        if !(jc < n && s[jc] == 58) {
            return None;
        }
        let jv: usize = skip_ws(s, jc + 1);
        let keys_name: [u8; 4] = [107, 101, 121, 115];
        proof {
            assert(keys_name@ =~= name_keys());
        }
        let is_keys: bool = bytes_eq(key.as_slice(), keys_name.as_slice());
        let j2: usize;
        if is_keys {
            if found.is_some() {
                return None;
            }
            if !(jv < n && s[jv] == 91) {
                return None;
            }
            let jw2: usize = skip_ws(s, jv + 1);
            if jw2 < n && s[jw2] == 93 {
                let empty_keys: Vec<RawJwk> = Vec::new();
                proof {
                    assert(raws_view(empty_keys@) =~= Seq::<JwkEntryBytes>::empty());
                }
                found = Some(empty_keys);
                j2 = jw2 + 1;
            } else {
                match parse_jwk_elems(s, jw2) {
                    Some(p) => {
                        found = Some(p.0);
                        j2 = p.1;
                    },
                    None => {
                        return None;
                    },
                }
            }
        } else {
            match skip_value(s, jv, JSON_DEPTH_LIMIT) {
                Some(j) => {
                    j2 = j;
                },
                None => {
                    return None;
                },
            }
        }
        let ja: usize = skip_ws(s, j2);
        if ja >= n {
            return None;
        }
        if s[ja] == 44 {
            cur = skip_ws(s, ja + 1);
        } else if s[ja] == 125 {
            match found {
                Some(es) => {
                    return Some((es, ja + 1));
                },
                None => {
                    return None;
                },
            }
        } else {
            return None;
        }
    }
}

/// Reads a whole JWK body: one object with a `keys` array of key objects,
/// surrounded by nothing but whitespace.
fn parse_jwks_entries(s: &[u8]) -> (r: Option<Vec<RawJwk>>)
    ensures
        match r {
            Some(v) => spec_jwks_body(s@) == Some(raws_view(v@)),
            None => spec_jwks_body(s@) is None,
        },
{
    let n: usize = s.len();
    let j0: usize = skip_ws(s, 0);
    if !(j0 < n && s[j0] == 123) {
        return None;
    }
    let jw: usize = skip_ws(s, j0 + 1);
    if jw < n && s[jw] == 125 {
        return None;
    }
    match parse_jwks_members(s, jw) {
        Some(p) => {
            if skip_ws(s, p.1) == n {
                Some(p.0)
            } else {
                None
            }
        },
        None => None,
    }
}

/// Turns the parsed entries into keys; `None` when a field is not UTF-8.
#[verifier::loop_isolation(false)]
fn raw_entries_to_keys(raw: Vec<RawJwk>) -> (r: Option<Vec<JwkKey>>)
    ensures
        match r {
            Some(ks) => entries_utf8(raws_view(raw@)) && keys_match_entries(
                ks@,
                raws_view(raw@),
            ),
            None => !entries_utf8(raws_view(raw@)),
        },
{
    let ghost raw0 = raws_view(raw@);
    let mut rest = raw;
    let mut keys: Vec<JwkKey> = Vec::new();
    while rest.len() > 0
        invariant
            keys@.len() + rest@.len() == raw0.len(),
            raws_view(rest@) =~= raw0.skip(keys@.len() as int),
            forall|j: int|
                0 <= j < keys@.len() ==> key_matches(#[trigger] keys@[j], raw0[j]) && entry_utf8(
                    raw0[j],
                ),
        decreases rest@.len(),
    {
        let ghost k = keys@.len() as int;
        let ghost old_rest = rest@;
        let entry = rest.remove(0);
        proof {
            assert(raws_view(old_rest)[0] == old_rest[0]@);
            assert(raws_view(old_rest)[0] == raw0.skip(k)[0]);
            assert(entry@ == raw0[k]);
            assert forall|j: int| 0 <= j < rest@.len() implies raws_view(rest@)[j] == raw0.skip(
                k + 1,
            )[j] by {
                assert(rest@[j] == old_rest[j + 1]);
                assert(raws_view(old_rest)[j + 1] == old_rest[j + 1]@);
                assert(raws_view(old_rest)[j + 1] == raw0.skip(k)[j + 1]);
            }
            assert(raws_view(rest@) =~= raw0.skip(k + 1));
        }
        let RawJwk { e, alg, kty, kid, n } = entry;
        let e_s = match bytes_to_string(e) {
            Some(v) => v,
            None => {
                return None;
            },
        };
        let alg_s = match bytes_to_string(alg) {
            Some(v) => v,
            None => {
                return None;
            },
        };
        let kty_s = match bytes_to_string(kty) {
            Some(v) => v,
            None => {
                return None;
            },
        };
        let kid_s = match bytes_to_string(kid) {
            Some(v) => v,
            None => {
                return None;
            },
        };
        let n_s = match bytes_to_string(n) {
            Some(v) => v,
            None => {
                return None;
            },
        };
        keys.push(JwkKey { e: e_s, alg: alg_s, kty: kty_s, kid: kid_s, n: n_s });
        proof {
            assert(keys@.len() == k + 1);
            assert(key_matches(keys@[k], raw0[k]));
            assert(entry_utf8(raw0[k]));
            assert forall|j: int|
                0 <= j < keys@.len() implies key_matches(#[trigger] keys@[j], raw0[j])
                && entry_utf8(raw0[j]) by {
                if j < k {
                    assert(keys@[j] == keys@.drop_last()[j]);
                }
            }
        }
    }
    proof {
        assert(keys@.len() == raw0.len());
        assert forall|i: int| 0 <= i < raw0.len() implies entry_utf8(#[trigger] raw0[i]) by {
            assert(key_matches(keys@[i], raw0[i]));
        }
    }
    Some(keys)
}

} // verus!
