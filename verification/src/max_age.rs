//! Parser for the `max-age` directive of an HTTP `Cache-Control` header
//! value: the comma-separated directives are scanned in order, the first
//! whose name equals `max-age` (ASCII case-insensitively, after trimming)
//! decides the result, and its value after the first `=` is read as a
//! non-negative number of seconds.

use vstd::prelude::*;
use vstd::string::StringSliceAdditionalSpecFns;

use crate::bytesutil::{
    find_byte, first_index, lemma_first_index, lower_byte, lower_byte_exec, lower_bytes,
    parse_u64_bytes, parse_u64_range, trim_bytes, trim_range,
};

verus! {

/// Why no `max-age` duration could be extracted.
#[derive(Debug, PartialEq, Eq, Structural)]
pub enum MaxAgeParseError {
    /// No directive named `max-age` occurs in the header value.
    NoMaxAgeSpecified,
    /// The response carried no readable `Cache-Control` header at all.
    NoCacheControlHeader,
    /// A `max-age` directive occurs, but without any `=value` part.
    MaxAgeValueEmpty,
    /// The `max-age` value is not a non-negative integer that fits in 64 bits.
    NonNumericMaxAge,
}

/// The directive name searched for, lower-cased: the bytes of `max-age`.
pub open spec fn max_age_name() -> Seq<u8> {
    seq![109u8, 97u8, 120u8, 45u8, 97u8, 103u8, 101u8]
}

/// Whether `s[lo..hi]`, ASCII-lower-cased, spells `max-age`.
fn is_max_age_key(s: &[u8], lo: usize, hi: usize) -> (r: bool)
    requires
        lo <= hi <= s@.len(),
    ensures
        r == (lower_bytes(s@.subrange(lo as int, hi as int)) == max_age_name()),
{
    let ghost sub = s@.subrange(lo as int, hi as int);
    if hi - lo != 7 {
        proof {
            assert(lower_bytes(sub).len() == sub.len());
        }
        return false;
    }
    let r: bool = lower_byte_exec(s[lo]) == 109 && lower_byte_exec(s[lo + 1]) == 97
        && lower_byte_exec(s[lo + 2]) == 120 && lower_byte_exec(s[lo + 3]) == 45
        && lower_byte_exec(s[lo + 4]) == 97 && lower_byte_exec(s[lo + 5]) == 103
        && lower_byte_exec(s[lo + 6]) == 101;
    proof {
        assert(forall|k: int| 0 <= k < 7 ==> lower_bytes(sub)[k] == lower_byte(#[trigger] sub[k]));
        assert(forall|k: int| 0 <= k < 7 ==> #[trigger] sub[k] == s@[lo + k]);
        if r {
            assert(lower_bytes(sub) =~= max_age_name());
        } else {
            assert(lower_bytes(sub) != max_age_name());
        }
    }
    r
}

/// Result of one comma-separated directive: `Some(outcome)` if its name is
/// `max-age` (so the scan stops there), `None` if the scan moves on.
pub open spec fn directive_result(tok: Seq<u8>) -> Option<Result<u64, MaxAgeParseError>> {
    let eq = first_index(tok, 61);
    let key = trim_bytes(tok.take(eq));
    if lower_bytes(key) != max_age_name() {
        None
    } else if eq == tok.len() {
        Some(Err(MaxAgeParseError::MaxAgeValueEmpty))
    } else {
        let value = trim_bytes(tok.subrange(eq + 1, tok.len() as int));
        match parse_u64_bytes(value) {
            Some(v) => Some(Ok(v)),
            None => Some(Err(MaxAgeParseError::NonNumericMaxAge)),
        }
    }
}

/// Scans the directives of `s` from position `i` on, where directives are
/// separated by commas, and returns the result of the first `max-age`
/// directive, or `NoMaxAgeSpecified` if none occurs.
pub open spec fn scan_directives(s: Seq<u8>, i: int) -> Result<u64, MaxAgeParseError>
    decreases s.len() - i,
    via scan_directives_dec
{
    if i < 0 || i > s.len() {
        Err(MaxAgeParseError::NoMaxAgeSpecified)
    } else {
        let j = i + first_index(s.skip(i), 44);
        match directive_result(s.subrange(i, j)) {
            Some(r) => r,
            None => if j == s.len() {
                Err(MaxAgeParseError::NoMaxAgeSpecified)
            } else {
                scan_directives(s, j + 1)
            },
        }
    }
}

#[via_fn]
proof fn scan_directives_dec(s: Seq<u8>, i: int) {
    if 0 <= i <= s.len() {
        lemma_first_index(s.skip(i), 44);
    }
}

/// What `parse_max_age_value` returns for a header value with these bytes.
pub open spec fn spec_parse_max_age(s: Seq<u8>) -> Result<u64, MaxAgeParseError> {
    scan_directives(s, 0)
}

/// Determines the max age from an optional `Cache-Control` header value:
/// an absent header is its own failure kind.
pub fn parse_cache_control(header: Option<&str>) -> (r: Result<u64, MaxAgeParseError>)
    ensures
        match header {
            Some(v) => r == spec_parse_max_age(v.spec_bytes()),
            None => r == Err::<u64, MaxAgeParseError>(MaxAgeParseError::NoCacheControlHeader),
        },
{
    match header {
        Some(v) => parse_max_age_value(v),
        None => Err(MaxAgeParseError::NoCacheControlHeader),
    }
}

/// Extracts the `max-age` duration, in seconds, from a `Cache-Control`
/// header value.
#[verifier::loop_isolation(false)]
pub fn parse_max_age_value(cache_control_value: &str) -> (r: Result<u64, MaxAgeParseError>)
    ensures
        r == spec_parse_max_age(cache_control_value.spec_bytes()),
{
    let s: &[u8] = cache_control_value.as_bytes();
    let n: usize = s.len();
    let mut i: usize = 0;
    loop
        invariant
            i <= n,
            n == s@.len(),
            scan_directives(s@, 0) == scan_directives(s@, i as int),
        decreases n - i,
    {
        let j: usize = find_byte(s, i, 44);
        proof {
            lemma_first_index(s@.skip(i as int), 44);
            assert forall|k: int| 0 <= k < j - i implies s@.skip(i as int)[k] != 44 by {
                assert(s@.skip(i as int)[k] == s@[i + k]);
            }
            if (j as int) < n {
                assert(s@.skip(i as int)[j - i] == 44);
            }
            assert(first_index(s@.skip(i as int), 44) == j - i);
        }
        let tok_end: usize = j;
        let ghost tok = s@.subrange(i as int, tok_end as int);
        let eq: usize = find_byte(s, i, 61);
        let eq_in_tok: usize = if eq < tok_end {
            eq
        } else {
            tok_end
        };
        proof {
            lemma_first_index(tok, 61);
            assert forall|k: int| 0 <= k < eq_in_tok - i implies tok[k] != 61 by {
                assert(tok[k] == s@[i + k]);
            }
            if eq_in_tok < tok_end {
                assert(tok[eq_in_tok - i] == 61);
            }
            assert(first_index(tok, 61) == eq_in_tok - i);
        }
        let (klo, khi): (usize, usize) = trim_range(s, i, eq_in_tok);
        proof {
            assert(tok.take(eq_in_tok - i) =~= s@.subrange(i as int, eq_in_tok as int));
        }
        if is_max_age_key(s, klo, khi) {
            if eq_in_tok == tok_end {
                return Err(MaxAgeParseError::MaxAgeValueEmpty);
            }
            let (vlo, vhi): (usize, usize) = trim_range(s, eq_in_tok + 1, tok_end);
            proof {
                assert(tok.subrange(eq_in_tok - i + 1, tok.len() as int) =~= s@.subrange(
                    eq_in_tok + 1,
                    tok_end as int,
                ));
            }
            match parse_u64_range(s, vlo, vhi) {
                Some(v) => {
                    return Ok(v);
                },
                None => {
                    return Err(MaxAgeParseError::NonNumericMaxAge);
                },
            }
        }
        if j == n {
            return Err(MaxAgeParseError::NoMaxAgeSpecified);
        }
        i = j + 1;
    }
}

} // verus!
