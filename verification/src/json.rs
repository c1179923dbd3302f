//! A JSON reader for the documents the token formats carry: token headers,
//! token claim sets, and JWK key-set bodies.  It works on the UTF-8 bytes of
//! a document and extracts the string and integer fields of an object at its
//! top level, while validating and skipping over everything else (nested
//! objects and arrays, booleans, nulls, non-integral numbers).
//!
//! Strings support the full escape repertoire, including `\uXXXX` escapes
//! and surrogate pairs, which are re-encoded as UTF-8.  Numbers follow the
//! JSON grammar; only plain integers that fit in an `i64` are kept.

use vstd::prelude::*;
use vstd::utf8::{
    encode_scalar, has_width_1_encoding, has_width_2_encoding, has_width_3_encoding,
    last_continuation_byte, leading_byte_width_1, leading_byte_width_2, leading_byte_width_3,
    leading_byte_width_4, second_last_continuation_byte, third_last_continuation_byte,
};

use crate::bytesutil::{all_digits, digits_val, is_digit};

verus! {

/// JSON whitespace: space, tab, line feed, carriage return.
pub open spec fn json_ws(b: u8) -> bool {
    b == 32 || b == 9 || b == 10 || b == 13
}

/// First index at or after `i` that does not hold JSON whitespace.
pub open spec fn spec_skip_ws(s: Seq<u8>, i: int) -> int
    decreases s.len() - i,
{
    if 0 <= i < s.len() && json_ws(s[i]) {
        spec_skip_ws(s, i + 1)
    } else {
        i
    }
}

/// First index at or after `i` that does not hold a decimal digit.
pub open spec fn spec_scan_digits(s: Seq<u8>, i: int) -> int
    decreases s.len() - i,
{
    if 0 <= i < s.len() && is_digit(s[i]) {
        spec_scan_digits(s, i + 1)
    } else {
        i
    }
}

/// Between `i` and the first non-digit stand only digits.
pub proof fn lemma_scan_digits_props(s: Seq<u8>, i: int)
    requires
        0 <= i <= s.len(),
    ensures
        i <= spec_scan_digits(s, i) <= s.len(),
        forall|k: int| i <= k < spec_scan_digits(s, i) ==> is_digit(s[k]),
        spec_scan_digits(s, i) < s.len() ==> !is_digit(s[spec_scan_digits(s, i)]),
    decreases s.len() - i,
{
    if i < s.len() && is_digit(s[i]) {
        lemma_scan_digits_props(s, i + 1);
    }
}

/// Value of one hexadecimal digit, either case.
pub open spec fn hex_val(b: u8) -> Option<u8> {
    if 48 <= b <= 57 {
        Some((b - 48) as u8)
    } else if 97 <= b <= 102 {
        Some((b - 97 + 10) as u8)
    } else if 65 <= b <= 70 {
        Some((b - 65 + 10) as u8)
    } else {
        None
    }
}

/// Value of the four hexadecimal digits at `i`.
pub open spec fn spec_hex4(s: Seq<u8>, i: int) -> Option<u32> {
    if 0 <= i && i + 4 <= s.len() {
        match (hex_val(s[i]), hex_val(s[i + 1]), hex_val(s[i + 2]), hex_val(s[i + 3])) {
            (Some(a), Some(b), Some(c), Some(d)) => Some(
                ((a as u32) * 0x1000 + (b as u32) * 0x100 + (c as u32) * 0x10 + (d as u32)) as u32,
            ),
            _ => None,
        }
    } else {
        None
    }
}

/// Reads the remainder of a JSON string whose opening quote stands before
/// `i`, unescaping into `acc`; yields the content and the index just past
/// the closing quote.
pub open spec fn spec_string_body(s: Seq<u8>, i: int, acc: Seq<u8>) -> Option<(Seq<u8>, int)>
    decreases s.len() - i,
{
    if !(0 <= i < s.len()) {
        None
    } else {
        let c = s[i];
        if c == 34 {  // closing quote
            Some((acc, i + 1))
        } else if c == 92 {  // backslash
            if i + 1 >= s.len() {
                None
            } else {
                let e = s[i + 1];
                if e == 34 || e == 92 || e == 47 {
                    spec_string_body(s, i + 2, acc.push(e))
                } else if e == 98 {  // \b
                    spec_string_body(s, i + 2, acc.push(8))
                } else if e == 102 {  // \f
                    spec_string_body(s, i + 2, acc.push(12))
                } else if e == 110 {  // \n
                    spec_string_body(s, i + 2, acc.push(10))
                } else if e == 114 {  // \r
                    spec_string_body(s, i + 2, acc.push(13))
                } else if e == 116 {  // \t
                    spec_string_body(s, i + 2, acc.push(9))
                } else if e == 117 {  // \uXXXX
                    match spec_hex4(s, i + 2) {
                        Some(cp) => if 0xD800 <= cp <= 0xDBFF {
                            // high surrogate: a low surrogate escape must follow
                            if i + 12 <= s.len() && s[i + 6] == 92 && s[i + 7] == 117 {
                                match spec_hex4(s, i + 8) {
                                    Some(lo) => if 0xDC00 <= lo <= 0xDFFF {
                                        let scalar = 0x10000 + (cp - 0xD800) * 0x400 + (lo
                                            - 0xDC00);
                                        spec_string_body(
                                            s,
                                            i + 12,
                                            acc + encode_scalar(scalar as u32),
                                        )
                                    } else {
                                        None
                                    },
                                    None => None,
                                }
                            } else {
                                None
                            }
                        } else if 0xDC00 <= cp <= 0xDFFF {
                            None  // lone low surrogate
                        } else {
                            spec_string_body(s, i + 6, acc + encode_scalar(cp))
                        },
                        None => None,
                    }
                } else {
                    None
                }
            }
        } else if c < 32 {
            None  // control characters must be escaped
        } else {
            spec_string_body(s, i + 1, acc.push(c))
        }
    }
}

/// Reads a JSON string starting with its opening quote at `i`.
pub open spec fn spec_parse_string(s: Seq<u8>, i: int) -> Option<(Seq<u8>, int)> {
    if 0 <= i < s.len() && s[i] == 34 {
        spec_string_body(s, i + 1, Seq::empty())
    } else {
        None
    }
}

/// Reads a JSON number starting at `i`: the value if it is an integer that
/// fits in an `i64` (`None` for fractional, exponential or oversized
/// numbers), and the index just past it.
pub open spec fn spec_number(s: Seq<u8>, i: int) -> Option<(Option<i64>, int)> {
    if !(0 <= i < s.len()) {
        None
    } else {
        let neg = s[i] == 45;
        let i1 = if neg {
            i + 1
        } else {
            i
        };
        if !(i1 < s.len() && is_digit(s[i1])) {
            None
        } else if s[i1] == 48 && i1 + 1 < s.len() && is_digit(s[i1 + 1]) {
            None  // leading zero
        } else {
            let int_end = spec_scan_digits(s, i1);
            let dv = digits_val(s.subrange(i1, int_end));
            let frac_end = if int_end < s.len() && s[int_end] == 46 {
                let fe = spec_scan_digits(s, int_end + 1);
                if fe == int_end + 1 {
                    -1
                } else {
                    fe
                }
            } else {
                int_end
            };
            if frac_end < 0 {
                None
            } else {
                let exp_end = if frac_end < s.len() && (s[frac_end] == 101 || s[frac_end] == 69) {
                    let es = if frac_end + 1 < s.len() && (s[frac_end + 1] == 43 || s[frac_end + 1]
                        == 45) {
                        frac_end + 2
                    } else {
                        frac_end + 1
                    };
                    let ee = spec_scan_digits(s, es);
                    if ee == es {
                        -1
                    } else {
                        ee
                    }
                } else {
                    frac_end
                };
                if exp_end < 0 {
                    None
                } else {
                    let v: int = if neg {
                        -(dv as int)
                    } else {
                        dv as int
                    };
                    let int_opt: Option<i64> = if exp_end == int_end && i64::MIN <= v <= i64::MAX {
                        Some(v as i64)
                    } else {
                        None
                    };
                    Some((int_opt, exp_end))
                }
            }
        }
    }
}

/// First index at or after `i` without JSON whitespace.
pub fn skip_ws(s: &[u8], i: usize) -> (r: usize)
    requires
        i <= s@.len(),
    ensures
        r == spec_skip_ws(s@, i as int),
        i <= r <= s@.len(),
{
    let n: usize = s.len();
    let mut j: usize = i;
    while j < n && (s[j] == 32 || s[j] == 9 || s[j] == 10 || s[j] == 13)
        invariant
            i <= j <= n,
            n == s@.len(),
            spec_skip_ws(s@, i as int) == spec_skip_ws(s@, j as int),
        decreases n - j,
    {
        j = j + 1;
    }
    j
}

/// First index at or after `i` without a decimal digit.
pub fn scan_digits(s: &[u8], i: usize) -> (r: usize)
    requires
        i <= s@.len(),
    ensures
        r == spec_scan_digits(s@, i as int),
        i <= r <= s@.len(),
{
    let n: usize = s.len();
    let mut j: usize = i;
    while j < n && 48 <= s[j] && s[j] <= 57
        invariant
            i <= j <= n,
            n == s@.len(),
            spec_scan_digits(s@, i as int) == spec_scan_digits(s@, j as int),
        decreases n - j,
    {
        j = j + 1;
    }
    j
}

/// Value of the four hexadecimal digits at `i`, if they are there.
fn hex4(s: &[u8], i: usize) -> (r: Option<u32>)
    requires
        i <= s@.len(),
    ensures
        r == spec_hex4(s@, i as int),
{
    if s.len() - i < 4 {
        return None;
    }
    let a = match hex_val_exec(s[i]) {
        Some(v) => v,
        None => {
            return None;
        },
    };
    let b = match hex_val_exec(s[i + 1]) {
        Some(v) => v,
        None => {
            return None;
        },
    };
    let c = match hex_val_exec(s[i + 2]) {
        Some(v) => v,
        None => {
            return None;
        },
    };
    let d = match hex_val_exec(s[i + 3]) {
        Some(v) => v,
        None => {
            return None;
        },
    };
    Some((a as u32) * 0x1000 + (b as u32) * 0x100 + (c as u32) * 0x10 + (d as u32))
}

/// Value of one hexadecimal digit.
fn hex_val_exec(b: u8) -> (r: Option<u8>)
    ensures
        r == hex_val(b),
{
    if 48 <= b && b <= 57 {
        Some(b - 48)
    } else if 97 <= b && b <= 102 {
        Some(b - 97 + 10)
    } else if 65 <= b && b <= 70 {
        Some(b - 65 + 10)
    } else {
        None
    }
}

/// Appends the UTF-8 encoding of the scalar value `cp` to `out`.
fn push_scalar(out: &mut Vec<u8>, cp: u32)
    requires
        cp <= 0x10FFFF,
        !(0xD800 <= cp <= 0xDFFF),
    ensures
        final(out)@ == old(out)@ + encode_scalar(cp),
{
    let ghost out0 = out@;
    if cp <= 0x7F {
        proof {
            assert(leading_byte_width_1(cp) == (cp & 0x7F) as u8);
            assert((cp & 0x7F) == cp) by (bit_vector)
                requires
                    cp <= 0x7F,
            ;
        }
        out.push(cp as u8);
    } else if cp <= 0x7FF {
        out.push(0xC0u8 | (((cp >> 6) & 0x1F) as u8));
        out.push(0x80u8 | ((cp & 0x3F) as u8));
    } else if cp <= 0xFFFF {
        out.push(0xE0u8 | (((cp >> 12) & 0x0F) as u8));
        out.push(0x80u8 | (((cp >> 6) & 0x3F) as u8));
        out.push(0x80u8 | ((cp & 0x3F) as u8));
    } else {
        out.push(0xF0u8 | (((cp >> 18) & 0x7) as u8));
        out.push(0x80u8 | (((cp >> 12) & 0x3F) as u8));
        out.push(0x80u8 | (((cp >> 6) & 0x3F) as u8));
        out.push(0x80u8 | ((cp & 0x3F) as u8));
    }
    proof {
        assert(out@ =~= out0 + encode_scalar(cp));
    }
}

/// Reads the JSON string whose opening quote stands at `i` and unescapes it.
#[verifier::loop_isolation(false)]
pub fn parse_string(s: &[u8], i: usize) -> (r: Option<(Vec<u8>, usize)>)
    requires
        i <= s@.len(),
    ensures
        match r {
            Some(p) => spec_parse_string(s@, i as int) == Some((p.0@, p.1 as int)) && i < p.1
                <= s@.len(),
            None => spec_parse_string(s@, i as int) is None,
        },
{
    let n: usize = s.len();
    if i >= n || s[i] != 34 {
        return None;
    }
    let mut acc: Vec<u8> = Vec::new();
    let mut j: usize = i + 1;
    loop
        invariant
            i < j <= n,
            spec_string_body(s@, i + 1, Seq::empty()) == spec_string_body(s@, j as int, acc@),
        decreases n - j,
    {
        if j >= n {
            return None;
        }
        let c: u8 = s[j];
        if c == 34 {
            return Some((acc, j + 1));
        } else if c == 92 {
            if j + 1 >= n {
                return None;
            }
            let e: u8 = s[j + 1];
            if e == 34 || e == 92 || e == 47 {
                acc.push(e);
                j = j + 2;
            } else if e == 98 {
                acc.push(8);
                j = j + 2;
            } else if e == 102 {
                acc.push(12);
                j = j + 2;
            } else if e == 110 {
                acc.push(10);
                j = j + 2;
            } else if e == 114 {
                acc.push(13);
                j = j + 2;
            } else if e == 116 {
                acc.push(9);
                j = j + 2;
            } else if e == 117 {
                match hex4(s, j + 2) {
                    Some(cp) => {
                        if 0xD800 <= cp && cp <= 0xDBFF {
                            if n - j >= 12 && s[j + 6] == 92 && s[j + 7] == 117 {
                                match hex4(s, j + 8) {
                                    Some(lo) => {
                                        if 0xDC00 <= lo && lo <= 0xDFFF {
                                            let scalar: u32 = 0x10000 + (cp - 0xD800) * 0x400 + (lo
                                                - 0xDC00);
                                            push_scalar(&mut acc, scalar);
                                            j = j + 12;
                                        } else {
                                            return None;
                                        }
                                    },
                                    None => {
                                        return None;
                                    },
                                }
                            } else {
                                return None;
                            }
                        } else if 0xDC00 <= cp && cp <= 0xDFFF {
                            return None;
                        } else {
                            push_scalar(&mut acc, cp);
                            j = j + 6;
                        }
                    },
                    None => {
                        return None;
                    },
                }
            } else {
                return None;
            }
        } else if c < 32 {
            return None;
        } else {
            acc.push(c);
            j = j + 1;
        }
    }
}

/// Reads a JSON number starting at `i`; integral values that fit in an
/// `i64` are returned, other well-formed numbers yield `None` as the value.
#[verifier::loop_isolation(false)]
pub fn parse_number(s: &[u8], i: usize) -> (r: Option<(Option<i64>, usize)>)
    requires
        i <= s@.len(),
    ensures
        match r {
            Some(p) => spec_number(s@, i as int) == Some((p.0, p.1 as int)) && i < p.1 <= s@.len(),
            None => spec_number(s@, i as int) is None,
        },
{
    let n: usize = s.len();
    if i >= n {
        return None;
    }
    let neg: bool = s[i] == 45;
    let i1: usize = if neg {
        i + 1
    } else {
        i
    };
    if i1 >= n || s[i1] < 48 || s[i1] > 57 {
        return None;
    }
    if s[i1] == 48 && i1 + 1 < n && 48 <= s[i1 + 1] && s[i1 + 1] <= 57 {
        return None;
    }
    let int_end: usize = scan_digits(s, i1);
    proof {
        lemma_scan_digits_props(s@, i1 as int);
        assert forall|k: int|
            0 <= k < int_end - i1 implies is_digit(
            #[trigger] s@.subrange(i1 as int, int_end as int)[k],
        ) by {
            assert(s@.subrange(i1 as int, int_end as int)[k] == s@[i1 + k]);
        }
    }
    let cap: u64 = if neg {
        0x8000000000000000
    } else {
        0x7FFFFFFFFFFFFFFF
    };
    let dv: Option<u64> = digits_val_capped(s, i1, int_end, cap);
    let mut j: usize = int_end;
    let mut is_int: bool = true;
    if j < n && s[j] == 46 {
        let fe: usize = scan_digits(s, j + 1);
        if fe == j + 1 {
            return None;
        }
        j = fe;
        is_int = false;
    }
    let ghost frac_end = j as int;
    if j < n && (s[j] == 101 || s[j] == 69) {
        let es: usize = if j + 1 < n && (s[j + 1] == 43 || s[j + 1] == 45) {
            j + 2
        } else {
            j + 1
        };
        let ee: usize = scan_digits(s, es);
        if ee == es {
            return None;
        }
        j = ee;
        is_int = false;
    }
    let int_opt: Option<i64> = if !is_int {
        None
    } else {
        match dv {
            Some(v) => {
                if neg {
                    if v == 0x8000000000000000 {
                        Some(i64::MIN)
                    } else {
                        Some(-(v as i64))
                    }
                } else {
                    Some(v as i64)
                }
            },
            None => None,
        }
    };
    proof {
        let ghost spec_dv = digits_val(s@.subrange(i1 as int, int_end as int));
        if is_int {
            let v: int = if neg {
                -(spec_dv as int)
            } else {
                spec_dv as int
            };
            if neg {
                assert((i64::MIN <= v <= i64::MAX) == (spec_dv <= 0x8000000000000000));
            } else {
                assert((i64::MIN <= v <= i64::MAX) == (spec_dv <= 0x7FFFFFFFFFFFFFFF));
            }
        }
    }
    Some((int_opt, j))
}

/// How many levels of nested containers a skipped value may hold; one
/// level of the budget has already gone to the object being read.
pub const JSON_DEPTH_LIMIT: u32 = 127;

/// End of the JSON value starting at `i`, of whatever kind, or `None` if
/// it is malformed or nests containers deeper than `depth`.
pub open spec fn spec_skip_value(s: Seq<u8>, i: int, depth: nat) -> Option<int>
    decreases s.len() - i, 0nat,
{
    if !(0 <= i < s.len()) {
        None
    } else {
        let c = s[i];
        if c == 34 {
            match spec_parse_string(s, i) {
                Some(p) => Some(p.1),
                None => None,
            }
        } else if c == 123 {  // object
            if depth == 0 {
                None
            } else {
                let jw = spec_skip_ws(s, i + 1);
                if !(i < jw && jw <= s.len()) {
                    None
                } else if jw < s.len() && s[jw] == 125 {
                    Some(jw + 1)
                } else {
                    spec_skip_members(s, jw, (depth - 1) as nat)
                }
            }
        } else if c == 91 {  // array
            if depth == 0 {
                None
            } else {
                let jw = spec_skip_ws(s, i + 1);
                if !(i < jw && jw <= s.len()) {
                    None
                } else if jw < s.len() && s[jw] == 93 {
                    Some(jw + 1)
                } else {
                    spec_skip_elements(s, jw, (depth - 1) as nat)
                }
            }
        } else if c == 116 {  // true
            if i + 4 <= s.len() && s[i + 1] == 114 && s[i + 2] == 117 && s[i + 3] == 101 {
                Some(i + 4)
            } else {
                None
            }
        } else if c == 102 {  // false
            if i + 5 <= s.len() && s[i + 1] == 97 && s[i + 2] == 108 && s[i + 3] == 115 && s[i + 4]
                == 101 {
                Some(i + 5)
            } else {
                None
            }
        } else if c == 110 {  // null
            if i + 4 <= s.len() && s[i + 1] == 117 && s[i + 2] == 108 && s[i + 3] == 108 {
                Some(i + 4)
            } else {
                None
            }
        } else if c == 45 || is_digit(c) {
            match spec_number(s, i) {
                Some(p) => Some(p.1),
                None => None,
            }
        } else {
            None
        }
    }
}

/// End of the members of an object whose next key starts at `i`.
pub open spec fn spec_skip_members(s: Seq<u8>, i: int, depth: nat) -> Option<int>
    decreases s.len() - i, 1nat,
{
    match spec_parse_string(s, i) {
        None => None,
        Some(p) => {
            let jc = spec_skip_ws(s, p.1);
            if !(0 <= jc < s.len() && s[jc] == 58) {
                None
            } else {
                let jv = spec_skip_ws(s, jc + 1);
                if !(i < jv && jv <= s.len()) {
                    None
                } else {
                    match spec_skip_value(s, jv, depth) {
                        None => None,
                        Some(j2) => {
                            let ja = spec_skip_ws(s, j2);
                            if !(0 <= ja < s.len()) {
                                None
                            } else if s[ja] == 44 {
                                let jn = spec_skip_ws(s, ja + 1);
                                if !(i < jn && jn <= s.len()) {
                                    None
                                } else {
                                    spec_skip_members(s, jn, depth)
                                }
                            } else if s[ja] == 125 {
                                Some(ja + 1)
                            } else {
                                None
                            }
                        },
                    }
                }
            }
        },
    }
}

/// End of the elements of an array whose next element starts at `i`.
pub open spec fn spec_skip_elements(s: Seq<u8>, i: int, depth: nat) -> Option<int>
    decreases s.len() - i, 1nat,
{
    match spec_skip_value(s, i, depth) {
        None => None,
        Some(j2) => {
            let ja = spec_skip_ws(s, j2);
            if !(0 <= ja < s.len()) {
                None
            } else if s[ja] == 44 {
                let jn = spec_skip_ws(s, ja + 1);
                if !(i < jn && jn <= s.len()) {
                    None
                } else {
                    spec_skip_elements(s, jn, depth)
                }
            } else if s[ja] == 93 {
                Some(ja + 1)
            } else {
                None
            }
        },
    }
}

/// Consumes the JSON value starting at `i` without keeping it.
pub fn skip_value(s: &[u8], i: usize, depth: u32) -> (r: Option<usize>)
    requires
        i <= s@.len(),
    ensures
        match r {
            Some(j) => spec_skip_value(s@, i as int, depth as nat) == Some(j as int) && i < j
                <= s@.len(),
            None => spec_skip_value(s@, i as int, depth as nat) is None,
        },
    decreases s@.len() - i, 0nat,
{
    let n: usize = s.len();
    if i >= n {
        return None;
    }
    let c: u8 = s[i];
    if c == 34 {
        match parse_string(s, i) {
            Some(p) => Some(p.1),
            None => None,
        }
    } else if c == 123 {
        if depth == 0 {
            return None;
        }
        let jw: usize = skip_ws(s, i + 1);
        if jw < n && s[jw] == 125 {
            Some(jw + 1)
        } else {
            skip_members(s, jw, depth - 1)
        }
    } else if c == 91 {
        if depth == 0 {
            return None;
        }
        let jw: usize = skip_ws(s, i + 1);
        if jw < n && s[jw] == 93 {
            Some(jw + 1)
        } else {
            skip_elements(s, jw, depth - 1)
        }
    } else if c == 116 {
        if n - i >= 4 && s[i + 1] == 114 && s[i + 2] == 117 && s[i + 3] == 101 {
            Some(i + 4)
        } else {
            None
        }
    } else if c == 102 {
        if n - i >= 5 && s[i + 1] == 97 && s[i + 2] == 108 && s[i + 3] == 115 && s[i + 4] == 101 {
            Some(i + 5)
        } else {
            None
        }
    } else if c == 110 {
        if n - i >= 4 && s[i + 1] == 117 && s[i + 2] == 108 && s[i + 3] == 108 {
            Some(i + 4)
        } else {
            None
        }
    } else if c == 45 || (48 <= c && c <= 57) {
        match parse_number(s, i) {
            Some(p) => Some(p.1),
            None => None,
        }
    } else {
        None
    }
}

/// Consumes the members of an object whose next key starts at `i`.
fn skip_members(s: &[u8], i: usize, depth: u32) -> (r: Option<usize>)
    requires
        i <= s@.len(),
    ensures
        match r {
            Some(j) => spec_skip_members(s@, i as int, depth as nat) == Some(j as int) && i < j
                <= s@.len(),
            None => spec_skip_members(s@, i as int, depth as nat) is None,
        },
    decreases s@.len() - i, 1nat,
{
    let n: usize = s.len();
    let (_k, j) = match parse_string(s, i) {
        Some(p) => p,
        None => {
            return None;
        },
    };
    let jc: usize = skip_ws(s, j);
    if !(jc < n && s[jc] == 58) {
        return None;
    }
    let jv: usize = skip_ws(s, jc + 1);
    let j2 = match skip_value(s, jv, depth) {
        Some(j2) => j2,
        None => {
            return None;
        },
    };
    let ja: usize = skip_ws(s, j2);
    if ja >= n {
        return None;
    }
    if s[ja] == 44 {
        let jn: usize = skip_ws(s, ja + 1);
        skip_members(s, jn, depth)
    } else if s[ja] == 125 {
        Some(ja + 1)
    } else {
        None
    }
}

/// Consumes the elements of an array whose next element starts at `i`.
fn skip_elements(s: &[u8], i: usize, depth: u32) -> (r: Option<usize>)
    requires
        i <= s@.len(),
    ensures
        match r {
            Some(j) => spec_skip_elements(s@, i as int, depth as nat) == Some(j as int) && i < j
                <= s@.len(),
            None => spec_skip_elements(s@, i as int, depth as nat) is None,
        },
    decreases s@.len() - i, 1nat,
{
    let n: usize = s.len();
    let j2 = match skip_value(s, i, depth) {
        Some(j2) => j2,
        None => {
            return None;
        },
    };
    let ja: usize = skip_ws(s, j2);
    if ja >= n {
        return None;
    }
    if s[ja] == 44 {
        let jn: usize = skip_ws(s, ja + 1);
        skip_elements(s, jn, depth)
    } else if s[ja] == 93 {
        Some(ja + 1)
    } else {
        None
    }
}

/// A top-level field value as the reader keeps it: a string, an integer
/// that fits in an `i64`, or anything else (consumed and dropped).
pub enum JField {
    FStr(Vec<u8>),
    FInt(i64),
    FOther,
}

/// The mathematical value of a kept field.
pub enum JFieldS {
    FStr(Seq<u8>),
    FInt(i64),
    FOther,
}

impl View for JField {
    type V = JFieldS;

    open spec fn view(&self) -> JFieldS {
        match self {
            JField::FStr(v) => JFieldS::FStr(v@),
            JField::FInt(n) => JFieldS::FInt(*n),
            JField::FOther => JFieldS::FOther,
        }
    }
}

/// One top-level member of an object: its key and its kept value.
pub struct Field {
    pub key: Vec<u8>,
    pub val: JField,
}

impl View for Field {
    type V = (Seq<u8>, JFieldS);

    open spec fn view(&self) -> (Seq<u8>, JFieldS) {
        (self.key@, self.val@)
    }
}

/// The mathematical value of a collected field list.
pub open spec fn fields_view(v: Seq<Field>) -> Seq<(Seq<u8>, JFieldS)> {
    v.map_values(|f: Field| f@)
}

/// Reads one member value starting at `i`, keeping strings and integers.
pub open spec fn spec_field_value(s: Seq<u8>, i: int) -> Option<(JFieldS, int)> {
    if !(0 <= i < s.len()) {
        None
    } else {
        let c = s[i];
        if c == 34 {
            match spec_parse_string(s, i) {
                Some(p) => Some((JFieldS::FStr(p.0), p.1)),
                None => None,
            }
        } else if c == 45 || is_digit(c) {
            match spec_number(s, i) {
                Some(p) => Some(
                    (
                        match p.0 {
                            Some(v) => JFieldS::FInt(v),
                            None => JFieldS::FOther,
                        },
                        p.1,
                    ),
                ),
                None => None,
            }
        } else {
            match spec_skip_value(s, i, JSON_DEPTH_LIMIT as nat) {
                Some(j) => Some((JFieldS::FOther, j)),
                None => None,
            }
        }
    }
}

/// Collects the members of an object whose next key starts at `i`, after
/// those already in `acc`; yields them and the index past the `}`.
pub open spec fn spec_fields(s: Seq<u8>, i: int, acc: Seq<(Seq<u8>, JFieldS)>) -> Option<
    (Seq<(Seq<u8>, JFieldS)>, int),
>
    decreases s.len() - i,
{
    match spec_parse_string(s, i) {
        None => None,
        Some(p) => {
            let jc = spec_skip_ws(s, p.1);
            if !(0 <= jc < s.len() && s[jc] == 58) {
                None
            } else {
                let jv = spec_skip_ws(s, jc + 1);
                if !(i < jv && jv <= s.len()) {
                    None
                } else {
                    match spec_field_value(s, jv) {
                        None => None,
                        Some(q) => {
                            let ja = spec_skip_ws(s, q.1);
                            if !(0 <= ja < s.len()) {
                                None
                            } else if s[ja] == 44 {
                                let jn = spec_skip_ws(s, ja + 1);
                                if !(i < jn && jn <= s.len()) {
                                    None
                                } else {
                                    spec_fields(s, jn, acc.push((p.0, q.0)))
                                }
                            } else if s[ja] == 125 {
                                Some((acc.push((p.0, q.0)), ja + 1))
                            } else {
                                None
                            }
                        },
                    }
                }
            }
        },
    }
}

/// Reads the object starting at `i` field-wise; yields its top-level
/// members and the index past its `}`.
pub open spec fn spec_object_fields(s: Seq<u8>, i: int) -> Option<(Seq<(Seq<u8>, JFieldS)>, int)> {
    if !(0 <= i < s.len() && s[i] == 123) {
        None
    } else {
        let jw = spec_skip_ws(s, i + 1);
        if !(i < jw && jw <= s.len()) {
            None
        } else if jw < s.len() && s[jw] == 125 {
            Some((Seq::empty(), jw + 1))
        } else {
            spec_fields(s, jw, Seq::empty())
        }
    }
}

/// Reads a whole document that must be one object, with nothing but
/// whitespace around it; yields its top-level members.
pub open spec fn spec_top_fields(s: Seq<u8>) -> Option<Seq<(Seq<u8>, JFieldS)>> {
    let j0 = spec_skip_ws(s, 0);
    match spec_object_fields(s, j0) {
        None => None,
        Some(p) => {
            if spec_skip_ws(s, p.1) == s.len() {
                Some(p.0)
            } else {
                None
            }
        },
    }
}

/// Reads one member value starting at `i`, keeping strings and integers.
fn field_value(s: &[u8], i: usize) -> (r: Option<(JField, usize)>)
    requires
        i <= s@.len(),
    ensures
        match r {
            Some(p) => spec_field_value(s@, i as int) == Some((p.0@, p.1 as int)) && i < p.1
                <= s@.len(),
            None => spec_field_value(s@, i as int) is None,
        },
{
    let n: usize = s.len();
    if i >= n {
        return None;
    }
    let c: u8 = s[i];
    if c == 34 {
        match parse_string(s, i) {
            Some(p) => Some((JField::FStr(p.0), p.1)),
            None => None,
        }
    } else if c == 45 || (48 <= c && c <= 57) {
        match parse_number(s, i) {
            Some(p) => match p.0 {
                Some(v) => Some((JField::FInt(v), p.1)),
                None => Some((JField::FOther, p.1)),
            },
            None => None,
        }
    } else {
        match skip_value(s, i, JSON_DEPTH_LIMIT) {
            Some(j) => Some((JField::FOther, j)),
            None => None,
        }
    }
}

/// Reads the object starting at `i` field-wise; yields its top-level
/// members and the index past its `}`.
#[verifier::loop_isolation(false)]
pub fn parse_object_fields(s: &[u8], i: usize) -> (r: Option<(Vec<Field>, usize)>)
    requires
        i <= s@.len(),
    ensures
        match r {
            Some(p) => spec_object_fields(s@, i as int) == Some((fields_view(p.0@), p.1 as int))
                && i < p.1 <= s@.len(),
            None => spec_object_fields(s@, i as int) is None,
        },
{
    let n: usize = s.len();
    if !(i < n && s[i] == 123) {
        return None;
    }
    let jw: usize = skip_ws(s, i + 1);
    let mut acc: Vec<Field> = Vec::new();
    proof {
        assert(fields_view(acc@) =~= Seq::<(Seq<u8>, JFieldS)>::empty());
    }
    if jw < n && s[jw] == 125 {
        return Some((acc, jw + 1));
    }
    let mut cur: usize = jw;
    loop
        invariant
            i < cur <= n,
            spec_fields(s@, jw as int, Seq::empty()) == spec_fields(
                s@,
                cur as int,
                fields_view(acc@),
            ),
        decreases n - cur,
    {
        let (key, j) = match parse_string(s, cur) {
            Some(p) => p,
            None => {
                return None;
            },
        };
        let jc: usize = skip_ws(s, j);
        if !(jc < n && s[jc] == 58) {
            return None;
        }
        let jv: usize = skip_ws(s, jc + 1);
        let (fv, j2) = match field_value(s, jv) {
            Some(q) => q,
            None => {
                return None;
            },
        };
        let ja: usize = skip_ws(s, j2);
        if ja >= n {
            return None;
        }
        let ghost acc0 = acc@;
        let ghost kv = (key@, fv@);
        if s[ja] == 44 {
            let jn: usize = skip_ws(s, ja + 1);
            acc.push(Field { key, val: fv });
            proof {
                assert(fields_view(acc@) =~= fields_view(acc0).push(kv));
            }
            cur = jn;
        } else if s[ja] == 125 {
            acc.push(Field { key, val: fv });
            proof {
                assert(fields_view(acc@) =~= fields_view(acc0).push(kv));
            }
            return Some((acc, ja + 1));
        } else {
            return None;
        }
    }
}

/// Reads a whole document that must be one object, with nothing but
/// whitespace around it; yields its top-level members.
pub fn parse_top_fields(s: &[u8]) -> (r: Option<Vec<Field>>)
    ensures
        match r {
            Some(v) => spec_top_fields(s@) == Some(fields_view(v@)),
            None => spec_top_fields(s@) is None,
        },
{
    let n: usize = s.len();
    let j0: usize = skip_ws(s, 0);
    match parse_object_fields(s, j0) {
        Some(p) => {
            if skip_ws(s, p.1) == n {
                Some(p.0)
            } else {
                None
            }
        },
        None => None,
    }
}

/// How many members of `flds` carry the key `k`.
pub open spec fn count_key(flds: Seq<(Seq<u8>, JFieldS)>, k: Seq<u8>) -> nat
    decreases flds.len(),
{
    if flds.len() == 0 {
        0
    } else {
        count_key(flds.drop_last(), k) + if flds.last().0 == k {
            1nat
        } else {
            0nat
        }
    }
}

/// The value of the member with key `k`; meaningful when `k` occurs once.
pub open spec fn the_val(flds: Seq<(Seq<u8>, JFieldS)>, k: Seq<u8>) -> JFieldS
    decreases flds.len(),
{
    if flds.len() == 0 {
        JFieldS::FOther
    } else if flds.last().0 == k {
        flds.last().1
    } else {
        the_val(flds.drop_last(), k)
    }
}

/// The string field `k`, present exactly once, as a struct reader takes it:
/// `None` on a missing, duplicate, or differently-typed member.
pub open spec fn req_str(flds: Seq<(Seq<u8>, JFieldS)>, k: Seq<u8>) -> Option<Seq<u8>> {
    if count_key(flds, k) == 1 {
        match the_val(flds, k) {
            JFieldS::FStr(v) => Some(v),
            _ => None,
        }
    } else {
        None
    }
}

/// The integer field `k`, present exactly once; `None` on a missing,
/// duplicate, or differently-typed member.
pub open spec fn req_int(flds: Seq<(Seq<u8>, JFieldS)>, k: Seq<u8>) -> Option<i64> {
    if count_key(flds, k) == 1 {
        match the_val(flds, k) {
            JFieldS::FInt(v) => Some(v),
            _ => None,
        }
    } else {
        None
    }
}

/// Looks up the field named `k`, telling one occurrence from none or many.
#[verifier::loop_isolation(false)]
fn find_unique<'a>(fields: &'a Vec<Field>, k: &[u8]) -> (r: Option<&'a JField>)
    ensures
        match r {
            Some(f) => count_key(fields_view(fields@), k@) == 1 && the_val(
                fields_view(fields@),
                k@,
            ) == f@,
            None => count_key(fields_view(fields@), k@) != 1,
        },
{
    let n: usize = fields.len();
    let mut cnt: usize = 0;
    let mut found: usize = 0;
    let mut i: usize = 0;
    proof {
        assert(fields_view(fields@).take(0) =~= Seq::<(Seq<u8>, JFieldS)>::empty());
    }
    while i < n
        invariant
            i <= n,
            cnt <= i,
            cnt == count_key(fields_view(fields@).take(i as int), k@),
            cnt > 0 ==> found < i && fields@[found as int].key@ == k@ && the_val(
                fields_view(fields@).take(i as int),
                k@,
            ) == fields@[found as int].val@,
        decreases n - i,
    {
        let ghost fv = fields_view(fields@);
        proof {
            assert(fv.take(i + 1).drop_last() =~= fv.take(i as int));
            assert(fv.take(i + 1).last() == fv[i as int]);
            assert(fv[i as int] == fields@[i as int]@);
        }
        if crate::bytesutil::bytes_eq(fields[i].key.as_slice(), k) {
            found = i;
            cnt = cnt + 1;
        }
        i = i + 1;
    }
    proof {
        assert(fields_view(fields@).take(n as int) =~= fields_view(fields@));
    }
    if cnt == 1 {
        Some(&fields[found].val)
    } else {
        None
    }
}

/// The string field `k` of a collected object, if it is there exactly once.
pub fn get_str_field(fields: &Vec<Field>, k: &[u8]) -> (r: Option<Vec<u8>>)
    ensures
        match r {
            Some(v) => req_str(fields_view(fields@), k@) == Some(v@),
            None => req_str(fields_view(fields@), k@) is None,
        },
{
    match find_unique(fields, k) {
        Some(f) => match f {
            JField::FStr(v) => Some(crate::bytesutil::copy_bytes(v.as_slice())),
            _ => None,
        },
        None => None,
    }
}

/// The integer field `k` of a collected object, if it is there exactly once.
pub fn get_int_field(fields: &Vec<Field>, k: &[u8]) -> (r: Option<i64>)
    ensures
        r == req_int(fields_view(fields@), k@),
{
    match find_unique(fields, k) {
        Some(f) => match f {
            JField::FInt(v) => Some(*v),
            _ => None,
        },
        None => None,
    }
}

/// The value of the digits `s[lo..hi]`, unless it exceeds `cap`.
#[verifier::loop_isolation(false)]
fn digits_val_capped(s: &[u8], lo: usize, hi: usize, cap: u64) -> (r: Option<u64>)
    requires
        lo <= hi <= s@.len(),
        all_digits(s@.subrange(lo as int, hi as int)),
        9 <= cap,
    ensures
        match r {
            Some(v) => v == digits_val(s@.subrange(lo as int, hi as int)) && v <= cap,
            None => digits_val(s@.subrange(lo as int, hi as int)) > cap,
        },
{
    let ghost digits = s@.subrange(lo as int, hi as int);
    let mut val: u64 = 0;
    let mut j: usize = lo;
    while j < hi
        invariant
            lo <= j <= hi <= s@.len(),
            digits == s@.subrange(lo as int, hi as int),
            all_digits(digits),
            val == digits_val(digits.take(j - lo)),
            val <= cap,
            cap <= u64::MAX,
        decreases hi - j,
    {
        let c: u8 = s[j];
        proof {
            assert(digits[j - lo] == c);
            assert(is_digit(digits[j - lo]));
            assert(digits.take(j - lo + 1).drop_last() =~= digits.take(j - lo));
            assert(digits.take(j - lo + 1)[j - lo] == c);
        }
        let d: u64 = (c - 48) as u64;
        if val > (cap - d) / 10 {
            proof {
                assert(digits_val(digits.take(j - lo + 1)) == val * 10 + d);
                assert(val * 10 + d > cap) by (nonlinear_arith)
                    requires
                        val > (cap - d) / 10,
                        d <= 9,
                        d <= cap,
                ;
                crate::bytesutil::lemma_digits_prefix_le(digits, j - lo + 1);
            }
            return None;
        }
        proof {
            assert(val * 10 + d <= cap) by (nonlinear_arith)
                requires
                    val <= (cap - d) / 10,
                    d <= 9,
                    d <= cap,
            ;
        }
        val = val * 10 + d;
        j = j + 1;
    }
    proof {
        assert(digits.take(hi - lo) =~= digits);
    }
    Some(val)
}

} // verus!
