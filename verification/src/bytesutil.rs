//! Byte-level text helpers shared by the parsers: ASCII whitespace trimming,
//! ASCII case folding, searching for a delimiter, and decimal numbers.

use vstd::prelude::*;
use vstd::utf8::{encode_utf8, encode_utf8_decode_utf8, valid_utf8};

verus! {

/// Relies on `String::from_utf8`: it succeeds exactly on valid UTF-8 input
/// and the resulting string's bytes are the input bytes unchanged.
#[verifier::external_body]
pub fn bytes_to_string(bytes: Vec<u8>) -> (r: Option<String>)
    ensures
        r is Some <==> valid_utf8(bytes@),
        r matches Some(s) ==> encode_utf8(s@) == bytes@,
{
    String::from_utf8(bytes).ok()
}

/// UTF-8 encoding is injective: equal byte encodings mean equal strings.
pub proof fn lemma_encode_utf8_injective(a: Seq<char>, b: Seq<char>)
    requires
        encode_utf8(a) == encode_utf8(b),
    ensures
        a == b,
{
    encode_utf8_decode_utf8(a);
    encode_utf8_decode_utf8(b);
}

/// The whitespace bytes that `str::trim` removes within the ASCII range.
pub open spec fn is_ws_byte(b: u8) -> bool {
    b == 32 || b == 9 || b == 10 || b == 11 || b == 12 || b == 13
}

/// ASCII lower-casing of one byte; bytes outside `A`..=`Z` are unchanged.
pub open spec fn lower_byte(b: u8) -> u8 {
    if 65 <= b <= 90 {
        (b + 32) as u8
    } else {
        b
    }
}

/// ASCII lower-casing of a byte sequence.
pub open spec fn lower_bytes(s: Seq<u8>) -> Seq<u8> {
    s.map_values(|b: u8| lower_byte(b))
}

/// The sequence without its leading whitespace.
pub open spec fn trim_start(s: Seq<u8>) -> Seq<u8>
    decreases s.len(),
{
    if s.len() > 0 && is_ws_byte(s[0]) {
        trim_start(s.drop_first())
    } else {
        s
    }
}

/// The sequence without its trailing whitespace.
pub open spec fn trim_end(s: Seq<u8>) -> Seq<u8>
    decreases s.len(),
{
    if s.len() > 0 && is_ws_byte(s[s.len() - 1]) {
        trim_end(s.drop_last())
    } else {
        s
    }
}

/// The sequence without leading and trailing whitespace.
pub open spec fn trim_bytes(s: Seq<u8>) -> Seq<u8> {
    trim_end(trim_start(s))
}

/// Index of the first occurrence of `b` in `s`, or `s.len()` if absent.
pub open spec fn first_index(s: Seq<u8>, b: u8) -> int
    decreases s.len(),
{
    if s.len() == 0 {
        0
    } else if s[0] == b {
        0
    } else {
        1 + first_index(s.drop_first(), b)
    }
}

pub proof fn lemma_first_index(s: Seq<u8>, b: u8)
    ensures
        0 <= first_index(s, b) <= s.len(),
        first_index(s, b) < s.len() ==> s[first_index(s, b)] == b,
        forall|j: int| 0 <= j < first_index(s, b) ==> s[j] != b,
    decreases s.len(),
{
    if s.len() > 0 && s[0] != b {
        lemma_first_index(s.drop_first(), b);
        let fi = first_index(s, b);
        if fi < s.len() {
            assert(s.drop_first()[fi - 1] == s[fi]);
        }
        assert forall|j: int| 0 <= j < fi implies s[j] != b by {
            if j > 0 {
                assert(s.drop_first()[j - 1] == s[j]);
            }
        }
    }
}

pub open spec fn is_digit(b: u8) -> bool {
    48 <= b <= 57
}

pub open spec fn all_digits(s: Seq<u8>) -> bool {
    forall|i: int| 0 <= i < s.len() ==> is_digit(#[trigger] s[i])
}

/// Value of a sequence of decimal digit bytes, most significant first.
pub open spec fn digits_val(s: Seq<u8>) -> nat
    decreases s.len(),
{
    if s.len() == 0 {
        0
    } else {
        digits_val(s.drop_last()) * 10 + (s[s.len() - 1] - 48) as nat
    }
}

/// The value of a pure digit string, or `None` if it is empty, holds a
/// non-digit, or exceeds `u64::MAX`.
pub open spec fn digits_result(s: Seq<u8>) -> Option<u64> {
    if s.len() > 0 && all_digits(s) && digits_val(s) <= u64::MAX {
        Some(digits_val(s) as u64)
    } else {
        None
    }
}

/// How `u64::from_str` reads a trimmed value: an optional leading `+`,
/// then at least one digit, and the result must fit in a `u64`.
pub open spec fn parse_u64_bytes(s: Seq<u8>) -> Option<u64> {
    if s.len() > 0 && s[0] == 43 {
        digits_result(s.drop_first())
    } else {
        digits_result(s)
    }
}

/// A digit prefix never exceeds the value of the whole digit string.
pub proof fn lemma_digits_prefix_le(s: Seq<u8>, i: int)
    requires
        0 <= i <= s.len(),
        all_digits(s),
    ensures
        digits_val(s.take(i)) <= digits_val(s),
    decreases s.len() - i,
{
    if i < s.len() {
        assert(s.take(i + 1).drop_last() =~= s.take(i));
        assert(digits_val(s.take(i)) <= digits_val(s.take(i + 1)));
        lemma_digits_prefix_le(s, i + 1);
        assert(s.take(s.len() as int) =~= s);
    } else {
        assert(s.take(i) =~= s);
    }
}

/// First index of `b` in `s` at or after `from`, or `s.len()` if absent.
pub fn find_byte(s: &[u8], from: usize, b: u8) -> (i: usize)
    requires
        from <= s@.len(),
    ensures
        from <= i <= s@.len(),
        i < s@.len() ==> s@[i as int] == b,
        forall|j: int| from <= j < i ==> s@[j] != b,
{
    let n: usize = s.len();
    let mut i: usize = from;
    while i < n
        invariant
            from <= i <= n,
            n == s@.len(),
            forall|j: int| from <= j < i ==> s@[j] != b,
        decreases n - i,
    {
        if s[i] == b {
            return i;
        }
        i = i + 1;
    }
    i
}

proof fn lemma_trim_start_len(s: Seq<u8>)
    ensures
        trim_start(s).len() <= s.len(),
    decreases s.len(),
{
    if s.len() > 0 && is_ws_byte(s[0]) {
        lemma_trim_start_len(s.drop_first());
    }
}

proof fn lemma_trim_start_step(s: Seq<u8>)
    requires
        s.len() > 0,
        is_ws_byte(s[0]),
    ensures
        trim_start(s) == trim_start(s.drop_first()),
{
}

proof fn lemma_trim_end_step(s: Seq<u8>)
    requires
        s.len() > 0,
        is_ws_byte(s[s.len() - 1]),
    ensures
        trim_end(s) == trim_end(s.drop_last()),
{
}

/// Narrows `[lo, hi)` to the subrange that holds the trimmed content.
pub fn trim_range(s: &[u8], lo: usize, hi: usize) -> (r: (usize, usize))
    requires
        lo <= hi <= s@.len(),
    ensures
        lo <= r.0 <= r.1 <= hi,
        s@.subrange(r.0 as int, r.1 as int) == trim_bytes(s@.subrange(lo as int, hi as int)),
{
    let mut a: usize = lo;
    let mut b: usize = hi;
    while a < b && is_ws(s[a])
        invariant
            lo <= a <= b <= s@.len(),
            b == hi,
            trim_start(s@.subrange(a as int, b as int)) == trim_start(
                s@.subrange(lo as int, hi as int),
            ),
        decreases b - a,
    {
        proof {
            let sub = s@.subrange(a as int, b as int);
            lemma_trim_start_step(sub);
            assert(sub.drop_first() =~= s@.subrange(a + 1, b as int));
        }
        a = a + 1;
    }
    proof {
        let sub = s@.subrange(a as int, b as int);
        assert(trim_start(sub) == sub);
    }
    while a < b && is_ws(s[b - 1])
        invariant
            lo <= a <= b <= hi <= s@.len(),
            trim_start(s@.subrange(a as int, b as int)) == s@.subrange(a as int, b as int),
            trim_end(s@.subrange(a as int, b as int)) == trim_bytes(
                s@.subrange(lo as int, hi as int),
            ),
        decreases b - a,
    {
        proof {
            let sub = s@.subrange(a as int, b as int);
            lemma_trim_end_step(sub);
            assert(sub.drop_last() =~= s@.subrange(a as int, b - 1));
            let shorter = s@.subrange(a as int, b - 1);
            if shorter.len() > 0 && is_ws_byte(shorter[0]) {
                assert(sub[0] == shorter[0]);
                lemma_trim_start_step(sub);
                lemma_trim_start_len(sub.drop_first());
                assert(false);
            }
        }
        b = b - 1;
    }
    proof {
        let sub = s@.subrange(a as int, b as int);
        assert(trim_end(sub) == sub);
    }
    (a, b)
}

/// Whether `b` is one of the whitespace bytes that trimming removes.
pub fn is_ws(b: u8) -> (r: bool)
    ensures
        r == is_ws_byte(b),
{
    b == 32 || (9 <= b && b <= 13)
}

/// Whether two byte slices hold the same bytes.
pub fn bytes_eq(a: &[u8], b: &[u8]) -> (r: bool)
    ensures
        r == (a@ == b@),
{
    let n: usize = a.len();
    if n != b.len() {
        return false;
    }
    let mut i: usize = 0;
    while i < n
        invariant
            i <= n,
            n == a@.len() == b@.len(),
            forall|j: int| 0 <= j < i ==> a@[j] == b@[j],
        decreases n - i,
    {
        if a[i] != b[i] {
            return false;
        }
        i = i + 1;
    }
    proof {
        assert(a@ =~= b@);
    }
    true
}

/// An owned copy of a byte slice.
pub fn copy_bytes(src: &[u8]) -> (r: Vec<u8>)
    ensures
        r@ == src@,
{
    let n: usize = src.len();
    let mut out: Vec<u8> = Vec::new();
    let mut i: usize = 0;
    while i < n
        invariant
            i <= n,
            n == src@.len(),
            out@ == src@.take(i as int),
        decreases n - i,
    {
        out.push(src[i]);
        proof {
            assert(src@.take(i + 1) =~= src@.take(i as int).push(src@[i as int]));
        }
        i = i + 1;
    }
    proof {
        assert(src@.take(n as int) =~= src@);
    }
    out
}

/// ASCII-lower-cases one byte.
pub fn lower_byte_exec(b: u8) -> (r: u8)
    ensures
        r == lower_byte(b),
{
    if 65 <= b && b <= 90 {
        b + 32
    } else {
        b
    }
}

/// Reads a `u64` from `s[lo..hi]` exactly as `u64::from_str` would.
#[verifier::loop_isolation(false)]
pub fn parse_u64_range(s: &[u8], lo: usize, hi: usize) -> (r: Option<u64>)
    requires
        lo <= hi <= s@.len(),
    ensures
        r == parse_u64_bytes(s@.subrange(lo as int, hi as int)),
{
    let ghost whole = s@.subrange(lo as int, hi as int);
    let mut i: usize = lo;
    if i < hi && s[i] == 43 {
        i = i + 1;
    }
    let ghost digits = s@.subrange(i as int, hi as int);
    proof {
        if whole.len() > 0 && whole[0] == 43 {
            assert(digits =~= whole.drop_first());
        } else {
            assert(digits =~= whole);
        }
        assert(parse_u64_bytes(whole) == digits_result(digits));
    }
    if i == hi {
        return None;
    }
    let mut val: u64 = 0;
    let mut j: usize = i;
    while j < hi
        invariant
            i <= j <= hi,
            all_digits(digits.take(j - i)),
            val == digits_val(digits.take(j - i)),
        decreases hi - j,
    {
        let c: u8 = s[j];
        proof {
            assert(digits[j - i] == c);
            assert(digits.take(j - i + 1).drop_last() =~= digits.take(j - i));
            assert(digits.take(j - i + 1)[j - i] == c);
        }
        if c < 48 || c > 57 {
            proof {
                if all_digits(digits) {
                    assert(is_digit(digits[j - i]));
                }
            }
            return None;
        }
        let d: u64 = (c - 48) as u64;
        if val > (u64::MAX - d) / 10 {
            proof {
                assert(digits_val(digits.take(j - i + 1)) == val * 10 + d);
                assert(val * 10 + d > u64::MAX) by (nonlinear_arith)
                    requires
                        val > (u64::MAX - d) / 10,
                        d <= 9,
                ;
                if all_digits(digits) && digits_val(digits) <= u64::MAX {
                    lemma_digits_prefix_le(digits, j - i + 1);
                    assert(false);
                }
            }
            return None;
        }
        proof {
            assert(val * 10 + d <= u64::MAX) by (nonlinear_arith)
                requires
                    val <= (u64::MAX - d) / 10,
                    d <= 9,
            ;
        }
        val = val * 10 + d;
        j = j + 1;
    }
    proof {
        assert(digits.take(hi - i) =~= digits);
    }
    Some(val)
}

} // verus!
