//! Base64url codec without padding, as compact signed tokens use for their
//! header, payload and signature segments.  The decoder is strict: it
//! rejects characters outside the alphabet, a trailing group of one
//! character, and non-zero trailing bits, so exactly the encoder's outputs
//! are accepted.

use vstd::prelude::*;

verus! {

/// The base64url character for a 6-bit value.
pub open spec fn b64_char(v: u8) -> u8 {
    if v < 26 {
        (65 + v) as u8  // 'A'..='Z'
    } else if v < 52 {
        (97 + (v - 26)) as u8  // 'a'..='z'
    } else if v < 62 {
        (48 + (v - 52)) as u8  // '0'..='9'
    } else if v == 62 {
        45  // '-'
    } else {
        95  // '_'
    }
}

/// The 6-bit value of a base64url character, or `None` outside the alphabet.
pub open spec fn b64_val(c: u8) -> Option<u8> {
    if 65 <= c <= 90 {
        Some((c - 65) as u8)
    } else if 97 <= c <= 122 {
        Some((26 + (c - 97)) as u8)
    } else if 48 <= c <= 57 {
        Some((52 + (c - 48)) as u8)
    } else if c == 45 {
        Some(62)
    } else if c == 95 {
        Some(63)
    } else {
        None
    }
}

/// Base64url encoding of a byte sequence, without padding.
pub open spec fn b64_encode(s: Seq<u8>) -> Seq<u8>
    decreases s.len(),
{
    if s.len() == 0 {
        Seq::empty()
    } else if s.len() == 1 {
        let a = s[0];
        seq![b64_char(a / 4), b64_char(((a % 4) * 16) as u8)]
    } else if s.len() == 2 {
        let a = s[0];
        let b = s[1];
        seq![
            b64_char(a / 4),
            b64_char(((a % 4) * 16 + b / 16) as u8),
            b64_char(((b % 16) * 4) as u8),
        ]
    } else {
        let a = s[0];
        let b = s[1];
        let c = s[2];
        seq![
            b64_char(a / 4),
            b64_char(((a % 4) * 16 + b / 16) as u8),
            b64_char(((b % 16) * 4 + c / 64) as u8),
            b64_char(c % 64),
        ] + b64_encode(s.skip(3))
    }
}

/// Strict base64url decoding: `None` on any character outside the alphabet,
/// on a leftover group of one character, and on non-zero trailing bits.
pub open spec fn b64_decode(s: Seq<u8>) -> Option<Seq<u8>>
    decreases s.len(),
{
    if s.len() == 0 {
        Some(Seq::empty())
    } else if s.len() == 1 {
        None
    } else if s.len() == 2 {
        match (b64_val(s[0]), b64_val(s[1])) {
            (Some(v1), Some(v2)) => if v2 % 16 == 0 {
                Some(seq![(v1 * 4 + v2 / 16) as u8])
            } else {
                None
            },
            _ => None,
        }
    } else if s.len() == 3 {
        match (b64_val(s[0]), b64_val(s[1]), b64_val(s[2])) {
            (Some(v1), Some(v2), Some(v3)) => if v3 % 4 == 0 {
                Some(seq![(v1 * 4 + v2 / 16) as u8, ((v2 % 16) * 16 + v3 / 4) as u8])
            } else {
                None
            },
            _ => None,
        }
    } else {
        match (b64_val(s[0]), b64_val(s[1]), b64_val(s[2]), b64_val(s[3])) {
            (Some(v1), Some(v2), Some(v3), Some(v4)) => match b64_decode(s.skip(4)) {
                Some(rest) => Some(
                    seq![
                        (v1 * 4 + v2 / 16) as u8,
                        ((v2 % 16) * 16 + v3 / 4) as u8,
                        ((v3 % 4) * 64 + v4) as u8,
                    ] + rest,
                ),
                None => None,
            },
            _ => None,
        }
    }
}

/// Every encoded byte is an ASCII alphabet character: below 128, and
/// never a dot, so encoded segments keep token framing intact.
pub proof fn lemma_encode_ascii(s: Seq<u8>)
    ensures
        forall|i: int|
            0 <= i < b64_encode(s).len() ==> (#[trigger] b64_encode(s)[i] < 128 && b64_encode(
                s,
            )[i] != 46),
    decreases s.len(),
{
    assert(forall|v: u8| #[trigger] b64_char(v) < 128 && b64_char(v) != 46);
    if s.len() > 2 {
        lemma_encode_ascii(s.skip(3));
        let head = seq![
            b64_char(s[0] / 4),
            b64_char(((s[0] % 4) * 16 + s[1] / 16) as u8),
            b64_char(((s[1] % 16) * 4 + s[2] / 64) as u8),
            b64_char(s[2] % 64),
        ];
        let rest = b64_encode(s.skip(3));
        assert(b64_encode(s) == head + rest);
        assert forall|i: int| 0 <= i < b64_encode(s).len() implies (#[trigger] b64_encode(s)[i]
            < 128 && b64_encode(s)[i] != 46) by {
            if i < 4 {
                assert(b64_encode(s)[i] == head[i]);
            } else {
                assert(b64_encode(s)[i] == rest[i - 4]);
            }
        }
    }
}

proof fn lemma_char_val(v: u8)
    requires
        v < 64,
    ensures
        b64_val(b64_char(v)) == Some(v),
{
}

/// Decoding is a left inverse of encoding.
pub proof fn lemma_b64_roundtrip(s: Seq<u8>)
    ensures
        b64_decode(b64_encode(s)) == Some(s),
    decreases s.len(),
{
    if s.len() == 0 {
        assert(b64_decode(b64_encode(s)) =~~= Some(s));
    } else if s.len() == 1 {
        let a = s[0];
        lemma_char_val(a / 4);
        lemma_char_val(((a % 4) * 16) as u8);
        assert((a % 4) * 16 % 16 == 0 && (a / 4) * 4 + (a % 4) * 16 / 16 == a) by (nonlinear_arith);
        assert(b64_decode(b64_encode(s)) =~~= Some(s));
    } else if s.len() == 2 {
        let a = s[0];
        let b = s[1];
        lemma_char_val(a / 4);
        lemma_char_val(((a % 4) * 16 + b / 16) as u8);
        lemma_char_val(((b % 16) * 4) as u8);
        assert((b % 16) * 4 % 4 == 0) by (nonlinear_arith);
        assert(((a % 4) * 16 + b / 16) % 16 == b / 16 && ((a % 4) * 16 + b / 16) / 16 == a % 4)
            by (nonlinear_arith)
            requires
                a < 256 && b < 256,
        ;
        assert((a / 4) * 4 + a % 4 == a);
        assert((b / 16) * 16 + (b % 16) * 4 / 4 == b) by (nonlinear_arith);
        assert(b64_decode(b64_encode(s)) =~~= Some(s));
    } else {
        let a = s[0];
        let b = s[1];
        let c = s[2];
        lemma_b64_roundtrip(s.skip(3));
        lemma_char_val(a / 4);
        lemma_char_val(((a % 4) * 16 + b / 16) as u8);
        lemma_char_val(((b % 16) * 4 + c / 64) as u8);
        lemma_char_val(c % 64);
        let enc = b64_encode(s);
        let head = seq![
            b64_char(a / 4),
            b64_char(((a % 4) * 16 + b / 16) as u8),
            b64_char(((b % 16) * 4 + c / 64) as u8),
            b64_char(c % 64),
        ];
        assert(enc == head + b64_encode(s.skip(3)));
        lemma_encode_len_ge(s.skip(3));
        assert(enc.len() >= 4);
        assert(enc[0] == head[0] && enc[1] == head[1] && enc[2] == head[2] && enc[3] == head[3]);
        assert(enc.skip(4) =~= b64_encode(s.skip(3)));
        let v1 = a / 4;
        let v2 = ((a % 4) * 16 + b / 16) as u8;
        let v3 = ((b % 16) * 4 + c / 64) as u8;
        let v4 = c % 64;
        assert(v2 / 16 == a % 4 && v2 % 16 == b / 16) by (nonlinear_arith)
            requires
                v2 == (a % 4) * 16 + b / 16 && a < 256 && b < 256,
        ;
        assert(v3 / 4 == b % 16 && v3 % 4 == c / 64) by (nonlinear_arith)
            requires
                v3 == (b % 16) * 4 + c / 64 && b < 256 && c < 256,
        ;
        assert(v1 * 4 + v2 / 16 == a);
        assert((v2 % 16) * 16 + v3 / 4 == b) by (nonlinear_arith)
            requires
                v2 % 16 == b / 16 && v3 / 4 == b % 16 && b < 256,
        ;
        assert((v3 % 4) * 64 + v4 == c) by (nonlinear_arith)
            requires
                v3 % 4 == c / 64 && v4 == c % 64 && c < 256,
        ;
        assert(seq![a, b, c] + s.skip(3) =~= s);
        assert(b64_decode(enc) =~~= Some(s));
    }
}

/// Encoding at least one byte yields at least two characters.
proof fn lemma_encode_len_ge(s: Seq<u8>)
    ensures
        s.len() == 0 ==> b64_encode(s).len() == 0,
        s.len() > 0 ==> b64_encode(s).len() >= 2,
    decreases s.len(),
{
    if s.len() > 2 {
        lemma_encode_len_ge(s.skip(3));
    }
}

/// The base64url character for a 6-bit value.
fn b64_char_exec(v: u8) -> (r: u8)
    requires
        v < 64,
    ensures
        r == b64_char(v),
{
    if v < 26 {
        65 + v
    } else if v < 52 {
        97 + (v - 26)
    } else if v < 62 {
        48 + (v - 52)
    } else if v == 62 {
        45
    } else {
        95
    }
}

/// The 6-bit value of a base64url character, if any.
fn b64_val_exec(c: u8) -> (r: Option<u8>)
    ensures
        r == b64_val(c),
{
    if 65 <= c && c <= 90 {
        Some(c - 65)
    } else if 97 <= c && c <= 122 {
        Some(26 + (c - 97))
    } else if 48 <= c && c <= 57 {
        Some(52 + (c - 48))
    } else if c == 45 {
        Some(62)
    } else if c == 95 {
        Some(63)
    } else {
        None
    }
}

/// Encodes `s` as base64url without padding.
#[verifier::loop_isolation(false)]
pub fn b64url_encode(s: &[u8]) -> (r: Vec<u8>)
    ensures
        r@ == b64_encode(s@),
{
    let n: usize = s.len();
    let mut out: Vec<u8> = Vec::new();
    let mut i: usize = 0;
    proof {
        assert(s@.skip(0) =~= s@);
    }
    while n - i >= 3
        invariant
            i <= n,
            i % 3 == 0,
            out@ + b64_encode(s@.skip(i as int)) == b64_encode(s@),
        decreases n - i,
    {
        let a: u8 = s[i];
        let b: u8 = s[i + 1];
        let c: u8 = s[i + 2];
        proof {
            let g = s@.skip(i as int);
            assert(g[0] == a && g[1] == b && g[2] == c);
            assert(g.skip(3) =~= s@.skip(i + 3));
        }
        let ghost out0 = out@;
        out.push(b64_char_exec(a / 4));
        out.push(b64_char_exec((a % 4) * 16 + b / 16));
        out.push(b64_char_exec((b % 16) * 4 + c / 64));
        out.push(b64_char_exec(c % 64));
        proof {
            let g = s@.skip(i as int);
            let head = seq![
                b64_char(a / 4),
                b64_char(((a % 4) * 16 + b / 16) as u8),
                b64_char(((b % 16) * 4 + c / 64) as u8),
                b64_char(c % 64),
            ];
            assert(out@ =~= out0 + head);
            assert(b64_encode(g) == head + b64_encode(s@.skip(i + 3)));
            assert(out0 + (head + b64_encode(s@.skip(i + 3))) =~= (out0 + head) + b64_encode(
                s@.skip(i + 3),
            ));
        }
        i = i + 3;
    }
    if n - i == 1 {
        let a: u8 = s[i];
        proof {
            let g = s@.skip(i as int);
            assert(g.len() == 1 && g[0] == a);
        }
        out.push(b64_char_exec(a / 4));
        out.push(b64_char_exec((a % 4) * 16));
        proof {
            assert(out@ =~= b64_encode(s@));
        }
    } else if n - i == 2 {
        let a: u8 = s[i];
        let b: u8 = s[i + 1];
        proof {
            let g = s@.skip(i as int);
            assert(g.len() == 2 && g[0] == a && g[1] == b);
        }
        out.push(b64_char_exec(a / 4));
        out.push(b64_char_exec((a % 4) * 16 + b / 16));
        out.push(b64_char_exec((b % 16) * 4));
        proof {
            assert(out@ =~= b64_encode(s@));
        }
    } else {
        proof {
            assert(s@.skip(i as int).len() == 0);
            assert(out@ =~= b64_encode(s@));
        }
    }
    out
}

/// Prepends `p` to a decoded tail, passing a failure through.
pub open spec fn opt_prepend(p: Seq<u8>, o: Option<Seq<u8>>) -> Option<Seq<u8>> {
    match o {
        Some(rest) => Some(p + rest),
        None => None,
    }
}

/// Decodes base64url `s[lo..hi]` strictly; `None` on any invalid input.
#[verifier::loop_isolation(false)]
#[verifier::rlimit(60)]
pub fn b64url_decode_range(s: &[u8], lo: usize, hi: usize) -> (r: Option<Vec<u8>>)
    requires
        lo <= hi <= s@.len(),
    ensures
        match r {
            Some(v) => b64_decode(s@.subrange(lo as int, hi as int)) == Some(v@),
            None => b64_decode(s@.subrange(lo as int, hi as int)) is None,
        },
{
    let ghost whole = s@.subrange(lo as int, hi as int);
    let mut out: Vec<u8> = Vec::new();
    let mut i: usize = lo;
    while hi - i >= 4
        invariant
            lo <= i <= hi,
            b64_decode(whole) == opt_prepend(out@, b64_decode(s@.subrange(i as int, hi as int))),
        decreases hi - i,
    {
        let ghost g = s@.subrange(i as int, hi as int);
        let r1 = b64_val_exec(s[i]);
        let r2 = b64_val_exec(s[i + 1]);
        let r3 = b64_val_exec(s[i + 2]);
        let r4 = b64_val_exec(s[i + 3]);
        proof {
            assert(g[0] == s@[i as int] && g[1] == s@[i + 1] && g[2] == s@[i + 2] && g[3] == s@[i
                + 3]);
            assert(g.skip(4) =~= s@.subrange(i + 4, hi as int));
        }
        match (r1, r2, r3, r4) {
            (Some(v1), Some(v2), Some(v3), Some(v4)) => {
                let ghost out0 = out@;
                out.push(v1 * 4 + v2 / 16);
                out.push((v2 % 16) * 16 + v3 / 4);
                out.push((v3 % 4) * 64 + v4);
                proof {
                    let vals = seq![
                        (v1 * 4 + v2 / 16) as u8,
                        ((v2 % 16) * 16 + v3 / 4) as u8,
                        ((v3 % 4) * 64 + v4) as u8,
                    ];
                    assert(out@ =~= out0 + vals);
                    match b64_decode(s@.subrange(i + 4, hi as int)) {
                        Some(rest) => {
                            assert(b64_decode(g) == Some(vals + rest));
                            assert(out0 + (vals + rest) =~= (out0 + vals) + rest);
                        },
                        None => {
                            assert(b64_decode(g) is None);
                        },
                    }
                }
                i = i + 4;
            },
            _ => {
                return None;
            },
        }
    }
    let ghost g = s@.subrange(i as int, hi as int);
    if hi - i == 0 {
        proof {
            assert(b64_decode(whole) =~~= Some(out@));
        }
        Some(out)
    } else if hi - i == 1 {
        None
    } else if hi - i == 2 {
        let r1 = b64_val_exec(s[i]);
        let r2 = b64_val_exec(s[i + 1]);
        proof {
            assert(g[0] == s@[i as int] && g[1] == s@[i + 1]);
        }
        match (r1, r2) {
            (Some(v1), Some(v2)) => {
                if v2 % 16 == 0 {
                    out.push(v1 * 4 + v2 / 16);
                    proof {
                        assert(b64_decode(whole) =~~= Some(out@));
                    }
                    Some(out)
                } else {
                    None
                }
            },
            _ => None,
        }
    } else {
        let r1 = b64_val_exec(s[i]);
        let r2 = b64_val_exec(s[i + 1]);
        let r3 = b64_val_exec(s[i + 2]);
        proof {
            assert(g[0] == s@[i as int] && g[1] == s@[i + 1] && g[2] == s@[i + 2]);
        }
        match (r1, r2, r3) {
            (Some(v1), Some(v2), Some(v3)) => {
                if v3 % 4 == 0 {
                    out.push(v1 * 4 + v2 / 16);
                    out.push((v2 % 16) * 16 + v3 / 4);
                    proof {
                        assert(b64_decode(whole) =~~= Some(out@));
                    }
                    Some(out)
                } else {
                    None
                }
            },
            _ => None,
        }
    }
}

} // verus!
