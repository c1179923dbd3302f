//! The verifier's configuration surface: the JWK endpoint, the expected
//! audience, and the acceptable issuers, which arrive as one
//! space-delimited string and are split here.  Reading the environment is
//! the application's job; this module only carries and parses the values.

use vstd::prelude::*;
use vstd::string::StrSliceExecFns;

verus! {

/// The values the key fetcher and verifier are configured with.
#[derive(Debug)]
pub struct JwkConfiguration {
    /// Where the identity provider serves its JWK set.
    pub jwk_url: String,
    /// The audience every token must name.
    pub audience: String,
    /// The acceptable issuers, space-delimited.
    pub issuer: String,
}

/// The space-delimited pieces of `s` from `i` on, as `str::split(' ')`
/// yields them: empty pieces are kept.
pub open spec fn spec_split_spaces(s: Seq<char>, i: int) -> Seq<Seq<char>>
    decreases s.len() - i,
    via spec_split_spaces_dec
{
    if !(0 <= i <= s.len()) {
        Seq::empty()
    } else {
        let j = spec_scan_to_space(s, i);
        if j == s.len() {
            seq![s.subrange(i, j)]
        } else {
            seq![s.subrange(i, j)] + spec_split_spaces(s, j + 1)
        }
    }
}

/// Index of the first space at or after `i`, or the length if none.
pub open spec fn spec_scan_to_space(s: Seq<char>, i: int) -> int
    decreases s.len() - i,
{
    if 0 <= i < s.len() && s[i] != ' ' {
        spec_scan_to_space(s, i + 1)
    } else {
        i
    }
}

proof fn lemma_scan_to_space(s: Seq<char>, i: int)
    requires
        0 <= i <= s.len(),
    ensures
        i <= spec_scan_to_space(s, i) <= s.len(),
        spec_scan_to_space(s, i) < s.len() ==> s[spec_scan_to_space(s, i)] == ' ',
        forall|k: int| i <= k < spec_scan_to_space(s, i) ==> s[k] != ' ',
    decreases s.len() - i,
{
    if i < s.len() && s[i] != ' ' {
        lemma_scan_to_space(s, i + 1);
    }
}

#[via_fn]
proof fn spec_split_spaces_dec(s: Seq<char>, i: int) {
    if 0 <= i <= s.len() {
        lemma_scan_to_space(s, i);
    }
}

/// Splits a space-delimited issuer list into its pieces, exactly as
/// `str::split(' ')` would, empty pieces included.
#[verifier::loop_isolation(false)]
pub fn split_issuers(s: &str) -> (r: Vec<String>)
    ensures
        r@.len() == spec_split_spaces(s@, 0).len(),
        forall|k: int|
            0 <= k < r@.len() ==> #[trigger] r@[k]@ == spec_split_spaces(s@, 0)[k],
{
    let n: usize = s.unicode_len();
    let mut out: Vec<String> = Vec::new();
    let mut start: usize = 0;
    loop
        invariant
            start <= n,
            n == s@.len(),
            spec_split_spaces(s@, 0) == spec_split_spaces_view(out@) + spec_split_spaces(
                s@,
                start as int,
            ),
        decreases n - start + 1,
    {
        let mut j: usize = start;
        while j < n && s.get_char(j) != ' '
            invariant
                start <= j <= n,
                spec_scan_to_space(s@, start as int) == spec_scan_to_space(s@, j as int),
            decreases n - j,
        {
            j = j + 1;
        }
        let piece: String = s.substring_char(start, j).to_owned();
        let ghost out0 = out@;
        out.push(piece);
        proof {
            assert(spec_split_spaces_view(out@) =~= spec_split_spaces_view(out0).push(
                s@.subrange(start as int, j as int),
            ));
        }
        if j == n {
            proof {
                assert(spec_split_spaces_view(out@) + Seq::<Seq<char>>::empty()
                    =~= spec_split_spaces_view(out@));
                assert(spec_split_spaces_view(out0) + (seq![s@.subrange(start as int, j as int)])
                    =~= spec_split_spaces_view(out@));
            }
            proof {
                assert forall|k: int|
                    0 <= k < out@.len() implies #[trigger] out@[k]@ == spec_split_spaces(s@, 0)[k]
                by {
                    assert(spec_split_spaces_view(out@)[k] == out@[k]@);
                }
            }
            return out;
        }
        proof {
            assert(spec_split_spaces_view(out0) + (seq![s@.subrange(start as int, j as int)]
                + spec_split_spaces(s@, j + 1)) =~= spec_split_spaces_view(out@)
                + spec_split_spaces(s@, j + 1));
        }
        start = j + 1;
    }
}

/// The views of split pieces.
pub open spec fn spec_split_spaces_view(v: Seq<String>) -> Seq<Seq<char>> {
    v.map_values(|p: String| p@)
}

} // verus!
