//! The search: ends first, then the start of each.

use vstd::prelude::*;
use crate::best::{least_ending, lemma_best_ends};
use crate::distance::lev;
use crate::ends::{find_match_ends_in, matches_of};
use crate::laws::{
    law_ends_increase, law_minimal, law_start_is_first, lemma_match_is_nearest, nearest_at,
};
use crate::leftmost::{lemma_search_is_nearest, nearest_matches};
use crate::pattern::{PatternBits, MAX_PATTERN_LEN};
use crate::scan::{scan_ends};
use crate::starts::{find_match_starts_in, with_starts};

verus! {

/// One occurrence of the pattern: `text[start..end]` with `errors` edits.
#[derive(Clone, Debug)]
pub struct Match {
    pub start: usize,
    pub end: usize,
    pub errors: usize,
}

/// What the scans of a search for `p` in `t` with at most `k` edits give:
/// the ends that the scan of the text collects, each with the start that
/// the scan backwards from it gives. It is `nearest_matches`, told by edit
/// distance alone.
pub open spec fn search_result(p: Seq<u16>, t: Seq<u16>, k: nat) -> Seq<Match> {
    with_starts(p, t, matches_of(scan_ends(p, t, k)))
}

/// Searches `text` for `pattern` with at most `max_errors` edits, which
/// count no further than the pattern's length. The matches are those of the
/// substrings nearest to the pattern, if they are within `max_errors` edits:
/// one for each end that such a substring has, by increasing end, all with
/// that least distance as their edits, each with the first start in reach of
/// the end at which a substring that near starts. No substring of the text
/// is nearer to the pattern than the edits of a match, and none that ends
/// where a match ends and starts earlier is as near.
pub fn search_impl(text: &[u16], pattern: &[u16], max_errors: u32) -> (matches: Vec<Match>)
    requires
        pattern.len() <= MAX_PATTERN_LEN,
    ensures
        matches@ == nearest_matches(pattern@, text@, max_errors as nat),
        matches@.len() > 0 <==> pattern@.len() > 0 && text@.len() > 0 && least_ending(
            pattern@,
            text@,
            text@.len() as int,
        ) <= max_errors,
        forall|i: int|
            0 <= i < matches@.len() ==> nearest_at(
                pattern@,
                text@,
                max_errors as nat,
                #[trigger] matches@[i],
            ),
        forall|i: int, i2: int|
            0 <= i < i2 < matches@.len() ==> (#[trigger] matches@[i]).end < (
            #[trigger] matches@[i2]).end,
        forall|i: int, s: int, e: int|
            0 <= i < matches@.len() && 0 <= s <= e <= text@.len() ==> (#[trigger] matches@[i]).errors
                <= lev(pattern@, #[trigger] text@.subrange(s, e)),
        forall|i: int, s: int|
            0 <= i < matches@.len() && 0 <= s < matches@[i].start ==> lev(
                pattern@,
                #[trigger] text@.subrange(s, matches@[i].end as int),
            ) > matches@[i].errors,
        matches@ == search_result(pattern@, text@, max_errors as nat),
{
    proof {
        let p = pattern@;
        let t = text@;
        let k = max_errors as nat;
        assert(t.len() == text.len());
        let found = search_result(p, t, k);
        lemma_search_is_nearest(p, t, k);
        lemma_best_ends(p, t, k);
        assert forall|i: int, i2: int| 0 <= i < i2 < found.len() implies (#[trigger] found[i]).end
            < (#[trigger] found[i2]).end by {
            law_ends_increase(p, t, k, i, i2);
        }
        assert forall|i: int| 0 <= i < found.len() implies nearest_at(
            p,
            t,
            k,
            #[trigger] found[i],
        ) by {
            lemma_match_is_nearest(p, t, k, i);
        }
        assert forall|i: int, s: int, e: int|
            0 <= i < found.len() && 0 <= s <= e <= t.len() implies (#[trigger] found[i]).errors
            <= lev(p, #[trigger] t.subrange(s, e)) by {
            law_minimal(p, t, k, i, s, e);
        }
        assert forall|i: int, s: int| 0 <= i < found.len() && 0 <= s < found[i].start implies lev(
            p,
            #[trigger] t.subrange(s, found[i].end as int),
        ) > found[i].errors by {
            law_start_is_first(p, t, k, i, s);
        }
    }
    let bits = PatternBits::new(pattern);
    let ends = find_match_ends_in(text, &bits, max_errors as usize);
    let reversed_bits = bits.reverse();
    proof {
        assert(pattern@.reverse().reverse() =~= pattern@);
    }
    find_match_starts_in(text, &reversed_bits, ends)
}

} // verus!
