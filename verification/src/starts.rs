//! Finding where a match starts, by scanning backwards from its end.

use vstd::prelude::*;
use vstd::slice::slice_subrange;
use crate::ends::{find_match_ends_in, matches_of};
use crate::leftmost::{lemma_starts_hold, starts_hold, with_resolved_starts};
use crate::pattern::{PatternBits, MAX_PATTERN_LEN};
use crate::scan::{scan_ends, EndPoint};
use crate::search::Match;
use crate::shape::lemma_scan_shape;

verus! {

/// The symbols of `chars` in reverse order.
pub fn reverse(chars: &[u16]) -> (reversed: Vec<u16>)
    ensures
        reversed@ == chars@.reverse(),
{
    let n = chars.len();
    let mut reversed: Vec<u16> = Vec::with_capacity(n);
    let mut i: usize = 0;
    while i < n
        invariant
            n == chars@.len(),
            i <= n,
            reversed@.len() == i,
            forall|k: int| 0 <= k < i ==> reversed@[k] == chars@[n - 1 - k],
        decreases n - i,
    {
        reversed.push(chars[n - 1 - i]);
        i += 1;
    }
    assert(reversed@ =~= chars@.reverse());
    reversed
}

/// The first text position that a match ending at `end` with `errors` edits
/// can start at.
pub open spec fn window_start(m: nat, end: nat, errors: nat) -> nat {
    if end >= m + errors {
        (end - m - errors) as nat
    } else {
        0
    }
}

/// The greatest end among `ends`, 0 for none.
pub open spec fn farthest_end(ends: Seq<EndPoint>) -> nat
    decreases ends.len(),
{
    if ends.len() == 0 {
        0
    } else {
        let rest = farthest_end(ends.drop_last());
        if ends.last().end > rest {
            ends.last().end
        } else {
            rest
        }
    }
}

/// The start given to a match of `p` in `t` that ends at `end` with
/// `errors` edits: the reversed pattern is scanned over the reversed text
/// before `end`, as far back as such a match can reach, and the farthest end
/// found there is the start; `end` itself where that scan finds nothing.
pub open spec fn start_of(p: Seq<u16>, t: Seq<u16>, end: nat, errors: nat) -> nat {
    let from = window_start(p.len(), end, errors);
    let back = scan_ends(p.reverse(), t.subrange(from as int, end as int).reverse(), errors);
    (end - farthest_end(back)) as nat
}

/// The matches with their starts filled in.
pub open spec fn with_starts(p: Seq<u16>, t: Seq<u16>, matches: Seq<Match>) -> Seq<Match> {
    Seq::new(
        matches.len(),
        |i: int|
            Match {
                start: start_of(p, t, matches[i].end as nat, matches[i].errors as nat) as usize,
                end: matches[i].end,
                errors: matches[i].errors,
            },
    )
}

/// The ends that a scan reports lie within the text, so the farthest does.
pub proof fn lemma_farthest_end_bound(ends: Seq<EndPoint>, n: nat)
    requires
        forall|i: int| 0 <= i < ends.len() ==> (#[trigger] ends[i]).end <= n,
    ensures
        farthest_end(ends) <= n,
    decreases ends.len(),
{
    if ends.len() > 0 {
        lemma_farthest_end_bound(ends.drop_last(), n);
    }
}

/// Fills in the start of each match, given the table of the reversed
/// pattern, by scanning the text before the end of the match backwards. The
/// start is the first place in reach of the end at which a substring starts
/// that is nearest to the pattern among those that end by then, if it is
/// within the edits of the match, and the end itself otherwise. Where the
/// edits of the match are the least distance of the substrings that end at
/// its end, none that ends there and starts earlier is as near; where no
/// substring that ends by then is nearer at all, a substring with the edits
/// of the match starts at the start. This is the start that the backward
/// scan of `start_of` gives.
pub fn find_match_starts_in(
    text: &[u16],
    reversed_bits: &PatternBits,
    matches: Vec<Match>,
) -> (resolved: Vec<Match>)
    requires
        reversed_bits.wf(),
        forall|i: int| 0 <= i < matches@.len() ==> (#[trigger] matches@[i]).end <= text@.len(),
    ensures
        resolved@ == with_resolved_starts(
            reversed_bits.pattern().reverse(),
            text@,
            matches@,
        ),
        starts_hold(reversed_bits.pattern().reverse(), text@, matches@, resolved@),
        resolved@ == with_starts(reversed_bits.pattern().reverse(), text@, matches@),
{
    let len = reversed_bits.pattern_len();
    let ghost p = reversed_bits.pattern().reverse();
    proof {
        assert(p.len() == reversed_bits.pattern().len());
        assert(text@.len() == text.len());
        lemma_starts_hold(p, text@, matches@);
    }
    let mut resolved: Vec<Match> = Vec::with_capacity(matches.len());
    let mut i: usize = 0;
    proof {
        assert(p.reverse() =~= reversed_bits.pattern());
        assert(p.len() == len);
    }
    while i < matches.len()
        invariant
            reversed_bits.wf(),
            p.reverse() == reversed_bits.pattern(),
            p.len() == len,
            i <= matches@.len(),
            forall|i: int| 0 <= i < matches@.len() ==> (#[trigger] matches@[i]).end <= text@.len(),
            resolved@.len() == i,
            forall|k: int| 0 <= k < i ==> resolved@[k] == with_starts(p, text@, matches@)[k],
        decreases matches@.len() - i,
    {
        let end = matches[i].end;
        let errors = matches[i].errors;
        let from = end.saturating_sub(len).saturating_sub(errors);
        let window = reverse(slice_subrange(text, from, end));
        let back = find_match_ends_in(&window, reversed_bits, errors);
        let ghost ends = scan_ends(p.reverse(), window@, errors as nat);
        proof {
            assert(from == window_start(p.len(), end as nat, errors as nat));
            if p.len() > 0 {
                lemma_scan_shape(p.reverse(), window@, errors as nat, window@.len());
            }
        }
        let mut start = end;
        let mut n: usize = 0;
        while n < back.len()
            invariant
                n <= back@.len(),
                back@ == matches_of(ends),
                forall|i: int| 0 <= i < ends.len() ==> (#[trigger] ends[i]).end <= end,
                start == end - farthest_end(ends.take(n as int)),
                farthest_end(ends.take(n as int)) <= end,
            decreases back@.len() - n,
        {
            proof {
                assert(ends.take(n + 1).drop_last() =~= ends.take(n as int));
                assert(ends.take(n + 1).last() == ends[n as int]);
            }
            if end - back[n].end < start {
                start = end - back[n].end;
            }
            n += 1;
        }
        proof {
            assert(ends.take(n as int) =~= ends);
        }
        resolved.push(Match { start, end, errors });
        i += 1;
    }
    assert(resolved@ =~= with_starts(p, text@, matches@));
    resolved
}

/// Fills in the start of each match of `pattern` in `text`, by scanning
/// the text before the end of the match backwards. The start is the first
/// place in reach of the end at which a substring starts that is nearest to
/// the pattern among those that end by then, if it is within the edits of
/// the match, and the end itself otherwise. Where the edits of the match
/// are the least distance of the substrings that end at its end, none that
/// ends there and starts earlier is as near; where no substring that ends
/// by then is nearer at all, a substring with the edits of the match starts
/// at the start. This is the start that the backward scan of `start_of`
/// gives.
pub fn find_match_starts(text: &[u16], pattern: &[u16], matches: Vec<Match>) -> (resolved: Vec<
    Match,
>)
    requires
        pattern.len() <= MAX_PATTERN_LEN,
        forall|i: int| 0 <= i < matches@.len() ==> (#[trigger] matches@[i]).end <= text@.len(),
    ensures
        resolved@ == with_resolved_starts(pattern@, text@, matches@),
        starts_hold(pattern@, text@, matches@, resolved@),
        resolved@ == with_starts(pattern@, text@, matches@),
{
    let reversed_bits = PatternBits::new(pattern).reverse();
    proof {
        assert(pattern@.reverse().reverse() =~= pattern@);
    }
    find_match_starts_in(text, &reversed_bits, matches)
}

} // verus!
