//! Where the matches start: the scan backwards from an end, told in terms
//! of distances of substrings that start at a given place.

use vstd::prelude::*;
use crate::best::{
    best_ends, ends_at, least_ending, lemma_ending_distance_range, lemma_ends_at,
    lemma_least_ending, lemma_least_is_global,
};
use crate::distance::{
    ending_distance, least_from, lemma_least_from, lemma_lev_bounds, lemma_lev_crossing,
    lemma_lev_reverse, lev,
};
use crate::ends::matches_of;
use crate::frontier::lemma_scan_is_best;
use crate::scan::{scan_ends, EndPoint};
use crate::search::{search_result, Match};
use crate::starts::{farthest_end, start_of, window_start, with_starts};

verus! {

/// The least distance of `p` to a substring of `t` that starts at `a` and
/// ends at `b` or before.
pub open spec fn least_to(p: Seq<u16>, t: Seq<u16>, a: int, b: int) -> int
    decreases b - a,
{
    if b <= a {
        lev(p, t.subrange(a, a))
    } else if lev(p, t.subrange(a, b)) <= least_to(p, t, a, b - 1) {
        lev(p, t.subrange(a, b))
    } else {
        least_to(p, t, a, b - 1)
    }
}

/// The least distance of `p` to a substring of `t` that starts at `a` and
/// ends at `e` or before.
pub open spec fn starting_distance(p: Seq<u16>, t: Seq<u16>, a: int, e: int) -> int {
    least_to(p, t, a, e)
}

/// The first place from `a` on and before `e` where a substring at distance
/// `d` from `p`, and none nearer, starts that ends at `e` or before; `e`
/// where there is none.
pub open spec fn first_start(p: Seq<u16>, t: Seq<u16>, e: int, d: int, a: int) -> int
    decreases e - a,
{
    if a >= e {
        e
    } else if starting_distance(p, t, a, e) == d {
        a
    } else {
        first_start(p, t, e, d, a + 1)
    }
}

/// The start that a search gives the match that ends at `e` with `d` edits.
pub open spec fn match_start(p: Seq<u16>, t: Seq<u16>, e: int, d: int) -> int {
    first_start(p, t, e, d, window_start(p.len(), e as nat, d as nat) as int)
}

/// The least distance of `p` to a substring of `t` that starts at `a` or
/// after it, before `e`, and ends at `e` or before.
pub open spec fn least_within(p: Seq<u16>, t: Seq<u16>, e: int, a: int) -> int
    decreases e - a,
{
    if a >= e - 1 {
        starting_distance(p, t, e - 1, e)
    } else if starting_distance(p, t, a, e) <= least_within(p, t, e, a + 1) {
        starting_distance(p, t, a, e)
    } else {
        least_within(p, t, e, a + 1)
    }
}

/// The start that the backward scan gives an end `e` with `d` edits: among
/// the substrings that start in the window before `e` and end at `e` or
/// before, the first start of one nearest to `p`, if that is within `d`
/// edits; `e` itself otherwise.
pub open spec fn resolved_start(p: Seq<u16>, t: Seq<u16>, e: int, d: int) -> int {
    let from = window_start(p.len(), e as nat, d as nat) as int;
    if p.len() == 0 || e <= from {
        e
    } else if least_within(p, t, e, from) <= d {
        first_start(p, t, e, least_within(p, t, e, from), from)
    } else {
        e
    }
}

/// The matches with the starts that `resolved_start` gives.
pub open spec fn with_resolved_starts(p: Seq<u16>, t: Seq<u16>, matches: Seq<Match>) -> Seq<
    Match,
> {
    Seq::new(
        matches.len(),
        |i: int|
            Match {
                start: resolved_start(p, t, matches[i].end as int, matches[i].errors as int)
                    as usize,
                end: matches[i].end,
                errors: matches[i].errors,
            },
    )
}

/// The matches of the substrings of `t` nearest to `p`, if they are within
/// `k` edits: one for each end that such a substring has, by increasing
/// end, each with the start that `match_start` gives.
pub open spec fn nearest_matches(p: Seq<u16>, t: Seq<u16>, k: nat) -> Seq<Match> {
    let ends = best_ends(p, t, k);
    Seq::new(
        ends.len(),
        |i: int|
            Match {
                start: match_start(p, t, ends[i].end as int, ends[i].score) as usize,
                end: ends[i].end as usize,
                errors: ends[i].score as usize,
            },
    )
}

/// `least_to` is a least value: below every distance in its range, and
/// equal to one of them; the lemma returns the end of such a substring.
pub proof fn lemma_least_to(p: Seq<u16>, t: Seq<u16>, a: int, e: int) -> (b: int)
    requires
        a <= e,
    ensures
        a <= b <= e,
        lev(p, t.subrange(a, b)) == least_to(p, t, a, e),
        forall|b2: int| a <= b2 <= e ==> least_to(p, t, a, e) <= lev(p, #[trigger] t.subrange(a, b2)),
    decreases e - a,
{
    if e == a {
        a
    } else {
        let b = lemma_least_to(p, t, a, e - 1);
        if lev(p, t.subrange(a, e)) <= least_to(p, t, a, e - 1) {
            e
        } else {
            b
        }
    }
}

/// A piece of the reversed text before `e` is the reverse of a piece of the text.
pub proof fn lemma_window_reverse(t: Seq<u16>, from: int, e: int, s: int, f: int)
    requires
        0 <= from <= e <= t.len(),
        0 <= s <= f <= e - from,
    ensures
        t.subrange(from, e).reverse().subrange(s, f) == t.subrange(e - f, e - s).reverse(),
{
    assert(t.subrange(from, e).reverse().subrange(s, f) =~= t.subrange(e - f, e - s).reverse());
}

/// Scanning backwards from `e`, the least distance at `f` symbols back is
/// that of the substrings that start there.
pub proof fn lemma_back_distance(p: Seq<u16>, t: Seq<u16>, from: int, e: int, f: int)
    requires
        0 <= from <= e <= t.len(),
        0 <= f <= e - from,
    ensures
        ending_distance(p.reverse(), t.subrange(from, e).reverse(), f) == starting_distance(
            p,
            t,
            e - f,
            e,
        ),
{
    let pr = p.reverse();
    let wr = t.subrange(from, e).reverse();
    let a = e - f;
    let s = lemma_least_from(pr, wr, f, f);
    let b = lemma_least_to(p, t, a, e);
    // The nearest piece of the reversed text is a substring that starts at `a`.
    lemma_window_reverse(t, from, e, s, f);
    lemma_lev_reverse(p, t.subrange(a, e - s));
    assert(least_to(p, t, a, e) <= lev(p, t.subrange(a, e - s)));
    // The nearest substring that starts at `a` is a piece of the reversed text.
    lemma_window_reverse(t, from, e, e - b, f);
    lemma_lev_reverse(p, t.subrange(a, b));
    assert(least_from(pr, wr, f, f) <= lev(pr, wr.subrange(e - b, f)));
}

/// The farthest end that the backward scan reports at distance `d` within
/// `n` symbols is where the first such substring starts.
pub proof fn lemma_farthest_is_first(
    p: Seq<u16>,
    t: Seq<u16>,
    from: int,
    e: int,
    d: int,
    n: int,
)
    requires
        0 <= from <= e <= t.len(),
        0 <= n <= e - from,
    ensures
        farthest_end(ends_at(p.reverse(), t.subrange(from, e).reverse(), d, n)) == e - first_start(
            p,
            t,
            e,
            d,
            e - n,
        ),
        e - n <= first_start(p, t, e, d, e - n) <= e,
    decreases n,
{
    let pr = p.reverse();
    let wr = t.subrange(from, e).reverse();
    if n > 0 {
        lemma_farthest_is_first(p, t, from, e, d, n - 1);
        lemma_back_distance(p, t, from, e, n);
        let rest = ends_at(pr, wr, d, n - 1);
        if ending_distance(pr, wr, n) == d {
            let all = rest.push(EndPoint { end: n as nat, score: d });
            assert(all.drop_last() =~= rest);
        }
    }
}

/// Some substring of `t` that ends at `e` is at distance `d` from `p`, and
/// none that ends at `e` or before is nearer.
pub open spec fn nearest_by(p: Seq<u16>, t: Seq<u16>, e: int, d: int) -> bool {
    &&& d == ending_distance(p, t, e)
    &&& forall|a: int, b: int| 0 <= a <= b <= e ==> d <= lev(p, #[trigger] t.subrange(a, b))
}

/// What holds of the start `s` given to an end `e` with `d` edits that is
/// `nearest_by`: a substring at distance `d` starts at `s` and ends at `e` or
/// before, and every substring that ends at `e` and starts before `s` is
/// farther from the pattern.
pub open spec fn first_nearest_start(p: Seq<u16>, t: Seq<u16>, e: int, d: int, s: int) -> bool {
    &&& 0 <= s < e
    &&& s == match_start(p, t, e, d)
    &&& starting_distance(p, t, s, e) == d
    &&& forall|s2: int| 0 <= s2 < s ==> lev(p, #[trigger] t.subrange(s2, e)) > d
}

/// An end at the least distance of all substrings of the text is `nearest_by`.
pub proof fn lemma_least_is_nearest_by(p: Seq<u16>, t: Seq<u16>, e: int)
    requires
        p.len() >= 1,
        1 <= e <= t.len(),
        ending_distance(p, t, e) == least_ending(p, t, t.len() as int),
    ensures
        nearest_by(p, t, e, ending_distance(p, t, e)),
{
    let w = lemma_least_is_global(p, t);
    let d = ending_distance(p, t, e);
    assert forall|a: int, b: int| 0 <= a <= b <= e implies d <= lev(
        p,
        #[trigger] t.subrange(a, b),
    ) by {
        assert(least_ending(p, t, t.len() as int) <= lev(p, t.subrange(a, b)));
    }
}

/// A substring nearest to the pattern is found again by the scan backwards
/// from its end: within the window before the end, the least distance is
/// the same.
pub proof fn lemma_window_least(p: Seq<u16>, t: Seq<u16>, e: int, d: int)
    requires
        p.len() >= 1,
        1 <= e <= t.len(),
        nearest_by(p, t, e, d),
    ensures
        ({
            let from = window_start(p.len(), e as nat, d as nat) as int;
            &&& 0 <= from < e
            &&& least_ending(p.reverse(), t.subrange(from, e).reverse(), e - from) == d
        }),
{
    let m = p.len() as int;
    lemma_ending_distance_range(p, t, e);
    let from = window_start(p.len(), e as nat, d as nat) as int;
    let pr = p.reverse();
    let wr = t.subrange(from, e).reverse();
    let n = e - from;
    let f = lemma_least_ending(pr, wr, n);
    // Nothing in the window is nearer.
    assert(ending_distance(pr, wr, f) >= d) by {
        lemma_back_distance(p, t, from, e, f);
        let a = e - f;
        let b = lemma_least_to(p, t, a, e);
        assert(d <= lev(p, t.subrange(a, b)));
    }
    // The nearest substring that ends at `e` lies in the window.
    let s0 = lemma_least_from(p, t, e, e);
    lemma_lev_bounds(p, t.subrange(s0, e));
    assert(from <= s0);
    if s0 < e {
        lemma_back_distance(p, t, from, e, e - s0);
        let b = lemma_least_to(p, t, s0, e);
        assert(least_to(p, t, s0, e) <= lev(p, t.subrange(s0, e)));
        assert(least_ending(pr, wr, n) <= ending_distance(pr, wr, e - s0));
    } else {
        assert(pr.len() == p.len());
        lemma_ending_distance_range(pr, wr, 1);
        assert(least_ending(pr, wr, n) <= ending_distance(pr, wr, 1));
    }
}

/// The start that the backward scan gives an end that is `nearest_by` is
/// the first place in the window where a substring that near starts, and no
/// substring that ends at the end and starts earlier is that near.
pub proof fn lemma_start_is_first(p: Seq<u16>, t: Seq<u16>, e: int, d: int)
    requires
        p.len() >= 1,
        1 <= e <= t.len(),
        nearest_by(p, t, e, d),
    ensures
        start_of(p, t, e as nat, d as nat) == match_start(p, t, e, d),
        resolved_start(p, t, e, d) == match_start(p, t, e, d),
        first_nearest_start(p, t, e, d, match_start(p, t, e, d)),
{

    lemma_ending_distance_range(p, t, e);
    let from = window_start(p.len(), e as nat, d as nat) as int;
    let pr = p.reverse();
    let wr = t.subrange(from, e).reverse();
    let n = e - from;
    lemma_window_least(p, t, e, d);
    assert(pr.len() == p.len());
    assert(wr.len() == n);
    lemma_scan_is_best(pr, wr, d as nat);
    assert(scan_ends(pr, wr, d as nat) == ends_at(pr, wr, d, n));
    lemma_farthest_is_first(p, t, from, e, d, n);
    // Some end is reported, so the start lies before `e`.
    let f = lemma_least_ending(pr, wr, n);
    lemma_ends_at(pr, wr, d, n);
    let i = choose|i: int|
        0 <= i < ends_at(pr, wr, d, n).len() && (#[trigger] ends_at(pr, wr, d, n)[i]).end == f;
    lemma_farthest_at_least(ends_at(pr, wr, d, n), i);
    lemma_first_start(p, t, e, d, from);
    lemma_start_is_resolved(p, t, e, d);
    assert forall|s2: int| 0 <= s2 < match_start(p, t, e, d) implies lev(
        p,
        #[trigger] t.subrange(s2, e),
    ) > d by {
        lemma_lev_bounds(p, t.subrange(s2, e));
        assert(t.subrange(s2, e).len() == e - s2);
        assert(d <= lev(p, t.subrange(s2, e)));
        if from <= s2 {
            let b = lemma_least_to(p, t, s2, e);
            assert(least_to(p, t, s2, e) <= lev(p, t.subrange(s2, e)));
            assert(d <= lev(p, t.subrange(s2, b)));
            assert(starting_distance(p, t, s2, e) != d);
        }
    }
}

/// The farthest end is at least each of the ends.
pub proof fn lemma_farthest_at_least(ends: Seq<EndPoint>, i: int)
    requires
        0 <= i < ends.len(),
    ensures
        farthest_end(ends) >= ends[i].end,
    decreases ends.len(),
{
    if i < ends.len() - 1 {
        lemma_farthest_at_least(ends.drop_last(), i);
    }
}

/// What `first_start` finds: a place between `a` and `e` before which, from
/// `a` on, no substring at distance `d` starts, and where one starts unless
/// the place is `e`.
pub proof fn lemma_first_start(p: Seq<u16>, t: Seq<u16>, e: int, d: int, a: int)
    requires
        a <= e,
    ensures
        a <= first_start(p, t, e, d, a) <= e,
        first_start(p, t, e, d, a) < e ==> starting_distance(
            p,
            t,
            first_start(p, t, e, d, a),
            e,
        ) == d,
        forall|a2: int|
            a <= a2 < first_start(p, t, e, d, a) ==> #[trigger] starting_distance(p, t, a2, e)
                != d,
    decreases e - a,
{
    if a < e && starting_distance(p, t, a, e) != d {
        lemma_first_start(p, t, e, d, a + 1);
    }
}

/// A search returns the matches of the substrings nearest to the pattern.
pub proof fn lemma_search_is_nearest(p: Seq<u16>, t: Seq<u16>, k: nat)
    requires
        p.len() <= usize::MAX,
        t.len() <= usize::MAX,
    ensures
        search_result(p, t, k) == nearest_matches(p, t, k),
{
    lemma_scan_is_best(p, t, k);
    let ends = best_ends(p, t, k);
    let found = search_result(p, t, k);
    let near = nearest_matches(p, t, k);
    assert(found.len() == near.len());
    assert forall|i: int| 0 <= i < ends.len() implies found[i] == near[i] by {
        let d = least_ending(p, t, t.len() as int);
        lemma_ends_at(p, t, d, t.len() as int);
        let e = ends[i].end as int;
        assert(ends[i].score == d);
        lemma_ending_distance_range(p, t, e);
        lemma_least_is_nearest_by(p, t, e);
        lemma_start_is_first(p, t, e, d);
        assert(matches_of(ends)[i].end == e);
        assert(matches_of(ends)[i].errors == d);
    }
    assert(found =~= near);
}

/// Scanning backwards from `e`, the least distance within `n` symbols is
/// that of the substrings that start there.
pub proof fn lemma_back_least(p: Seq<u16>, t: Seq<u16>, from: int, e: int, n: int)
    requires
        0 <= from <= e <= t.len(),
        1 <= n <= e - from,
    ensures
        least_ending(p.reverse(), t.subrange(from, e).reverse(), n) == least_within(
            p,
            t,
            e,
            e - n,
        ),
    decreases n,
{
    lemma_back_distance(p, t, from, e, n);
    if n > 1 {
        lemma_back_least(p, t, from, e, n - 1);
    } else {
        lemma_back_distance(p, t, from, e, 1);
    }
}

/// The start that the backward scan gives is `resolved_start`.
pub proof fn lemma_start_is_resolved(p: Seq<u16>, t: Seq<u16>, e: int, d: int)
    requires
        0 <= e <= t.len(),
        0 <= d,
    ensures
        start_of(p, t, e as nat, d as nat) == resolved_start(p, t, e, d),
{
    let from = window_start(p.len(), e as nat, d as nat) as int;
    let pr = p.reverse();
    let wr = t.subrange(from, e).reverse();
    let n = e - from;
    assert(pr.len() == p.len());
    assert(wr.len() == n);
    lemma_scan_is_best(pr, wr, d as nat);
    if p.len() > 0 && n > 0 {
        lemma_back_least(p, t, from, e, n);
        lemma_farthest_is_first(p, t, from, e, least_within(p, t, e, from), n);
    }
}

/// The start `s` lies before the end `e`, and every substring that ends at
/// `e` and starts before `s` is farther than `d` from the pattern.
pub open spec fn no_earlier_start(p: Seq<u16>, t: Seq<u16>, e: int, d: int, s: int) -> bool {
    &&& 0 <= s < e
    &&& forall|s2: int| 0 <= s2 < s ==> lev(p, #[trigger] t.subrange(s2, e)) > d
}

/// `least_within` is a least value: below the distance of every start in
/// its range, and that of one of them, which the lemma returns.
pub proof fn lemma_least_within(p: Seq<u16>, t: Seq<u16>, e: int, a: int) -> (w: int)
    requires
        a < e,
    ensures
        a <= w < e,
        starting_distance(p, t, w, e) == least_within(p, t, e, a),
        forall|a2: int|
            a <= a2 < e ==> least_within(p, t, e, a) <= #[trigger] starting_distance(p, t, a2, e),
    decreases e - a,
{
    if a >= e - 1 {
        a
    } else {
        let w = lemma_least_within(p, t, e, a + 1);
        if starting_distance(p, t, a, e) <= least_within(p, t, e, a + 1) {
            a
        } else {
            w
        }
    }
}

/// The start given to an end whose edits are the least distance of the
/// substrings that end there lies before the end, and no substring that
/// ends there and starts earlier is as near: were one, it would cross the
/// nearest substring from the start given, and the two would swap ends.
pub proof fn lemma_no_earlier_start(p: Seq<u16>, t: Seq<u16>, e: int, d: int)
    requires
        p.len() >= 1,
        1 <= e <= t.len(),
        d == ending_distance(p, t, e),
    ensures
        no_earlier_start(p, t, e, d, resolved_start(p, t, e, d)),
{
    lemma_ending_distance_range(p, t, e);
    let from = window_start(p.len(), e as nat, d as nat) as int;
    let s0 = lemma_least_from(p, t, e, e);
    lemma_lev_bounds(p, t.subrange(s0, e));
    assert(from <= s0);
    let least = least_within(p, t, e, from);
    let w = lemma_least_within(p, t, e, from);
    assert(least <= d) by {
        if s0 < e {
            let b = lemma_least_to(p, t, s0, e);
            assert(least_to(p, t, s0, e) <= lev(p, t.subrange(s0, e)));
            assert(least <= starting_distance(p, t, s0, e));
        } else {
            let b = lemma_least_to(p, t, e - 1, e);
            assert(least_to(p, t, e - 1, e) <= lev(p, t.subrange(e - 1, e - 1)));
            assert(t.subrange(e - 1, e - 1).len() == 0);
            assert(t.subrange(e, e).len() == 0);
            assert(lev(p, t.subrange(e - 1, e - 1)) == p.len());
            assert(lev(p, t.subrange(e, e)) == p.len());
            assert(least <= starting_distance(p, t, e - 1, e));
        }
    }
    let s = first_start(p, t, e, least, from);
    lemma_first_start(p, t, e, least, from);
    assert(s <= w);
    assert(s == resolved_start(p, t, e, d));
    let b = lemma_least_to(p, t, s, e);
    assert forall|s2: int| 0 <= s2 < s implies lev(p, #[trigger] t.subrange(s2, e)) > d by {
        assert(least_from(p, t, e, e) <= lev(p, t.subrange(s2, e)));
        if lev(p, t.subrange(s2, e)) == d {
            lemma_lev_bounds(p, t.subrange(s2, e));
            assert(t.subrange(s2, e).len() == e - s2);
            assert(from <= s2);
            lemma_lev_crossing(p, t, s2, s, b, e);
            assert(least_from(p, t, e, e) <= lev(p, t.subrange(s, e)));
            let b2 = lemma_least_to(p, t, s2, e);
            assert(least_to(p, t, s2, e) <= lev(p, t.subrange(s2, b)));
            assert(least <= starting_distance(p, t, s2, e));
            assert(starting_distance(p, t, s2, e) != least);
        }
    }
}

/// What holds of matches whose starts are filled in: end and edits are
/// kept and the start is not past the end; where the edits of a match are
/// the least distance of the substrings that end at its end, no substring
/// that ends there and starts before its start is as near; and where the
/// match is `nearest_by` its end, its start is the `first_nearest_start`.
pub open spec fn starts_hold(
    p: Seq<u16>,
    t: Seq<u16>,
    matches: Seq<Match>,
    resolved: Seq<Match>,
) -> bool {
    &&& resolved.len() == matches.len()
    &&& forall|i: int|
        0 <= i < matches.len() ==> {
            let r = #[trigger] resolved[i];
            &&& r.end == matches[i].end
            &&& r.errors == matches[i].errors
            &&& r.start <= r.end
            &&& p.len() >= 1 && r.end >= 1 && r.errors == ending_distance(p, t, r.end as int)
                ==> no_earlier_start(p, t, r.end as int, r.errors as int, r.start as int)
            &&& p.len() >= 1 && r.end >= 1 && nearest_by(p, t, r.end as int, r.errors as int)
                ==> first_nearest_start(p, t, r.end as int, r.errors as int, r.start as int)
        }
}

/// The matches with the starts that the backward scan gives are as
/// `starts_hold` says, and their starts are those of `resolved_start`.
pub proof fn lemma_starts_hold(p: Seq<u16>, t: Seq<u16>, matches: Seq<Match>)
    requires
        t.len() <= usize::MAX,
        forall|i: int| 0 <= i < matches.len() ==> (#[trigger] matches[i]).end <= t.len(),
    ensures
        with_starts(p, t, matches) == with_resolved_starts(p, t, matches),
        starts_hold(p, t, matches, with_resolved_starts(p, t, matches)),
{
    let resolved = with_resolved_starts(p, t, matches);
    assert forall|i: int| 0 <= i < matches.len() implies with_starts(p, t, matches)[i]
        == resolved[i] by {
        lemma_start_is_resolved(p, t, matches[i].end as int, matches[i].errors as int);
    }
    assert(with_starts(p, t, matches) =~= resolved);
    assert forall|i: int| 0 <= i < matches.len() implies {
        let r = #[trigger] resolved[i];
        &&& r.end == matches[i].end
        &&& r.errors == matches[i].errors
        &&& r.start <= r.end
        &&& p.len() >= 1 && r.end >= 1 && r.errors == ending_distance(p, t, r.end as int)
            ==> no_earlier_start(p, t, r.end as int, r.errors as int, r.start as int)
        &&& p.len() >= 1 && r.end >= 1 && nearest_by(p, t, r.end as int, r.errors as int)
            ==> first_nearest_start(p, t, r.end as int, r.errors as int, r.start as int)
    } by {
        let e = matches[i].end as int;
        let d = matches[i].errors as int;
        let from = window_start(p.len(), e as nat, d as nat) as int;
        lemma_first_start(p, t, e, least_within(p, t, e, from), from);
        if p.len() >= 1 && e >= 1 && d == ending_distance(p, t, e) {
            lemma_no_earlier_start(p, t, e, d);
        }
        if p.len() >= 1 && e >= 1 && nearest_by(p, t, e, d) {
            lemma_start_is_first(p, t, e, d);
        }
    }
}

} // verus!
