//! What holds of every search.

use vstd::prelude::*;
use crate::best::{
    best_ends, ends_at, least_ending, lemma_ending_distance_range, lemma_ends_at,
    lemma_least_ending, lemma_least_is_global,
};
use crate::distance::{
    ending_distance, least_from, lemma_least_from, lemma_lev_bounds, lemma_lev_reverse,
    lemma_lev_same, lemma_lev_zero, lev,
};
use crate::ends::matches_of;
use crate::leftmost::{
    first_nearest_start, nearest_by, lemma_first_start, lemma_least_is_nearest_by, lemma_least_to, lemma_search_is_nearest,
    lemma_start_is_first, least_to, match_start, nearest_matches, starting_distance,
};
use crate::scan::{clamp_errors, scan, scan_ends, EndPoint};
use crate::search::{search_result, Match};
use crate::shape::lemma_scan_shape;
use crate::starts::{lemma_farthest_end_bound, window_start};

verus! {

/// What holds of each match of a search: its place in the text, and its
/// edits as the least distance of the substrings that end where it ends, of
/// those that start where it starts and end no later, and of all, within
/// the budget and the pattern's length.
pub open spec fn nearest_at(p: Seq<u16>, t: Seq<u16>, k: nat, r: Match) -> bool {
    &&& 0 <= r.start < r.end <= t.len()
    &&& r.errors <= k
    &&& r.errors <= p.len()
    &&& r.errors == least_ending(p, t, t.len() as int)
    &&& r.errors == ending_distance(p, t, r.end as int)
    &&& r.errors == starting_distance(p, t, r.start as int, r.end as int)
    &&& r.start == match_start(p, t, r.end as int, r.errors as int)
}

/// Each match of a search is `nearest_at` its place.
pub proof fn lemma_match_is_nearest(p: Seq<u16>, t: Seq<u16>, k: nat, i: int)
    requires
        p.len() <= usize::MAX,
        t.len() <= usize::MAX,
        0 <= i < search_result(p, t, k).len(),
    ensures
        nearest_at(p, t, k, search_result(p, t, k)[i]),
{
    lemma_search_is_nearest(p, t, k);
    let ends = best_ends(p, t, k);
    let d = least_ending(p, t, t.len() as int);
    lemma_ends_at(p, t, d, t.len() as int);
    let e = ends[i].end as int;
    lemma_ending_distance_range(p, t, e);
    lemma_least_is_nearest_by(p, t, e);
    lemma_start_is_first(p, t, e, d);
}

/// A match lies in the text.
pub proof fn law_in_text(p: Seq<u16>, t: Seq<u16>, k: nat, i: int)
    requires
        t.len() <= usize::MAX,
        0 <= i < search_result(p, t, k).len(),
    ensures
        0 <= search_result(p, t, k)[i].start <= search_result(p, t, k)[i].end <= t.len(),
{
    let ends = scan_ends(p, t, k);
    if p.len() > 0 {
        lemma_scan_shape(p, t, k, t.len());
    }
    let e = ends[i].end;
    let found = matches_of(ends)[i];
    assert(found.end == e);
    let d = found.errors as nat;
    let from = window_start(p.len(), e, d);
    let window = t.subrange(from as int, e as int).reverse();
    let back = scan_ends(p.reverse(), window, d);
    if p.reverse().len() > 0 {
        lemma_scan_shape(p.reverse(), window, d, window.len());
    }
    lemma_farthest_end_bound(back, window.len());
}

/// The matches come by increasing end.
pub proof fn law_ends_increase(p: Seq<u16>, t: Seq<u16>, k: nat, i: int, i2: int)
    requires
        t.len() <= usize::MAX,
        0 <= i < i2 < search_result(p, t, k).len(),
    ensures
        search_result(p, t, k)[i].end < search_result(p, t, k)[i2].end,
{
    if p.len() > 0 {
        lemma_scan_shape(p, t, k, t.len());
    }
    let ends = scan_ends(p, t, k);
    assert(matches_of(ends)[i].end == ends[i].end);
    assert(matches_of(ends)[i2].end == ends[i2].end);
}

/// All matches have the same number of edits.
pub proof fn law_same_errors(p: Seq<u16>, t: Seq<u16>, k: nat, i: int)
    requires
        0 <= i < search_result(p, t, k).len(),
    ensures
        search_result(p, t, k)[i].errors == search_result(p, t, k)[0].errors,
{
    if p.len() > 0 {
        lemma_scan_shape(p, t, k, t.len());
    }
    let ends = scan_ends(p, t, k);
    assert(matches_of(ends)[i].errors == ends[i].score as usize);
    assert(matches_of(ends)[0].errors == ends[0].score as usize);
}

/// A match lies in the text, and has no more edits than the budget and than
/// the pattern has symbols.
pub proof fn law_bounds(p: Seq<u16>, t: Seq<u16>, k: nat, i: int)
    requires
        p.len() <= usize::MAX,
        t.len() <= usize::MAX,
        0 <= i < search_result(p, t, k).len(),
    ensures
        0 <= search_result(p, t, k)[i].start <= search_result(p, t, k)[i].end <= t.len(),
        search_result(p, t, k)[i].errors <= k,
        search_result(p, t, k)[i].errors <= p.len(),
{
    lemma_match_is_nearest(p, t, k, i);
}

/// The edits of a match are the least distance between the pattern and a
/// substring that ends where the match ends, as the table of the dynamic
/// programme has it; a substring that starts where the match starts and
/// ends no later is at that distance, and the matched substring itself is
/// no nearer. The lemma returns the end of such a substring.
pub proof fn law_errors_are_distances(p: Seq<u16>, t: Seq<u16>, k: nat, i: int) -> (b: int)
    requires
        p.len() <= usize::MAX,
        t.len() <= usize::MAX,
        0 <= i < search_result(p, t, k).len(),
    ensures
        ({
            let r = search_result(p, t, k)[i];
            &&& r.errors == ending_distance(p, t, r.end as int)
            &&& r.start <= b <= r.end
            &&& r.errors == lev(p, t.subrange(r.start as int, b))
            &&& r.errors <= lev(p, t.subrange(r.start as int, r.end as int))
        }),
{
    lemma_match_is_nearest(p, t, k, i);
    let r = search_result(p, t, k)[i];
    let b = lemma_least_to(p, t, r.start as int, r.end as int);
    assert(least_to(p, t, r.start as int, r.end as int) <= lev(
        p,
        t.subrange(r.start as int, r.end as int),
    ));
    b
}

/// The edits of a match are the distance between the pattern and the
/// matched substring exactly where no shorter substring from the same start
/// is nearer to the pattern than the matched substring is.
pub proof fn law_matched_distance(p: Seq<u16>, t: Seq<u16>, k: nat, i: int)
    requires
        p.len() <= usize::MAX,
        t.len() <= usize::MAX,
        0 <= i < search_result(p, t, k).len(),
    ensures
        ({
            let r = search_result(p, t, k)[i];
            let whole = lev(p, t.subrange(r.start as int, r.end as int));
            r.errors == whole <==> forall|b: int|
                r.start <= b < r.end ==> lev(p, #[trigger] t.subrange(r.start as int, b)) >= whole
        }),
{
    lemma_match_is_nearest(p, t, k, i);
    let r = search_result(p, t, k)[i];
    let whole = lev(p, t.subrange(r.start as int, r.end as int));
    let b0 = lemma_least_to(p, t, r.start as int, r.end as int);
    assert(least_to(p, t, r.start as int, r.end as int) <= whole);
    if r.errors == whole {
        assert forall|b: int| r.start <= b < r.end implies lev(
            p,
            #[trigger] t.subrange(r.start as int, b),
        ) >= whole by {
            law_minimal(p, t, k, i, r.start as int, b);
        }
    }
}

/// A match without edits is the pattern itself.
pub proof fn law_exact_match(p: Seq<u16>, t: Seq<u16>, k: nat, i: int)
    requires
        p.len() <= usize::MAX,
        t.len() <= usize::MAX,
        0 <= i < search_result(p, t, k).len(),
        search_result(p, t, k)[i].errors == 0,
    ensures
        ({
            let r = search_result(p, t, k)[i];
            t.subrange(r.start as int, r.end as int) == p
        }),
{
    lemma_match_is_nearest(p, t, k, i);
    let r = search_result(p, t, k)[i];
    let b = lemma_least_to(p, t, r.start as int, r.end as int);
    lemma_lev_zero(p, t.subrange(r.start as int, b));
    lemma_first_start(
        p,
        t,
        r.end as int,
        0,
        window_start(p.len(), r.end as nat, 0) as int,
    );
}

/// The edits of the matches are the least distance between the pattern and
/// any substring of the text.
pub proof fn law_minimal(p: Seq<u16>, t: Seq<u16>, k: nat, i: int, s: int, e: int)
    requires
        p.len() <= usize::MAX,
        t.len() <= usize::MAX,
        0 <= i < search_result(p, t, k).len(),
        0 <= s <= e <= t.len(),
    ensures
        search_result(p, t, k)[i].errors <= lev(p, t.subrange(s, e)),
{
    lemma_match_is_nearest(p, t, k, i);
    lemma_least_is_global(p, t);
}

/// A search finds nothing exactly where no substring of the text is within
/// the budget, or pattern or text is empty.
pub proof fn law_found_when_near(p: Seq<u16>, t: Seq<u16>, k: nat)
    requires
        p.len() <= usize::MAX,
        t.len() <= usize::MAX,
    ensures
        search_result(p, t, k).len() > 0 <==> p.len() > 0 && t.len() > 0 && exists|
            s: int,
            e: int,
        |
            0 <= s <= e <= t.len() && lev(p, #[trigger] t.subrange(s, e)) <= k,
{
    lemma_search_is_nearest(p, t, k);
    if p.len() > 0 && t.len() > 0 {
        let n = t.len() as int;
        let w = lemma_least_is_global(p, t);
        let d = least_ending(p, t, n);
        if d <= k {
            let e0 = lemma_least_ending(p, t, n);
            lemma_ends_at(p, t, d, n);
        }
    }
}

/// No substring that ends where a match ends and starts before it is as
/// near to the pattern as the match says.
pub proof fn law_start_is_first(p: Seq<u16>, t: Seq<u16>, k: nat, i: int, s: int)
    requires
        p.len() <= usize::MAX,
        t.len() <= usize::MAX,
        0 <= i < search_result(p, t, k).len(),
        0 <= s < search_result(p, t, k)[i].start,
    ensures
        lev(p, t.subrange(s, search_result(p, t, k)[i].end as int)) > search_result(
            p,
            t,
            k,
        )[i].errors,
{
    lemma_match_is_nearest(p, t, k, i);
    let r = search_result(p, t, k)[i];
    let e = r.end as int;
    let d = r.errors as int;
    let from = window_start(p.len(), e as nat, d as nat) as int;
    lemma_least_is_global(p, t);
    lemma_lev_bounds(p, t.subrange(s, e));
    assert(lev(p, t.subrange(s, e)) >= d);
    if lev(p, t.subrange(s, e)) == d {
        assert(from <= s);
        lemma_first_start(p, t, e, d, from);
        let b = lemma_least_to(p, t, s, e);
        assert(least_to(p, t, s, e) <= lev(p, t.subrange(s, e)));
        assert(lev(p, t.subrange(s, b)) >= d);
        assert(starting_distance(p, t, s, e) == d);
    }
}

/// The states of a scan depend on the budget only through its clamped value.
pub proof fn lemma_scan_clamped(p: Seq<u16>, t: Seq<u16>, k: nat, j: nat)
    ensures
        scan(p, t, k, j) == scan(p, t, clamp_errors(k, p.len()) as nat, j),
    decreases j,
{
    if j > 0 {
        lemma_scan_clamped(p, t, k, (j - 1) as nat);
    }
}

/// A budget above the pattern's length gives what the pattern's length
/// gives as budget.
pub proof fn law_clamp(p: Seq<u16>, t: Seq<u16>, k: nat)
    ensures
        search_result(p, t, k) == search_result(p, t, clamp_errors(k, p.len()) as nat),
{
    lemma_scan_clamped(p, t, k, t.len());
}

/// A search for the reversed pattern in the reversed text finds matches
/// with the edits of the search forward, which then is not empty. Mirrored
/// into the text, the substring of such a match is at the distance from the
/// pattern that the reversed substring is from the reversed pattern: it is
/// at the distance that the match says exactly where no shorter piece of the
/// reversed substring from its start is nearer to the reversed pattern. And
/// where the mirrored substring starts, a substring starts that is as near
/// as the match says.
pub proof fn law_reverse_symmetry(p: Seq<u16>, t: Seq<u16>, k: nat, i: int)
    requires
        p.len() <= usize::MAX,
        t.len() <= usize::MAX,
        0 <= i < search_result(p.reverse(), t.reverse(), k).len(),
    ensures
        ({
            let r = search_result(p.reverse(), t.reverse(), k)[i];
            let a = t.len() - r.end;
            let b = t.len() - r.start;
            &&& search_result(p, t, k).len() > 0
            &&& search_result(p, t, k)[0].errors == r.errors
            &&& 0 <= a <= b <= t.len()
            &&& lev(p, t.subrange(a, b)) == lev(
                p.reverse(),
                t.reverse().subrange(r.start as int, r.end as int),
            )
            &&& starting_distance(p, t, a, t.len() as int) == r.errors
            &&& lev(p, t.subrange(a, b)) == r.errors <==> forall|f: int|
                r.start <= f < r.end ==> lev(
                    p.reverse(),
                    #[trigger] t.reverse().subrange(r.start as int, f),
                ) >= lev(p.reverse(), t.reverse().subrange(r.start as int, r.end as int))
        }),
{
    law_matched_distance(p.reverse(), t.reverse(), k, i);
    let pr = p.reverse();
    let tr = t.reverse();
    let n = t.len() as int;
    assert(pr.len() == p.len());
    assert(tr.len() == t.len());
    lemma_match_is_nearest(pr, tr, k, i);
    let r = search_result(pr, tr, k)[i];
    let a = n - r.end;
    let b = n - r.start;
    assert(t.subrange(0, n) =~= t);
    // The mirrored substring.
    crate::leftmost::lemma_window_reverse(t, 0, n, r.start as int, r.end as int);
    lemma_lev_reverse(p, t.subrange(a, b));
    // The least distances of both directions are the same.
    let w = lemma_least_is_global(p, t);
    let wr = lemma_least_is_global(pr, tr);
    crate::leftmost::lemma_window_reverse(t, 0, n, n - w.1, n - w.0);
    lemma_lev_reverse(p, t.subrange(w.0, w.1));
    assert(least_ending(pr, tr, n) <= lev(pr, tr.subrange(n - w.1, n - w.0)));
    crate::leftmost::lemma_window_reverse(t, 0, n, wr.0, wr.1);
    lemma_lev_reverse(p, t.subrange(n - wr.1, n - wr.0));
    assert(least_ending(p, t, n) <= lev(p, t.subrange(n - wr.1, n - wr.0)));
    law_found_when_near(p, t, k);
    assert(lev(p, t.subrange(w.0, w.1)) <= k);
    lemma_match_is_nearest(p, t, k, 0);
    // A nearest substring starts at the mirrored end.
    crate::leftmost::lemma_back_distance(p, t, 0, n, r.end as int);
}

/// No end is reported at a distance that no end has.
pub proof fn lemma_ends_at_absent(p: Seq<u16>, t: Seq<u16>, d: int, n: int)
    requires
        forall|e: int| 1 <= e <= n ==> #[trigger] ending_distance(p, t, e) != d,
    ensures
        ends_at(p, t, d, n) == Seq::<EndPoint>::empty(),
    decreases n,
{
    if n >= 1 {
        lemma_ends_at_absent(p, t, d, n - 1);
    }
}

/// A larger budget gives the result of a smaller one that is not empty.
pub proof fn law_larger_budget(p: Seq<u16>, t: Seq<u16>, k: nat, k2: nat)
    requires
        p.len() <= usize::MAX,
        t.len() <= usize::MAX,
        k <= k2,
        search_result(p, t, k).len() > 0,
    ensures
        search_result(p, t, k2) == search_result(p, t, k),
        scan_ends(p, t, k2) == scan_ends(p, t, k),
{
    lemma_search_is_nearest(p, t, k);
    lemma_search_is_nearest(p, t, k2);
    crate::frontier::lemma_scan_is_best(p, t, k);
    crate::frontier::lemma_scan_is_best(p, t, k2);
}

/// The starts of the matches are those that ends which are `nearest_by`
/// get when they are handed to the backward scan one by one.
pub proof fn law_starts_from_ends(p: Seq<u16>, t: Seq<u16>, k: nat, i: int)
    requires
        p.len() <= usize::MAX,
        t.len() <= usize::MAX,
        0 <= i < search_result(p, t, k).len(),
    ensures
        ({
            let r = search_result(p, t, k)[i];
            &&& nearest_by(p, t, r.end as int, r.errors as int)
            &&& first_nearest_start(p, t, r.end as int, r.errors as int, r.start as int)
        }),
{
    lemma_match_is_nearest(p, t, k, i);
    let r = search_result(p, t, k)[i];
    lemma_least_is_nearest_by(p, t, r.end as int);
    lemma_start_is_first(p, t, r.end as int, r.errors as int);
}

/// A pattern searched in itself without edits is found once, as the whole text.
pub proof fn law_self_search(p: Seq<u16>)
    requires
        p.len() >= 1,
        p.len() <= usize::MAX,
    ensures
        search_result(p, p, 0) == seq![Match { start: 0, end: p.len() as usize, errors: 0 }],
{
    let m = p.len() as int;
    lemma_search_is_nearest(p, p, 0);
    lemma_lev_same(p);
    assert(p.subrange(0, m) =~= p);
    let s0 = lemma_least_from(p, p, m, m);
    assert(least_from(p, p, m, m) <= lev(p, p.subrange(0, m)));
    lemma_ending_distance_range(p, p, m);
    assert(ending_distance(p, p, m) == 0);
    let e0 = lemma_least_ending(p, p, m);
    lemma_ending_distance_range(p, p, e0);
    assert(least_ending(p, p, m) == 0);
    assert forall|e: int| 1 <= e <= m - 1 implies #[trigger] ending_distance(p, p, e) != 0 by {
        let s = lemma_least_from(p, p, e, e);
        lemma_lev_bounds(p, p.subrange(s, e));
    }
    lemma_ends_at_absent(p, p, 0, m - 1);
    let only = EndPoint { end: m as nat, score: 0 };
    assert(ends_at(p, p, 0, m) == Seq::<EndPoint>::empty().push(only));
    let b = lemma_least_to(p, p, 0, m);
    assert(least_to(p, p, 0, m) <= lev(p, p.subrange(0, m)));
    lemma_lev_bounds(p, p.subrange(0, b));
    assert(starting_distance(p, p, 0, m) == 0);
    assert(window_start(p.len(), m as nat, 0) == 0);
    assert(match_start(p, p, m, 0) == 0);
    assert(nearest_matches(p, p, 0) =~= seq![
        Match { start: 0, end: p.len() as usize, errors: 0 },
    ]);
}

} // verus!
