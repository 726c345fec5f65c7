//! The ends that a search owes: those of the substrings nearest to the
//! pattern, if any is within the budget.

use vstd::prelude::*;
use crate::distance::{
    ending_distance, least_from, lemma_cell_is_ending_distance, lemma_cell_range, lemma_least_from,
    lemma_lev_bounds, lev,
};
use crate::scan::{clamp_errors, EndPoint};

verus! {

/// The least distance of `p` to a substring of `t` that ends between 1 and `n`.
pub open spec fn least_ending(p: Seq<u16>, t: Seq<u16>, n: int) -> int
    decreases n,
{
    if n <= 1 {
        ending_distance(p, t, 1)
    } else if ending_distance(p, t, n) <= least_ending(p, t, n - 1) {
        ending_distance(p, t, n)
    } else {
        least_ending(p, t, n - 1)
    }
}

/// The ends between 1 and `n`, in increasing order, at which a substring at
/// distance `d` from `p` ends and none nearer.
pub open spec fn ends_at(p: Seq<u16>, t: Seq<u16>, d: int, n: int) -> Seq<EndPoint>
    decreases n,
{
    if n <= 0 {
        Seq::empty()
    } else if ending_distance(p, t, n) == d {
        ends_at(p, t, d, n - 1).push(EndPoint { end: n as nat, score: d })
    } else {
        ends_at(p, t, d, n - 1)
    }
}

/// The ends of the substrings of `t` nearest to `p`, by increasing end, if
/// they are within `k` edits; nothing otherwise, and nothing for an empty
/// pattern or text. An end stands here once, with the least distance.
pub open spec fn best_ends(p: Seq<u16>, t: Seq<u16>, k: nat) -> Seq<EndPoint> {
    if p.len() == 0 || t.len() == 0 {
        Seq::empty()
    } else if least_ending(p, t, t.len() as int) <= k {
        ends_at(p, t, least_ending(p, t, t.len() as int), t.len() as int)
    } else {
        Seq::empty()
    }
}

/// The budget after `j` text symbols: the least distance met so far, if it
/// is below the budget given.
pub open spec fn running_budget(p: Seq<u16>, t: Seq<u16>, k: nat, j: int) -> int {
    let given = clamp_errors(k, p.len());
    if j <= 0 || given <= least_ending(p, t, j) {
        given
    } else {
        least_ending(p, t, j)
    }
}

/// The ends collected after `j` text symbols.
pub open spec fn running_ends(p: Seq<u16>, t: Seq<u16>, k: nat, j: int) -> Seq<EndPoint> {
    if j >= 1 && least_ending(p, t, j) <= clamp_errors(k, p.len()) {
        ends_at(p, t, least_ending(p, t, j), j)
    } else {
        Seq::empty()
    }
}

/// No end is nearer than the least distance.
pub proof fn lemma_ends_at_none(p: Seq<u16>, t: Seq<u16>, d: int, n: int)
    requires
        n <= 0 || d < least_ending(p, t, n),
    ensures
        ends_at(p, t, d, n) == Seq::<EndPoint>::empty(),
    decreases n,
{
    if n >= 1 {
        lemma_ends_at_none(p, t, d, n - 1);
    }
}

/// The least distance is that of some end, and no end is nearer.
pub proof fn lemma_least_ending(p: Seq<u16>, t: Seq<u16>, n: int) -> (e: int)
    requires
        1 <= n,
    ensures
        1 <= e <= n,
        ending_distance(p, t, e) == least_ending(p, t, n),
        forall|e2: int| 1 <= e2 <= n ==> least_ending(p, t, n) <= #[trigger] ending_distance(p, t, e2),
    decreases n,
{
    if n == 1 {
        1
    } else {
        let e = lemma_least_ending(p, t, n - 1);
        if ending_distance(p, t, n) <= least_ending(p, t, n - 1) {
            n
        } else {
            e
        }
    }
}

/// The ends at distance `d` are those ends, in increasing order.
pub proof fn lemma_ends_at(p: Seq<u16>, t: Seq<u16>, d: int, n: int)
    requires
        0 <= n,
    ensures
        forall|i: int|
            0 <= i < ends_at(p, t, d, n).len() ==> {
                let e = #[trigger] ends_at(p, t, d, n)[i];
                &&& 1 <= e.end <= n
                &&& e.score == d
                &&& ending_distance(p, t, e.end as int) == d
            },
        forall|i: int, i2: int|
            0 <= i < i2 < ends_at(p, t, d, n).len() ==> (#[trigger] ends_at(p, t, d, n)[i]).end
                < (#[trigger] ends_at(p, t, d, n)[i2]).end,
        forall|e: int|
            1 <= e <= n && ending_distance(p, t, e) == d ==> exists|i: int|
                0 <= i < ends_at(p, t, d, n).len() && (#[trigger] ends_at(p, t, d, n)[i]).end == e,
    decreases n,
{
    if n > 0 {
        lemma_ends_at(p, t, d, n - 1);
        let rest = ends_at(p, t, d, n - 1);
        let all = ends_at(p, t, d, n);
        assert forall|e: int| 1 <= e <= n && ending_distance(p, t, e) == d implies exists|i: int|
            0 <= i < all.len() && (#[trigger] all[i]).end == e by {
            if e < n {
                let i = choose|i: int| 0 <= i < rest.len() && (#[trigger] rest[i]).end == e;
                assert(all[i].end == e);
            } else {
                assert(all[all.len() - 1].end == e);
            }
        }
    }
}

/// An end's least distance is at most the pattern's length.
pub proof fn lemma_ending_distance_range(p: Seq<u16>, t: Seq<u16>, e: int)
    requires
        0 <= e <= t.len(),
    ensures
        0 <= ending_distance(p, t, e) <= p.len(),
{
    lemma_cell_is_ending_distance(p, t, e);
    lemma_cell_range(p, t, p.len() as int, e);
}

/// What one more text symbol does to budget and ends: an end within the
/// budget is collected and becomes the budget, and a nearer one drops the
/// ends collected before.
pub proof fn lemma_running_step(p: Seq<u16>, t: Seq<u16>, k: nat, j: int)
    requires
        1 <= j,
    ensures
        ({
            let d = ending_distance(p, t, j);
            let before = running_budget(p, t, k, j - 1);
            let kept = if d < before {
                Seq::<EndPoint>::empty()
            } else {
                running_ends(p, t, k, j - 1)
            };
            &&& d <= before ==> running_budget(p, t, k, j) == d && running_ends(p, t, k, j)
                == kept.push(EndPoint { end: j as nat, score: d })
            &&& d > before ==> running_budget(p, t, k, j) == before && running_ends(p, t, k, j)
                == running_ends(p, t, k, j - 1)
        }),
{
    let d = ending_distance(p, t, j);
    if j >= 2 {
        if d < least_ending(p, t, j - 1) {
            lemma_ends_at_none(p, t, d, j - 1);
        }
        if clamp_errors(k, p.len()) < least_ending(p, t, j - 1) {
            lemma_ends_at_none(p, t, clamp_errors(k, p.len()), j - 1);
        }
    } else {
        assert(ends_at(p, t, d, 0) == Seq::<EndPoint>::empty());
    }
}

/// The least distance by end is the least distance of all substrings: no
/// substring of a text that is not empty is nearer to the pattern, and some
/// substring is that near; the lemma returns its start and end.
pub proof fn lemma_least_is_global(p: Seq<u16>, t: Seq<u16>) -> (w: (int, int))
    requires
        p.len() >= 1,
        t.len() >= 1,
    ensures
        0 <= w.0 <= w.1 <= t.len(),
        lev(p, t.subrange(w.0, w.1)) == least_ending(p, t, t.len() as int),
        forall|s: int, e: int|
            0 <= s <= e <= t.len() ==> least_ending(p, t, t.len() as int) <= lev(
                p,
                #[trigger] t.subrange(s, e),
            ),
{
    let n = t.len() as int;
    let e0 = lemma_least_ending(p, t, n);
    let s0 = lemma_least_from(p, t, e0, e0);
    lemma_ending_distance_range(p, t, e0);
    assert forall|s: int, e: int| 0 <= s <= e <= t.len() implies least_ending(p, t, n) <= lev(
        p,
        #[trigger] t.subrange(s, e),
    ) by {
        if e >= 1 {
            let s1 = lemma_least_from(p, t, e, e);
            assert(least_from(p, t, e, e) <= lev(p, t.subrange(s, e)));
            assert(least_ending(p, t, n) <= ending_distance(p, t, e));
        } else {
            lemma_lev_bounds(p, t.subrange(s, e));
        }
    }
    (s0, e0)
}

/// What holds of the ends that a search owes: each lies in the text at the
/// least distance of all ends, which is within the budget and the pattern's
/// length; they come by increasing end; there are some exactly where pattern
/// and text are not empty and the least distance is within the budget, and
/// then every end at that distance is among them.
pub open spec fn best_ends_hold(p: Seq<u16>, t: Seq<u16>, k: nat, ends: Seq<EndPoint>) -> bool {
    let least = least_ending(p, t, t.len() as int);
    &&& forall|i: int|
        0 <= i < ends.len() ==> {
            let e = #[trigger] ends[i];
            &&& 1 <= e.end <= t.len()
            &&& e.score == least
            &&& e.score == ending_distance(p, t, e.end as int)
            &&& 0 <= e.score <= k
            &&& e.score <= p.len()
        }
    &&& forall|i: int, i2: int|
        0 <= i < i2 < ends.len() ==> (#[trigger] ends[i]).end < (#[trigger] ends[i2]).end
    &&& ends.len() > 0 <==> p.len() > 0 && t.len() > 0 && least <= k
    &&& forall|e: int|
        ends.len() > 0 && 1 <= e <= t.len() && #[trigger] ending_distance(p, t, e) == least
            ==> exists|i: int| 0 <= i < ends.len() && (#[trigger] ends[i]).end == e
}

/// The ends that a search owes are as `best_ends_hold` says.
pub proof fn lemma_best_ends(p: Seq<u16>, t: Seq<u16>, k: nat)
    ensures
        best_ends_hold(p, t, k, best_ends(p, t, k)),
{
    let n = t.len() as int;
    let least = least_ending(p, t, n);
    let ends = best_ends(p, t, k);
    if p.len() > 0 && t.len() > 0 {
        let e0 = lemma_least_ending(p, t, n);
        lemma_ending_distance_range(p, t, e0);
        lemma_ends_at(p, t, least, n);
        if least <= k {
            let i = choose|i: int|
                0 <= i < ends_at(p, t, least, n).len() && (#[trigger] ends_at(
                    p,
                    t,
                    least,
                    n,
                )[i]).end == e0;
        }
    }
}

} // verus!
