//! Edit distance, and the table whose last row holds, for each end in the
//! text, the least distance of the pattern to a substring that ends there.

use vstd::prelude::*;
use crate::block::least3;

verus! {

/// 0 for equal symbols, 1 for different ones.
pub open spec fn sub_cost(x: u16, y: u16) -> int {
    if x == y {
        0
    } else {
        1
    }
}

/// The Levenshtein distance between `a` and `b`: the least number of
/// insertions, deletions and substitutions of single symbols that turn one
/// into the other.
pub open spec fn lev(a: Seq<u16>, b: Seq<u16>) -> int
    decreases a.len() + b.len(),
{
    if a.len() == 0 {
        b.len() as int
    } else if b.len() == 0 {
        a.len() as int
    } else {
        least3(
            lev(a.drop_last(), b.drop_last()) + sub_cost(a.last(), b.last()),
            lev(a.drop_last(), b) + 1,
            lev(a, b.drop_last()) + 1,
        )
    }
}

/// The least distance of `p` to a substring of `t` that ends at `e` and
/// starts at `s` or before.
pub open spec fn least_from(p: Seq<u16>, t: Seq<u16>, e: int, s: int) -> int
    decreases s,
{
    let here = lev(p, t.subrange(s, e));
    if s <= 0 {
        lev(p, t.subrange(0, e))
    } else if here <= least_from(p, t, e, s - 1) {
        here
    } else {
        least_from(p, t, e, s - 1)
    }
}

/// The least distance of `p` to a substring of `t` that ends at `e`.
pub open spec fn ending_distance(p: Seq<u16>, t: Seq<u16>, e: int) -> int {
    least_from(p, t, e, e)
}

/// Entry `(i, j)` of the table: the least distance of the first `i` symbols
/// of `p` to a substring of `t` that ends at `j`, by the recurrence of the
/// dynamic programme.
#[verifier::opaque]
pub open spec fn cell(p: Seq<u16>, t: Seq<u16>, i: int, j: int) -> int
    decreases
            (if i > 0 {
                i
            } else {
                0
            }) + (if j > 0 {
                j
            } else {
                0
            }),
{
    if i <= 0 {
        0
    } else if j <= 0 {
        i
    } else {
        least3(
            cell(p, t, i - 1, j - 1) + sub_cost(p[i - 1], t[j - 1]),
            cell(p, t, i - 1, j) + 1,
            cell(p, t, i, j - 1) + 1,
        )
    }
}

/// A distance is at least the difference of the lengths, and at most the
/// greater length.
pub proof fn lemma_lev_bounds(a: Seq<u16>, b: Seq<u16>)
    ensures
        lev(a, b) >= a.len() - b.len(),
        lev(a, b) >= b.len() - a.len(),
        lev(a, b) >= 0,
        lev(a, b) <= a.len() + b.len(),
    decreases a.len() + b.len(),
{
    if a.len() > 0 && b.len() > 0 {
        lemma_lev_bounds(a.drop_last(), b.drop_last());
        lemma_lev_bounds(a.drop_last(), b);
        lemma_lev_bounds(a, b.drop_last());
    }
}

/// A string is at distance 0 from itself.
pub proof fn lemma_lev_same(a: Seq<u16>)
    ensures
        lev(a, a) == 0,
    decreases a.len(),
{
    if a.len() > 0 {
        lemma_lev_same(a.drop_last());
        lemma_lev_bounds(a.drop_last(), a);
        lemma_lev_bounds(a, a.drop_last());
    }
}

/// Only equal strings are at distance 0.
pub proof fn lemma_lev_zero(a: Seq<u16>, b: Seq<u16>)
    requires
        lev(a, b) == 0,
    ensures
        a == b,
    decreases a.len() + b.len(),
{
    lemma_lev_bounds(a, b);
    if a.len() > 0 && b.len() > 0 {
        lemma_lev_bounds(a.drop_last(), b.drop_last());
        lemma_lev_bounds(a.drop_last(), b);
        lemma_lev_bounds(a, b.drop_last());
        lemma_lev_zero(a.drop_last(), b.drop_last());
        assert(a =~= a.drop_last().push(a.last()));
        assert(b =~= b.drop_last().push(b.last()));
    } else {
        assert(a =~= b);
    }
}

/// An entry of the table is between 0 and its row.
pub proof fn lemma_cell_range(p: Seq<u16>, t: Seq<u16>, i: int, j: int)
    requires
        0 <= i,
        0 <= j,
    ensures
        0 <= cell(p, t, i, j) <= i,
    decreases i + j,
{
    reveal(cell);
    if i > 0 && j > 0 {
        lemma_cell_range(p, t, i - 1, j - 1);
        lemma_cell_range(p, t, i - 1, j);
        lemma_cell_range(p, t, i, j - 1);
    }
}

/// From one column to the next an entry falls by at most one.
pub proof fn lemma_cell_left(p: Seq<u16>, t: Seq<u16>, i: int, j: int)
    requires
        0 <= i,
        1 <= j,
    ensures
        cell(p, t, i, j) >= cell(p, t, i, j - 1) - 1,
    decreases i,
{
    reveal(cell);
    if i > 0 {
        lemma_cell_left(p, t, i - 1, j);
        if j - 1 > 0 {
            assert(cell(p, t, i, j - 1) <= cell(p, t, i - 1, j - 1) + 1);
        } else {
            assert(cell(p, t, i, 0) == i);
            assert(cell(p, t, i - 1, 0) == i - 1);
        }
    }
}

/// From one row to the next an entry rises by at most one.
pub proof fn lemma_cell_down(p: Seq<u16>, t: Seq<u16>, i: int, j: int)
    requires
        1 <= i,
        0 <= j,
    ensures
        cell(p, t, i, j) <= cell(p, t, i - 1, j) + 1,
{
    reveal(cell);
    if j == 0 {
        assert(cell(p, t, i, 0) == i);
        if i - 1 > 0 {
            assert(cell(p, t, i - 1, 0) == i - 1);
        }
    }
}

/// No substring that ends at `j` is nearer to the first `i` symbols of the
/// pattern than the table says.
pub proof fn lemma_cell_least(p: Seq<u16>, t: Seq<u16>, i: int, j: int, s: int)
    requires
        0 <= i <= p.len(),
        0 <= s <= j <= t.len(),
    ensures
        cell(p, t, i, j) <= lev(p.take(i), t.subrange(s, j)),
    decreases i + j,
{
    reveal(cell);
    let a = p.take(i);
    let b = t.subrange(s, j);
    lemma_lev_bounds(a, b);
    lemma_cell_range(p, t, i, j);
    if i > 0 && s < j {
        assert(a.drop_last() =~= p.take(i - 1));
        assert(b.drop_last() =~= t.subrange(s, j - 1));
        lemma_cell_least(p, t, i - 1, j - 1, s);
        lemma_cell_least(p, t, i - 1, j, s);
        lemma_cell_least(p, t, i, j - 1, s);
    }
}

/// Some substring that ends at `j` is as near to the first `i` symbols of
/// the pattern as the table says; the lemma returns its start.
pub proof fn lemma_cell_witness(p: Seq<u16>, t: Seq<u16>, i: int, j: int) -> (s: int)
    requires
        0 <= i <= p.len(),
        0 <= j <= t.len(),
    ensures
        0 <= s <= j,
        lev(p.take(i), t.subrange(s, j)) == cell(p, t, i, j),
    decreases i + j,
{
    reveal(cell);
    let a = p.take(i);
    if i == 0 {
        j
    } else if j == 0 {
        0
    } else {
        let diag = cell(p, t, i - 1, j - 1) + sub_cost(p[i - 1], t[j - 1]);
        let up = cell(p, t, i - 1, j) + 1;
        let left = cell(p, t, i, j - 1) + 1;
        let s = if cell(p, t, i, j) == diag {
            lemma_cell_witness(p, t, i - 1, j - 1)
        } else if cell(p, t, i, j) == up {
            lemma_cell_witness(p, t, i - 1, j)
        } else {
            lemma_cell_witness(p, t, i, j - 1)
        };
        let b = t.subrange(s, j);
        lemma_cell_least(p, t, i, j, s);
        assert(a.drop_last() =~= p.take(i - 1));
        if s < j {
            assert(b.drop_last() =~= t.subrange(s, j - 1));
        }
        s
    }
}

/// `least_from` is a least value: below every distance in its range, and
/// equal to one of them.
pub proof fn lemma_least_from(p: Seq<u16>, t: Seq<u16>, e: int, n: int) -> (s: int)
    requires
        0 <= n,
    ensures
        0 <= s <= n,
        lev(p, t.subrange(s, e)) == least_from(p, t, e, n),
        forall|s2: int| 0 <= s2 <= n ==> least_from(p, t, e, n) <= lev(p, #[trigger] t.subrange(s2, e)),
    decreases n,
{
    if n == 0 {
        0
    } else {
        let s = lemma_least_from(p, t, e, n - 1);
        if lev(p, t.subrange(n, e)) <= least_from(p, t, e, n - 1) {
            n
        } else {
            s
        }
    }
}

/// The last row of the table holds the least distances by end.
pub proof fn lemma_cell_is_ending_distance(p: Seq<u16>, t: Seq<u16>, e: int)
    requires
        0 <= e <= t.len(),
    ensures
        cell(p, t, p.len() as int, e) == ending_distance(p, t, e),
{
    let m = p.len() as int;
    assert(p.take(m) =~= p);
    let s1 = lemma_cell_witness(p, t, m, e);
    let s2 = lemma_least_from(p, t, e, e);
    lemma_cell_least(p, t, m, e, s2);
}

/// The distance by first symbols: the recurrence that defines `lev` on the
/// last symbols holds on the first ones too.
pub proof fn lemma_lev_front(a: Seq<u16>, b: Seq<u16>)
    requires
        a.len() > 0,
        b.len() > 0,
    ensures
        lev(a, b) == least3(
            lev(a.drop_first(), b.drop_first()) + sub_cost(a[0], b[0]),
            lev(a.drop_first(), b) + 1,
            lev(a, b.drop_first()) + 1,
        ),
    decreases a.len() + b.len(),
{
    let al = a.drop_last();
    let af = a.drop_first();
    let bl = b.drop_last();
    let bf = b.drop_first();
    let cf = sub_cost(a[0], b[0]);
    let cl = sub_cost(a.last(), b.last());
    assert(lev(a, b) == least3(lev(al, bl) + cl, lev(al, b) + 1, lev(a, bl) + 1));
    if a.len() >= 2 {
        assert(al.drop_first() =~= af.drop_last());
        assert(af.last() == a.last());
        assert(al[0] == a[0]);
    } else {
        assert(al.len() == 0 && af.len() == 0);
    }
    if b.len() >= 2 {
        assert(bl.drop_first() =~= bf.drop_last());
        assert(bf.last() == b.last());
        assert(bl[0] == b[0]);
    } else {
        assert(bl.len() == 0 && bf.len() == 0);
    }
    let am = af.drop_last();
    let bm = bf.drop_last();
    if a.len() >= 2 && b.len() >= 2 {
        lemma_lev_front(al, bl);
        lemma_lev_front(al, b);
        lemma_lev_front(a, bl);
        assert(lev(al, bl) == least3(lev(am, bm) + cf, lev(am, bl) + 1, lev(al, bm) + 1));
        assert(lev(al, b) == least3(lev(am, bf) + cf, lev(am, b) + 1, lev(al, bf) + 1));
        assert(lev(a, bl) == least3(lev(af, bm) + cf, lev(af, bl) + 1, lev(a, bm) + 1));
        assert(lev(af, bf) == least3(lev(am, bm) + cl, lev(am, bf) + 1, lev(af, bm) + 1));
        assert(lev(af, b) == least3(lev(am, bl) + cl, lev(am, b) + 1, lev(af, bl) + 1));
        assert(lev(a, bf) == least3(lev(al, bm) + cl, lev(al, bf) + 1, lev(a, bm) + 1));
    } else if a.len() >= 2 {
        lemma_lev_front(al, b);
        assert(lev(al, bl) == al.len());
        assert(lev(af, bf) == af.len());
        assert(lev(am, bf) == am.len());
        assert(lev(am, bl) == am.len());
        assert(lev(a, bl) == a.len());
        assert(lev(a, bf) == a.len());
        assert(lev(al, bf) == al.len());
        assert(lev(af, bl) == af.len());
        assert(lev(al, b) == least3(lev(am, bf) + cf, lev(am, b) + 1, lev(al, bf) + 1));
        assert(lev(af, b) == least3(lev(am, bl) + cl, lev(am, b) + 1, lev(af, bl) + 1));
    } else if b.len() >= 2 {
        lemma_lev_front(a, bl);
        assert(lev(al, bl) == bl.len());
        assert(lev(af, bf) == bf.len());
        assert(lev(af, bm) == bm.len());
        assert(lev(al, bm) == bm.len());
        assert(lev(al, b) == b.len());
        assert(lev(af, b) == b.len());
        assert(lev(af, bl) == bl.len());
        assert(lev(al, bf) == bf.len());
        assert(lev(a, bl) == least3(lev(af, bm) + cf, lev(af, bl) + 1, lev(a, bm) + 1));
        assert(lev(a, bf) == least3(lev(al, bm) + cl, lev(al, bf) + 1, lev(a, bm) + 1));
    } else {
        assert(lev(al, bl) == 0);
        assert(lev(af, bf) == 0);
        assert(lev(al, b) == 1);
        assert(lev(af, b) == 1);
        assert(lev(a, bl) == 1);
        assert(lev(a, bf) == 1);
        assert(a.last() == a[0]);
        assert(b.last() == b[0]);
    }
}

/// Reversing both strings keeps their distance.
pub proof fn lemma_lev_reverse(a: Seq<u16>, b: Seq<u16>)
    ensures
        lev(a.reverse(), b.reverse()) == lev(a, b),
    decreases a.len() + b.len(),
{
    let ra = a.reverse();
    let rb = b.reverse();
    if a.len() > 0 && b.len() > 0 {
        let af = a.drop_first();
        let bf = b.drop_first();
        assert(ra.drop_last() =~= af.reverse());
        assert(rb.drop_last() =~= bf.reverse());
        assert(ra.last() == a[0]);
        assert(rb.last() == b[0]);
        lemma_lev_reverse(af, bf);
        lemma_lev_reverse(af, b);
        lemma_lev_reverse(a, bf);
        lemma_lev_front(a, b);
    }
}

/// Between two starts `x <= x2` of substrings that end at `v`, one more
/// pattern symbol helps the earlier start at least as much as the later:
/// the longer substring gains no less from a longer pattern.
pub proof fn lemma_lev_starts_row(p: Seq<u16>, t: Seq<u16>, x: int, x2: int, v: int, i: int)
    requires
        0 <= x <= x2 <= v <= t.len(),
        1 <= i <= p.len(),
    ensures
        lev(p.take(i), t.subrange(x, v)) + lev(p.take(i - 1), t.subrange(x2, v)) <= lev(
            p.take(i - 1),
            t.subrange(x, v),
        ) + lev(p.take(i), t.subrange(x2, v)),
    decreases i + v, 0int,
{
    let a = p.take(i);
    let a1 = p.take(i - 1);
    assert(a.drop_last() =~= a1);
    assert(a.last() == p[i - 1]);
    if v > x2 {
        let c = sub_cost(p[i - 1], t[v - 1]);
        assert(t.subrange(x, v).drop_last() =~= t.subrange(x, v - 1));
        assert(t.subrange(x2, v).drop_last() =~= t.subrange(x2, v - 1));
        assert(t.subrange(x, v).last() == t[v - 1]);
        assert(t.subrange(x2, v).last() == t[v - 1]);
        assert(lev(a, t.subrange(x, v)) == least3(
            lev(a1, t.subrange(x, v - 1)) + c,
            lev(a1, t.subrange(x, v)) + 1,
            lev(a, t.subrange(x, v - 1)) + 1,
        ));
        assert(lev(a, t.subrange(x2, v)) == least3(
            lev(a1, t.subrange(x2, v - 1)) + c,
            lev(a1, t.subrange(x2, v)) + 1,
            lev(a, t.subrange(x2, v - 1)) + 1,
        ));
        lemma_lev_starts_column(p, t, x, x2, v - 1, i - 1);
        lemma_lev_starts_row(p, t, x, x2, v - 1, i);
    } else {
        assert(t.subrange(x2, v).len() == 0);
        if v > x {
            assert(t.subrange(x, v).len() > 0);
        } else {
            assert(t.subrange(x, v).len() == 0);
        }
    }
}

/// Between two starts `x <= x2`, one more text symbol at the end helps the
/// later start at least as much as the earlier.
pub proof fn lemma_lev_starts_column(p: Seq<u16>, t: Seq<u16>, x: int, x2: int, v: int, i: int)
    requires
        0 <= x <= x2 <= v < t.len(),
        0 <= i <= p.len(),
    ensures
        lev(p.take(i), t.subrange(x, v)) + lev(p.take(i), t.subrange(x2, v + 1)) <= lev(
            p.take(i),
            t.subrange(x, v + 1),
        ) + lev(p.take(i), t.subrange(x2, v)),
    decreases i + v, 1int,
{
    let a = p.take(i);
    if i == 0 {
        assert(a.len() == 0);
    } else {
        let a1 = p.take(i - 1);
        let c = sub_cost(p[i - 1], t[v]);
        assert(a.drop_last() =~= a1);
        assert(a.last() == p[i - 1]);
        assert(t.subrange(x, v + 1).drop_last() =~= t.subrange(x, v));
        assert(t.subrange(x2, v + 1).drop_last() =~= t.subrange(x2, v));
        assert(t.subrange(x, v + 1).last() == t[v]);
        assert(t.subrange(x2, v + 1).last() == t[v]);
        assert(lev(a, t.subrange(x, v + 1)) == least3(
            lev(a1, t.subrange(x, v)) + c,
            lev(a1, t.subrange(x, v + 1)) + 1,
            lev(a, t.subrange(x, v)) + 1,
        ));
        assert(lev(a, t.subrange(x2, v + 1)) == least3(
            lev(a1, t.subrange(x2, v)) + c,
            lev(a1, t.subrange(x2, v + 1)) + 1,
            lev(a, t.subrange(x2, v)) + 1,
        ));
        lemma_lev_starts_row(p, t, x, x2, v, i);
        lemma_lev_starts_column(p, t, x, x2, v, i - 1);
    }
}

/// Two substrings that overlap, swapped at their ends: the substring from
/// the earlier start to the earlier end and the one from the later start to
/// the later end are together no farther from the pattern than the two that
/// reach from the earlier start to the later end and from the later start
/// to the earlier end.
pub proof fn lemma_lev_crossing(p: Seq<u16>, t: Seq<u16>, x: int, x2: int, y: int, y2: int)
    requires
        0 <= x <= x2 <= y <= y2 <= t.len(),
    ensures
        lev(p, t.subrange(x, y)) + lev(p, t.subrange(x2, y2)) <= lev(p, t.subrange(x, y2)) + lev(
            p,
            t.subrange(x2, y),
        ),
    decreases y2 - y,
{
    if y < y2 {
        assert(p.take(p.len() as int) =~= p);
        lemma_lev_crossing(p, t, x, x2, y, y2 - 1);
        lemma_lev_starts_column(p, t, x, x2, y2 - 1, p.len() as int);
    }
}

} // verus!
