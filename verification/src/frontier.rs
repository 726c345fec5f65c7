//! Why the scan is right: the blocks in use hold the column of the table
//! wherever the table is within the budget, and past the frontier the table
//! is above the budget.

use vstd::prelude::*;
use crate::best::{best_ends, lemma_running_step, running_budget, running_ends};
use crate::bits::{bit, lemma_low_bit};
use crate::block::{
    cost, lemma_block_column, lemma_vsum_bounds, lemma_vsum_fresh, least3, vsum, BlockState,
};
use crate::distance::{
    cell, lemma_cell_down, lemma_cell_is_ending_distance, lemma_cell_left, sub_cost,
};
use crate::pattern::{block_count, lemma_mask_words_bit, mask_words};
use crate::scan::{
    block_rows, column, enter_block, grows, initial_state, last_row_mask, scan,
    scan_ends, shrink, step_block, sweep, EndPoint, ScanState,
};
use crate::shape::{
    base, blocks_shaped, lemma_block_geometry, lemma_column_shape, lemma_enter_shape,
    lemma_scan_shape, lemma_shrink_range, lemma_sweep_shape, shaped, slack,
};

verus! {

/// The last pattern row of block `b`, counted from 1.
pub open spec fn row_end(m: nat, b: int) -> int {
    64 * b + block_rows(m, b)
}

/// The value that the blocks hold for row `i` of the column, rows counted
/// from 1 and row 0 the boundary above the pattern.
#[verifier::opaque]
pub open spec fn col(blocks: Seq<BlockState>, i: int) -> int {
    if i <= 0 {
        0
    } else {
        let b = (i - 1) / 64;
        base(blocks, b) + vsum(blocks[b].plus_v, blocks[b].minus_v, ((i - 1) % 64 + 1) as nat)
    }
}

/// Whether the match vector `masks` has the bit of pattern row `i` set.
pub open spec fn eq_at(masks: Seq<u64>, i: int) -> bool {
    bit(masks[(i - 1) / 64], ((i - 1) % 64) as u64)
}

/// Column `a` follows the table's column `j` up to row `n`: it is nowhere
/// below the table, and equal to it wherever the table is within `budget`.
pub open spec fn follows(a: Seq<int>, p: Seq<u16>, t: Seq<u16>, j: int, budget: int, n: int)
    -> bool {
    &&& a.len() > n
    &&& forall|i: int|
        0 <= i <= n ==> #[trigger] a[i] >= cell(p, t, i, j) && (cell(p, t, i, j) <= budget
            ==> a[i] == cell(p, t, i, j))
}

/// Row `i` of column `c` comes from column `a` by the recurrence of the
/// table for text symbol `x`.
pub open spec fn step_at(c: Seq<int>, a: Seq<int>, p: Seq<u16>, x: u16, i: int) -> bool {
    c[i] == least3(a[i - 1] + sub_cost(p[i - 1], x), c[i - 1] + 1, a[i] + 1)
}

/// Column `c` comes from column `a` by the recurrence of the table for text
/// symbol `x`, up to row `n`.
pub open spec fn steps(c: Seq<int>, a: Seq<int>, p: Seq<u16>, x: u16, n: int) -> bool {
    &&& c.len() > n
    &&& a.len() > n
    &&& c[0] == 0
    &&& forall|i: int| 1 <= i <= n ==> #[trigger] step_at(c, a, p, x, i)
}

/// Row `i` of the blocks `bs` comes from the rows of `blocks` by the
/// recurrence of the table with cost `c`.
pub open spec fn col_step_at(bs: Seq<BlockState>, blocks: Seq<BlockState>, c: int, i: int) -> bool {
    col(bs, i) == least3(col(blocks, i - 1) + c, col(bs, i - 1) + 1, col(blocks, i) + 1)
}

/// A column that follows the table, stepped by the recurrence, follows the
/// table's next column.
pub proof fn lemma_follows_step(
    a: Seq<int>,
    c: Seq<int>,
    p: Seq<u16>,
    t: Seq<u16>,
    j: int,
    budget: int,
    n: int,
)
    requires
        1 <= j <= t.len(),
        0 <= n <= p.len(),
        follows(a, p, t, j - 1, budget, n),
        steps(c, a, p, t[j - 1], n),
    ensures
        follows(c, p, t, j, budget, n),
    decreases n,
{
    reveal(cell);
    if n > 0 {
        lemma_follows_step(a, c, p, t, j, budget, n - 1);
        assert(step_at(c, a, p, t[j - 1], n));
        assert(a[n] >= cell(p, t, n, j - 1));
        assert(a[n - 1] >= cell(p, t, n - 1, j - 1));
        assert(c[n - 1] >= cell(p, t, n - 1, j));
    }
}

/// Past a row `lo` where the table's column `j - 1` is above the budget from
/// `lo` on and column `j` is not below the budget at `lo`, column `j` is
/// above the budget.
pub proof fn lemma_beyond(p: Seq<u16>, t: Seq<u16>, j: int, budget: int, lo: int, i: int)
    requires
        1 <= j,
        0 <= lo < i,
        forall|r: int| lo <= r <= i ==> #[trigger] cell(p, t, r, j - 1) > budget,
        cell(p, t, lo, j) >= budget,
    ensures
        cell(p, t, i, j) > budget,
    decreases i,
{
    reveal(cell);
    if i - 1 > lo {
        lemma_beyond(p, t, j, budget, lo, i - 1);
    }
    assert(cell(p, t, i - 1, j - 1) > budget);
    assert(cell(p, t, i, j - 1) > budget);
}

/// Over `d` rows the table rises by at most `d`.
pub proof fn lemma_cell_down_many(p: Seq<u16>, t: Seq<u16>, i: int, j: int, d: int)
    requires
        0 <= i,
        0 <= j,
        0 <= d,
    ensures
        cell(p, t, i + d, j) <= cell(p, t, i, j) + d,
    decreases d,
{
    if d > 0 {
        lemma_cell_down_many(p, t, i, j, d - 1);
        lemma_cell_down(p, t, i + d, j);
    }
}

/// The rows of the blocks that a sweep has passed hold the recurrence of the
/// table over the rows they held before, with the bits of the match vector
/// as costs.
pub proof fn lemma_sweep_column(blocks: Seq<BlockState>, masks: Seq<u64>, m: nat, y: int, n: nat)
    requires
        blocks_shaped(blocks, m, y),
        masks.len() == block_count(m),
        n <= y + 1,
        forall|b: int| 0 <= b <= y ==> #[trigger] slack(blocks, m, b) == 0,
    ensures
        ({
            let (bs, carry) = sweep(blocks, masks, m, n);
            &&& forall|b: int| 0 <= b < n ==> #[trigger] slack(bs, m, b) == 0
            &&& forall|i: int|
                1 <= i && n >= 1 && i <= row_end(m, n - 1) ==> #[trigger] col_step_at(
                    bs,
                    blocks,
                    cost(eq_at(masks, i)),
                    i,
                )
        }),
    decreases n,
{
    reveal(col);
    lemma_sweep_shape(blocks, masks, m, y, n);
    if n > 0 {
        let (bs0, carry0) = sweep(blocks, masks, m, (n - 1) as nat);
        lemma_sweep_column(blocks, masks, m, y, (n - 1) as nat);
        lemma_sweep_shape(blocks, masks, m, y, (n - 1) as nat);
        let b = n - 1;
        let (s, h) = step_block(bs0[b], last_row_mask(m, b), masks[b], carry0);
        let bs = bs0.update(b, s);
        assert(sweep(blocks, masks, m, n) == (bs, h));
        let pv = blocks[b].plus_v;
        let mv = blocks[b].minus_v;
        assert(bs0[b] == blocks[b]);
        lemma_block_geometry(m, b);
        assert(slack(blocks, m, b) == 0);
        assert(base(bs, b) == base(blocks, b) + carry0);
        if b > 0 {
            lemma_block_geometry(m, b - 1);
            assert(slack(blocks, m, b - 1) == 0);
            assert(slack(bs, m, b - 1) == 0);
            assert(block_rows(m, b - 1) == 64);
        }
        assert forall|i: int| 1 <= i <= row_end(m, b) implies #[trigger] col_step_at(
            bs,
            blocks,
            cost(eq_at(masks, i)),
            i,
        ) by {
            if i <= 64 * b {
                assert(b >= 1);
                lemma_block_geometry(m, b - 1);
                assert(i <= row_end(m, b - 1));
                assert(col_step_at(bs0, blocks, cost(eq_at(masks, i)), i));
                let bi = (i - 1) / 64;
                assert(bi < b);
                assert(bs[bi] == bs0[bi]);
                assert(base(bs, bi) == base(bs0, bi));
                assert(col(bs, i) == col(bs0, i));
                if i - 1 >= 1 {
                    let bj = (i - 2) / 64;
                    assert(bs[bj] == bs0[bj]);
                    assert(base(bs, bj) == base(bs0, bj));
                }
                assert(col(bs, i - 1) == col(bs0, i - 1));
            } else {
                let r = (i - 64 * b) as nat;
                assert((i - 1) / 64 == b);
                assert((i - 1) % 64 + 1 == r);
                lemma_block_column(pv, mv, masks[b], carry0, r);
                assert(col(bs, i) == base(bs, b) + vsum(s.plus_v, s.minus_v, r));
                assert(col(blocks, i) == base(blocks, b) + vsum(pv, mv, r));
                assert(eq_at(masks, i) == bit(masks[b], (r - 1) as u64));
                if r >= 2 {
                    assert((i - 2) / 64 == b);
                    assert((i - 2) % 64 + 1 == r - 1);
                    assert(col(blocks, i - 1) == base(blocks, b) + vsum(pv, mv, (r - 1) as nat));
                    assert(col(bs, i - 1) == base(bs, b) + vsum(
                        s.plus_v,
                        s.minus_v,
                        (r - 1) as nat,
                    ));
                } else {
                    assert(vsum(pv, mv, 0) == 0);
                    assert(vsum(s.plus_v, s.minus_v, 0) == 0);
                    if b > 0 {
                        assert((i - 2) / 64 == b - 1);
                        assert((i - 2) % 64 + 1 == 64);
                        assert(bs[b - 1] == bs0[b - 1]);
                        assert(col(blocks, i - 1) == base(blocks, b - 1) + vsum(
                            blocks[b - 1].plus_v,
                            blocks[b - 1].minus_v,
                            64,
                        ));
                        assert(col(blocks, i - 1) == base(blocks, b));
                        assert(col(bs, i - 1) == base(bs, b - 1) + vsum(
                            bs[b - 1].plus_v,
                            bs[b - 1].minus_v,
                            64,
                        ));
                        assert(col(bs, i - 1) == base(bs, b));
                    } else {
                        assert(col(blocks, i - 1) == 0);
                        assert(col(bs, i - 1) == 0);
                    }
                }
            }
        }
    }
}

/// The blocks track the table's column `j`: the blocks in use hang together
/// without slack, their rows are nowhere below the table and equal to it
/// wherever the table is within the budget, and past the frontier the table
/// is above the budget.
pub open spec fn tracks(
    blocks: Seq<BlockState>,
    y: int,
    budget: int,
    p: Seq<u16>,
    t: Seq<u16>,
    j: int,
) -> bool {
    &&& forall|b: int| 0 <= b <= y ==> #[trigger] slack(blocks, p.len(), b) == 0
    &&& forall|i: int|
        0 <= i <= row_end(p.len(), y) ==> #[trigger] col(blocks, i) >= cell(p, t, i, j) && (cell(
            p,
            t,
            i,
            j,
        ) <= budget ==> col(blocks, i) == cell(p, t, i, j))
    &&& forall|i: int| row_end(p.len(), y) < i <= p.len() ==> #[trigger] cell(p, t, i, j) > budget
}

/// The score of a block without slack is the value of its last row.
pub proof fn lemma_col_row_end(bs: Seq<BlockState>, m: nat, b: int)
    requires
        m >= 1,
        0 <= b < block_count(m),
        slack(bs, m, b) == 0,
    ensures
        bs[b].score == col(bs, row_end(m, b)),
        col(bs, 0) == 0,
{
    reveal(col);
    lemma_block_geometry(m, b);
    let n = row_end(m, b);
    assert((n - 1) / 64 == b);
    assert((n - 1) % 64 + 1 == block_rows(m, b));
}

/// The cost that the match vector of the text symbol gives row `i` is that
/// of the table.
pub proof fn lemma_cost_at(p: Seq<u16>, x: u16, i: int)
    requires
        1 <= i <= p.len(),
    ensures
        cost(eq_at(mask_words(p, x), i)) == sub_cost(p[i - 1], x),
{
    lemma_mask_words_bit(p, x, (i - 1) / 64, ((i - 1) % 64) as u64);
}

/// After the sweep over the blocks in use, their rows follow the table's
/// next column.
pub proof fn lemma_swept_tracks(
    blocks: Seq<BlockState>,
    y: int,
    budget: int,
    p: Seq<u16>,
    t: Seq<u16>,
    j: int,
)
    requires
        1 <= j <= t.len(),
        blocks_shaped(blocks, p.len(), y),
        tracks(blocks, y, budget, p, t, j - 1),
    ensures
        ({
            let masks = mask_words(p, t[j - 1]);
            let (bs, carry) = sweep(blocks, masks, p.len(), (y + 1) as nat);
            let n = row_end(p.len(), y);
            &&& forall|b: int| 0 <= b <= y ==> #[trigger] slack(bs, p.len(), b) == 0
            &&& forall|i: int|
                0 <= i <= n ==> #[trigger] col(bs, i) >= cell(p, t, i, j) && (cell(p, t, i, j)
                    <= budget ==> col(bs, i) == cell(p, t, i, j))
            &&& forall|i: int|
                1 <= i <= n ==> #[trigger] col_step_at(bs, blocks, sub_cost(p[i - 1], t[j - 1]), i)
            &&& bs[y].score == col(bs, n)
            &&& blocks[y].score == col(blocks, n)
            &&& carry == col(bs, n) - col(blocks, n)
        }),
{
    let m = p.len();
    let masks = mask_words(p, t[j - 1]);
    lemma_mask_words_bit(p, t[j - 1], 0, 0);
    let (bs, carry) = sweep(blocks, masks, m, (y + 1) as nat);
    let n = row_end(m, y);
    lemma_block_geometry(m, y);
    lemma_sweep_shape(blocks, masks, m, y, (y + 1) as nat);
    lemma_sweep_column(blocks, masks, m, y, (y + 1) as nat);
    let a = Seq::new((n + 1) as nat, |i: int| col(blocks, i));
    let c = Seq::new((n + 1) as nat, |i: int| col(bs, i));
    lemma_col_row_end(bs, m, y);
    lemma_col_row_end(blocks, m, y);
    assert forall|i: int| 1 <= i <= n implies #[trigger] col_step_at(
        bs,
        blocks,
        sub_cost(p[i - 1], t[j - 1]),
        i,
    ) by {
        lemma_cost_at(p, t[j - 1], i);
        assert(col_step_at(bs, blocks, cost(eq_at(masks, i)), i));
    }
    assert(follows(a, p, t, j - 1, budget, n)) by {
        assert forall|i: int| 0 <= i <= n implies #[trigger] a[i] >= cell(p, t, i, j - 1) && (
        cell(p, t, i, j - 1) <= budget ==> a[i] == cell(p, t, i, j - 1)) by {
            assert(a[i] == col(blocks, i));
        }
    }
    assert(steps(c, a, p, t[j - 1], n)) by {
        assert forall|i: int| 1 <= i <= n implies #[trigger] step_at(c, a, p, t[j - 1], i) by {
            assert(col_step_at(bs, blocks, sub_cost(p[i - 1], t[j - 1]), i));
        }
    }
    lemma_follows_step(a, c, p, t, j, budget, n);
    assert forall|i: int| 0 <= i <= n implies #[trigger] col(bs, i) >= cell(p, t, i, j) && (cell(
        p,
        t,
        i,
        j,
    ) <= budget ==> col(bs, i) == cell(p, t, i, j)) by {
        assert(c[i] == col(bs, i));
    }
}

/// The rows of a block that the frontier enters hold the recurrence of the
/// table over a column that rises by one per row from the last row in use
/// before.
pub proof fn lemma_entered_column(
    bs: Seq<BlockState>,
    carry: int,
    y1: int,
    masks: Seq<u64>,
    m: nat,
    r: nat,
)
    requires
        m >= 1,
        bs.len() == block_count(m),
        masks.len() == block_count(m),
        1 <= y1 < block_count(m),
        -1 <= carry <= 1,
        1 <= r <= block_rows(m, y1),
    ensures
        ({
            let bs2 = bs.update(y1, enter_block(bs, carry, y1, masks, m));
            let i = 64 * y1 + r;
            let top = bs[y1 - 1].score;
            &&& col(bs2, i) == least3(
                top - carry + (r - 1) + cost(eq_at(masks, i)),
                top + vsum(bs2[y1].plus_v, bs2[y1].minus_v, (r - 1) as nat) + 1,
                top - carry + r + 1,
            )
            &&& col(bs2, i) == top + vsum(bs2[y1].plus_v, bs2[y1].minus_v, r)
            &&& r >= 2 ==> col(bs2, i - 1) == top + vsum(
                bs2[y1].plus_v,
                bs2[y1].minus_v,
                (r - 1) as nat,
            )
            &&& vsum(bs2[y1].plus_v, bs2[y1].minus_v, 0) == 0
        }),
{
    reveal(col);
    let s = enter_block(bs, carry, y1, masks, m);
    let bs2 = bs.update(y1, s);
    let i = 64 * y1 + r;
    lemma_block_geometry(m, y1);
    crate::bits::lemma_fresh_disjoint();
    lemma_block_column(!0u64, 0u64, masks[y1], carry, r);
    lemma_vsum_fresh(r);
    lemma_vsum_fresh((r - 1) as nat);
    assert((i - 1) / 64 == y1);
    assert((i - 1) % 64 + 1 == r);
    assert(base(bs2, y1) == bs[y1 - 1].score);
    assert(eq_at(masks, i) == bit(masks[y1], (r - 1) as u64));
    assert(vsum(s.plus_v, s.minus_v, 0) == 0);
    if r >= 2 {
        assert((i - 2) / 64 == y1);
        assert((i - 2) % 64 + 1 == r - 1);
    }
}

/// Rows above a block do not change when that block is replaced.
pub proof fn lemma_col_above(bs: Seq<BlockState>, y1: int, s: BlockState, i: int)
    requires
        0 <= y1 < bs.len(),
        i <= 64 * y1,
    ensures
        col(bs.update(y1, s), i) == col(bs, i),
{
    reveal(col);
    if i >= 1 {
        let bi = (i - 1) / 64;
        assert(bi < y1);
        assert(bs.update(y1, s)[bi] == bs[bi]);
        assert(base(bs.update(y1, s), bi) == base(bs, bi));
    }
}

/// The column that a block is entered on: the rows in use as they were, and
/// below them one more per row.
pub open spec fn entry_column(blocks: Seq<BlockState>, n: int, n1: int) -> Seq<int> {
    Seq::new(
        (n1 + 1) as nat,
        |i: int|
            if i <= n {
                col(blocks, i)
            } else {
                col(blocks, n) + (i - n)
            },
    )
}

/// The column that a block is entered on follows the table, where the last
/// row in use stands at the budget and the table is above it further down.
pub proof fn lemma_entry_follows(
    blocks: Seq<BlockState>,
    p: Seq<u16>,
    t: Seq<u16>,
    j: int,
    budget: int,
    n: int,
    n1: int,
)
    requires
        0 <= j,
        0 <= n <= n1 <= p.len(),
        forall|i: int|
            0 <= i <= n ==> #[trigger] col(blocks, i) >= cell(p, t, i, j) && (cell(p, t, i, j)
                <= budget ==> col(blocks, i) == cell(p, t, i, j)),
        forall|i: int| n < i <= p.len() ==> #[trigger] cell(p, t, i, j) > budget,
        col(blocks, n) == cell(p, t, n, j),
    ensures
        follows(entry_column(blocks, n, n1), p, t, j, budget, n1),
{
    let a2 = entry_column(blocks, n, n1);
    assert forall|i: int| 0 <= i <= n1 implies #[trigger] a2[i] >= cell(p, t, i, j) && (cell(
        p,
        t,
        i,
        j,
    ) <= budget ==> a2[i] == cell(p, t, i, j)) by {
        if i <= n {
            assert(a2[i] == col(blocks, i));
        } else {
            lemma_cell_down_many(p, t, n, j, i - n);
            assert(cell(p, t, i, j) > budget);
        }
    }
}

/// Where the table's column `j - 1` is above the budget from row `lo` on
/// and column `j` is not below the budget at `lo`, column `j` is above the
/// budget past `lo`.
pub proof fn lemma_beyond_all(p: Seq<u16>, t: Seq<u16>, j: int, budget: int, lo: int)
    requires
        1 <= j,
        0 <= lo,
        forall|r: int| lo <= r <= p.len() ==> #[trigger] cell(p, t, r, j - 1) > budget,
        cell(p, t, lo, j) >= budget,
    ensures
        forall|i: int| lo < i <= p.len() ==> #[trigger] cell(p, t, i, j) > budget,
{
    assert forall|i: int| lo < i <= p.len() implies #[trigger] cell(p, t, i, j) > budget by {
        lemma_beyond(p, t, j, budget, lo, i);
    }
}

/// Where the frontier enters the next block, the blocks track the table's
/// next column with that block in use.
pub proof fn lemma_grow_tracks(
    blocks: Seq<BlockState>,
    y: int,
    budget: int,
    p: Seq<u16>,
    t: Seq<u16>,
    j: int,
)
    requires
        1 <= j <= t.len(),
        blocks_shaped(blocks, p.len(), y),
        tracks(blocks, y, budget, p, t, j - 1),
        ({
            let masks = mask_words(p, t[j - 1]);
            let (bs, carry) = sweep(blocks, masks, p.len(), (y + 1) as nat);
            grows(bs, carry, y, budget, masks, p.len())
        }),
    ensures
        ({
            let masks = mask_words(p, t[j - 1]);
            let (bs, carry) = sweep(blocks, masks, p.len(), (y + 1) as nat);
            let bs2 = bs.update(y + 1, enter_block(bs, carry, y + 1, masks, p.len()));
            tracks(bs2, y + 1, budget, p, t, j)
        }),
{
    let m = p.len();
    let x = t[j - 1];
    let masks = mask_words(p, x);
    lemma_mask_words_bit(p, x, 0, 0);
    let (bs, carry) = sweep(blocks, masks, m, (y + 1) as nat);
    let y1 = y + 1;
    let s = enter_block(bs, carry, y1, masks, m);
    let bs2 = bs.update(y1, s);
    let n = row_end(m, y);
    let n1 = row_end(m, y1);
    lemma_block_geometry(m, y);
    lemma_block_geometry(m, y1);
    lemma_sweep_shape(blocks, masks, m, y, (y + 1) as nat);
    lemma_swept_tracks(blocks, y, budget, p, t, j);
    lemma_enter_shape(bs, carry, y1, masks, m);
    let rows1 = block_rows(m, y1);
    assert(n == 64 * y1);
    assert(n1 == n + rows1);
    // The old column stands at the budget in the last row in use.
    assert(col(blocks, n) == budget && cell(p, t, n, j - 1) == budget) by {
        assert(cell(p, t, n + 1, j - 1) > budget);
        lemma_cell_down(p, t, n + 1, j - 1);
        assert(col(blocks, n) >= cell(p, t, n, j - 1));
    }
    let a2 = entry_column(blocks, n, n1);
    let c2 = Seq::new((n1 + 1) as nat, |i: int| col(bs2, i));
    lemma_entry_follows(blocks, p, t, j - 1, budget, n, n1);
    assert(c2[0] == 0) by {
        lemma_col_above(bs, y1, s, 0);
        lemma_col_row_end(bs, m, y);
    }
    assert(steps(c2, a2, p, x, n1)) by {
        assert forall|i: int| 1 <= i <= n1 implies #[trigger] step_at(c2, a2, p, x, i) by {
            assert(c2[i] == col(bs2, i));
            assert(c2[i - 1] == col(bs2, i - 1));
            if i <= n {
                lemma_col_above(bs, y1, s, i);
                lemma_col_above(bs, y1, s, i - 1);
                assert(col_step_at(bs, blocks, sub_cost(p[i - 1], x), i));
            } else {
                let r = (i - n) as nat;
                lemma_cost_at(p, x, i);
                lemma_entered_column(bs, carry, y1, masks, m, r);
                if r == 1 {
                    lemma_col_above(bs, y1, s, n);
                    lemma_col_row_end(bs, m, y);
                }
            }
        }
    }
    lemma_follows_step(a2, c2, p, t, j, budget, n1);
    assert forall|i: int| 0 <= i <= n1 implies #[trigger] col(bs2, i) >= cell(p, t, i, j) && (cell(
        p,
        t,
        i,
        j,
    ) <= budget ==> col(bs2, i) == cell(p, t, i, j)) by {
        assert(c2[i] == col(bs2, i));
    }
    assert forall|b: int| 0 <= b <= y1 implies #[trigger] slack(bs2, m, b) == 0 by {
        if b <= y {
            assert(bs2[b] == bs[b]);
            assert(base(bs2, b) == base(bs, b));
            assert(slack(bs, m, b) == 0);
        }
    }
    assert(cell(p, t, n + 1, j) >= budget) by {
        reveal(cell);
        lemma_cell_left(p, t, n, j);
        assert(cell(p, t, n + 1, j - 1) > budget);
    }
    lemma_beyond_all(p, t, j, budget, n + 1);
}

/// The table's next column is above the budget in the first row past the
/// frontier, where the frontier does not enter the next block: `v_old` and
/// `v_new` are what the blocks hold in the last row in use before and after
/// the sweep.
pub proof fn lemma_no_entry(
    p: Seq<u16>,
    t: Seq<u16>,
    j: int,
    n: int,
    budget: int,
    v_old: int,
    v_new: int,
)
    requires
        1 <= j <= t.len(),
        0 <= n < p.len(),
        cell(p, t, n + 1, j - 1) > budget,
        v_old >= cell(p, t, n, j - 1),
        cell(p, t, n, j - 1) <= budget ==> v_old == cell(p, t, n, j - 1),
        v_new >= cell(p, t, n, j),
        cell(p, t, n, j) <= budget ==> v_new == cell(p, t, n, j),
        !(v_old <= budget && (p[n] == t[j - 1] || v_new - v_old < 0)),
    ensures
        cell(p, t, n + 1, j) > budget,
{
    reveal(cell);
    lemma_cell_down(p, t, n + 1, j - 1);
    lemma_cell_left(p, t, n, j);
}

/// Every row of a block in use whose score is 64 above the budget is above
/// the budget.
pub proof fn lemma_dropped_rows(bs: Seq<BlockState>, m: nat, b: int, budget: int, i: int)
    requires
        m >= 1,
        0 <= b < block_count(m),
        bs.len() == block_count(m),
        slack(bs, m, b) == 0,
        bs[b].score >= budget + 64,
        64 * b < i <= row_end(m, b),
    ensures
        col(bs, i) > budget,
{
    reveal(col);
    let r = ((i - 1) % 64 + 1) as nat;
    assert((i - 1) / 64 == b);
    lemma_block_geometry(m, b);
    lemma_vsum_bounds(bs[b].plus_v, bs[b].minus_v, r, block_rows(m, b) as nat);
}

/// Where the frontier does not enter the next block, the blocks track the
/// table's next column with the frontier shrunk.
pub proof fn lemma_stay_tracks(
    blocks: Seq<BlockState>,
    y: int,
    budget: int,
    p: Seq<u16>,
    t: Seq<u16>,
    j: int,
)
    requires
        1 <= j <= t.len(),
        blocks_shaped(blocks, p.len(), y),
        tracks(blocks, y, budget, p, t, j - 1),
        ({
            let masks = mask_words(p, t[j - 1]);
            let (bs, carry) = sweep(blocks, masks, p.len(), (y + 1) as nat);
            !grows(bs, carry, y, budget, masks, p.len())
        }),
    ensures
        ({
            let masks = mask_words(p, t[j - 1]);
            let (bs, carry) = sweep(blocks, masks, p.len(), (y + 1) as nat);
            tracks(bs, shrink(bs, y, budget), budget, p, t, j)
        }),
{
    let m = p.len();
    let x = t[j - 1];
    let masks = mask_words(p, x);
    lemma_mask_words_bit(p, x, 0, 0);
    let (bs, carry) = sweep(blocks, masks, m, (y + 1) as nat);
    let n = row_end(m, y);
    lemma_block_geometry(m, y);
    lemma_sweep_shape(blocks, masks, m, y, (y + 1) as nat);
    lemma_swept_tracks(blocks, y, budget, p, t, j);
    let y2 = shrink(bs, y, budget);
    lemma_shrink_range(bs, y, budget);
    lemma_block_geometry(m, y2);
    if y < block_count(m) - 1 {
        assert(cell(p, t, n + 1, j) > budget) by {
            assert(cell(p, t, n + 1, j - 1) > budget);
            lemma_low_bit(masks[y + 1]);
            lemma_mask_words_bit(p, x, y + 1, 0);
            assert(col(blocks, n) >= cell(p, t, n, j - 1));
            assert(col(bs, n) >= cell(p, t, n, j));
            lemma_no_entry(p, t, j, n, budget, col(blocks, n), col(bs, n));
        }
        lemma_beyond_all(p, t, j, budget, n + 1);
    }
    assert forall|i: int| row_end(m, y2) < i <= m implies #[trigger] cell(p, t, i, j) > budget by {
        if i <= n {
            let b = (i - 1) / 64;
            assert(y2 < b <= y);
            assert(bs[b].score >= budget + 64);
            assert(slack(bs, m, b) == 0);
            lemma_block_geometry(m, b);
            lemma_dropped_rows(bs, m, b, budget, i);
            assert(col(bs, i) > budget);
        }
    }
}

/// One more text symbol keeps the blocks on the table's column, and the
/// scan collects the new end exactly where the table's last row is within
/// the budget.
pub proof fn lemma_column_tracks(st: ScanState, p: Seq<u16>, t: Seq<u16>, j: int)
    requires
        1 <= j <= t.len(),
        shaped(st, p.len(), (j - 1) as nat),
        tracks(st.blocks, st.frontier, st.budget, p, t, j - 1),
    ensures
        ({
            let next = column(st, mask_words(p, t[j - 1]), p.len(), j as nat);
            let d = cell(p, t, p.len() as int, j);
            let kept = if d < st.budget {
                Seq::<EndPoint>::empty()
            } else {
                st.ends
            };
            &&& tracks(next.blocks, next.frontier, next.budget, p, t, j)
            &&& d <= st.budget ==> next.budget == d && next.ends == kept.push(
                EndPoint { end: j as nat, score: d },
            )
            &&& d > st.budget ==> next.budget == st.budget && next.ends == st.ends
        }),
{
    let m = p.len();
    let masks = mask_words(p, t[j - 1]);
    lemma_mask_words_bit(p, t[j - 1], 0, 0);
    let y = st.frontier;
    let (bs, carry) = sweep(st.blocks, masks, m, (y + 1) as nat);
    let next = column(st, masks, m, j as nat);
    lemma_column_shape(st, masks, m, j as nat);
    if grows(bs, carry, y, st.budget, masks, m) {
        lemma_grow_tracks(st.blocks, y, st.budget, p, t, j);
    } else {
        lemma_stay_tracks(st.blocks, y, st.budget, p, t, j);
    }
    let y2 = next.frontier;
    let bs2 = next.blocks;
    assert(tracks(bs2, y2, st.budget, p, t, j));
    lemma_block_geometry(m, y2);
    if y2 == block_count(m) - 1 {
        assert(slack(bs2, m, y2) == 0);
        lemma_col_row_end(bs2, m, y2);
        assert(bs2[y2].score == col(bs2, m as int));
    } else {
        assert(cell(p, t, m as int, j) > st.budget);
    }
}

/// Every state of a scan tracks the table, and holds the budget and the
/// ends that the least distances give; the budget is never below 0.
pub proof fn lemma_scan_tracks(p: Seq<u16>, t: Seq<u16>, k: nat, j: nat)
    requires
        p.len() >= 1,
        j <= t.len(),
    ensures
        ({
            let st = scan(p, t, k, j);
            &&& tracks(st.blocks, st.frontier, st.budget, p, t, j as int)
            &&& st.budget == running_budget(p, t, k, j as int)
            &&& st.ends == running_ends(p, t, k, j as int)
            &&& 0 <= st.budget <= p.len()
        }),
    decreases j,
{
    let m = p.len();
    lemma_scan_shape(p, t, k, j);
    if j >= 1 {
        let e = crate::best::lemma_least_ending(p, t, j as int);
        crate::best::lemma_ending_distance_range(p, t, e);
    }
    if j == 0 {
        let st = initial_state(m, k);
        let y = st.frontier;
        lemma_block_geometry(m, y);
        assert forall|i: int| row_end(m, y) < i <= m implies #[trigger] cell(p, t, i, 0)
            > st.budget by {
            reveal(cell);
        }
        assert forall|b: int| 0 <= b < block_count(m) implies #[trigger] slack(st.blocks, m, b)
            == 0 by {
            lemma_block_geometry(m, b);
            lemma_vsum_fresh(block_rows(m, b) as nat);
            if b > 0 {
                lemma_block_geometry(m, b - 1);
            }
        }
        assert forall|i: int| 0 <= i <= row_end(m, y) implies #[trigger] col(st.blocks, i) == cell(
            p,
            t,
            i,
            0,
        ) by {
            reveal(col);
            reveal(cell);
            if i >= 1 {
                let b = (i - 1) / 64;
                lemma_block_geometry(m, b);
                lemma_vsum_fresh(((i - 1) % 64 + 1) as nat);
                if b > 0 {
                    lemma_block_geometry(m, b - 1);
                }
            }
        }
    } else {
        let before = scan(p, t, k, (j - 1) as nat);
        lemma_scan_tracks(p, t, k, (j - 1) as nat);
        lemma_scan_shape(p, t, k, (j - 1) as nat);
        lemma_column_tracks(before, p, t, j as int);
        lemma_cell_is_ending_distance(p, t, j as int);
        lemma_running_step(p, t, k, j as int);
    }
}

/// The scan reports the ends of the substrings nearest to the pattern, if
/// they are within the budget.
pub proof fn lemma_scan_is_best(p: Seq<u16>, t: Seq<u16>, k: nat)
    ensures
        scan_ends(p, t, k) == best_ends(p, t, k),
{
    if p.len() > 0 {
        lemma_scan_tracks(p, t, k, t.len());
        if t.len() > 0 {
            let e = crate::best::lemma_least_ending(p, t, t.len() as int);
            crate::best::lemma_ending_distance_range(p, t, e);
        }
    }
}

} // verus!
