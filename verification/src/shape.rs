//! The shape that every state of a scan has: how the scores of the blocks
//! hang together, and the bounds that keep them within 32 bits.

use vstd::prelude::*;
use crate::bits::lemma_fresh_disjoint;
use crate::block::{
    lemma_block_column, lemma_h_out_row, lemma_step_disjoint, lemma_vsum_bounds,
    lemma_vsum_fresh, vsum, BlockState,
};
use crate::pattern::{block_count, lemma_mask_words_bit, mask_words};
use crate::scan::{
    block_rows, column, enter_block, grows, initial_state, last_row_mask,
    scan, shrink, step_block, sweep, ScanState,
};

verus! {

/// The value above the first row of block `b`: the score of the block above.
pub open spec fn base(blocks: Seq<BlockState>, b: int) -> int {
    if b <= 0 {
        0
    } else {
        blocks[b - 1].score
    }
}

/// By how much the score of block `b` falls short of what the block above
/// and its own vertical differences add up to.
pub open spec fn slack(blocks: Seq<BlockState>, m: nat, b: int) -> int {
    base(blocks, b) + vsum(blocks[b].plus_v, blocks[b].minus_v, block_rows(m, b) as nat)
        - blocks[b].score
}

/// The least score that block `b` can show.
pub open spec fn score_floor(m: nat, b: int) -> int {
    -64 * (b + 1)
}

/// The blocks of a scan hang together: the vertical words of each block are
/// disjoint, the score of each block in use is that of the block above plus
/// its vertical differences, and no score is further from 0 than the block
/// has rows above its end.
pub open spec fn blocks_shaped(blocks: Seq<BlockState>, m: nat, y: int) -> bool {
    &&& m >= 1
    &&& blocks.len() == block_count(m)
    &&& 0 <= y < block_count(m)
    &&& forall|b: int|
        0 <= b < block_count(m) ==> (#[trigger] blocks[b]).plus_v & blocks[b].minus_v == 0
    &&& forall|b: int|
        0 <= b <= y ==> #[trigger] slack(blocks, m, b) == 0
    &&& forall|b: int|
        0 <= b < block_count(m) ==> score_floor(m, b) <= (#[trigger] blocks[b]).score <= 64 * (b + 1)
}

/// The shape of a scan after `j` text symbols: the blocks hang together,
/// the budget is within bounds, and the ends collected lie in the text read
/// so far, come by increasing end and all have the budget as their score.
pub open spec fn shaped(st: ScanState, m: nat, j: nat) -> bool {
    &&& blocks_shaped(st.blocks, m, st.frontier)
    &&& -(m + 64) <= st.budget <= m
    &&& forall|i: int|
        0 <= i < st.ends.len() ==> 1 <= (#[trigger] st.ends[i]).end <= j && st.ends[i].score
            == st.budget
    &&& forall|i: int, i2: int|
        0 <= i < i2 < st.ends.len() ==> (#[trigger] st.ends[i]).end < (#[trigger] st.ends[i2]).end
}

/// The rows of the blocks: between 1 and 64 each, and together the pattern.
pub proof fn lemma_block_geometry(m: nat, b: int)
    requires
        m >= 1,
        0 <= b < block_count(m),
    ensures
        1 <= block_rows(m, b) <= 64,
        64 * b + block_rows(m, b) <= m,
        b == block_count(m) - 1 ==> 64 * b + block_rows(m, b) == m,
        b < block_count(m) - 1 ==> 64 * (b + 1) < m,
        64 * block_count(m) < m + 64,
{
}

/// What a sweep over the first `n` blocks leaves: the later blocks as they
/// were, the earlier ones in shape, and as `carry` the change of the score
/// of the last block swept.
pub proof fn lemma_sweep_shape(blocks: Seq<BlockState>, masks: Seq<u64>, m: nat, y: int, n: nat)
    requires
        blocks_shaped(blocks, m, y),
        masks.len() == block_count(m),
        n <= y + 1,
    ensures
        ({
            let (bs, carry) = sweep(blocks, masks, m, n);
            &&& bs.len() == blocks.len()
            &&& -1 <= carry <= 1
            &&& n > 0 ==> carry == bs[n - 1].score - blocks[n - 1].score
            &&& forall|b: int| n <= b < bs.len() ==> bs[b] == blocks[b]
            &&& forall|b: int|
                0 <= b < bs.len() ==> (#[trigger] bs[b]).plus_v & bs[b].minus_v == 0
            &&& forall|b: int| 0 <= b < n ==> #[trigger] slack(bs, m, b) == slack(blocks, m, b)
            &&& forall|b: int|
                0 <= b < bs.len() ==> score_floor(m, b) <= (#[trigger] bs[b]).score <= 64 * (b + 1)
        }),
    decreases n,
{
    if n > 0 {
        let (bs0, carry0) = sweep(blocks, masks, m, (n - 1) as nat);
        lemma_sweep_shape(blocks, masks, m, y, (n - 1) as nat);
        let b = n - 1;
        let (s, h) = step_block(bs0[b], last_row_mask(m, b), masks[b], carry0);
        let bs = bs0.update(b, s);
        let pv = bs0[b].plus_v;
        let mv = bs0[b].minus_v;
        lemma_block_geometry(m, b);
        let rows = block_rows(m, b) as nat;
        assert(bs0[b] == blocks[b]);
        lemma_step_disjoint(pv, mv, masks[b], carry0);
        lemma_block_column(pv, mv, masks[b], carry0, rows);
        lemma_h_out_row(pv, mv, masks[b], carry0, (rows - 1) as u64);
        lemma_vsum_bounds(s.plus_v, s.minus_v, 0, rows);
        assert(vsum(s.plus_v, s.minus_v, 0) == 0);
        assert(base(bs, b) == base(blocks, b) + carry0);
        assert(slack(bs, m, b) == slack(blocks, m, b));
        assert forall|c: int| 0 <= c < n implies #[trigger] slack(bs, m, c) == slack(
            blocks,
            m,
            c,
        ) by {
            if c < b {
                assert(slack(bs0, m, c) == slack(blocks, m, c));
                assert(bs[c] == bs0[c]);
                assert(base(bs, c) == base(bs0, c));
            }
        }
        assert(slack(blocks, m, b) == 0);
        if b > 0 {
            assert(score_floor(m, b - 1) <= bs[b - 1].score <= 64 * b);
        }
        assert(sweep(blocks, masks, m, n) == (bs, h));
        assert(-1 <= h <= 1);
        assert(h == bs[n - 1].score - blocks[n - 1].score);
        assert forall|c: int| n <= c < bs.len() implies bs[c] == blocks[c] by {
            assert(bs0[c] == blocks[c]);
        }
        assert forall|c: int| 0 <= c < bs.len() implies (#[trigger] bs[c]).plus_v & bs[c].minus_v
            == 0 by {
            if c != b {
                assert(bs[c] == bs0[c]);
            }
        }
        assert(score_floor(m, b) <= bs[b].score <= 64 * (b + 1));
        assert forall|c: int| 0 <= c < bs.len() implies score_floor(m, c) <= (#[trigger] bs[c]).score
            <= 64 * (c + 1) by {
            if c != b {
                assert(bs[c] == bs0[c]);
            }
        }
    }
}

/// A block entered by the frontier is in shape, and scores as the block
/// above plus its rows.
pub proof fn lemma_enter_shape(bs: Seq<BlockState>, carry: int, y: int, masks: Seq<u64>, m: nat)
    requires
        m >= 1,
        bs.len() == block_count(m),
        masks.len() == block_count(m),
        1 <= y < block_count(m),
        -1 <= carry <= 1,
        score_floor(m, y - 1) <= bs[y - 1].score <= 64 * y,
    ensures
        ({
            let s = enter_block(bs, carry, y, masks, m);
            let bs2 = bs.update(y, s);
            &&& s.plus_v & s.minus_v == 0
            &&& slack(bs2, m, y) == 0
            &&& score_floor(m, y) <= s.score <= 64 * (y + 1)
        }),
{
    let s = enter_block(bs, carry, y, masks, m);
    let bs2 = bs.update(y, s);
    lemma_block_geometry(m, y);
    let rows = block_rows(m, y) as nat;
    lemma_fresh_disjoint();
    lemma_step_disjoint(!0u64, 0u64, masks[y], carry);
    lemma_block_column(!0u64, 0u64, masks[y], carry, rows);
    lemma_h_out_row(!0u64, 0u64, masks[y], carry, (rows - 1) as u64);
    lemma_vsum_fresh(rows);
    lemma_vsum_bounds(s.plus_v, s.minus_v, 0, rows);
    assert(vsum(s.plus_v, s.minus_v, 0) == 0);
    assert(base(bs2, y) == bs[y - 1].score);
}

/// Shrinking leaves the frontier between 0 and where it was, above every
/// block it dropped.
pub proof fn lemma_shrink_range(bs: Seq<BlockState>, y: int, budget: int)
    requires
        0 <= y,
    ensures
        0 <= shrink(bs, y, budget) <= y,
        forall|b: int| shrink(bs, y, budget) < b <= y ==> (#[trigger] bs[b]).score >= budget + 64,
        shrink(bs, y, budget) > 0 ==> bs[shrink(bs, y, budget)].score < budget + 64,
    decreases y,
{
    if y > 0 && bs[y].score >= budget + 64 {
        lemma_shrink_range(bs, y - 1, budget);
    }
}

/// One more text symbol keeps the scan in shape.
pub proof fn lemma_column_shape(st: ScanState, masks: Seq<u64>, m: nat, j: nat)
    requires
        j >= 1,
        shaped(st, m, (j - 1) as nat),
        masks.len() == block_count(m),
    ensures
        shaped(column(st, masks, m, j), m, j),
{
    let y = st.frontier;
    let (bs, carry) = sweep(st.blocks, masks, m, (y + 1) as nat);
    lemma_sweep_shape(st.blocks, masks, m, y, (y + 1) as nat);
    let grown = grows(bs, carry, y, st.budget, masks, m);
    let next = column(st, masks, m, j);
    assert forall|b: int| 0 <= b <= y implies #[trigger] slack(bs, m, b) == 0 by {
        assert(slack(bs, m, b) == slack(st.blocks, m, b));
    }
    if grown {
        lemma_enter_shape(bs, carry, y + 1, masks, m);
        let bs2 = bs.update(y + 1, enter_block(bs, carry, y + 1, masks, m));
        assert forall|b: int| 0 <= b <= y + 1 implies #[trigger] slack(bs2, m, b) == 0 by {
            if b <= y {
                assert(bs2[b] == bs[b]);
                assert(base(bs2, b) == base(bs, b));
                assert(slack(bs2, m, b) == slack(bs, m, b));
            }
        }
        assert(blocks_shaped(bs2, m, y + 1));
    } else {
        lemma_shrink_range(bs, y, st.budget);
        assert(blocks_shaped(bs, m, shrink(bs, y, st.budget)));
    }
    lemma_block_geometry(m, next.frontier);
}

/// Every state of a scan is in shape.
pub proof fn lemma_scan_shape(p: Seq<u16>, t: Seq<u16>, k: nat, j: nat)
    requires
        p.len() >= 1,
        j <= t.len(),
    ensures
        shaped(scan(p, t, k, j), p.len(), j),
    decreases j,
{
    let m = p.len();
    if j == 0 {
        let st = initial_state(m, k);
        assert forall|b: int| 0 <= b < block_count(m) implies #[trigger] slack(st.blocks, m, b)
            == 0 by {
            lemma_block_geometry(m, b);
            lemma_vsum_fresh(block_rows(m, b) as nat);
            if b > 0 {
                lemma_block_geometry(m, b - 1);
            }
        }
        assert forall|b: int| 0 <= b < block_count(m) implies (#[trigger] st.blocks[b]).plus_v
            & st.blocks[b].minus_v == 0 && score_floor(m, b) <= st.blocks[b].score <= 64 * (b
            + 1) by {
            lemma_fresh_disjoint();
            lemma_block_geometry(m, b);
        }
    } else {
        lemma_scan_shape(p, t, k, (j - 1) as nat);
        lemma_mask_words_bit(p, t[j - 1], 0, 0);
        lemma_column_shape(scan(p, t, k, (j - 1) as nat), mask_words(p, t[j - 1]), m, j);
    }
}

} // verus!
