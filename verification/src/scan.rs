//! The end-point scan as a function of pattern, text and error budget: the
//! column of blocks, the frontier of blocks in use, the budget that ratchets
//! down, and the end points collected so far.

use vstd::prelude::*;
use crate::block::{next_minus, next_plus, step_h_out, BlockState};
use crate::pattern::{block_count, mask_words};

verus! {

/// Number of pattern rows that block `b` holds: 64, but for the last block,
/// which ends with the pattern.
pub open spec fn block_rows(m: nat, b: int) -> int {
    if b == block_count(m) - 1 {
        (m - 1) % 64 + 1
    } else {
        64
    }
}

/// The single bit of the last row in use of block `b`.
pub open spec fn last_row_mask(m: nat, b: int) -> u64 {
    1u64 << ((block_rows(m, b) - 1) as u64)
}

/// The score of block `b` before any text is read: the number of pattern
/// rows down to its last row.
pub open spec fn initial_score(m: nat, b: int) -> int {
    if b == block_count(m) - 1 {
        m as int
    } else {
        64 * (b + 1)
    }
}

/// The budget a scan starts with: no more edits than the pattern has symbols.
pub open spec fn clamp_errors(k: nat, m: nat) -> int {
    if k < m {
        k as int
    } else {
        m as int
    }
}

/// The last block in use before any text is read.
pub open spec fn initial_frontier(k: int) -> int {
    if k <= 0 {
        0
    } else {
        (k + 63) / 64 - 1
    }
}

/// An end of a match, with the score of the last block when it was found.
pub struct EndPoint {
    pub end: nat,
    pub score: int,
}

/// The scan between two text symbols.
pub struct ScanState {
    /// One state per block of the pattern; those past the frontier are stale.
    pub blocks: Seq<BlockState>,
    /// Index of the last block in use.
    pub frontier: int,
    /// The most edits an end may still have.
    pub budget: int,
    /// The ends found so far, all with `budget` edits once any is found.
    pub ends: Seq<EndPoint>,
}

/// One block carried to the next column, and the difference that leaves it.
pub open spec fn step_block(s: BlockState, mask: u64, eq0: u64, h_in: int) -> (BlockState, int) {
    let h = step_h_out(s.plus_v, s.minus_v, mask, eq0, h_in);
    (
        BlockState {
            plus_v: next_plus(s.plus_v, s.minus_v, eq0, h_in),
            minus_v: next_minus(s.plus_v, s.minus_v, eq0, h_in),
            score: s.score + h,
        },
        h,
    )
}

/// The first `n` blocks carried to the next column, top down, and the
/// difference that leaves the last of them.
pub open spec fn sweep(blocks: Seq<BlockState>, masks: Seq<u64>, m: nat, n: nat) -> (
    Seq<BlockState>,
    int,
)
    decreases n,
{
    if n == 0 {
        (blocks, 0)
    } else {
        let (bs, carry) = sweep(blocks, masks, m, (n - 1) as nat);
        let b = n - 1;
        let (s, h) = step_block(bs[b], last_row_mask(m, b), masks[b], carry);
        (bs.update(b, s), h)
    }
}

/// Whether the frontier moves down one block after a sweep that left `carry`.
pub open spec fn grows(
    bs: Seq<BlockState>,
    carry: int,
    y: int,
    budget: int,
    masks: Seq<u64>,
    m: nat,
) -> bool {
    bs[y].score - carry <= budget && y < block_count(m) - 1 && (masks[y + 1] & 1 != 0 || carry
        < 0)
}

/// Block `y` as it is entered: all rows one above the row before, carried to
/// the current column, its score that of the block above plus its rows.
pub open spec fn enter_block(bs: Seq<BlockState>, carry: int, y: int, masks: Seq<u64>, m: nat)
    -> BlockState {
    let h = step_h_out(!0u64, 0u64, last_row_mask(m, y), masks[y], carry);
    BlockState {
        plus_v: next_plus(!0u64, 0u64, masks[y], carry),
        minus_v: next_minus(!0u64, 0u64, masks[y], carry),
        score: bs[y - 1].score + block_rows(m, y) - carry + h,
    }
}

/// The frontier after dropping the blocks whose score is a block above the budget.
pub open spec fn shrink(bs: Seq<BlockState>, y: int, budget: int) -> int
    decreases y,
{
    if y > 0 && bs[y].score >= budget + 64 {
        shrink(bs, y - 1, budget)
    } else {
        y
    }
}

/// The scan after one more text symbol, whose match vector is `masks`; `end`
/// is the number of symbols read with it.
pub open spec fn column(st: ScanState, masks: Seq<u64>, m: nat, end: nat) -> ScanState {
    let (bs, carry) = sweep(st.blocks, masks, m, (st.frontier + 1) as nat);
    let y = st.frontier;
    let grown = grows(bs, carry, y, st.budget, masks, m);
    let bs2 = if grown {
        bs.update(y + 1, enter_block(bs, carry, y + 1, masks, m))
    } else {
        bs
    };
    let y2 = if grown {
        y + 1
    } else {
        shrink(bs, y, st.budget)
    };
    if y2 == block_count(m) - 1 && bs2[y2].score <= st.budget {
        let kept = if bs2[y2].score < st.budget {
            Seq::<EndPoint>::empty()
        } else {
            st.ends
        };
        ScanState {
            blocks: bs2,
            frontier: y2,
            budget: bs2[y2].score,
            ends: kept.push(EndPoint { end, score: bs2[y2].score }),
        }
    } else {
        ScanState { blocks: bs2, frontier: y2, budget: st.budget, ends: st.ends }
    }
}

/// The scan before any text is read.
pub open spec fn initial_state(m: nat, k: nat) -> ScanState {
    ScanState {
        blocks: Seq::new(
            block_count(m),
            |b: int| BlockState { plus_v: !0u64, minus_v: 0u64, score: initial_score(m, b) },
        ),
        frontier: initial_frontier(clamp_errors(k, m)),
        budget: clamp_errors(k, m),
        ends: Seq::empty(),
    }
}

/// The scan of pattern `p` with budget `k` after the first `j` symbols of `t`.
pub open spec fn scan(p: Seq<u16>, t: Seq<u16>, k: nat, j: nat) -> ScanState
    decreases j,
{
    if j == 0 {
        initial_state(p.len(), k)
    } else {
        column(scan(p, t, k, (j - 1) as nat), mask_words(p, t[j - 1]), p.len(), j)
    }
}

/// The ends that the scan of all of `t` reports; none for the empty pattern.
pub open spec fn scan_ends(p: Seq<u16>, t: Seq<u16>, k: nat) -> Seq<EndPoint> {
    if p.len() == 0 {
        Seq::empty()
    } else {
        scan(p, t, k, t.len()).ends
    }
}

} // verus!
