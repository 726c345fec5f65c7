//! One block of 64 pattern rows: its state, the step that carries it from one
//! text column to the next, and what that step means for the values of the
//! dynamic-programming column it encodes.

use vstd::prelude::*;
use crate::bits::{
    bit, bit_val, carry_word, lemma_bit_consts, lemma_bit_logic, lemma_bit_mask, lemma_bit_shl1,
    lemma_carry_chain,
};

verus! {

/// Number of pattern rows that one block holds.
pub const BLOCK_LEN: usize = 64;

/// The state of one block in the current column.
#[derive(Clone, Copy, Debug)]
pub struct Block {
    /// Bit `r` is set where row `r` holds one more than the row above it.
    pub plus_v: u64,
    /// Bit `r` is set where row `r` holds one less than the row above it.
    pub minus_v: u64,
    /// The single bit of the block's last row in use.
    pub last_row_mask: u64,
    /// The value in the block's last row in use.
    pub score: i32,
}

/// The part of a block that changes from column to column, with an unbounded score.
pub struct BlockState {
    pub plus_v: u64,
    pub minus_v: u64,
    pub score: int,
}

impl View for Block {
    type V = BlockState;

    open spec fn view(&self) -> BlockState {
        BlockState { plus_v: self.plus_v, minus_v: self.minus_v, score: self.score as int }
    }
}

/// Bit 0 set where the incoming horizontal difference is negative.
pub open spec fn h_neg(h_in: int) -> u64 {
    if h_in < 0 {
        1
    } else {
        0
    }
}

/// Bit 0 set where the incoming horizontal difference is positive.
pub open spec fn h_pos(h_in: int) -> u64 {
    if h_in > 0 {
        1
    } else {
        0
    }
}

/// Rows whose horizontal difference is +1, before the shift to the next row.
pub open spec fn word_ph(pv: u64, mv: u64, eq: u64) -> u64 {
    mv | !(carry_word(eq, pv) | pv)
}

/// Rows whose horizontal difference is -1, before the shift to the next row.
pub open spec fn word_mh(pv: u64, eq: u64) -> u64 {
    pv & carry_word(eq, pv)
}

/// The vertical +1 rows of the next column; `eq` already holds `hn` in bit 0.
pub open spec fn word_next_plus(pv: u64, mv: u64, eq: u64, hn: u64, hp: u64) -> u64 {
    ((word_mh(pv, eq) << 1) | hn) | !((eq | mv) | ((word_ph(pv, mv, eq) << 1) | hp))
}

/// The vertical -1 rows of the next column; `eq` already holds `hn` in bit 0.
pub open spec fn word_next_minus(pv: u64, mv: u64, eq: u64, hn: u64, hp: u64) -> u64 {
    ((word_ph(pv, mv, eq) << 1) | hp) & (eq | mv)
}

/// `plus_v` after one step on match bits `eq0` with incoming difference `h_in`.
pub open spec fn next_plus(pv: u64, mv: u64, eq0: u64, h_in: int) -> u64 {
    word_next_plus(pv, mv, eq0 | h_neg(h_in), h_neg(h_in), h_pos(h_in))
}

/// `minus_v` after one step on match bits `eq0` with incoming difference `h_in`.
pub open spec fn next_minus(pv: u64, mv: u64, eq0: u64, h_in: int) -> u64 {
    word_next_minus(pv, mv, eq0 | h_neg(h_in), h_neg(h_in), h_pos(h_in))
}

/// The horizontal difference that leaves the step through the row of `mask`.
pub open spec fn step_h_out(pv: u64, mv: u64, mask: u64, eq0: u64, h_in: int) -> int {
    let eq = eq0 | h_neg(h_in);
    (if word_ph(pv, mv, eq) & mask != 0 { 1int } else { 0int })
        - (if word_mh(pv, eq) & mask != 0 { 1int } else { 0int })
}

/// The least of three integers.
pub open spec fn least3(a: int, b: int, c: int) -> int {
    if a <= b && a <= c {
        a
    } else if b <= c {
        b
    } else {
        c
    }
}

/// The vertical difference that the pair of words holds for row `r`.
pub open spec fn dv(pv: u64, mv: u64, r: u64) -> int {
    bit_val(pv, r) - bit_val(mv, r)
}

/// The horizontal difference that leaves row `r` in a step.
pub open spec fn row_h_out(pv: u64, mv: u64, eq0: u64, h_in: int, r: u64) -> int {
    let eq = eq0 | h_neg(h_in);
    dv(word_ph(pv, mv, eq), word_mh(pv, eq), r)
}

/// The horizontal difference that enters row `r` in a step: `h_in` for the
/// first row, and below it what left the row above.
pub open spec fn row_h_in(pv: u64, mv: u64, eq0: u64, h_in: int, r: u64) -> int {
    if r == 0 {
        h_in
    } else {
        row_h_out(pv, mv, eq0, h_in, (r - 1) as u64)
    }
}

/// What a match in a row contributes: -1 where the symbols agree.
pub open spec fn match_gain(e: bool) -> int {
    if e {
        -1
    } else {
        0
    }
}

/// The sum of the vertical differences of the first `n` rows.
pub open spec fn vsum(pv: u64, mv: u64, n: nat) -> int
    decreases n,
{
    if n == 0 {
        0
    } else {
        vsum(pv, mv, (n - 1) as nat) + dv(pv, mv, (n - 1) as u64)
    }
}

/// The cost of aligning a pattern row with the text symbol: 0 where they agree.
pub open spec fn cost(e: bool) -> int {
    if e {
        0
    } else {
        1
    }
}

/// Row `n` of a block, counted from 1, holds in the next column the least
/// of its three predecessors: with the value above the block's first row
/// taken as 0 in this column and as `h_in` in the next, and `pv2`, `mv2`
/// the vertical words of the next column.
pub open spec fn row_steps(
    pv: u64,
    mv: u64,
    pv2: u64,
    mv2: u64,
    eq0: u64,
    h_in: int,
    n: nat,
) -> bool {
    h_in + vsum(pv2, mv2, n) == least3(
        vsum(pv, mv, (n - 1) as nat) + cost(bit(eq0, (n - 1) as u64)),
        h_in + vsum(pv2, mv2, (n - 1) as nat) + 1,
        vsum(pv, mv, n) + 1,
    )
}

/// 1 for a non-zero word, 0 for zero.
pub fn one_if_not_zero(n: u64) -> (r: i32)
    ensures
        r == (if n != 0 { 1int } else { 0int }),
{
    if n != 0 {
        1
    } else {
        0
    }
}

/// Carries `block` from one text column to the next. `pattern_match_bits`
/// marks the rows of the block whose pattern symbol equals the text symbol of
/// the new column, and `h_in` is the horizontal difference that enters the
/// first row from the block above. Returns the horizontal difference that
/// leaves the block through its last row.
///
/// The words of the block change as the formulas of the step say. Where the
/// two vertical words are disjoint and `h_in` is -1, 0 or 1, this is one
/// column of the dynamic programme: each row of the next column holds the
/// least of its three predecessors, and the result is the difference
/// between the two columns in the row of `last_row_mask`.
pub fn advance_block(block: &mut Block, pattern_match_bits: u64, h_in: i32) -> (h_out: i32)
    ensures
        final(block).plus_v == next_plus(
            old(block).plus_v,
            old(block).minus_v,
            pattern_match_bits,
            h_in as int,
        ),
        final(block).minus_v == next_minus(
            old(block).plus_v,
            old(block).minus_v,
            pattern_match_bits,
            h_in as int,
        ),
        final(block).last_row_mask == old(block).last_row_mask,
        final(block).score == old(block).score,
        old(block).plus_v & old(block).minus_v == 0 ==> final(block).plus_v
            & final(block).minus_v == 0,
        h_out == step_h_out(
            old(block).plus_v,
            old(block).minus_v,
            old(block).last_row_mask,
            pattern_match_bits,
            h_in as int,
        ),
        -1 <= h_out <= 1,
        old(block).plus_v & old(block).minus_v == 0 && -1 <= h_in <= 1 ==> forall|n: nat|
            1 <= n <= 64 ==> #[trigger] row_steps(
                old(block).plus_v,
                old(block).minus_v,
                final(block).plus_v,
                final(block).minus_v,
                pattern_match_bits,
                h_in as int,
                n,
            ),
        old(block).plus_v & old(block).minus_v == 0 && -1 <= h_in <= 1 ==> forall|q: u64|
            q < 64 && old(block).last_row_mask == #[trigger] (1u64 << q) ==> h_out == h_in + vsum(
                final(block).plus_v,
                final(block).minus_v,
                (q + 1) as nat,
            ) - vsum(old(block).plus_v, old(block).minus_v, (q + 1) as nat),
{
    let p_v: u64 = block.plus_v;
    let m_v: u64 = block.minus_v;
    proof {
        if p_v & m_v == 0 {
            lemma_step_disjoint(p_v, m_v, pattern_match_bits, h_in as int);
            if -1 <= h_in <= 1 {
                let pv2 = next_plus(p_v, m_v, pattern_match_bits, h_in as int);
                let mv2 = next_minus(p_v, m_v, pattern_match_bits, h_in as int);
                assert forall|n: nat| 1 <= n <= 64 implies #[trigger] row_steps(
                    p_v,
                    m_v,
                    pv2,
                    mv2,
                    pattern_match_bits,
                    h_in as int,
                    n,
                ) by {
                    lemma_block_column(p_v, m_v, pattern_match_bits, h_in as int, n);
                }
                assert forall|q: u64|
                    q < 64 && block.last_row_mask == #[trigger] (1u64 << q) implies step_h_out(
                    p_v,
                    m_v,
                    block.last_row_mask,
                    pattern_match_bits,
                    h_in as int,
                ) == h_in + vsum(pv2, mv2, (q + 1) as nat) - vsum(p_v, m_v, (q + 1) as nat) by {
                    lemma_block_column(p_v, m_v, pattern_match_bits, h_in as int, (q + 1) as nat);
                    lemma_h_out_row(p_v, m_v, pattern_match_bits, h_in as int, q);
                }
            }
        }
    }

    let h_in_negative: u64 = if h_in < 0 { 1 } else { 0 };
    let h_in_positive: u64 = if h_in > 0 { 1 } else { 0 };

    let eq: u64 = pattern_match_bits | h_in_negative;

    let x_v: u64 = eq | m_v;
    let x_h: u64 = ((eq & p_v).wrapping_add(p_v) ^ p_v) | eq;

    let mut p_h: u64 = m_v | !(x_h | p_v);
    let mut m_h: u64 = p_v & x_h;

    let h_out: i32 = one_if_not_zero(p_h & block.last_row_mask) - one_if_not_zero(
        m_h & block.last_row_mask,
    );

    p_h = p_h << 1;
    m_h = m_h << 1;

    m_h = m_h | h_in_negative;
    p_h = p_h | h_in_positive;

    block.plus_v = m_h | !(x_v | p_h);
    block.minus_v = p_h & x_v;

    h_out
}

/// A step keeps the two vertical words disjoint.
pub proof fn lemma_step_disjoint(pv: u64, mv: u64, eq0: u64, h_in: int)
    requires
        pv & mv == 0,
    ensures
        next_plus(pv, mv, eq0, h_in) & next_minus(pv, mv, eq0, h_in) == 0,
{
    let hn = h_neg(h_in);
    let hp = h_pos(h_in);
    let eq = eq0 | hn;
    assert(word_next_plus(pv, mv, eq, hn, hp) & word_next_minus(pv, mv, eq, hn, hp) == 0)
        by (bit_vector)
        requires
            pv & mv == 0,
            hn == 0 || hn == 1,
            hp == 0 || hp == 1,
            hn == 0 || hp == 0,
    ;
}

/// The bits of the two horizontal words in row `r`, told from the bits of the
/// inputs in that row and of the horizontal words in the row above.
proof fn lemma_row_bits(pv: u64, mv: u64, eq0: u64, h_in: int, r: u64)
    requires
        r < 64,
    ensures
        ({
            let eq = eq0 | h_neg(h_in);
            let ph = word_ph(pv, mv, eq);
            let mh = word_mh(pv, eq);
            let xh = bit(eq0, r) || (if r == 0 {
                h_in < 0
            } else {
                bit(mh, (r - 1) as u64)
            });
            &&& bit(ph, r) == (bit(mv, r) || !(xh || bit(pv, r)))
            &&& bit(mh, r) == (bit(pv, r) && xh)
        }),
{
    let hn = h_neg(h_in);
    let eq = eq0 | hn;
    let x = carry_word(eq, pv);
    lemma_carry_chain(eq, pv);
    lemma_bit_consts(0, r);
    lemma_bit_logic(eq0, hn, r);
    lemma_bit_logic(eq, (pv & x) << 1, r);
    lemma_bit_shl1(pv & x, r);
    lemma_bit_logic(pv, x, r);
    lemma_bit_logic(mv, !(x | pv), r);
    lemma_bit_logic(x | pv, 0, r);
    lemma_bit_logic(x, pv, r);
    if r > 0 {
        lemma_bit_logic(pv, x, (r - 1) as u64);
    }
}

/// One row of a step is one cell of the dynamic programme: the horizontal
/// and vertical differences that leave the cell are those of the least of
/// its three predecessors.
pub proof fn lemma_row(pv: u64, mv: u64, eq0: u64, h_in: int, r: u64)
    requires
        pv & mv == 0,
        -1 <= h_in <= 1,
        r < 64,
    ensures
        ({
            let least = least3(
                match_gain(bit(eq0, r)),
                dv(pv, mv, r),
                row_h_in(pv, mv, eq0, h_in, r),
            );
            &&& -1 <= row_h_in(pv, mv, eq0, h_in, r) <= 1
            &&& row_h_out(pv, mv, eq0, h_in, r) == 1 + least - dv(pv, mv, r)
            &&& dv(next_plus(pv, mv, eq0, h_in), next_minus(pv, mv, eq0, h_in), r) == 1 + least
                - row_h_in(pv, mv, eq0, h_in, r)
        }),
{
    let hn = h_neg(h_in);
    let hp = h_pos(h_in);
    let eq = eq0 | hn;
    let ph = word_ph(pv, mv, eq);
    let mh = word_mh(pv, eq);
    let phs = (ph << 1) | hp;
    let mhs = (mh << 1) | hn;
    let xv = eq | mv;
    lemma_row_bits(pv, mv, eq0, h_in, r);
    lemma_bit_consts(0, r);
    lemma_bit_logic(pv, mv, r);
    lemma_bit_logic(eq0, hn, r);
    lemma_bit_logic(eq, mv, r);
    lemma_bit_logic(ph << 1, hp, r);
    lemma_bit_logic(mh << 1, hn, r);
    lemma_bit_shl1(ph, r);
    lemma_bit_shl1(mh, r);
    lemma_bit_logic(mhs, !(xv | phs), r);
    lemma_bit_logic(xv | phs, 0, r);
    lemma_bit_logic(xv, phs, r);
    lemma_bit_logic(phs, xv, r);
    if r > 0 {
        let q = (r - 1) as u64;
        lemma_row_bits(pv, mv, eq0, h_in, q);
        lemma_bit_consts(0, q);
        lemma_bit_logic(pv, mv, q);
    }
}

/// The values of a block's rows in the next column, from those in this one.
/// With the value above the block's first row taken as 0 in this column and
/// as `h_in` in the next, the value in row `n - 1` of the next column is the
/// least of its three predecessors, and it differs from the value beside it
/// by the horizontal difference that leaves that row.
pub proof fn lemma_block_column(pv: u64, mv: u64, eq0: u64, h_in: int, n: nat)
    requires
        pv & mv == 0,
        -1 <= h_in <= 1,
        1 <= n <= 64,
    ensures
        ({
            let pv2 = next_plus(pv, mv, eq0, h_in);
            let mv2 = next_minus(pv, mv, eq0, h_in);
            let r = (n - 1) as u64;
            &&& h_in + vsum(pv2, mv2, n) - vsum(pv, mv, n) == row_h_out(pv, mv, eq0, h_in, r)
            &&& h_in + vsum(pv2, mv2, n) == least3(
                vsum(pv, mv, (n - 1) as nat) + cost(bit(eq0, r)),
                h_in + vsum(pv2, mv2, (n - 1) as nat) + 1,
                vsum(pv, mv, n) + 1,
            )
        }),
    decreases n,
{
    let pv2 = next_plus(pv, mv, eq0, h_in);
    let mv2 = next_minus(pv, mv, eq0, h_in);
    let r = (n - 1) as u64;
    lemma_row(pv, mv, eq0, h_in, r);
    assert(vsum(pv, mv, n) == vsum(pv, mv, (n - 1) as nat) + dv(pv, mv, r));
    assert(vsum(pv2, mv2, n) == vsum(pv2, mv2, (n - 1) as nat) + dv(pv2, mv2, r));
    if n > 1 {
        lemma_block_column(pv, mv, eq0, h_in, (n - 1) as nat);
        assert(((n - 1) as nat - 1) as u64 == (r - 1) as u64);
        assert(h_in + vsum(pv2, mv2, (n - 1) as nat) - vsum(pv, mv, (n - 1) as nat) == row_h_in(
            pv,
            mv,
            eq0,
            h_in,
            r,
        ));
    } else {
        assert(vsum(pv, mv, 0) == 0);
        assert(vsum(pv2, mv2, 0) == 0);
    }
}

/// The horizontal difference read through a one-bit mask is that of its row.
pub proof fn lemma_h_out_row(pv: u64, mv: u64, eq0: u64, h_in: int, q: u64)
    requires
        q < 64,
    ensures
        step_h_out(pv, mv, 1u64 << q, eq0, h_in) == row_h_out(pv, mv, eq0, h_in, q),
{
    let eq = eq0 | h_neg(h_in);
    lemma_bit_mask(word_ph(pv, mv, eq), q);
    lemma_bit_mask(word_mh(pv, eq), q);
}

/// The first `n` vertical differences sum to between `-n` and `n`, and grow
/// by at most one per row.
pub proof fn lemma_vsum_bounds(pv: u64, mv: u64, r: nat, n: nat)
    requires
        r <= n,
    ensures
        -(n - r) <= vsum(pv, mv, n) - vsum(pv, mv, r) <= n - r,
    decreases n,
{
    if r < n {
        lemma_vsum_bounds(pv, mv, r, (n - 1) as nat);
    }
}

/// A block whose rows all stand one above the row before.
pub proof fn lemma_vsum_fresh(n: nat)
    requires
        n <= 64,
    ensures
        vsum(!0u64, 0u64, n) == n,
    decreases n,
{
    if n > 0 {
        lemma_vsum_fresh((n - 1) as nat);
        lemma_bit_consts(0, (n - 1) as u64);
    }
}

} // verus!
