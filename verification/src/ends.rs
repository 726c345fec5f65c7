//! The end-point scanner: one pass over the text, a column of blocks at a time.

use vstd::prelude::*;
use crate::best::{best_ends, least_ending, lemma_best_ends};
use crate::block::{advance_block, Block, BlockState};
use crate::distance::ending_distance;
use crate::frontier::{lemma_scan_is_best, lemma_scan_tracks};
use crate::pattern::{block_count, lemma_mask_words_bit, PatternBits, MAX_PATTERN_LEN};
use crate::scan::{
    column, enter_block, initial_state, last_row_mask, scan, scan_ends, shrink,
    step_block, sweep, EndPoint,
};
use crate::search::Match;
use crate::shape::{
    blocks_shaped, lemma_block_geometry, lemma_column_shape, lemma_enter_shape, lemma_scan_shape,
    lemma_sweep_shape, shaped,
};

verus! {

/// The states of a vector of blocks.
pub open spec fn states_of(blocks: Seq<Block>) -> Seq<BlockState> {
    Seq::new(blocks.len(), |b: int| blocks[b]@)
}

/// The matches that stand for ends: the start is not yet known and left at
/// 0, and the edits are the score.
pub open spec fn matches_of(ends: Seq<EndPoint>) -> Seq<Match> {
    Seq::new(
        ends.len(),
        |i: int| Match { start: 0, end: ends[i].end as usize, errors: ends[i].score as usize },
    )
}

/// What holds of the matches that stand for the ends a search owes: each
/// has start 0 and an end in the text at which a substring ends that is
/// nearest to the pattern of all substrings; its edits are that least
/// distance, within the budget and the pattern's length; the matches come by
/// increasing end; there are some exactly where pattern and text are not
/// empty and the least distance is within the budget, and then every end at
/// that distance has its match.
pub open spec fn ends_hold(p: Seq<u16>, t: Seq<u16>, k: nat, matches: Seq<Match>) -> bool {
    let least = least_ending(p, t, t.len() as int);
    &&& forall|i: int|
        0 <= i < matches.len() ==> {
            let r = #[trigger] matches[i];
            &&& r.start == 0
            &&& 1 <= r.end <= t.len()
            &&& r.errors == least
            &&& r.errors == ending_distance(p, t, r.end as int)
            &&& r.errors <= k
            &&& r.errors <= p.len()
        }
    &&& forall|i: int, i2: int|
        0 <= i < i2 < matches.len() ==> (#[trigger] matches[i]).end < (#[trigger] matches[i2]).end
    &&& matches.len() > 0 <==> p.len() > 0 && t.len() > 0 && least <= k
    &&& forall|e: int|
        matches.len() > 0 && 1 <= e <= t.len() && #[trigger] ending_distance(p, t, e) == least
            ==> exists|i: int| 0 <= i < matches.len() && (#[trigger] matches[i]).end == e
}

/// The matches of the ends that a search owes are as `ends_hold` says.
pub proof fn lemma_ends_hold(p: Seq<u16>, t: Seq<u16>, k: nat)
    requires
        p.len() <= usize::MAX,
        t.len() <= usize::MAX,
    ensures
        ends_hold(p, t, k, matches_of(best_ends(p, t, k))),
{
    lemma_best_ends(p, t, k);
    let ends = best_ends(p, t, k);
    let matches = matches_of(ends);
    let least = least_ending(p, t, t.len() as int);
    assert forall|i: int| 0 <= i < matches.len() implies (#[trigger] matches[i]).end
        == ends[i].end && matches[i].errors == ends[i].score by {}
    assert forall|e: int|
        matches.len() > 0 && 1 <= e <= t.len() && #[trigger] ending_distance(p, t, e)
            == least implies exists|i: int|
        0 <= i < matches.len() && (#[trigger] matches[i]).end == e by {
        let i = choose|i: int| 0 <= i < ends.len() && (#[trigger] ends[i]).end == e;
        assert(matches[i].end == e);
    }
}

/// Scans `text` for the pattern of the table `bits`, one symbol at a time,
/// and returns the ends of the substrings nearest to the pattern, by
/// increasing end, if they are within `max_errors` edits, as matches whose
/// starts are left at 0. These are the ends that the scan of `scan_ends`
/// collects.
pub fn find_match_ends_in(text: &[u16], bits: &PatternBits, max_errors: usize) -> (matches: Vec<
    Match,
>)
    requires
        bits.wf(),
    ensures
        matches@ == matches_of(best_ends(bits.pattern(), text@, max_errors as nat)),
        ends_hold(bits.pattern(), text@, max_errors as nat, matches@),
        matches@ == matches_of(scan_ends(bits.pattern(), text@, max_errors as nat)),
{
    let len = bits.pattern_len();
    let mut matches: Vec<Match> = Vec::new();
    proof {
        assert(text@.len() == text.len());
        lemma_scan_is_best(bits.pattern(), text@, max_errors as nat);
        lemma_ends_hold(bits.pattern(), text@, max_errors as nat);
    }
    if len == 0 {
        assert(matches@ =~= matches_of(Seq::empty()));
        return matches;
    }
    let ghost p = bits.pattern();
    let ghost t = text@;
    let ghost k = max_errors as nat;
    let ghost m = p.len();
    let clamped: usize = if max_errors < len {
        max_errors
    } else {
        len
    };
    let mut budget: i32 = clamped as i32;
    let blocks_len: usize = (len + 63) / 64;
    let mut y: usize = if clamped > 0 {
        (clamped + 63) / 64 - 1
    } else {
        0
    };
    let mut blocks: Vec<Block> = Vec::with_capacity(blocks_len);
    let mut b: usize = 0;
    while b < blocks_len
        invariant
            len == m,
            1 <= len <= MAX_PATTERN_LEN,
            blocks_len == block_count(m),
            b <= blocks_len,
            blocks@.len() == b,
            forall|i: int|
                0 <= i < b ==> (#[trigger] blocks@[i]).last_row_mask == last_row_mask(m, i)
                    && blocks@[i]@ == initial_state(m, k).blocks[i],
        decreases blocks_len - b,
    {
        let last = b == blocks_len - 1;
        let row: u64 = if last {
            ((len - 1) % 64) as u64
        } else {
            63
        };
        let score: usize = if last {
            len
        } else {
            (b + 1) * 64
        };
        proof {
            lemma_block_geometry(m, b as int);
        }
        blocks.push(Block { plus_v: !0, minus_v: 0, last_row_mask: 1u64 << row, score: score as i32 });
        b += 1;
    }
    let mut j: usize = 0;
    proof {
        lemma_scan_shape(p, t, k, 0);
        assert(states_of(blocks@) =~= initial_state(m, k).blocks);
        assert(matches@ =~= matches_of(Seq::empty()));
    }
    while j < text.len()
        invariant
            bits.wf(),
            bits.pattern() == p,
            text@ == t,
            m == p.len(),
            len == m,
            1 <= len <= MAX_PATTERN_LEN,
            blocks_len == block_count(m),
            j <= text.len(),
            shaped(scan(p, t, k, j as nat), m, j as nat),
            states_of(blocks@) == scan(p, t, k, j as nat).blocks,
            forall|i: int|
                0 <= i < blocks_len ==> (#[trigger] blocks@[i]).last_row_mask == last_row_mask(
                    m,
                    i,
                ),
            y == scan(p, t, k, j as nat).frontier,
            budget == scan(p, t, k, j as nat).budget,
            matches@ == matches_of(scan(p, t, k, j as nat).ends),
        decreases text.len() - j,
    {
        let ghost st = scan(p, t, k, j as nat);
        let masks = bits.lookup(text[j]);
        proof {
            lemma_mask_words_bit(p, t[j as int], 0, 0);
            lemma_block_geometry(m, 0);
            lemma_column_shape(st, masks@, m, (j + 1) as nat);
            assert(blocks@.len() == states_of(blocks@).len());
        }
        let mut carry: i32 = 0;
        let mut b: usize = 0;
        while b <= y
            invariant
                len == m,
                1 <= len <= MAX_PATTERN_LEN,
                blocks_len == block_count(m),
                blocks_shaped(st.blocks, m, y as int),
                masks@.len() == blocks_len,
                blocks@.len() == blocks_len,
                y < blocks_len,
                b <= y + 1,
                -1 <= carry <= 1,
                (states_of(blocks@), carry as int) == sweep(st.blocks, masks@, m, b as nat),
                forall|i: int|
                    0 <= i < blocks_len ==> (#[trigger] blocks@[i]).last_row_mask
                        == last_row_mask(m, i),
            decreases y + 1 - b,
        {
            let ghost before = states_of(blocks@);
            proof {
                lemma_sweep_shape(st.blocks, masks@, m, y as int, (b + 1) as nat);
                lemma_block_geometry(m, b as int);
                assert(before[b as int] == blocks@[b as int]@);
            }
            carry = advance_block(&mut blocks[b], masks[b], carry);
            blocks[b].score = blocks[b].score + carry;
            proof {
                assert(states_of(blocks@) =~= before.update(
                    b as int,
                    step_block(
                        before[b as int],
                        last_row_mask(m, b as int),
                        masks@[b as int],
                        sweep(st.blocks, masks@, m, b as nat).1,
                    ).0,
                ));
            }
            b += 1;
        }
        let ghost bs = states_of(blocks@);
        proof {
            lemma_sweep_shape(st.blocks, masks@, m, y as int, (y + 1) as nat);
            lemma_block_geometry(m, y as int);
            assert(bs[y as int] == blocks@[y as int]@);
        }
        if blocks[y].score - carry <= budget && y < blocks_len - 1 && ((masks[y + 1] & 1 != 0)
            || carry < 0) {
            y += 1;
            proof {
                lemma_enter_shape(bs, carry as int, y as int, masks@, m);
                lemma_block_geometry(m, y as int);
                assert(bs[y - 1] == blocks@[y - 1]@);
            }
            blocks[y].plus_v = !0;
            blocks[y].minus_v = 0;
            let entry: i32 = if y == blocks_len - 1 {
                ((len - 1) % 64 + 1) as i32
            } else {
                64
            };
            let h = advance_block(&mut blocks[y], masks[y], carry);
            blocks[y].score = blocks[y - 1].score + entry - carry + h;
            proof {
                assert(states_of(blocks@) =~= bs.update(
                    y as int,
                    enter_block(bs, carry as int, y as int, masks@, m),
                ));
            }
        } else {
            let ghost y0 = y;
            while y > 0 && blocks[y].score >= budget + 64
                invariant
                    y <= y0,
                    y0 < blocks@.len(),
                    bs == states_of(blocks@),
                    -(m + 64) <= budget <= m,
                    m <= MAX_PATTERN_LEN,
                    shrink(bs, y as int, budget as int) == shrink(bs, y0 as int, budget as int),
                decreases y,
            {
                proof {
                    assert(bs[y as int] == blocks@[y as int]@);
                }
                y -= 1;
            }
            proof {
                if y > 0 {
                    assert(bs[y as int] == blocks@[y as int]@);
                }
            }
        }
        proof {
            assert(states_of(blocks@)[y as int] == blocks@[y as int]@);
            lemma_scan_tracks(p, t, k, (j + 1) as nat);
            assert(scan(p, t, k, (j + 1) as nat) == column(st, masks@, m, (j + 1) as nat));
        }
        if y == blocks_len - 1 && blocks[y].score <= budget {
            if blocks[y].score < budget {
                matches.clear();
            }
            assert(0 <= blocks[y as int].score);
            matches.push(Match { start: 0, end: j + 1, errors: blocks[y].score as usize });
            budget = blocks[y].score;
        }
        j += 1;
        proof {
            let next = scan(p, t, k, j as nat);
            assert(next == column(st, masks@, m, j as nat));
            assert(matches@ =~= matches_of(next.ends));
        }
    }
    matches
}

/// Scans `text` for `pattern`, one symbol at a time, and returns the ends of
/// the substrings nearest to the pattern, by increasing end, if they are
/// within `max_errors` edits, as matches whose starts are left at 0. These
/// are the ends that the scan of `scan_ends` collects.
pub fn find_match_ends(text: &[u16], pattern: &[u16], max_errors: usize) -> (matches: Vec<Match>)
    requires
        pattern.len() <= MAX_PATTERN_LEN,
    ensures
        matches@ == matches_of(best_ends(pattern@, text@, max_errors as nat)),
        ends_hold(pattern@, text@, max_errors as nat, matches@),
        matches@ == matches_of(scan_ends(pattern@, text@, max_errors as nat)),
{
    let bits = PatternBits::new(pattern);
    find_match_ends_in(text, &bits, max_errors)
}

} // verus!
