//! Single bits of 64-bit words, and the word identities the block step rests on.

use vstd::prelude::*;

verus! {

/// Whether bit `r` of `x` is set.
pub open spec fn bit(x: u64, r: u64) -> bool {
    (x >> r) & 1 == 1
}

/// Bit `r` of `x` as 0 or 1.
pub open spec fn bit_val(x: u64, r: u64) -> int {
    if bit(x, r) {
        1
    } else {
        0
    }
}

/// The word that Myers' addition trick yields: bit `r` is set where `eq` has
/// bit `r`, or where a set bit of `eq` lies below `r` with `pv` set on every
/// position from there up to `r - 1`.
pub open spec fn carry_word(eq: u64, pv: u64) -> u64 {
    ((eq & pv).wrapping_add(pv) ^ pv) | eq
}

/// Bits of `a | b`, `a & b`, `a ^ b` and `!a` are the connectives of the bits.
pub proof fn lemma_bit_logic(a: u64, b: u64, r: u64)
    by (bit_vector)
    requires
        r < 64,
    ensures
        bit(a | b, r) == (bit(a, r) || bit(b, r)),
        bit(a & b, r) == (bit(a, r) && bit(b, r)),
        bit(a ^ b, r) == (bit(a, r) != bit(b, r)),
        bit(!a, r) == !bit(a, r),
{
}

/// A shift by one moves every bit up and clears bit 0.
pub proof fn lemma_bit_shl1(a: u64, r: u64)
    by (bit_vector)
    requires
        r < 64,
    ensures
        r == 0 ==> !bit(a << 1, r),
        r > 0 ==> bit(a << 1, r) == bit(a, (r - 1) as u64),
{
}

/// Bits of the constants 0, 1, all-ones and `1 << s`.
pub proof fn lemma_bit_consts(s: u64, r: u64)
    by (bit_vector)
    requires
        r < 64,
        s < 64,
    ensures
        !bit(0, r),
        bit(1, r) == (r == 0),
        bit(!0u64, r),
        bit(1u64 << s, r) == (r == s),
{
}

/// The carry chain of the addition, as a fixed point: a bit of the result is
/// set where `eq` is, or where the bit below is set in both `pv` and the result.
pub proof fn lemma_carry_chain(eq: u64, pv: u64)
    by (bit_vector)
    ensures
        carry_word(eq, pv) == eq | ((pv & carry_word(eq, pv)) << 1),
{
}

/// Masking with the single bit `q` tests bit `q`.
pub proof fn lemma_bit_mask(x: u64, q: u64)
    by (bit_vector)
    requires
        q < 64,
    ensures
        (x & (1u64 << q) != 0) == bit(x, q),
{
}

/// Masking with 1 tests bit 0.
pub proof fn lemma_low_bit(x: u64)
    by (bit_vector)
    ensures
        (x & 1 != 0) == bit(x, 0),
{
}

/// The all-ones word and the zero word share no bit.
pub proof fn lemma_fresh_disjoint()
    by (bit_vector)
    ensures
        !0u64 & 0u64 == 0,
{
}

/// `x` with each bit swapped with its neighbour at distance `d`, where
/// `mask` marks the lower bit of each pair.
pub open spec fn swap_bits(x: u64, mask: u64, d: u64) -> u64 {
    ((x >> d) & mask) | ((x & mask) << d)
}

/// `x` with its 64 bits in reverse order, by swapping neighbours, pairs,
/// nibbles, bytes, and so on up to the two halves.
pub open spec fn reverse_word(x: u64) -> u64 {
    let x1 = swap_bits(x, 0x5555_5555_5555_5555, 1);
    let x2 = swap_bits(x1, 0x3333_3333_3333_3333, 2);
    let x4 = swap_bits(x2, 0x0f0f_0f0f_0f0f_0f0f, 4);
    let x8 = swap_bits(x4, 0x00ff_00ff_00ff_00ff, 8);
    let x16 = swap_bits(x8, 0x0000_ffff_0000_ffff, 16);
    (x16 >> 32) | (x16 << 32)
}

/// Bit `r` of the reversed word is bit `63 - r` of the word.
pub proof fn lemma_reverse_word_bit(x: u64, r: u64)
    by (bit_vector)
    requires
        r < 64,
    ensures
        bit(reverse_word(x), r) == bit(x, (63 - r) as u64),
{
}

/// `x` with its 64 bits in reverse order: bit `q` of the result is bit
/// `63 - q` of `x`.
pub fn reverse_bits(x: u64) -> (r: u64)
    ensures
        forall|q: u64| q < 64 ==> #[trigger] bit(r, q) == bit(x, (63 - q) as u64),
        r == reverse_word(x),
{
    let x1: u64 = ((x >> 1) & 0x5555_5555_5555_5555) | ((x & 0x5555_5555_5555_5555) << 1);
    let x2: u64 = ((x1 >> 2) & 0x3333_3333_3333_3333) | ((x1 & 0x3333_3333_3333_3333) << 2);
    let x4: u64 = ((x2 >> 4) & 0x0f0f_0f0f_0f0f_0f0f) | ((x2 & 0x0f0f_0f0f_0f0f_0f0f) << 4);
    let x8: u64 = ((x4 >> 8) & 0x00ff_00ff_00ff_00ff) | ((x4 & 0x00ff_00ff_00ff_00ff) << 8);
    let x16: u64 = ((x8 >> 16) & 0x0000_ffff_0000_ffff) | ((x8 & 0x0000_ffff_0000_ffff) << 16);
    let r: u64 = (x16 >> 32) | (x16 << 32);
    proof {
        assert forall|q: u64| q < 64 implies #[trigger] bit(r, q) == bit(x, (63 - q) as u64) by {
            lemma_reverse_word_bit(x, q);
        }
    }
    r
}

/// Bits of a word shifted down by `d`, and of a word shifted up by `64 - d`.
pub proof fn lemma_bit_shifts(x: u64, d: u64, r: u64)
    by (bit_vector)
    requires
        r < 64,
        0 < d < 64,
    ensures
        bit(x >> d, r) == (r + d < 64 && bit(x, (r + d) as u64)),
        bit(x << ((64 - d) as u64), r) == (r + d >= 64 && bit(x, (r + d - 64) as u64)),
{
}

/// Two words that agree below bit `n` and in bit `n` agree below bit `n + 1`;
/// words that agree below bit 64 are equal.
pub proof fn lemma_low_bits_step(x: u64, y: u64, n: u64)
    by (bit_vector)
    requires
        n < 64,
        x & (((1u64 << n) - 1) as u64) == y & (((1u64 << n) - 1) as u64),
        bit(x, n) == bit(y, n),
    ensures
        n < 63 ==> x & (((1u64 << ((n + 1) as u64)) - 1) as u64) == y & (((1u64 << ((n + 1) as u64))
            - 1) as u64),
        n == 63 ==> x == y,
{
}

/// Two words with the same bits agree below every bit.
pub proof fn lemma_low_bits(x: u64, y: u64, n: u64)
    requires
        n < 64,
        forall|r: u64| r < 64 ==> bit(x, r) == bit(y, r),
    ensures
        x & (((1u64 << n) - 1) as u64) == y & (((1u64 << n) - 1) as u64),
    decreases n,
{
    if n == 0 {
        assert(x & (((1u64 << 0) - 1) as u64) == y & (((1u64 << 0) - 1) as u64)) by (bit_vector);
    } else {
        lemma_low_bits(x, y, (n - 1) as u64);
        lemma_low_bits_step(x, y, (n - 1) as u64);
    }
}

/// Two words with the same bits are equal.
pub proof fn lemma_bits_equal(x: u64, y: u64)
    requires
        forall|r: u64| r < 64 ==> bit(x, r) == bit(y, r),
    ensures
        x == y,
{
    lemma_low_bits(x, y, 63);
    lemma_low_bits_step(x, y, 63);
}

} // verus!
