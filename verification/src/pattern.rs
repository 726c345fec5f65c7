//! The table of match words: for each symbol, one bit per pattern position
//! that says whether the pattern holds that symbol there.

use std::collections::HashMap;
use vstd::prelude::*;
use crate::bits::{
    bit, lemma_bit_consts, lemma_bit_logic, lemma_bit_shifts, lemma_bits_equal,
    lemma_reverse_word_bit, reverse_bits, reverse_word,
};

verus! {

broadcast use vstd::std_specs::hash::group_hash_axioms;

/// The longest pattern that the 32-bit scores of the blocks can carry.
pub const MAX_PATTERN_LEN: usize = 0x7fff_ff7f;

/// Number of 64-row blocks that a pattern of `m` symbols takes.
pub open spec fn block_count(m: nat) -> nat {
    (m + 63) / 64
}

/// Whether position `i` of the match vector of `c` is set: where the pattern
/// holds `c`, and on every position past the pattern's end.
pub open spec fn mask_bit(p: Seq<u16>, c: u16, i: int) -> bool {
    i >= p.len() || p[i] == c
}

/// The low `n` bits of word `b` of the match vector of `c`.
pub open spec fn word_of(p: Seq<u16>, c: u16, b: nat, n: nat) -> u64
    decreases n,
{
    if n == 0 {
        0
    } else {
        let low = word_of(p, c, b, (n - 1) as nat);
        if mask_bit(p, c, 64 * b + n - 1) {
            low | (1u64 << ((n - 1) as u64))
        } else {
            low
        }
    }
}

/// The match vector of a symbol that the pattern holds.
pub open spec fn symbol_words(p: Seq<u16>, c: u16) -> Seq<u64> {
    Seq::new(block_count(p.len()), |b: int| word_of(p, c, b as nat, 64))
}

/// The vector of `n` zero words, which stands for every symbol that the
/// pattern does not hold.
pub open spec fn zero_words(n: nat) -> Seq<u64> {
    Seq::new(n, |b: int| 0u64)
}

/// The match vector that the table gives for symbol `c`.
pub open spec fn mask_words(p: Seq<u16>, c: u16) -> Seq<u64> {
    if p.contains(c) {
        symbol_words(p, c)
    } else {
        zero_words(block_count(p.len()))
    }
}

/// Whether `c` stands among the first `i` symbols of `p`.
pub open spec fn occurs_before(p: Seq<u16>, c: u16, i: int) -> bool {
    exists|k: int| 0 <= k < i && k < p.len() && p[k] == c
}

/// Bit `r` of the low `n` bits of a word is the vector's bit, below `n`.
pub proof fn lemma_word_of_bit(p: Seq<u16>, c: u16, b: nat, n: nat, r: u64)
    requires
        n <= 64,
        r < 64,
    ensures
        bit(word_of(p, c, b, n), r) == (r < n && mask_bit(p, c, 64 * b + r)),
    decreases n,
{
    if n == 0 {
        lemma_bit_consts(0, r);
    } else {
        let s = (n - 1) as u64;
        let low = word_of(p, c, b, (n - 1) as nat);
        lemma_word_of_bit(p, c, b, (n - 1) as nat, r);
        lemma_bit_logic(low, 1u64 << s, r);
        lemma_bit_consts(s, r);
    }
}

/// Bit `r` of word `b` of the vector that the table gives for `c`: set where
/// the pattern holds `c` at position `64 * b + r`; past the pattern's end it
/// is set for the symbols of the pattern and clear for all others.
pub proof fn lemma_mask_words_bit(p: Seq<u16>, c: u16, b: int, r: u64)
    requires
        0 <= b < block_count(p.len()),
        r < 64,
    ensures
        mask_words(p, c).len() == block_count(p.len()),
        64 * b + r < p.len() ==> bit(mask_words(p, c)[b], r) == (p[64 * b + r] == c),
        64 * b + r >= p.len() ==> bit(mask_words(p, c)[b], r) == p.contains(c),
{
    if p.contains(c) {
        lemma_word_of_bit(p, c, b as nat, 64, r);
    } else {
        lemma_bit_consts(0, r);
    }
}

/// Number of bits past the pattern's end in the last word of a match vector.
pub open spec fn padding(m: nat) -> u64 {
    (64 * block_count(m) - m) as u64
}

/// Word `b` of a match vector turned round: the words in reverse order, the
/// bits of each reversed, and all shifted down by `pad` bits so that the
/// pattern's last position comes first; the bits past the pattern's end are
/// set.
pub open spec fn reversed_word(v: Seq<u64>, pad: u64, b: int) -> u64 {
    let here = reverse_word(v[v.len() - 1 - b]);
    let next = if b + 1 < v.len() {
        reverse_word(v[v.len() - 2 - b])
    } else {
        !0u64
    };
    if pad == 0 {
        here
    } else {
        (here >> pad) | (next << ((64 - pad) as u64))
    }
}

/// A match vector turned round.
pub open spec fn reversed_words(v: Seq<u64>, pad: u64) -> Seq<u64> {
    Seq::new(v.len(), |b: int| reversed_word(v, pad, b))
}

/// Turning round the match vector of a symbol gives its match vector for
/// the reversed pattern.
pub proof fn lemma_reversed_words(p: Seq<u16>, c: u16)
    requires
        p.len() >= 1,
    ensures
        reversed_words(symbol_words(p, c), padding(p.len())) == symbol_words(p.reverse(), c),
{
    let m = p.len();
    let blocks = block_count(m) as int;
    let pad = padding(m);
    let v = symbol_words(p, c);
    let pr = p.reverse();
    assert(pr.len() == m);
    assert forall|b: int| 0 <= b < blocks implies reversed_word(v, pad, b) == word_of(
        pr,
        c,
        b as nat,
        64,
    ) by {
        let here = reverse_word(v[blocks - 1 - b]);
        let next = if b + 1 < blocks {
            reverse_word(v[blocks - 2 - b])
        } else {
            !0u64
        };
        let x = reversed_word(v, pad, b);
        let y = word_of(pr, c, b as nat, 64);
        assert forall|r: u64| r < 64 implies bit(x, r) == bit(y, r) by {
            let i = 64 * b + r;
            lemma_word_of_bit(pr, c, b as nat, 64, r);
            if i < m {
                assert(pr[i] == p[m - 1 - i]);
            }
            if pad == 0 {
                lemma_reverse_word_bit(v[blocks - 1 - b], r);
                lemma_word_of_bit(p, c, (blocks - 1 - b) as nat, 64, (63 - r) as u64);
            } else {
                lemma_bit_logic(here >> pad, next << ((64 - pad) as u64), r);
                lemma_bit_shifts(here, pad, r);
                lemma_bit_shifts(next, pad, r);
                if r + pad < 64 {
                    let q = (r + pad) as u64;
                    lemma_reverse_word_bit(v[blocks - 1 - b], q);
                    lemma_word_of_bit(p, c, (blocks - 1 - b) as nat, 64, (63 - q) as u64);
                } else if b + 1 < blocks {
                    let q = (r + pad - 64) as u64;
                    lemma_reverse_word_bit(v[blocks - 2 - b], q);
                    lemma_word_of_bit(p, c, (blocks - 2 - b) as nat, 64, (63 - q) as u64);
                } else {
                    lemma_bit_consts(0, (r + pad - 64) as u64);
                }
            }
        }
        lemma_bits_equal(x, y);
    }
    assert(reversed_words(v, pad) =~= symbol_words(pr, c));
}

/// A symbol stands in the reversed pattern exactly where it stands in the pattern.
pub proof fn lemma_occurs_reversed(p: Seq<u16>, c: u16)
    ensures
        occurs_before(p.reverse(), c, p.len() as int) == occurs_before(p, c, p.len() as int),
{
    let pr = p.reverse();
    let m = p.len() as int;
    if occurs_before(p, c, m) {
        let k = choose|k: int| 0 <= k < m && k < p.len() && p[k] == c;
        assert(pr[m - 1 - k] == c);
    }
    if occurs_before(pr, c, m) {
        let k = choose|k: int| 0 <= k < m && k < pr.len() && pr[k] == c;
        assert(p[m - 1 - k] == c);
    }
}

/// The match vectors of one pattern, by symbol. Vectors live in `vectors`;
/// slot 0 is the zero vector, shared by every symbol that the pattern does
/// not hold. Code units below 256 find their slot in a table, the others in
/// a map.
pub struct PatternBits {
    len: usize,
    vectors: Vec<Vec<u64>>,
    low_slots: Vec<usize>,
    high_slots: HashMap<u16, usize>,
    pattern: Ghost<Seq<u16>>,
}

/// A vector of `n` zero words.
fn zero_vector(n: usize) -> (v: Vec<u64>)
    ensures
        v@ == zero_words(n as nat),
{
    let mut v: Vec<u64> = Vec::new();
    let mut b: usize = 0;
    while b < n
        invariant
            b <= n,
            v@ == zero_words(b as nat),
        decreases n - b,
    {
        v.push(0);
        b += 1;
        assert(v@ =~= zero_words(b as nat));
    }
    v
}

/// The match vector of `ch`, a word at a time.
fn build_words(pattern: &[u16], ch: u16, blocks: usize) -> (v: Vec<u64>)
    requires
        pattern.len() <= MAX_PATTERN_LEN,
        blocks == block_count(pattern@.len()),
    ensures
        v@ == symbol_words(pattern@, ch),
{
    let len = pattern.len();
    let mut v: Vec<u64> = Vec::new();
    let mut b: usize = 0;
    while b < blocks
        invariant
            len == pattern@.len(),
            len <= MAX_PATTERN_LEN,
            blocks == block_count(pattern@.len()),
            b <= blocks,
            v@.len() == b,
            forall|i: int| 0 <= i < b ==> v@[i] == word_of(pattern@, ch, i as nat, 64),
        decreases blocks - b,
    {
        let mut word: u64 = 0;
        let mut r: u64 = 0;
        while r < 64
            invariant
                len == pattern@.len(),
                len <= MAX_PATTERN_LEN,
                blocks == block_count(pattern@.len()),
                b < blocks,
                r <= 64,
                word == word_of(pattern@, ch, b as nat, r as nat),
            decreases 64 - r,
        {
            let idx: usize = b * 64 + (r as usize);
            if idx >= len || pattern[idx] == ch {
                word = word | (1u64 << r);
            }
            r += 1;
        }
        v.push(word);
        b += 1;
    }
    assert(v@ =~= symbol_words(pattern@, ch));
    v
}

/// A match vector turned round, a word at a time.
fn reverse_words(v: &Vec<u64>, pad: u64) -> (r: Vec<u64>)
    requires
        pad < 64,
    ensures
        r@ == reversed_words(v@, pad),
{
    let n = v.len();
    let mut r: Vec<u64> = Vec::with_capacity(n);
    let mut b: usize = 0;
    while b < n
        invariant
            n == v@.len(),
            pad < 64,
            b <= n,
            r@.len() == b,
            forall|i: int| 0 <= i < b ==> r@[i] == reversed_word(v@, pad, i),
        decreases n - b,
    {
        let here = reverse_bits(v[n - 1 - b]);
        let word = if pad == 0 {
            here
        } else {
            let next = if b + 1 < n {
                reverse_bits(v[n - 2 - b])
            } else {
                !0u64
            };
            (here >> pad) | (next << (64 - pad))
        };
        r.push(word);
        b += 1;
    }
    assert(r@ =~= reversed_words(v@, pad));
    r
}

impl PatternBits {
    /// The pattern that the table was built for.
    pub closed spec fn pattern(&self) -> Seq<u16> {
        self.pattern@
    }

    /// Whether slot `s` holds the vector that the table owes symbol `c` once
    /// the first `i` symbols of `p` are entered.
    spec fn slot_serves(&self, p: Seq<u16>, c: u16, i: int, s: usize) -> bool {
        &&& s < self.vectors@.len()
        &&& (s != 0) == occurs_before(p, c, i)
        &&& s != 0 ==> self.vectors@[s as int]@ == symbol_words(p, c)
    }

    /// The table's state when the first `i` symbols of `p` are entered.
    spec fn filled(&self, p: Seq<u16>, i: int) -> bool {
        &&& self.pattern@ == p
        &&& self.len == p.len()
        &&& p.len() <= MAX_PATTERN_LEN
        &&& 1 <= self.vectors@.len() <= i + 1
        &&& self.vectors@[0]@ == zero_words(block_count(p.len()))
        &&& self.low_slots@.len() == 256
        &&& forall|c: u16| c < 256 ==> self.slot_serves(p, c, i, #[trigger] self.low_slots@[c as int])
        &&& forall|c: u16| #[trigger]
            self.high_slots@.contains_key(c) ==> c >= 256 && self.high_slots@[c] != 0
                && self.slot_serves(p, c, i, self.high_slots@[c])
        &&& forall|c: u16|
            c >= 256 && !(#[trigger] self.high_slots@.contains_key(c)) ==> !occurs_before(p, c, i)
    }

    /// The table holds, for every symbol, the match vector of its pattern.
    pub closed spec fn wf(&self) -> bool {
        self.filled(self.pattern@, self.pattern@.len() as int)
    }

    /// Builds the table of `pattern`. The bits of a symbol are set once, when
    /// the symbol is first met.
    pub fn new(pattern: &[u16]) -> (bits: PatternBits)
        requires
            pattern.len() <= MAX_PATTERN_LEN,
        ensures
            bits.wf(),
            bits.pattern() == pattern@,
    {
        let len = pattern.len();
        let blocks: usize = (len + 63) / 64;
        let mut vectors: Vec<Vec<u64>> = Vec::new();
        vectors.push(zero_vector(blocks));
        let mut low_slots: Vec<usize> = Vec::new();
        let mut c: usize = 0;
        while c < 256
            invariant
                c <= 256,
                low_slots@.len() == c,
                forall|k: int| 0 <= k < c ==> low_slots@[k] == 0,
            decreases 256 - c,
        {
            low_slots.push(0);
            c += 1;
        }
        let mut bits = PatternBits {
            len,
            vectors,
            low_slots,
            high_slots: HashMap::new(),
            pattern: Ghost(pattern@),
        };
        let mut i: usize = 0;
        while i < len
            invariant
                len == pattern@.len(),
                len <= MAX_PATTERN_LEN,
                blocks == block_count(pattern@.len()),
                i <= len,
                bits.filled(pattern@, i as int),
            decreases len - i,
        {
            let ch = pattern[i];
            let ghost before = bits;
            let seen = if ch < 256 {
                bits.low_slots[ch as usize] != 0
            } else {
                bits.high_slots.contains_key(&ch)
            };
            if !seen {
                let words = build_words(pattern, ch, blocks);
                let slot = bits.vectors.len();
                bits.vectors.push(words);
                if ch < 256 {
                    bits.low_slots.set(ch as usize, slot);
                } else {
                    bits.high_slots.insert(ch, slot);
                }
            }
            i += 1;
            proof {
                assert(occurs_before(pattern@, ch, i as int)) by {
                    assert(pattern@[i - 1] == ch);
                }
                assert forall|c: u16| c != ch implies occurs_before(pattern@, c, i as int)
                    == occurs_before(pattern@, c, i - 1) by {
                    if occurs_before(pattern@, c, i as int) {
                        let k = choose|k: int| 0 <= k < i && k < pattern@.len() && pattern@[k] == c;
                        assert(0 <= k < i - 1 && pattern@[k] == c);
                    }
                }
                assert forall|c: u16| c < 256 implies bits.slot_serves(
                    pattern@,
                    c,
                    i as int,
                    #[trigger] bits.low_slots@[c as int],
                ) by {
                    assert(before.slot_serves(pattern@, c, i - 1, before.low_slots@[c as int]));
                }
                assert forall|c: u16| #[trigger]
                    bits.high_slots@.contains_key(c) implies c >= 256 && bits.high_slots@[c] != 0
                    && bits.slot_serves(pattern@, c, i as int, bits.high_slots@[c]) by {
                    if c != ch {
                        assert(before.high_slots@.contains_key(c));
                        assert(before.slot_serves(pattern@, c, i - 1, before.high_slots@[c]));
                    } else if seen {
                        assert(before.high_slots@.contains_key(c));
                        assert(before.slot_serves(pattern@, c, i - 1, before.high_slots@[c]));
                    }
                }
                assert forall|c: u16|
                    c >= 256 && !(#[trigger] bits.high_slots@.contains_key(c)) implies !occurs_before(
                    pattern@,
                    c,
                    i as int,
                ) by {
                    assert(!before.high_slots@.contains_key(c));
                }
            }
        }
        bits
    }

    /// The table of the reversed pattern, made from this table by turning
    /// each match vector round; the pattern is not read again.
    pub fn reverse(&self) -> (reversed: PatternBits)
        requires
            self.wf(),
        ensures
            reversed.wf(),
            reversed.pattern() == self.pattern().reverse(),
    {
        let len = self.len;
        let blocks: usize = (len + 63) / 64;
        let pad: u64 = (blocks * 64 - len) as u64;
        let ghost p = self.pattern@;
        let ghost pr = self.pattern@.reverse();
        let mut vectors: Vec<Vec<u64>> = Vec::with_capacity(self.vectors.len());
        vectors.push(zero_vector(blocks));
        let mut s: usize = 1;
        while s < self.vectors.len()
            invariant
                pad < 64,
                1 <= s <= self.vectors@.len(),
                vectors@.len() == s,
                vectors@[0]@ == zero_words(blocks as nat),
                forall|i: int|
                    1 <= i < s ==> (#[trigger] vectors@[i])@ == reversed_words(
                        self.vectors@[i]@,
                        pad,
                    ),
            decreases self.vectors@.len() - s,
        {
            vectors.push(reverse_words(&self.vectors[s], pad));
            s += 1;
        }
        let mut low_slots: Vec<usize> = Vec::with_capacity(256);
        let mut c: usize = 0;
        while c < 256
            invariant
                self.low_slots@.len() == 256,
                c <= 256,
                low_slots@.len() == c,
                forall|k: int| 0 <= k < c ==> low_slots@[k] == self.low_slots@[k],
            decreases 256 - c,
        {
            low_slots.push(self.low_slots[c]);
            c += 1;
        }
        let reversed = PatternBits {
            len,
            vectors,
            low_slots,
            high_slots: self.high_slots.clone(),
            pattern: Ghost(pr),
        };
        proof {
            let m = p.len() as int;
            assert(pr.len() == p.len());
            assert forall|c: u16, slot: usize| self.slot_serves(p, c, m, slot) implies #[trigger]
                reversed.slot_serves(pr, c, m, slot) by {
                lemma_occurs_reversed(p, c);
                if slot != 0 {
                    lemma_reversed_words(p, c);
                }
            }
            assert forall|c: u16| c < 256 implies reversed.slot_serves(
                pr,
                c,
                m,
                #[trigger] reversed.low_slots@[c as int],
            ) by {
                assert(self.slot_serves(p, c, m, self.low_slots@[c as int]));
            }
            assert forall|c: u16| #[trigger]
                reversed.high_slots@.contains_key(c) implies c >= 256 && reversed.high_slots@[c]
                != 0 && reversed.slot_serves(pr, c, m, reversed.high_slots@[c]) by {
                assert(self.high_slots@.contains_key(c));
                assert(self.slot_serves(p, c, m, self.high_slots@[c]));
            }
            assert forall|c: u16|
                c >= 256 && !(#[trigger] reversed.high_slots@.contains_key(
                    c,
                )) implies !occurs_before(pr, c, m) by {
                lemma_occurs_reversed(p, c);
                assert(!self.high_slots@.contains_key(c));
            }
        }
        reversed
    }

    /// Number of symbols of the pattern.
    pub fn pattern_len(&self) -> (n: usize)
        requires
            self.wf(),
        ensures
            n == self.pattern().len(),
            n <= MAX_PATTERN_LEN,
    {
        self.len
    }

    /// The match vector of `symbol`: one word per block of the pattern.
    pub fn lookup(&self, symbol: u16) -> (masks: &Vec<u64>)
        requires
            self.wf(),
        ensures
            masks@ == mask_words(self.pattern(), symbol),
    {
        let slot = if symbol < 256 {
            self.low_slots[symbol as usize]
        } else {
            match self.high_slots.get(&symbol) {
                Some(s) => *s,
                None => 0,
            }
        };
        proof {
            let p = self.pattern@;
            assert(occurs_before(p, symbol, p.len() as int) == p.contains(symbol)) by {
                if p.contains(symbol) {
                    let k = choose|k: int| 0 <= k < p.len() && p[k] == symbol;
                    assert(0 <= k < p.len() && k < p.len() && p[k] == symbol);
                }
            }
            if symbol < 256 {
                assert(self.slot_serves(p, symbol, p.len() as int, self.low_slots@[symbol as int]));
            } else if self.high_slots@.contains_key(symbol) {
                assert(self.slot_serves(p, symbol, p.len() as int, self.high_slots@[symbol]));
            }
        }
        &self.vectors[slot]
    }
}

} // verus!
