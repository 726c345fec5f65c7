use approx_string_match::bits::reverse_bits;
use approx_string_match::{
    advance_block, find_match_ends, find_match_ends_in, find_match_starts, find_match_starts_in,
    one_if_not_zero, reverse, Block, Match, PatternBits, BLOCK_LEN, MAX_PATTERN_LEN,
};

fn utf16_str(s: &str) -> Vec<u16> {
    s.encode_utf16().collect()
}

struct Lcg(u64);

impl Lcg {
    fn next(&mut self) -> u64 {
        self.0 = self.0.wrapping_mul(6364136223846793005).wrapping_add(1442695040888963407);
        let high = self.0 >> 32;
        self.0 = self.0.wrapping_mul(6364136223846793005).wrapping_add(1442695040888963407);
        (high << 32) | (self.0 >> 32)
    }
}

#[test]
fn one_if_not_zero_tells_zero_from_the_rest() {
    assert_eq!(one_if_not_zero(0), 0);
    assert_eq!(one_if_not_zero(1), 1);
    assert_eq!(one_if_not_zero(5), 1);
    assert_eq!(one_if_not_zero(1 << 63), 1);
    assert_eq!(one_if_not_zero(u64::MAX), 1);
}

#[test]
fn reverse_turns_the_symbols_round() {
    assert_eq!(reverse(&[1, 2, 3]), vec![3, 2, 1]);
    assert_eq!(reverse(&[7]), vec![7]);
    assert_eq!(reverse(&[]), Vec::<u16>::new());
    assert_eq!(reverse(&utf16_str("hello")), utf16_str("olleh"));
}

#[test]
fn limits_are_as_stated() {
    assert_eq!(BLOCK_LEN, 64);
    assert_eq!(MAX_PATTERN_LEN, i32::MAX as usize - 128);
}

#[test]
fn advance_block_matches_the_first_row() {
    // Pattern of 4 rows over a column 1, 2, 3, 4; the text symbol equals row 0.
    let mut block = Block { plus_v: !0, minus_v: 0, last_row_mask: 1 << 3, score: 4 };
    let h_out = advance_block(&mut block, 0b0001, 0);
    assert_eq!(h_out, -1);
    assert_eq!(block.plus_v, !1);
    assert_eq!(block.minus_v, 0);
    assert_eq!(block.last_row_mask, 1 << 3);
    assert_eq!(block.score, 4);
}

#[test]
fn advance_block_without_a_match_keeps_the_column() {
    let mut block = Block { plus_v: !0, minus_v: 0, last_row_mask: 1 << 63, score: 64 };
    let h_out = advance_block(&mut block, 0, 0);
    assert_eq!(h_out, 0);
    assert_eq!(block.plus_v, !0);
    assert_eq!(block.minus_v, 0);
}

#[test]
fn advance_block_carries_the_difference_from_above() {
    // Column 1, 2, 3, 4 under a boundary that rises by one: the rows stay,
    // and the first row is level with the boundary.
    let mut block = Block { plus_v: !0, minus_v: 0, last_row_mask: 1 << 3, score: 4 };
    assert_eq!(advance_block(&mut block, 0, 1), 0);
    assert_eq!(block.plus_v, !1);
    assert_eq!(block.minus_v, 0);
    // Under a boundary that falls by one, every row falls.
    let mut block = Block { plus_v: !0, minus_v: 0, last_row_mask: 1 << 3, score: 4 };
    assert_eq!(advance_block(&mut block, 0, -1), -1);
    assert_eq!(block.plus_v, !0);
    assert_eq!(block.minus_v, 0);
}

/// The values of the 64 rows below a boundary value `top`.
fn column(top: i64, plus_v: u64, minus_v: u64) -> Vec<i64> {
    let mut out = vec![top];
    for r in 0..64 {
        let d = ((plus_v >> r) & 1) as i64 - ((minus_v >> r) & 1) as i64;
        out.push(out[r] + d);
    }
    out
}

#[test]
fn advance_block_is_the_recurrence_of_the_table() {
    let mut rng = Lcg(3);
    for round in 0..3000 {
        let a = rng.next();
        let b = rng.next();
        let plus_v = a & !b;
        let minus_v = b & !a;
        let eq = rng.next() & rng.next();
        let h_in = (rng.next() % 3) as i32 - 1;
        let last = (rng.next() % 64) as usize;
        let mut block = Block { plus_v, minus_v, last_row_mask: 1 << last, score: 0 };
        let h_out = advance_block(&mut block, eq, h_in);
        assert_eq!(block.plus_v & block.minus_v, 0);
        let old = column(0, plus_v, minus_v);
        let new = column(h_in as i64, block.plus_v, block.minus_v);
        for r in 1..=64 {
            let cost = 1 - ((eq >> (r - 1)) & 1) as i64;
            let want = (old[r - 1] + cost).min(new[r - 1] + 1).min(old[r] + 1);
            assert_eq!(new[r], want, "round {} row {}", round, r);
        }
        assert_eq!(h_out as i64, new[last + 1] - old[last + 1], "round {}", round);
    }
}

#[test]
fn table_marks_the_places_of_each_symbol() {
    let bits = PatternBits::new(&utf16_str("abca"));
    assert_eq!(bits.pattern_len(), 4);
    let past_the_end = !0u64 << 4;
    assert_eq!(bits.lookup(97), &vec![past_the_end | 0b1001]);
    assert_eq!(bits.lookup(98), &vec![past_the_end | 0b0010]);
    assert_eq!(bits.lookup(99), &vec![past_the_end | 0b0100]);
    assert_eq!(bits.lookup(100), &vec![0]);
    assert_eq!(bits.lookup(0xd83d), &vec![0]);
}

#[test]
fn table_holds_symbols_above_the_low_range() {
    let pattern = utf16_str("a🙂b🙂");
    assert_eq!(pattern, vec![97, 0xd83d, 0xde42, 98, 0xd83d, 0xde42]);
    let bits = PatternBits::new(&pattern);
    let past_the_end = !0u64 << 6;
    assert_eq!(bits.lookup(0xd83d), &vec![past_the_end | 0b010010]);
    assert_eq!(bits.lookup(0xde42), &vec![past_the_end | 0b100100]);
    assert_eq!(bits.lookup(97), &vec![past_the_end | 0b000001]);
    assert_eq!(bits.lookup(0xffff), &vec![0]);
    assert_eq!(bits.lookup(255), &vec![0]);
    assert_eq!(bits.lookup(256), &vec![0]);
}

#[test]
fn table_of_a_long_pattern_has_a_word_per_block() {
    let mut pattern: Vec<u16> = vec![120; 130];
    pattern[0] = 97;
    pattern[64] = 97;
    pattern[129] = 97;
    let bits = PatternBits::new(&pattern);
    assert_eq!(bits.lookup(97), &vec![1, 1, (!0u64 << 2) | 0b10]);
    assert_eq!(bits.lookup(120), &vec![!1, !1, (!0u64 << 2) | 0b01]);
    assert_eq!(bits.lookup(98), &vec![0, 0, 0]);
}

#[test]
fn table_of_the_empty_pattern_has_no_words() {
    let bits = PatternBits::new(&[]);
    assert_eq!(bits.pattern_len(), 0);
    assert!(bits.lookup(97).is_empty());
    assert!(bits.reverse().lookup(97).is_empty());
}

#[test]
fn reversed_table_is_the_table_of_the_reversed_pattern() {
    let mut rng = Lcg(5);
    for len in [1usize, 2, 3, 5, 63, 64, 65, 100, 127, 128, 129, 155, 192, 200] {
        let pattern: Vec<u16> = (0..len)
            .map(|_| match rng.next() % 5 {
                0 => 97,
                1 => 98,
                2 => 255,
                3 => 256,
                _ => 0xd83d,
            })
            .collect();
        let reversed = PatternBits::new(&pattern).reverse();
        let direct = PatternBits::new(&reverse(&pattern));
        assert_eq!(reversed.pattern_len(), len);
        for symbol in [97u16, 98, 99, 255, 256, 257, 0xd83d, 0xffff] {
            assert_eq!(reversed.lookup(symbol), direct.lookup(symbol), "length {}", len);
        }
    }
}

#[test]
fn reversed_table_of_a_short_pattern() {
    let bits = PatternBits::new(&utf16_str("abb")).reverse();
    let past_the_end = !0u64 << 3;
    assert_eq!(bits.lookup(97), &vec![past_the_end | 0b100]);
    assert_eq!(bits.lookup(98), &vec![past_the_end | 0b011]);
    assert_eq!(bits.lookup(99), &vec![0]);
}

#[test]
fn ends_come_without_starts() {
    let matches = find_match_ends(&utf16_str("hello world"), &utf16_str("wrld"), 1);
    assert_eq!(matches.len(), 1);
    assert_eq!((matches[0].start, matches[0].end, matches[0].errors), (0, 11, 1));
}

#[test]
fn ends_of_all_equally_near_substrings() {
    let matches = find_match_ends(&utf16_str("xbc abx"), &utf16_str("abc"), 3);
    let ends: Vec<(usize, usize)> = matches.iter().map(|m| (m.end, m.errors)).collect();
    assert_eq!(ends, vec![(3, 1), (6, 1), (7, 1)]);
    assert!(find_match_ends(&utf16_str("xbc abx"), &utf16_str("abc"), 0).is_empty());
    assert!(find_match_ends(&utf16_str("xbc abx"), &[], 3).is_empty());
}

#[test]
fn starts_are_found_from_the_ends() {
    let text = utf16_str("hello world");
    let pattern = utf16_str("wrld");
    let ends = vec![Match { start: 0, end: 11, errors: 1 }];
    let matches = find_match_starts(&text, &pattern, ends);
    assert_eq!(matches.len(), 1);
    assert_eq!((matches[0].start, matches[0].end, matches[0].errors), (6, 11, 1));
}

#[test]
fn start_stays_at_the_end_where_nothing_is_found() {
    // No substring before position 3 is within 0 edits of the pattern.
    let text = utf16_str("xyzabc");
    let matches = find_match_starts(&text, &utf16_str("abc"), vec![Match { start: 0, end: 3, errors: 0 }]);
    assert_eq!((matches[0].start, matches[0].end, matches[0].errors), (3, 3, 0));
    let none = find_match_starts(&text, &utf16_str("abc"), Vec::new());
    assert!(none.is_empty());
}

#[test]
fn scans_with_a_table_built_once() {
    let text = utf16_str("hello world");
    let bits = PatternBits::new(&utf16_str("wrld"));
    let ends = find_match_ends_in(&text, &bits, 1);
    assert_eq!(ends.len(), 1);
    assert_eq!((ends[0].start, ends[0].end, ends[0].errors), (0, 11, 1));
    let matches = find_match_starts_in(&text, &bits.reverse(), ends);
    assert_eq!(matches.len(), 1);
    assert_eq!((matches[0].start, matches[0].end, matches[0].errors), (6, 11, 1));
}

#[test]
fn start_is_sought_no_further_back_than_the_edits_allow() {
    // With one edit a match of "abc" that ends at 9 starts at 5 or later.
    let text = utf16_str("abc__xbc_");
    let matches =
        find_match_starts(&text, &utf16_str("abc"), vec![Match { start: 0, end: 8, errors: 1 }]);
    assert_eq!((matches[0].start, matches[0].end, matches[0].errors), (5, 8, 1));
    // The exact occurrence at 0..3 is out of reach of the end 8, and is found from the end 3.
    let matches =
        find_match_starts(&text, &utf16_str("abc"), vec![Match { start: 0, end: 3, errors: 1 }]);
    assert_eq!((matches[0].start, matches[0].end, matches[0].errors), (0, 3, 1));
}

#[test]
fn reverse_bits_turns_a_word_round() {
    assert_eq!(reverse_bits(0), 0);
    assert_eq!(reverse_bits(1), 1 << 63);
    assert_eq!(reverse_bits(1 << 63), 1);
    assert_eq!(reverse_bits(0b1011), 0b1101 << 60);
    assert_eq!(reverse_bits(u64::MAX), u64::MAX);
    assert_eq!(reverse_bits(0x0123_4567_89ab_cdef), 0x0123_4567_89ab_cdefu64.reverse_bits());
}

/// Plain edit distance between two strings.
fn levenshtein(a: &[u16], b: &[u16]) -> usize {
    let mut row: Vec<usize> = (0..=b.len()).collect();
    for i in 1..=a.len() {
        let mut diag = row[0];
        row[0] = i;
        for j in 1..=b.len() {
            let cost = if a[i - 1] == b[j - 1] { 0 } else { 1 };
            let next = (diag + cost).min(row[j] + 1).min(row[j - 1] + 1);
            diag = row[j];
            row[j] = next;
        }
    }
    row[b.len()]
}

#[test]
fn no_earlier_start_is_as_near_for_any_end_at_its_least_distance() {
    let mut rng = Lcg(41);
    for _ in 0..300 {
        let m = 1 + (rng.next() % 5) as usize;
        let n = 1 + (rng.next() % 10) as usize;
        let pattern: Vec<u16> = (0..m).map(|_| 97 + (rng.next() % 2) as u16).collect();
        let text: Vec<u16> = (0..n).map(|_| 97 + (rng.next() % 3) as u16).collect();
        for end in 1..=n {
            let errors = (0..=end).map(|s| levenshtein(&pattern, &text[s..end])).min().unwrap();
            let found = find_match_starts(&text, &pattern, vec![Match { start: 0, end, errors }]);
            assert_eq!((found[0].end, found[0].errors), (end, errors));
            assert!(found[0].start < end);
            for s in 0..found[0].start {
                assert!(levenshtein(&pattern, &text[s..end]) > errors);
            }
        }
    }
}

#[test]
fn start_of_a_match_that_replaces_every_symbol() {
    let text: Vec<u16> = vec![97; 67];
    let pattern: Vec<u16> = vec![98; 65];
    let found = find_match_starts(&text, &pattern, vec![Match { start: 0, end: 67, errors: 65 }]);
    assert_eq!((found[0].start, found[0].end, found[0].errors), (0, 67, 65));
}

#[test]
fn ends_of_a_pattern_of_full_blocks() {
    let pattern: Vec<u16> = vec![97; 128];
    assert!(find_match_ends(&vec![97; 100], &pattern, 0).is_empty());
    let ends = find_match_ends(&vec![97; 130], &pattern, 0);
    let found: Vec<(usize, usize, usize)> = ends.iter().map(|m| (m.start, m.end, m.errors)).collect();
    assert_eq!(found, vec![(0, 128, 0), (0, 129, 0), (0, 130, 0)]);
    let ends = find_match_ends(&vec![97; 100], &pattern, 40);
    let found: Vec<(usize, usize, usize)> = ends.iter().map(|m| (m.start, m.end, m.errors)).collect();
    assert_eq!(found, vec![(0, 100, 28)]);
}

