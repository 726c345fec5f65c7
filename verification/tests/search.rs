use approx_string_match::{search_impl, Match};

fn utf16_str(s: &str) -> Vec<u16> {
    s.encode_utf16().collect()
}

fn triples(matches: &[Match]) -> Vec<(usize, usize, usize)> {
    matches.iter().map(|m| (m.start, m.end, m.errors)).collect()
}

#[test]
fn it_finds_short_pattern_in_short_text() {
    let text = utf16_str("hello world");
    let pattern = utf16_str("wrld");

    let matches = search_impl(&text, &pattern, 1);

    assert_eq!(matches.len(), 1);
    assert_eq!(matches[0].errors, 1);
}

#[test]
fn it_finds_match_for_pattern_with_repeated_chars() {
    let text = utf16_str("some cases");
    let pattern = utf16_str("some cas");

    let matches = search_impl(&text, &pattern, 0);

    assert_eq!(matches.len(), 1);
    assert_eq!(matches[0].start, 0);
    assert_eq!(matches[0].end, pattern.len());
    assert_eq!(matches[0].errors, 0);
}

#[test]
fn it_finds_match_for_pattern_in_longer_string() {
    let text = utf16_str("Escaping double-quotes can be cumbersome in some cases such as writing regular expressions or defining a JSON object as a string literal");
    let pattern = utf16_str("reglar expressions");

    let matches = search_impl(&text, &pattern, 1);

    assert_eq!(matches.len(), 1);
    assert_eq!(matches[0].start, 71);
    assert_eq!(matches[0].end, matches[0].start + pattern.len() + 1);
    assert_eq!(matches[0].errors, 1);
}

#[test]
fn it_finds_no_match_for_long_pattern_in_long_text() {
    let text = utf16_str("aaaaaaaaaaaaaaaaaaaaaaaaaaaaaaaaaaaaaaaaaaaaaaaaaaaaaaaaaaaaaaaaaaa");
    let pattern =
        utf16_str("bbbbbbbbbbbbbbbbbbbbbbbbbbbbbbbbbbbbbbbbbbbbbbbbbbbbbbbbbbbbbbbbb");
    let matches = search_impl(&text, &pattern, pattern.len() as u32);
    assert_eq!(matches.len(), 67);
    assert_eq!(matches[0].errors, 65);
}

#[test]
fn it_finds_match_for_non_ascii_pattern() {
    let text = utf16_str("hello world 🙂");
    let pattern = utf16_str("world 🙂");
    let matches = search_impl(&text, &pattern, 0);
    assert_eq!(matches.len(), 1);
    assert_eq!(matches[0].start, text.len() - pattern.len());
}

#[test]
fn it_finds_match_for_long_pattern() {
    let text = utf16_str("Many years later, as he faced the firing squad, Colonel Aureliano Buendía was to remember that distant afternoon when his father took him to discover ice.");
    let pattern = text.clone();
    let matches = search_impl(&text, &pattern, 0);

    assert_eq!(matches.len(), 1);
    assert_eq!(matches[0].errors, 0);
    assert_eq!(matches[0].start, 0);
}

/// Plain edit distance between two strings.
fn levenshtein(a: &[u16], b: &[u16]) -> usize {
    let mut row: Vec<usize> = (0..=b.len()).collect();
    for i in 1..=a.len() {
        let mut diag = row[0];
        row[0] = i;
        for j in 1..=b.len() {
            let cost = if a[i - 1] == b[j - 1] { 0 } else { 1 };
            let next = (diag + cost).min(row[j] + 1).min(row[j - 1] + 1);
            diag = row[j];
            row[j] = next;
        }
    }
    row[b.len()]
}

/// Last row of the table in which a match may start anywhere in the text:
/// entry `e` is the least distance of the pattern to a substring ending at `e`.
fn ending_distances(text: &[u16], pattern: &[u16]) -> Vec<usize> {
    let m = pattern.len();
    let mut col: Vec<usize> = (0..=m).collect();
    let mut last = vec![m];
    for j in 1..=text.len() {
        let mut diag = col[0];
        for i in 1..=m {
            let cost = if pattern[i - 1] == text[j - 1] { 0 } else { 1 };
            let next = (diag + cost).min(col[i - 1] + 1).min(col[i] + 1);
            diag = col[i];
            col[i] = next;
        }
        last.push(col[m]);
    }
    last
}

/// The result of a search, from the tables alone.
fn search_by_table(text: &[u16], pattern: &[u16], k: usize) -> Vec<(usize, usize, usize)> {
    let m = pattern.len();
    let mut out = Vec::new();
    if m == 0 || text.is_empty() {
        return out;
    }
    let dist = ending_distances(text, pattern);
    let best = *dist[1..].iter().min().unwrap();
    if best > k.min(m) {
        return out;
    }
    let pat_rev: Vec<u16> = pattern.iter().rev().cloned().collect();
    for e in 1..=text.len() {
        if dist[e] != best {
            continue;
        }
        let from = e.saturating_sub(m + best);
        let window: Vec<u16> = text[from..e].iter().rev().cloned().collect();
        let back = ending_distances(&window, &pat_rev);
        let back_best = *back[1..].iter().min().unwrap();
        let mut start = e;
        if back_best <= best {
            for (far, d) in back.iter().enumerate().skip(1) {
                if *d == back_best {
                    start = e - far;
                }
            }
        }
        out.push((start, e, best));
    }
    out
}

struct Lcg(u64);

impl Lcg {
    fn next(&mut self, bound: u64) -> u64 {
        self.0 = self.0.wrapping_mul(6364136223846793005).wrapping_add(1442695040888963407);
        (self.0 >> 33) % bound
    }

    fn string(&mut self, len: usize, alphabet: u64) -> Vec<u16> {
        (0..len).map(|_| 97 + self.next(alphabet) as u16).collect()
    }
}

#[test]
fn search_agrees_with_the_table_on_short_patterns() {
    let mut rng = Lcg(1);
    for round in 0..4000 {
        let m = 1 + rng.next(9) as usize;
        let n = rng.next(24) as usize;
        let alphabet = 1 + rng.next(3);
        let pattern = rng.string(m, alphabet);
        let text = rng.string(n, alphabet);
        let k = rng.next(m as u64 + 3) as usize;
        let got = triples(&search_impl(&text, &pattern, k as u32));
        let want = search_by_table(&text, &pattern, k);
        assert_eq!(got, want, "round {} text {:?} pattern {:?} k {}", round, text, pattern, k);
    }
}

#[test]
fn search_agrees_with_the_table_on_long_patterns() {
    let mut rng = Lcg(7);
    for round in 0..300 {
        let m = match round % 6 {
            0 => 64 * (1 + rng.next(4) as usize),
            _ => 60 + rng.next(200) as usize,
        };
        let n = rng.next(400) as usize;
        let alphabet = 1 + rng.next(4);
        let pattern = rng.string(m, alphabet);
        let mut text = rng.string(n, alphabet);
        if rng.next(2) == 0 {
            let at = rng.next(text.len() as u64 + 1) as usize;
            let mut noisy = pattern.clone();
            for _ in 0..rng.next(6) {
                let i = rng.next(noisy.len() as u64) as usize;
                noisy[i] = 97 + rng.next(alphabet + 1) as u16;
            }
            text.splice(at..at, noisy);
        }
        let k = rng.next(m as u64 + 3) as usize;
        let got = triples(&search_impl(&text, &pattern, k as u32));
        let want = search_by_table(&text, &pattern, k);
        assert_eq!(got, want, "round {} m {} n {} k {}", round, m, text.len(), k);
    }
}

#[test]
fn one_edit_in_a_short_text() {
    let matches = search_impl(&utf16_str("hello world"), &utf16_str("wrld"), 1);
    assert_eq!(triples(&matches), vec![(6, 11, 1)]);
}

#[test]
fn exact_prefix_with_repeated_symbols() {
    let matches = search_impl(&utf16_str("some cases"), &utf16_str("some cas"), 0);
    assert_eq!(triples(&matches), vec![(0, 8, 0)]);
}

#[test]
fn one_edit_in_a_longer_text() {
    let text = utf16_str("Escaping double-quotes can be cumbersome in some cases such as writing regular expressions or defining a JSON object as a string literal");
    let matches = search_impl(&text, &utf16_str("reglar expressions"), 1);
    assert_eq!(triples(&matches), vec![(71, 90, 1)]);
}

#[test]
fn surrogate_pair_counts_as_two_symbols() {
    let text = utf16_str("hello world 🙂");
    let pattern = utf16_str("world 🙂");
    assert_eq!(pattern.len(), 8);
    let matches = search_impl(&text, &pattern, 0);
    assert_eq!(triples(&matches), vec![(text.len() - pattern.len(), text.len(), 0)]);
}

#[test]
fn nearest_substring_with_a_budget_of_the_whole_pattern() {
    let text = utf16_str("The rain in Spain falls mainly on the plain");
    let pattern = utf16_str("rain in England falls");
    let matches = search_impl(&text, &pattern, pattern.len() as u32);
    assert_eq!(matches.len(), 1);
    let found = &text[matches[0].start..matches[0].end];
    assert_eq!(found, &utf16_str("rain in Spain falls")[..]);
    assert_eq!(matches[0].errors, levenshtein(&pattern, found));
    assert_eq!(matches[0].errors, 6);
}

#[test]
fn pattern_searched_in_itself() {
    for len in [1usize, 2, 7, 63, 64, 65, 100, 127, 128, 129, 155, 191, 192, 193, 200, 256] {
        let mut rng = Lcg(len as u64);
        let pattern = rng.string(len, 5);
        let matches = search_impl(&pattern, &pattern, 0);
        assert_eq!(triples(&matches), vec![(0, len, 0)], "length {}", len);
    }
}

#[test]
fn empty_pattern_finds_nothing() {
    assert!(search_impl(&utf16_str("hello"), &[], 0).is_empty());
    assert!(search_impl(&utf16_str("hello"), &[], 3).is_empty());
    assert!(search_impl(&[], &[], 3).is_empty());
}

#[test]
fn empty_text_finds_nothing() {
    assert!(search_impl(&[], &utf16_str("abc"), 0).is_empty());
    assert!(search_impl(&[], &utf16_str("abc"), 3).is_empty());
    assert!(search_impl(&[], &utf16_str("abc"), 9).is_empty());
}

#[test]
fn budget_above_the_pattern_length_is_clamped() {
    let text = utf16_str("The rain in Spain falls mainly on the plain");
    for pattern in ["xyz", "rain in England falls", "plain", "q"] {
        let pattern = utf16_str(pattern);
        let m = pattern.len() as u32;
        let clamped = triples(&search_impl(&text, &pattern, m));
        assert_eq!(triples(&search_impl(&text, &pattern, m + 1)), clamped);
        assert_eq!(triples(&search_impl(&text, &pattern, 1000)), clamped);
        assert_eq!(triples(&search_impl(&text, &pattern, u32::MAX)), clamped);
    }
}

#[test]
fn no_budget_reports_exact_matches_only() {
    let text = utf16_str("abcabd abc");
    assert_eq!(triples(&search_impl(&text, &utf16_str("abc"), 0)), vec![(0, 3, 0), (7, 10, 0)]);
    assert!(search_impl(&text, &utf16_str("abx"), 0).is_empty());
}

#[test]
fn only_the_nearest_matches_are_kept() {
    // "abd" is one edit away, but the exact occurrences make it drop out.
    let text = utf16_str("abd abc abd abc");
    let matches = search_impl(&text, &utf16_str("abc"), 2);
    assert_eq!(triples(&matches), vec![(4, 7, 0), (12, 15, 0)]);
}

#[test]
fn equally_near_matches_are_all_kept_by_increasing_end() {
    let text = utf16_str("xbc abx");
    let matches = search_impl(&text, &utf16_str("abc"), 1);
    assert_eq!(triples(&matches), vec![(0, 3, 1), (4, 6, 1), (4, 7, 1)]);
}

#[test]
fn nothing_within_budget_finds_nothing() {
    assert!(search_impl(&utf16_str("aaaaaaaa"), &utf16_str("bbbb"), 3).is_empty());
    assert_eq!(search_impl(&utf16_str("aaaaaaaa"), &utf16_str("bbbb"), 4).len(), 8);
}

#[test]
fn start_reaches_back_to_the_first_nearest_substring() {
    // "a" at 0..1 is the first substring one edit from "ab" in reach of each end;
    // the whole of "aca" is two edits away.
    let text = utf16_str("aca");
    let pattern = utf16_str("ab");
    let matches = search_impl(&text, &pattern, 1);
    assert_eq!(triples(&matches), vec![(0, 1, 1), (0, 2, 1), (0, 3, 1)]);
    assert_eq!(levenshtein(&pattern, &text), 2);
}

#[test]
fn matches_lie_in_the_text_and_within_budget() {
    let mut rng = Lcg(11);
    for _ in 0..2000 {
        let m = 1 + rng.next(70) as usize;
        let n = rng.next(90) as usize;
        let alphabet = 1 + rng.next(3);
        let pattern = rng.string(m, alphabet);
        let text = rng.string(n, alphabet);
        let k = rng.next(m as u64 + 3) as usize;
        for r in search_impl(&text, &pattern, k as u32) {
            assert!(r.start <= r.end && r.end <= text.len());
            assert!(r.errors <= k.min(m));
        }
    }
}

#[test]
fn errors_are_the_least_distance_of_any_substring() {
    let mut rng = Lcg(13);
    for _ in 0..400 {
        let m = 1 + rng.next(6) as usize;
        let n = 1 + rng.next(12) as usize;
        let alphabet = 1 + rng.next(3);
        let pattern = rng.string(m, alphabet);
        let text = rng.string(n, alphabet);
        let k = rng.next(m as u64 + 2) as usize;
        let mut least = usize::MAX;
        for s in 0..=n {
            for e in s..=n {
                least = least.min(levenshtein(&pattern, &text[s..e]));
            }
        }
        let matches = search_impl(&text, &pattern, k as u32);
        assert_eq!(matches.is_empty(), least > k);
        for r in &matches {
            assert_eq!(r.errors, least);
            let by_end = (0..=r.end).map(|s| levenshtein(&pattern, &text[s..r.end])).min().unwrap();
            assert_eq!(r.errors, by_end);
            let by_start =
                (r.start..=r.end).map(|b| levenshtein(&pattern, &text[r.start..b])).min().unwrap();
            assert_eq!(r.errors, by_start);
        }
    }
}

#[test]
fn no_earlier_start_is_as_near() {
    let mut rng = Lcg(17);
    for _ in 0..400 {
        let m = 1 + rng.next(6) as usize;
        let n = 1 + rng.next(14) as usize;
        let alphabet = 1 + rng.next(3);
        let pattern = rng.string(m, alphabet);
        let text = rng.string(n, alphabet);
        let k = rng.next(m as u64 + 2) as usize;
        for r in search_impl(&text, &pattern, k as u32) {
            for s in 0..r.start {
                assert!(levenshtein(&pattern, &text[s..r.end]) > r.errors);
            }
        }
    }
}

#[test]
fn exact_matches_are_the_pattern() {
    let mut rng = Lcg(19);
    for _ in 0..400 {
        let m = 1 + rng.next(5) as usize;
        let n = 1 + rng.next(30) as usize;
        let pattern = rng.string(m, 2);
        let text = rng.string(n, 2);
        for r in search_impl(&text, &pattern, 1) {
            if r.errors == 0 {
                assert_eq!(&text[r.start..r.end], &pattern[..]);
            }
        }
    }
}

#[test]
fn reversed_search_mirrors_into_the_text() {
    let text = utf16_str("hello world");
    let pattern = utf16_str("wrld");
    let forward = search_impl(&text, &pattern, 1);
    let text_rev: Vec<u16> = text.iter().rev().cloned().collect();
    let pattern_rev: Vec<u16> = pattern.iter().rev().cloned().collect();
    let backward = search_impl(&text_rev, &pattern_rev, 1);
    assert_eq!(triples(&forward), vec![(6, 11, 1)]);
    assert_eq!(triples(&backward), vec![(0, 3, 1), (0, 4, 1), (0, 5, 1)]);
    for r in &backward {
        let (a, b) = (text.len() - r.end, text.len() - r.start);
        assert_eq!(levenshtein(&pattern, &text[a..b]), r.errors);
        assert_eq!(r.errors, forward[0].errors);
    }
}

#[test]
fn reversed_search_has_the_edits_of_the_search_forward() {
    let mut rng = Lcg(23);
    for _ in 0..500 {
        let m = 1 + rng.next(8) as usize;
        let n = rng.next(20) as usize;
        let alphabet = 1 + rng.next(3);
        let pattern = rng.string(m, alphabet);
        let text = rng.string(n, alphabet);
        let k = rng.next(m as u64 + 2) as u32;
        let forward = search_impl(&text, &pattern, k);
        let text_rev: Vec<u16> = text.iter().rev().cloned().collect();
        let pattern_rev: Vec<u16> = pattern.iter().rev().cloned().collect();
        let backward = search_impl(&text_rev, &pattern_rev, k);
        assert_eq!(forward.is_empty(), backward.is_empty());
        for r in &backward {
            assert_eq!(r.errors, forward[0].errors);
            let (a, b) = (text.len() - r.end, text.len() - r.start);
            assert_eq!(
                levenshtein(&pattern, &text[a..b]),
                levenshtein(&pattern_rev, &text_rev[r.start..r.end])
            );
            let from_a = (a..=text.len()).map(|e| levenshtein(&pattern, &text[a..e])).min().unwrap();
            assert_eq!(from_a, r.errors);
        }
    }
}

#[test]
fn two_full_blocks_with_a_wide_budget() {
    let pattern: Vec<u16> = vec![97; 128];
    let matches = search_impl(&pattern, &pattern, 128);
    assert_eq!(triples(&matches), vec![(0, 128, 0)]);
}

#[test]
fn full_last_block_entered_late() {
    // 128 is a multiple of 64, and with no budget the scan starts on the
    // first block alone and enters the last block only at the 65th symbol.
    let pattern: Vec<u16> = vec![97; 128];
    let text: Vec<u16> = vec![97; 200];
    let matches = search_impl(&text, &pattern, 0);
    let want: Vec<(usize, usize, usize)> = (128..=200).map(|e| (e - 128, e, 0)).collect();
    assert_eq!(triples(&matches), want);
}

#[test]
fn full_last_block_in_a_text_too_short() {
    // Every end of the text is at least 28 edits from the pattern.
    let pattern: Vec<u16> = vec![97; 128];
    let text: Vec<u16> = vec![97; 100];
    assert!(search_impl(&text, &pattern, 0).is_empty());
    assert!(search_impl(&text, &pattern, 27).is_empty());
    assert_eq!(triples(&search_impl(&text, &pattern, 28)), vec![(0, 100, 28)]);
    assert_eq!(triples(&search_impl(&text, &pattern, 128)), vec![(0, 100, 28)]);
}

#[test]
fn larger_budget_keeps_a_result_that_is_not_empty() {
    let pattern: Vec<u16> = vec![97; 128];
    let text: Vec<u16> = vec![97; 200];
    let narrow = triples(&search_impl(&text, &pattern, 0));
    assert!(!narrow.is_empty());
    for k in [1u32, 63, 64, 65, 127, 128, 500] {
        assert_eq!(triples(&search_impl(&text, &pattern, k)), narrow, "budget {}", k);
    }
    let mut rng = Lcg(29);
    for _ in 0..300 {
        let m = 1 + rng.next(8) as usize;
        let n = rng.next(20) as usize;
        let pattern = rng.string(m, 2);
        let text = rng.string(n, 2);
        let k = rng.next(m as u64 + 1) as u32;
        let narrow = triples(&search_impl(&text, &pattern, k));
        if !narrow.is_empty() {
            assert_eq!(triples(&search_impl(&text, &pattern, k + 1 + rng.next(5) as u32)), narrow);
        }
    }
}

#[test]
fn search_agrees_with_the_table_on_patterns_of_full_blocks() {
    let mut rng = Lcg(31);
    for round in 0..200 {
        let m = 64 * (2 + rng.next(3) as usize);
        let alphabet = 1 + rng.next(3);
        let pattern = rng.string(m, alphabet);
        let n = rng.next(300) as usize;
        let mut text = rng.string(n, alphabet);
        if rng.next(3) > 0 {
            let at = rng.next(text.len() as u64 + 1) as usize;
            let mut noisy = pattern.clone();
            for _ in 0..rng.next(5) {
                let i = rng.next(noisy.len() as u64) as usize;
                noisy[i] = 97 + rng.next(alphabet + 1) as u16;
            }
            text.splice(at..at, noisy);
        }
        let k = rng.next(m as u64 + 3) as usize;
        let got = triples(&search_impl(&text, &pattern, k as u32));
        let want = search_by_table(&text, &pattern, k);
        assert_eq!(got, want, "round {} m {} n {} k {}", round, m, text.len(), k);
    }
}
