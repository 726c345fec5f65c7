//! Approximate string matching over 16-bit code units with the bit-parallel
//! dynamic programme of Myers, in blocks of 64 pattern rows.
//!
//! [`search_impl`] returns the places where a pattern occurs in a text with
//! the fewest edits, within a budget. Its contract says what is returned in
//! terms of edit distance alone; that this is what the scans of the modules
//! `scan`, `ends` and `starts` compute block by block is proved in
//! `frontier` and `leftmost`. The module `laws` states what follows for
//! every match.
//!
//! The modules, leaves first:
//! - `bits`: single bits of words, and the word identities that the rest uses;
//! - `block`: one block of 64 rows and its step to the next text symbol;
//! - `pattern`: the table of match vectors of a pattern;
//! - `scan`, `shape`, `ends`: the scan for the ends of matches;
//! - `starts`, `search`: the scan backwards for their starts, and the search;
//! - `distance`, `best`, `frontier`, `leftmost`: edit distance, the matches
//!   that a search owes, and the proof that the scans find them.

pub mod best;
pub mod bits;
pub mod block;
pub mod distance;
pub mod ends;
pub mod frontier;
pub mod laws;
pub mod leftmost;
pub mod pattern;
pub mod scan;
pub mod search;
pub mod shape;
pub mod starts;

pub use block::{advance_block, one_if_not_zero, Block, BLOCK_LEN};
pub use ends::{find_match_ends, find_match_ends_in};
pub use pattern::{PatternBits, MAX_PATTERN_LEN};
pub use search::{search_impl, Match};
pub use starts::{find_match_starts, find_match_starts_in, reverse};
