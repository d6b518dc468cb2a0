//! Finds all sets of five words, drawn from a word list, such that each
//! word has exactly five distinct letters and no letter repeats anywhere
//! across the five words: twenty-five distinct letters in all.
//!
//! - [`word`] holds the letter-set abstraction: a [`word::Word`] reduces a
//!   string to a 26-bit signature, one bit per letter, and validation
//!   rejects anything that is not five distinct letters.
//! - [`dictionary`] builds a deduplicated [`dictionary::Dictionary`] from
//!   raw lines, merging anagrams and duplicates into one entry per
//!   signature while keeping every original spelling.
//! - [`search`] enumerates every 5-combination of entries with pairwise
//!   disjoint signatures, each combination exactly once, pruning a branch as
//!   soon as a candidate shares a letter with the prefix chosen so far.

pub mod dictionary;
pub mod search;
pub mod word;
