//! Multi-word anagram engine over a restricted Latin alphabet with diacritics.
//!
//! A query phrase is encoded into single-byte letters (five bits of base-letter
//! ordinal, three bits of diacritic identifier), matched against a vocabulary
//! index by sorted-letter multiset inclusion, and every combination of words
//! that consumes the phrase's letters exactly is scored by part-of-speech
//! adjacency and n-gram statistics.

pub mod codec;
pub mod letters;
pub mod tags;
pub mod index;
pub mod search;
pub mod scoring;
