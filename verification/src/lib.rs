//! Small verified algorithm exercises: pricing-strategy aggregation,
//! binary-search variants, line-oriented record parsing, a Bloom filter
//! over a word collection, anagram grouping, and subword decomposition.

pub mod anagrams;
pub mod bloom;
pub mod chop;
pub mod munging;
pub mod pricing;
pub mod subwords;
pub mod text;
