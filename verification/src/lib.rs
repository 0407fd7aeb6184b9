//! Builds lists of homophone pairs: a vocabulary is read from word-list
//! files, each word is looked up on a reference page, and the words listed
//! there as homophones are assembled into a canonical pair list and a flat,
//! deduplicated single-word list.
//!
//! This crate holds the pipeline's logic: configuration validation, vocabulary
//! normalization, homophone extraction from fetched markup, the retry policy
//! for fetching, pair assembly, and output rendering. File and network I/O
//! live outside it; callers hand in file lines and fetched page bodies and
//! write the rendered lines out.

pub mod config;
pub mod fetch;
pub mod order;
pub mod output;
pub mod pairs;
pub mod vocab;
