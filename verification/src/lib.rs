//! A verified parser and reverse index for the wwwjdic bilingual
//! example-sentence corpus.
//!
//! The corpus is a tab-delimited text file, one record per line: two numeric
//! sentence identifiers, the Japanese text, the English text, and a list of
//! index words (dictionary headwords with optional inline annotations).
//! This crate recognizes that micro-grammar, repairs known corpus dirtiness,
//! and folds all records into a reverse index from headword to the sentences
//! that exercise it.

pub mod example_sentences;
pub mod grammar;
pub mod index;
pub mod jisho;
pub mod laws;
pub mod normalize;
pub mod record;
pub mod serialize;
pub mod text;
