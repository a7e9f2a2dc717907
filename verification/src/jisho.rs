//! Plain data model of a remote dictionary's word-lookup response.
//!
//! The core never calls the network: it only defines the shape of the data
//! that a details view consumes after an outside lookup. Deserialization
//! lives with the caller, which converts into these bare types.

use vstd::prelude::*;

verus! {

/// Status metadata of a lookup response.
#[derive(Debug, Clone, PartialEq, Eq, Structural)]
pub struct Status {
    pub status: u32,
}

/// One Japanese spelling/reading pair of a dictionary entry.
#[derive(Debug, Clone, PartialEq, Eq)]
pub struct JapaneseWord {
    pub word: Option<String>,
    pub reading: Option<String>,
}

/// One sense of a dictionary entry: its English definitions and parts of
/// speech.
#[derive(Debug, Clone, PartialEq, Eq)]
pub struct Sense {
    pub english_definitions: Vec<String>,
    pub parts_of_speech: Vec<String>,
}

/// One dictionary entry of a lookup response.
#[derive(Debug, Clone, PartialEq, Eq)]
pub struct Entry {
    pub slug: String,
    pub is_common: Option<bool>,
    pub japanese: Vec<JapaneseWord>,
    pub senses: Vec<Sense>,
}

/// A whole word-lookup response.
#[derive(Debug, Clone, PartialEq, Eq)]
pub struct JishoResponse {
    pub meta: Status,
    pub data: Vec<Entry>,
}

} // verus!
