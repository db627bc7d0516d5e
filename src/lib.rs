//! A Byte Pair Encoding model: it splits a string into subword tokens, each with its id
//! and the byte span it covers, by resolving every character against a vocabulary and
//! then merging adjacent symbols by rank. The behaviour is stated in contracts and proved.
//!
//! - `word`: the linked-array word and greedy merging, with and without dropout.
//! - `model`: the model, its rules for characters, and tokenization.
//! - `builder`: configuration and validation of a model.
//! - `cache`: the concurrent memo of merged words.
//! - `serialization`: reading and writing the vocabulary and merges files' text.
//! - `text`: UTF-8 helpers; `maps`: the hash maps the model keeps.

use vstd::prelude::*;

pub mod maps;
pub mod word;
pub mod text;
pub mod model;
pub mod builder;
pub mod cache;
pub mod serialization;

verus! {

} // verus!
