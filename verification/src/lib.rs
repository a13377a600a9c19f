//! Convert identifier-like strings between naming conventions.
//!
//! An input line is tokenized into normalized lowercase words
//! (splitting at camelCase transitions and at `_`, `-` and space),
//! and the words are then rendered in a chosen case style.

pub mod chars;
pub mod tokenizer;
pub mod recombiner;
pub mod laws;
