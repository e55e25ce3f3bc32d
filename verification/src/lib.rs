//! Vocabulary store and adaptive review scheduler.
//!
//! The library keeps a corpus of vocabulary records, encodes and decodes the
//! tag-delimited text document that persists them, and ranks records for
//! review with a spaced-repetition heuristic.

pub mod chars;
pub mod clean;
pub mod codec;
pub mod entities;
pub mod external;
pub mod hotkey;
pub mod learning;
pub mod repo;
pub mod roundtrip;
pub mod search;
pub mod settings;
pub mod stats;
pub mod word;
