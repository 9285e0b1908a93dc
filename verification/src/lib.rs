//! Fast diff engine built on `imara-diff`: line, word and character diffs
//! whose result is the complete list of unchanged, removed and added runs
//! (the `jsdiff` `Change` shape), and unified diff text.
//!
//! The word and character tokenizers, the line tokenizer and the
//! reconstruction of runs from `imara-diff`'s hunks are this crate's own,
//! and verified: the runs that are not added spell `before` and the runs that
//! are not removed spell `after`.

pub mod diff;
pub mod engine;
pub mod text;
pub mod tokenize;

pub use diff::{char_diff, line_diff, unified_diff, word_diff, Change};
pub use imara_diff::Algorithm;
