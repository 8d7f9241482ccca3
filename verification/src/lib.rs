//! Sequence diffing: a longest-common-subsequence based edit-script engine
//! together with character, word and line level text diffing built on it.

pub mod basic;
pub mod lcs;
pub mod text;

pub use basic::diff_slice;
pub use text::diff_chars;
pub use text::diff_lines;
pub use text::diff_words;
