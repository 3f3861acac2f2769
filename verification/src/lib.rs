//! A small pretty-printer for bracketed text.
//!
//! The formatter walks a text once, left to right, keeping a single
//! indentation-level counter.  Opening brackets start an indented line,
//! closing brackets return to the enclosing level, commas break the line
//! at the current level, and every other character passes through
//! unchanged.

pub mod format;
pub mod laws;
pub mod model;

pub use format::{close, comma, is_well_leveled, open, prettify};
