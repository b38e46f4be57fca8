//! Controlled trimming of prefixes and suffixes of string slices.
//!
//! The methods of [`TrimMatchesExactlyExt`] trim a pattern off one end of a text only when it
//! matches there exactly the requested number of times in a row; otherwise they hand back the
//! untouched text. This serves for primitive parsing and text analysis.
//!
//! Positions are counted in characters (Unicode scalar values).
pub mod pattern;
pub mod trim;
pub mod laws;

pub use pattern::{Pattern, ReversePattern};
pub use trim::TrimMatchesExactlyExt;
