//! Display width of Unicode codepoints.
//!
//! The crate holds two halves: an offline search (`bits`, `bucket`, `optimize`)
//! that picks which bits of a codepoint index each level of a multi-level
//! width table, and the runtime structure (`search`) that resolves a codepoint
//! to its width class by descending fixed-size nodes, with the per-character
//! API (`width`) on top of it.

pub mod bits;
pub mod bucket;
pub mod search;
pub mod width;
pub mod optimize;
