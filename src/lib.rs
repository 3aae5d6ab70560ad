//! Line and blank-line counting over directory trees.
//!
//! - `counts`: how a file's bytes become a line count and a blank-line count.
//! - `totals`: merging per-file counts into buckets keyed by extension.
//! - `walker`: the decisions of a resumable depth-first directory walk.
pub mod counts;
pub mod totals;
pub mod walker;
