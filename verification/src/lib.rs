//! Approximate string matching for identifier-like names.
//!
//! The crate has two layers. [`distance`] computes a length-bounded edit
//! distance over Unicode scalar values, allowing insertions, deletions,
//! substitutions and adjacent transpositions. [`matcher`] ranks a list of
//! candidate names against a lookup string with a tiered strategy and returns
//! the best suggestion, if any.

pub mod distance;
pub mod matcher;

pub use distance::edit_distance;
pub use distance::edit_distance_with_substrings;
pub use matcher::find_best_match_for_name;
pub use matcher::find_best_match_for_name_impl;
