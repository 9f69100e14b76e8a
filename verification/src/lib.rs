//! Extraction of issue-tracker references from free-form text, together with
//! the pure parts of a small tracker client: building the REST URLs and
//! decoding the JSON issue-summary response.
//!
//! The scanner finds every non-overlapping occurrence of a literal prefix
//! immediately followed by a maximal run of decimal digits, collapses the
//! occurrences to one entry per numeric id, and returns them in ascending
//! id order.

pub mod scanner;
pub mod tracker;
