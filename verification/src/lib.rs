//! Intergenic-region inference over genome annotation records.
//!
//! The library parses annotation text into feature records, sweeps the
//! ordered records to find the coordinate spans not covered by any
//! qualifying feature, synthesizes annotation records for those spans,
//! merges and sorts the combined record set, extracts subsequences from a
//! reference sequence, and re-serializes the results. All coordinates are
//! 1-based and end-inclusive.

pub mod depth;
pub mod engine;
pub mod extract;
pub mod format;
pub mod merge;
pub mod model;
pub mod parse;
pub mod strutil;
pub mod synth;
