//! Organizes competitive-programming solution files, named by numeric
//! problem identifier, into a shallow hierarchy of numeric-range folders
//! so that no folder holds more entries than a configurable threshold.
//!
//! The crate holds the logic only: extracting identifiers from file names,
//! grouping identifiers into decimal buckets, and planning renames with
//! deterministic collision handling. Walking directories and carrying the
//! renames out is left to the binary built on top of it.

pub mod cli;
pub mod digits;
pub mod grouper;
pub mod planner;
pub mod scanner;
pub mod seqs;
pub mod types;

pub use types::FileEntry;
pub use types::MoveOperation;
