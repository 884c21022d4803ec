//! Core data types: a scanned file entry and a planned move.

use vstd::prelude::*;

verus! {

/// One file found under the root directory: its current path relative to
/// the root (with `/` separators), the problem number extracted from its
/// name (if the name is a pure numeric stem), and the file name itself.
#[derive(Debug, Clone, PartialEq, Eq)]
pub struct FileEntry {
    /// Path relative to the root directory.
    pub current_path: String,
    /// Problem number parsed from the file name, if any.
    pub problem_number: Option<u32>,
    /// File name, extension included.
    pub filename: String,
}

/// One planned rename from a source path to a destination path, both
/// relative to the root directory.
#[derive(Debug, Clone, PartialEq, Eq)]
pub struct MoveOperation {
    /// Relative path before the move.
    pub from: String,
    /// Relative path after the move.
    pub to: String,
}

impl MoveOperation {
    /// Builds a move operation from a source and a destination path.
    pub fn new(from: String, to: String) -> (r: MoveOperation)
        ensures
            r.from == from,
            r.to == to,
    {
        MoveOperation { from, to }
    }

    /// A move is needed exactly when source and destination differ.
    pub fn is_needed(&self) -> (r: bool)
        ensures
            r == (self.from@ != self.to@),
    {
        !self.from.eq(&self.to)
    }
}

} // verus!
