//! The run configuration, and validation of command-line values.
//!
//! Argument parsing itself lives in the binary; it fills [`Cli`] and
//! hands it over.

use vstd::prelude::*;

verus! {

/// One invocation's settings: the directory to organize, the bucket
/// threshold, and the output switches.
#[derive(Debug)]
pub struct Cli {
    /// Directory whose files are organized.
    pub target_dir: String,
    /// Maximum number of files per folder before subdividing.
    pub threshold: usize,
    /// Compute and print the plan without moving anything.
    pub dry_run: bool,
    /// Print extra detail.
    pub verbose: bool,
}

/// Accepts a placeholder argument exactly when it is a single
/// character, and returns that character.
pub fn parse_placeholder(s: &str) -> (r: Result<char, String>)
    ensures
        match r {
            Ok(c) => s@.len() == 1 && c == s@[0],
            Err(m) => s@.len() != 1 && m@ == "placeholder must be exactly one character"@,
        },
{
    if s.unicode_len() == 1 {
        Ok(s.get_char(0))
    } else {
        Err(String::from_str("placeholder must be exactly one character"))
    }
}

} // verus!
