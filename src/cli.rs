//! The command-line options of the tool, as plain values.
use vstd::prelude::*;

verus! {

/// Input paths: the first file (single-end, or the first of a pair) and an
/// optional second file of the pair.
#[derive(Clone, Debug, PartialEq, Eq)]
pub struct CliArgs {
    pub read1: String,
    pub read2: Option<String>,
}

impl CliArgs {
    /// Whether a second file of a pair was given.
    pub fn is_paired(&self) -> (r: bool)
        ensures
            r == self.read2.is_some(),
    {
        self.read2.is_some()
    }
}

} // verus!
