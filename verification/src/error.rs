//! The ways in which building or querying an index can fail.

use vstd::prelude::*;

verus! {

/// Why the dictionary refused a word.
#[derive(Clone, Copy, Debug, PartialEq, Eq, Structural)]
pub enum ConstructionError {
    /// The word comes before the one inserted last.
    OutOfOrder,
    /// The word is the one inserted last.
    Duplicate,
}

/// No automaton could be built for a token at the given edit distance.
#[derive(Clone, Copy, Debug, PartialEq, Eq, Structural)]
pub struct QueryAutomatonError {
    /// The distance for which the automaton was asked.
    pub distance: u8,
}

} // verus!
