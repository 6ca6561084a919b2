//! The ways in which building a permutation or turning a puzzle can fail.

use vstd::prelude::*;

verus! {

/// Cycle notation was given a cycle with exactly one entry.
#[derive(Debug, Clone, Copy, PartialEq, Eq, Structural)]
pub struct ConstructionError {
    /// Index, in the list of cycles, of the first cycle with one entry.
    pub cycle: usize,
}

/// Why a puzzle refused a move.
#[derive(Debug, Clone, Copy, PartialEq, Eq, Structural)]
pub enum PuzzleError {
    /// The move table holds no move of that name.
    UnknownMove,
    /// The move sends one of the puzzle's positions to a place that is not
    /// one of them: the puzzle's definition is at fault.
    Definition,
}

} // verus!
