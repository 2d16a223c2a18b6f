//! The ways in which building or solving a puzzle can fail.
use vstd::prelude::*;

verus! {

/// Why a puzzle could not be built or a board could not be solved.
#[derive(Clone, Copy, Debug, PartialEq, Eq, Structural)]
pub enum SudokuError {
    /// The puzzle text is not eighty-one characters drawn from `1`–`9` and `.`.
    MalformedPuzzle,
    /// An open cell has no candidate left.
    UnsolvableCell,
}

} // verus!
