//! The error taxonomy shared by all solvers.

use vstd::prelude::*;

verus! {

/// Why a solver could not produce an answer.
#[derive(Debug, Clone, Copy, PartialEq, Eq, Structural)]
pub enum Error {
    /// The input text does not have the shape the puzzle promises
    /// (a ragged row, a stray character, a missing field).
    MalformedInput,
    /// The search exhausted every candidate without reaching the target.
    NoPathFound,
    /// An intermediate value does not fit in the machine integer used for it.
    Overflow,
}

} // verus!
