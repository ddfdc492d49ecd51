//! Errors of a run of the machine, as opposed to a clean failure to match.
use vstd::prelude::*;

verus! {

/// Why a run stopped without deciding whether the program matches.
#[derive(Debug, Clone, Copy, PartialEq, Eq, Structural)]
pub enum Error {
    /// A push would have grown the backtrack stack beyond its configured
    /// bound (or the slot vector that hosts the explicit stack of atomic
    /// groups beyond what a `usize` can index).
    StackOverflow,
    /// The run used up its budget of dispatch steps.
    StepLimitExceeded,
}

} // verus!
