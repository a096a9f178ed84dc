//! The kinds of error that the library reports.
use vstd::prelude::*;

verus! {

/// Why an operation was refused.
#[derive(Debug, Clone, Copy, PartialEq, Eq, Structural)]
pub enum ErrorKind {
    /// What was handed in contradicts the local log or its history.
    InconsistentState,
    /// An argument lies outside the range that the operation accepts.
    InvalidInput,
    /// A step of the history's bookkeeping was asked for out of turn.
    Other,
}

} // verus!
