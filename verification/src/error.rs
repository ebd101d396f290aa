//! Errors of the root searches.
use crate::float::F64;
use vstd::prelude::*;

verus! {

/// Why a search between two bounds ended without an answer.
#[derive(Clone, Copy, Debug, PartialEq, Eq, Structural)]
pub enum SearchError {
    /// The answer lies below the lower end of the range.
    AnswerBelowLowerBound { bound: F64 },
    /// The answer lies above the upper end of the range.
    AnswerAboveUpperBound { bound: F64 },
    /// The starting point does not lie in the range.
    StartOutOfRange { start: F64, small: F64, big: F64 },
}

/// Why a bracketing solver ended without an answer.
#[derive(Clone, Copy, Debug, PartialEq, Eq, Structural)]
pub enum SolverError {
    /// The answer lies below the lower end of the bracket.
    AnswerBelowLowerBound { bound: F64 },
    /// The answer lies above the upper end of the bracket.
    AnswerAboveUpperBound { bound: F64 },
    /// No starting point lies in the bracket.
    StartOutOfBracket { start: F64, small: F64, big: F64 },
    /// The limit on evaluations was reached.
    NotConverged { iterations: u32 },
}

} // verus!
