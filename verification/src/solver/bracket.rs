//! Reverse-communication solver behind a bracket with a direction.
use crate::error::SolverError;
use crate::float::number::{ONE, ZERO};
use crate::float::{lit, F64};
use crate::functions::{agrees, total};
use crate::search::dinvr::{invr_run, InvrAction, InvrState};
use crate::search::drive::{drive_invr, invr_config};
use vstd::prelude::*;

verus! {

/// The bits of 1e300, past which no solver looks.
pub const SOLVER_BOUND: u64 = 0x7E37_E43C_8800_759C;

/// The bits of 1e-50.
pub const ABS_TOL: u64 = 0x358D_EE7A_4AD4_B81F;

/// How many evaluations one solution may take.
pub const MAX_EVAL: u32 = 1000;

/// A bracket, a starting point, and whether the function rises or falls.
#[derive(Clone, Copy, Debug, PartialEq, Eq, Structural)]
pub enum BracketStrategy {
    Increasing { small: F64, big: F64, start: F64 },
    Decreasing { small: F64, big: F64, start: F64 },
}

impl BracketStrategy {
    pub open spec fn parts_spec(self) -> (F64, F64, F64, bool) {
        match self {
            BracketStrategy::Increasing { small, big, start } => (small, big, start, true),
            BracketStrategy::Decreasing { small, big, start } => (small, big, start, false),
        }
    }

    /// The ends, the starting point, and whether the function rises.
    #[verifier::when_used_as_spec(parts_spec)]
    pub fn parts(self) -> (r: (F64, F64, F64, bool))
        ensures
            r == self.parts(),
    {
        match self {
            BracketStrategy::Increasing { small, big, start } => (small, big, start, true),
            BracketStrategy::Decreasing { small, big, start } => (small, big, start, false),
        }
    }
}

pub open spec fn clamp_spec(x: F64, lo: F64, hi: F64) -> F64 {
    if x.lt(lo) {
        lo
    } else if x.gt(hi) {
        hi
    } else {
        x
    }
}

/// The number, held between two others.
#[verifier::when_used_as_spec(clamp_spec)]
pub fn clamp(x: F64, lo: F64, hi: F64) -> (r: F64)
    ensures
        r == clamp(x, lo, hi),
{
    if x.lt(lo) {
        lo
    } else if x.gt(hi) {
        hi
    } else {
        x
    }
}

/// The sign that turns a function of the given direction into a rising one.
pub open spec fn direction_spec(rising: bool) -> F64 {
    if rising {
        lit(ONE)
    } else {
        lit(ONE).negated()
    }
}

/// The sign that turns a function of the given direction into a rising one.
#[verifier::when_used_as_spec(direction_spec)]
pub fn direction(rising: bool) -> (r: F64)
    ensures
        r == direction(rising),
{
    if rising {
        lit(ONE)
    } else {
        lit(ONE).negated()
    }
}

/// The bracket is refused exactly where it is empty, with its ends held within 1e300 of
/// zero.
pub open spec fn refuses_bracket(strategy: BracketStrategy, r: Result<F64, SolverError>) -> bool {
    let (small0, big0, start, rising) = strategy.parts();
    let big = big0.min(lit(SOLVER_BOUND));
    let small = small0.max(lit(SOLVER_BOUND).negated());
    !small.le(big) <==> r == Err::<F64, SolverError>(
        SolverError::StartOutOfBracket { start, small, big },
    )
}

/// The zero of `g` in the bracket, searched for from the starting point held within
/// it.
pub open spec fn solve_monotone_spec(strategy: BracketStrategy, g: spec_fn(F64) -> F64) -> Result<
    F64,
    SolverError,
> {
    let (small0, big0, start0, rising) = strategy.parts();
    let big = big0.min(lit(SOLVER_BOUND));
    let small = small0.max(lit(SOLVER_BOUND).negated());
    let sign = direction(rising);
    if !small.le(big) {
        Err(SolverError::StartOutOfBracket { start: start0, small, big })
    } else {
        let state = InvrState::new(invr_config(small, big, lit(ABS_TOL)), clamp(start0, small, big));
        match invr_run(state, lit(ZERO), |x: F64| sign * g(x), MAX_EVAL as nat) {
            Some(InvrAction::Converged(x)) => Ok(x),
            Some(InvrAction::Failed { qleft, qhi, x }) => if qleft {
                Err(SolverError::AnswerBelowLowerBound { bound: small })
            } else {
                Err(SolverError::AnswerAboveUpperBound { bound: big })
            },
            _ => Err(SolverError::NotConverged { iterations: MAX_EVAL }),
        }
    }
}

/// Solves `f(x) = 0` for a monotone function.
pub fn solve_monotone<F: Fn(F64) -> F64>(strategy: BracketStrategy, f: &F) -> (r: Result<F64, SolverError>)
    requires
        total(f),
    ensures
        forall|g: spec_fn(F64) -> F64| #[trigger]
            agrees(f, g) ==> r == solve_monotone_spec(strategy, g),
        refuses_bracket(strategy, r),
{
    let (small0, big0, start0, rising) = strategy.parts();
    let big = big0.min(lit(SOLVER_BOUND));
    let small = small0.max(lit(SOLVER_BOUND).negated());
    let sign = direction(rising);
    if !small.le(big) {
        return Err(SolverError::StartOutOfBracket { start: start0, small, big });
    }
    let state = InvrState::new(invr_config(small, big, lit(ABS_TOL)), clamp(start0, small, big));
    let h = |x: F64| -> (y: F64)
        ensures
            exists|v: F64| #[trigger] call_ensures(f, (x,), v) && y == sign * v,
        { sign * f(x) };
    let report = drive_invr(state, &h, MAX_EVAL as u64);
    proof {
        assert forall|g: spec_fn(F64) -> F64| #[trigger] agrees(f, g) implies report == invr_run(
            state,
            lit(ZERO),
            |x: F64| sign * g(x),
            MAX_EVAL as nat,
        ) by {
            assert(agrees(&h, |x: F64| sign * g(x)));
        }
    }
    match report {
        Some(InvrAction::Converged(x)) => Ok(x),
        Some(InvrAction::Failed { qleft, .. }) => if qleft {
            Err(SolverError::AnswerBelowLowerBound { bound: small })
        } else {
            Err(SolverError::AnswerAboveUpperBound { bound: big })
        },
        _ => Err(SolverError::NotConverged { iterations: MAX_EVAL }),
    }
}

} // verus!
