//! The searches, with the objective as a function.
use super::dinvr::{invr_run, InvrAction, InvrConfig, InvrState};
use super::dzror::{zror_run, ZrorAction, ZrorConfig, ZrorState, HALF};
use crate::error::SearchError;
use crate::float::number::{NAN, ZERO};
use crate::float::{lit, F64};
use crate::functions::{agrees, total};
use vstd::prelude::*;

verus! {

/// The bits of 1e300, past which no search looks.
pub const SEARCH_BOUND: u64 = 0x7E37_E43C_8800_759C;

/// The bits of 5, by which a step grows.
pub const STP_MUL: u64 = 0x4014_0000_0000_0000;

/// The bits of 1e-10.
pub const ABS_TOL: u64 = 0x3DDB_7CDF_D9D7_BDBB;

/// The bits of 1e-8.
pub const REL_TOL: u64 = 0x3E45_798E_E230_8C3A;

/// How many evaluations one search may take before it gives up with a NaN.
pub const PATIENCE: u64 = u64::MAX;

pub open spec fn invr_config_spec(small: F64, big: F64, abs_tol: F64) -> InvrConfig {
    InvrConfig {
        small,
        big,
        abs_step: lit(HALF),
        rel_step: lit(HALF),
        stp_mul: lit(STP_MUL),
        abs_tol,
        rel_tol: lit(REL_TOL),
    }
}

/// The steps and the relative tolerance that every search has.
#[verifier::when_used_as_spec(invr_config_spec)]
pub fn invr_config(small: F64, big: F64, abs_tol: F64) -> (r: InvrConfig)
    ensures
        r == invr_config(small, big, abs_tol),
{
    InvrConfig {
        small,
        big,
        abs_step: lit(HALF),
        rel_step: lit(HALF),
        stp_mul: lit(STP_MUL),
        abs_tol,
        rel_tol: lit(REL_TOL),
    }
}

/// Runs the bracketing machine on an objective; nothing where it asks for more
/// than `n` evaluations.
pub fn drive_invr<F: Fn(F64) -> F64>(start: InvrState, f: &F, n: u64) -> (r: Option<InvrAction>)
    requires
        total(f),
    ensures
        forall|g: spec_fn(F64) -> F64| #[trigger]
            agrees(f, g) ==> r == invr_run(start, lit(ZERO), g, n as nat),
        r matches Some(a) ==> !(a is NeedEval),
{
    let mut state = start;
    let mut fx = lit(ZERO);
    let mut left: u64 = n;
    loop
        invariant
            total(f),
            left <= n,
            forall|g: spec_fn(F64) -> F64| #[trigger]
                agrees(f, g) ==> invr_run(start, lit(ZERO), g, n as nat) == invr_run(state, fx, g, left as nat),
        decreases left,
    {
        let ghost before = state;
        let ghost fx0 = fx;
        match state.step(fx) {
            InvrAction::NeedEval(x) => {
                if left == 0 {
                    return None;
                }
                fx = f(x);
                proof {
                    assert forall|g: spec_fn(F64) -> F64| #[trigger] agrees(f, g) implies invr_run(
                        start,
                        lit(ZERO),
                        g,
                        n as nat,
                    ) == invr_run(state, fx, g, (left - 1) as nat) by {
                        assert(invr_run(before, fx0, g, left as nat) == invr_run(
                            state,
                            fx,
                            g,
                            (left - 1) as nat,
                        ));
                    }
                }
                left = left - 1;
            },
            a => {
                return Some(a);
            },
        }
    }
}

/// Runs the refining machine on an objective; nothing where it asks for more than
/// `n` evaluations.
pub fn drive_zror<F: Fn(F64) -> F64>(start: ZrorState, f: &F, n: u64) -> (r: Option<ZrorAction>)
    requires
        total(f),
    ensures
        forall|g: spec_fn(F64) -> F64| #[trigger]
            agrees(f, g) ==> r == zror_run(start, lit(ZERO), g, n as nat),
        r matches Some(a) ==> !(a is NeedEval),
{
    let mut state = start;
    let mut fx = lit(ZERO);
    let mut left: u64 = n;
    loop
        invariant
            total(f),
            left <= n,
            forall|g: spec_fn(F64) -> F64| #[trigger]
                agrees(f, g) ==> zror_run(start, lit(ZERO), g, n as nat) == zror_run(state, fx, g, left as nat),
        decreases left,
    {
        let ghost before = state;
        let ghost fx0 = fx;
        match state.step(fx) {
            ZrorAction::NeedEval(x) => {
                if left == 0 {
                    return None;
                }
                fx = f(x);
                proof {
                    assert forall|g: spec_fn(F64) -> F64| #[trigger] agrees(f, g) implies zror_run(
                        start,
                        lit(ZERO),
                        g,
                        n as nat,
                    ) == zror_run(state, fx, g, (left - 1) as nat) by {
                        assert(zror_run(before, fx0, g, left as nat) == zror_run(
                            state,
                            fx,
                            g,
                            (left - 1) as nat,
                        ));
                    }
                }
                left = left - 1;
            },
            a => {
                return Some(a);
            },
        }
    }
}

/// The result of a search, from the machine's report.
pub open spec fn search_result(a: Option<InvrAction>, below: F64, above: F64) -> Result<F64, SearchError> {
    match a {
        Some(InvrAction::Converged(x)) => Ok(x),
        Some(InvrAction::Failed { qleft, qhi, x }) => if qleft {
            Err(SearchError::AnswerBelowLowerBound { bound: below })
        } else {
            Err(SearchError::AnswerAboveUpperBound { bound: above })
        },
        _ => Ok(lit(NAN)),
    }
}

/// The start is refused exactly where it lies outside the range, both ends of which are
/// held within 1e300 of zero.
pub open spec fn refuses_start(small: F64, big: F64, start: F64, r: Result<F64, SearchError>) -> bool {
    let hi = big.min(lit(SEARCH_BOUND));
    let lo = small.max(lit(SEARCH_BOUND).negated());
    !(lo.le(start) && start.le(hi)) <==> r == Err::<F64, SearchError>(
        SearchError::StartOutOfRange { start, small: lo, big: hi },
    )
}

/// The zero of `g` between `small` and `big`, both held within 1e300 of zero.
pub open spec fn search_monotone_with_atol_spec(
    small: F64,
    big: F64,
    start: F64,
    qleft_bound: F64,
    qhi_bound: F64,
    abs_tol: F64,
    g: spec_fn(F64) -> F64,
) -> Result<F64, SearchError> {
    let hi = big.min(lit(SEARCH_BOUND));
    let lo = small.max(lit(SEARCH_BOUND).negated());
    if !(lo.le(start) && start.le(hi)) {
        Err(SearchError::StartOutOfRange { start, small: lo, big: hi })
    } else {
        search_result(
            invr_run(
                InvrState::new(invr_config(lo, hi, abs_tol), start),
                lit(ZERO),
                g,
                PATIENCE as nat,
            ),
            qleft_bound,
            qhi_bound,
        )
    }
}

/// The zero of `g` with the default absolute tolerance.
pub open spec fn search_monotone_spec(
    small: F64,
    big: F64,
    start: F64,
    qleft_bound: F64,
    qhi_bound: F64,
    g: spec_fn(F64) -> F64,
) -> Result<F64, SearchError> {
    search_monotone_with_atol_spec(small, big, start, qleft_bound, qhi_bound, lit(ABS_TOL), g)
}

/// Searches for the zero of a monotone function from a starting point. Where the
/// answer lies outside the range, the error carries the bound given for that side.
pub fn search_monotone<F: Fn(F64) -> F64>(
    small: F64,
    big: F64,
    start: F64,
    qleft_bound: F64,
    qhi_bound: F64,
    f: &F,
) -> (r: Result<F64, SearchError>)
    requires
        total(f),
    ensures
        forall|g: spec_fn(F64) -> F64| #[trigger]
            agrees(f, g) ==> r == search_monotone_spec(small, big, start, qleft_bound, qhi_bound, g),
        refuses_start(small, big, start, r),
{
    search_monotone_with_atol(small, big, start, qleft_bound, qhi_bound, lit(ABS_TOL), f)
}

/// `search_monotone` with an absolute tolerance of the caller's.
pub fn search_monotone_with_atol<F: Fn(F64) -> F64>(
    small: F64,
    big: F64,
    start: F64,
    qleft_bound: F64,
    qhi_bound: F64,
    abs_tol: F64,
    f: &F,
) -> (r: Result<F64, SearchError>)
    requires
        total(f),
    ensures
        forall|g: spec_fn(F64) -> F64| #[trigger]
            agrees(f, g) ==> r == search_monotone_with_atol_spec(
                small,
                big,
                start,
                qleft_bound,
                qhi_bound,
                abs_tol,
                g,
            ),
        refuses_start(small, big, start, r),
{
    let hi = big.min(lit(SEARCH_BOUND));
    let lo = small.max(lit(SEARCH_BOUND).negated());
    if !(lo.le(start) && start.le(hi)) {
        return Err(SearchError::StartOutOfRange { start, small: lo, big: hi });
    }
    let state = InvrState::new(invr_config(lo, hi, abs_tol), start);
    match drive_invr(state, f, PATIENCE) {
        Some(InvrAction::Converged(x)) => Ok(x),
        Some(InvrAction::Failed { qleft, .. }) => if qleft {
            Err(SearchError::AnswerBelowLowerBound { bound: qleft_bound })
        } else {
            Err(SearchError::AnswerAboveUpperBound { bound: qhi_bound })
        },
        _ => Ok(lit(NAN)),
    }
}

/// The zero of `g` in a bracket: the last point evaluated.
pub open spec fn search_bounded_zero_with_tol_spec(
    xlo: F64,
    xhi: F64,
    abs_tol: F64,
    rel_tol: F64,
    g: spec_fn(F64) -> F64,
) -> Result<F64, SearchError> {
    let start = ZrorState::new(ZrorConfig { xlo, xhi, abstol: abs_tol, reltol: rel_tol });
    match zror_run(start, lit(ZERO), g, PATIENCE as nat) {
        Some(ZrorAction::Converged { x, xlo: _, xhi: _ }) => Ok(x),
        Some(ZrorAction::Failed { xlo: _, qleft, qhi: _ }) => if qleft {
            Err(SearchError::AnswerBelowLowerBound { bound: xlo })
        } else {
            Err(SearchError::AnswerAboveUpperBound { bound: xhi })
        },
        _ => Ok(lit(NAN)),
    }
}

/// The zero of `g` in a bracket, with the default tolerances.
pub open spec fn search_bounded_zero_spec(
    xlo: F64,
    xhi: F64,
    g: spec_fn(F64) -> F64,
) -> Result<F64, SearchError> {
    search_bounded_zero_with_tol_spec(xlo, xhi, lit(ABS_TOL), lit(REL_TOL), g)
}

/// Refines a bracket to a zero of the function, and returns the last point evaluated.
pub fn search_bounded_zero<F: Fn(F64) -> F64>(xlo: F64, xhi: F64, f: &F) -> (r: Result<F64, SearchError>)
    requires
        total(f),
    ensures
        forall|g: spec_fn(F64) -> F64| #[trigger]
            agrees(f, g) ==> r == search_bounded_zero_spec(xlo, xhi, g),
{
    search_bounded_zero_with_tol(xlo, xhi, lit(ABS_TOL), lit(REL_TOL), f)
}

/// `search_bounded_zero` with tolerances of the caller's.
pub fn search_bounded_zero_with_tol<F: Fn(F64) -> F64>(
    xlo: F64,
    xhi: F64,
    abs_tol: F64,
    rel_tol: F64,
    f: &F,
) -> (r: Result<F64, SearchError>)
    requires
        total(f),
    ensures
        forall|g: spec_fn(F64) -> F64| #[trigger]
            agrees(f, g) ==> r == search_bounded_zero_with_tol_spec(xlo, xhi, abs_tol, rel_tol, g),
{
    let start = ZrorState::new(ZrorConfig { xlo, xhi, abstol: abs_tol, reltol: rel_tol });
    match drive_zror(start, f, PATIENCE) {
        Some(ZrorAction::Converged { x, .. }) => Ok(x),
        Some(ZrorAction::Failed { qleft, .. }) => if qleft {
            Err(SearchError::AnswerBelowLowerBound { bound: xlo })
        } else {
            Err(SearchError::AnswerAboveUpperBound { bound: xhi })
        },
        _ => Ok(lit(NAN)),
    }
}

} // verus!
