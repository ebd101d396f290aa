//! What the answer of the bracketing solver is worth.
use super::bracket::{clamp, direction, solve_monotone_spec, BracketStrategy, ABS_TOL, MAX_EVAL, SOLVER_BOUND};
use super::laws::law_clamp;
use crate::error::SolverError;
use crate::float::laws::{
    law_negation, law_product_of_negated, law_product_with_one, law_sign_and_zero,
};
use crate::float::number::{ONE, ZERO};
use crate::float::{lit, F64};
use crate::search::answer_laws::{
    close, defined_on, even_at_zero, lemma_run_answers, lemma_run_ends, lemma_run_settles, lemma_run_succeeds, settled, straddle, tiny,
};
use crate::search::bracket_laws::{law_every_search_is_contained, law_search_stays_in_range};
use crate::search::dinvr::{invr_run, InvrState};
use crate::search::drive::{invr_config, REL_TOL};
use vstd::prelude::*;

verus! {

/// Both ends of the bracket, held within the bound of every solver.
pub open spec fn ends(strategy: BracketStrategy) -> (F64, F64) {
    let (small, big, start, rising) = strategy.parts();
    (small.max(lit(SOLVER_BOUND).negated()), big.min(lit(SOLVER_BOUND)))
}

/// No part of the bracket is a NaN.
pub open spec fn numbered(strategy: BracketStrategy) -> bool {
    let (small, big, start, rising) = strategy.parts();
    !small.is_nan() && !big.is_nan() && !start.is_nan()
}

/// A bracket that is empty is refused, and no other one.
pub proof fn law_empty_bracket_is_refused(strategy: BracketStrategy, g: spec_fn(F64) -> F64)
    ensures
        !ends(strategy).0.le(ends(strategy).1) <==> solve_monotone_spec(strategy, g) == Err::<F64, SolverError>(
            SolverError::StartOutOfBracket {
                start: strategy.parts().2,
                small: ends(strategy).0,
                big: ends(strategy).1,
            },
        ),
{
}

/// A solution lies in the bracket.
pub proof fn law_solution_in_bracket(strategy: BracketStrategy, g: spec_fn(F64) -> F64)
    requires
        numbered(strategy),
    ensures
        solve_monotone_spec(strategy, g) matches Ok(x) ==> ends(strategy).0.le(x) && x.le(ends(strategy).1),
{
    let (small0, big0, start0, rising) = strategy.parts();
    let (small, big) = ends(strategy);
    if small.le(big) {
        let start = clamp(start0, small, big);
        law_clamp(start0, small, big);
        lemma_tolerance();
        law_every_search_is_contained(small0, big0, start, lit(ABS_TOL));
        let sign = direction(rising);
        lemma_run_answers(
            InvrState::new(invr_config(small, big, lit(ABS_TOL)), start),
            lit(ZERO),
            |x: F64| sign * g(x),
            MAX_EVAL as nat,
        );
    }
}

proof fn lemma_tolerance()
    ensures
        lit(ABS_TOL).is_finite(),
        lit(ZERO).le(lit(ABS_TOL)),
{
}

/// Turning the function over keeps what the solver needs of it.
proof fn lemma_turned(lo: F64, hi: F64, g: spec_fn(F64) -> F64, rising: bool)
    requires
        defined_on(lo, hi, g),
    ensures
        defined_on(lo, hi, |x: F64| direction(rising) * g(x)),
{
    let h = |x: F64| direction(rising) * g(x);
    assert forall|x: F64| lo.le(x) && x.le(hi) implies !(#[trigger] h(x)).is_nan() by {
        assert(!g(x).is_nan());
        lemma_turned_value(rising, g(x));
    }
}

proof fn lemma_turned_value(rising: bool, u: F64)
    requires
        !u.is_nan(),
    ensures
        direction(rising) * u == if rising {
            u
        } else {
            u.negated()
        },
        !(direction(rising) * u).is_nan(),
{
    law_product_with_one(u);
    law_product_of_negated(lit(ONE), u);
    law_negation(u);
}

/// A solution is a zero of the function, or within the tolerance of a point on the other
/// side of zero.
pub proof fn law_solution_is_a_zero(strategy: BracketStrategy, g: spec_fn(F64) -> F64)
    requires
        numbered(strategy),
        defined_on(ends(strategy).0, ends(strategy).1, g),
    ensures
        solve_monotone_spec(strategy, g) matches Ok(x) ==> settled(
            ends(strategy).0,
            ends(strategy).1,
            lit(ABS_TOL),
            lit(REL_TOL),
            g,
            x,
        ),
{
    let (small0, big0, start0, rising) = strategy.parts();
    let (small, big) = ends(strategy);
    if small.le(big) {
        let start = clamp(start0, small, big);
        law_clamp(start0, small, big);
        lemma_tolerance();
        law_every_search_is_contained(small0, big0, start, lit(ABS_TOL));
        let sign = direction(rising);
        let h = |x: F64| sign * g(x);
        lemma_turned(small, big, g, rising);
        assert(h =~= |x: F64| direction(rising) * g(x));
        let s = InvrState::new(invr_config(small, big, lit(ABS_TOL)), start);
        let n = MAX_EVAL as nat;
        let t = s.stepped(lit(ZERO)).0;
        law_search_stays_in_range(s, lit(ZERO));
        assert(invr_run(s, lit(ZERO), h, n) == invr_run(t, h(small), h, (n - 1) as nat));
        lemma_run_settles(t, h, (n - 1) as nat);
        law_solution_in_bracket(strategy, g);
        match solve_monotone_spec(strategy, g) {
            Ok(x) => {
                assert(settled(small, big, lit(ABS_TOL), lit(REL_TOL), h, x));
                lemma_turned_settled(small, big, g, h, rising, x);
            },
            Err(_) => {},
        }
    }
}

proof fn lemma_turned_settled(
    lo: F64,
    hi: F64,
    g: spec_fn(F64) -> F64,
    h: spec_fn(F64) -> F64,
    rising: bool,
    x: F64,
)
    requires
        defined_on(lo, hi, g),
        lo.le(x) && x.le(hi),
        h == (|x: F64| direction(rising) * g(x)),
        settled(lo, hi, lit(ABS_TOL), lit(REL_TOL), h, x),
    ensures
        settled(lo, hi, lit(ABS_TOL), lit(REL_TOL), g, x),
{
    assert(!g(x).is_nan());
    lemma_turned_value(rising, g(x));
    law_sign_and_zero(g(x));
    law_sign_and_zero(h(x));
    law_negation(g(x));
    if !tiny(h(x)) {
        let y = choose|y: F64|
            lo.le(y) && y.le(hi) && (straddle(h(x), #[trigger] h(y)) || tiny(h(y))) && close(
                lit(ABS_TOL),
                lit(REL_TOL),
                x,
                y,
            );
        assert(!g(y).is_nan());
        lemma_turned_value(rising, g(y));
        law_sign_and_zero(g(y));
        law_negation(g(y));
        assert(straddle(g(x), g(y)) || tiny(g(y)));
    }
}

/// A bracket that is not empty, with the function not on the same side of zero at both
/// ends, is never said to lie beside the answer; every other one is.
pub proof fn law_bracket_decides(strategy: BracketStrategy, g: spec_fn(F64) -> F64)
    requires
        numbered(strategy),
        defined_on(ends(strategy).0, ends(strategy).1, g),
        even_at_zero(g),
        ends(strategy).0.le(ends(strategy).1),
    ensures
        ({
            let (small, big) = ends(strategy);
            let r = solve_monotone_spec(strategy, g);
            straddle(g(small), g(big)) <==> r is Ok || r == Err::<F64, SolverError>(
                SolverError::NotConverged { iterations: MAX_EVAL },
            )
        }),
{
    let (small0, big0, start0, rising) = strategy.parts();
    let (small, big) = ends(strategy);
    let start = clamp(start0, small, big);
    law_clamp(start0, small, big);
    lemma_tolerance();
    law_every_search_is_contained(small0, big0, start, lit(ABS_TOL));
    let sign = direction(rising);
    let h = |x: F64| sign * g(x);
    lemma_turned(small, big, g, rising);
    assert(h =~= |x: F64| direction(rising) * g(x));
    let s = InvrState::new(invr_config(small, big, lit(ABS_TOL)), start);
    let n = MAX_EVAL as nat;
    let t = s.stepped(lit(ZERO)).0;
    law_search_stays_in_range(s, lit(ZERO));
    assert(invr_run(s, lit(ZERO), h, n) == invr_run(t, h(small), h, (n - 1) as nat));
    assert(!g(small).is_nan() && !g(big).is_nan());
    lemma_turned_value(rising, g(small));
    lemma_turned_value(rising, g(big));
    law_sign_and_zero(g(small));
    law_sign_and_zero(g(big));
    law_negation(g(small));
    law_negation(g(big));
    assert(straddle(h(small), h(big)) <==> straddle(g(small), g(big)));
    if straddle(h(small), h(big)) {
        assert(even_at_zero(h)) by {
            assert forall|x: F64, y: F64| #![trigger h(x), h(y)] x.equals(y) implies h(x) == h(y) by {
                assert(g(x) == g(y));
            }
        }
        lemma_run_succeeds(t, h, (n - 1) as nat);
    } else {
        let u = t.stepped(h(small)).0;
        assert(invr_run(t, h(small), h, (n - 1) as nat) == invr_run(u, h(big), h, (n - 2) as nat));
    }
}

/// The solver asks for more values of the function than it may have.
pub open spec fn solver_used_up(strategy: BracketStrategy, g: spec_fn(F64) -> F64) -> bool {
    let (small0, big0, start0, rising) = strategy.parts();
    let (small, big) = ends(strategy);
    let sign = direction(rising);
    &&& small.le(big)
    &&& invr_run(
        InvrState::new(invr_config(small, big, lit(ABS_TOL)), clamp(start0, small, big)),
        lit(ZERO),
        |x: F64| sign * g(x),
        MAX_EVAL as nat,
    ) is None
}

/// The solver does not converge only where it has used up its evaluations.
pub proof fn law_not_converged(strategy: BracketStrategy, g: spec_fn(F64) -> F64)
    ensures
        solve_monotone_spec(strategy, g) == Err::<F64, SolverError>(
            SolverError::NotConverged { iterations: MAX_EVAL },
        ) <==> solver_used_up(strategy, g),
{
    let (small0, big0, start0, rising) = strategy.parts();
    let (small, big) = ends(strategy);
    let sign = direction(rising);
    lemma_run_ends(
        InvrState::new(invr_config(small, big, lit(ABS_TOL)), clamp(start0, small, big)),
        lit(ZERO),
        |x: F64| sign * g(x),
        MAX_EVAL as nat,
    );
}

} // verus!
