//! The quantiles and the parameters that are found, by the distribution functions themselves.
use crate::consts::{FIVE, HALF, ONE, TWO, ZERO};
use crate::dist::answer_laws::{around, T_BOUND};
use crate::dist::{
    beta, binomial, chi_squared, chi_squared_noncentral, fisher_snedecor, fisher_snedecor_noncentral, gamma,
    negative_binomial, poisson, students_t,
};
use crate::float::laws::{law_difference_sign, law_sign_and_zero};
use crate::float::model::lemma_mag_zero;
use crate::float::number::{lemma_equals_units, lemma_le_units, lemma_lt_units, lemma_order};
use crate::float::{lit, F64};
use crate::functions::Elementary;
use crate::search::answer_laws::{
    close, defined_on, even_at_zero, law_answer_in_range, law_answer_is_a_number, law_answer_is_a_zero,
    law_search_succeeds, settled, straddle, tiny, used_up,
};
use crate::search::drive::{search_monotone_with_atol_spec, ABS_TOL, REL_TOL, SEARCH_BOUND};
use crate::solver::bracket::{solve_monotone_spec, BracketStrategy, ABS_TOL as SOLVER_TOL};
use crate::solver::bracket_laws::{
    ends, law_bracket_decides, law_not_converged, law_solution_in_bracket, law_solution_is_a_zero, numbered,
    solver_used_up,
};
use crate::special::beta_inc::beta_inc_value;
use crate::special::gamma_inc::{gamma_inc_core_spec, gamma_inc_value, settled_spec};
use crate::special::normal_laws::{lemma_complement_in_range, lemma_unit};
use crate::special::students_t::dt1;
use vstd::prelude::*;

verus! {

/// A number from zero to one.
pub open spec fn probability(p: F64) -> bool {
    lit(ZERO).le(p) && p.le(lit(ONE))
}

/// A number strictly between zero and one.
pub open spec fn inner(p: F64) -> bool {
    lit(ZERO).lt(p) && p.lt(lit(ONE))
}

/// Two probabilities that add up to one within three roundings.
pub open spec fn probability_pair(p: F64, q: F64) -> bool {
    &&& probability(p)
    &&& probability(q)
    &&& !(p + q - lit(ONE)).abs().gt(lit(crate::consts::THREE) * lit(crate::consts::EPSILON))
}

/// The number lies in the range, and `h` passes through `p` within the tolerance of it: at
/// the number itself, to within 2^-537, or between it and a point of the range close to it.
pub open spec fn crossed(
    lo: F64,
    hi: F64,
    abs_tol: F64,
    h: spec_fn(F64) -> F64,
    p: F64,
    x: F64,
) -> bool {
    &&& lo.le(x) && x.le(hi)
    &&& tiny(h(x) - p) || exists|y: F64|
        lo.le(y) && y.le(hi) && (around(h(x), #[trigger] h(y), p) || tiny(h(y) - p)) && close(
            abs_tol,
            lit(REL_TOL),
            x,
            y,
        )
}

/// The outcome of a search for the place at which `h` passes through `p`: an answer is such a
/// place, or a NaN where the search has used up its evaluations. There is an answer exactly
/// where `h` does not lie on the same side of `p` at both ends.
pub open spec fn answered<E>(
    lo: F64,
    hi: F64,
    abs_tol: F64,
    h: spec_fn(F64) -> F64,
    p: F64,
    r: Result<F64, E>,
    exhausted: bool,
) -> bool {
    &&& r matches Ok(x) ==> crossed(lo, hi, abs_tol, h, p, x) || (x.is_nan() && exhausted)
    &&& r is Ok <==> around(h(lo), h(hi), p)
}

/// The outcome of a solver for the place at which `h` passes through `p`: an answer is such a
/// place. There is one exactly where `h` does not lie on the same side of `p` at both ends,
/// unless the solver has used up its evaluations.
pub open spec fn solved<E>(
    lo: F64,
    hi: F64,
    h: spec_fn(F64) -> F64,
    p: F64,
    r: Result<F64, E>,
    exhausted: bool,
) -> bool {
    &&& r matches Ok(x) ==> crossed(lo, hi, lit(SOLVER_TOL), h, p, x)
    &&& (r is Ok || exhausted) <==> around(h(lo), h(hi), p)
}

/// The probability of at most `s` successes in `n` trials, for a number of trials that need
/// not be whole.
pub open spec fn binomial_below<M: Fn(Elementary) -> F64>(m: &M, s: u64, pr: F64, n: F64) -> F64 {
    let k = F64::from_u64(s);
    if k.ge(n) {
        lit(ONE)
    } else {
        beta_inc_value(m, k + lit(ONE), n - k, pr, lit(ONE) - pr).1
    }
}

/// The probability of more than `s` successes in `n` trials.
pub open spec fn binomial_above<M: Fn(Elementary) -> F64>(m: &M, s: u64, pr: F64, n: F64) -> F64 {
    let k = F64::from_u64(s);
    if k.ge(n) {
        lit(ZERO)
    } else {
        beta_inc_value(m, k + lit(ONE), n - k, pr, lit(ONE) - pr).0
    }
}

/// The probability of at most `s` failures before `r` successes, for a number of successes
/// that need not be whole.
pub open spec fn negative_binomial_below<M: Fn(Elementary) -> F64>(m: &M, s: u64, pr: F64, r: F64) -> F64 {
    beta_inc_value(m, r, F64::from_u64(s) + lit(ONE), pr, lit(ONE) - pr).0
}

/// The probability of more than `s` failures before `r` successes.
pub open spec fn negative_binomial_above<M: Fn(Elementary) -> F64>(m: &M, s: u64, pr: F64, r: F64) -> F64 {
    beta_inc_value(m, r, F64::from_u64(s) + lit(ONE), pr, lit(ONE) - pr).1
}

/// The probability of at most `s` events, for a count that need not be whole.
pub open spec fn poisson_below<M: Fn(Elementary) -> F64>(m: &M, lambda: F64, s: F64) -> F64 {
    gamma_inc_value(m, s + lit(ONE), lambda).1
}

/// The probability of more than `s` events.
pub open spec fn poisson_above<M: Fn(Elementary) -> F64>(m: &M, lambda: F64, s: F64) -> F64 {
    gamma_inc_value(m, s + lit(ONE), lambda).0
}

/// At whole counts the extended probabilities are those of the distributions.
pub proof fn law_extensions_agree<M: Fn(Elementary) -> F64>(m: &M, n: u64, pr: F64, s: u64, lambda: F64)
    ensures
        s < n && F64::from_u64(s).lt(F64::from_u64(n)) ==> {
            &&& binomial_below(m, s, pr, F64::from_u64(n)) == binomial::cdf_at(m, n, pr, s)
            &&& binomial_above(m, s, pr, F64::from_u64(n)) == binomial::ccdf_at(m, n, pr, s)
        },
        negative_binomial_below(m, s, pr, F64::from_u64(n)) == negative_binomial::cdf_at(m, n, pr, s),
        negative_binomial_above(m, s, pr, F64::from_u64(n)) == negative_binomial::ccdf_at(m, n, pr, s),
        poisson_below(m, lambda, F64::from_u64(s)) == poisson::cdf_at(m, lambda, s),
        poisson_above(m, lambda, F64::from_u64(s)) == poisson::ccdf_at(m, lambda, s),
{
    broadcast use lemma_lt_units;
    broadcast use lemma_le_units;
}

proof fn lemma_crossed(
    lo: F64,
    hi: F64,
    abs_tol: F64,
    g: spec_fn(F64) -> F64,
    h: spec_fn(F64) -> F64,
    p: F64,
    x: F64,
)
    requires
        lo.le(x) && x.le(hi),
        settled(lo, hi, abs_tol, lit(REL_TOL), g, x),
        defined_on(lo, hi, g),
        forall|y: F64| lo.le(y) && y.le(hi) ==> #[trigger] g(y) == h(y) - p,
    ensures
        crossed(lo, hi, abs_tol, h, p, x),
{
    if !tiny(g(x)) {
        let y = choose|y: F64|
            lo.le(y) && y.le(hi) && (straddle(g(x), #[trigger] g(y)) || tiny(g(y))) && close(
                abs_tol,
                lit(REL_TOL),
                x,
                y,
            );
        assert(!g(x).is_nan() && !g(y).is_nan());
        law_difference_sign(h(x), p);
        law_difference_sign(h(y), p);
        assert(around(h(x), h(y), p) || tiny(h(y) - p));
    }
}

/// What the objective of a search needs of the probabilities.
proof fn lemma_objective(lo: F64, hi: F64, g: spec_fn(F64) -> F64, h: spec_fn(F64) -> F64, p: F64)
    requires
        !lo.is_nan() && !hi.is_nan(),
        p.is_finite(),
        defined_on(lo, hi, h),
        forall|y: F64| lo.le(y) && y.le(hi) ==> #[trigger] g(y) == h(y) - p,
    ensures
        defined_on(lo, hi, g),
        lo.le(hi) ==> (straddle(g(lo), g(hi)) <==> around(h(lo), h(hi), p)),
{
    broadcast use lemma_le_units;
    assert forall|y: F64| lo.le(y) && y.le(hi) implies !(#[trigger] g(y)).is_nan() by {
        assert(!h(y).is_nan());
        lemma_difference_is_a_number(h(y), p);
    }
    if lo.le(hi) {
        assert(lo.le(lo) && hi.le(hi));
        assert(g(lo) == h(lo) - p && g(hi) == h(hi) - p);
        assert(!g(lo).is_nan() && !g(hi).is_nan());
        law_difference_sign(h(lo), p);
        law_difference_sign(h(hi), p);
    }
}

proof fn lemma_difference_is_a_number(u: F64, p: F64)
    requires
        !u.is_nan(),
        p.is_finite(),
    ensures
        !(u - p).is_nan(),
{
    reveal(F64::spec_add);
    crate::float::laws::law_negation(p);
    if u.is_finite() {
        crate::float::laws::law_sum_is_nearest(u, p.negated());
    }
}

proof fn lemma_search_crosses(
    small: F64,
    big: F64,
    start: F64,
    below: F64,
    above: F64,
    abs_tol: F64,
    g: spec_fn(F64) -> F64,
    h: spec_fn(F64) -> F64,
    p: F64,
)
    requires
        !small.is_nan() && small.max(lit(SEARCH_BOUND).negated()) == small,
        !big.is_nan() && big.min(lit(SEARCH_BOUND)) == big,
        small.le(big),
        abs_tol.is_finite() && lit(ZERO).le(abs_tol),
        p.is_finite(),
        defined_on(small, big, h),
        even_at_zero(h),
        (small.le(lit(ZERO)) && lit(ZERO).le(big)) || forall|y: F64| #[trigger] g(y) == h(y) - p,
        forall|y: F64| small.le(y) && y.le(big) ==> #[trigger] g(y) == h(y) - p,
    ensures
        ({
            let r = search_monotone_with_atol_spec(small, big, start, below, above, abs_tol, g);
            &&& r matches Ok(x) ==> crossed(small, big, abs_tol, h, p, x) || (x.is_nan() && used_up(
                small,
                big,
                start,
                abs_tol,
                g,
            ))
            &&& small.le(start) && start.le(big) ==> (r is Ok <==> around(h(small), h(big), p))
        }),
{
    lemma_objective(small, big, g, h, p);
    lemma_even(small, big, g, h, p);
    law_answer_is_a_number(small, big, start, below, above, abs_tol, g);
    law_answer_in_range(small, big, start, below, above, abs_tol, g);
    law_answer_is_a_zero(small, big, start, below, above, abs_tol, g);
    law_search_succeeds(small, big, start, below, above, abs_tol, g);
    match search_monotone_with_atol_spec(small, big, start, below, above, abs_tol, g) {
        Ok(x) => {
            if !x.is_nan() {
                lemma_crossed(small, big, abs_tol, g, h, p, x);
            }
        },
        Err(_) => {},
    }
}

proof fn lemma_even(lo: F64, hi: F64, g: spec_fn(F64) -> F64, h: spec_fn(F64) -> F64, p: F64)
    requires
        even_at_zero(h),
        (lo.le(lit(ZERO)) && lit(ZERO).le(hi)) || forall|y: F64| #[trigger] g(y) == h(y) - p,
        forall|y: F64| lo.le(y) && y.le(hi) ==> #[trigger] g(y) == h(y) - p,
    ensures
        even_at_zero(g),
{
    broadcast use lemma_le_units;
    broadcast use lemma_equals_units;
    assert forall|x: F64, y: F64| #![trigger g(x), g(y)] x.equals(y) implies g(x) == g(y) by {
        assert(h(x) == h(y));
        lemma_order(x.enc() as int, y.enc() as int);
        lemma_mag_zero(0);
        if x != y {
            assert(x.units() == 0 && y.units() == 0);
            assert(g(x) == h(x) - p && g(y) == h(y) - p);
        }
    }
}

proof fn lemma_solve_crosses(
    strategy: BracketStrategy,
    g: spec_fn(F64) -> F64,
    h: spec_fn(F64) -> F64,
    p: F64,
)
    requires
        numbered(strategy),
        ends(strategy).0.le(ends(strategy).1),
        p.is_finite(),
        defined_on(ends(strategy).0, ends(strategy).1, h),
        even_at_zero(h),
        (ends(strategy).0.le(lit(ZERO)) && lit(ZERO).le(ends(strategy).1)) || forall|y: F64| #[trigger]
            g(y) == h(y) - p,
        forall|y: F64|
            ends(strategy).0.le(y) && y.le(ends(strategy).1) ==> #[trigger] g(y) == h(y) - p,
    ensures
        ({
            let (lo, hi) = ends(strategy);
            let r = solve_monotone_spec(strategy, g);
            &&& r matches Ok(x) ==> crossed(lo, hi, lit(SOLVER_TOL), h, p, x)
            &&& (r is Ok || solver_used_up(strategy, g)) <==> around(h(lo), h(hi), p)
        }),
{
    let (lo, hi) = ends(strategy);
    lemma_objective(lo, hi, g, h, p);
    lemma_even(lo, hi, g, h, p);
    law_solution_in_bracket(strategy, g);
    law_solution_is_a_zero(strategy, g);
    law_bracket_decides(strategy, g);
    law_not_converged(strategy, g);
    match solve_monotone_spec(strategy, g) {
        Ok(x) => {
            lemma_crossed(lo, hi, lit(SOLVER_TOL), g, h, p, x);
        },
        Err(_) => {},
    }
}

/// The ends of the ranges are in order, and the starting points lie between them.
proof fn lemma_ends_in_order()
    ensures
        ({
            let b = lit(SEARCH_BOUND);
            let z = lit(ZERO);
            let o = lit(ONE);
            let f = lit(FIVE);
            let t = lit(T_BOUND);
            let e10 = lit(0x4202_A05F_2000_0000);
            let e4 = lit(0x40C3_8800_0000_0000);
            let e15 = lit(0x430C_6BF5_2634_0000);
            let em300 = lit(0x01A5_6E1F_C2F8_F359);
            &&& z.le(b) && z.le(o) && o.le(b) && o.le(t) && o.le(e10) && z.le(e4) && em300.le(e15)
            &&& z.le(f) && o.le(f) && f.le(b) && f.le(t) && f.le(e10) && f.le(e4) && z.le(t)
            &&& t.negated().le(t) && t.negated().le(z)
            &&& z.le(z)
        }),
        forall|x: F64| #[trigger] probability(x) ==> x.is_finite(),
        forall|x: F64| #[trigger] inner(x) ==> x.is_finite() && probability(x) && !x.equals(lit(ZERO))
            && !x.equals(lit(ONE)),
{
    broadcast use lemma_le_units;
    broadcast use lemma_lt_units;
    broadcast use lemma_equals_units;
    lemma_mag_zero(0);
    lemma_order(SEARCH_BOUND as int, 0);
    lemma_order(ONE as int, 0);
    lemma_order(ONE as int, SEARCH_BOUND as int);
    lemma_order(ONE as int, T_BOUND as int);
    lemma_order(ONE as int, 0x4202_A05F_2000_0000);
    lemma_order(0x40C3_8800_0000_0000, 0);
    lemma_order(0x01A5_6E1F_C2F8_F359, 0x430C_6BF5_2634_0000);
    lemma_order(FIVE as int, 0);
    lemma_order(FIVE as int, ONE as int);
    lemma_order(FIVE as int, SEARCH_BOUND as int);
    lemma_order(FIVE as int, T_BOUND as int);
    lemma_order(FIVE as int, 0x4202_A05F_2000_0000);
    lemma_order(FIVE as int, 0x40C3_8800_0000_0000);
    lemma_order(T_BOUND as int, 0);
    crate::float::laws::law_negation(lit(T_BOUND));
    assert forall|x: F64| #[trigger] probability(x) implies x.is_finite() by {
        lemma_unit(x);
    }
    assert forall|x: F64| #[trigger] inner(x) implies x.is_finite() && probability(x) && !x.equals(
        lit(ZERO),
    ) && !x.equals(lit(ONE)) by {
        lemma_unit(x);
    }
}

proof fn lemma_complement_is_finite(p: F64)
    requires
        probability(p) || inner(p),
    ensures
        (lit(ONE) - p).is_finite(),
        probability(lit(ONE) - p),
{
    broadcast use lemma_le_units;
    broadcast use lemma_lt_units;
    lemma_unit(p);
    lemma_complement_in_range(p);
    lemma_unit(lit(ONE) - p);
}

/// Nothing lies below zero of a chi-squared distribution.
proof fn lemma_chi_at_zero<M: Fn(Elementary) -> F64>(m: &M, df: F64, x: F64)
    requires
        (df / lit(TWO)).is_finite() && (df / lit(TWO)).gt(lit(ZERO)),
        lit(ZERO).le(x),
    ensures
        chi_squared::cdf_at(m, df, x) == gamma_inc_value(m, df / lit(TWO), x / lit(TWO)).0,
        chi_squared::ccdf_at(m, df, x) == gamma_inc_value(m, df / lit(TWO), x / lit(TWO)).1,
{
    broadcast use lemma_le_units;
    broadcast use lemma_lt_units;
    broadcast use lemma_equals_units;
    lemma_mag_zero(0);
    if x.le(lit(ZERO)) {
        lemma_order(x.enc() as int, 0);
        lemma_order(TWO as int, 0);
        let a = df / lit(TWO);
        let y = x / lit(TWO);
        crate::float::laws::law_quotient_is_nearest(x, lit(TWO));
        vstd::arithmetic::power2::lemma_pow2_pos(1074);
        assert(0 * vstd::arithmetic::power2::pow2(1074) == 0);
        crate::float::arith::lemma_round_zero(crate::float::model::mag(TWO as int));
        crate::float::model::lemma_round_ratio_is(0, crate::float::model::mag(TWO as int), y.enc());
        assert(y.enc() == 0);
        crate::float::laws::law_product_is_nearest(a, y);
        let ma = crate::float::model::mag(a.enc() as int);
        assert(ma * 0 == 0);
        crate::float::arith::lemma_round_zero(vstd::arithmetic::power2::pow2(1074) as int);
        crate::float::model::lemma_round_ratio_is(0, vstd::arithmetic::power2::pow2(1074) as int, (a * y).enc());
        assert((a * y).equals(lit(ZERO)));
        reveal(gamma_inc_core_spec);
        reveal(settled_spec);
        lemma_order(ONE as int, TWO as int);
        lemma_order(0, TWO as int);
    }
}

/// Zero less a positive number is its negative.
proof fn lemma_nothing_less(p: F64)
    requires
        probability(p),
        p.lt(lit(ONE)),
    ensures
        lit(ZERO) - (lit(ONE) - p) == (lit(ONE) - p).negated(),
{
    let q = lit(ONE) - p;
    lemma_complement_is_finite(p);
    law_difference_sign(lit(ONE), p);
    law_sign_and_zero(q);
    crate::float::laws::law_negation(q);
    crate::float::laws::law_sum_with_zero(q.negated());
}

/// Finding the first parameter of a beta distribution: the smaller probability passes
/// through the one asked for within the tolerance of the answer, and there is one exactly
/// where that probability does not lie on the same side at both ends of the range.
pub proof fn law_beta_a_is_found<M: Fn(Elementary) -> F64>(m: &M, p: F64, q: F64, x: F64, b: F64)
    requires
        probability_pair(p, q),
        lit(ZERO).lt(x) && x.lt(lit(ONE)),
        b.is_finite() && b.gt(lit(ZERO)),
        ({
            let h = if p.le(q) {
                |a: F64| beta::cdf_at(m, a, b, x)
            } else {
                |a: F64| beta::ccdf_at(m, a, b, x)
            };
            let w = if p.le(q) {
                p
            } else {
                q
            };
            defined_on(lit(ZERO), lit(SEARCH_BOUND), h) && even_at_zero(h)
        }),
    ensures
        ({
            let h = if p.le(q) {
                |a: F64| beta::cdf_at(m, a, b, x)
            } else {
                |a: F64| beta::ccdf_at(m, a, b, x)
            };
            let w = if p.le(q) {
                p
            } else {
                q
            };
            let g = |a: F64| beta::deviation(m, p, q, x, a, b);
            answered(
                lit(ZERO),
                lit(SEARCH_BOUND),
                lit(ABS_TOL),
                h,
                w,
                beta::search_a_spec(m, p, q, x, b),
                used_up(lit(ZERO), lit(SEARCH_BOUND), lit(FIVE), lit(ABS_TOL), g),
            )
        }),
{
    let h = if p.le(q) {
        |a: F64| beta::cdf_at(m, a, b, x)
    } else {
        |a: F64| beta::ccdf_at(m, a, b, x)
    };
    let w = if p.le(q) {
        p
    } else {
        q
    };
    let g = |a: F64| beta::deviation(m, p, q, x, a, b);
    broadcast use lemma_le_units;
    broadcast use lemma_lt_units;
    lemma_ends_in_order();
    assert forall|x: F64| lit(ZERO).le(x) && x.le(lit(SEARCH_BOUND)) implies #[trigger] g(x) == h(x) - w by {
    }
    lemma_search_crosses(lit(ZERO), lit(SEARCH_BOUND), lit(FIVE), lit(ZERO), lit(SEARCH_BOUND), lit(ABS_TOL), g, h, w);
}

/// Finding the first parameter of a beta distribution: the smaller probability passes
/// through the one asked for within the tolerance of the answer, and there is one exactly
/// where that probability does not lie on the same side at both ends of the range.
pub proof fn law_beta_a_is_solved<M: Fn(Elementary) -> F64>(m: &M, p: F64, x: F64, b: F64)
    requires
        probability(p),
        lit(ZERO).lt(x) && x.lt(lit(ONE)),
        b.is_finite() && b.gt(lit(ZERO)),
        ({
            let q = lit(ONE) - p;
            let h = if p.le(q) {
                |a: F64| beta::cdf_at(m, a, b, x)
            } else {
                |a: F64| beta::ccdf_at(m, a, b, x)
            };
            let w = if p.le(q) {
                p
            } else {
                q
            };
            defined_on(lit(ZERO), lit(SEARCH_BOUND), h) && even_at_zero(h)
        }),
    ensures
        ({
            let q = lit(ONE) - p;
            let h = if p.le(q) {
                |a: F64| beta::cdf_at(m, a, b, x)
            } else {
                |a: F64| beta::ccdf_at(m, a, b, x)
            };
            let w = if p.le(q) {
                p
            } else {
                q
            };
            let g = |a: F64| beta::deviation(m, p, q, x, a, b);
            solved(
                lit(ZERO),
                lit(SEARCH_BOUND),
                h,
                w,
                beta::solve_a_spec(m, p, x, b),
                solver_used_up((BracketStrategy::Decreasing { small: lit(ZERO), big: lit(SEARCH_BOUND), start: lit(FIVE) }), g),
            )
        }),
{
    let q = lit(ONE) - p;
    let h = if p.le(q) {
        |a: F64| beta::cdf_at(m, a, b, x)
    } else {
        |a: F64| beta::ccdf_at(m, a, b, x)
    };
    let w = if p.le(q) {
        p
    } else {
        q
    };
    let g = |a: F64| beta::deviation(m, p, q, x, a, b);
    broadcast use lemma_le_units;
    broadcast use lemma_lt_units;
    lemma_ends_in_order();
    lemma_complement_is_finite(p);
    assert forall|x: F64| lit(ZERO).le(x) && x.le(lit(SEARCH_BOUND)) implies #[trigger] g(x) == h(x) - w by {
    }
    lemma_solve_crosses(
        BracketStrategy::Decreasing { small: lit(ZERO), big: lit(SEARCH_BOUND), start: lit(FIVE) },
        g,
        h,
        w,
    );
}

/// Finding the second parameter of a beta distribution: the smaller probability passes
/// through the one asked for within the tolerance of the answer, and there is one exactly
/// where that probability does not lie on the same side at both ends of the range.
pub proof fn law_beta_b_is_found<M: Fn(Elementary) -> F64>(m: &M, p: F64, q: F64, x: F64, a: F64)
    requires
        probability_pair(p, q),
        lit(ZERO).lt(x) && x.lt(lit(ONE)),
        a.is_finite() && a.gt(lit(ZERO)),
        ({
            let h = if p.le(q) {
                |b: F64| beta::cdf_at(m, a, b, x)
            } else {
                |b: F64| beta::ccdf_at(m, a, b, x)
            };
            let w = if p.le(q) {
                p
            } else {
                q
            };
            defined_on(lit(ZERO), lit(SEARCH_BOUND), h) && even_at_zero(h)
        }),
    ensures
        ({
            let h = if p.le(q) {
                |b: F64| beta::cdf_at(m, a, b, x)
            } else {
                |b: F64| beta::ccdf_at(m, a, b, x)
            };
            let w = if p.le(q) {
                p
            } else {
                q
            };
            let g = |b: F64| beta::deviation(m, p, q, x, a, b);
            answered(
                lit(ZERO),
                lit(SEARCH_BOUND),
                lit(ABS_TOL),
                h,
                w,
                beta::search_b_spec(m, p, q, x, a),
                used_up(lit(ZERO), lit(SEARCH_BOUND), lit(FIVE), lit(ABS_TOL), g),
            )
        }),
{
    let h = if p.le(q) {
        |b: F64| beta::cdf_at(m, a, b, x)
    } else {
        |b: F64| beta::ccdf_at(m, a, b, x)
    };
    let w = if p.le(q) {
        p
    } else {
        q
    };
    let g = |b: F64| beta::deviation(m, p, q, x, a, b);
    broadcast use lemma_le_units;
    broadcast use lemma_lt_units;
    lemma_ends_in_order();
    assert forall|x: F64| lit(ZERO).le(x) && x.le(lit(SEARCH_BOUND)) implies #[trigger] g(x) == h(x) - w by {
    }
    lemma_search_crosses(lit(ZERO), lit(SEARCH_BOUND), lit(FIVE), lit(ZERO), lit(SEARCH_BOUND), lit(ABS_TOL), g, h, w);
}

/// Finding the second parameter of a beta distribution: the smaller probability passes
/// through the one asked for within the tolerance of the answer, and there is one exactly
/// where that probability does not lie on the same side at both ends of the range.
pub proof fn law_beta_b_is_solved<M: Fn(Elementary) -> F64>(m: &M, p: F64, x: F64, a: F64)
    requires
        probability(p),
        lit(ZERO).lt(x) && x.lt(lit(ONE)),
        a.is_finite() && a.gt(lit(ZERO)),
        ({
            let q = lit(ONE) - p;
            let h = if p.le(q) {
                |b: F64| beta::cdf_at(m, a, b, x)
            } else {
                |b: F64| beta::ccdf_at(m, a, b, x)
            };
            let w = if p.le(q) {
                p
            } else {
                q
            };
            defined_on(lit(ZERO), lit(SEARCH_BOUND), h) && even_at_zero(h)
        }),
    ensures
        ({
            let q = lit(ONE) - p;
            let h = if p.le(q) {
                |b: F64| beta::cdf_at(m, a, b, x)
            } else {
                |b: F64| beta::ccdf_at(m, a, b, x)
            };
            let w = if p.le(q) {
                p
            } else {
                q
            };
            let g = |b: F64| beta::deviation(m, p, q, x, a, b);
            solved(
                lit(ZERO),
                lit(SEARCH_BOUND),
                h,
                w,
                beta::solve_b_spec(m, p, x, a),
                solver_used_up((BracketStrategy::Increasing { small: lit(ZERO), big: lit(SEARCH_BOUND), start: lit(FIVE) }), g),
            )
        }),
{
    let q = lit(ONE) - p;
    let h = if p.le(q) {
        |b: F64| beta::cdf_at(m, a, b, x)
    } else {
        |b: F64| beta::ccdf_at(m, a, b, x)
    };
    let w = if p.le(q) {
        p
    } else {
        q
    };
    let g = |b: F64| beta::deviation(m, p, q, x, a, b);
    broadcast use lemma_le_units;
    broadcast use lemma_lt_units;
    lemma_ends_in_order();
    lemma_complement_is_finite(p);
    assert forall|x: F64| lit(ZERO).le(x) && x.le(lit(SEARCH_BOUND)) implies #[trigger] g(x) == h(x) - w by {
    }
    lemma_solve_crosses(
        BracketStrategy::Increasing { small: lit(ZERO), big: lit(SEARCH_BOUND), start: lit(FIVE) },
        g,
        h,
        w,
    );
}

/// Finding the degrees of freedom of a chi-squared distribution: the smaller probability
/// passes through the one asked for within the tolerance of the answer, and there is one
/// exactly where that probability does not lie on the same side at both ends of the range.
pub proof fn law_chi_squared_df_is_solved<M: Fn(Elementary) -> F64>(m: &M, p: F64, x: F64)
    requires
        probability(p),
        x.is_finite() && x.gt(lit(ZERO)),
        ({
            let q = lit(ONE) - p;
            let h = if p.le(q) {
                |df: F64| chi_squared::cdf_at(m, df, x)
            } else {
                |df: F64| chi_squared::ccdf_at(m, df, x)
            };
            let w = if p.le(q) {
                p
            } else {
                q
            };
            defined_on(lit(ZERO), lit(SEARCH_BOUND), h) && even_at_zero(h)
        }),
    ensures
        ({
            let q = lit(ONE) - p;
            let h = if p.le(q) {
                |df: F64| chi_squared::cdf_at(m, df, x)
            } else {
                |df: F64| chi_squared::ccdf_at(m, df, x)
            };
            let w = if p.le(q) {
                p
            } else {
                q
            };
            let g = |df: F64| chi_squared::deviation(m, p, q, x, df);
            solved(
                lit(ZERO),
                lit(SEARCH_BOUND),
                h,
                w,
                chi_squared::solve_df_spec(m, p, x),
                solver_used_up((BracketStrategy::Decreasing { small: lit(ZERO), big: lit(SEARCH_BOUND), start: lit(FIVE) }), g),
            )
        }),
{
    let q = lit(ONE) - p;
    let h = if p.le(q) {
        |df: F64| chi_squared::cdf_at(m, df, x)
    } else {
        |df: F64| chi_squared::ccdf_at(m, df, x)
    };
    let w = if p.le(q) {
        p
    } else {
        q
    };
    let g = |df: F64| chi_squared::deviation(m, p, q, x, df);
    broadcast use lemma_le_units;
    broadcast use lemma_lt_units;
    lemma_ends_in_order();
    lemma_complement_is_finite(p);
    assert forall|x: F64| lit(ZERO).le(x) && x.le(lit(SEARCH_BOUND)) implies #[trigger] g(x) == h(x) - w by {
    }
    lemma_solve_crosses(
        BracketStrategy::Decreasing { small: lit(ZERO), big: lit(SEARCH_BOUND), start: lit(FIVE) },
        g,
        h,
        w,
    );
}

/// Finding the quantile of a chi-squared distribution: the probability below passes through
/// the one asked for within the tolerance of the answer, and there is one exactly where
/// that probability does not lie on the same side at both ends of the range.
pub proof fn law_chi_squared_quantile_is_found<M: Fn(Elementary) -> F64>(m: &M, df: F64, p: F64)
    requires
        inner(p),
        (df / lit(TWO)).is_finite() && (df / lit(TWO)).gt(lit(ZERO)),
        ({
            let h = |x: F64| chi_squared::cdf_at(m, df, x);
            defined_on(lit(ZERO), lit(SEARCH_BOUND), h) && even_at_zero(h)
        }),
    ensures
        ({
            let h = |x: F64| chi_squared::cdf_at(m, df, x);
            let g = |x: F64| gamma_inc_value(m, df / lit(TWO), x / lit(TWO)).0 - p;
            solved(
                lit(ZERO),
                lit(SEARCH_BOUND),
                h,
                p,
                chi_squared::quantile_spec(m, df, p),
                solver_used_up((BracketStrategy::Increasing { small: lit(ZERO), big: lit(SEARCH_BOUND), start: lit(FIVE) }), g),
            )
        }),
{
    let h = |x: F64| chi_squared::cdf_at(m, df, x);
    let g = |x: F64| gamma_inc_value(m, df / lit(TWO), x / lit(TWO)).0 - p;
    broadcast use lemma_le_units;
    broadcast use lemma_lt_units;
    lemma_ends_in_order();
    lemma_complement_is_finite(p);
    assert forall|x: F64| lit(ZERO).le(x) && x.le(lit(SEARCH_BOUND)) implies #[trigger] g(x) == h(x) - p by {
        lemma_chi_at_zero(m, df, x);
    }
    lemma_solve_crosses(
        BracketStrategy::Increasing { small: lit(ZERO), big: lit(SEARCH_BOUND), start: lit(FIVE) },
        g,
        h,
        p,
    );
}

/// Finding the upper quantile of a chi-squared distribution: the probability above passes
/// through the one asked for within the tolerance of the answer, and there is one exactly
/// where that probability does not lie on the same side at both ends of the range.
pub proof fn law_chi_squared_upper_quantile_is_found<M: Fn(Elementary) -> F64>(m: &M, df: F64, q: F64)
    requires
        inner(q),
        (df / lit(TWO)).is_finite() && (df / lit(TWO)).gt(lit(ZERO)),
        ({
            let h = |x: F64| chi_squared::ccdf_at(m, df, x);
            defined_on(lit(ZERO), lit(SEARCH_BOUND), h) && even_at_zero(h)
        }),
    ensures
        ({
            let h = |x: F64| chi_squared::ccdf_at(m, df, x);
            let g = |x: F64| gamma_inc_value(m, df / lit(TWO), x / lit(TWO)).1 - q;
            solved(
                lit(ZERO),
                lit(SEARCH_BOUND),
                h,
                q,
                chi_squared::upper_quantile_spec(m, df, q),
                solver_used_up((BracketStrategy::Decreasing { small: lit(ZERO), big: lit(SEARCH_BOUND), start: lit(FIVE) }), g),
            )
        }),
{
    let h = |x: F64| chi_squared::ccdf_at(m, df, x);
    let g = |x: F64| gamma_inc_value(m, df / lit(TWO), x / lit(TWO)).1 - q;
    broadcast use lemma_le_units;
    broadcast use lemma_lt_units;
    lemma_ends_in_order();
    lemma_complement_is_finite(q);
    assert forall|x: F64| lit(ZERO).le(x) && x.le(lit(SEARCH_BOUND)) implies #[trigger] g(x) == h(x) - q by {
        lemma_chi_at_zero(m, df, x);
    }
    lemma_solve_crosses(
        BracketStrategy::Decreasing { small: lit(ZERO), big: lit(SEARCH_BOUND), start: lit(FIVE) },
        g,
        h,
        q,
    );
}

/// Finding the degrees of freedom of a noncentral chi-squared distribution: the probability
/// below passes through the one asked for within the tolerance of the answer, and there is
/// one exactly where that probability does not lie on the same side at both ends of the
/// range.
pub proof fn law_noncentral_chi_squared_df_is_found<M: Fn(Elementary) -> F64>(m: &M, p: F64, x: F64, ncp: F64)
    requires
        probability(p),
        x.is_finite() && x.gt(lit(ZERO)),
        ncp.is_finite() && lit(ZERO).le(ncp),
        ({
            let h = |df: F64| chi_squared_noncentral::cdf_at(m, df, ncp, x);
            defined_on(lit(ZERO), lit(SEARCH_BOUND), h) && even_at_zero(h)
        }),
    ensures
        ({
            let h = |df: F64| chi_squared_noncentral::cdf_at(m, df, ncp, x);
            let g = |df: F64| chi_squared_noncentral::cumchn(m, x, df, ncp).0 - p;
            answered(
                lit(ZERO),
                lit(SEARCH_BOUND),
                lit(0x358D_EE7A_4AD4_B81F),
                h,
                p,
                chi_squared_noncentral::search_df_spec(m, p, x, ncp),
                used_up(lit(ZERO), lit(SEARCH_BOUND), lit(FIVE), lit(0x358D_EE7A_4AD4_B81F), g),
            )
        }),
{
    let h = |df: F64| chi_squared_noncentral::cdf_at(m, df, ncp, x);
    let g = |df: F64| chi_squared_noncentral::cumchn(m, x, df, ncp).0 - p;
    broadcast use lemma_le_units;
    broadcast use lemma_lt_units;
    lemma_ends_in_order();
    assert forall|x: F64| lit(ZERO).le(x) && x.le(lit(SEARCH_BOUND)) implies #[trigger] g(x) == h(x) - p by {
    }
    lemma_search_crosses(lit(ZERO), lit(SEARCH_BOUND), lit(FIVE), lit(ZERO), lit(SEARCH_BOUND), lit(0x358D_EE7A_4AD4_B81F), g, h, p);
}

/// Finding the noncentrality of a noncentral chi-squared distribution: the probability
/// below passes through the one asked for within the tolerance of the answer, and there is
/// one exactly where that probability does not lie on the same side at both ends of the
/// range.
pub proof fn law_noncentral_chi_squared_ncp_is_found<M: Fn(Elementary) -> F64>(m: &M, p: F64, x: F64, df: F64)
    requires
        probability(p),
        x.is_finite() && x.gt(lit(ZERO)),
        df.is_finite() && df.gt(lit(ZERO)),
        ({
            let h = |ncp: F64| chi_squared_noncentral::cdf_at(m, df, ncp, x);
            defined_on(lit(ZERO), lit(0x40C3_8800_0000_0000), h) && even_at_zero(h)
        }),
    ensures
        ({
            let h = |ncp: F64| chi_squared_noncentral::cdf_at(m, df, ncp, x);
            let g = |ncp: F64| chi_squared_noncentral::cumchn(m, x, df, ncp).0 - p;
            answered(
                lit(ZERO),
                lit(0x40C3_8800_0000_0000),
                lit(0x358D_EE7A_4AD4_B81F),
                h,
                p,
                chi_squared_noncentral::search_ncp_spec(m, p, x, df),
                used_up(lit(ZERO), lit(0x40C3_8800_0000_0000), lit(FIVE), lit(0x358D_EE7A_4AD4_B81F), g),
            )
        }),
{
    let h = |ncp: F64| chi_squared_noncentral::cdf_at(m, df, ncp, x);
    let g = |ncp: F64| chi_squared_noncentral::cumchn(m, x, df, ncp).0 - p;
    broadcast use lemma_le_units;
    broadcast use lemma_lt_units;
    lemma_ends_in_order();
    assert forall|x: F64| lit(ZERO).le(x) && x.le(lit(0x40C3_8800_0000_0000)) implies #[trigger] g(x) == h(x) - p by {
    }
    lemma_search_crosses(lit(ZERO), lit(0x40C3_8800_0000_0000), lit(FIVE), lit(ZERO), lit(0x40C3_8800_0000_0000), lit(0x358D_EE7A_4AD4_B81F), g, h, p);
}

/// Finding the quantile of a noncentral chi-squared distribution: the probability below
/// passes through the one asked for within the tolerance of the answer, and there is one
/// exactly where that probability does not lie on the same side at both ends of the range.
pub proof fn law_noncentral_chi_squared_quantile_is_found<M: Fn(Elementary) -> F64>(m: &M, df: F64, ncp: F64, p: F64)
    requires
        inner(p),
        df.is_finite() && df.gt(lit(ZERO)),
        ncp.is_finite() && lit(ZERO).le(ncp),
        ({
            let h = |x: F64| chi_squared_noncentral::cdf_at(m, df, ncp, x);
            defined_on(lit(ZERO), lit(SEARCH_BOUND), h) && even_at_zero(h)
        }),
    ensures
        ({
            let h = |x: F64| chi_squared_noncentral::cdf_at(m, df, ncp, x);
            let g = |x: F64| chi_squared_noncentral::cumchn(m, x, df, ncp).0 - p;
            answered(
                lit(ZERO),
                lit(SEARCH_BOUND),
                lit(0x358D_EE7A_4AD4_B81F),
                h,
                p,
                chi_squared_noncentral::quantile_spec(m, df, ncp, p),
                used_up(lit(ZERO), lit(SEARCH_BOUND), lit(FIVE), lit(0x358D_EE7A_4AD4_B81F), g),
            )
        }),
{
    let h = |x: F64| chi_squared_noncentral::cdf_at(m, df, ncp, x);
    let g = |x: F64| chi_squared_noncentral::cumchn(m, x, df, ncp).0 - p;
    broadcast use lemma_le_units;
    broadcast use lemma_lt_units;
    lemma_ends_in_order();
    lemma_complement_is_finite(p);
    assert forall|x: F64| lit(ZERO).le(x) && x.le(lit(SEARCH_BOUND)) implies #[trigger] g(x) == h(x) - p by {
    }
    lemma_search_crosses(lit(ZERO), lit(SEARCH_BOUND), lit(FIVE), lit(ZERO), lit(SEARCH_BOUND), lit(0x358D_EE7A_4AD4_B81F), g, h, p);
}

/// Finding the upper quantile of a noncentral chi-squared distribution: the probability
/// above passes through the one asked for within the tolerance of the answer, and there is
/// one exactly where that probability does not lie on the same side at both ends of the
/// range.
pub proof fn law_noncentral_chi_squared_upper_quantile_is_found<M: Fn(Elementary) -> F64>(m: &M, df: F64, ncp: F64, q: F64)
    requires
        inner(q),
        !(df + ncp).is_nan(),
        ({
            let h = |x: F64| chi_squared_noncentral::ccdf_at(m, df, ncp, x);
            defined_on(lit(ZERO), lit(SEARCH_BOUND), h) && even_at_zero(h)
        }),
    ensures
        ({
            let h = |x: F64| chi_squared_noncentral::ccdf_at(m, df, ncp, x);
            let g = |x: F64| chi_squared_noncentral::cumchn(m, x, df, ncp).1 - q;
            solved(
                lit(ZERO),
                lit(SEARCH_BOUND),
                h,
                q,
                chi_squared_noncentral::upper_quantile_spec(m, df, ncp, q),
                solver_used_up((BracketStrategy::Decreasing { small: lit(ZERO), big: lit(SEARCH_BOUND), start: df + ncp }), g),
            )
        }),
{
    let h = |x: F64| chi_squared_noncentral::ccdf_at(m, df, ncp, x);
    let g = |x: F64| chi_squared_noncentral::cumchn(m, x, df, ncp).1 - q;
    broadcast use lemma_le_units;
    broadcast use lemma_lt_units;
    lemma_ends_in_order();
    lemma_complement_is_finite(q);
    assert forall|x: F64| lit(ZERO).le(x) && x.le(lit(SEARCH_BOUND)) implies #[trigger] g(x) == h(x) - q by {
    }
    lemma_solve_crosses(
        BracketStrategy::Decreasing { small: lit(ZERO), big: lit(SEARCH_BOUND), start: df + ncp },
        g,
        h,
        q,
    );
}

/// Finding the degrees of freedom of the numerator of an F distribution: the smaller
/// probability passes through the one asked for within the tolerance of the answer, and
/// there is one exactly where that probability does not lie on the same side at both ends
/// of the range.
pub proof fn law_f_dfn_is_solved<M: Fn(Elementary) -> F64>(m: &M, p: F64, q: F64, f: F64, dfd: F64)
    requires
        probability_pair(p, q),
        f.is_finite() && f.gt(lit(ZERO)),
        dfd.is_finite() && dfd.gt(lit(ZERO)),
        ({
            let h = if p.le(q) {
                |dfn: F64| fisher_snedecor::cdf_at(m, dfn, dfd, f)
            } else {
                |dfn: F64| fisher_snedecor::ccdf_at(m, dfn, dfd, f)
            };
            let w = if p.le(q) {
                p
            } else {
                q
            };
            defined_on(lit(ONE), lit(SEARCH_BOUND), h) && even_at_zero(h)
        }),
    ensures
        ({
            let h = if p.le(q) {
                |dfn: F64| fisher_snedecor::cdf_at(m, dfn, dfd, f)
            } else {
                |dfn: F64| fisher_snedecor::ccdf_at(m, dfn, dfd, f)
            };
            let w = if p.le(q) {
                p
            } else {
                q
            };
            let g = |dfn: F64| fisher_snedecor::deviation(m, p, q, f, dfn, dfd);
            solved(
                lit(ONE),
                lit(SEARCH_BOUND),
                h,
                w,
                fisher_snedecor::solve_dfn_spec(m, p, q, f, dfd),
                solver_used_up((BracketStrategy::Increasing { small: lit(ONE), big: lit(SEARCH_BOUND), start: lit(FIVE) }), g),
            )
        }),
{
    let h = if p.le(q) {
        |dfn: F64| fisher_snedecor::cdf_at(m, dfn, dfd, f)
    } else {
        |dfn: F64| fisher_snedecor::ccdf_at(m, dfn, dfd, f)
    };
    let w = if p.le(q) {
        p
    } else {
        q
    };
    let g = |dfn: F64| fisher_snedecor::deviation(m, p, q, f, dfn, dfd);
    broadcast use lemma_le_units;
    broadcast use lemma_lt_units;
    lemma_ends_in_order();
    assert forall|x: F64| lit(ONE).le(x) && x.le(lit(SEARCH_BOUND)) implies #[trigger] g(x) == h(x) - w by {
    }
    lemma_solve_crosses(
        BracketStrategy::Increasing { small: lit(ONE), big: lit(SEARCH_BOUND), start: lit(FIVE) },
        g,
        h,
        w,
    );
}

/// Finding the degrees of freedom of the denominator of an F distribution: the smaller
/// probability passes through the one asked for within the tolerance of the answer, and
/// there is one exactly where that probability does not lie on the same side at both ends
/// of the range.
pub proof fn law_f_dfd_is_solved<M: Fn(Elementary) -> F64>(m: &M, p: F64, q: F64, f: F64, dfn: F64)
    requires
        probability_pair(p, q),
        f.is_finite() && f.gt(lit(ZERO)),
        dfn.is_finite() && dfn.gt(lit(ZERO)),
        ({
            let h = if p.le(q) {
                |dfd: F64| fisher_snedecor::cdf_at(m, dfn, dfd, f)
            } else {
                |dfd: F64| fisher_snedecor::ccdf_at(m, dfn, dfd, f)
            };
            let w = if p.le(q) {
                p
            } else {
                q
            };
            defined_on(lit(ONE), lit(SEARCH_BOUND), h) && even_at_zero(h)
        }),
    ensures
        ({
            let h = if p.le(q) {
                |dfd: F64| fisher_snedecor::cdf_at(m, dfn, dfd, f)
            } else {
                |dfd: F64| fisher_snedecor::ccdf_at(m, dfn, dfd, f)
            };
            let w = if p.le(q) {
                p
            } else {
                q
            };
            let g = |dfd: F64| fisher_snedecor::deviation(m, p, q, f, dfn, dfd);
            solved(
                lit(ONE),
                lit(SEARCH_BOUND),
                h,
                w,
                fisher_snedecor::solve_dfd_spec(m, p, q, f, dfn),
                solver_used_up((BracketStrategy::Increasing { small: lit(ONE), big: lit(SEARCH_BOUND), start: lit(FIVE) }), g),
            )
        }),
{
    let h = if p.le(q) {
        |dfd: F64| fisher_snedecor::cdf_at(m, dfn, dfd, f)
    } else {
        |dfd: F64| fisher_snedecor::ccdf_at(m, dfn, dfd, f)
    };
    let w = if p.le(q) {
        p
    } else {
        q
    };
    let g = |dfd: F64| fisher_snedecor::deviation(m, p, q, f, dfn, dfd);
    broadcast use lemma_le_units;
    broadcast use lemma_lt_units;
    lemma_ends_in_order();
    assert forall|x: F64| lit(ONE).le(x) && x.le(lit(SEARCH_BOUND)) implies #[trigger] g(x) == h(x) - w by {
    }
    lemma_solve_crosses(
        BracketStrategy::Increasing { small: lit(ONE), big: lit(SEARCH_BOUND), start: lit(FIVE) },
        g,
        h,
        w,
    );
}

/// Finding the quantile of an F distribution: the smaller probability passes through the
/// one asked for within the tolerance of the answer, and there is one exactly where that
/// probability does not lie on the same side at both ends of the range.
pub proof fn law_f_quantile_is_found<M: Fn(Elementary) -> F64>(m: &M, dfn: F64, dfd: F64, p: F64)
    requires
        inner(p),
        ({
            let q = lit(ONE) - p;
            let h = if p.le(q) {
                |x: F64| fisher_snedecor::cdf_at(m, dfn, dfd, x)
            } else {
                |x: F64| fisher_snedecor::ccdf_at(m, dfn, dfd, x)
            };
            let w = if p.le(q) {
                p
            } else {
                q
            };
            defined_on(lit(ZERO), lit(SEARCH_BOUND), h) && even_at_zero(h)
        }),
    ensures
        ({
            let q = lit(ONE) - p;
            let h = if p.le(q) {
                |x: F64| fisher_snedecor::cdf_at(m, dfn, dfd, x)
            } else {
                |x: F64| fisher_snedecor::ccdf_at(m, dfn, dfd, x)
            };
            let w = if p.le(q) {
                p
            } else {
                q
            };
            let g = |x: F64| fisher_snedecor::deviation(m, p, q, x, dfn, dfd);
            solved(
                lit(ZERO),
                lit(SEARCH_BOUND),
                h,
                w,
                fisher_snedecor::quantile_spec(m, dfn, dfd, p),
                solver_used_up((BracketStrategy::Increasing { small: lit(ZERO), big: lit(SEARCH_BOUND), start: lit(FIVE) }), g),
            )
        }),
{
    let q = lit(ONE) - p;
    let h = if p.le(q) {
        |x: F64| fisher_snedecor::cdf_at(m, dfn, dfd, x)
    } else {
        |x: F64| fisher_snedecor::ccdf_at(m, dfn, dfd, x)
    };
    let w = if p.le(q) {
        p
    } else {
        q
    };
    let g = |x: F64| fisher_snedecor::deviation(m, p, q, x, dfn, dfd);
    broadcast use lemma_le_units;
    broadcast use lemma_lt_units;
    lemma_ends_in_order();
    lemma_complement_is_finite(p);
    assert forall|x: F64| lit(ZERO).le(x) && x.le(lit(SEARCH_BOUND)) implies #[trigger] g(x) == h(x) - w by {
    }
    lemma_solve_crosses(
        BracketStrategy::Increasing { small: lit(ZERO), big: lit(SEARCH_BOUND), start: lit(FIVE) },
        g,
        h,
        w,
    );
}

/// Finding the upper quantile of an F distribution: the probability above passes through
/// the one asked for within the tolerance of the answer, and there is one exactly where
/// that probability does not lie on the same side at both ends of the range.
pub proof fn law_f_upper_quantile_is_found<M: Fn(Elementary) -> F64>(m: &M, dfn: F64, dfd: F64, q: F64)
    requires
        inner(q),
        ({
            let h = |x: F64| fisher_snedecor::ccdf_at(m, dfn, dfd, x);
            defined_on(lit(ZERO), lit(SEARCH_BOUND), h) && even_at_zero(h)
        }),
    ensures
        ({
            let h = |x: F64| fisher_snedecor::ccdf_at(m, dfn, dfd, x);
            let g = |x: F64| fisher_snedecor::cumf(m, x, dfn, dfd).1 - q;
            solved(
                lit(ZERO),
                lit(SEARCH_BOUND),
                h,
                q,
                fisher_snedecor::upper_quantile_spec(m, dfn, dfd, q),
                solver_used_up((BracketStrategy::Decreasing { small: lit(ZERO), big: lit(SEARCH_BOUND), start: lit(FIVE) }), g),
            )
        }),
{
    let h = |x: F64| fisher_snedecor::ccdf_at(m, dfn, dfd, x);
    let g = |x: F64| fisher_snedecor::cumf(m, x, dfn, dfd).1 - q;
    broadcast use lemma_le_units;
    broadcast use lemma_lt_units;
    lemma_ends_in_order();
    lemma_complement_is_finite(q);
    assert forall|x: F64| lit(ZERO).le(x) && x.le(lit(SEARCH_BOUND)) implies #[trigger] g(x) == h(x) - q by {
    }
    lemma_solve_crosses(
        BracketStrategy::Decreasing { small: lit(ZERO), big: lit(SEARCH_BOUND), start: lit(FIVE) },
        g,
        h,
        q,
    );
}

/// Finding the degrees of freedom of the numerator of a noncentral F distribution: the
/// probability below passes through the one asked for within the tolerance of the answer,
/// and there is one exactly where that probability does not lie on the same side at both
/// ends of the range.
pub proof fn law_noncentral_f_dfn_is_found<M: Fn(Elementary) -> F64>(m: &M, p: F64, f: F64, dfd: F64, ncp: F64)
    requires
        probability(p),
        f.is_finite() && f.gt(lit(ZERO)),
        dfd.is_finite() && lit(ONE).le(dfd),
        ncp.is_finite() && lit(ZERO).le(ncp),
        ({
            let h = |dfn: F64| fisher_snedecor_noncentral::cdf_at(m, dfn, dfd, ncp, f);
            defined_on(lit(ONE), lit(0x4629_3E59_39A0_8CEA), h) && even_at_zero(h)
        }),
    ensures
        ({
            let h = |dfn: F64| fisher_snedecor_noncentral::cdf_at(m, dfn, dfd, ncp, f);
            let g = |dfn: F64| fisher_snedecor_noncentral::cumfnc(m, f, dfn, dfd, ncp).0 - p;
            answered(
                lit(ONE),
                lit(0x4629_3E59_39A0_8CEA),
                lit(ABS_TOL),
                h,
                p,
                fisher_snedecor_noncentral::search_dfn_spec(m, p, f, dfd, ncp),
                used_up(lit(ONE), lit(0x4629_3E59_39A0_8CEA), lit(FIVE), lit(ABS_TOL), g),
            )
        }),
{
    let h = |dfn: F64| fisher_snedecor_noncentral::cdf_at(m, dfn, dfd, ncp, f);
    let g = |dfn: F64| fisher_snedecor_noncentral::cumfnc(m, f, dfn, dfd, ncp).0 - p;
    broadcast use lemma_le_units;
    broadcast use lemma_lt_units;
    lemma_ends_in_order();
    assert forall|x: F64| lit(ONE).le(x) && x.le(lit(0x4629_3E59_39A0_8CEA)) implies #[trigger] g(x) == h(x) - p by {
    }
    lemma_search_crosses(lit(ONE), lit(0x4629_3E59_39A0_8CEA), lit(FIVE), lit(ZERO), lit(0x4629_3E59_39A0_8CEA), lit(ABS_TOL), g, h, p);
}

/// Finding the degrees of freedom of the denominator of a noncentral F distribution: the
/// probability below passes through the one asked for within the tolerance of the answer,
/// and there is one exactly where that probability does not lie on the same side at both
/// ends of the range.
pub proof fn law_noncentral_f_dfd_is_found<M: Fn(Elementary) -> F64>(m: &M, p: F64, f: F64, dfn: F64, ncp: F64)
    requires
        probability(p),
        f.is_finite() && f.gt(lit(ZERO)),
        dfn.is_finite() && lit(ONE).le(dfn),
        ncp.is_finite() && lit(ZERO).le(ncp),
        ({
            let h = |dfd: F64| fisher_snedecor_noncentral::cdf_at(m, dfn, dfd, ncp, f);
            defined_on(lit(ONE), lit(0x4629_3E59_39A0_8CEA), h) && even_at_zero(h)
        }),
    ensures
        ({
            let h = |dfd: F64| fisher_snedecor_noncentral::cdf_at(m, dfn, dfd, ncp, f);
            let g = |dfd: F64| fisher_snedecor_noncentral::cumfnc(m, f, dfn, dfd, ncp).0 - p;
            answered(
                lit(ONE),
                lit(0x4629_3E59_39A0_8CEA),
                lit(ABS_TOL),
                h,
                p,
                fisher_snedecor_noncentral::search_dfd_spec(m, p, f, dfn, ncp),
                used_up(lit(ONE), lit(0x4629_3E59_39A0_8CEA), lit(FIVE), lit(ABS_TOL), g),
            )
        }),
{
    let h = |dfd: F64| fisher_snedecor_noncentral::cdf_at(m, dfn, dfd, ncp, f);
    let g = |dfd: F64| fisher_snedecor_noncentral::cumfnc(m, f, dfn, dfd, ncp).0 - p;
    broadcast use lemma_le_units;
    broadcast use lemma_lt_units;
    lemma_ends_in_order();
    assert forall|x: F64| lit(ONE).le(x) && x.le(lit(0x4629_3E59_39A0_8CEA)) implies #[trigger] g(x) == h(x) - p by {
    }
    lemma_search_crosses(lit(ONE), lit(0x4629_3E59_39A0_8CEA), lit(FIVE), lit(ZERO), lit(0x4629_3E59_39A0_8CEA), lit(ABS_TOL), g, h, p);
}

/// Finding the noncentrality of a noncentral F distribution: the probability below passes
/// through the one asked for within the tolerance of the answer, and there is one exactly
/// where that probability does not lie on the same side at both ends of the range.
pub proof fn law_noncentral_f_ncp_is_found<M: Fn(Elementary) -> F64>(m: &M, p: F64, f: F64, dfn: F64, dfd: F64)
    requires
        probability(p),
        f.is_finite() && f.gt(lit(ZERO)),
        dfn.is_finite() && lit(ONE).le(dfn),
        dfd.is_finite() && lit(ONE).le(dfd),
        ({
            let h = |ncp: F64| fisher_snedecor_noncentral::cdf_at(m, dfn, dfd, ncp, f);
            defined_on(lit(ZERO), lit(0x40C3_8800_0000_0000), h) && even_at_zero(h)
        }),
    ensures
        ({
            let h = |ncp: F64| fisher_snedecor_noncentral::cdf_at(m, dfn, dfd, ncp, f);
            let g = |ncp: F64| fisher_snedecor_noncentral::cumfnc(m, f, dfn, dfd, ncp).0 - p;
            answered(
                lit(ZERO),
                lit(0x40C3_8800_0000_0000),
                lit(ABS_TOL),
                h,
                p,
                fisher_snedecor_noncentral::search_ncp_spec(m, p, f, dfn, dfd),
                used_up(lit(ZERO), lit(0x40C3_8800_0000_0000), lit(FIVE), lit(ABS_TOL), g),
            )
        }),
{
    let h = |ncp: F64| fisher_snedecor_noncentral::cdf_at(m, dfn, dfd, ncp, f);
    let g = |ncp: F64| fisher_snedecor_noncentral::cumfnc(m, f, dfn, dfd, ncp).0 - p;
    broadcast use lemma_le_units;
    broadcast use lemma_lt_units;
    lemma_ends_in_order();
    assert forall|x: F64| lit(ZERO).le(x) && x.le(lit(0x40C3_8800_0000_0000)) implies #[trigger] g(x) == h(x) - p by {
    }
    lemma_search_crosses(lit(ZERO), lit(0x40C3_8800_0000_0000), lit(FIVE), lit(ZERO), lit(0x40C3_8800_0000_0000), lit(ABS_TOL), g, h, p);
}

/// Finding the quantile of a noncentral F distribution: the probability below passes
/// through the one asked for within the tolerance of the answer, and there is one exactly
/// where that probability does not lie on the same side at both ends of the range.
pub proof fn law_noncentral_f_quantile_is_found<M: Fn(Elementary) -> F64>(m: &M, dfn: F64, dfd: F64, ncp: F64, p: F64)
    requires
        inner(p),
        ({
            let h = |x: F64| fisher_snedecor_noncentral::cdf_at(m, dfn, dfd, ncp, x);
            defined_on(lit(ZERO), lit(0x4629_3E59_39A0_8CEA), h) && even_at_zero(h)
        }),
    ensures
        ({
            let h = |x: F64| fisher_snedecor_noncentral::cdf_at(m, dfn, dfd, ncp, x);
            let g = |x: F64| fisher_snedecor_noncentral::cumfnc(m, x, dfn, dfd, ncp).0 - p;
            answered(
                lit(ZERO),
                lit(0x4629_3E59_39A0_8CEA),
                lit(ABS_TOL),
                h,
                p,
                fisher_snedecor_noncentral::quantile_spec(m, dfn, dfd, ncp, p),
                used_up(lit(ZERO), lit(0x4629_3E59_39A0_8CEA), lit(FIVE), lit(ABS_TOL), g),
            )
        }),
{
    let h = |x: F64| fisher_snedecor_noncentral::cdf_at(m, dfn, dfd, ncp, x);
    let g = |x: F64| fisher_snedecor_noncentral::cumfnc(m, x, dfn, dfd, ncp).0 - p;
    broadcast use lemma_le_units;
    broadcast use lemma_lt_units;
    lemma_ends_in_order();
    lemma_complement_is_finite(p);
    assert forall|x: F64| lit(ZERO).le(x) && x.le(lit(0x4629_3E59_39A0_8CEA)) implies #[trigger] g(x) == h(x) - p by {
    }
    lemma_search_crosses(lit(ZERO), lit(0x4629_3E59_39A0_8CEA), lit(FIVE), lit(ZERO), lit(0x4629_3E59_39A0_8CEA), lit(ABS_TOL), g, h, p);
}

/// Finding the upper quantile of a noncentral F distribution: the probability above passes
/// through the one asked for within the tolerance of the answer, and there is one exactly
/// where that probability does not lie on the same side at both ends of the range.
pub proof fn law_noncentral_f_upper_quantile_is_found<M: Fn(Elementary) -> F64>(m: &M, dfn: F64, dfd: F64, ncp: F64, q: F64)
    requires
        inner(q),
        ({
            let h = |x: F64| fisher_snedecor_noncentral::ccdf_at(m, dfn, dfd, ncp, x);
            defined_on(lit(ZERO), lit(SEARCH_BOUND), h) && even_at_zero(h)
        }),
    ensures
        ({
            let h = |x: F64| fisher_snedecor_noncentral::ccdf_at(m, dfn, dfd, ncp, x);
            let g = |x: F64| fisher_snedecor_noncentral::cumfnc(m, x, dfn, dfd, ncp).1 - q;
            solved(
                lit(ZERO),
                lit(SEARCH_BOUND),
                h,
                q,
                fisher_snedecor_noncentral::upper_quantile_spec(m, dfn, dfd, ncp, q),
                solver_used_up((BracketStrategy::Decreasing { small: lit(ZERO), big: lit(SEARCH_BOUND), start: lit(FIVE) }), g),
            )
        }),
{
    let h = |x: F64| fisher_snedecor_noncentral::ccdf_at(m, dfn, dfd, ncp, x);
    let g = |x: F64| fisher_snedecor_noncentral::cumfnc(m, x, dfn, dfd, ncp).1 - q;
    broadcast use lemma_le_units;
    broadcast use lemma_lt_units;
    lemma_ends_in_order();
    lemma_complement_is_finite(q);
    assert forall|x: F64| lit(ZERO).le(x) && x.le(lit(SEARCH_BOUND)) implies #[trigger] g(x) == h(x) - q by {
    }
    lemma_solve_crosses(
        BracketStrategy::Decreasing { small: lit(ZERO), big: lit(SEARCH_BOUND), start: lit(FIVE) },
        g,
        h,
        q,
    );
}

/// Finding the shape of a gamma distribution: the smaller probability passes through the
/// one asked for within the tolerance of the answer, and there is one exactly where that
/// probability does not lie on the same side at both ends of the range.
pub proof fn law_gamma_shape_is_solved<M: Fn(Elementary) -> F64>(m: &M, p: F64, q: F64, x: F64, rate: F64)
    requires
        probability_pair(p, q),
        x.is_finite() && x.gt(lit(ZERO)),
        rate.is_finite() && rate.gt(lit(ZERO)),
        ({
            let h = if p.le(q) {
                |shape: F64| gamma::cdf_at(m, shape, rate, x)
            } else {
                |shape: F64| gamma::ccdf_at(m, shape, rate, x)
            };
            let w = if p.le(q) {
                p
            } else {
                q
            };
            defined_on(lit(ZERO), lit(SEARCH_BOUND), h) && even_at_zero(h)
        }),
    ensures
        ({
            let h = if p.le(q) {
                |shape: F64| gamma::cdf_at(m, shape, rate, x)
            } else {
                |shape: F64| gamma::ccdf_at(m, shape, rate, x)
            };
            let w = if p.le(q) {
                p
            } else {
                q
            };
            let g = |shape: F64| gamma::deviation(m, p, q, x * rate, shape);
            solved(
                lit(ZERO),
                lit(SEARCH_BOUND),
                h,
                w,
                gamma::solve_shape_spec(m, p, q, x, rate),
                solver_used_up((BracketStrategy::Decreasing { small: lit(ZERO), big: lit(SEARCH_BOUND), start: lit(FIVE) }), g),
            )
        }),
{
    let h = if p.le(q) {
        |shape: F64| gamma::cdf_at(m, shape, rate, x)
    } else {
        |shape: F64| gamma::ccdf_at(m, shape, rate, x)
    };
    let w = if p.le(q) {
        p
    } else {
        q
    };
    let g = |shape: F64| gamma::deviation(m, p, q, x * rate, shape);
    broadcast use lemma_le_units;
    broadcast use lemma_lt_units;
    lemma_ends_in_order();
    assert forall|x: F64| lit(ZERO).le(x) && x.le(lit(SEARCH_BOUND)) implies #[trigger] g(x) == h(x) - w by {
    }
    lemma_solve_crosses(
        BracketStrategy::Decreasing { small: lit(ZERO), big: lit(SEARCH_BOUND), start: lit(FIVE) },
        g,
        h,
        w,
    );
}

/// Finding the mean of a Poisson distribution: the smaller probability passes through the
/// one asked for within the tolerance of the answer, and there is one exactly where that
/// probability does not lie on the same side at both ends of the range.
pub proof fn law_poisson_lambda_is_found<M: Fn(Elementary) -> F64>(m: &M, p: F64, q: F64, s: u64)
    requires
        probability_pair(p, q),
        ({
            let h = if p.le(q) {
                |lambda: F64| poisson::cdf_at(m, lambda, s)
            } else {
                |lambda: F64| poisson::ccdf_at(m, lambda, s)
            };
            let w = if p.le(q) {
                p
            } else {
                q
            };
            defined_on(lit(ZERO), lit(SEARCH_BOUND), h) && even_at_zero(h)
        }),
    ensures
        ({
            let h = if p.le(q) {
                |lambda: F64| poisson::cdf_at(m, lambda, s)
            } else {
                |lambda: F64| poisson::ccdf_at(m, lambda, s)
            };
            let w = if p.le(q) {
                p
            } else {
                q
            };
            let g = |lambda: F64| poisson::deviation(m, p, q, F64::from_u64(s), lambda);
            answered(
                lit(ZERO),
                lit(SEARCH_BOUND),
                lit(ABS_TOL),
                h,
                w,
                poisson::search_lambda_spec(m, p, q, s),
                used_up(lit(ZERO), lit(SEARCH_BOUND), lit(FIVE), lit(ABS_TOL), g),
            )
        }),
{
    let h = if p.le(q) {
        |lambda: F64| poisson::cdf_at(m, lambda, s)
    } else {
        |lambda: F64| poisson::ccdf_at(m, lambda, s)
    };
    let w = if p.le(q) {
        p
    } else {
        q
    };
    let g = |lambda: F64| poisson::deviation(m, p, q, F64::from_u64(s), lambda);
    broadcast use lemma_le_units;
    broadcast use lemma_lt_units;
    lemma_ends_in_order();
    assert forall|x: F64| lit(ZERO).le(x) && x.le(lit(SEARCH_BOUND)) implies #[trigger] g(x) == h(x) - w by {
    }
    lemma_search_crosses(lit(ZERO), lit(SEARCH_BOUND), lit(FIVE), lit(ZERO), lit(SEARCH_BOUND), lit(ABS_TOL), g, h, w);
}

/// Finding the mean of a Poisson distribution: the probability below passes through the one
/// asked for within the tolerance of the answer, and there is one exactly where that
/// probability does not lie on the same side at both ends of the range.
pub proof fn law_poisson_lambda_is_solved<M: Fn(Elementary) -> F64>(m: &M, p: F64, s: u64)
    requires
        probability(p),
        ({
            let h = |lambda: F64| poisson::cdf_at(m, lambda, s);
            defined_on(lit(ZERO), lit(SEARCH_BOUND), h) && even_at_zero(h)
        }),
    ensures
        ({
            let h = |lambda: F64| poisson::cdf_at(m, lambda, s);
            let g = |lambda: F64| gamma_inc_value(m, F64::from_u64(s) + lit(ONE), lambda).1 - p;
            solved(
                lit(ZERO),
                lit(SEARCH_BOUND),
                h,
                p,
                poisson::solve_lambda_spec(m, p, s),
                solver_used_up((BracketStrategy::Decreasing { small: lit(ZERO), big: lit(SEARCH_BOUND), start: lit(FIVE) }), g),
            )
        }),
{
    let h = |lambda: F64| poisson::cdf_at(m, lambda, s);
    let g = |lambda: F64| gamma_inc_value(m, F64::from_u64(s) + lit(ONE), lambda).1 - p;
    broadcast use lemma_le_units;
    broadcast use lemma_lt_units;
    lemma_ends_in_order();
    assert forall|x: F64| lit(ZERO).le(x) && x.le(lit(SEARCH_BOUND)) implies #[trigger] g(x) == h(x) - p by {
    }
    lemma_solve_crosses(
        BracketStrategy::Decreasing { small: lit(ZERO), big: lit(SEARCH_BOUND), start: lit(FIVE) },
        g,
        h,
        p,
    );
}

/// Finding the degrees of freedom of Student's t distribution: the smaller probability
/// passes through the one asked for within the tolerance of the answer, and there is one
/// exactly where that probability does not lie on the same side at both ends of the range.
pub proof fn law_t_df_is_found<M: Fn(Elementary) -> F64>(m: &M, p: F64, q: F64, t: F64)
    requires
        probability_pair(p, q),
        t.is_finite(),
        ({
            let h = if p.le(q) {
                |df: F64| students_t::cdf_at(m, df, t)
            } else {
                |df: F64| students_t::ccdf_at(m, df, t)
            };
            let w = if p.le(q) {
                p
            } else {
                q
            };
            defined_on(lit(ONE), lit(0x4202_A05F_2000_0000), h) && even_at_zero(h)
        }),
    ensures
        ({
            let h = if p.le(q) {
                |df: F64| students_t::cdf_at(m, df, t)
            } else {
                |df: F64| students_t::ccdf_at(m, df, t)
            };
            let w = if p.le(q) {
                p
            } else {
                q
            };
            let g = |df: F64| students_t::deviation(m, p, q, t, df);
            answered(
                lit(ONE),
                lit(0x4202_A05F_2000_0000),
                lit(ABS_TOL),
                h,
                w,
                students_t::search_df_spec(m, p, q, t),
                used_up(lit(ONE), lit(0x4202_A05F_2000_0000), lit(FIVE), lit(ABS_TOL), g),
            )
        }),
{
    let h = if p.le(q) {
        |df: F64| students_t::cdf_at(m, df, t)
    } else {
        |df: F64| students_t::ccdf_at(m, df, t)
    };
    let w = if p.le(q) {
        p
    } else {
        q
    };
    let g = |df: F64| students_t::deviation(m, p, q, t, df);
    broadcast use lemma_le_units;
    broadcast use lemma_lt_units;
    lemma_ends_in_order();
    assert forall|x: F64| lit(ONE).le(x) && x.le(lit(0x4202_A05F_2000_0000)) implies #[trigger] g(x) == h(x) - w by {
    }
    lemma_search_crosses(lit(ONE), lit(0x4202_A05F_2000_0000), lit(FIVE), lit(ZERO), lit(0x4202_A05F_2000_0000), lit(ABS_TOL), g, h, w);
}

/// Finding the quantile of Student's t distribution: the smaller probability passes through
/// the one asked for within the tolerance of the answer, and there is one exactly where
/// that probability does not lie on the same side at both ends of the range.
pub proof fn law_t_quantile_is_found<M: Fn(Elementary) -> F64>(m: &M, df: F64, p: F64)
    requires
        inner(p),
        ({
            let q = lit(ONE) - p;
            let h = if p.le(q) {
                |t: F64| students_t::cdf_at(m, df, t)
            } else {
                |t: F64| students_t::ccdf_at(m, df, t)
            };
            let w = if p.le(q) {
                p
            } else {
                q
            };
            defined_on(lit(T_BOUND).negated(), lit(T_BOUND), h) && even_at_zero(h)
        }),
    ensures
        ({
            let q = lit(ONE) - p;
            let h = if p.le(q) {
                |t: F64| students_t::cdf_at(m, df, t)
            } else {
                |t: F64| students_t::ccdf_at(m, df, t)
            };
            let w = if p.le(q) {
                p
            } else {
                q
            };
            let g = |t: F64| students_t::deviation(m, p, q, t, df);
            lit(T_BOUND).negated().le(dt1(m, p, q, df)) && dt1(m, p, q, df).le(lit(T_BOUND)) ==> answered(
                lit(T_BOUND).negated(),
                lit(T_BOUND),
                lit(ABS_TOL),
                h,
                w,
                students_t::quantile_spec(m, df, p),
                used_up(lit(T_BOUND).negated(), lit(T_BOUND), dt1(m, p, q, df), lit(ABS_TOL), g),
            )
        }),
{
    let q = lit(ONE) - p;
    let h = if p.le(q) {
        |t: F64| students_t::cdf_at(m, df, t)
    } else {
        |t: F64| students_t::ccdf_at(m, df, t)
    };
    let w = if p.le(q) {
        p
    } else {
        q
    };
    let g = |t: F64| students_t::deviation(m, p, q, t, df);
    broadcast use lemma_le_units;
    broadcast use lemma_lt_units;
    lemma_ends_in_order();
    lemma_complement_is_finite(p);
    assert(lit(T_BOUND).negated() == lit(0xC629_3E59_39A0_8CEA));
    assert forall|x: F64| lit(T_BOUND).negated().le(x) && x.le(lit(T_BOUND)) implies #[trigger] g(x) == h(x) - w by {
    }
    lemma_search_crosses(lit(T_BOUND).negated(), lit(T_BOUND), dt1(m, p, q, df), lit(T_BOUND).negated(), lit(T_BOUND), lit(ABS_TOL), g, h, w);
}

/// Finding the upper quantile of Student's t distribution: the smaller probability passes
/// through the one asked for within the tolerance of the answer, and there is one exactly
/// where that probability does not lie on the same side at both ends of the range.
pub proof fn law_t_upper_quantile_is_found<M: Fn(Elementary) -> F64>(m: &M, df: F64, q: F64)
    requires
        inner(q),
        ({
            let p = lit(ONE) - q;
            let h = if p.le(q) {
                |t: F64| students_t::cdf_at(m, df, t)
            } else {
                |t: F64| students_t::ccdf_at(m, df, t)
            };
            let w = if p.le(q) {
                p
            } else {
                q
            };
            defined_on(lit(T_BOUND).negated(), lit(T_BOUND), h) && even_at_zero(h)
        }),
    ensures
        ({
            let p = lit(ONE) - q;
            let h = if p.le(q) {
                |t: F64| students_t::cdf_at(m, df, t)
            } else {
                |t: F64| students_t::ccdf_at(m, df, t)
            };
            let w = if p.le(q) {
                p
            } else {
                q
            };
            let g = |t: F64| students_t::deviation(m, p, q, t, df);
            lit(T_BOUND).negated().le(dt1(m, p, q, df)) && dt1(m, p, q, df).le(lit(T_BOUND)) ==> answered(
                lit(T_BOUND).negated(),
                lit(T_BOUND),
                lit(ABS_TOL),
                h,
                w,
                students_t::upper_quantile_spec(m, df, q),
                used_up(lit(T_BOUND).negated(), lit(T_BOUND), dt1(m, p, q, df), lit(ABS_TOL), g),
            )
        }),
{
    let p = lit(ONE) - q;
    let h = if p.le(q) {
        |t: F64| students_t::cdf_at(m, df, t)
    } else {
        |t: F64| students_t::ccdf_at(m, df, t)
    };
    let w = if p.le(q) {
        p
    } else {
        q
    };
    let g = |t: F64| students_t::deviation(m, p, q, t, df);
    broadcast use lemma_le_units;
    broadcast use lemma_lt_units;
    lemma_ends_in_order();
    lemma_complement_is_finite(q);
    assert(lit(T_BOUND).negated() == lit(0xC629_3E59_39A0_8CEA));
    assert forall|x: F64| lit(T_BOUND).negated().le(x) && x.le(lit(T_BOUND)) implies #[trigger] g(x) == h(x) - w by {
    }
    lemma_search_crosses(lit(T_BOUND).negated(), lit(T_BOUND), dt1(m, p, q, df), lit(T_BOUND).negated(), lit(T_BOUND), lit(ABS_TOL), g, h, w);
}

/// Finding the probability of a success of a binomial distribution: the smaller probability
/// passes through the one asked for within the tolerance of the answer, and there is one
/// exactly where that probability does not lie on the same side at both ends of the range.
pub proof fn law_binomial_pr_is_solved<M: Fn(Elementary) -> F64>(m: &M, p: F64, n: u64, s: u64)
    requires
        probability(p),
        s < n,
        ({
            let q = lit(ONE) - p;
            let h = if p.le(q) {
                |pr: F64| binomial::cdf_at(m, n, pr, s)
            } else {
                |pr: F64| binomial::ccdf_at(m, n, pr, s)
            };
            let w = if p.le(q) {
                p
            } else {
                q
            };
            defined_on(lit(ZERO), lit(ONE), h) && even_at_zero(h)
        }),
    ensures
        ({
            let q = lit(ONE) - p;
            let h = if p.le(q) {
                |pr: F64| binomial::cdf_at(m, n, pr, s)
            } else {
                |pr: F64| binomial::ccdf_at(m, n, pr, s)
            };
            let w = if p.le(q) {
                p
            } else {
                q
            };
            let g = |pr: F64| binomial::pr_deviation(m, p, q, F64::from_u64(s), F64::from_u64(n), pr);
            solved(
                lit(ZERO),
                lit(ONE),
                h,
                w,
                binomial::solve_pr_spec(m, p, n, s),
                solver_used_up((BracketStrategy::Decreasing { small: lit(ZERO), big: lit(ONE), start: lit(HALF) }), g),
            )
        }),
{
    let q = lit(ONE) - p;
    let h = if p.le(q) {
        |pr: F64| binomial::cdf_at(m, n, pr, s)
    } else {
        |pr: F64| binomial::ccdf_at(m, n, pr, s)
    };
    let w = if p.le(q) {
        p
    } else {
        q
    };
    let g = |pr: F64| binomial::pr_deviation(m, p, q, F64::from_u64(s), F64::from_u64(n), pr);
    broadcast use lemma_le_units;
    broadcast use lemma_lt_units;
    lemma_ends_in_order();
    lemma_complement_is_finite(p);
    assert forall|x: F64| lit(ZERO).le(x) && x.le(lit(ONE)) implies #[trigger] g(x) == h(x) - w by {
    }
    lemma_solve_crosses(
        BracketStrategy::Decreasing { small: lit(ZERO), big: lit(ONE), start: lit(HALF) },
        g,
        h,
        w,
    );
}

/// Finding the number of trials of a binomial distribution: the smaller probability passes
/// through the one asked for within the tolerance of the answer, and there is one exactly
/// where that probability does not lie on the same side at both ends of the range.
pub proof fn law_binomial_trials_are_solved<M: Fn(Elementary) -> F64>(m: &M, p: F64, pr: F64, s: u64)
    requires
        probability(p) && p.lt(lit(ONE)),
        probability(pr),
        ({
            let q = lit(ONE) - p;
            let h = if p.le(q) {
                |n: F64| binomial_below(m, s, pr, n)
            } else {
                |n: F64| binomial_above(m, s, pr, n)
            };
            let w = if p.le(q) {
                p
            } else {
                q
            };
            defined_on(lit(ZERO), lit(SEARCH_BOUND), h) && even_at_zero(h)
        }),
    ensures
        ({
            let q = lit(ONE) - p;
            let h = if p.le(q) {
                |n: F64| binomial_below(m, s, pr, n)
            } else {
                |n: F64| binomial_above(m, s, pr, n)
            };
            let w = if p.le(q) {
                p
            } else {
                q
            };
            let g = |n: F64| binomial::trials_deviation(m, p, q, F64::from_u64(s), pr, n);
            solved(
                lit(ZERO),
                lit(SEARCH_BOUND),
                h,
                w,
                binomial::solve_trials_spec(m, p, pr, s),
                solver_used_up((BracketStrategy::Decreasing { small: lit(ZERO), big: lit(SEARCH_BOUND), start: lit(FIVE) }), g),
            )
        }),
{
    let q = lit(ONE) - p;
    let h = if p.le(q) {
        |n: F64| binomial_below(m, s, pr, n)
    } else {
        |n: F64| binomial_above(m, s, pr, n)
    };
    let w = if p.le(q) {
        p
    } else {
        q
    };
    let g = |n: F64| binomial::trials_deviation(m, p, q, F64::from_u64(s), pr, n);
    broadcast use lemma_le_units;
    broadcast use lemma_lt_units;
    lemma_ends_in_order();
    lemma_complement_is_finite(p);
    assert forall|x: F64| lit(ZERO).le(x) && x.le(lit(SEARCH_BOUND)) implies #[trigger] g(x) == h(x) - w by {
        lemma_nothing_less(p);
    }
    lemma_solve_crosses(
        BracketStrategy::Decreasing { small: lit(ZERO), big: lit(SEARCH_BOUND), start: lit(FIVE) },
        g,
        h,
        w,
    );
}

/// Finding the probability of a success of a negative binomial distribution: the smaller
/// probability passes through the one asked for within the tolerance of the answer, and
/// there is one exactly where that probability does not lie on the same side at both ends
/// of the range.
pub proof fn law_negative_binomial_pr_is_solved<M: Fn(Elementary) -> F64>(m: &M, p: F64, r: u64, s: u64)
    requires
        probability(p),
        ({
            let q = lit(ONE) - p;
            let h = if p.le(q) {
                |pr: F64| negative_binomial::cdf_at(m, r, pr, s)
            } else {
                |pr: F64| negative_binomial::ccdf_at(m, r, pr, s)
            };
            let w = if p.le(q) {
                p
            } else {
                q
            };
            defined_on(lit(ZERO), lit(ONE), h) && even_at_zero(h)
        }),
    ensures
        ({
            let q = lit(ONE) - p;
            let h = if p.le(q) {
                |pr: F64| negative_binomial::cdf_at(m, r, pr, s)
            } else {
                |pr: F64| negative_binomial::ccdf_at(m, r, pr, s)
            };
            let w = if p.le(q) {
                p
            } else {
                q
            };
            let g = |pr: F64| negative_binomial::deviation(m, p, q, F64::from_u64(s), F64::from_u64(r), pr);
            solved(
                lit(ZERO),
                lit(ONE),
                h,
                w,
                negative_binomial::solve_pr_spec(m, p, r, s),
                solver_used_up((BracketStrategy::Increasing { small: lit(ZERO), big: lit(ONE), start: lit(HALF) }), g),
            )
        }),
{
    let q = lit(ONE) - p;
    let h = if p.le(q) {
        |pr: F64| negative_binomial::cdf_at(m, r, pr, s)
    } else {
        |pr: F64| negative_binomial::ccdf_at(m, r, pr, s)
    };
    let w = if p.le(q) {
        p
    } else {
        q
    };
    let g = |pr: F64| negative_binomial::deviation(m, p, q, F64::from_u64(s), F64::from_u64(r), pr);
    broadcast use lemma_le_units;
    broadcast use lemma_lt_units;
    lemma_ends_in_order();
    lemma_complement_is_finite(p);
    assert forall|x: F64| lit(ZERO).le(x) && x.le(lit(ONE)) implies #[trigger] g(x) == h(x) - w by {
    }
    lemma_solve_crosses(
        BracketStrategy::Increasing { small: lit(ZERO), big: lit(ONE), start: lit(HALF) },
        g,
        h,
        w,
    );
}

/// Finding the number of successes of a negative binomial distribution: the smaller
/// probability passes through the one asked for within the tolerance of the answer, and
/// there is one exactly where that probability does not lie on the same side at both ends
/// of the range.
pub proof fn law_negative_binomial_r_is_solved<M: Fn(Elementary) -> F64>(m: &M, p: F64, pr: F64, s: u64)
    requires
        probability(p),
        pr.gt(lit(ZERO)) && pr.le(lit(ONE)),
        ({
            let q = lit(ONE) - p;
            let h = if p.le(q) {
                |rf: F64| negative_binomial_below(m, s, pr, rf)
            } else {
                |rf: F64| negative_binomial_above(m, s, pr, rf)
            };
            let w = if p.le(q) {
                p
            } else {
                q
            };
            defined_on(lit(ZERO), lit(SEARCH_BOUND), h) && even_at_zero(h)
        }),
    ensures
        ({
            let q = lit(ONE) - p;
            let h = if p.le(q) {
                |rf: F64| negative_binomial_below(m, s, pr, rf)
            } else {
                |rf: F64| negative_binomial_above(m, s, pr, rf)
            };
            let w = if p.le(q) {
                p
            } else {
                q
            };
            let g = |rf: F64| negative_binomial::deviation(m, p, q, F64::from_u64(s), rf, pr);
            solved(
                lit(ZERO),
                lit(SEARCH_BOUND),
                h,
                w,
                negative_binomial::solve_r_spec(m, p, pr, s),
                solver_used_up((BracketStrategy::Decreasing { small: lit(ZERO), big: lit(SEARCH_BOUND), start: lit(FIVE) }), g),
            )
        }),
{
    let q = lit(ONE) - p;
    let h = if p.le(q) {
        |rf: F64| negative_binomial_below(m, s, pr, rf)
    } else {
        |rf: F64| negative_binomial_above(m, s, pr, rf)
    };
    let w = if p.le(q) {
        p
    } else {
        q
    };
    let g = |rf: F64| negative_binomial::deviation(m, p, q, F64::from_u64(s), rf, pr);
    broadcast use lemma_le_units;
    broadcast use lemma_lt_units;
    lemma_ends_in_order();
    lemma_complement_is_finite(p);
    assert forall|x: F64| lit(ZERO).le(x) && x.le(lit(SEARCH_BOUND)) implies #[trigger] g(x) == h(x) - w by {
    }
    lemma_solve_crosses(
        BracketStrategy::Decreasing { small: lit(ZERO), big: lit(SEARCH_BOUND), start: lit(FIVE) },
        g,
        h,
        w,
    );
}

/// Finding the number of successes of a negative binomial distribution: the probability
/// below passes through the one asked for within the tolerance of the answer, and there is
/// one exactly where that probability does not lie on the same side at both ends of the
/// range.
pub proof fn law_negative_binomial_trials_are_solved<M: Fn(Elementary) -> F64>(m: &M, p: F64, pr: F64, s: u64)
    requires
        probability(p),
        pr.gt(lit(ZERO)) && pr.le(lit(ONE)),
        ({
            let h = |rf: F64| negative_binomial_below(m, s, pr, rf);
            defined_on(lit(0x01A5_6E1F_C2F8_F359), lit(0x430C_6BF5_2634_0000), h) && even_at_zero(h)
        }),
    ensures
        ({
            let h = |rf: F64| negative_binomial_below(m, s, pr, rf);
            let g = |rf: F64| beta_inc_value(m, rf, F64::from_u64(s) + lit(ONE), pr, lit(ONE) - pr).0 - p;
            solved(
                lit(0x01A5_6E1F_C2F8_F359),
                lit(0x430C_6BF5_2634_0000),
                h,
                p,
                negative_binomial::solve_trials_spec(m, p, pr, s),
                solver_used_up((BracketStrategy::Decreasing { small: lit(0x01A5_6E1F_C2F8_F359), big: lit(0x430C_6BF5_2634_0000), start: lit(ONE) }), g),
            )
        }),
{
    let h = |rf: F64| negative_binomial_below(m, s, pr, rf);
    let g = |rf: F64| beta_inc_value(m, rf, F64::from_u64(s) + lit(ONE), pr, lit(ONE) - pr).0 - p;
    broadcast use lemma_le_units;
    broadcast use lemma_lt_units;
    lemma_ends_in_order();
    assert forall|x: F64| lit(0x01A5_6E1F_C2F8_F359).le(x) && x.le(lit(0x430C_6BF5_2634_0000)) implies #[trigger] g(x) == h(x) - p by {
    }
    lemma_solve_crosses(
        BracketStrategy::Decreasing { small: lit(0x01A5_6E1F_C2F8_F359), big: lit(0x430C_6BF5_2634_0000), start: lit(ONE) },
        g,
        h,
        p,
    );
}

/// Finding the real count of a Poisson distribution: the smaller probability passes through
/// the one asked for within the tolerance of the answer, and there is one exactly where
/// that probability does not lie on the same side at both ends of the range.
pub proof fn law_poisson_upper_quantile_is_found<M: Fn(Elementary) -> F64>(m: &M, lambda: F64, q: F64)
    requires
        probability(q),
        ({
            let p = lit(ONE) - q;
            let h = if p.le(q) {
                |s: F64| poisson_below(m, lambda, s)
            } else {
                |s: F64| poisson_above(m, lambda, s)
            };
            let w = if p.le(q) {
                p
            } else {
                q
            };
            defined_on(lit(ZERO), lit(SEARCH_BOUND), h) && even_at_zero(h)
        }),
    ensures
        ({
            let p = lit(ONE) - q;
            let h = if p.le(q) {
                |s: F64| poisson_below(m, lambda, s)
            } else {
                |s: F64| poisson_above(m, lambda, s)
            };
            let w = if p.le(q) {
                p
            } else {
                q
            };
            let g = |s: F64| poisson::deviation(m, p, q, s, lambda);
            answered(
                lit(ZERO),
                lit(SEARCH_BOUND),
                lit(ABS_TOL),
                h,
                w,
                poisson::upper_quantile_spec(m, lambda, q),
                used_up(lit(ZERO), lit(SEARCH_BOUND), lit(FIVE), lit(ABS_TOL), g),
            )
        }),
{
    let p = lit(ONE) - q;
    let h = if p.le(q) {
        |s: F64| poisson_below(m, lambda, s)
    } else {
        |s: F64| poisson_above(m, lambda, s)
    };
    let w = if p.le(q) {
        p
    } else {
        q
    };
    let g = |s: F64| poisson::deviation(m, p, q, s, lambda);
    broadcast use lemma_le_units;
    broadcast use lemma_lt_units;
    lemma_ends_in_order();
    lemma_complement_is_finite(q);
    assert forall|x: F64| lit(ZERO).le(x) && x.le(lit(SEARCH_BOUND)) implies #[trigger] g(x) == h(x) - w by {
    }
    lemma_search_crosses(lit(ZERO), lit(SEARCH_BOUND), lit(FIVE), lit(ZERO), lit(SEARCH_BOUND), lit(ABS_TOL), g, h, w);
}

} // verus!
