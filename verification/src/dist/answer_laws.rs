//! What the quantiles and the parameters that the distributions find are worth.
use super::common::pivot;
use crate::consts::{FIVE, HALF, ONE, TWO, ZERO};
use crate::dist::{
    beta, binomial, chi_squared, chi_squared_noncentral, fisher_snedecor, fisher_snedecor_noncentral, gamma,
    negative_binomial, poisson, students_t,
};
use crate::float::laws::{law_difference_sign, law_nan_propagates, law_sum_is_nearest};
use crate::float::model::lemma_mag_zero;
use crate::float::number::{lemma_le_units, lemma_order};
use crate::float::{lit, F64};
use crate::functions::Elementary;
use crate::search::answer_laws::{
    bounded_used_up, defined_on, law_answer_in_range, law_answer_is_a_number, law_answer_is_a_zero,
    law_bounded_answer_in_range, law_bounded_answer_is_a_number, law_bounded_answer_is_a_zero, settled, straddle,
    used_up,
};
use crate::search::bracket_laws::{lemma_bound_is_tame, tame};
use crate::search::drive::{search_bounded_zero_spec, search_monotone_with_atol_spec, ABS_TOL, REL_TOL, SEARCH_BOUND};
use crate::solver::bracket::{solve_monotone_spec, BracketStrategy, ABS_TOL as SOLVER_TOL};
use crate::solver::bracket_laws::{ends, law_solution_in_bracket, law_solution_is_a_zero, numbered};
use crate::special::beta_inc::beta_inc_value;
use crate::special::gamma_inc::gamma_inc_value;
use crate::special::students_t::dt1;
use vstd::prelude::*;

verus! {

/// The bits of 1e30, past which no quantile of Student's t distribution is searched for.
pub const T_BOUND: u64 = 0x4629_3E59_39A0_8CEA;

/// The number lies in the range, and the function is zero there or passes through zero
/// within the tolerance of it.
pub open spec fn answers(lo: F64, hi: F64, abs_tol: F64, g: spec_fn(F64) -> F64, x: F64) -> bool {
    lo.le(x) && x.le(hi) && settled(lo, hi, abs_tol, lit(REL_TOL), g, x)
}

/// One of the numbers is at most `p`, the other at least `p`.
pub open spec fn around(u: F64, v: F64, p: F64) -> bool {
    ||| u.le(p) && v.ge(p)
    ||| u.ge(p) && v.le(p)
}

/// Deviations on both sides of zero are those of probabilities on both sides of the one
/// asked for: of the lower ones around `p` where `p` is the smaller one, else of the
/// upper ones around `q`.
pub proof fn law_deviations_straddle(p: F64, q: F64, cum1: F64, ccum1: F64, cum2: F64, ccum2: F64)
    requires
        !pivot(p, q, cum1, ccum1).is_nan(),
        !pivot(p, q, cum2, ccum2).is_nan(),
    ensures
        straddle(pivot(p, q, cum1, ccum1), pivot(p, q, cum2, ccum2)) <==> if p.le(q) {
            around(cum1, cum2, p)
        } else {
            around(ccum1, ccum2, q)
        },
{
    if p.le(q) {
        law_difference_sign(cum1, p);
        law_difference_sign(cum2, p);
    } else {
        law_difference_sign(ccum1, q);
        law_difference_sign(ccum2, q);
    }
}

proof fn lemma_search(
    small: F64,
    big: F64,
    start: F64,
    below: F64,
    above: F64,
    abs_tol: F64,
    g: spec_fn(F64) -> F64,
)
    requires
        !small.is_nan() && small.max(lit(SEARCH_BOUND).negated()) == small,
        !big.is_nan() && big.min(lit(SEARCH_BOUND)) == big,
        abs_tol.is_finite() && lit(ZERO).le(abs_tol),
        defined_on(small, big, g),
    ensures
        search_monotone_with_atol_spec(small, big, start, below, above, abs_tol, g) matches Ok(x)
            ==> (x.is_nan() && used_up(small, big, start, abs_tol, g))
            || answers(small, big, abs_tol, g, x),
{
    law_answer_is_a_number(small, big, start, below, above, abs_tol, g);
    law_answer_in_range(small, big, start, below, above, abs_tol, g);
    law_answer_is_a_zero(small, big, start, below, above, abs_tol, g);
}

proof fn lemma_solve(strategy: BracketStrategy, g: spec_fn(F64) -> F64)
    requires
        numbered(strategy),
        defined_on(ends(strategy).0, ends(strategy).1, g),
    ensures
        solve_monotone_spec(strategy, g) matches Ok(x) ==> answers(
            ends(strategy).0,
            ends(strategy).1,
            lit(SOLVER_TOL),
            g,
            x,
        ),
{
    law_solution_in_bracket(strategy, g);
    law_solution_is_a_zero(strategy, g);
}

/// A first parameter that is found lies in its range, and the distribution passes
/// through the probability asked for within the tolerance of it. (The NaN stands for a
/// search that has not ended within its evaluations.)
pub proof fn law_beta_search_a<M: Fn(Elementary) -> F64>(m: &M, p: F64, q: F64, x: F64, b: F64)
    requires
        defined_on(lit(ZERO), lit(SEARCH_BOUND), |a: F64| beta::deviation(m, p, q, x, a, b)),
    ensures
        beta::search_a_spec(m, p, q, x, b) matches Ok(found)
            ==> (found.is_nan() && used_up(lit(ZERO), lit(SEARCH_BOUND), lit(FIVE), lit(ABS_TOL), |a: F64| beta::deviation(m, p, q, x, a, b)))
                || answers(
                    lit(ZERO),
                    lit(SEARCH_BOUND),
                    lit(ABS_TOL),
                    |a: F64| beta::deviation(m, p, q, x, a, b),
                    found,
                ),
{
    let g = |a: F64| beta::deviation(m, p, q, x, a, b);
    lemma_search(
        lit(ZERO),
        lit(SEARCH_BOUND),
        lit(FIVE),
        lit(ZERO),
        lit(SEARCH_BOUND),
        lit(ABS_TOL),
        g,
    );
}

/// A second parameter that is found lies in its range, and the distribution passes
/// through the probability asked for within the tolerance of it. (The NaN stands for a
/// search that has not ended within its evaluations.)
pub proof fn law_beta_search_b<M: Fn(Elementary) -> F64>(m: &M, p: F64, q: F64, x: F64, a: F64)
    requires
        defined_on(lit(ZERO), lit(SEARCH_BOUND), |b: F64| beta::deviation(m, p, q, x, a, b)),
    ensures
        beta::search_b_spec(m, p, q, x, a) matches Ok(found)
            ==> (found.is_nan() && used_up(lit(ZERO), lit(SEARCH_BOUND), lit(FIVE), lit(ABS_TOL), |b: F64| beta::deviation(m, p, q, x, a, b)))
                || answers(
                    lit(ZERO),
                    lit(SEARCH_BOUND),
                    lit(ABS_TOL),
                    |b: F64| beta::deviation(m, p, q, x, a, b),
                    found,
                ),
{
    let g = |b: F64| beta::deviation(m, p, q, x, a, b);
    lemma_search(
        lit(ZERO),
        lit(SEARCH_BOUND),
        lit(FIVE),
        lit(ZERO),
        lit(SEARCH_BOUND),
        lit(ABS_TOL),
        g,
    );
}

/// A first parameter that is found lies in its range, and the distribution passes
/// through the probability asked for within the tolerance of it.
pub proof fn law_beta_solve_a<M: Fn(Elementary) -> F64>(m: &M, p: F64, x: F64, b: F64)
    requires
        ({
            let q = lit(ONE) - p;
            defined_on(lit(ZERO), lit(SEARCH_BOUND), |a: F64| beta::deviation(m, p, q, x, a, b))
        }),
    ensures
        ({
            let q = lit(ONE) - p;
            beta::solve_a_spec(m, p, x, b) matches Ok(found)
                ==> answers(
                    lit(ZERO),
                    lit(SEARCH_BOUND),
                    lit(SOLVER_TOL),
                    |a: F64| beta::deviation(m, p, q, x, a, b),
                    found,
                )
        }),
{
    let q = lit(ONE) - p;
    let g = |a: F64| beta::deviation(m, p, q, x, a, b);
    lemma_solve(
        BracketStrategy::Decreasing { small: lit(ZERO), big: lit(SEARCH_BOUND), start: lit(FIVE) },
        g,
    );
}

/// A second parameter that is found lies in its range, and the distribution passes
/// through the probability asked for within the tolerance of it.
pub proof fn law_beta_solve_b<M: Fn(Elementary) -> F64>(m: &M, p: F64, x: F64, a: F64)
    requires
        ({
            let q = lit(ONE) - p;
            defined_on(lit(ZERO), lit(SEARCH_BOUND), |b: F64| beta::deviation(m, p, q, x, a, b))
        }),
    ensures
        ({
            let q = lit(ONE) - p;
            beta::solve_b_spec(m, p, x, a) matches Ok(found)
                ==> answers(
                    lit(ZERO),
                    lit(SEARCH_BOUND),
                    lit(SOLVER_TOL),
                    |b: F64| beta::deviation(m, p, q, x, a, b),
                    found,
                )
        }),
{
    let q = lit(ONE) - p;
    let g = |b: F64| beta::deviation(m, p, q, x, a, b);
    lemma_solve(
        BracketStrategy::Increasing { small: lit(ZERO), big: lit(SEARCH_BOUND), start: lit(FIVE) },
        g,
    );
}

/// A number of trials that is found lies in its range, and the distribution passes
/// through the probability asked for within the tolerance of it.
pub proof fn law_binomial_solve_trials<M: Fn(Elementary) -> F64>(m: &M, p: F64, pr: F64, s: u64)
    requires
        ({
            let sf = F64::from_u64(s);
            let q = lit(ONE) - p;
            defined_on(
                lit(ZERO),
                lit(SEARCH_BOUND),
                |n: F64| binomial::trials_deviation(m, p, q, sf, pr, n),
            )
        }),
    ensures
        ({
            let sf = F64::from_u64(s);
            let q = lit(ONE) - p;
            binomial::solve_trials_spec(m, p, pr, s) matches Ok(found)
                ==> answers(
                    lit(ZERO),
                    lit(SEARCH_BOUND),
                    lit(SOLVER_TOL),
                    |n: F64| binomial::trials_deviation(m, p, q, sf, pr, n),
                    found,
                )
        }),
{
    let sf = F64::from_u64(s);
    let q = lit(ONE) - p;
    let g = |n: F64| binomial::trials_deviation(m, p, q, sf, pr, n);
    lemma_solve(
        BracketStrategy::Decreasing { small: lit(ZERO), big: lit(SEARCH_BOUND), start: lit(FIVE) },
        g,
    );
}

/// A probability of a success that is found lies in its range, and the distribution
/// passes through the probability asked for within the tolerance of it.
pub proof fn law_binomial_solve_pr<M: Fn(Elementary) -> F64>(m: &M, p: F64, n: u64, s: u64)
    requires
        ({
            let nf = F64::from_u64(n);
            let sf = F64::from_u64(s);
            let q = lit(ONE) - p;
            defined_on(lit(ZERO), lit(ONE), |pr: F64| binomial::pr_deviation(m, p, q, sf, nf, pr))
        }),
    ensures
        ({
            let nf = F64::from_u64(n);
            let sf = F64::from_u64(s);
            let q = lit(ONE) - p;
            binomial::solve_pr_spec(m, p, n, s) matches Ok(found)
                ==> answers(
                    lit(ZERO),
                    lit(ONE),
                    lit(SOLVER_TOL),
                    |pr: F64| binomial::pr_deviation(m, p, q, sf, nf, pr),
                    found,
                )
        }),
{
    let nf = F64::from_u64(n);
    let sf = F64::from_u64(s);
    let q = lit(ONE) - p;
    let g = |pr: F64| binomial::pr_deviation(m, p, q, sf, nf, pr);
    lemma_solve(
        BracketStrategy::Decreasing { small: lit(ZERO), big: lit(ONE), start: lit(HALF) },
        g,
    );
}

/// A number of degrees of freedom that is found lies in its range, and the distribution
/// passes through the probability asked for within the tolerance of it.
pub proof fn law_chi_squared_solve_df<M: Fn(Elementary) -> F64>(m: &M, p: F64, x: F64)
    requires
        ({
            let q = lit(ONE) - p;
            defined_on(lit(ZERO), lit(SEARCH_BOUND), |df: F64| chi_squared::deviation(m, p, q, x, df))
        }),
    ensures
        ({
            let q = lit(ONE) - p;
            chi_squared::solve_df_spec(m, p, x) matches Ok(found)
                ==> answers(
                    lit(ZERO),
                    lit(SEARCH_BOUND),
                    lit(SOLVER_TOL),
                    |df: F64| chi_squared::deviation(m, p, q, x, df),
                    found,
                )
        }),
{
    let q = lit(ONE) - p;
    let g = |df: F64| chi_squared::deviation(m, p, q, x, df);
    lemma_solve(
        BracketStrategy::Decreasing { small: lit(ZERO), big: lit(SEARCH_BOUND), start: lit(FIVE) },
        g,
    );
}

/// A quantile lies in its range, and the probability below passes through the one asked
/// for within the tolerance of it.
pub proof fn law_chi_squared_quantile<M: Fn(Elementary) -> F64>(m: &M, df: F64, p: F64)
    requires
        defined_on(
            lit(ZERO),
            lit(SEARCH_BOUND),
            |x: F64| gamma_inc_value(m, df / lit(TWO), x / lit(TWO)).0 - p,
        ),
        !p.equals(lit(ZERO)) && !p.equals(lit(ONE)),
    ensures
        chi_squared::quantile_spec(m, df, p) matches Ok(found)
            ==> answers(
                lit(ZERO),
                lit(SEARCH_BOUND),
                lit(SOLVER_TOL),
                |x: F64| gamma_inc_value(m, df / lit(TWO), x / lit(TWO)).0 - p,
                found,
            ),
{
    let g = |x: F64| gamma_inc_value(m, df / lit(TWO), x / lit(TWO)).0 - p;
    lemma_solve(
        BracketStrategy::Increasing { small: lit(ZERO), big: lit(SEARCH_BOUND), start: lit(FIVE) },
        g,
    );
}

/// An upper quantile lies in its range, and the probability above passes through the
/// one asked for within the tolerance of it.
pub proof fn law_chi_squared_upper_quantile<M: Fn(Elementary) -> F64>(m: &M, df: F64, q: F64)
    requires
        defined_on(
            lit(ZERO),
            lit(SEARCH_BOUND),
            |x: F64| gamma_inc_value(m, df / lit(TWO), x / lit(TWO)).1 - q,
        ),
        !q.equals(lit(ZERO)) && !q.equals(lit(ONE)),
    ensures
        chi_squared::upper_quantile_spec(m, df, q) matches Ok(found)
            ==> answers(
                lit(ZERO),
                lit(SEARCH_BOUND),
                lit(SOLVER_TOL),
                |x: F64| gamma_inc_value(m, df / lit(TWO), x / lit(TWO)).1 - q,
                found,
            ),
{
    let g = |x: F64| gamma_inc_value(m, df / lit(TWO), x / lit(TWO)).1 - q;
    lemma_solve(
        BracketStrategy::Decreasing { small: lit(ZERO), big: lit(SEARCH_BOUND), start: lit(FIVE) },
        g,
    );
}

/// A number of degrees of freedom that is found lies in its range, and the distribution
/// passes through the probability asked for within the tolerance of it. (The NaN stands
/// for a search that has not ended within its evaluations.)
pub proof fn law_chi_squared_noncentral_search_df<M: Fn(Elementary) -> F64>(
    m: &M,
    p: F64,
    x: F64,
    ncp: F64,
)
    requires
        defined_on(
            lit(ZERO),
            lit(SEARCH_BOUND),
            |df: F64| chi_squared_noncentral::cumchn(m, x, df, ncp).0 - p,
        ),
    ensures
        chi_squared_noncentral::search_df_spec(m, p, x, ncp) matches Ok(found)
            ==> (found.is_nan() && used_up(lit(ZERO), lit(SEARCH_BOUND), lit(FIVE), lit(SOLVER_TOL), |df: F64| chi_squared_noncentral::cumchn(m, x, df, ncp).0 - p))
                || answers(
                    lit(ZERO),
                    lit(SEARCH_BOUND),
                    lit(SOLVER_TOL),
                    |df: F64| chi_squared_noncentral::cumchn(m, x, df, ncp).0 - p,
                    found,
                ),
{
    let g = |df: F64| chi_squared_noncentral::cumchn(m, x, df, ncp).0 - p;
    lemma_search(
        lit(ZERO),
        lit(SEARCH_BOUND),
        lit(FIVE),
        lit(ZERO),
        lit(SEARCH_BOUND),
        lit(SOLVER_TOL),
        g,
    );
}

/// A noncentrality that is found lies in its range, and the distribution passes through
/// the probability asked for within the tolerance of it. (The NaN stands for a search
/// that has not ended within its evaluations.)
pub proof fn law_chi_squared_noncentral_search_ncp<M: Fn(Elementary) -> F64>(
    m: &M,
    p: F64,
    x: F64,
    df: F64,
)
    requires
        defined_on(
            lit(ZERO),
            lit(0x40C3_8800_0000_0000),
            |ncp: F64| chi_squared_noncentral::cumchn(m, x, df, ncp).0 - p,
        ),
    ensures
        chi_squared_noncentral::search_ncp_spec(m, p, x, df) matches Ok(found)
            ==> (found.is_nan() && used_up(lit(ZERO), lit(0x40C3_8800_0000_0000), lit(FIVE), lit(SOLVER_TOL), |ncp: F64| chi_squared_noncentral::cumchn(m, x, df, ncp).0 - p))
                || answers(
                    lit(ZERO),
                    lit(0x40C3_8800_0000_0000),
                    lit(SOLVER_TOL),
                    |ncp: F64| chi_squared_noncentral::cumchn(m, x, df, ncp).0 - p,
                    found,
                ),
{
    let g = |ncp: F64| chi_squared_noncentral::cumchn(m, x, df, ncp).0 - p;
    lemma_search(
        lit(ZERO),
        lit(0x40C3_8800_0000_0000),
        lit(FIVE),
        lit(ZERO),
        lit(0x40C3_8800_0000_0000),
        lit(SOLVER_TOL),
        g,
    );
}

/// A quantile lies in its range, and the probability below passes through the one asked
/// for within the tolerance of it. (The NaN stands for a search that has not ended
/// within its evaluations.)
pub proof fn law_chi_squared_noncentral_quantile<M: Fn(Elementary) -> F64>(
    m: &M,
    df: F64,
    ncp: F64,
    p: F64,
)
    requires
        defined_on(
            lit(ZERO),
            lit(SEARCH_BOUND),
            |x: F64| chi_squared_noncentral::cumchn(m, x, df, ncp).0 - p,
        ),
        !p.equals(lit(ZERO)) && !p.equals(lit(ONE)),
    ensures
        chi_squared_noncentral::quantile_spec(m, df, ncp, p) matches Ok(found)
            ==> (found.is_nan() && used_up(lit(ZERO), lit(SEARCH_BOUND), lit(FIVE), lit(SOLVER_TOL), |x: F64| chi_squared_noncentral::cumchn(m, x, df, ncp).0 - p))
                || answers(
                    lit(ZERO),
                    lit(SEARCH_BOUND),
                    lit(SOLVER_TOL),
                    |x: F64| chi_squared_noncentral::cumchn(m, x, df, ncp).0 - p,
                    found,
                ),
{
    let g = |x: F64| chi_squared_noncentral::cumchn(m, x, df, ncp).0 - p;
    lemma_search(
        lit(ZERO),
        lit(SEARCH_BOUND),
        lit(FIVE),
        lit(ZERO),
        lit(SEARCH_BOUND),
        lit(SOLVER_TOL),
        g,
    );
}

/// An upper quantile lies in its range, and the probability above passes through the
/// one asked for within the tolerance of it.
pub proof fn law_chi_squared_noncentral_upper_quantile<M: Fn(Elementary) -> F64>(
    m: &M,
    df: F64,
    ncp: F64,
    q: F64,
)
    requires
        defined_on(
            lit(ZERO),
            lit(SEARCH_BOUND),
            |x: F64| chi_squared_noncentral::cumchn(m, x, df, ncp).1 - q,
        ),
        !q.equals(lit(ZERO)) && !q.equals(lit(ONE)),
        df.is_finite() && ncp.is_finite(),
    ensures
        chi_squared_noncentral::upper_quantile_spec(m, df, ncp, q) matches Ok(found)
            ==> answers(
                lit(ZERO),
                lit(SEARCH_BOUND),
                lit(SOLVER_TOL),
                |x: F64| chi_squared_noncentral::cumchn(m, x, df, ncp).1 - q,
                found,
            ),
{
    let g = |x: F64| chi_squared_noncentral::cumchn(m, x, df, ncp).1 - q;
    law_sum_is_nearest(df, ncp);
    lemma_solve(
        BracketStrategy::Decreasing { small: lit(ZERO), big: lit(SEARCH_BOUND), start: df + ncp },
        g,
    );
}

/// A number of degrees of freedom of the numerator that is found lies in its range, and
/// the distribution passes through the probability asked for within the tolerance of
/// it.
pub proof fn law_fisher_snedecor_solve_dfn<M: Fn(Elementary) -> F64>(
    m: &M,
    p: F64,
    q: F64,
    f: F64,
    dfd: F64,
)
    requires
        defined_on(
            lit(ONE),
            lit(SEARCH_BOUND),
            |dfn: F64| fisher_snedecor::deviation(m, p, q, f, dfn, dfd),
        ),
    ensures
        fisher_snedecor::solve_dfn_spec(m, p, q, f, dfd) matches Ok(found)
            ==> answers(
                lit(ONE),
                lit(SEARCH_BOUND),
                lit(SOLVER_TOL),
                |dfn: F64| fisher_snedecor::deviation(m, p, q, f, dfn, dfd),
                found,
            ),
{
    let g = |dfn: F64| fisher_snedecor::deviation(m, p, q, f, dfn, dfd);
    lemma_solve(
        BracketStrategy::Increasing { small: lit(ONE), big: lit(SEARCH_BOUND), start: lit(FIVE) },
        g,
    );
}

/// A number of degrees of freedom of the denominator that is found lies in its range,
/// and the distribution passes through the probability asked for within the tolerance
/// of it.
pub proof fn law_fisher_snedecor_solve_dfd<M: Fn(Elementary) -> F64>(
    m: &M,
    p: F64,
    q: F64,
    f: F64,
    dfn: F64,
)
    requires
        defined_on(
            lit(ONE),
            lit(SEARCH_BOUND),
            |dfd: F64| fisher_snedecor::deviation(m, p, q, f, dfn, dfd),
        ),
    ensures
        fisher_snedecor::solve_dfd_spec(m, p, q, f, dfn) matches Ok(found)
            ==> answers(
                lit(ONE),
                lit(SEARCH_BOUND),
                lit(SOLVER_TOL),
                |dfd: F64| fisher_snedecor::deviation(m, p, q, f, dfn, dfd),
                found,
            ),
{
    let g = |dfd: F64| fisher_snedecor::deviation(m, p, q, f, dfn, dfd);
    lemma_solve(
        BracketStrategy::Increasing { small: lit(ONE), big: lit(SEARCH_BOUND), start: lit(FIVE) },
        g,
    );
}

/// A quantile lies in its range, and the probability below passes through the one asked
/// for within the tolerance of it.
pub proof fn law_fisher_snedecor_quantile<M: Fn(Elementary) -> F64>(
    m: &M,
    dfn: F64,
    dfd: F64,
    p: F64,
)
    requires
        ({
            let q = lit(ONE) - p;
            defined_on(
                lit(ZERO),
                lit(SEARCH_BOUND),
                |x: F64| fisher_snedecor::deviation(m, p, q, x, dfn, dfd),
            )
        }),
        !p.equals(lit(ZERO)) && !p.equals(lit(ONE)),
    ensures
        ({
            let q = lit(ONE) - p;
            fisher_snedecor::quantile_spec(m, dfn, dfd, p) matches Ok(found)
                ==> answers(
                    lit(ZERO),
                    lit(SEARCH_BOUND),
                    lit(SOLVER_TOL),
                    |x: F64| fisher_snedecor::deviation(m, p, q, x, dfn, dfd),
                    found,
                )
        }),
{
    let q = lit(ONE) - p;
    let g = |x: F64| fisher_snedecor::deviation(m, p, q, x, dfn, dfd);
    lemma_solve(
        BracketStrategy::Increasing { small: lit(ZERO), big: lit(SEARCH_BOUND), start: lit(FIVE) },
        g,
    );
}

/// An upper quantile lies in its range, and the probability above passes through the
/// one asked for within the tolerance of it.
pub proof fn law_fisher_snedecor_upper_quantile<M: Fn(Elementary) -> F64>(
    m: &M,
    dfn: F64,
    dfd: F64,
    q: F64,
)
    requires
        defined_on(lit(ZERO), lit(SEARCH_BOUND), |x: F64| fisher_snedecor::cumf(m, x, dfn, dfd).1 - q),
        !q.equals(lit(ZERO)) && !q.equals(lit(ONE)),
    ensures
        fisher_snedecor::upper_quantile_spec(m, dfn, dfd, q) matches Ok(found)
            ==> answers(
                lit(ZERO),
                lit(SEARCH_BOUND),
                lit(SOLVER_TOL),
                |x: F64| fisher_snedecor::cumf(m, x, dfn, dfd).1 - q,
                found,
            ),
{
    let g = |x: F64| fisher_snedecor::cumf(m, x, dfn, dfd).1 - q;
    lemma_solve(
        BracketStrategy::Decreasing { small: lit(ZERO), big: lit(SEARCH_BOUND), start: lit(FIVE) },
        g,
    );
}

/// A number of degrees of freedom of the numerator that is found lies in its range, and
/// the distribution passes through the probability asked for within the tolerance of
/// it. (The NaN stands for a search that has not ended within its evaluations.)
pub proof fn law_fisher_snedecor_noncentral_search_dfn<M: Fn(Elementary) -> F64>(
    m: &M,
    p: F64,
    f: F64,
    dfd: F64,
    ncp: F64,
)
    requires
        defined_on(
            lit(ONE),
            lit(0x4629_3E59_39A0_8CEA),
            |dfn: F64| fisher_snedecor_noncentral::cumfnc(m, f, dfn, dfd, ncp).0 - p,
        ),
    ensures
        fisher_snedecor_noncentral::search_dfn_spec(m, p, f, dfd, ncp) matches Ok(found)
            ==> (found.is_nan() && used_up(lit(ONE), lit(0x4629_3E59_39A0_8CEA), lit(FIVE), lit(ABS_TOL), |dfn: F64| fisher_snedecor_noncentral::cumfnc(m, f, dfn, dfd, ncp).0 - p))
                || answers(
                    lit(ONE),
                    lit(0x4629_3E59_39A0_8CEA),
                    lit(ABS_TOL),
                    |dfn: F64| fisher_snedecor_noncentral::cumfnc(m, f, dfn, dfd, ncp).0 - p,
                    found,
                ),
{
    let g = |dfn: F64| fisher_snedecor_noncentral::cumfnc(m, f, dfn, dfd, ncp).0 - p;
    lemma_search(
        lit(ONE),
        lit(0x4629_3E59_39A0_8CEA),
        lit(FIVE),
        lit(ZERO),
        lit(0x4629_3E59_39A0_8CEA),
        lit(ABS_TOL),
        g,
    );
}

/// A number of degrees of freedom of the denominator that is found lies in its range,
/// and the distribution passes through the probability asked for within the tolerance
/// of it. (The NaN stands for a search that has not ended within its evaluations.)
pub proof fn law_fisher_snedecor_noncentral_search_dfd<M: Fn(Elementary) -> F64>(
    m: &M,
    p: F64,
    f: F64,
    dfn: F64,
    ncp: F64,
)
    requires
        defined_on(
            lit(ONE),
            lit(0x4629_3E59_39A0_8CEA),
            |dfd: F64| fisher_snedecor_noncentral::cumfnc(m, f, dfn, dfd, ncp).0 - p,
        ),
    ensures
        fisher_snedecor_noncentral::search_dfd_spec(m, p, f, dfn, ncp) matches Ok(found)
            ==> (found.is_nan() && used_up(lit(ONE), lit(0x4629_3E59_39A0_8CEA), lit(FIVE), lit(ABS_TOL), |dfd: F64| fisher_snedecor_noncentral::cumfnc(m, f, dfn, dfd, ncp).0 - p))
                || answers(
                    lit(ONE),
                    lit(0x4629_3E59_39A0_8CEA),
                    lit(ABS_TOL),
                    |dfd: F64| fisher_snedecor_noncentral::cumfnc(m, f, dfn, dfd, ncp).0 - p,
                    found,
                ),
{
    let g = |dfd: F64| fisher_snedecor_noncentral::cumfnc(m, f, dfn, dfd, ncp).0 - p;
    lemma_search(
        lit(ONE),
        lit(0x4629_3E59_39A0_8CEA),
        lit(FIVE),
        lit(ZERO),
        lit(0x4629_3E59_39A0_8CEA),
        lit(ABS_TOL),
        g,
    );
}

/// A noncentrality that is found lies in its range, and the distribution passes through
/// the probability asked for within the tolerance of it. (The NaN stands for a search
/// that has not ended within its evaluations.)
pub proof fn law_fisher_snedecor_noncentral_search_ncp<M: Fn(Elementary) -> F64>(
    m: &M,
    p: F64,
    f: F64,
    dfn: F64,
    dfd: F64,
)
    requires
        defined_on(
            lit(ZERO),
            lit(0x40C3_8800_0000_0000),
            |ncp: F64| fisher_snedecor_noncentral::cumfnc(m, f, dfn, dfd, ncp).0 - p,
        ),
    ensures
        fisher_snedecor_noncentral::search_ncp_spec(m, p, f, dfn, dfd) matches Ok(found)
            ==> (found.is_nan() && used_up(lit(ZERO), lit(0x40C3_8800_0000_0000), lit(FIVE), lit(ABS_TOL), |ncp: F64| fisher_snedecor_noncentral::cumfnc(m, f, dfn, dfd, ncp).0 - p))
                || answers(
                    lit(ZERO),
                    lit(0x40C3_8800_0000_0000),
                    lit(ABS_TOL),
                    |ncp: F64| fisher_snedecor_noncentral::cumfnc(m, f, dfn, dfd, ncp).0 - p,
                    found,
                ),
{
    let g = |ncp: F64| fisher_snedecor_noncentral::cumfnc(m, f, dfn, dfd, ncp).0 - p;
    lemma_search(
        lit(ZERO),
        lit(0x40C3_8800_0000_0000),
        lit(FIVE),
        lit(ZERO),
        lit(0x40C3_8800_0000_0000),
        lit(ABS_TOL),
        g,
    );
}

/// A quantile lies in its range, and the probability below passes through the one asked
/// for within the tolerance of it. (The NaN stands for a search that has not ended
/// within its evaluations.)
pub proof fn law_fisher_snedecor_noncentral_quantile<M: Fn(Elementary) -> F64>(
    m: &M,
    dfn: F64,
    dfd: F64,
    ncp: F64,
    p: F64,
)
    requires
        defined_on(
            lit(ZERO),
            lit(0x4629_3E59_39A0_8CEA),
            |x: F64| fisher_snedecor_noncentral::cumfnc(m, x, dfn, dfd, ncp).0 - p,
        ),
        !p.equals(lit(ZERO)) && !p.equals(lit(ONE)),
    ensures
        fisher_snedecor_noncentral::quantile_spec(m, dfn, dfd, ncp, p) matches Ok(found)
            ==> (found.is_nan() && used_up(lit(ZERO), lit(0x4629_3E59_39A0_8CEA), lit(FIVE), lit(ABS_TOL), |x: F64| fisher_snedecor_noncentral::cumfnc(m, x, dfn, dfd, ncp).0 - p))
                || answers(
                    lit(ZERO),
                    lit(0x4629_3E59_39A0_8CEA),
                    lit(ABS_TOL),
                    |x: F64| fisher_snedecor_noncentral::cumfnc(m, x, dfn, dfd, ncp).0 - p,
                    found,
                ),
{
    let g = |x: F64| fisher_snedecor_noncentral::cumfnc(m, x, dfn, dfd, ncp).0 - p;
    lemma_search(
        lit(ZERO),
        lit(0x4629_3E59_39A0_8CEA),
        lit(FIVE),
        lit(ZERO),
        lit(0x4629_3E59_39A0_8CEA),
        lit(ABS_TOL),
        g,
    );
}

/// An upper quantile lies in its range, and the probability above passes through the
/// one asked for within the tolerance of it.
pub proof fn law_fisher_snedecor_noncentral_upper_quantile<M: Fn(Elementary) -> F64>(
    m: &M,
    dfn: F64,
    dfd: F64,
    ncp: F64,
    q: F64,
)
    requires
        defined_on(
            lit(ZERO),
            lit(SEARCH_BOUND),
            |x: F64| fisher_snedecor_noncentral::cumfnc(m, x, dfn, dfd, ncp).1 - q,
        ),
        !q.equals(lit(ZERO)) && !q.equals(lit(ONE)),
    ensures
        fisher_snedecor_noncentral::upper_quantile_spec(m, dfn, dfd, ncp, q) matches Ok(found)
            ==> answers(
                lit(ZERO),
                lit(SEARCH_BOUND),
                lit(SOLVER_TOL),
                |x: F64| fisher_snedecor_noncentral::cumfnc(m, x, dfn, dfd, ncp).1 - q,
                found,
            ),
{
    let g = |x: F64| fisher_snedecor_noncentral::cumfnc(m, x, dfn, dfd, ncp).1 - q;
    lemma_solve(
        BracketStrategy::Decreasing { small: lit(ZERO), big: lit(SEARCH_BOUND), start: lit(FIVE) },
        g,
    );
}

/// A shape that is found lies in its range, and the distribution passes through the
/// probability asked for within the tolerance of it.
pub proof fn law_gamma_solve_shape<M: Fn(Elementary) -> F64>(
    m: &M,
    p: F64,
    q: F64,
    x: F64,
    rate: F64,
)
    requires
        ({
            let xr = x * rate;
            defined_on(lit(ZERO), lit(SEARCH_BOUND), |shape: F64| gamma::deviation(m, p, q, xr, shape))
        }),
    ensures
        ({
            let xr = x * rate;
            gamma::solve_shape_spec(m, p, q, x, rate) matches Ok(found)
                ==> answers(
                    lit(ZERO),
                    lit(SEARCH_BOUND),
                    lit(SOLVER_TOL),
                    |shape: F64| gamma::deviation(m, p, q, xr, shape),
                    found,
                )
        }),
{
    let xr = x * rate;
    let g = |shape: F64| gamma::deviation(m, p, q, xr, shape);
    lemma_solve(
        BracketStrategy::Decreasing { small: lit(ZERO), big: lit(SEARCH_BOUND), start: lit(FIVE) },
        g,
    );
}

/// A number of successes that is found lies in its range, and the distribution passes
/// through the probability asked for within the tolerance of it.
pub proof fn law_negative_binomial_solve_r<M: Fn(Elementary) -> F64>(m: &M, p: F64, pr: F64, s: u64)
    requires
        ({
            let sf = F64::from_u64(s);
            let q = lit(ONE) - p;
            defined_on(
                lit(ZERO),
                lit(SEARCH_BOUND),
                |rf: F64| negative_binomial::deviation(m, p, q, sf, rf, pr),
            )
        }),
    ensures
        ({
            let sf = F64::from_u64(s);
            let q = lit(ONE) - p;
            negative_binomial::solve_r_spec(m, p, pr, s) matches Ok(found)
                ==> answers(
                    lit(ZERO),
                    lit(SEARCH_BOUND),
                    lit(SOLVER_TOL),
                    |rf: F64| negative_binomial::deviation(m, p, q, sf, rf, pr),
                    found,
                )
        }),
{
    let sf = F64::from_u64(s);
    let q = lit(ONE) - p;
    let g = |rf: F64| negative_binomial::deviation(m, p, q, sf, rf, pr);
    lemma_solve(
        BracketStrategy::Decreasing { small: lit(ZERO), big: lit(SEARCH_BOUND), start: lit(FIVE) },
        g,
    );
}

/// A number of successes that is found lies in its range, and the distribution passes
/// through the probability asked for within the tolerance of it.
pub proof fn law_negative_binomial_solve_trials<M: Fn(Elementary) -> F64>(
    m: &M,
    p: F64,
    pr: F64,
    s: u64,
)
    requires
        ({
            let sf = F64::from_u64(s);
            defined_on(
                lit(0x01A5_6E1F_C2F8_F359),
                lit(0x430C_6BF5_2634_0000),
                |rf: F64| beta_inc_value(m, rf, sf + lit(ONE), pr, lit(ONE) - pr).0 - p,
            )
        }),
    ensures
        ({
            let sf = F64::from_u64(s);
            negative_binomial::solve_trials_spec(m, p, pr, s) matches Ok(found)
                ==> answers(
                    lit(0x01A5_6E1F_C2F8_F359),
                    lit(0x430C_6BF5_2634_0000),
                    lit(SOLVER_TOL),
                    |rf: F64| beta_inc_value(m, rf, sf + lit(ONE), pr, lit(ONE) - pr).0 - p,
                    found,
                )
        }),
{
    let sf = F64::from_u64(s);
    let g = |rf: F64| beta_inc_value(m, rf, sf + lit(ONE), pr, lit(ONE) - pr).0 - p;
    lemma_solve(
        BracketStrategy::Decreasing { small: lit(0x01A5_6E1F_C2F8_F359), big: lit(0x430C_6BF5_2634_0000), start: lit(ONE) },
        g,
    );
}

/// A probability of a success that is found lies in its range, and the distribution
/// passes through the probability asked for within the tolerance of it.
pub proof fn law_negative_binomial_solve_pr<M: Fn(Elementary) -> F64>(m: &M, p: F64, r: u64, s: u64)
    requires
        ({
            let rf = F64::from_u64(r);
            let sf = F64::from_u64(s);
            let q = lit(ONE) - p;
            defined_on(lit(ZERO), lit(ONE), |pr: F64| negative_binomial::deviation(m, p, q, sf, rf, pr))
        }),
    ensures
        ({
            let rf = F64::from_u64(r);
            let sf = F64::from_u64(s);
            let q = lit(ONE) - p;
            negative_binomial::solve_pr_spec(m, p, r, s) matches Ok(found)
                ==> answers(
                    lit(ZERO),
                    lit(ONE),
                    lit(SOLVER_TOL),
                    |pr: F64| negative_binomial::deviation(m, p, q, sf, rf, pr),
                    found,
                )
        }),
{
    let rf = F64::from_u64(r);
    let sf = F64::from_u64(s);
    let q = lit(ONE) - p;
    let g = |pr: F64| negative_binomial::deviation(m, p, q, sf, rf, pr);
    lemma_solve(
        BracketStrategy::Increasing { small: lit(ZERO), big: lit(ONE), start: lit(HALF) },
        g,
    );
}

/// A mean that is found lies in its range, and the distribution passes through the
/// probability asked for within the tolerance of it. (The NaN stands for a search that
/// has not ended within its evaluations.)
pub proof fn law_poisson_search_lambda<M: Fn(Elementary) -> F64>(m: &M, p: F64, q: F64, s: u64)
    requires
        ({
            let sf = F64::from_u64(s);
            defined_on(
                lit(ZERO),
                lit(SEARCH_BOUND),
                |lambda: F64| poisson::deviation(m, p, q, sf, lambda),
            )
        }),
    ensures
        ({
            let sf = F64::from_u64(s);
            poisson::search_lambda_spec(m, p, q, s) matches Ok(found)
                ==> (found.is_nan() && used_up(lit(ZERO), lit(SEARCH_BOUND), lit(FIVE), lit(ABS_TOL), |lambda: F64| poisson::deviation(m, p, q, sf, lambda)))
                    || answers(
                        lit(ZERO),
                        lit(SEARCH_BOUND),
                        lit(ABS_TOL),
                        |lambda: F64| poisson::deviation(m, p, q, sf, lambda),
                        found,
                    )
        }),
{
    let sf = F64::from_u64(s);
    let g = |lambda: F64| poisson::deviation(m, p, q, sf, lambda);
    lemma_search(
        lit(ZERO),
        lit(SEARCH_BOUND),
        lit(FIVE),
        lit(ZERO),
        lit(SEARCH_BOUND),
        lit(ABS_TOL),
        g,
    );
}

/// A mean that is found lies in its range, and the distribution passes through the
/// probability asked for within the tolerance of it.
pub proof fn law_poisson_solve_lambda<M: Fn(Elementary) -> F64>(m: &M, p: F64, s: u64)
    requires
        ({
            let sf = F64::from_u64(s);
            defined_on(
                lit(ZERO),
                lit(SEARCH_BOUND),
                |lambda: F64| gamma_inc_value(m, sf + lit(ONE), lambda).1 - p,
            )
        }),
    ensures
        ({
            let sf = F64::from_u64(s);
            poisson::solve_lambda_spec(m, p, s) matches Ok(found)
                ==> answers(
                    lit(ZERO),
                    lit(SEARCH_BOUND),
                    lit(SOLVER_TOL),
                    |lambda: F64| gamma_inc_value(m, sf + lit(ONE), lambda).1 - p,
                    found,
                )
        }),
{
    let sf = F64::from_u64(s);
    let g = |lambda: F64| gamma_inc_value(m, sf + lit(ONE), lambda).1 - p;
    lemma_solve(
        BracketStrategy::Decreasing { small: lit(ZERO), big: lit(SEARCH_BOUND), start: lit(FIVE) },
        g,
    );
}

/// An upper quantile lies in its range, and the probability above passes through the
/// one asked for within the tolerance of it. (The NaN stands for a search that has not
/// ended within its evaluations.)
pub proof fn law_poisson_upper_quantile<M: Fn(Elementary) -> F64>(m: &M, lambda: F64, q: F64)
    requires
        ({
            let p = lit(ONE) - q;
            defined_on(lit(ZERO), lit(SEARCH_BOUND), |s: F64| poisson::deviation(m, p, q, s, lambda))
        }),
    ensures
        ({
            let p = lit(ONE) - q;
            poisson::upper_quantile_spec(m, lambda, q) matches Ok(found)
                ==> (found.is_nan() && used_up(lit(ZERO), lit(SEARCH_BOUND), lit(FIVE), lit(ABS_TOL), |s: F64| poisson::deviation(m, p, q, s, lambda)))
                    || answers(
                        lit(ZERO),
                        lit(SEARCH_BOUND),
                        lit(ABS_TOL),
                        |s: F64| poisson::deviation(m, p, q, s, lambda),
                        found,
                    )
        }),
{
    let p = lit(ONE) - q;
    let g = |s: F64| poisson::deviation(m, p, q, s, lambda);
    lemma_search(
        lit(ZERO),
        lit(SEARCH_BOUND),
        lit(FIVE),
        lit(ZERO),
        lit(SEARCH_BOUND),
        lit(ABS_TOL),
        g,
    );
}

/// A number of degrees of freedom that is found lies in its range, and the distribution
/// passes through the probability asked for within the tolerance of it. (The NaN stands
/// for a search that has not ended within its evaluations.)
pub proof fn law_students_t_search_df<M: Fn(Elementary) -> F64>(m: &M, p: F64, q: F64, t: F64)
    requires
        defined_on(
            lit(ONE),
            lit(0x4202_A05F_2000_0000),
            |df: F64| students_t::deviation(m, p, q, t, df),
        ),
    ensures
        students_t::search_df_spec(m, p, q, t) matches Ok(found)
            ==> (found.is_nan() && used_up(lit(ONE), lit(0x4202_A05F_2000_0000), lit(FIVE), lit(ABS_TOL), |df: F64| students_t::deviation(m, p, q, t, df)))
                || answers(
                    lit(ONE),
                    lit(0x4202_A05F_2000_0000),
                    lit(ABS_TOL),
                    |df: F64| students_t::deviation(m, p, q, t, df),
                    found,
                ),
{
    let g = |df: F64| students_t::deviation(m, p, q, t, df);
    lemma_search(
        lit(ONE),
        lit(0x4202_A05F_2000_0000),
        lit(FIVE),
        lit(ZERO),
        lit(0x4202_A05F_2000_0000),
        lit(ABS_TOL),
        g,
    );
}

/// A quantile of Student's t distribution lies in the range of its search, and the
/// distribution function passes through the probability asked for within the tolerance
/// of it. (The NaN stands for a search that has not ended within its evaluations.)
pub proof fn law_students_t_quantile<M: Fn(Elementary) -> F64>(m: &M, df: F64, p: F64)
    requires
        ({
            let q = lit(ONE) - p;
            defined_on(
                lit(T_BOUND).negated(),
                lit(T_BOUND),
                |t: F64| students_t::deviation(m, p, q, t, df),
            )
        }),
        !p.equals(lit(ZERO)) && !p.equals(lit(ONE)),
    ensures
        ({
            let q = lit(ONE) - p;
            students_t::quantile(m, df, p) matches Ok(found) ==> (found.is_nan() && used_up(lit(T_BOUND).negated(), lit(T_BOUND), dt1(m, p, q, df), lit(ABS_TOL), |t: F64| students_t::deviation(m, p, q, t, df))) || answers(
                lit(T_BOUND).negated(),
                lit(T_BOUND),
                lit(ABS_TOL),
                |t: F64| students_t::deviation(m, p, q, t, df),
                found,
            )
        }),
{
    let q = lit(ONE) - p;
    lemma_t_between(m, df, p, q);
}

/// An upper quantile of Student's t distribution lies in the range of its search, and the
/// distribution passes through the probability asked for within the tolerance of it. (The
/// NaN stands for a search that has not ended within its evaluations.)
pub proof fn law_students_t_upper_quantile<M: Fn(Elementary) -> F64>(m: &M, df: F64, q: F64)
    requires
        ({
            let p = lit(ONE) - q;
            defined_on(
                lit(T_BOUND).negated(),
                lit(T_BOUND),
                |t: F64| students_t::deviation(m, p, q, t, df),
            )
        }),
        !q.equals(lit(ZERO)) && !q.equals(lit(ONE)),
    ensures
        ({
            let p = lit(ONE) - q;
            students_t::upper_quantile(m, df, q) matches Ok(found) ==> (found.is_nan() && used_up(lit(T_BOUND).negated(), lit(T_BOUND), dt1(m, p, q, df), lit(ABS_TOL), |t: F64| students_t::deviation(m, p, q, t, df))) || answers(
                lit(T_BOUND).negated(),
                lit(T_BOUND),
                lit(ABS_TOL),
                |t: F64| students_t::deviation(m, p, q, t, df),
                found,
            )
        }),
{
    let p = lit(ONE) - q;
    lemma_t_between(m, df, p, q);
}

proof fn lemma_t_between<M: Fn(Elementary) -> F64>(m: &M, df: F64, p: F64, q: F64)
    requires
        defined_on(
            lit(T_BOUND).negated(),
            lit(T_BOUND),
            |t: F64| students_t::deviation(m, p, q, t, df),
        ),
    ensures
        students_t::between(m, df, p, q) matches Ok(found) ==> (found.is_nan() && used_up(lit(T_BOUND).negated(), lit(T_BOUND), dt1(m, p, q, df), lit(ABS_TOL), |t: F64| students_t::deviation(m, p, q, t, df))) || answers(
            lit(T_BOUND).negated(),
            lit(T_BOUND),
            lit(ABS_TOL),
            |t: F64| students_t::deviation(m, p, q, t, df),
            found,
        ),
{
    let g = |t: F64| students_t::deviation(m, p, q, t, df);
    assert(lit(T_BOUND).negated() == lit(0xC629_3E59_39A0_8CEA));
    let lo = lit(0xC629_3E59_39A0_8CEA);
    lemma_search(lo, lit(T_BOUND), dt1(m, p, q, df), lo, lit(T_BOUND), lit(ABS_TOL), g);
}

/// The distribution function of the beta distribution, less `p`.
pub open spec fn beta_lower<M: Fn(Elementary) -> F64>(m: &M, a: F64, b: F64, p: F64) -> spec_fn(F64) -> F64 {
    |x: F64| beta_inc_value(m, a, b, x, lit(ONE) - x).0 - p
}

/// The complement of the distribution function of the beta distribution at the distance
/// `y` from one, less `q`.
pub open spec fn beta_upper<M: Fn(Elementary) -> F64>(m: &M, a: F64, b: F64, q: F64) -> spec_fn(F64) -> F64 {
    |y: F64| beta_inc_value(m, a, b, lit(ONE) - y, y).1 - q
}

/// What the value between two tails of the beta distribution is worth: it, or its distance
/// from one, lies between zero and one, and the smaller tail passes through its
/// probability within the tolerance of it.
pub open spec fn beta_answers<M: Fn(Elementary) -> F64>(
    m: &M,
    a: F64,
    b: F64,
    p: F64,
    q: F64,
    x: F64,
) -> bool {
    if p.le(q) {
        answers(lit(ZERO), lit(ONE), lit(ABS_TOL), beta_lower(m, a, b, p), x)
    } else {
        exists|y: F64| x == lit(ONE) - y && #[trigger] answers(
            lit(ZERO),
            lit(ONE),
            lit(ABS_TOL),
            beta_upper(m, a, b, q),
            y,
        )
    }
}

/// The search between two tails of the beta distribution has used up its evaluations.
pub open spec fn beta_used_up<M: Fn(Elementary) -> F64>(
    m: &M,
    a: F64,
    b: F64,
    p: F64,
    q: F64,
) -> bool {
    bounded_used_up(
        lit(ZERO),
        lit(ONE),
        lit(ABS_TOL),
        lit(REL_TOL),
        if p.le(q) {
            beta_lower(m, a, b, p)
        } else {
            beta_upper(m, a, b, q)
        },
    )
}

/// A quantile of the beta distribution has the probability asked for below it, within the
/// tolerance. (The NaN stands for a search that has not ended within its evaluations.)
pub proof fn law_beta_quantile<M: Fn(Elementary) -> F64>(m: &M, a: F64, b: F64, p: F64)
    requires
        defined_on(lit(ZERO), lit(ONE), beta_lower(m, a, b, p)),
        defined_on(lit(ZERO), lit(ONE), beta_upper(m, a, b, lit(ONE) - p)),
        !p.equals(lit(ZERO)) && !p.equals(lit(ONE)),
    ensures
        beta::quantile(m, a, b, p) matches Ok(x)
            ==> (x.is_nan() && beta_used_up(m, a, b, p, lit(ONE) - p)) || beta_answers(m, a, b, p, lit(ONE) - p, x),
{
    lemma_beta_between(m, a, b, p, lit(ONE) - p);
}

/// An upper quantile of the beta distribution has the probability asked for above it,
/// within the tolerance. (The NaN stands for a search that has not ended within its
/// evaluations.)
pub proof fn law_beta_upper_quantile<M: Fn(Elementary) -> F64>(m: &M, a: F64, b: F64, q: F64)
    requires
        defined_on(lit(ZERO), lit(ONE), beta_lower(m, a, b, lit(ONE) - q)),
        defined_on(lit(ZERO), lit(ONE), beta_upper(m, a, b, q)),
        !q.equals(lit(ZERO)) && !q.equals(lit(ONE)),
    ensures
        beta::upper_quantile(m, a, b, q) matches Ok(x)
            ==> (x.is_nan() && beta_used_up(m, a, b, lit(ONE) - q, q)) || beta_answers(m, a, b, lit(ONE) - q, q, x),
{
    lemma_beta_between(m, a, b, lit(ONE) - q, q);
}

proof fn lemma_beta_between<M: Fn(Elementary) -> F64>(m: &M, a: F64, b: F64, p: F64, q: F64)
    requires
        defined_on(lit(ZERO), lit(ONE), beta_lower(m, a, b, p)),
        defined_on(lit(ZERO), lit(ONE), beta_upper(m, a, b, q)),
    ensures
        beta::between(m, a, b, p, q) matches Ok(x) ==> (x.is_nan() && beta_used_up(m, a, b, p, q)) || beta_answers(m, a, b, p, q, x),
{
    let g = beta_lower(m, a, b, p);
    let h = beta_upper(m, a, b, q);
    lemma_unit_is_tame();
    law_bounded_answer_is_a_number(lit(ZERO), lit(ONE), lit(ABS_TOL), lit(REL_TOL), g);
    law_bounded_answer_is_a_number(lit(ZERO), lit(ONE), lit(ABS_TOL), lit(REL_TOL), h);
    law_bounded_answer_in_range(lit(ZERO), lit(ONE), lit(ABS_TOL), lit(REL_TOL), g);
    law_bounded_answer_is_a_zero(lit(ZERO), lit(ONE), lit(ABS_TOL), lit(REL_TOL), g);
    law_bounded_answer_in_range(lit(ZERO), lit(ONE), lit(ABS_TOL), lit(REL_TOL), h);
    law_bounded_answer_is_a_zero(lit(ZERO), lit(ONE), lit(ABS_TOL), lit(REL_TOL), h);
    match search_bounded_zero_spec(lit(ZERO), lit(ONE), h) {
        Ok(y) => {
            if y.is_nan() {
                law_nan_propagates(y, lit(ONE));
            } else {
                assert(answers(lit(ZERO), lit(ONE), lit(ABS_TOL), h, y));
            }
        },
        Err(_) => {},
    }
}

proof fn lemma_unit_is_tame()
    ensures
        tame(lit(ZERO)),
        tame(lit(ONE)),
{
    lemma_bound_is_tame();
    broadcast use lemma_le_units;
    lemma_order(ONE as int, SEARCH_BOUND as int);
    lemma_mag_zero(ONE as int);
}

} // verus!
