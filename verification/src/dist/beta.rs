//! The beta distribution.
use crate::consts::{EPSILON, FIVE, NEG_INFINITY, ONE, THREE, TWO, ZERO};
use crate::error::{SearchError, SolverError};
use crate::float::number::{lemma_le_units, lemma_lt_units, lemma_order};
use crate::search::drive::{search_bounded_zero, search_bounded_zero_spec, search_monotone, search_monotone_spec};
use crate::solver::bracket::{solve_monotone, solve_monotone_spec, BracketStrategy};
use crate::special::beta::beta_log;
use crate::special::beta_inc::beta_inc_value;
use crate::special::gamma::psi_value;
use super::common::pivot;
use crate::float::{lit, F64};
use crate::functions::{agrees, exp, lawful, ln, Elementary};
use crate::special::poly::within;
use crate::traits::{Continuous, ContinuousCdf, Entropy, Mean, Variance};
use vstd::prelude::*;

verus! {

/// A beta distribution, by its two shape parameters.
#[derive(Clone, Copy, Debug, PartialEq, Eq, Structural)]
pub struct Beta {
    pub a: F64,
    pub b: F64,
}

/// What is wrong with the arguments, or why a search gave nothing.
#[derive(Clone, Copy, Debug, PartialEq, Eq, Structural)]
pub enum BetaError {
    ANotPositive(F64),
    ANotFinite(F64),
    BNotPositive(F64),
    BNotFinite(F64),
    XOutOfRange(F64),
    PNotInRange(F64),
    QNotInRange(F64),
    PQSumNotOne { p: F64, q: F64 },
    Search(SearchError),
    Solver(SolverError),
}

impl Beta {
    /// The parameters are such as the distribution can have.
    pub open spec fn valid(self) -> bool {
        self.a.is_finite() && self.a.gt(lit(ZERO)) && self.b.is_finite() && self.b.gt(lit(ZERO))
    }
}

/// The distribution with the given parameters, where it can have them.
pub open spec fn try_new_spec(a: F64, b: F64) -> Result<Beta, BetaError> {
    if !a.is_finite() {
        Err(BetaError::ANotFinite(a))
    } else if a.le(lit(ZERO)) {
        Err(BetaError::ANotPositive(a))
    } else if !b.is_finite() {
        Err(BetaError::BNotFinite(b))
    } else if b.le(lit(ZERO)) {
        Err(BetaError::BNotPositive(b))
    } else {
        Ok(Beta { a, b })
    }
}

impl Beta {
    /// The distribution with the given parameters, where it can have them.
    pub fn try_new(a: F64, b: F64) -> (r: Result<Beta, BetaError>)
        ensures
            r == try_new_spec(a, b),
    {
        if !a.is_finite() {
            Err(BetaError::ANotFinite(a))
        } else if a.le(lit(ZERO)) {
            Err(BetaError::ANotPositive(a))
        } else if !b.is_finite() {
            Err(BetaError::BNotFinite(b))
        } else if b.le(lit(ZERO)) {
            Err(BetaError::BNotPositive(b))
        } else {
            Ok(Beta { a, b })
        }
    }
}

impl Beta {
    /// The distribution with the given parameters.
    pub fn new(a: F64, b: F64) -> (r: Beta)
        requires
            try_new_spec(a, b) is Ok,
        ensures
            try_new_spec(a, b) == Ok::<Beta, BetaError>(r),
    {
        proof {
            lemma_new_valid(a, b);
        }
        Beta { a, b }
    }

    /// The parameter `a`.
    pub fn a(&self) -> (r: F64)
        ensures
            r == self.a,
    {
        self.a
    }

    /// The parameter `b`.
    pub fn b(&self) -> (r: F64)
        ensures
            r == self.b,
    {
        self.b
    }
}

/// The constructor succeeds exactly on valid parameters, and keeps them.
pub proof fn lemma_new_valid(a: F64, b: F64)
    ensures
        try_new_spec(a, b) is Ok <==> (Beta { a, b }).valid(),
        try_new_spec(a, b) matches Ok(d) ==> d == (Beta { a, b }),
{
    broadcast use lemma_lt_units;
    broadcast use lemma_le_units;
    lemma_order(0, ONE as int);
}

pub open spec fn check_p_spec(p: F64) -> Result<(), BetaError> {
    if !within(p, lit(ZERO), lit(ONE)) || !p.is_finite() {
        Err(BetaError::PNotInRange(p))
    } else {
        Ok(())
    }
}

/// `p` is a probability.
#[verifier::when_used_as_spec(check_p_spec)]
pub fn check_p(p: F64) -> (r: Result<(), BetaError>)
    ensures
        r == check_p(p),
{
    if !within(p, lit(ZERO), lit(ONE)) || !p.is_finite() {
        Err(BetaError::PNotInRange(p))
    } else {
        Ok(())
    }
}

pub open spec fn check_q_spec(q: F64) -> Result<(), BetaError> {
    if !within(q, lit(ZERO), lit(ONE)) || !q.is_finite() {
        Err(BetaError::QNotInRange(q))
    } else {
        Ok(())
    }
}

/// `q` is a probability.
#[verifier::when_used_as_spec(check_q_spec)]
pub fn check_q(q: F64) -> (r: Result<(), BetaError>)
    ensures
        r == check_q(q),
{
    if !within(q, lit(ZERO), lit(ONE)) || !q.is_finite() {
        Err(BetaError::QNotInRange(q))
    } else {
        Ok(())
    }
}

pub open spec fn check_pq_spec(p: F64, q: F64) -> Result<(), BetaError> {
    match check_p(p) {
        Err(e) => Err(e),
        Ok(_) => {
            match check_q(q) {
                Err(e) => Err(e),
                Ok(_) => {
                    if (p + q - lit(ONE)).abs().gt(lit(THREE) * lit(EPSILON)) {
                        Err(BetaError::PQSumNotOne { p, q })
                    } else {
                        Ok(())
                    }
                },
            }
        },
    }
}

/// `p` and `q` are probabilities that add up to one.
#[verifier::when_used_as_spec(check_pq_spec)]
pub fn check_pq(p: F64, q: F64) -> (r: Result<(), BetaError>)
    ensures
        r == check_pq(p, q),
{
    check_p(p)?;
    check_q(q)?;
    if (p + q - lit(ONE)).abs().gt(lit(THREE) * lit(EPSILON)) {
        Err(BetaError::PQSumNotOne { p, q })
    } else {
        Ok(())
    }
}

pub open spec fn deviation_spec<M: Fn(Elementary) -> F64>(
    m: &M,
    p: F64,
    q: F64,
    x: F64,
    a: F64,
    b: F64,
) -> F64 {
    let (cum, ccum) = beta_inc_value(m, a, b, x, lit(ONE) - x);
    pivot(p, q, cum, ccum)
}

/// How far the distribution function at `x` is from `p`, or its complement from
/// `q`, whichever is the smaller probability.
#[verifier::when_used_as_spec(deviation_spec)]
pub fn deviation<M: Fn(Elementary) -> F64>(
    m: &M,
    p: F64,
    q: F64,
    x: F64,
    a: F64,
    b: F64,
) -> (r: F64)
    requires
        lawful(m),
    ensures
        r == deviation(m, p, q, x, a, b),
{
    let (cum, ccum) = beta_inc_value(m, a, b, x, lit(ONE) - x);
    pivot(p, q, cum, ccum)
}

/// The first shape parameter that puts the probability `p` below `x`.
pub open spec fn search_a_spec<M: Fn(Elementary) -> F64>(
    m: &M,
    p: F64,
    q: F64,
    x: F64,
    b: F64,
) -> Result<F64, BetaError> {
    match check_pq(p, q) {
        Err(e) => Err(e),
        Ok(_) => {
            if !within(x, lit(ZERO), lit(ONE)) {
                Err(BetaError::XOutOfRange(x))
            } else if !b.is_finite() {
                Err(BetaError::BNotFinite(b))
            } else if b.le(lit(ZERO)) {
                Err(BetaError::BNotPositive(b))
            } else {
                match search_monotone_spec(
                    lit(ZERO),
                    lit(0x7E37_E43C_8800_759C /* 1.0e300 */),
                    lit(FIVE),
                    lit(ZERO),
                    lit(0x7E37_E43C_8800_759C /* 1.0e300 */),
                    |a: F64| deviation(m, p, q, x, a, b),
                ) {
                    Ok(found) => Ok(found),
                    Err(e) => Err(BetaError::Search(e)),
                }
            }
        },
    }
}

impl Beta {
    /// The first shape parameter that puts the probability `p` below `x`.
    pub fn search_a<M: Fn(Elementary) -> F64>(
        m: &M,
        p: F64,
        q: F64,
        x: F64,
        b: F64,
    ) -> (r: Result<F64, BetaError>)
        requires
            lawful(m),
        ensures
            r == search_a_spec(m, p, q, x, b),
    {
        check_pq(p, q)?;
        if !within(x, lit(ZERO), lit(ONE)) {
            Err(BetaError::XOutOfRange(x))
        } else if !b.is_finite() {
            Err(BetaError::BNotFinite(b))
        } else if b.le(lit(ZERO)) {
            Err(BetaError::BNotPositive(b))
        } else {
            let objective = |a: F64| -> (v: F64)
                ensures
                    v == deviation(m, p, q, x, a, b),
                { deviation(m, p, q, x, a, b) };
            let answer = search_monotone(
                lit(ZERO),
                lit(0x7E37_E43C_8800_759C /* 1.0e300 */),
                lit(FIVE),
                lit(ZERO),
                lit(0x7E37_E43C_8800_759C /* 1.0e300 */),
                &objective,
            );
            proof {
                assert(agrees(&objective, |a: F64| deviation(m, p, q, x, a, b)));
            }
            match answer {
                Ok(found) => Ok(found),
                Err(e) => Err(BetaError::Search(e)),
            }
        }
    }
}

/// The second shape parameter that puts the probability `p` below `x`.
pub open spec fn search_b_spec<M: Fn(Elementary) -> F64>(
    m: &M,
    p: F64,
    q: F64,
    x: F64,
    a: F64,
) -> Result<F64, BetaError> {
    match check_pq(p, q) {
        Err(e) => Err(e),
        Ok(_) => {
            if !within(x, lit(ZERO), lit(ONE)) {
                Err(BetaError::XOutOfRange(x))
            } else if !a.is_finite() {
                Err(BetaError::ANotFinite(a))
            } else if a.le(lit(ZERO)) {
                Err(BetaError::ANotPositive(a))
            } else {
                match search_monotone_spec(
                    lit(ZERO),
                    lit(0x7E37_E43C_8800_759C /* 1.0e300 */),
                    lit(FIVE),
                    lit(ZERO),
                    lit(0x7E37_E43C_8800_759C /* 1.0e300 */),
                    |b: F64| deviation(m, p, q, x, a, b),
                ) {
                    Ok(found) => Ok(found),
                    Err(e) => Err(BetaError::Search(e)),
                }
            }
        },
    }
}

impl Beta {
    /// The second shape parameter that puts the probability `p` below `x`.
    pub fn search_b<M: Fn(Elementary) -> F64>(
        m: &M,
        p: F64,
        q: F64,
        x: F64,
        a: F64,
    ) -> (r: Result<F64, BetaError>)
        requires
            lawful(m),
        ensures
            r == search_b_spec(m, p, q, x, a),
    {
        check_pq(p, q)?;
        if !within(x, lit(ZERO), lit(ONE)) {
            Err(BetaError::XOutOfRange(x))
        } else if !a.is_finite() {
            Err(BetaError::ANotFinite(a))
        } else if a.le(lit(ZERO)) {
            Err(BetaError::ANotPositive(a))
        } else {
            let objective = |b: F64| -> (v: F64)
                ensures
                    v == deviation(m, p, q, x, a, b),
                { deviation(m, p, q, x, a, b) };
            let answer = search_monotone(
                lit(ZERO),
                lit(0x7E37_E43C_8800_759C /* 1.0e300 */),
                lit(FIVE),
                lit(ZERO),
                lit(0x7E37_E43C_8800_759C /* 1.0e300 */),
                &objective,
            );
            proof {
                assert(agrees(&objective, |b: F64| deviation(m, p, q, x, a, b)));
            }
            match answer {
                Ok(found) => Ok(found),
                Err(e) => Err(BetaError::Search(e)),
            }
        }
    }
}

/// The first shape parameter from `p` alone, by the bracketing solver.
pub open spec fn solve_a_spec<M: Fn(Elementary) -> F64>(
    m: &M,
    p: F64,
    x: F64,
    b: F64,
) -> Result<F64, BetaError> {
    match check_p(p) {
        Err(e) => Err(e),
        Ok(_) => {
            if !within(x, lit(ZERO), lit(ONE)) {
                Err(BetaError::XOutOfRange(x))
            } else if !(b.gt(lit(ZERO)) && b.is_finite()) {
                Err(BetaError::BNotPositive(b))
            } else {
                let q = lit(ONE) - p;
                match solve_monotone_spec(
                    BracketStrategy::Decreasing { small: lit(ZERO),
                        big: lit(0x7E37_E43C_8800_759C /* 1.0e300 */), start: lit(FIVE) },
                    |a: F64| deviation(m, p, q, x, a, b),
                ) {
                    Ok(found) => Ok(found),
                    Err(e) => Err(BetaError::Solver(e)),
                }
            }
        },
    }
}

impl Beta {
    /// The first shape parameter from `p` alone, by the bracketing solver.
    pub fn solve_a<M: Fn(Elementary) -> F64>(
        m: &M,
        p: F64,
        x: F64,
        b: F64,
    ) -> (r: Result<F64, BetaError>)
        requires
            lawful(m),
        ensures
            r == solve_a_spec(m, p, x, b),
    {
        check_p(p)?;
        if !within(x, lit(ZERO), lit(ONE)) {
            Err(BetaError::XOutOfRange(x))
        } else if !(b.gt(lit(ZERO)) && b.is_finite()) {
            Err(BetaError::BNotPositive(b))
        } else {
            let q = lit(ONE) - p;
            let objective = |a: F64| -> (v: F64)
                ensures
                    v == deviation(m, p, q, x, a, b),
                { deviation(m, p, q, x, a, b) };
            let answer = solve_monotone(
                BracketStrategy::Decreasing { small: lit(ZERO),
                    big: lit(0x7E37_E43C_8800_759C /* 1.0e300 */), start: lit(FIVE) },
                &objective,
            );
            proof {
                assert(agrees(&objective, |a: F64| deviation(m, p, q, x, a, b)));
            }
            match answer {
                Ok(found) => Ok(found),
                Err(e) => Err(BetaError::Solver(e)),
            }
        }
    }
}

/// The second shape parameter from `p` alone, by the bracketing solver.
pub open spec fn solve_b_spec<M: Fn(Elementary) -> F64>(
    m: &M,
    p: F64,
    x: F64,
    a: F64,
) -> Result<F64, BetaError> {
    match check_p(p) {
        Err(e) => Err(e),
        Ok(_) => {
            if !within(x, lit(ZERO), lit(ONE)) {
                Err(BetaError::XOutOfRange(x))
            } else if !(a.gt(lit(ZERO)) && a.is_finite()) {
                Err(BetaError::ANotPositive(a))
            } else {
                let q = lit(ONE) - p;
                match solve_monotone_spec(
                    BracketStrategy::Increasing { small: lit(ZERO),
                        big: lit(0x7E37_E43C_8800_759C /* 1.0e300 */), start: lit(FIVE) },
                    |b: F64| deviation(m, p, q, x, a, b),
                ) {
                    Ok(found) => Ok(found),
                    Err(e) => Err(BetaError::Solver(e)),
                }
            }
        },
    }
}

impl Beta {
    /// The second shape parameter from `p` alone, by the bracketing solver.
    pub fn solve_b<M: Fn(Elementary) -> F64>(
        m: &M,
        p: F64,
        x: F64,
        a: F64,
    ) -> (r: Result<F64, BetaError>)
        requires
            lawful(m),
        ensures
            r == solve_b_spec(m, p, x, a),
    {
        check_p(p)?;
        if !within(x, lit(ZERO), lit(ONE)) {
            Err(BetaError::XOutOfRange(x))
        } else if !(a.gt(lit(ZERO)) && a.is_finite()) {
            Err(BetaError::ANotPositive(a))
        } else {
            let q = lit(ONE) - p;
            let objective = |b: F64| -> (v: F64)
                ensures
                    v == deviation(m, p, q, x, a, b),
                { deviation(m, p, q, x, a, b) };
            let answer = solve_monotone(
                BracketStrategy::Increasing { small: lit(ZERO),
                    big: lit(0x7E37_E43C_8800_759C /* 1.0e300 */), start: lit(FIVE) },
                &objective,
            );
            proof {
                assert(agrees(&objective, |b: F64| deviation(m, p, q, x, a, b)));
            }
            match answer {
                Ok(found) => Ok(found),
                Err(e) => Err(BetaError::Solver(e)),
            }
        }
    }
}

pub open spec fn cdf_at_spec<M: Fn(Elementary) -> F64>(m: &M, a: F64, b: F64, x: F64) -> F64 {
    if x.le(lit(ZERO)) {
        lit(ZERO)
    } else if x.ge(lit(ONE)) {
        lit(ONE)
    } else {
        beta_inc_value(m, a, b, x, lit(ONE) - x).0
    }
}

/// The probability of a value of at most `x`.
#[verifier::when_used_as_spec(cdf_at_spec)]
pub fn cdf_at<M: Fn(Elementary) -> F64>(m: &M, a: F64, b: F64, x: F64) -> (r: F64)
    requires
        lawful(m),
    ensures
        r == cdf_at(m, a, b, x),
{
    if x.le(lit(ZERO)) {
        lit(ZERO)
    } else if x.ge(lit(ONE)) {
        lit(ONE)
    } else {
        beta_inc_value(m, a, b, x, lit(ONE) - x).0
    }
}

pub open spec fn ccdf_at_spec<M: Fn(Elementary) -> F64>(m: &M, a: F64, b: F64, x: F64) -> F64 {
    if x.le(lit(ZERO)) {
        lit(ONE)
    } else if x.ge(lit(ONE)) {
        lit(ZERO)
    } else {
        beta_inc_value(m, a, b, x, lit(ONE) - x).1
    }
}

/// The probability of a value above `x`.
#[verifier::when_used_as_spec(ccdf_at_spec)]
pub fn ccdf_at<M: Fn(Elementary) -> F64>(m: &M, a: F64, b: F64, x: F64) -> (r: F64)
    requires
        lawful(m),
    ensures
        r == ccdf_at(m, a, b, x),
{
    if x.le(lit(ZERO)) {
        lit(ONE)
    } else if x.ge(lit(ONE)) {
        lit(ZERO)
    } else {
        beta_inc_value(m, a, b, x, lit(ONE) - x).1
    }
}

pub open spec fn between_spec<M: Fn(Elementary) -> F64>(
    m: &M,
    a: F64,
    b: F64,
    p: F64,
    q: F64,
) -> Result<F64, BetaError> {
    if p.le(q) {
        match search_bounded_zero_spec(
            lit(ZERO),
            lit(ONE),
            |x: F64| beta_inc_value(m, a, b, x, lit(ONE) - x).0 - p,
        ) {
            Ok(found) => Ok(found),
            Err(e) => Err(BetaError::Search(e)),
        }
    } else {
        match search_bounded_zero_spec(
            lit(ZERO),
            lit(ONE),
            |y: F64| beta_inc_value(m, a, b, lit(ONE) - y, y).1 - q,
        ) {
            Ok(found) => Ok(lit(ONE) - found),
            Err(e) => Err(BetaError::Search(e)),
        }
    }
}

/// The value with `p` below and `q` above it, searched for from the side of the
/// smaller probability.
#[verifier::when_used_as_spec(between_spec)]
pub fn between<M: Fn(Elementary) -> F64>(
    m: &M,
    a: F64,
    b: F64,
    p: F64,
    q: F64,
) -> (r: Result<F64, BetaError>)
    requires
        lawful(m),
    ensures
        r == between(m, a, b, p, q),
{
    if p.le(q) {
        let objective = |x: F64| -> (v: F64)
            ensures
                v == beta_inc_value(m, a, b, x, lit(ONE) - x).0 - p,
            { beta_inc_value(m, a, b, x, lit(ONE) - x).0 - p };
        let answer = search_bounded_zero(lit(ZERO), lit(ONE), &objective);
        proof {
            assert(agrees(&objective, |x: F64| beta_inc_value(m, a, b, x, lit(ONE) - x).0 - p));
        }
        match answer {
            Ok(found) => Ok(found),
            Err(e) => Err(BetaError::Search(e)),
        }
    } else {
        let objective = |y: F64| -> (v: F64)
            ensures
                v == beta_inc_value(m, a, b, lit(ONE) - y, y).1 - q,
            { beta_inc_value(m, a, b, lit(ONE) - y, y).1 - q };
        let answer = search_bounded_zero(lit(ZERO), lit(ONE), &objective);
        proof {
            assert(agrees(&objective, |y: F64| beta_inc_value(m, a, b, lit(ONE) - y, y).1 - q));
        }
        match answer {
            Ok(found) => Ok(lit(ONE) - found),
            Err(e) => Err(BetaError::Search(e)),
        }
    }
}

pub open spec fn quantile_spec<M: Fn(Elementary) -> F64>(
    m: &M,
    a: F64,
    b: F64,
    p: F64,
) -> Result<F64, BetaError> {
    match check_p(p) {
        Err(e) => Err(e),
        Ok(_) => {
            if p.equals(lit(ZERO)) {
                Ok(lit(ZERO))
            } else if p.equals(lit(ONE)) {
                Ok(lit(ONE))
            } else {
                between(m, a, b, p, lit(ONE) - p)
            }
        },
    }
}

/// The value with the probability `p` below it.
#[verifier::when_used_as_spec(quantile_spec)]
pub fn quantile<M: Fn(Elementary) -> F64>(
    m: &M,
    a: F64,
    b: F64,
    p: F64,
) -> (r: Result<F64, BetaError>)
    requires
        lawful(m),
    ensures
        r == quantile(m, a, b, p),
{
    check_p(p)?;
    if p.equals(lit(ZERO)) {
        Ok(lit(ZERO))
    } else if p.equals(lit(ONE)) {
        Ok(lit(ONE))
    } else {
        between(m, a, b, p, lit(ONE) - p)
    }
}

pub open spec fn upper_quantile_spec<M: Fn(Elementary) -> F64>(
    m: &M,
    a: F64,
    b: F64,
    q: F64,
) -> Result<F64, BetaError> {
    match check_q(q) {
        Err(e) => Err(e),
        Ok(_) => {
            if q.equals(lit(ONE)) {
                Ok(lit(ZERO))
            } else if q.equals(lit(ZERO)) {
                Ok(lit(ONE))
            } else {
                between(m, a, b, lit(ONE) - q, q)
            }
        },
    }
}

/// The value with the probability `q` above it.
#[verifier::when_used_as_spec(upper_quantile_spec)]
pub fn upper_quantile<M: Fn(Elementary) -> F64>(
    m: &M,
    a: F64,
    b: F64,
    q: F64,
) -> (r: Result<F64, BetaError>)
    requires
        lawful(m),
    ensures
        r == upper_quantile(m, a, b, q),
{
    check_q(q)?;
    if q.equals(lit(ONE)) {
        Ok(lit(ZERO))
    } else if q.equals(lit(ZERO)) {
        Ok(lit(ONE))
    } else {
        between(m, a, b, lit(ONE) - q, q)
    }
}

pub open spec fn ln_density_spec<M: Fn(Elementary) -> F64>(m: &M, a: F64, b: F64, x: F64) -> F64 {
    if x.le(lit(ZERO)) || x.ge(lit(ONE)) {
        lit(NEG_INFINITY)
    } else {
        (a - lit(ONE)) * ln(m, x) + (b - lit(ONE)) * ln(m, lit(ONE) - x) - beta_log(m, a, b)
    }
}

/// The logarithm of the density.
#[verifier::when_used_as_spec(ln_density_spec)]
pub fn ln_density<M: Fn(Elementary) -> F64>(m: &M, a: F64, b: F64, x: F64) -> (r: F64)
    requires
        lawful(m),
    ensures
        r == ln_density(m, a, b, x),
{
    if x.le(lit(ZERO)) || x.ge(lit(ONE)) {
        lit(NEG_INFINITY)
    } else {
        (a - lit(ONE)) * ln(m, x) + (b - lit(ONE)) * ln(m, lit(ONE) - x) - beta_log(m, a, b)
    }
}

pub open spec fn density_spec<M: Fn(Elementary) -> F64>(m: &M, a: F64, b: F64, x: F64) -> F64 {
    if x.le(lit(ZERO)) || x.ge(lit(ONE)) {
        lit(ZERO)
    } else {
        exp(m, ln_density(m, a, b, x))
    }
}

/// The density.
#[verifier::when_used_as_spec(density_spec)]
pub fn density<M: Fn(Elementary) -> F64>(m: &M, a: F64, b: F64, x: F64) -> (r: F64)
    requires
        lawful(m),
    ensures
        r == density(m, a, b, x),
{
    if x.le(lit(ZERO)) || x.ge(lit(ONE)) {
        lit(ZERO)
    } else {
        exp(m, ln_density(m, a, b, x))
    }
}

pub open spec fn mean_of_spec(a: F64, b: F64) -> F64 {
    a / (a + b)
}

/// The mean.
#[verifier::when_used_as_spec(mean_of_spec)]
pub fn mean_of(a: F64, b: F64) -> (r: F64)
    ensures
        r == mean_of(a, b),
{
    a / (a + b)
}

pub open spec fn variance_of_spec(a: F64, b: F64) -> F64 {
    let s = a + b;
    a * b / (s * s * (s + lit(ONE)))
}

/// The variance.
#[verifier::when_used_as_spec(variance_of_spec)]
pub fn variance_of(a: F64, b: F64) -> (r: F64)
    ensures
        r == variance_of(a, b),
{
    let s = a + b;
    a * b / (s * s * (s + lit(ONE)))
}

pub open spec fn entropy_of_spec<M: Fn(Elementary) -> F64>(m: &M, a: F64, b: F64) -> F64 {
    beta_log(m, a, b) - (a - lit(ONE)) * psi_value(m, a) - (b - lit(ONE)) * psi_value(m, b)
        + (a + b - lit(TWO)) * psi_value(m, a + b)
}

/// The entropy.
#[verifier::when_used_as_spec(entropy_of_spec)]
pub fn entropy_of<M: Fn(Elementary) -> F64>(m: &M, a: F64, b: F64) -> (r: F64)
    requires
        lawful(m),
    ensures
        r == entropy_of(m, a, b),
{
    beta_log(m, a, b) - (a - lit(ONE)) * psi_value(m, a) - (b - lit(ONE)) * psi_value(m, b)
        + (a + b - lit(TWO)) * psi_value(m, a + b)
}

impl<M: Fn(Elementary) -> F64> ContinuousCdf<M> for Beta {
    type Error = BetaError;

    open spec fn cdf_spec(&self, m: &M, x: F64) -> F64 {
        cdf_at(m, self.a, self.b, x)
    }

    fn cdf(&self, m: &M, x: F64) -> (r: F64) {
        cdf_at(m, self.a, self.b, x)
    }

    open spec fn ccdf_spec(&self, m: &M, x: F64) -> F64 {
        ccdf_at(m, self.a, self.b, x)
    }

    fn ccdf(&self, m: &M, x: F64) -> (r: F64) {
        ccdf_at(m, self.a, self.b, x)
    }

    open spec fn inverse_cdf_spec(&self, m: &M, p: F64) -> Result<F64, BetaError> {
        quantile(m, self.a, self.b, p)
    }

    fn inverse_cdf(&self, m: &M, p: F64) -> (r: Result<F64, BetaError>) {
        quantile(m, self.a, self.b, p)
    }

    fn sf(&self, m: &M, x: F64) -> (r: F64) {
        ccdf_at(m, self.a, self.b, x)
    }
}

impl<M: Fn(Elementary) -> F64> Continuous<M> for Beta {
    open spec fn pdf_spec(&self, m: &M, x: F64) -> F64 {
        density(m, self.a, self.b, x)
    }

    fn pdf(&self, m: &M, x: F64) -> (r: F64) {
        density(m, self.a, self.b, x)
    }

    open spec fn ln_pdf_spec(&self, m: &M, x: F64) -> F64 {
        ln_density(m, self.a, self.b, x)
    }

    fn ln_pdf(&self, m: &M, x: F64) -> (r: F64) {
        ln_density(m, self.a, self.b, x)
    }
}

impl Mean for Beta {
    open spec fn mean_spec(&self) -> F64 {
        mean_of(self.a, self.b)
    }

    fn mean(&self) -> (r: F64) {
        mean_of(self.a, self.b)
    }
}

impl Variance for Beta {
    open spec fn variance_spec(&self) -> F64 {
        variance_of(self.a, self.b)
    }

    fn variance(&self) -> (r: F64) {
        variance_of(self.a, self.b)
    }

    fn std_dev(&self) -> (r: F64) {
        variance_of(self.a, self.b).sqrt()
    }
}

impl<M: Fn(Elementary) -> F64> Entropy<M> for Beta {
    open spec fn entropy_spec(&self, m: &M) -> F64 {
        entropy_of(m, self.a, self.b)
    }

    fn entropy(&self, m: &M) -> (r: F64) {
        entropy_of(m, self.a, self.b)
    }
}

impl Beta {
    /// The value with the probability `q` above it.
    pub fn inverse_ccdf<M: Fn(Elementary) -> F64>(&self, m: &M, q: F64) -> (r: Result<F64, BetaError>)
        requires
            lawful(m),
        ensures
            r == upper_quantile(m, self.a, self.b, q),
    {
        upper_quantile(m, self.a, self.b, q)
    }
}

impl Beta {
    /// The value with the probability `q` above it.
    pub fn inverse_sf<M: Fn(Elementary) -> F64>(&self, m: &M, q: F64) -> (r: Result<F64, BetaError>)
        requires
            lawful(m),
        ensures
            r == upper_quantile(m, self.a, self.b, q),
    {
        upper_quantile(m, self.a, self.b, q)
    }
}

} // verus!
