//! The Poisson distribution.
use crate::consts::{EPSILON, FIVE, NEG_INFINITY, ONE, TEN, THREE, ZERO};
use crate::error::{SearchError, SolverError};
use crate::float::number::{lemma_le_units, lemma_lt_units, lemma_order};
use crate::search::drive::{search_monotone, search_monotone_spec};
use crate::solver::bracket::{solve_monotone, solve_monotone_spec, BracketStrategy};
use crate::special::gamma::gamma_log;
use crate::special::gamma_inc::gamma_inc_value;
use super::common::pivot;
use super::counts::{before, decides, grow, grow_spec, least, least_spec};
use crate::float::{lit, F64};
use crate::functions::{agrees, exp, lawful, ln, Elementary};
use crate::special::poly::within;
use crate::traits::{Discrete, DiscreteCdf, Mean, Variance};
use vstd::prelude::*;

verus! {

/// A Poisson distribution, by its mean.
#[derive(Clone, Copy, Debug, PartialEq, Eq, Structural)]
pub struct Poisson {
    pub lambda: F64,
}

/// What is wrong with the arguments, or why a search gave nothing.
#[derive(Clone, Copy, Debug, PartialEq, Eq, Structural)]
pub enum PoissonError {
    LambdaNegative(F64),
    LambdaNotFinite(F64),
    PNotInRange(F64),
    QNotInRange(F64),
    PQSumNotOne { p: F64, q: F64 },
    Search(SearchError),
    Solver(SolverError),
}

impl Poisson {
    /// The parameters are such as the distribution can have.
    pub open spec fn valid(self) -> bool {
        self.lambda.is_finite() && self.lambda.ge(lit(ZERO))
    }
}

/// The distribution with the given parameters, where it can have them.
pub open spec fn try_new_spec(lambda: F64) -> Result<Poisson, PoissonError> {
    if !lambda.is_finite() {
        Err(PoissonError::LambdaNotFinite(lambda))
    } else if lambda.lt(lit(ZERO)) {
        Err(PoissonError::LambdaNegative(lambda))
    } else {
        Ok(Poisson { lambda })
    }
}

impl Poisson {
    /// The distribution with the given parameters, where it can have them.
    pub fn try_new(lambda: F64) -> (r: Result<Poisson, PoissonError>)
        ensures
            r == try_new_spec(lambda),
    {
        if !lambda.is_finite() {
            Err(PoissonError::LambdaNotFinite(lambda))
        } else if lambda.lt(lit(ZERO)) {
            Err(PoissonError::LambdaNegative(lambda))
        } else {
            Ok(Poisson { lambda })
        }
    }
}

impl Poisson {
    /// The distribution with the given parameters.
    pub fn new(lambda: F64) -> (r: Poisson)
        requires
            try_new_spec(lambda) is Ok,
        ensures
            try_new_spec(lambda) == Ok::<Poisson, PoissonError>(r),
    {
        proof {
            lemma_new_valid(lambda);
        }
        Poisson { lambda }
    }

    /// The parameter `lambda`.
    pub fn lambda(&self) -> (r: F64)
        ensures
            r == self.lambda,
    {
        self.lambda
    }
}

/// The constructor succeeds exactly on valid parameters, and keeps them.
pub proof fn lemma_new_valid(lambda: F64)
    ensures
        try_new_spec(lambda) is Ok <==> (Poisson { lambda }).valid(),
        try_new_spec(lambda) matches Ok(d) ==> d == (Poisson { lambda }),
{
    broadcast use lemma_lt_units;
    broadcast use lemma_le_units;
    lemma_order(0, ONE as int);
}

pub open spec fn check_p_spec(p: F64) -> Result<(), PoissonError> {
    if !within(p, lit(ZERO), lit(ONE)) || !p.is_finite() {
        Err(PoissonError::PNotInRange(p))
    } else {
        Ok(())
    }
}

/// `p` is a probability.
#[verifier::when_used_as_spec(check_p_spec)]
pub fn check_p(p: F64) -> (r: Result<(), PoissonError>)
    ensures
        r == check_p(p),
{
    if !within(p, lit(ZERO), lit(ONE)) || !p.is_finite() {
        Err(PoissonError::PNotInRange(p))
    } else {
        Ok(())
    }
}

pub open spec fn check_q_spec(q: F64) -> Result<(), PoissonError> {
    if !within(q, lit(ZERO), lit(ONE)) || !q.is_finite() {
        Err(PoissonError::QNotInRange(q))
    } else {
        Ok(())
    }
}

/// `q` is a probability.
#[verifier::when_used_as_spec(check_q_spec)]
pub fn check_q(q: F64) -> (r: Result<(), PoissonError>)
    ensures
        r == check_q(q),
{
    if !within(q, lit(ZERO), lit(ONE)) || !q.is_finite() {
        Err(PoissonError::QNotInRange(q))
    } else {
        Ok(())
    }
}

pub open spec fn check_pq_spec(p: F64, q: F64) -> Result<(), PoissonError> {
    match check_p(p) {
        Err(e) => Err(e),
        Ok(_) => {
            match check_q(q) {
                Err(e) => Err(e),
                Ok(_) => {
                    if (p + q - lit(ONE)).abs().gt(lit(THREE) * lit(EPSILON)) {
                        Err(PoissonError::PQSumNotOne { p, q })
                    } else {
                        Ok(())
                    }
                },
            }
        },
    }
}

/// `p` and `q` are probabilities that add up to one.
#[verifier::when_used_as_spec(check_pq_spec)]
pub fn check_pq(p: F64, q: F64) -> (r: Result<(), PoissonError>)
    ensures
        r == check_pq(p, q),
{
    check_p(p)?;
    check_q(q)?;
    if (p + q - lit(ONE)).abs().gt(lit(THREE) * lit(EPSILON)) {
        Err(PoissonError::PQSumNotOne { p, q })
    } else {
        Ok(())
    }
}

pub open spec fn deviation_spec<M: Fn(Elementary) -> F64>(
    m: &M,
    p: F64,
    q: F64,
    sf: F64,
    lambda: F64,
) -> F64 {
    let (above, below) = gamma_inc_value(m, sf + lit(ONE), lambda);
    pivot(p, q, below, above)
}

/// How far the distribution function at `sf` is from `p`, or its complement from `q`.
#[verifier::when_used_as_spec(deviation_spec)]
pub fn deviation<M: Fn(Elementary) -> F64>(m: &M, p: F64, q: F64, sf: F64, lambda: F64) -> (r: F64)
    requires
        lawful(m),
    ensures
        r == deviation(m, p, q, sf, lambda),
{
    let (above, below) = gamma_inc_value(m, sf + lit(ONE), lambda);
    pivot(p, q, below, above)
}

/// The mean that puts the probability `p` on at most `s`.
pub open spec fn search_lambda_spec<M: Fn(Elementary) -> F64>(
    m: &M,
    p: F64,
    q: F64,
    s: u64,
) -> Result<F64, PoissonError> {
    match check_pq(p, q) {
        Err(e) => Err(e),
        Ok(_) => {
            let sf = F64::from_u64(s);
            match search_monotone_spec(
                lit(ZERO),
                lit(0x7E37_E43C_8800_759C /* 1.0e300 */),
                lit(FIVE),
                lit(ZERO),
                lit(0x7E37_E43C_8800_759C /* 1.0e300 */),
                |lambda: F64| deviation(m, p, q, sf, lambda),
            ) {
                Ok(found) => Ok(found),
                Err(e) => Err(PoissonError::Search(e)),
            }
        },
    }
}

impl Poisson {
    /// The mean that puts the probability `p` on at most `s`.
    pub fn search_lambda<M: Fn(Elementary) -> F64>(
        m: &M,
        p: F64,
        q: F64,
        s: u64,
    ) -> (r: Result<F64, PoissonError>)
        requires
            lawful(m),
        ensures
            r == search_lambda_spec(m, p, q, s),
    {
        check_pq(p, q)?;
        let sf = F64::from_u64(s);
        let objective = |lambda: F64| -> (v: F64)
            ensures
                v == deviation(m, p, q, sf, lambda),
            { deviation(m, p, q, sf, lambda) };
        let answer = search_monotone(
            lit(ZERO),
            lit(0x7E37_E43C_8800_759C /* 1.0e300 */),
            lit(FIVE),
            lit(ZERO),
            lit(0x7E37_E43C_8800_759C /* 1.0e300 */),
            &objective,
        );
        proof {
            assert(agrees(&objective, |lambda: F64| deviation(m, p, q, sf, lambda)));
        }
        match answer {
            Ok(found) => Ok(found),
            Err(e) => Err(PoissonError::Search(e)),
        }
    }
}

/// The mean from `p` alone, by the bracketing solver.
pub open spec fn solve_lambda_spec<M: Fn(Elementary) -> F64>(
    m: &M,
    p: F64,
    s: u64,
) -> Result<F64, PoissonError> {
    match check_p(p) {
        Err(e) => Err(e),
        Ok(_) => {
            let sf = F64::from_u64(s);
            match solve_monotone_spec(
                BracketStrategy::Decreasing { small: lit(ZERO),
                    big: lit(0x7E37_E43C_8800_759C /* 1.0e300 */), start: lit(FIVE) },
                |lambda: F64| gamma_inc_value(m, sf + lit(ONE), lambda).1 - p,
            ) {
                Ok(found) => Ok(found),
                Err(e) => Err(PoissonError::Solver(e)),
            }
        },
    }
}

impl Poisson {
    /// The mean from `p` alone, by the bracketing solver.
    pub fn solve_lambda<M: Fn(Elementary) -> F64>(
        m: &M,
        p: F64,
        s: u64,
    ) -> (r: Result<F64, PoissonError>)
        requires
            lawful(m),
        ensures
            r == solve_lambda_spec(m, p, s),
    {
        check_p(p)?;
        let sf = F64::from_u64(s);
        let objective = |lambda: F64| -> (v: F64)
            ensures
                v == gamma_inc_value(m, sf + lit(ONE), lambda).1 - p,
            { gamma_inc_value(m, sf + lit(ONE), lambda).1 - p };
        let answer = solve_monotone(
            BracketStrategy::Decreasing { small: lit(ZERO),
                big: lit(0x7E37_E43C_8800_759C /* 1.0e300 */), start: lit(FIVE) },
            &objective,
        );
        proof {
            assert(agrees(&objective, |lambda: F64| gamma_inc_value(m, sf + lit(ONE), lambda).1
                - p));
        }
        match answer {
            Ok(found) => Ok(found),
            Err(e) => Err(PoissonError::Solver(e)),
        }
    }
}

pub open spec fn cdf_at_spec<M: Fn(Elementary) -> F64>(m: &M, lambda: F64, s: u64) -> F64 {
    gamma_inc_value(m, F64::from_u64(s) + lit(ONE), lambda).1
}

/// The probability of at most `s`.
#[verifier::when_used_as_spec(cdf_at_spec)]
pub fn cdf_at<M: Fn(Elementary) -> F64>(m: &M, lambda: F64, s: u64) -> (r: F64)
    requires
        lawful(m),
    ensures
        r == cdf_at(m, lambda, s),
{
    gamma_inc_value(m, F64::from_u64(s) + lit(ONE), lambda).1
}

pub open spec fn ccdf_at_spec<M: Fn(Elementary) -> F64>(m: &M, lambda: F64, s: u64) -> F64 {
    gamma_inc_value(m, F64::from_u64(s) + lit(ONE), lambda).0
}

/// The probability of more than `s`.
#[verifier::when_used_as_spec(ccdf_at_spec)]
pub fn ccdf_at<M: Fn(Elementary) -> F64>(m: &M, lambda: F64, s: u64) -> (r: F64)
    requires
        lawful(m),
    ensures
        r == ccdf_at(m, lambda, s),
{
    gamma_inc_value(m, F64::from_u64(s) + lit(ONE), lambda).0
}

pub open spec fn upper_quantile_spec<M: Fn(Elementary) -> F64>(
    m: &M,
    lambda: F64,
    q: F64,
) -> Result<F64, PoissonError> {
    match check_q(q) {
        Err(e) => Err(e),
        Ok(_) => {
            let p = lit(ONE) - q;
            match search_monotone_spec(
                lit(ZERO),
                lit(0x7E37_E43C_8800_759C /* 1.0e300 */),
                lit(FIVE),
                lit(ZERO),
                lit(0x7E37_E43C_8800_759C /* 1.0e300 */),
                |s: F64| deviation(m, p, q, s, lambda),
            ) {
                Ok(found) => Ok(found),
                Err(e) => Err(PoissonError::Search(e)),
            }
        },
    }
}

/// The number, on the continuous scale, with the probability `q` above it.
#[verifier::when_used_as_spec(upper_quantile_spec)]
pub fn upper_quantile<M: Fn(Elementary) -> F64>(
    m: &M,
    lambda: F64,
    q: F64,
) -> (r: Result<F64, PoissonError>)
    requires
        lawful(m),
    ensures
        r == upper_quantile(m, lambda, q),
{
    check_q(q)?;
    let p = lit(ONE) - q;
    let objective = |s: F64| -> (v: F64)
        ensures
            v == deviation(m, p, q, s, lambda),
        { deviation(m, p, q, s, lambda) };
    let answer = search_monotone(
        lit(ZERO),
        lit(0x7E37_E43C_8800_759C /* 1.0e300 */),
        lit(FIVE),
        lit(ZERO),
        lit(0x7E37_E43C_8800_759C /* 1.0e300 */),
        &objective,
    );
    proof {
        assert(agrees(&objective, |s: F64| deviation(m, p, q, s, lambda)));
    }
    match answer {
        Ok(found) => Ok(found),
        Err(e) => Err(PoissonError::Search(e)),
    }
}

pub open spec fn ln_mass_spec<M: Fn(Elementary) -> F64>(m: &M, lambda: F64, s: u64) -> F64 {
    if lambda.equals(lit(ZERO)) {
        if s == 0 {
            lit(ZERO)
        } else {
            lit(NEG_INFINITY)
        }
    } else {
        let sf = F64::from_u64(s);
        sf * ln(m, lambda) - lambda - gamma_log(m, sf + lit(ONE))
    }
}

/// The logarithm of the probability of `s`. A mean of zero puts everything on zero.
#[verifier::when_used_as_spec(ln_mass_spec)]
pub fn ln_mass<M: Fn(Elementary) -> F64>(m: &M, lambda: F64, s: u64) -> (r: F64)
    requires
        lawful(m),
    ensures
        r == ln_mass(m, lambda, s),
{
    if lambda.equals(lit(ZERO)) {
        if s == 0 {
            lit(ZERO)
        } else {
            lit(NEG_INFINITY)
        }
    } else {
        let sf = F64::from_u64(s);
        sf * ln(m, lambda) - lambda - gamma_log(m, sf + lit(ONE))
    }
}

pub open spec fn mass_spec<M: Fn(Elementary) -> F64>(m: &M, lambda: F64, s: u64) -> F64 {
    exp(m, ln_mass(m, lambda, s))
}

/// The probability of `s`.
#[verifier::when_used_as_spec(mass_spec)]
pub fn mass<M: Fn(Elementary) -> F64>(m: &M, lambda: F64, s: u64) -> (r: F64)
    requires
        lawful(m),
    ensures
        r == mass(m, lambda, s),
{
    exp(m, ln_mass(m, lambda, s))
}

pub open spec fn mean_of_spec(lambda: F64) -> F64 {
    lambda
}

/// The mean.
#[verifier::when_used_as_spec(mean_of_spec)]
pub fn mean_of(lambda: F64) -> (r: F64)
    ensures
        r == mean_of(lambda),
{
    lambda
}

pub open spec fn variance_of_spec(lambda: F64) -> F64 {
    lambda
}

/// The variance.
#[verifier::when_used_as_spec(variance_of_spec)]
pub fn variance_of(lambda: F64) -> (r: F64)
    ensures
        r == variance_of(lambda),
{
    lambda
}

pub open spec fn far_count_spec(lambda: F64) -> u64 {
    (lambda + lit(TEN) * lambda.sqrt() + lit(TEN)).ceil().to_u64()
}

/// A count ten standard deviations above the mean, and ten.
#[verifier::when_used_as_spec(far_count_spec)]
pub fn far_count(lambda: F64) -> (r: u64)
    ensures
        r == far_count(lambda),
{
    (lambda + lit(TEN) * lambda.sqrt() + lit(TEN)).ceil().to_u64()
}

/// The smallest count whose probability, with those below it, reaches `p`.
pub open spec fn quantile_spec<M: Fn(Elementary) -> F64>(m: &M, lambda: F64, p: F64) -> Result<
    u64,
    PoissonError,
> {
    match check_p(p) {
        Err(e) => Err(e),
        Ok(_) => {
            let short = |s: u64| cdf_at(m, lambda, s).lt(p);
            if p.equals(lit(ZERO)) {
                Ok(0)
            } else if p.equals(lit(ONE)) {
                Ok(u64::MAX)
            } else {
                let hi = grow_spec(short, far_count(lambda));
                if short(hi) {
                    Ok(u64::MAX)
                } else {
                    Ok(least_spec(short, 0, hi))
                }
            }
        },
    }
}

/// The smallest count whose probability, with those below it, reaches `p`.
#[verifier::when_used_as_spec(quantile_spec)]
pub fn quantile<M: Fn(Elementary) -> F64>(m: &M, lambda: F64, p: F64) -> (result: Result<u64, PoissonError>)
    requires
        lawful(m),
    ensures
        result == quantile(m, lambda, p),
{
    check_p(p)?;
    if p.equals(lit(ZERO)) {
        return Ok(0);
    }
    if p.equals(lit(ONE)) {
        return Ok(u64::MAX);
    }
    let below = |s: u64| -> (b: bool)
        ensures
            b == cdf_at(m, lambda, s).lt(p),
        { cdf_at(m, lambda, s).lt(p) };
    let ghost short = |s: u64| cdf_at(m, lambda, s).lt(p);
    proof {
        assert(decides(&below, short));
    }
    let hi: u64 = grow(&below, far_count(lambda));
    if below(hi) {
        return Ok(u64::MAX);
    }
    Ok(least(&below, 0, hi))
}

impl<M: Fn(Elementary) -> F64> DiscreteCdf<M> for Poisson {
    type Error = PoissonError;

    open spec fn cdf_spec(&self, m: &M, s: u64) -> F64 {
        cdf_at(m, self.lambda, s)
    }

    fn cdf(&self, m: &M, s: u64) -> (r: F64) {
        cdf_at(m, self.lambda, s)
    }

    open spec fn ccdf_spec(&self, m: &M, s: u64) -> F64 {
        ccdf_at(m, self.lambda, s)
    }

    fn ccdf(&self, m: &M, s: u64) -> (r: F64) {
        ccdf_at(m, self.lambda, s)
    }

    open spec fn inverse_cdf_spec(&self, m: &M, p: F64) -> Result<u64, PoissonError> {
        quantile(m, self.lambda, p)
    }

    fn inverse_cdf(&self, m: &M, p: F64) -> (r: Result<u64, PoissonError>) {
        quantile(m, self.lambda, p)
    }

    fn sf(&self, m: &M, s: u64) -> (r: F64) {
        ccdf_at(m, self.lambda, s)
    }
}

impl<M: Fn(Elementary) -> F64> Discrete<M> for Poisson {
    open spec fn pmf_spec(&self, m: &M, s: u64) -> F64 {
        mass(m, self.lambda, s)
    }

    fn pmf(&self, m: &M, s: u64) -> (r: F64) {
        mass(m, self.lambda, s)
    }

    open spec fn ln_pmf_spec(&self, m: &M, s: u64) -> F64 {
        ln_mass(m, self.lambda, s)
    }

    fn ln_pmf(&self, m: &M, s: u64) -> (r: F64) {
        ln_mass(m, self.lambda, s)
    }
}

impl Mean for Poisson {
    open spec fn mean_spec(&self) -> F64 {
        mean_of(self.lambda)
    }

    fn mean(&self) -> (r: F64) {
        mean_of(self.lambda)
    }
}

impl Variance for Poisson {
    open spec fn variance_spec(&self) -> F64 {
        variance_of(self.lambda)
    }

    fn variance(&self) -> (r: F64) {
        variance_of(self.lambda)
    }

    fn std_dev(&self) -> (r: F64) {
        variance_of(self.lambda).sqrt()
    }
}

/// The largest count with at least the probability `q` above it, or zero where there is
/// none.
pub open spec fn upper_count_spec<M: Fn(Elementary) -> F64>(
    m: &M,
    lambda: F64,
    q: F64,
) -> Result<u64, PoissonError> {
    match check_q(q) {
        Err(e) => Err(e),
        Ok(_) => {
            let full = |s: u64| ccdf_at(m, lambda, s).ge(q);
            if q.equals(lit(ZERO)) {
                Ok(u64::MAX)
            } else if q.equals(lit(ONE)) {
                Ok(0)
            } else {
                let hi = grow_spec(full, far_count(lambda));
                if full(hi) {
                    Ok(u64::MAX)
                } else {
                    Ok(before(least_spec(full, 0, hi)))
                }
            }
        },
    }
}

/// The largest count with at least the probability `q` above it, or zero where there is
/// none.
#[verifier::when_used_as_spec(upper_count_spec)]
pub fn upper_count<M: Fn(Elementary) -> F64>(
    m: &M,
    lambda: F64,
    q: F64,
) -> (r: Result<u64, PoissonError>)
    requires
        lawful(m),
    ensures
        r == upper_count(m, lambda, q),
{
    check_q(q)?;
    if q.equals(lit(ZERO)) {
        return Ok(u64::MAX);
    }
    if q.equals(lit(ONE)) {
        return Ok(0);
    }
    let reaches = |s: u64| -> (b: bool)
        ensures
            b == ccdf_at(m, lambda, s).ge(q),
        { ccdf_at(m, lambda, s).ge(q) };
    let ghost full = |s: u64| ccdf_at(m, lambda, s).ge(q);
    proof {
        assert(decides(&reaches, full));
    }
    let hi: u64 = grow(&reaches, far_count(lambda));
    if reaches(hi) {
        return Ok(u64::MAX);
    }
    Ok(before(least(&reaches, 0, hi)))
}

impl Poisson {
    /// The largest count with at least the probability `q` above it, or zero where there
    /// is none.
    pub fn inverse_sf<M: Fn(Elementary) -> F64>(&self, m: &M, q: F64) -> (r: Result<u64, PoissonError>)
        requires
            lawful(m),
        ensures
            r == upper_count(m, self.lambda, q),
    {
        upper_count(m, self.lambda, q)
    }
}

impl Poisson {
    /// The number, on the continuous scale, with the probability `q` above it.
    pub fn inverse_ccdf<M: Fn(Elementary) -> F64>(&self, m: &M, q: F64) -> (r: Result<F64, PoissonError>)
        requires
            lawful(m),
        ensures
            r == upper_quantile(m, self.lambda, q),
    {
        upper_quantile(m, self.lambda, q)
    }
}

} // verus!
