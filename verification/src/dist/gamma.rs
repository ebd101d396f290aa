//! The gamma distribution, by shape and rate.
use crate::consts::{EPSILON, FIVE, INFINITY, NEG_INFINITY, ONE, THREE, ZERO};
use crate::error::{SolverError};
use crate::float::number::{lemma_le_units, lemma_lt_units, lemma_order};
use crate::solver::bracket::{solve_monotone, solve_monotone_spec, BracketStrategy};
use crate::special::gamma::{gamma_log, psi_value};
use crate::special::gamma_inc::gamma_inc_value;
use crate::special::gamma_inv::{try_gamma_inc_inv, GammaIncInvError};
use super::common::pivot;
use crate::float::{lit, F64};
use crate::functions::{agrees, exp, lawful, ln, Elementary};
use crate::special::poly::within;
use crate::traits::{Continuous, ContinuousCdf, Entropy, Mean, Variance};
use vstd::prelude::*;

verus! {

/// A gamma distribution, by its shape and its rate: its mean is `shape / rate`.
#[derive(Clone, Copy, Debug, PartialEq, Eq, Structural)]
pub struct Gamma {
    pub shape: F64,
    pub rate: F64,
}

/// What is wrong with the arguments, or why a search gave nothing.
#[derive(Clone, Copy, Debug, PartialEq, Eq, Structural)]
pub enum GammaError {
    ShapeNotPositive(F64),
    RateNotPositive(F64),
    ShapeNotFinite(F64),
    RateNotFinite(F64),
    XNotPositive(F64),
    XNotFinite(F64),
    ProbabilityOutOfRange(F64),
    ProbabilityPairInconsistent { p: F64, q: F64 },
    Solver(SolverError),
    IncompleteGammaInverse(GammaIncInvError),
}

impl Gamma {
    /// The parameters are such as the distribution can have.
    pub open spec fn valid(self) -> bool {
        self.shape.is_finite() && self.rate.is_finite() && self.shape.gt(lit(ZERO)) && self.rate.gt(lit(ZERO))
    }
}

/// The distribution with the given parameters, where it can have them.
pub open spec fn try_new_spec(shape: F64, rate: F64) -> Result<Gamma, GammaError> {
    if !shape.is_finite() {
        Err(GammaError::ShapeNotFinite(shape))
    } else if !rate.is_finite() {
        Err(GammaError::RateNotFinite(rate))
    } else if shape.le(lit(ZERO)) {
        Err(GammaError::ShapeNotPositive(shape))
    } else if rate.le(lit(ZERO)) {
        Err(GammaError::RateNotPositive(rate))
    } else {
        Ok(Gamma { shape, rate })
    }
}

impl Gamma {
    /// The distribution with the given parameters, where it can have them.
    pub fn try_new(shape: F64, rate: F64) -> (r: Result<Gamma, GammaError>)
        ensures
            r == try_new_spec(shape, rate),
    {
        if !shape.is_finite() {
            Err(GammaError::ShapeNotFinite(shape))
        } else if !rate.is_finite() {
            Err(GammaError::RateNotFinite(rate))
        } else if shape.le(lit(ZERO)) {
            Err(GammaError::ShapeNotPositive(shape))
        } else if rate.le(lit(ZERO)) {
            Err(GammaError::RateNotPositive(rate))
        } else {
            Ok(Gamma { shape, rate })
        }
    }
}

impl Gamma {
    /// The distribution with the given parameters.
    pub fn new(shape: F64, rate: F64) -> (r: Gamma)
        requires
            try_new_spec(shape, rate) is Ok,
        ensures
            try_new_spec(shape, rate) == Ok::<Gamma, GammaError>(r),
    {
        proof {
            lemma_new_valid(shape, rate);
        }
        Gamma { shape, rate }
    }

    /// The parameter `shape`.
    pub fn shape(&self) -> (r: F64)
        ensures
            r == self.shape,
    {
        self.shape
    }

    /// The parameter `rate`.
    pub fn rate(&self) -> (r: F64)
        ensures
            r == self.rate,
    {
        self.rate
    }
}

/// The constructor succeeds exactly on valid parameters, and keeps them.
pub proof fn lemma_new_valid(shape: F64, rate: F64)
    ensures
        try_new_spec(shape, rate) is Ok <==> (Gamma { shape, rate }).valid(),
        try_new_spec(shape, rate) matches Ok(d) ==> d == (Gamma { shape, rate }),
{
    broadcast use lemma_lt_units;
    broadcast use lemma_le_units;
    lemma_order(0, ONE as int);
}

pub open spec fn check_p_spec(p: F64) -> Result<(), GammaError> {
    if !within(p, lit(ZERO), lit(ONE)) || !p.is_finite() {
        Err(GammaError::ProbabilityOutOfRange(p))
    } else {
        Ok(())
    }
}

/// `p` is a probability.
#[verifier::when_used_as_spec(check_p_spec)]
pub fn check_p(p: F64) -> (r: Result<(), GammaError>)
    ensures
        r == check_p(p),
{
    if !within(p, lit(ZERO), lit(ONE)) || !p.is_finite() {
        Err(GammaError::ProbabilityOutOfRange(p))
    } else {
        Ok(())
    }
}

pub open spec fn check_q_spec(q: F64) -> Result<(), GammaError> {
    if !within(q, lit(ZERO), lit(ONE)) || !q.is_finite() {
        Err(GammaError::ProbabilityOutOfRange(q))
    } else {
        Ok(())
    }
}

/// `q` is a probability.
#[verifier::when_used_as_spec(check_q_spec)]
pub fn check_q(q: F64) -> (r: Result<(), GammaError>)
    ensures
        r == check_q(q),
{
    if !within(q, lit(ZERO), lit(ONE)) || !q.is_finite() {
        Err(GammaError::ProbabilityOutOfRange(q))
    } else {
        Ok(())
    }
}

pub open spec fn check_pq_spec(p: F64, q: F64) -> Result<(), GammaError> {
    match check_p(p) {
        Err(e) => Err(e),
        Ok(_) => {
            match check_q(q) {
                Err(e) => Err(e),
                Ok(_) => {
                    if (p + q - lit(ONE)).abs().gt(lit(THREE) * lit(EPSILON)) {
                        Err(GammaError::ProbabilityPairInconsistent { p, q })
                    } else {
                        Ok(())
                    }
                },
            }
        },
    }
}

/// `p` and `q` are probabilities that add up to one.
#[verifier::when_used_as_spec(check_pq_spec)]
pub fn check_pq(p: F64, q: F64) -> (r: Result<(), GammaError>)
    ensures
        r == check_pq(p, q),
{
    check_p(p)?;
    check_q(q)?;
    if (p + q - lit(ONE)).abs().gt(lit(THREE) * lit(EPSILON)) {
        Err(GammaError::ProbabilityPairInconsistent { p, q })
    } else {
        Ok(())
    }
}

pub open spec fn deviation_spec<M: Fn(Elementary) -> F64>(
    m: &M,
    p: F64,
    q: F64,
    xr: F64,
    shape: F64,
) -> F64 {
    let (cum, ccum) = gamma_inc_value(m, shape, xr);
    pivot(p, q, cum, ccum)
}

/// How far the distribution function at the scaled argument `xr` is from `p`, or its
/// complement from `q`.
#[verifier::when_used_as_spec(deviation_spec)]
pub fn deviation<M: Fn(Elementary) -> F64>(m: &M, p: F64, q: F64, xr: F64, shape: F64) -> (r: F64)
    requires
        lawful(m),
    ensures
        r == deviation(m, p, q, xr, shape),
{
    let (cum, ccum) = gamma_inc_value(m, shape, xr);
    pivot(p, q, cum, ccum)
}

/// The shape that puts the probability `p` below `x`.
pub open spec fn solve_shape_spec<M: Fn(Elementary) -> F64>(
    m: &M,
    p: F64,
    q: F64,
    x: F64,
    rate: F64,
) -> Result<F64, GammaError> {
    match check_pq(p, q) {
        Err(e) => Err(e),
        Ok(_) => {
            if !x.is_finite() {
                Err(GammaError::XNotFinite(x))
            } else if x.le(lit(ZERO)) {
                Err(GammaError::XNotPositive(x))
            } else if !rate.is_finite() {
                Err(GammaError::RateNotFinite(rate))
            } else if rate.le(lit(ZERO)) {
                Err(GammaError::RateNotPositive(rate))
            } else {
                let xr = x * rate;
                match solve_monotone_spec(
                    BracketStrategy::Decreasing { small: lit(ZERO),
                        big: lit(0x7E37_E43C_8800_759C /* 1.0e300 */), start: lit(FIVE) },
                    |shape: F64| deviation(m, p, q, xr, shape),
                ) {
                    Ok(found) => Ok(found),
                    Err(e) => Err(GammaError::Solver(e)),
                }
            }
        },
    }
}

impl Gamma {
    /// The shape that puts the probability `p` below `x`.
    pub fn solve_shape<M: Fn(Elementary) -> F64>(
        m: &M,
        p: F64,
        q: F64,
        x: F64,
        rate: F64,
    ) -> (r: Result<F64, GammaError>)
        requires
            lawful(m),
        ensures
            r == solve_shape_spec(m, p, q, x, rate),
    {
        check_pq(p, q)?;
        if !x.is_finite() {
            Err(GammaError::XNotFinite(x))
        } else if x.le(lit(ZERO)) {
            Err(GammaError::XNotPositive(x))
        } else if !rate.is_finite() {
            Err(GammaError::RateNotFinite(rate))
        } else if rate.le(lit(ZERO)) {
            Err(GammaError::RateNotPositive(rate))
        } else {
            let xr = x * rate;
            let objective = |shape: F64| -> (v: F64)
                ensures
                    v == deviation(m, p, q, xr, shape),
                { deviation(m, p, q, xr, shape) };
            let answer = solve_monotone(
                BracketStrategy::Decreasing { small: lit(ZERO),
                    big: lit(0x7E37_E43C_8800_759C /* 1.0e300 */), start: lit(FIVE) },
                &objective,
            );
            proof {
                assert(agrees(&objective, |shape: F64| deviation(m, p, q, xr, shape)));
            }
            match answer {
                Ok(found) => Ok(found),
                Err(e) => Err(GammaError::Solver(e)),
            }
        }
    }
}

pub open spec fn inverse_scaled_spec<M: Fn(Elementary) -> F64>(
    m: &M,
    shape: F64,
    p: F64,
    q: F64,
    unit: F64,
) -> Result<F64, GammaError> {
    match try_gamma_inc_inv(m, shape, lit(0xBFF0_0000_0000_0000 /* -1.0 */), p, q) {
        Ok(found) => Ok(found.0 / unit),
        Err(e) => Err(GammaError::IncompleteGammaInverse(e)),
    }
}

/// The scaled argument at which the ratios are `p` and `q`, over `unit`.
#[verifier::when_used_as_spec(inverse_scaled_spec)]
pub fn inverse_scaled<M: Fn(Elementary) -> F64>(
    m: &M,
    shape: F64,
    p: F64,
    q: F64,
    unit: F64,
) -> (r: Result<F64, GammaError>)
    requires
        lawful(m),
    ensures
        r == inverse_scaled(m, shape, p, q, unit),
{
    match try_gamma_inc_inv(m, shape, lit(0xBFF0_0000_0000_0000 /* -1.0 */), p, q) {
        Ok(found) => Ok(found.0 / unit),
        Err(e) => Err(GammaError::IncompleteGammaInverse(e)),
    }
}

pub open spec fn complementary_spec(p: F64, q: F64) -> (F64, F64) {
    if !(p + q - lit(ONE)).abs().gt(lit(EPSILON)) {
        (p, q)
    } else if p.le(q) {
        (p, lit(ONE) - p)
    } else {
        (lit(ONE) - q, q)
    }
}

/// The pair as it is where it adds up to one as closely as the inverse asks for, else the
/// smaller probability with its own complement in place of the larger one.
#[verifier::when_used_as_spec(complementary_spec)]
pub fn complementary(p: F64, q: F64) -> (r: (F64, F64))
    ensures
        r == complementary(p, q),
{
    if !(p + q - lit(ONE)).abs().gt(lit(EPSILON)) {
        (p, q)
    } else if p.le(q) {
        (p, lit(ONE) - p)
    } else {
        (lit(ONE) - q, q)
    }
}

/// The rate that puts the probability `p` below `x`. A pair that is out by more
/// than the inverse allows, within the tolerance on its sum, is decided by its smaller
/// probability.
pub open spec fn solve_rate_spec<M: Fn(Elementary) -> F64>(
    m: &M,
    p: F64,
    q: F64,
    x: F64,
    shape: F64,
) -> Result<F64, GammaError> {
    match check_pq(p, q) {
        Err(e) => Err(e),
        Ok(_) => {
            if !x.is_finite() {
                Err(GammaError::XNotFinite(x))
            } else if x.le(lit(ZERO)) {
                Err(GammaError::XNotPositive(x))
            } else if !shape.is_finite() {
                Err(GammaError::ShapeNotFinite(shape))
            } else if shape.le(lit(ZERO)) {
                Err(GammaError::ShapeNotPositive(shape))
            } else {
                let (lower, upper) = complementary(p, q);
                inverse_scaled(m, shape, lower, upper, x)
            }
        },
    }
}

impl Gamma {
    /// The rate that puts the probability `p` below `x`. A pair that is out by
    /// more than the inverse allows, within the tolerance on its sum, is decided by its
    /// smaller probability.
    pub fn solve_rate<M: Fn(Elementary) -> F64>(
        m: &M,
        p: F64,
        q: F64,
        x: F64,
        shape: F64,
    ) -> (r: Result<F64, GammaError>)
        requires
            lawful(m),
        ensures
            r == solve_rate_spec(m, p, q, x, shape),
    {
        check_pq(p, q)?;
        if !x.is_finite() {
            Err(GammaError::XNotFinite(x))
        } else if x.le(lit(ZERO)) {
            Err(GammaError::XNotPositive(x))
        } else if !shape.is_finite() {
            Err(GammaError::ShapeNotFinite(shape))
        } else if shape.le(lit(ZERO)) {
            Err(GammaError::ShapeNotPositive(shape))
        } else {
            let (lower, upper) = complementary(p, q);
            inverse_scaled(m, shape, lower, upper, x)
        }
    }
}

pub open spec fn cdf_at_spec<M: Fn(Elementary) -> F64>(m: &M, shape: F64, rate: F64, x: F64) -> F64 {
    if x.le(lit(ZERO)) {
        lit(ZERO)
    } else {
        gamma_inc_value(m, shape, x * rate).0
    }
}

/// The probability of a value of at most `x`.
#[verifier::when_used_as_spec(cdf_at_spec)]
pub fn cdf_at<M: Fn(Elementary) -> F64>(m: &M, shape: F64, rate: F64, x: F64) -> (r: F64)
    requires
        lawful(m),
    ensures
        r == cdf_at(m, shape, rate, x),
{
    if x.le(lit(ZERO)) {
        lit(ZERO)
    } else {
        gamma_inc_value(m, shape, x * rate).0
    }
}

pub open spec fn ccdf_at_spec<M: Fn(Elementary) -> F64>(m: &M, shape: F64, rate: F64, x: F64) -> F64 {
    if x.le(lit(ZERO)) {
        lit(ONE)
    } else {
        gamma_inc_value(m, shape, x * rate).1
    }
}

/// The probability of a value above `x`.
#[verifier::when_used_as_spec(ccdf_at_spec)]
pub fn ccdf_at<M: Fn(Elementary) -> F64>(m: &M, shape: F64, rate: F64, x: F64) -> (r: F64)
    requires
        lawful(m),
    ensures
        r == ccdf_at(m, shape, rate, x),
{
    if x.le(lit(ZERO)) {
        lit(ONE)
    } else {
        gamma_inc_value(m, shape, x * rate).1
    }
}

pub open spec fn quantile_spec<M: Fn(Elementary) -> F64>(
    m: &M,
    shape: F64,
    rate: F64,
    p: F64,
) -> Result<F64, GammaError> {
    match check_p(p) {
        Err(e) => Err(e),
        Ok(_) => {
            if p.equals(lit(ZERO)) {
                Ok(lit(ZERO))
            } else if p.equals(lit(ONE)) {
                Ok(lit(INFINITY))
            } else {
                inverse_scaled(m, shape, p, lit(ONE) - p, rate)
            }
        },
    }
}

/// The value with the probability `p` below it.
#[verifier::when_used_as_spec(quantile_spec)]
pub fn quantile<M: Fn(Elementary) -> F64>(
    m: &M,
    shape: F64,
    rate: F64,
    p: F64,
) -> (r: Result<F64, GammaError>)
    requires
        lawful(m),
    ensures
        r == quantile(m, shape, rate, p),
{
    check_p(p)?;
    if p.equals(lit(ZERO)) {
        Ok(lit(ZERO))
    } else if p.equals(lit(ONE)) {
        Ok(lit(INFINITY))
    } else {
        inverse_scaled(m, shape, p, lit(ONE) - p, rate)
    }
}

pub open spec fn upper_quantile_spec<M: Fn(Elementary) -> F64>(
    m: &M,
    shape: F64,
    rate: F64,
    q: F64,
) -> Result<F64, GammaError> {
    match check_q(q) {
        Err(e) => Err(e),
        Ok(_) => {
            if q.equals(lit(ONE)) {
                Ok(lit(ZERO))
            } else if q.equals(lit(ZERO)) {
                Ok(lit(INFINITY))
            } else {
                inverse_scaled(m, shape, lit(ONE) - q, q, rate)
            }
        },
    }
}

/// The value with the probability `q` above it.
#[verifier::when_used_as_spec(upper_quantile_spec)]
pub fn upper_quantile<M: Fn(Elementary) -> F64>(
    m: &M,
    shape: F64,
    rate: F64,
    q: F64,
) -> (r: Result<F64, GammaError>)
    requires
        lawful(m),
    ensures
        r == upper_quantile(m, shape, rate, q),
{
    check_q(q)?;
    if q.equals(lit(ONE)) {
        Ok(lit(ZERO))
    } else if q.equals(lit(ZERO)) {
        Ok(lit(INFINITY))
    } else {
        inverse_scaled(m, shape, lit(ONE) - q, q, rate)
    }
}

pub open spec fn ln_density_spec<M: Fn(Elementary) -> F64>(
    m: &M,
    shape: F64,
    rate: F64,
    x: F64,
) -> F64 {
    if x.le(lit(ZERO)) {
        lit(NEG_INFINITY)
    } else {
        shape * ln(m, rate) - gamma_log(m, shape) + (shape - lit(ONE)) * ln(m, x) - rate * x
    }
}

/// The logarithm of the density.
#[verifier::when_used_as_spec(ln_density_spec)]
pub fn ln_density<M: Fn(Elementary) -> F64>(m: &M, shape: F64, rate: F64, x: F64) -> (r: F64)
    requires
        lawful(m),
    ensures
        r == ln_density(m, shape, rate, x),
{
    if x.le(lit(ZERO)) {
        lit(NEG_INFINITY)
    } else {
        shape * ln(m, rate) - gamma_log(m, shape) + (shape - lit(ONE)) * ln(m, x) - rate * x
    }
}

pub open spec fn density_spec<M: Fn(Elementary) -> F64>(m: &M, shape: F64, rate: F64, x: F64) -> F64 {
    if x.le(lit(ZERO)) {
        lit(ZERO)
    } else {
        exp(m, ln_density(m, shape, rate, x))
    }
}

/// The density.
#[verifier::when_used_as_spec(density_spec)]
pub fn density<M: Fn(Elementary) -> F64>(m: &M, shape: F64, rate: F64, x: F64) -> (r: F64)
    requires
        lawful(m),
    ensures
        r == density(m, shape, rate, x),
{
    if x.le(lit(ZERO)) {
        lit(ZERO)
    } else {
        exp(m, ln_density(m, shape, rate, x))
    }
}

pub open spec fn mean_of_spec(shape: F64, rate: F64) -> F64 {
    shape / rate
}

/// The mean.
#[verifier::when_used_as_spec(mean_of_spec)]
pub fn mean_of(shape: F64, rate: F64) -> (r: F64)
    ensures
        r == mean_of(shape, rate),
{
    shape / rate
}

pub open spec fn variance_of_spec(shape: F64, rate: F64) -> F64 {
    shape / (rate * rate)
}

/// The variance.
#[verifier::when_used_as_spec(variance_of_spec)]
pub fn variance_of(shape: F64, rate: F64) -> (r: F64)
    ensures
        r == variance_of(shape, rate),
{
    shape / (rate * rate)
}

pub open spec fn entropy_of_spec<M: Fn(Elementary) -> F64>(m: &M, shape: F64, rate: F64) -> F64 {
    shape - ln(m, rate) + gamma_log(m, shape) + (lit(ONE) - shape) * psi_value(m, shape)
}

/// The entropy.
#[verifier::when_used_as_spec(entropy_of_spec)]
pub fn entropy_of<M: Fn(Elementary) -> F64>(m: &M, shape: F64, rate: F64) -> (r: F64)
    requires
        lawful(m),
    ensures
        r == entropy_of(m, shape, rate),
{
    shape - ln(m, rate) + gamma_log(m, shape) + (lit(ONE) - shape) * psi_value(m, shape)
}

impl<M: Fn(Elementary) -> F64> ContinuousCdf<M> for Gamma {
    type Error = GammaError;

    open spec fn cdf_spec(&self, m: &M, x: F64) -> F64 {
        cdf_at(m, self.shape, self.rate, x)
    }

    fn cdf(&self, m: &M, x: F64) -> (r: F64) {
        cdf_at(m, self.shape, self.rate, x)
    }

    open spec fn ccdf_spec(&self, m: &M, x: F64) -> F64 {
        ccdf_at(m, self.shape, self.rate, x)
    }

    fn ccdf(&self, m: &M, x: F64) -> (r: F64) {
        ccdf_at(m, self.shape, self.rate, x)
    }

    open spec fn inverse_cdf_spec(&self, m: &M, p: F64) -> Result<F64, GammaError> {
        quantile(m, self.shape, self.rate, p)
    }

    fn inverse_cdf(&self, m: &M, p: F64) -> (r: Result<F64, GammaError>) {
        quantile(m, self.shape, self.rate, p)
    }

    fn sf(&self, m: &M, x: F64) -> (r: F64) {
        ccdf_at(m, self.shape, self.rate, x)
    }
}

impl<M: Fn(Elementary) -> F64> Continuous<M> for Gamma {
    open spec fn pdf_spec(&self, m: &M, x: F64) -> F64 {
        density(m, self.shape, self.rate, x)
    }

    fn pdf(&self, m: &M, x: F64) -> (r: F64) {
        density(m, self.shape, self.rate, x)
    }

    open spec fn ln_pdf_spec(&self, m: &M, x: F64) -> F64 {
        ln_density(m, self.shape, self.rate, x)
    }

    fn ln_pdf(&self, m: &M, x: F64) -> (r: F64) {
        ln_density(m, self.shape, self.rate, x)
    }
}

impl Mean for Gamma {
    open spec fn mean_spec(&self) -> F64 {
        mean_of(self.shape, self.rate)
    }

    fn mean(&self) -> (r: F64) {
        mean_of(self.shape, self.rate)
    }
}

impl Variance for Gamma {
    open spec fn variance_spec(&self) -> F64 {
        variance_of(self.shape, self.rate)
    }

    fn variance(&self) -> (r: F64) {
        variance_of(self.shape, self.rate)
    }

    fn std_dev(&self) -> (r: F64) {
        variance_of(self.shape, self.rate).sqrt()
    }
}

impl<M: Fn(Elementary) -> F64> Entropy<M> for Gamma {
    open spec fn entropy_spec(&self, m: &M) -> F64 {
        entropy_of(m, self.shape, self.rate)
    }

    fn entropy(&self, m: &M) -> (r: F64) {
        entropy_of(m, self.shape, self.rate)
    }
}

impl Gamma {
    /// The value with the probability `q` above it.
    pub fn inverse_sf<M: Fn(Elementary) -> F64>(&self, m: &M, q: F64) -> (r: Result<F64, GammaError>)
        requires
            lawful(m),
        ensures
            r == upper_quantile(m, self.shape, self.rate, q),
    {
        upper_quantile(m, self.shape, self.rate, q)
    }
}

} // verus!
