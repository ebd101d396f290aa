//! The normal distribution.
use crate::consts::{EPSILON, HALF, INFINITY, NEG_INFINITY, ONE, THREE, TWO, ZERO};
use crate::float::number::{lemma_le_units, lemma_lt_units, lemma_order};
use crate::special::normal::{cumnor, dinvnr};
use crate::float::{lit, F64};
use crate::functions::{exp, lawful, ln, Elementary};
use crate::special::poly::within;
use crate::traits::{Continuous, ContinuousCdf, Entropy, Mean, Variance};
use vstd::prelude::*;

verus! {

/// A normal distribution, by its mean and standard deviation.
#[derive(Clone, Copy, Debug, PartialEq, Eq, Structural)]
pub struct Normal {
    pub mean: F64,
    pub sd: F64,
}

/// What is wrong with the arguments, or why a search gave nothing.
#[derive(Clone, Copy, Debug, PartialEq, Eq, Structural)]
pub enum NormalError {
    SdNotPositive(F64),
    MeanNotFinite(F64),
    SdNotFinite(F64),
    XNotFinite(F64),
    PNotInRange(F64),
    QNotInRange(F64),
    PQSumNotOne { p: F64, q: F64 },
}

impl Normal {
    /// The parameters are such as the distribution can have.
    pub open spec fn valid(self) -> bool {
        self.mean.is_finite() && self.sd.is_finite() && self.sd.gt(lit(ZERO))
    }
}

/// The distribution with the given parameters, where it can have them.
pub open spec fn try_new_spec(mean: F64, sd: F64) -> Result<Normal, NormalError> {
    if !mean.is_finite() {
        Err(NormalError::MeanNotFinite(mean))
    } else if !sd.is_finite() {
        Err(NormalError::SdNotFinite(sd))
    } else if sd.le(lit(ZERO)) {
        Err(NormalError::SdNotPositive(sd))
    } else {
        Ok(Normal { mean, sd })
    }
}

impl Normal {
    /// The distribution with the given parameters, where it can have them.
    pub fn try_new(mean: F64, sd: F64) -> (r: Result<Normal, NormalError>)
        ensures
            r == try_new_spec(mean, sd),
    {
        if !mean.is_finite() {
            Err(NormalError::MeanNotFinite(mean))
        } else if !sd.is_finite() {
            Err(NormalError::SdNotFinite(sd))
        } else if sd.le(lit(ZERO)) {
            Err(NormalError::SdNotPositive(sd))
        } else {
            Ok(Normal { mean, sd })
        }
    }
}

impl Normal {
    /// The distribution with the given parameters.
    pub fn new(mean: F64, sd: F64) -> (r: Normal)
        requires
            try_new_spec(mean, sd) is Ok,
        ensures
            try_new_spec(mean, sd) == Ok::<Normal, NormalError>(r),
    {
        proof {
            lemma_new_valid(mean, sd);
        }
        Normal { mean, sd }
    }

    /// The parameter `mean`.
    pub fn mean(&self) -> (r: F64)
        ensures
            r == self.mean,
    {
        self.mean
    }

    /// The parameter `sd`.
    pub fn sd(&self) -> (r: F64)
        ensures
            r == self.sd,
    {
        self.sd
    }
}

/// The constructor succeeds exactly on valid parameters, and keeps them.
pub proof fn lemma_new_valid(mean: F64, sd: F64)
    ensures
        try_new_spec(mean, sd) is Ok <==> (Normal { mean, sd }).valid(),
        try_new_spec(mean, sd) matches Ok(d) ==> d == (Normal { mean, sd }),
{
    broadcast use lemma_lt_units;
    broadcast use lemma_le_units;
    lemma_order(0, ONE as int);
}

pub open spec fn check_p_spec(p: F64) -> Result<(), NormalError> {
    if !within(p, lit(ZERO), lit(ONE)) || !p.is_finite() {
        Err(NormalError::PNotInRange(p))
    } else {
        Ok(())
    }
}

/// `p` is a probability.
#[verifier::when_used_as_spec(check_p_spec)]
pub fn check_p(p: F64) -> (r: Result<(), NormalError>)
    ensures
        r == check_p(p),
{
    if !within(p, lit(ZERO), lit(ONE)) || !p.is_finite() {
        Err(NormalError::PNotInRange(p))
    } else {
        Ok(())
    }
}

pub open spec fn check_q_spec(q: F64) -> Result<(), NormalError> {
    if !within(q, lit(ZERO), lit(ONE)) || !q.is_finite() {
        Err(NormalError::QNotInRange(q))
    } else {
        Ok(())
    }
}

/// `q` is a probability.
#[verifier::when_used_as_spec(check_q_spec)]
pub fn check_q(q: F64) -> (r: Result<(), NormalError>)
    ensures
        r == check_q(q),
{
    if !within(q, lit(ZERO), lit(ONE)) || !q.is_finite() {
        Err(NormalError::QNotInRange(q))
    } else {
        Ok(())
    }
}

pub open spec fn check_pq_spec(p: F64, q: F64) -> Result<(), NormalError> {
    match check_p(p) {
        Err(e) => Err(e),
        Ok(_) => {
            match check_q(q) {
                Err(e) => Err(e),
                Ok(_) => {
                    if (p + q - lit(ONE)).abs().gt(lit(THREE) * lit(EPSILON)) {
                        Err(NormalError::PQSumNotOne { p, q })
                    } else {
                        Ok(())
                    }
                },
            }
        },
    }
}

/// `p` and `q` are probabilities that add up to one.
#[verifier::when_used_as_spec(check_pq_spec)]
pub fn check_pq(p: F64, q: F64) -> (r: Result<(), NormalError>)
    ensures
        r == check_pq(p, q),
{
    check_p(p)?;
    check_q(q)?;
    if (p + q - lit(ONE)).abs().gt(lit(THREE) * lit(EPSILON)) {
        Err(NormalError::PQSumNotOne { p, q })
    } else {
        Ok(())
    }
}

impl Normal {
    /// The distribution with mean zero and standard deviation one.
    pub fn standard() -> (r: Normal)
        ensures
            r == (Normal { mean: lit(ZERO), sd: lit(ONE) }),
    {
        Normal { mean: lit(ZERO), sd: lit(ONE) }
    }
}

/// The mean that puts the probability `p` below `x`.
pub open spec fn solve_mean_spec<M: Fn(Elementary) -> F64>(
    m: &M,
    p: F64,
    q: F64,
    x: F64,
    sd: F64,
) -> Result<F64, NormalError> {
    match check_pq(p, q) {
        Err(e) => Err(e),
        Ok(_) => {
            if !x.is_finite() {
                Err(NormalError::XNotFinite(x))
            } else if !sd.is_finite() {
                Err(NormalError::SdNotFinite(sd))
            } else if sd.le(lit(ZERO)) {
                Err(NormalError::SdNotPositive(sd))
            } else {
                Ok(x - sd * dinvnr(m, p, q))
            }
        },
    }
}

impl Normal {
    /// The mean that puts the probability `p` below `x`.
    pub fn solve_mean<M: Fn(Elementary) -> F64>(
        m: &M,
        p: F64,
        q: F64,
        x: F64,
        sd: F64,
    ) -> (r: Result<F64, NormalError>)
        requires
            lawful(m),
        ensures
            r == solve_mean_spec(m, p, q, x, sd),
    {
        check_pq(p, q)?;
        if !x.is_finite() {
            Err(NormalError::XNotFinite(x))
        } else if !sd.is_finite() {
            Err(NormalError::SdNotFinite(sd))
        } else if sd.le(lit(ZERO)) {
            Err(NormalError::SdNotPositive(sd))
        } else {
            Ok(x - sd * dinvnr(m, p, q))
        }
    }
}

/// The standard deviation that puts the probability `p` below `x`.
pub open spec fn solve_sd_spec<M: Fn(Elementary) -> F64>(
    m: &M,
    p: F64,
    q: F64,
    x: F64,
    mean: F64,
) -> Result<F64, NormalError> {
    match check_pq(p, q) {
        Err(e) => Err(e),
        Ok(_) => {
            if !x.is_finite() {
                Err(NormalError::XNotFinite(x))
            } else if !mean.is_finite() {
                Err(NormalError::MeanNotFinite(mean))
            } else {
                Ok((x - mean) / dinvnr(m, p, q))
            }
        },
    }
}

impl Normal {
    /// The standard deviation that puts the probability `p` below `x`.
    pub fn solve_sd<M: Fn(Elementary) -> F64>(
        m: &M,
        p: F64,
        q: F64,
        x: F64,
        mean: F64,
    ) -> (r: Result<F64, NormalError>)
        requires
            lawful(m),
        ensures
            r == solve_sd_spec(m, p, q, x, mean),
    {
        check_pq(p, q)?;
        if !x.is_finite() {
            Err(NormalError::XNotFinite(x))
        } else if !mean.is_finite() {
            Err(NormalError::MeanNotFinite(mean))
        } else {
            Ok((x - mean) / dinvnr(m, p, q))
        }
    }
}

pub open spec fn cdf_at_spec<M: Fn(Elementary) -> F64>(m: &M, mean: F64, sd: F64, x: F64) -> F64 {
    cumnor(m, (x - mean) / sd).0
}

/// The probability of a value of at most `x`.
#[verifier::when_used_as_spec(cdf_at_spec)]
pub fn cdf_at<M: Fn(Elementary) -> F64>(m: &M, mean: F64, sd: F64, x: F64) -> (r: F64)
    requires
        lawful(m),
    ensures
        r == cdf_at(m, mean, sd, x),
{
    cumnor(m, (x - mean) / sd).0
}

pub open spec fn ccdf_at_spec<M: Fn(Elementary) -> F64>(m: &M, mean: F64, sd: F64, x: F64) -> F64 {
    cumnor(m, (x - mean) / sd).1
}

/// The probability of a value above `x`.
#[verifier::when_used_as_spec(ccdf_at_spec)]
pub fn ccdf_at<M: Fn(Elementary) -> F64>(m: &M, mean: F64, sd: F64, x: F64) -> (r: F64)
    requires
        lawful(m),
    ensures
        r == ccdf_at(m, mean, sd, x),
{
    cumnor(m, (x - mean) / sd).1
}

pub open spec fn quantile_spec<M: Fn(Elementary) -> F64>(
    m: &M,
    mean: F64,
    sd: F64,
    p: F64,
) -> Result<F64, NormalError> {
    match check_p(p) {
        Err(e) => Err(e),
        Ok(_) => {
            if p.equals(lit(ZERO)) {
                Ok(lit(NEG_INFINITY))
            } else if p.equals(lit(ONE)) {
                Ok(lit(INFINITY))
            } else {
                Ok(mean + sd * dinvnr(m, p, lit(ONE) - p))
            }
        },
    }
}

/// The value with the probability `p` below it.
#[verifier::when_used_as_spec(quantile_spec)]
pub fn quantile<M: Fn(Elementary) -> F64>(
    m: &M,
    mean: F64,
    sd: F64,
    p: F64,
) -> (r: Result<F64, NormalError>)
    requires
        lawful(m),
    ensures
        r == quantile(m, mean, sd, p),
{
    check_p(p)?;
    if p.equals(lit(ZERO)) {
        Ok(lit(NEG_INFINITY))
    } else if p.equals(lit(ONE)) {
        Ok(lit(INFINITY))
    } else {
        Ok(mean + sd * dinvnr(m, p, lit(ONE) - p))
    }
}

pub open spec fn upper_quantile_spec<M: Fn(Elementary) -> F64>(
    m: &M,
    mean: F64,
    sd: F64,
    q: F64,
) -> Result<F64, NormalError> {
    match check_q(q) {
        Err(e) => Err(e),
        Ok(_) => {
            if q.equals(lit(ZERO)) {
                Ok(lit(INFINITY))
            } else if q.equals(lit(ONE)) {
                Ok(lit(NEG_INFINITY))
            } else {
                Ok(mean + sd * dinvnr(m, lit(ONE) - q, q))
            }
        },
    }
}

/// The value with the probability `q` above it.
#[verifier::when_used_as_spec(upper_quantile_spec)]
pub fn upper_quantile<M: Fn(Elementary) -> F64>(
    m: &M,
    mean: F64,
    sd: F64,
    q: F64,
) -> (r: Result<F64, NormalError>)
    requires
        lawful(m),
    ensures
        r == upper_quantile(m, mean, sd, q),
{
    check_q(q)?;
    if q.equals(lit(ZERO)) {
        Ok(lit(INFINITY))
    } else if q.equals(lit(ONE)) {
        Ok(lit(NEG_INFINITY))
    } else {
        Ok(mean + sd * dinvnr(m, lit(ONE) - q, q))
    }
}

/// 3.141592653589793
pub const PI: u64 = 0x4009_21FB_5444_2D18;

/// 2.718281828459045
pub const E: u64 = 0x4005_BF0A_8B14_5769;

pub open spec fn ln_density_spec<M: Fn(Elementary) -> F64>(m: &M, mean: F64, sd: F64, x: F64) -> F64 {
    let z = (x - mean) / sd;
    lit(0xBFE0_0000_0000_0000 /* -0.5 */) * z * z - ln(m, sd)
        - lit(HALF) * ln(m, lit(TWO) * lit(PI))
}

/// The logarithm of the density.
#[verifier::when_used_as_spec(ln_density_spec)]
pub fn ln_density<M: Fn(Elementary) -> F64>(m: &M, mean: F64, sd: F64, x: F64) -> (r: F64)
    requires
        lawful(m),
    ensures
        r == ln_density(m, mean, sd, x),
{
    let z = (x - mean) / sd;
    lit(0xBFE0_0000_0000_0000 /* -0.5 */) * z * z - ln(m, sd)
        - lit(HALF) * ln(m, lit(TWO) * lit(PI))
}

pub open spec fn density_spec<M: Fn(Elementary) -> F64>(m: &M, mean: F64, sd: F64, x: F64) -> F64 {
    exp(m, ln_density(m, mean, sd, x))
}

/// The density.
#[verifier::when_used_as_spec(density_spec)]
pub fn density<M: Fn(Elementary) -> F64>(m: &M, mean: F64, sd: F64, x: F64) -> (r: F64)
    requires
        lawful(m),
    ensures
        r == density(m, mean, sd, x),
{
    exp(m, ln_density(m, mean, sd, x))
}

pub open spec fn mean_of_spec(mean: F64, sd: F64) -> F64 {
    mean
}

/// The mean.
#[verifier::when_used_as_spec(mean_of_spec)]
pub fn mean_of(mean: F64, sd: F64) -> (r: F64)
    ensures
        r == mean_of(mean, sd),
{
    mean
}

pub open spec fn variance_of_spec(mean: F64, sd: F64) -> F64 {
    sd * sd
}

/// The variance.
#[verifier::when_used_as_spec(variance_of_spec)]
pub fn variance_of(mean: F64, sd: F64) -> (r: F64)
    ensures
        r == variance_of(mean, sd),
{
    sd * sd
}

pub open spec fn entropy_of_spec<M: Fn(Elementary) -> F64>(m: &M, mean: F64, sd: F64) -> F64 {
    lit(HALF) * ln(m, lit(TWO) * lit(PI) * lit(E) * sd * sd)
}

/// The entropy.
#[verifier::when_used_as_spec(entropy_of_spec)]
pub fn entropy_of<M: Fn(Elementary) -> F64>(m: &M, mean: F64, sd: F64) -> (r: F64)
    requires
        lawful(m),
    ensures
        r == entropy_of(m, mean, sd),
{
    lit(HALF) * ln(m, lit(TWO) * lit(PI) * lit(E) * sd * sd)
}

impl<M: Fn(Elementary) -> F64> ContinuousCdf<M> for Normal {
    type Error = NormalError;

    open spec fn cdf_spec(&self, m: &M, x: F64) -> F64 {
        cdf_at(m, self.mean, self.sd, x)
    }

    fn cdf(&self, m: &M, x: F64) -> (r: F64) {
        cdf_at(m, self.mean, self.sd, x)
    }

    open spec fn ccdf_spec(&self, m: &M, x: F64) -> F64 {
        ccdf_at(m, self.mean, self.sd, x)
    }

    fn ccdf(&self, m: &M, x: F64) -> (r: F64) {
        ccdf_at(m, self.mean, self.sd, x)
    }

    open spec fn inverse_cdf_spec(&self, m: &M, p: F64) -> Result<F64, NormalError> {
        quantile(m, self.mean, self.sd, p)
    }

    fn inverse_cdf(&self, m: &M, p: F64) -> (r: Result<F64, NormalError>) {
        quantile(m, self.mean, self.sd, p)
    }

    fn sf(&self, m: &M, x: F64) -> (r: F64) {
        ccdf_at(m, self.mean, self.sd, x)
    }
}

impl<M: Fn(Elementary) -> F64> Continuous<M> for Normal {
    open spec fn pdf_spec(&self, m: &M, x: F64) -> F64 {
        density(m, self.mean, self.sd, x)
    }

    fn pdf(&self, m: &M, x: F64) -> (r: F64) {
        density(m, self.mean, self.sd, x)
    }

    open spec fn ln_pdf_spec(&self, m: &M, x: F64) -> F64 {
        ln_density(m, self.mean, self.sd, x)
    }

    fn ln_pdf(&self, m: &M, x: F64) -> (r: F64) {
        ln_density(m, self.mean, self.sd, x)
    }
}

impl Mean for Normal {
    open spec fn mean_spec(&self) -> F64 {
        mean_of(self.mean, self.sd)
    }

    fn mean(&self) -> (r: F64) {
        mean_of(self.mean, self.sd)
    }
}

impl Variance for Normal {
    open spec fn variance_spec(&self) -> F64 {
        variance_of(self.mean, self.sd)
    }

    fn variance(&self) -> (r: F64) {
        variance_of(self.mean, self.sd)
    }

    fn std_dev(&self) -> (r: F64) {
        variance_of(self.mean, self.sd).sqrt()
    }
}

impl<M: Fn(Elementary) -> F64> Entropy<M> for Normal {
    open spec fn entropy_spec(&self, m: &M) -> F64 {
        entropy_of(m, self.mean, self.sd)
    }

    fn entropy(&self, m: &M) -> (r: F64) {
        entropy_of(m, self.mean, self.sd)
    }
}

impl Normal {
    /// The value with the probability `q` above it.
    pub fn inverse_sf<M: Fn(Elementary) -> F64>(&self, m: &M, q: F64) -> (r: Result<F64, NormalError>)
        requires
            lawful(m),
        ensures
            r == upper_quantile(m, self.mean, self.sd, q),
    {
        upper_quantile(m, self.mean, self.sd, q)
    }
}

} // verus!
