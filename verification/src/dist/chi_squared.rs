//! The chi-squared distribution.
use crate::consts::{FIVE, INFINITY, NEG_INFINITY, ONE, TWO, ZERO};
use crate::error::{SolverError};
use crate::float::number::{lemma_le_units, lemma_lt_units, lemma_order};
use crate::solver::bracket::{solve_monotone, solve_monotone_spec, BracketStrategy};
use crate::special::gamma::{gamma_log, psi_value};
use crate::special::gamma_inc::gamma_inc_value;
use super::common::pivot;
use crate::float::{lit, F64};
use crate::functions::{agrees, exp, lawful, ln, Elementary};
use crate::special::poly::within;
use crate::traits::{Continuous, ContinuousCdf, Entropy, Mean, Variance};
use vstd::prelude::*;

verus! {

/// A chi-squared distribution, by its degrees of freedom.
#[derive(Clone, Copy, Debug, PartialEq, Eq, Structural)]
pub struct ChiSquared {
    pub df: F64,
}

/// What is wrong with the arguments, or why a search gave nothing.
#[derive(Clone, Copy, Debug, PartialEq, Eq, Structural)]
pub enum ChiSquaredError {
    DfNotPositive(F64),
    DfNotFinite(F64),
    XNotPositive(F64),
    XNotFinite(F64),
    ProbabilityOutOfRange(F64),
    Solver(SolverError),
}

impl ChiSquared {
    /// The parameters are such as the distribution can have.
    pub open spec fn valid(self) -> bool {
        self.df.is_finite() && self.df.gt(lit(ZERO))
    }
}

/// The distribution with the given parameters, where it can have them.
pub open spec fn try_new_spec(df: F64) -> Result<ChiSquared, ChiSquaredError> {
    if !df.is_finite() {
        Err(ChiSquaredError::DfNotFinite(df))
    } else if df.le(lit(ZERO)) {
        Err(ChiSquaredError::DfNotPositive(df))
    } else {
        Ok(ChiSquared { df })
    }
}

impl ChiSquared {
    /// The distribution with the given parameters, where it can have them.
    pub fn try_new(df: F64) -> (r: Result<ChiSquared, ChiSquaredError>)
        ensures
            r == try_new_spec(df),
    {
        if !df.is_finite() {
            Err(ChiSquaredError::DfNotFinite(df))
        } else if df.le(lit(ZERO)) {
            Err(ChiSquaredError::DfNotPositive(df))
        } else {
            Ok(ChiSquared { df })
        }
    }
}

impl ChiSquared {
    /// The distribution with the given parameters.
    pub fn new(df: F64) -> (r: ChiSquared)
        requires
            try_new_spec(df) is Ok,
        ensures
            try_new_spec(df) == Ok::<ChiSquared, ChiSquaredError>(r),
    {
        proof {
            lemma_new_valid(df);
        }
        ChiSquared { df }
    }

    /// The parameter `df`.
    pub fn df(&self) -> (r: F64)
        ensures
            r == self.df,
    {
        self.df
    }
}

/// The constructor succeeds exactly on valid parameters, and keeps them.
pub proof fn lemma_new_valid(df: F64)
    ensures
        try_new_spec(df) is Ok <==> (ChiSquared { df }).valid(),
        try_new_spec(df) matches Ok(d) ==> d == (ChiSquared { df }),
{
    broadcast use lemma_lt_units;
    broadcast use lemma_le_units;
    lemma_order(0, ONE as int);
}

pub open spec fn check_p_spec(p: F64) -> Result<(), ChiSquaredError> {
    if !within(p, lit(ZERO), lit(ONE)) || !p.is_finite() {
        Err(ChiSquaredError::ProbabilityOutOfRange(p))
    } else {
        Ok(())
    }
}

/// `p` is a probability.
#[verifier::when_used_as_spec(check_p_spec)]
pub fn check_p(p: F64) -> (r: Result<(), ChiSquaredError>)
    ensures
        r == check_p(p),
{
    if !within(p, lit(ZERO), lit(ONE)) || !p.is_finite() {
        Err(ChiSquaredError::ProbabilityOutOfRange(p))
    } else {
        Ok(())
    }
}

pub open spec fn deviation_spec<M: Fn(Elementary) -> F64>(
    m: &M,
    p: F64,
    q: F64,
    x: F64,
    df: F64,
) -> F64 {
    let (cum, ccum) = gamma_inc_value(m, df / lit(TWO), x / lit(TWO));
    pivot(p, q, cum, ccum)
}

/// How far the distribution function at `x` is from `p`, or its complement from `q`.
#[verifier::when_used_as_spec(deviation_spec)]
pub fn deviation<M: Fn(Elementary) -> F64>(m: &M, p: F64, q: F64, x: F64, df: F64) -> (r: F64)
    requires
        lawful(m),
    ensures
        r == deviation(m, p, q, x, df),
{
    let (cum, ccum) = gamma_inc_value(m, df / lit(TWO), x / lit(TWO));
    pivot(p, q, cum, ccum)
}

/// The degrees of freedom that put the probability `p` below `x`.
pub open spec fn solve_df_spec<M: Fn(Elementary) -> F64>(
    m: &M,
    p: F64,
    x: F64,
) -> Result<F64, ChiSquaredError> {
    match check_p(p) {
        Err(e) => Err(e),
        Ok(_) => {
            if !x.is_finite() {
                Err(ChiSquaredError::XNotFinite(x))
            } else if x.le(lit(ZERO)) {
                Err(ChiSquaredError::XNotPositive(x))
            } else {
                let q = lit(ONE) - p;
                match solve_monotone_spec(
                    BracketStrategy::Decreasing { small: lit(ZERO),
                        big: lit(0x7E37_E43C_8800_759C /* 1.0e300 */), start: lit(FIVE) },
                    |df: F64| deviation(m, p, q, x, df),
                ) {
                    Ok(found) => Ok(found),
                    Err(e) => Err(ChiSquaredError::Solver(e)),
                }
            }
        },
    }
}

impl ChiSquared {
    /// The degrees of freedom that put the probability `p` below `x`.
    pub fn solve_df<M: Fn(Elementary) -> F64>(
        m: &M,
        p: F64,
        x: F64,
    ) -> (r: Result<F64, ChiSquaredError>)
        requires
            lawful(m),
        ensures
            r == solve_df_spec(m, p, x),
    {
        check_p(p)?;
        if !x.is_finite() {
            Err(ChiSquaredError::XNotFinite(x))
        } else if x.le(lit(ZERO)) {
            Err(ChiSquaredError::XNotPositive(x))
        } else {
            let q = lit(ONE) - p;
            let objective = |df: F64| -> (v: F64)
                ensures
                    v == deviation(m, p, q, x, df),
                { deviation(m, p, q, x, df) };
            let answer = solve_monotone(
                BracketStrategy::Decreasing { small: lit(ZERO),
                    big: lit(0x7E37_E43C_8800_759C /* 1.0e300 */), start: lit(FIVE) },
                &objective,
            );
            proof {
                assert(agrees(&objective, |df: F64| deviation(m, p, q, x, df)));
            }
            match answer {
                Ok(found) => Ok(found),
                Err(e) => Err(ChiSquaredError::Solver(e)),
            }
        }
    }
}

pub open spec fn cdf_at_spec<M: Fn(Elementary) -> F64>(m: &M, df: F64, x: F64) -> F64 {
    if x.le(lit(ZERO)) {
        lit(ZERO)
    } else {
        gamma_inc_value(m, df / lit(TWO), x / lit(TWO)).0
    }
}

/// The probability of a value of at most `x`.
#[verifier::when_used_as_spec(cdf_at_spec)]
pub fn cdf_at<M: Fn(Elementary) -> F64>(m: &M, df: F64, x: F64) -> (r: F64)
    requires
        lawful(m),
    ensures
        r == cdf_at(m, df, x),
{
    if x.le(lit(ZERO)) {
        lit(ZERO)
    } else {
        gamma_inc_value(m, df / lit(TWO), x / lit(TWO)).0
    }
}

pub open spec fn ccdf_at_spec<M: Fn(Elementary) -> F64>(m: &M, df: F64, x: F64) -> F64 {
    if x.le(lit(ZERO)) {
        lit(ONE)
    } else {
        gamma_inc_value(m, df / lit(TWO), x / lit(TWO)).1
    }
}

/// The probability of a value above `x`.
#[verifier::when_used_as_spec(ccdf_at_spec)]
pub fn ccdf_at<M: Fn(Elementary) -> F64>(m: &M, df: F64, x: F64) -> (r: F64)
    requires
        lawful(m),
    ensures
        r == ccdf_at(m, df, x),
{
    if x.le(lit(ZERO)) {
        lit(ONE)
    } else {
        gamma_inc_value(m, df / lit(TWO), x / lit(TWO)).1
    }
}

pub open spec fn quantile_spec<M: Fn(Elementary) -> F64>(
    m: &M,
    df: F64,
    p: F64,
) -> Result<F64, ChiSquaredError> {
    match check_p(p) {
        Err(e) => Err(e),
        Ok(_) => {
            if p.equals(lit(ZERO)) {
                Ok(lit(ZERO))
            } else if p.equals(lit(ONE)) {
                Ok(lit(INFINITY))
            } else {
                match solve_monotone_spec(
                    BracketStrategy::Increasing { small: lit(ZERO),
                        big: lit(0x7E37_E43C_8800_759C /* 1.0e300 */), start: lit(FIVE) },
                    |x: F64| gamma_inc_value(m, df / lit(TWO), x / lit(TWO)).0 - p,
                ) {
                    Ok(found) => Ok(found),
                    Err(e) => Err(ChiSquaredError::Solver(e)),
                }
            }
        },
    }
}

/// The value with the probability `p` below it.
#[verifier::when_used_as_spec(quantile_spec)]
pub fn quantile<M: Fn(Elementary) -> F64>(
    m: &M,
    df: F64,
    p: F64,
) -> (r: Result<F64, ChiSquaredError>)
    requires
        lawful(m),
    ensures
        r == quantile(m, df, p),
{
    check_p(p)?;
    if p.equals(lit(ZERO)) {
        Ok(lit(ZERO))
    } else if p.equals(lit(ONE)) {
        Ok(lit(INFINITY))
    } else {
        let objective = |x: F64| -> (v: F64)
            ensures
                v == gamma_inc_value(m, df / lit(TWO), x / lit(TWO)).0 - p,
            { gamma_inc_value(m, df / lit(TWO), x / lit(TWO)).0 - p };
        let answer = solve_monotone(
            BracketStrategy::Increasing { small: lit(ZERO),
                big: lit(0x7E37_E43C_8800_759C /* 1.0e300 */), start: lit(FIVE) },
            &objective,
        );
        proof {
            assert(agrees(&objective, |x: F64| gamma_inc_value(m, df / lit(TWO), x / lit(TWO)).0
                - p));
        }
        match answer {
            Ok(found) => Ok(found),
            Err(e) => Err(ChiSquaredError::Solver(e)),
        }
    }
}

pub open spec fn upper_quantile_spec<M: Fn(Elementary) -> F64>(
    m: &M,
    df: F64,
    q: F64,
) -> Result<F64, ChiSquaredError> {
    match check_p(q) {
        Err(e) => Err(e),
        Ok(_) => {
            if q.equals(lit(ONE)) {
                Ok(lit(ZERO))
            } else if q.equals(lit(ZERO)) {
                Ok(lit(INFINITY))
            } else {
                match solve_monotone_spec(
                    BracketStrategy::Decreasing { small: lit(ZERO),
                        big: lit(0x7E37_E43C_8800_759C /* 1.0e300 */), start: lit(FIVE) },
                    |x: F64| gamma_inc_value(m, df / lit(TWO), x / lit(TWO)).1 - q,
                ) {
                    Ok(found) => Ok(found),
                    Err(e) => Err(ChiSquaredError::Solver(e)),
                }
            }
        },
    }
}

/// The value with the probability `q` above it.
#[verifier::when_used_as_spec(upper_quantile_spec)]
pub fn upper_quantile<M: Fn(Elementary) -> F64>(
    m: &M,
    df: F64,
    q: F64,
) -> (r: Result<F64, ChiSquaredError>)
    requires
        lawful(m),
    ensures
        r == upper_quantile(m, df, q),
{
    check_p(q)?;
    if q.equals(lit(ONE)) {
        Ok(lit(ZERO))
    } else if q.equals(lit(ZERO)) {
        Ok(lit(INFINITY))
    } else {
        let objective = |x: F64| -> (v: F64)
            ensures
                v == gamma_inc_value(m, df / lit(TWO), x / lit(TWO)).1 - q,
            { gamma_inc_value(m, df / lit(TWO), x / lit(TWO)).1 - q };
        let answer = solve_monotone(
            BracketStrategy::Decreasing { small: lit(ZERO),
                big: lit(0x7E37_E43C_8800_759C /* 1.0e300 */), start: lit(FIVE) },
            &objective,
        );
        proof {
            assert(agrees(&objective, |x: F64| gamma_inc_value(m, df / lit(TWO), x / lit(TWO)).1
                - q));
        }
        match answer {
            Ok(found) => Ok(found),
            Err(e) => Err(ChiSquaredError::Solver(e)),
        }
    }
}

pub open spec fn ln_density_spec<M: Fn(Elementary) -> F64>(m: &M, df: F64, x: F64) -> F64 {
    if x.le(lit(ZERO)) {
        lit(NEG_INFINITY)
    } else {
        let k = df / lit(TWO);
        (k * ln(m, lit(TWO)) + gamma_log(m, k)).negated() + (k - lit(ONE)) * ln(m, x) - x / lit(TWO)
    }
}

/// The logarithm of the density.
#[verifier::when_used_as_spec(ln_density_spec)]
pub fn ln_density<M: Fn(Elementary) -> F64>(m: &M, df: F64, x: F64) -> (r: F64)
    requires
        lawful(m),
    ensures
        r == ln_density(m, df, x),
{
    if x.le(lit(ZERO)) {
        lit(NEG_INFINITY)
    } else {
        let k = df / lit(TWO);
        (k * ln(m, lit(TWO)) + gamma_log(m, k)).negated() + (k - lit(ONE)) * ln(m, x) - x / lit(TWO)
    }
}

pub open spec fn density_spec<M: Fn(Elementary) -> F64>(m: &M, df: F64, x: F64) -> F64 {
    if x.le(lit(ZERO)) {
        lit(ZERO)
    } else {
        exp(m, ln_density(m, df, x))
    }
}

/// The density.
#[verifier::when_used_as_spec(density_spec)]
pub fn density<M: Fn(Elementary) -> F64>(m: &M, df: F64, x: F64) -> (r: F64)
    requires
        lawful(m),
    ensures
        r == density(m, df, x),
{
    if x.le(lit(ZERO)) {
        lit(ZERO)
    } else {
        exp(m, ln_density(m, df, x))
    }
}

pub open spec fn mean_of_spec(df: F64) -> F64 {
    df
}

/// The mean.
#[verifier::when_used_as_spec(mean_of_spec)]
pub fn mean_of(df: F64) -> (r: F64)
    ensures
        r == mean_of(df),
{
    df
}

pub open spec fn variance_of_spec(df: F64) -> F64 {
    lit(TWO) * df
}

/// The variance.
#[verifier::when_used_as_spec(variance_of_spec)]
pub fn variance_of(df: F64) -> (r: F64)
    ensures
        r == variance_of(df),
{
    lit(TWO) * df
}

pub open spec fn entropy_of_spec<M: Fn(Elementary) -> F64>(m: &M, df: F64) -> F64 {
    let k = df / lit(TWO);
    k + ln(m, lit(TWO)) + gamma_log(m, k) + (lit(ONE) - k) * psi_value(m, k)
}

/// The entropy.
#[verifier::when_used_as_spec(entropy_of_spec)]
pub fn entropy_of<M: Fn(Elementary) -> F64>(m: &M, df: F64) -> (r: F64)
    requires
        lawful(m),
    ensures
        r == entropy_of(m, df),
{
    let k = df / lit(TWO);
    k + ln(m, lit(TWO)) + gamma_log(m, k) + (lit(ONE) - k) * psi_value(m, k)
}

impl<M: Fn(Elementary) -> F64> ContinuousCdf<M> for ChiSquared {
    type Error = ChiSquaredError;

    open spec fn cdf_spec(&self, m: &M, x: F64) -> F64 {
        cdf_at(m, self.df, x)
    }

    fn cdf(&self, m: &M, x: F64) -> (r: F64) {
        cdf_at(m, self.df, x)
    }

    open spec fn ccdf_spec(&self, m: &M, x: F64) -> F64 {
        ccdf_at(m, self.df, x)
    }

    fn ccdf(&self, m: &M, x: F64) -> (r: F64) {
        ccdf_at(m, self.df, x)
    }

    open spec fn inverse_cdf_spec(&self, m: &M, p: F64) -> Result<F64, ChiSquaredError> {
        quantile(m, self.df, p)
    }

    fn inverse_cdf(&self, m: &M, p: F64) -> (r: Result<F64, ChiSquaredError>) {
        quantile(m, self.df, p)
    }

    fn sf(&self, m: &M, x: F64) -> (r: F64) {
        ccdf_at(m, self.df, x)
    }
}

impl<M: Fn(Elementary) -> F64> Continuous<M> for ChiSquared {
    open spec fn pdf_spec(&self, m: &M, x: F64) -> F64 {
        density(m, self.df, x)
    }

    fn pdf(&self, m: &M, x: F64) -> (r: F64) {
        density(m, self.df, x)
    }

    open spec fn ln_pdf_spec(&self, m: &M, x: F64) -> F64 {
        ln_density(m, self.df, x)
    }

    fn ln_pdf(&self, m: &M, x: F64) -> (r: F64) {
        ln_density(m, self.df, x)
    }
}

impl Mean for ChiSquared {
    open spec fn mean_spec(&self) -> F64 {
        mean_of(self.df)
    }

    fn mean(&self) -> (r: F64) {
        mean_of(self.df)
    }
}

impl Variance for ChiSquared {
    open spec fn variance_spec(&self) -> F64 {
        variance_of(self.df)
    }

    fn variance(&self) -> (r: F64) {
        variance_of(self.df)
    }

    fn std_dev(&self) -> (r: F64) {
        variance_of(self.df).sqrt()
    }
}

impl<M: Fn(Elementary) -> F64> Entropy<M> for ChiSquared {
    open spec fn entropy_spec(&self, m: &M) -> F64 {
        entropy_of(m, self.df)
    }

    fn entropy(&self, m: &M) -> (r: F64) {
        entropy_of(m, self.df)
    }
}

impl ChiSquared {
    /// The value with the probability `q` above it.
    pub fn inverse_sf<M: Fn(Elementary) -> F64>(&self, m: &M, q: F64) -> (r: Result<F64, ChiSquaredError>)
        requires
            lawful(m),
        ensures
            r == upper_quantile(m, self.df, q),
    {
        upper_quantile(m, self.df, q)
    }
}

} // verus!
