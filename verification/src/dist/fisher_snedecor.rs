//! The F distribution.
use crate::consts::{EPSILON, FIVE, FOUR, HALF, INFINITY, NAN, NEG_INFINITY, ONE, THREE, TWO, ZERO};
use crate::error::{SolverError};
use crate::float::number::{lemma_le_units, lemma_lt_units, lemma_order};
use crate::solver::bracket::{solve_monotone, solve_monotone_spec, BracketStrategy};
use crate::special::beta::beta_log;
use crate::special::beta_inc::beta_inc_value;
use crate::special::gamma::psi_value;
use super::common::pivot;
use crate::float::{lit, F64};
use crate::functions::{agrees, exp, lawful, ln, Elementary};
use crate::special::poly::within;
use crate::traits::{Continuous, ContinuousCdf, Entropy, Mean, Variance};
use vstd::prelude::*;

verus! {

/// An F distribution, by the degrees of freedom of its numerator and its denominator.
#[derive(Clone, Copy, Debug, PartialEq, Eq, Structural)]
pub struct FisherSnedecor {
    pub dfn: F64,
    pub dfd: F64,
}

/// What is wrong with the arguments, or why a search gave nothing.
#[derive(Clone, Copy, Debug, PartialEq, Eq, Structural)]
pub enum FisherSnedecorError {
    DfnNotPositive(F64),
    DfnNotFinite(F64),
    DfdNotPositive(F64),
    DfdNotFinite(F64),
    FNotPositive(F64),
    FNotFinite(F64),
    PNotInRange(F64),
    QNotInRange(F64),
    PQSumNotOne { p: F64, q: F64 },
    Solver(SolverError),
}

impl FisherSnedecor {
    /// The parameters are such as the distribution can have.
    pub open spec fn valid(self) -> bool {
        self.dfn.is_finite() && self.dfn.gt(lit(ZERO)) && self.dfd.is_finite() && self.dfd.gt(lit(ZERO))
    }
}

/// The distribution with the given parameters, where it can have them.
pub open spec fn try_new_spec(dfn: F64, dfd: F64) -> Result<FisherSnedecor, FisherSnedecorError> {
    if !dfn.is_finite() {
        Err(FisherSnedecorError::DfnNotFinite(dfn))
    } else if dfn.le(lit(ZERO)) {
        Err(FisherSnedecorError::DfnNotPositive(dfn))
    } else if !dfd.is_finite() {
        Err(FisherSnedecorError::DfdNotFinite(dfd))
    } else if dfd.le(lit(ZERO)) {
        Err(FisherSnedecorError::DfdNotPositive(dfd))
    } else {
        Ok(FisherSnedecor { dfn, dfd })
    }
}

impl FisherSnedecor {
    /// The distribution with the given parameters, where it can have them.
    pub fn try_new(dfn: F64, dfd: F64) -> (r: Result<FisherSnedecor, FisherSnedecorError>)
        ensures
            r == try_new_spec(dfn, dfd),
    {
        if !dfn.is_finite() {
            Err(FisherSnedecorError::DfnNotFinite(dfn))
        } else if dfn.le(lit(ZERO)) {
            Err(FisherSnedecorError::DfnNotPositive(dfn))
        } else if !dfd.is_finite() {
            Err(FisherSnedecorError::DfdNotFinite(dfd))
        } else if dfd.le(lit(ZERO)) {
            Err(FisherSnedecorError::DfdNotPositive(dfd))
        } else {
            Ok(FisherSnedecor { dfn, dfd })
        }
    }
}

impl FisherSnedecor {
    /// The distribution with the given parameters.
    pub fn new(dfn: F64, dfd: F64) -> (r: FisherSnedecor)
        requires
            try_new_spec(dfn, dfd) is Ok,
        ensures
            try_new_spec(dfn, dfd) == Ok::<FisherSnedecor, FisherSnedecorError>(r),
    {
        proof {
            lemma_new_valid(dfn, dfd);
        }
        FisherSnedecor { dfn, dfd }
    }

    /// The parameter `dfn`.
    pub fn dfn(&self) -> (r: F64)
        ensures
            r == self.dfn,
    {
        self.dfn
    }

    /// The parameter `dfd`.
    pub fn dfd(&self) -> (r: F64)
        ensures
            r == self.dfd,
    {
        self.dfd
    }
}

/// The constructor succeeds exactly on valid parameters, and keeps them.
pub proof fn lemma_new_valid(dfn: F64, dfd: F64)
    ensures
        try_new_spec(dfn, dfd) is Ok <==> (FisherSnedecor { dfn, dfd }).valid(),
        try_new_spec(dfn, dfd) matches Ok(d) ==> d == (FisherSnedecor { dfn, dfd }),
{
    broadcast use lemma_lt_units;
    broadcast use lemma_le_units;
    lemma_order(0, ONE as int);
}

pub open spec fn check_p_spec(p: F64) -> Result<(), FisherSnedecorError> {
    if !within(p, lit(ZERO), lit(ONE)) || !p.is_finite() {
        Err(FisherSnedecorError::PNotInRange(p))
    } else {
        Ok(())
    }
}

/// `p` is a probability.
#[verifier::when_used_as_spec(check_p_spec)]
pub fn check_p(p: F64) -> (r: Result<(), FisherSnedecorError>)
    ensures
        r == check_p(p),
{
    if !within(p, lit(ZERO), lit(ONE)) || !p.is_finite() {
        Err(FisherSnedecorError::PNotInRange(p))
    } else {
        Ok(())
    }
}

pub open spec fn check_q_spec(q: F64) -> Result<(), FisherSnedecorError> {
    if !within(q, lit(ZERO), lit(ONE)) || !q.is_finite() {
        Err(FisherSnedecorError::QNotInRange(q))
    } else {
        Ok(())
    }
}

/// `q` is a probability.
#[verifier::when_used_as_spec(check_q_spec)]
pub fn check_q(q: F64) -> (r: Result<(), FisherSnedecorError>)
    ensures
        r == check_q(q),
{
    if !within(q, lit(ZERO), lit(ONE)) || !q.is_finite() {
        Err(FisherSnedecorError::QNotInRange(q))
    } else {
        Ok(())
    }
}

pub open spec fn check_pq_spec(p: F64, q: F64) -> Result<(), FisherSnedecorError> {
    match check_p(p) {
        Err(e) => Err(e),
        Ok(_) => {
            match check_q(q) {
                Err(e) => Err(e),
                Ok(_) => {
                    if (p + q - lit(ONE)).abs().gt(lit(THREE) * lit(EPSILON)) {
                        Err(FisherSnedecorError::PQSumNotOne { p, q })
                    } else {
                        Ok(())
                    }
                },
            }
        },
    }
}

/// `p` and `q` are probabilities that add up to one.
#[verifier::when_used_as_spec(check_pq_spec)]
pub fn check_pq(p: F64, q: F64) -> (r: Result<(), FisherSnedecorError>)
    ensures
        r == check_pq(p, q),
{
    check_p(p)?;
    check_q(q)?;
    if (p + q - lit(ONE)).abs().gt(lit(THREE) * lit(EPSILON)) {
        Err(FisherSnedecorError::PQSumNotOne { p, q })
    } else {
        Ok(())
    }
}

pub open spec fn cumf_spec<M: Fn(Elementary) -> F64>(
    m: &M,
    f: F64,
    dfn: F64,
    dfd: F64,
) -> (F64, F64) {
    if f.le(lit(ZERO)) {
        (lit(ZERO), lit(ONE))
    } else {
        let prod = dfn * f;
        let dsum = dfd + prod;
        let xx = dfd / dsum;
        let yy = if xx.gt(lit(HALF)) {
            prod / dsum
        } else {
            lit(ONE) - xx
        };
        let (p, q) = beta_inc_value(m, lit(HALF) * dfd, lit(HALF) * dfn, if xx.gt(lit(HALF)) {
            lit(ONE) - yy
        } else {
            xx
        }, yy);
        (q, p)
    }
}

/// The distribution function at `f` and its complement.
#[verifier::when_used_as_spec(cumf_spec)]
pub fn cumf<M: Fn(Elementary) -> F64>(m: &M, f: F64, dfn: F64, dfd: F64) -> (r: (F64, F64))
    requires
        lawful(m),
    ensures
        r == cumf(m, f, dfn, dfd),
{
    if f.le(lit(ZERO)) {
        (lit(ZERO), lit(ONE))
    } else {
        let prod = dfn * f;
        let dsum = dfd + prod;
        let xx = dfd / dsum;
        let yy = if xx.gt(lit(HALF)) {
            prod / dsum
        } else {
            lit(ONE) - xx
        };
        let (p, q) = beta_inc_value(m, lit(HALF) * dfd, lit(HALF) * dfn, if xx.gt(lit(HALF)) {
            lit(ONE) - yy
        } else {
            xx
        }, yy);
        (q, p)
    }
}

pub open spec fn deviation_spec<M: Fn(Elementary) -> F64>(
    m: &M,
    p: F64,
    q: F64,
    f: F64,
    dfn: F64,
    dfd: F64,
) -> F64 {
    let (cum, ccum) = cumf(m, f, dfn, dfd);
    pivot(p, q, cum, ccum)
}

/// How far the distribution function at `f` is from `p`, or its complement from `q`.
#[verifier::when_used_as_spec(deviation_spec)]
pub fn deviation<M: Fn(Elementary) -> F64>(
    m: &M,
    p: F64,
    q: F64,
    f: F64,
    dfn: F64,
    dfd: F64,
) -> (r: F64)
    requires
        lawful(m),
    ensures
        r == deviation(m, p, q, f, dfn, dfd),
{
    let (cum, ccum) = cumf(m, f, dfn, dfd);
    pivot(p, q, cum, ccum)
}

/// The degrees of freedom of the numerator that put the probability `p` below `f`.
pub open spec fn solve_dfn_spec<M: Fn(Elementary) -> F64>(
    m: &M,
    p: F64,
    q: F64,
    f: F64,
    dfd: F64,
) -> Result<F64, FisherSnedecorError> {
    match check_pq(p, q) {
        Err(e) => Err(e),
        Ok(_) => {
            if !f.is_finite() {
                Err(FisherSnedecorError::FNotFinite(f))
            } else if f.le(lit(ZERO)) {
                Err(FisherSnedecorError::FNotPositive(f))
            } else if !dfd.is_finite() {
                Err(FisherSnedecorError::DfdNotFinite(dfd))
            } else if dfd.le(lit(ZERO)) {
                Err(FisherSnedecorError::DfdNotPositive(dfd))
            } else {
                match solve_monotone_spec(
                    BracketStrategy::Increasing { small: lit(ONE),
                        big: lit(0x7E37_E43C_8800_759C /* 1.0e300 */), start: lit(FIVE) },
                    |dfn: F64| deviation(m, p, q, f, dfn, dfd),
                ) {
                    Ok(found) => Ok(found),
                    Err(e) => Err(FisherSnedecorError::Solver(e)),
                }
            }
        },
    }
}

impl FisherSnedecor {
    /// The degrees of freedom of the numerator that put the probability `p` below `f`.
    pub fn solve_dfn<M: Fn(Elementary) -> F64>(
        m: &M,
        p: F64,
        q: F64,
        f: F64,
        dfd: F64,
    ) -> (r: Result<F64, FisherSnedecorError>)
        requires
            lawful(m),
        ensures
            r == solve_dfn_spec(m, p, q, f, dfd),
    {
        check_pq(p, q)?;
        if !f.is_finite() {
            Err(FisherSnedecorError::FNotFinite(f))
        } else if f.le(lit(ZERO)) {
            Err(FisherSnedecorError::FNotPositive(f))
        } else if !dfd.is_finite() {
            Err(FisherSnedecorError::DfdNotFinite(dfd))
        } else if dfd.le(lit(ZERO)) {
            Err(FisherSnedecorError::DfdNotPositive(dfd))
        } else {
            let objective = |dfn: F64| -> (v: F64)
                ensures
                    v == deviation(m, p, q, f, dfn, dfd),
                { deviation(m, p, q, f, dfn, dfd) };
            let answer = solve_monotone(
                BracketStrategy::Increasing { small: lit(ONE),
                    big: lit(0x7E37_E43C_8800_759C /* 1.0e300 */), start: lit(FIVE) },
                &objective,
            );
            proof {
                assert(agrees(&objective, |dfn: F64| deviation(m, p, q, f, dfn, dfd)));
            }
            match answer {
                Ok(found) => Ok(found),
                Err(e) => Err(FisherSnedecorError::Solver(e)),
            }
        }
    }
}

/// The degrees of freedom of the denominator that put the probability `p` below `f`.
pub open spec fn solve_dfd_spec<M: Fn(Elementary) -> F64>(
    m: &M,
    p: F64,
    q: F64,
    f: F64,
    dfn: F64,
) -> Result<F64, FisherSnedecorError> {
    match check_pq(p, q) {
        Err(e) => Err(e),
        Ok(_) => {
            if !f.is_finite() {
                Err(FisherSnedecorError::FNotFinite(f))
            } else if f.le(lit(ZERO)) {
                Err(FisherSnedecorError::FNotPositive(f))
            } else if !dfn.is_finite() {
                Err(FisherSnedecorError::DfnNotFinite(dfn))
            } else if dfn.le(lit(ZERO)) {
                Err(FisherSnedecorError::DfnNotPositive(dfn))
            } else {
                match solve_monotone_spec(
                    BracketStrategy::Increasing { small: lit(ONE),
                        big: lit(0x7E37_E43C_8800_759C /* 1.0e300 */), start: lit(FIVE) },
                    |dfd: F64| deviation(m, p, q, f, dfn, dfd),
                ) {
                    Ok(found) => Ok(found),
                    Err(e) => Err(FisherSnedecorError::Solver(e)),
                }
            }
        },
    }
}

impl FisherSnedecor {
    /// The degrees of freedom of the denominator that put the probability `p` below `f`.
    pub fn solve_dfd<M: Fn(Elementary) -> F64>(
        m: &M,
        p: F64,
        q: F64,
        f: F64,
        dfn: F64,
    ) -> (r: Result<F64, FisherSnedecorError>)
        requires
            lawful(m),
        ensures
            r == solve_dfd_spec(m, p, q, f, dfn),
    {
        check_pq(p, q)?;
        if !f.is_finite() {
            Err(FisherSnedecorError::FNotFinite(f))
        } else if f.le(lit(ZERO)) {
            Err(FisherSnedecorError::FNotPositive(f))
        } else if !dfn.is_finite() {
            Err(FisherSnedecorError::DfnNotFinite(dfn))
        } else if dfn.le(lit(ZERO)) {
            Err(FisherSnedecorError::DfnNotPositive(dfn))
        } else {
            let objective = |dfd: F64| -> (v: F64)
                ensures
                    v == deviation(m, p, q, f, dfn, dfd),
                { deviation(m, p, q, f, dfn, dfd) };
            let answer = solve_monotone(
                BracketStrategy::Increasing { small: lit(ONE),
                    big: lit(0x7E37_E43C_8800_759C /* 1.0e300 */), start: lit(FIVE) },
                &objective,
            );
            proof {
                assert(agrees(&objective, |dfd: F64| deviation(m, p, q, f, dfn, dfd)));
            }
            match answer {
                Ok(found) => Ok(found),
                Err(e) => Err(FisherSnedecorError::Solver(e)),
            }
        }
    }
}

pub open spec fn cdf_at_spec<M: Fn(Elementary) -> F64>(m: &M, dfn: F64, dfd: F64, x: F64) -> F64 {
    cumf(m, x, dfn, dfd).0
}

/// The probability of a value of at most `x`.
#[verifier::when_used_as_spec(cdf_at_spec)]
pub fn cdf_at<M: Fn(Elementary) -> F64>(m: &M, dfn: F64, dfd: F64, x: F64) -> (r: F64)
    requires
        lawful(m),
    ensures
        r == cdf_at(m, dfn, dfd, x),
{
    cumf(m, x, dfn, dfd).0
}

pub open spec fn ccdf_at_spec<M: Fn(Elementary) -> F64>(m: &M, dfn: F64, dfd: F64, x: F64) -> F64 {
    cumf(m, x, dfn, dfd).1
}

/// The probability of a value above `x`.
#[verifier::when_used_as_spec(ccdf_at_spec)]
pub fn ccdf_at<M: Fn(Elementary) -> F64>(m: &M, dfn: F64, dfd: F64, x: F64) -> (r: F64)
    requires
        lawful(m),
    ensures
        r == ccdf_at(m, dfn, dfd, x),
{
    cumf(m, x, dfn, dfd).1
}

pub open spec fn quantile_spec<M: Fn(Elementary) -> F64>(
    m: &M,
    dfn: F64,
    dfd: F64,
    p: F64,
) -> Result<F64, FisherSnedecorError> {
    match check_p(p) {
        Err(e) => Err(e),
        Ok(_) => {
            if p.equals(lit(ZERO)) {
                Ok(lit(ZERO))
            } else if p.equals(lit(ONE)) {
                Ok(lit(INFINITY))
            } else {
                let q = lit(ONE) - p;
                match solve_monotone_spec(
                    BracketStrategy::Increasing { small: lit(ZERO),
                        big: lit(0x7E37_E43C_8800_759C /* 1.0e300 */), start: lit(FIVE) },
                    |x: F64| deviation(m, p, q, x, dfn, dfd),
                ) {
                    Ok(found) => Ok(found),
                    Err(e) => Err(FisherSnedecorError::Solver(e)),
                }
            }
        },
    }
}

/// The value with the probability `p` below it.
#[verifier::when_used_as_spec(quantile_spec)]
pub fn quantile<M: Fn(Elementary) -> F64>(
    m: &M,
    dfn: F64,
    dfd: F64,
    p: F64,
) -> (r: Result<F64, FisherSnedecorError>)
    requires
        lawful(m),
    ensures
        r == quantile(m, dfn, dfd, p),
{
    check_p(p)?;
    if p.equals(lit(ZERO)) {
        Ok(lit(ZERO))
    } else if p.equals(lit(ONE)) {
        Ok(lit(INFINITY))
    } else {
        let q = lit(ONE) - p;
        let objective = |x: F64| -> (v: F64)
            ensures
                v == deviation(m, p, q, x, dfn, dfd),
            { deviation(m, p, q, x, dfn, dfd) };
        let answer = solve_monotone(
            BracketStrategy::Increasing { small: lit(ZERO),
                big: lit(0x7E37_E43C_8800_759C /* 1.0e300 */), start: lit(FIVE) },
            &objective,
        );
        proof {
            assert(agrees(&objective, |x: F64| deviation(m, p, q, x, dfn, dfd)));
        }
        match answer {
            Ok(found) => Ok(found),
            Err(e) => Err(FisherSnedecorError::Solver(e)),
        }
    }
}

pub open spec fn upper_quantile_spec<M: Fn(Elementary) -> F64>(
    m: &M,
    dfn: F64,
    dfd: F64,
    q: F64,
) -> Result<F64, FisherSnedecorError> {
    match check_q(q) {
        Err(e) => Err(e),
        Ok(_) => {
            if q.equals(lit(ONE)) {
                Ok(lit(ZERO))
            } else if q.equals(lit(ZERO)) {
                Ok(lit(INFINITY))
            } else {
                match solve_monotone_spec(
                    BracketStrategy::Decreasing { small: lit(ZERO),
                        big: lit(0x7E37_E43C_8800_759C /* 1.0e300 */), start: lit(FIVE) },
                    |x: F64| cumf(m, x, dfn, dfd).1 - q,
                ) {
                    Ok(found) => Ok(found),
                    Err(e) => Err(FisherSnedecorError::Solver(e)),
                }
            }
        },
    }
}

/// The value with the probability `q` above it.
#[verifier::when_used_as_spec(upper_quantile_spec)]
pub fn upper_quantile<M: Fn(Elementary) -> F64>(
    m: &M,
    dfn: F64,
    dfd: F64,
    q: F64,
) -> (r: Result<F64, FisherSnedecorError>)
    requires
        lawful(m),
    ensures
        r == upper_quantile(m, dfn, dfd, q),
{
    check_q(q)?;
    if q.equals(lit(ONE)) {
        Ok(lit(ZERO))
    } else if q.equals(lit(ZERO)) {
        Ok(lit(INFINITY))
    } else {
        let objective = |x: F64| -> (v: F64)
            ensures
                v == cumf(m, x, dfn, dfd).1 - q,
            { cumf(m, x, dfn, dfd).1 - q };
        let answer = solve_monotone(
            BracketStrategy::Decreasing { small: lit(ZERO),
                big: lit(0x7E37_E43C_8800_759C /* 1.0e300 */), start: lit(FIVE) },
            &objective,
        );
        proof {
            assert(agrees(&objective, |x: F64| cumf(m, x, dfn, dfd).1 - q));
        }
        match answer {
            Ok(found) => Ok(found),
            Err(e) => Err(FisherSnedecorError::Solver(e)),
        }
    }
}

pub open spec fn ln_density_spec<M: Fn(Elementary) -> F64>(m: &M, dfn: F64, dfd: F64, x: F64) -> F64 {
    if x.le(lit(ZERO)) {
        lit(NEG_INFINITY)
    } else {
        let half_dfn = dfn / lit(TWO);
        let half_dfd = dfd / lit(TWO);
        half_dfn * ln(m, dfn / dfd) + (half_dfn - lit(ONE)) * ln(m, x)
            - (half_dfn + half_dfd) * ln(m, lit(ONE) + dfn * x / dfd)
            - beta_log(m, half_dfn, half_dfd)
    }
}

/// The logarithm of the density.
#[verifier::when_used_as_spec(ln_density_spec)]
pub fn ln_density<M: Fn(Elementary) -> F64>(m: &M, dfn: F64, dfd: F64, x: F64) -> (r: F64)
    requires
        lawful(m),
    ensures
        r == ln_density(m, dfn, dfd, x),
{
    if x.le(lit(ZERO)) {
        lit(NEG_INFINITY)
    } else {
        let half_dfn = dfn / lit(TWO);
        let half_dfd = dfd / lit(TWO);
        half_dfn * ln(m, dfn / dfd) + (half_dfn - lit(ONE)) * ln(m, x)
            - (half_dfn + half_dfd) * ln(m, lit(ONE) + dfn * x / dfd)
            - beta_log(m, half_dfn, half_dfd)
    }
}

pub open spec fn density_spec<M: Fn(Elementary) -> F64>(m: &M, dfn: F64, dfd: F64, x: F64) -> F64 {
    if x.le(lit(ZERO)) {
        lit(ZERO)
    } else {
        exp(m, ln_density(m, dfn, dfd, x))
    }
}

/// The density.
#[verifier::when_used_as_spec(density_spec)]
pub fn density<M: Fn(Elementary) -> F64>(m: &M, dfn: F64, dfd: F64, x: F64) -> (r: F64)
    requires
        lawful(m),
    ensures
        r == density(m, dfn, dfd, x),
{
    if x.le(lit(ZERO)) {
        lit(ZERO)
    } else {
        exp(m, ln_density(m, dfn, dfd, x))
    }
}

pub open spec fn mean_of_spec(dfn: F64, dfd: F64) -> F64 {
    if dfd.gt(lit(TWO)) {
        dfd / (dfd - lit(TWO))
    } else {
        lit(NAN)
    }
}

/// The mean, where it exists.
#[verifier::when_used_as_spec(mean_of_spec)]
pub fn mean_of(dfn: F64, dfd: F64) -> (r: F64)
    ensures
        r == mean_of(dfn, dfd),
{
    if dfd.gt(lit(TWO)) {
        dfd / (dfd - lit(TWO))
    } else {
        lit(NAN)
    }
}

pub open spec fn variance_of_spec(dfn: F64, dfd: F64) -> F64 {
    if dfd.gt(lit(FOUR)) {
        lit(TWO) * dfd * dfd * (dfn + dfd - lit(TWO))
            / (dfn * (dfd - lit(TWO)).squared() * (dfd - lit(FOUR)))
    } else {
        lit(NAN)
    }
}

/// The variance, where it exists.
#[verifier::when_used_as_spec(variance_of_spec)]
pub fn variance_of(dfn: F64, dfd: F64) -> (r: F64)
    ensures
        r == variance_of(dfn, dfd),
{
    if dfd.gt(lit(FOUR)) {
        lit(TWO) * dfd * dfd * (dfn + dfd - lit(TWO))
            / (dfn * (dfd - lit(TWO)).squared() * (dfd - lit(FOUR)))
    } else {
        lit(NAN)
    }
}

pub open spec fn entropy_of_spec<M: Fn(Elementary) -> F64>(m: &M, dfn: F64, dfd: F64) -> F64 {
    ln(m, dfd / dfn) + beta_log(m, dfn / lit(TWO), dfd / lit(TWO))
        + (lit(ONE) - dfn / lit(TWO)) * psi_value(m, dfn / lit(TWO))
        - (lit(ONE) + dfd / lit(TWO)) * psi_value(m, dfd / lit(TWO))
        + lit(HALF) * (dfn + dfd) * psi_value(m, (dfn + dfd) / lit(TWO))
}

/// The entropy.
#[verifier::when_used_as_spec(entropy_of_spec)]
pub fn entropy_of<M: Fn(Elementary) -> F64>(m: &M, dfn: F64, dfd: F64) -> (r: F64)
    requires
        lawful(m),
    ensures
        r == entropy_of(m, dfn, dfd),
{
    ln(m, dfd / dfn) + beta_log(m, dfn / lit(TWO), dfd / lit(TWO))
        + (lit(ONE) - dfn / lit(TWO)) * psi_value(m, dfn / lit(TWO))
        - (lit(ONE) + dfd / lit(TWO)) * psi_value(m, dfd / lit(TWO))
        + lit(HALF) * (dfn + dfd) * psi_value(m, (dfn + dfd) / lit(TWO))
}

impl<M: Fn(Elementary) -> F64> ContinuousCdf<M> for FisherSnedecor {
    type Error = FisherSnedecorError;

    open spec fn cdf_spec(&self, m: &M, x: F64) -> F64 {
        cdf_at(m, self.dfn, self.dfd, x)
    }

    fn cdf(&self, m: &M, x: F64) -> (r: F64) {
        cdf_at(m, self.dfn, self.dfd, x)
    }

    open spec fn ccdf_spec(&self, m: &M, x: F64) -> F64 {
        ccdf_at(m, self.dfn, self.dfd, x)
    }

    fn ccdf(&self, m: &M, x: F64) -> (r: F64) {
        ccdf_at(m, self.dfn, self.dfd, x)
    }

    open spec fn inverse_cdf_spec(&self, m: &M, p: F64) -> Result<F64, FisherSnedecorError> {
        quantile(m, self.dfn, self.dfd, p)
    }

    fn inverse_cdf(&self, m: &M, p: F64) -> (r: Result<F64, FisherSnedecorError>) {
        quantile(m, self.dfn, self.dfd, p)
    }

    fn sf(&self, m: &M, x: F64) -> (r: F64) {
        ccdf_at(m, self.dfn, self.dfd, x)
    }
}

impl<M: Fn(Elementary) -> F64> Continuous<M> for FisherSnedecor {
    open spec fn pdf_spec(&self, m: &M, x: F64) -> F64 {
        density(m, self.dfn, self.dfd, x)
    }

    fn pdf(&self, m: &M, x: F64) -> (r: F64) {
        density(m, self.dfn, self.dfd, x)
    }

    open spec fn ln_pdf_spec(&self, m: &M, x: F64) -> F64 {
        ln_density(m, self.dfn, self.dfd, x)
    }

    fn ln_pdf(&self, m: &M, x: F64) -> (r: F64) {
        ln_density(m, self.dfn, self.dfd, x)
    }
}

impl Mean for FisherSnedecor {
    open spec fn mean_spec(&self) -> F64 {
        mean_of(self.dfn, self.dfd)
    }

    fn mean(&self) -> (r: F64) {
        mean_of(self.dfn, self.dfd)
    }
}

impl Variance for FisherSnedecor {
    open spec fn variance_spec(&self) -> F64 {
        variance_of(self.dfn, self.dfd)
    }

    fn variance(&self) -> (r: F64) {
        variance_of(self.dfn, self.dfd)
    }

    fn std_dev(&self) -> (r: F64) {
        variance_of(self.dfn, self.dfd).sqrt()
    }
}

impl<M: Fn(Elementary) -> F64> Entropy<M> for FisherSnedecor {
    open spec fn entropy_spec(&self, m: &M) -> F64 {
        entropy_of(m, self.dfn, self.dfd)
    }

    fn entropy(&self, m: &M) -> (r: F64) {
        entropy_of(m, self.dfn, self.dfd)
    }
}

impl FisherSnedecor {
    /// The value with the probability `q` above it.
    pub fn inverse_sf<M: Fn(Elementary) -> F64>(&self, m: &M, q: F64) -> (r: Result<F64, FisherSnedecorError>)
        requires
            lawful(m),
        ensures
            r == upper_quantile(m, self.dfn, self.dfd, q),
    {
        upper_quantile(m, self.dfn, self.dfd, q)
    }
}

} // verus!
