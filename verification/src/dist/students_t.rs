//! Student's t distribution.
use crate::consts::{EPSILON, FIVE, HALF, INFINITY, NAN, NEG_INFINITY, ONE, THREE, TWO, ZERO};
use crate::error::{SearchError};
use crate::float::number::{lemma_le_units, lemma_lt_units, lemma_order};
use crate::search::drive::{search_monotone, search_monotone_spec};
use crate::special::beta::beta_log;
use crate::special::beta_inc::beta_inc_value;
use crate::special::gamma::{gamma_log, psi_value};
use crate::special::students_t::dt1;
use super::common::pivot;
use crate::float::{lit, F64};
use crate::functions::{agrees, exp, lawful, ln, Elementary};
use crate::special::poly::within;
use crate::traits::{Continuous, ContinuousCdf, Entropy, Mean, Variance};
use vstd::prelude::*;

verus! {

/// A Student's t distribution, by its degrees of freedom.
#[derive(Clone, Copy, Debug, PartialEq, Eq, Structural)]
pub struct StudentsT {
    pub df: F64,
}

/// What is wrong with the arguments, or why a search gave nothing.
#[derive(Clone, Copy, Debug, PartialEq, Eq, Structural)]
pub enum StudentsTError {
    DfNotPositive(F64),
    DfNotFinite(F64),
    TNotFinite(F64),
    PNotInRange(F64),
    QNotInRange(F64),
    PQSumNotOne { p: F64, q: F64 },
    Search(SearchError),
}

impl StudentsT {
    /// The parameters are such as the distribution can have.
    pub open spec fn valid(self) -> bool {
        self.df.is_finite() && self.df.gt(lit(ZERO))
    }
}

/// The distribution with the given parameters, where it can have them.
pub open spec fn try_new_spec(df: F64) -> Result<StudentsT, StudentsTError> {
    if !df.is_finite() {
        Err(StudentsTError::DfNotFinite(df))
    } else if df.le(lit(ZERO)) {
        Err(StudentsTError::DfNotPositive(df))
    } else {
        Ok(StudentsT { df })
    }
}

impl StudentsT {
    /// The distribution with the given parameters, where it can have them.
    pub fn try_new(df: F64) -> (r: Result<StudentsT, StudentsTError>)
        ensures
            r == try_new_spec(df),
    {
        if !df.is_finite() {
            Err(StudentsTError::DfNotFinite(df))
        } else if df.le(lit(ZERO)) {
            Err(StudentsTError::DfNotPositive(df))
        } else {
            Ok(StudentsT { df })
        }
    }
}

impl StudentsT {
    /// The distribution with the given parameters.
    pub fn new(df: F64) -> (r: StudentsT)
        requires
            try_new_spec(df) is Ok,
        ensures
            try_new_spec(df) == Ok::<StudentsT, StudentsTError>(r),
    {
        proof {
            lemma_new_valid(df);
        }
        StudentsT { df }
    }

    /// The parameter `df`.
    pub fn df(&self) -> (r: F64)
        ensures
            r == self.df,
    {
        self.df
    }
}

/// The constructor succeeds exactly on valid parameters, and keeps them.
pub proof fn lemma_new_valid(df: F64)
    ensures
        try_new_spec(df) is Ok <==> (StudentsT { df }).valid(),
        try_new_spec(df) matches Ok(d) ==> d == (StudentsT { df }),
{
    broadcast use lemma_lt_units;
    broadcast use lemma_le_units;
    lemma_order(0, ONE as int);
}

pub open spec fn check_p_spec(p: F64) -> Result<(), StudentsTError> {
    if !within(p, lit(ZERO), lit(ONE)) || !p.is_finite() {
        Err(StudentsTError::PNotInRange(p))
    } else {
        Ok(())
    }
}

/// `p` is a probability.
#[verifier::when_used_as_spec(check_p_spec)]
pub fn check_p(p: F64) -> (r: Result<(), StudentsTError>)
    ensures
        r == check_p(p),
{
    if !within(p, lit(ZERO), lit(ONE)) || !p.is_finite() {
        Err(StudentsTError::PNotInRange(p))
    } else {
        Ok(())
    }
}

pub open spec fn check_q_spec(q: F64) -> Result<(), StudentsTError> {
    if !within(q, lit(ZERO), lit(ONE)) || !q.is_finite() {
        Err(StudentsTError::QNotInRange(q))
    } else {
        Ok(())
    }
}

/// `q` is a probability.
#[verifier::when_used_as_spec(check_q_spec)]
pub fn check_q(q: F64) -> (r: Result<(), StudentsTError>)
    ensures
        r == check_q(q),
{
    if !within(q, lit(ZERO), lit(ONE)) || !q.is_finite() {
        Err(StudentsTError::QNotInRange(q))
    } else {
        Ok(())
    }
}

pub open spec fn check_pq_spec(p: F64, q: F64) -> Result<(), StudentsTError> {
    match check_p(p) {
        Err(e) => Err(e),
        Ok(_) => {
            match check_q(q) {
                Err(e) => Err(e),
                Ok(_) => {
                    if (p + q - lit(ONE)).abs().gt(lit(THREE) * lit(EPSILON)) {
                        Err(StudentsTError::PQSumNotOne { p, q })
                    } else {
                        Ok(())
                    }
                },
            }
        },
    }
}

/// `p` and `q` are probabilities that add up to one.
#[verifier::when_used_as_spec(check_pq_spec)]
pub fn check_pq(p: F64, q: F64) -> (r: Result<(), StudentsTError>)
    ensures
        r == check_pq(p, q),
{
    check_p(p)?;
    check_q(q)?;
    if (p + q - lit(ONE)).abs().gt(lit(THREE) * lit(EPSILON)) {
        Err(StudentsTError::PQSumNotOne { p, q })
    } else {
        Ok(())
    }
}

pub open spec fn cumt_spec<M: Fn(Elementary) -> F64>(m: &M, t: F64, df: F64) -> (F64, F64) {
    let tt = t * t;
    let dfptt = df + tt;
    let (a, oma) = beta_inc_value(m, df / lit(TWO), lit(HALF), df / dfptt, tt / dfptt);
    let tail = lit(HALF) * a;
    if t.le(lit(ZERO)) {
        (tail, oma + tail)
    } else {
        (oma + tail, tail)
    }
}

/// The distribution function at `t` and its complement.
#[verifier::when_used_as_spec(cumt_spec)]
pub fn cumt<M: Fn(Elementary) -> F64>(m: &M, t: F64, df: F64) -> (r: (F64, F64))
    requires
        lawful(m),
    ensures
        r == cumt(m, t, df),
{
    let tt = t * t;
    let dfptt = df + tt;
    let (a, oma) = beta_inc_value(m, df / lit(TWO), lit(HALF), df / dfptt, tt / dfptt);
    let tail = lit(HALF) * a;
    if t.le(lit(ZERO)) {
        (tail, oma + tail)
    } else {
        (oma + tail, tail)
    }
}

pub open spec fn deviation_spec<M: Fn(Elementary) -> F64>(
    m: &M,
    p: F64,
    q: F64,
    t: F64,
    df: F64,
) -> F64 {
    let (cum, ccum) = cumt(m, t, df);
    pivot(p, q, cum, ccum)
}

/// How far the distribution function at `t` is from `p`, or its complement from `q`.
#[verifier::when_used_as_spec(deviation_spec)]
pub fn deviation<M: Fn(Elementary) -> F64>(m: &M, p: F64, q: F64, t: F64, df: F64) -> (r: F64)
    requires
        lawful(m),
    ensures
        r == deviation(m, p, q, t, df),
{
    let (cum, ccum) = cumt(m, t, df);
    pivot(p, q, cum, ccum)
}

/// The degrees of freedom that put the probability `p` below `t`. An answer below the
/// range is reported against the bound zero.
pub open spec fn search_df_spec<M: Fn(Elementary) -> F64>(
    m: &M,
    p: F64,
    q: F64,
    t: F64,
) -> Result<F64, StudentsTError> {
    match check_pq(p, q) {
        Err(e) => Err(e),
        Ok(_) => {
            if !t.is_finite() {
                Err(StudentsTError::TNotFinite(t))
            } else {
                match search_monotone_spec(
                    lit(ONE),
                    lit(0x4202_A05F_2000_0000 /* 1.0e10 */),
                    lit(FIVE),
                    lit(ZERO),
                    lit(0x4202_A05F_2000_0000 /* 1.0e10 */),
                    |df: F64| deviation(m, p, q, t, df),
                ) {
                    Ok(found) => Ok(found),
                    Err(e) => Err(StudentsTError::Search(e)),
                }
            }
        },
    }
}

impl StudentsT {
    /// The degrees of freedom that put the probability `p` below `t`. An answer below the
    /// range is reported against the bound zero.
    pub fn search_df<M: Fn(Elementary) -> F64>(
        m: &M,
        p: F64,
        q: F64,
        t: F64,
    ) -> (r: Result<F64, StudentsTError>)
        requires
            lawful(m),
        ensures
            r == search_df_spec(m, p, q, t),
    {
        check_pq(p, q)?;
        if !t.is_finite() {
            Err(StudentsTError::TNotFinite(t))
        } else {
            let objective = |df: F64| -> (v: F64)
                ensures
                    v == deviation(m, p, q, t, df),
                { deviation(m, p, q, t, df) };
            let answer = search_monotone(
                lit(ONE),
                lit(0x4202_A05F_2000_0000 /* 1.0e10 */),
                lit(FIVE),
                lit(ZERO),
                lit(0x4202_A05F_2000_0000 /* 1.0e10 */),
                &objective,
            );
            proof {
                assert(agrees(&objective, |df: F64| deviation(m, p, q, t, df)));
            }
            match answer {
                Ok(found) => Ok(found),
                Err(e) => Err(StudentsTError::Search(e)),
            }
        }
    }
}

impl StudentsT {
    /// The degrees of freedom that put the probability `p` below `t`.
    pub fn solve_df<M: Fn(Elementary) -> F64>(
        m: &M,
        p: F64,
        q: F64,
        t: F64,
    ) -> (r: Result<F64, StudentsTError>)
        requires
            lawful(m),
        ensures
            r == search_df_spec(m, p, q, t),
    {
        StudentsT::search_df(m, p, q, t)
    }
}

pub open spec fn cdf_at_spec<M: Fn(Elementary) -> F64>(m: &M, df: F64, t: F64) -> F64 {
    cumt(m, t, df).0
}

/// The probability of a value of at most `t`.
#[verifier::when_used_as_spec(cdf_at_spec)]
pub fn cdf_at<M: Fn(Elementary) -> F64>(m: &M, df: F64, t: F64) -> (r: F64)
    requires
        lawful(m),
    ensures
        r == cdf_at(m, df, t),
{
    cumt(m, t, df).0
}

pub open spec fn ccdf_at_spec<M: Fn(Elementary) -> F64>(m: &M, df: F64, t: F64) -> F64 {
    cumt(m, t, df).1
}

/// The probability of a value above `t`.
#[verifier::when_used_as_spec(ccdf_at_spec)]
pub fn ccdf_at<M: Fn(Elementary) -> F64>(m: &M, df: F64, t: F64) -> (r: F64)
    requires
        lawful(m),
    ensures
        r == ccdf_at(m, df, t),
{
    cumt(m, t, df).1
}

pub open spec fn between_spec<M: Fn(Elementary) -> F64>(
    m: &M,
    df: F64,
    p: F64,
    q: F64,
) -> Result<F64, StudentsTError> {
    let start = dt1(m, p, q, df);
    match search_monotone_spec(
        lit(0xC629_3E59_39A0_8CEA /* -1.0e30 */),
        lit(0x4629_3E59_39A0_8CEA /* 1.0e30 */),
        start,
        lit(0xC629_3E59_39A0_8CEA /* -1.0e30 */),
        lit(0x4629_3E59_39A0_8CEA /* 1.0e30 */),
        |t: F64| deviation(m, p, q, t, df),
    ) {
        Ok(found) => Ok(found),
        Err(e) => Err(StudentsTError::Search(e)),
    }
}

/// The value with `p` below and `q` above it.
#[verifier::when_used_as_spec(between_spec)]
pub fn between<M: Fn(Elementary) -> F64>(
    m: &M,
    df: F64,
    p: F64,
    q: F64,
) -> (r: Result<F64, StudentsTError>)
    requires
        lawful(m),
    ensures
        r == between(m, df, p, q),
{
    let start = dt1(m, p, q, df);
    let objective = |t: F64| -> (v: F64)
        ensures
            v == deviation(m, p, q, t, df),
        { deviation(m, p, q, t, df) };
    let answer = search_monotone(
        lit(0xC629_3E59_39A0_8CEA /* -1.0e30 */),
        lit(0x4629_3E59_39A0_8CEA /* 1.0e30 */),
        start,
        lit(0xC629_3E59_39A0_8CEA /* -1.0e30 */),
        lit(0x4629_3E59_39A0_8CEA /* 1.0e30 */),
        &objective,
    );
    proof {
        assert(agrees(&objective, |t: F64| deviation(m, p, q, t, df)));
    }
    match answer {
        Ok(found) => Ok(found),
        Err(e) => Err(StudentsTError::Search(e)),
    }
}

pub open spec fn quantile_spec<M: Fn(Elementary) -> F64>(
    m: &M,
    df: F64,
    p: F64,
) -> Result<F64, StudentsTError> {
    match check_p(p) {
        Err(e) => Err(e),
        Ok(_) => {
            if p.equals(lit(ZERO)) {
                Ok(lit(NEG_INFINITY))
            } else if p.equals(lit(ONE)) {
                Ok(lit(INFINITY))
            } else {
                between(m, df, p, lit(ONE) - p)
            }
        },
    }
}

/// The value with the probability `p` below it.
#[verifier::when_used_as_spec(quantile_spec)]
pub fn quantile<M: Fn(Elementary) -> F64>(
    m: &M,
    df: F64,
    p: F64,
) -> (r: Result<F64, StudentsTError>)
    requires
        lawful(m),
    ensures
        r == quantile(m, df, p),
{
    check_p(p)?;
    if p.equals(lit(ZERO)) {
        Ok(lit(NEG_INFINITY))
    } else if p.equals(lit(ONE)) {
        Ok(lit(INFINITY))
    } else {
        between(m, df, p, lit(ONE) - p)
    }
}

pub open spec fn upper_quantile_spec<M: Fn(Elementary) -> F64>(
    m: &M,
    df: F64,
    q: F64,
) -> Result<F64, StudentsTError> {
    match check_q(q) {
        Err(e) => Err(e),
        Ok(_) => {
            if q.equals(lit(ZERO)) {
                Ok(lit(INFINITY))
            } else if q.equals(lit(ONE)) {
                Ok(lit(NEG_INFINITY))
            } else {
                between(m, df, lit(ONE) - q, q)
            }
        },
    }
}

/// The value with the probability `q` above it.
#[verifier::when_used_as_spec(upper_quantile_spec)]
pub fn upper_quantile<M: Fn(Elementary) -> F64>(
    m: &M,
    df: F64,
    q: F64,
) -> (r: Result<F64, StudentsTError>)
    requires
        lawful(m),
    ensures
        r == upper_quantile(m, df, q),
{
    check_q(q)?;
    if q.equals(lit(ZERO)) {
        Ok(lit(INFINITY))
    } else if q.equals(lit(ONE)) {
        Ok(lit(NEG_INFINITY))
    } else {
        between(m, df, lit(ONE) - q, q)
    }
}

/// 3.141592653589793
pub const PI: u64 = 0x4009_21FB_5444_2D18;

pub open spec fn ln_density_spec<M: Fn(Elementary) -> F64>(m: &M, df: F64, t: F64) -> F64 {
    gamma_log(m, (df + lit(ONE)) / lit(TWO)) - gamma_log(m, df / lit(TWO))
        - lit(HALF) * ln(m, lit(PI) * df) - (df + lit(ONE)) / lit(TWO)
        * ln(m, lit(ONE) + t * t / df)
}

/// The logarithm of the density.
#[verifier::when_used_as_spec(ln_density_spec)]
pub fn ln_density<M: Fn(Elementary) -> F64>(m: &M, df: F64, t: F64) -> (r: F64)
    requires
        lawful(m),
    ensures
        r == ln_density(m, df, t),
{
    gamma_log(m, (df + lit(ONE)) / lit(TWO)) - gamma_log(m, df / lit(TWO))
        - lit(HALF) * ln(m, lit(PI) * df) - (df + lit(ONE)) / lit(TWO)
        * ln(m, lit(ONE) + t * t / df)
}

pub open spec fn density_spec<M: Fn(Elementary) -> F64>(m: &M, df: F64, t: F64) -> F64 {
    exp(m, ln_density(m, df, t))
}

/// The density.
#[verifier::when_used_as_spec(density_spec)]
pub fn density<M: Fn(Elementary) -> F64>(m: &M, df: F64, t: F64) -> (r: F64)
    requires
        lawful(m),
    ensures
        r == density(m, df, t),
{
    exp(m, ln_density(m, df, t))
}

pub open spec fn mean_of_spec(df: F64) -> F64 {
    if df.gt(lit(ONE)) {
        lit(ZERO)
    } else {
        lit(NAN)
    }
}

/// The mean, where it exists.
#[verifier::when_used_as_spec(mean_of_spec)]
pub fn mean_of(df: F64) -> (r: F64)
    ensures
        r == mean_of(df),
{
    if df.gt(lit(ONE)) {
        lit(ZERO)
    } else {
        lit(NAN)
    }
}

pub open spec fn variance_of_spec(df: F64) -> F64 {
    if df.gt(lit(TWO)) {
        df / (df - lit(TWO))
    } else if df.gt(lit(ONE)) {
        lit(INFINITY)
    } else {
        lit(NAN)
    }
}

/// The variance, where it exists.
#[verifier::when_used_as_spec(variance_of_spec)]
pub fn variance_of(df: F64) -> (r: F64)
    ensures
        r == variance_of(df),
{
    if df.gt(lit(TWO)) {
        df / (df - lit(TWO))
    } else if df.gt(lit(ONE)) {
        lit(INFINITY)
    } else {
        lit(NAN)
    }
}

pub open spec fn entropy_of_spec<M: Fn(Elementary) -> F64>(m: &M, df: F64) -> F64 {
    lit(HALF) * (df + lit(ONE)) * (psi_value(m, (df + lit(ONE)) / lit(TWO))
        - psi_value(m, df / lit(TWO))) + lit(HALF) * ln(m, df)
        + beta_log(m, df / lit(TWO), lit(HALF))
}

/// The entropy.
#[verifier::when_used_as_spec(entropy_of_spec)]
pub fn entropy_of<M: Fn(Elementary) -> F64>(m: &M, df: F64) -> (r: F64)
    requires
        lawful(m),
    ensures
        r == entropy_of(m, df),
{
    lit(HALF) * (df + lit(ONE)) * (psi_value(m, (df + lit(ONE)) / lit(TWO))
        - psi_value(m, df / lit(TWO))) + lit(HALF) * ln(m, df)
        + beta_log(m, df / lit(TWO), lit(HALF))
}

impl<M: Fn(Elementary) -> F64> ContinuousCdf<M> for StudentsT {
    type Error = StudentsTError;

    open spec fn cdf_spec(&self, m: &M, x: F64) -> F64 {
        cdf_at(m, self.df, x)
    }

    fn cdf(&self, m: &M, x: F64) -> (r: F64) {
        cdf_at(m, self.df, x)
    }

    open spec fn ccdf_spec(&self, m: &M, x: F64) -> F64 {
        ccdf_at(m, self.df, x)
    }

    fn ccdf(&self, m: &M, x: F64) -> (r: F64) {
        ccdf_at(m, self.df, x)
    }

    open spec fn inverse_cdf_spec(&self, m: &M, p: F64) -> Result<F64, StudentsTError> {
        quantile(m, self.df, p)
    }

    fn inverse_cdf(&self, m: &M, p: F64) -> (r: Result<F64, StudentsTError>) {
        quantile(m, self.df, p)
    }

    fn sf(&self, m: &M, x: F64) -> (r: F64) {
        ccdf_at(m, self.df, x)
    }
}

impl<M: Fn(Elementary) -> F64> Continuous<M> for StudentsT {
    open spec fn pdf_spec(&self, m: &M, x: F64) -> F64 {
        density(m, self.df, x)
    }

    fn pdf(&self, m: &M, x: F64) -> (r: F64) {
        density(m, self.df, x)
    }

    open spec fn ln_pdf_spec(&self, m: &M, x: F64) -> F64 {
        ln_density(m, self.df, x)
    }

    fn ln_pdf(&self, m: &M, x: F64) -> (r: F64) {
        ln_density(m, self.df, x)
    }
}

impl Mean for StudentsT {
    open spec fn mean_spec(&self) -> F64 {
        mean_of(self.df)
    }

    fn mean(&self) -> (r: F64) {
        mean_of(self.df)
    }
}

impl Variance for StudentsT {
    open spec fn variance_spec(&self) -> F64 {
        variance_of(self.df)
    }

    fn variance(&self) -> (r: F64) {
        variance_of(self.df)
    }

    fn std_dev(&self) -> (r: F64) {
        variance_of(self.df).sqrt()
    }
}

impl<M: Fn(Elementary) -> F64> Entropy<M> for StudentsT {
    open spec fn entropy_spec(&self, m: &M) -> F64 {
        entropy_of(m, self.df)
    }

    fn entropy(&self, m: &M) -> (r: F64) {
        entropy_of(m, self.df)
    }
}

impl StudentsT {
    /// The value with the probability `q` above it.
    pub fn inverse_sf<M: Fn(Elementary) -> F64>(&self, m: &M, q: F64) -> (r: Result<F64, StudentsTError>)
        requires
            lawful(m),
        ensures
            r == upper_quantile(m, self.df, q),
    {
        upper_quantile(m, self.df, q)
    }
}

} // verus!
