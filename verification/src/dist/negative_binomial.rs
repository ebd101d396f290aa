//! The negative binomial distribution.
use crate::consts::{FIVE, HALF, NEG_INFINITY, ONE, TEN, ZERO};
use crate::error::{SolverError};
use crate::float::number::{lemma_le_units, lemma_lt_units, lemma_order};
use crate::solver::bracket::{solve_monotone, solve_monotone_spec, BracketStrategy};
use crate::special::beta_inc::beta_inc_value;
use crate::special::gamma::gamma_log;
use super::common::pivot;
use super::counts::{before, decides, grow, grow_spec, least, least_spec};
use crate::float::{lit, F64};
use crate::functions::{agrees, exp, lawful, ln, Elementary};
use crate::special::poly::within;
use crate::traits::{Discrete, DiscreteCdf, Mean, Variance};
use vstd::prelude::*;

verus! {

/// A negative binomial distribution, by the number of successes to wait for and the
/// probability of a success. It counts the failures before.
#[derive(Clone, Copy, Debug, PartialEq, Eq, Structural)]
pub struct NegativeBinomial {
    pub r: u64,
    pub pr: F64,
}

/// What is wrong with the arguments, or why a search gave nothing.
#[derive(Clone, Copy, Debug, PartialEq, Eq, Structural)]
pub enum NegativeBinomialError {
    PrOutOfRange(F64),
    RNotPositive,
    ProbabilityOutOfRange(F64),
    Solver(SolverError),
}

impl NegativeBinomial {
    /// The parameters are such as the distribution can have.
    pub open spec fn valid(self) -> bool {
        self.r > 0 && self.pr.gt(lit(ZERO)) && self.pr.le(lit(ONE)) && self.pr.is_finite()
    }
}

/// The distribution with the given parameters, where it can have them.
pub open spec fn try_new_spec(r: u64, pr: F64) -> Result<NegativeBinomial, NegativeBinomialError> {
    if r == 0 {
        Err(NegativeBinomialError::RNotPositive)
    } else if !(pr.gt(lit(ZERO)) && pr.le(lit(ONE)) && pr.is_finite()) {
        Err(NegativeBinomialError::PrOutOfRange(pr))
    } else {
        Ok(NegativeBinomial { r, pr })
    }
}

impl NegativeBinomial {
    /// The distribution with the given parameters, where it can have them.
    pub fn try_new(r: u64, pr: F64) -> (result: Result<NegativeBinomial, NegativeBinomialError>)
        ensures
            result == try_new_spec(r, pr),
    {
        if r == 0 {
            Err(NegativeBinomialError::RNotPositive)
        } else if !(pr.gt(lit(ZERO)) && pr.le(lit(ONE)) && pr.is_finite()) {
            Err(NegativeBinomialError::PrOutOfRange(pr))
        } else {
            Ok(NegativeBinomial { r, pr })
        }
    }
}

impl NegativeBinomial {
    /// The distribution with the given parameters.
    pub fn new(r: u64, pr: F64) -> (result: NegativeBinomial)
        requires
            try_new_spec(r, pr) is Ok,
        ensures
            try_new_spec(r, pr) == Ok::<NegativeBinomial, NegativeBinomialError>(result),
    {
        proof {
            lemma_new_valid(r, pr);
        }
        NegativeBinomial { r, pr }
    }

    /// The parameter `r`.
    pub fn r(&self) -> (result: u64)
        ensures
            result == self.r,
    {
        self.r
    }

    /// The parameter `pr`.
    pub fn pr(&self) -> (r: F64)
        ensures
            r == self.pr,
    {
        self.pr
    }
}

/// The constructor succeeds exactly on valid parameters, and keeps them.
pub proof fn lemma_new_valid(r: u64, pr: F64)
    ensures
        try_new_spec(r, pr) is Ok <==> (NegativeBinomial { r, pr }).valid(),
        try_new_spec(r, pr) matches Ok(d) ==> d == (NegativeBinomial { r, pr }),
{
    broadcast use lemma_lt_units;
    broadcast use lemma_le_units;
    lemma_order(0, ONE as int);
}

pub open spec fn check_p_spec(p: F64) -> Result<(), NegativeBinomialError> {
    if !within(p, lit(ZERO), lit(ONE)) || !p.is_finite() {
        Err(NegativeBinomialError::ProbabilityOutOfRange(p))
    } else {
        Ok(())
    }
}

/// `p` is a probability.
#[verifier::when_used_as_spec(check_p_spec)]
pub fn check_p(p: F64) -> (r: Result<(), NegativeBinomialError>)
    ensures
        r == check_p(p),
{
    if !within(p, lit(ZERO), lit(ONE)) || !p.is_finite() {
        Err(NegativeBinomialError::ProbabilityOutOfRange(p))
    } else {
        Ok(())
    }
}

pub open spec fn deviation_spec<M: Fn(Elementary) -> F64>(
    m: &M,
    p: F64,
    q: F64,
    sf: F64,
    rf: F64,
    pr: F64,
) -> F64 {
    let (below, above) = beta_inc_value(m, rf, sf + lit(ONE), pr, lit(ONE) - pr);
    pivot(p, q, below, above)
}

/// How far the distribution function at `sf` is from `p`, or its complement from `q`.
#[verifier::when_used_as_spec(deviation_spec)]
pub fn deviation<M: Fn(Elementary) -> F64>(
    m: &M,
    p: F64,
    q: F64,
    sf: F64,
    rf: F64,
    pr: F64,
) -> (r: F64)
    requires
        lawful(m),
    ensures
        r == deviation(m, p, q, sf, rf, pr),
{
    let (below, above) = beta_inc_value(m, rf, sf + lit(ONE), pr, lit(ONE) - pr);
    pivot(p, q, below, above)
}

/// The number of successes to wait for that puts the probability `p` on at most `s`
/// failures.
pub open spec fn solve_r_spec<M: Fn(Elementary) -> F64>(
    m: &M,
    p: F64,
    pr: F64,
    s: u64,
) -> Result<F64, NegativeBinomialError> {
    match check_p(p) {
        Err(e) => Err(e),
        Ok(_) => {
            if !(pr.gt(lit(ZERO)) && pr.le(lit(ONE))) {
                Err(NegativeBinomialError::PrOutOfRange(pr))
            } else {
                let sf = F64::from_u64(s);
                let q = lit(ONE) - p;
                match solve_monotone_spec(
                    BracketStrategy::Decreasing { small: lit(ZERO),
                        big: lit(0x7E37_E43C_8800_759C /* 1.0e300 */), start: lit(FIVE) },
                    |rf: F64| deviation(m, p, q, sf, rf, pr),
                ) {
                    Ok(found) => Ok(found),
                    Err(e) => Err(NegativeBinomialError::Solver(e)),
                }
            }
        },
    }
}

impl NegativeBinomial {
    /// The number of successes to wait for that puts the probability `p` on at most `s`
    /// failures.
    pub fn solve_r<M: Fn(Elementary) -> F64>(
        m: &M,
        p: F64,
        pr: F64,
        s: u64,
    ) -> (r: Result<F64, NegativeBinomialError>)
        requires
            lawful(m),
        ensures
            r == solve_r_spec(m, p, pr, s),
    {
        check_p(p)?;
        if !(pr.gt(lit(ZERO)) && pr.le(lit(ONE))) {
            Err(NegativeBinomialError::PrOutOfRange(pr))
        } else {
            let sf = F64::from_u64(s);
            let q = lit(ONE) - p;
            let objective = |rf: F64| -> (v: F64)
                ensures
                    v == deviation(m, p, q, sf, rf, pr),
                { deviation(m, p, q, sf, rf, pr) };
            let answer = solve_monotone(
                BracketStrategy::Decreasing { small: lit(ZERO),
                    big: lit(0x7E37_E43C_8800_759C /* 1.0e300 */), start: lit(FIVE) },
                &objective,
            );
            proof {
                assert(agrees(&objective, |rf: F64| deviation(m, p, q, sf, rf, pr)));
            }
            match answer {
                Ok(found) => Ok(found),
                Err(e) => Err(NegativeBinomialError::Solver(e)),
            }
        }
    }
}

/// `solve_r` from the lower tail alone, with at most 1e15 successes.
pub open spec fn solve_trials_spec<M: Fn(Elementary) -> F64>(
    m: &M,
    p: F64,
    pr: F64,
    s: u64,
) -> Result<F64, NegativeBinomialError> {
    match check_p(p) {
        Err(e) => Err(e),
        Ok(_) => {
            if !(pr.gt(lit(ZERO)) && pr.le(lit(ONE))) {
                Err(NegativeBinomialError::PrOutOfRange(pr))
            } else {
                let sf = F64::from_u64(s);
                match solve_monotone_spec(
                    BracketStrategy::Decreasing { small: lit(0x01A5_6E1F_C2F8_F359 /* 1e-300 */),
                        big: lit(0x430C_6BF5_2634_0000 /* 1e15 */), start: lit(ONE) },
                    |rf: F64| beta_inc_value(m, rf, sf + lit(ONE), pr, lit(ONE) - pr).0 - p,
                ) {
                    Ok(found) => Ok(found),
                    Err(e) => Err(NegativeBinomialError::Solver(e)),
                }
            }
        },
    }
}

impl NegativeBinomial {
    /// `solve_r` from the lower tail alone, with at most 1e15 successes.
    pub fn solve_trials<M: Fn(Elementary) -> F64>(
        m: &M,
        p: F64,
        pr: F64,
        s: u64,
    ) -> (r: Result<F64, NegativeBinomialError>)
        requires
            lawful(m),
        ensures
            r == solve_trials_spec(m, p, pr, s),
    {
        check_p(p)?;
        if !(pr.gt(lit(ZERO)) && pr.le(lit(ONE))) {
            Err(NegativeBinomialError::PrOutOfRange(pr))
        } else {
            let sf = F64::from_u64(s);
            let objective = |rf: F64| -> (v: F64)
                ensures
                    v == beta_inc_value(m, rf, sf + lit(ONE), pr, lit(ONE) - pr).0 - p,
                { beta_inc_value(m, rf, sf + lit(ONE), pr, lit(ONE) - pr).0 - p };
            let answer = solve_monotone(
                BracketStrategy::Decreasing { small: lit(0x01A5_6E1F_C2F8_F359 /* 1e-300 */),
                    big: lit(0x430C_6BF5_2634_0000 /* 1e15 */), start: lit(ONE) },
                &objective,
            );
            proof {
                assert(agrees(&objective, |rf: F64| beta_inc_value(m, rf, sf + lit(ONE), pr,
                    lit(ONE) - pr).0 - p));
            }
            match answer {
                Ok(found) => Ok(found),
                Err(e) => Err(NegativeBinomialError::Solver(e)),
            }
        }
    }
}

/// The success probability that puts the probability `p` on at most `s` failures.
pub open spec fn solve_pr_spec<M: Fn(Elementary) -> F64>(
    m: &M,
    p: F64,
    r: u64,
    s: u64,
) -> Result<F64, NegativeBinomialError> {
    match check_p(p) {
        Err(e) => Err(e),
        Ok(_) => {
            let rf = F64::from_u64(r);
            let sf = F64::from_u64(s);
            let q = lit(ONE) - p;
            match solve_monotone_spec(
                BracketStrategy::Increasing { small: lit(ZERO), big: lit(ONE), start: lit(HALF) },
                |pr: F64| deviation(m, p, q, sf, rf, pr),
            ) {
                Ok(found) => Ok(found),
                Err(e) => Err(NegativeBinomialError::Solver(e)),
            }
        },
    }
}

impl NegativeBinomial {
    /// The success probability that puts the probability `p` on at most `s` failures.
    pub fn solve_pr<M: Fn(Elementary) -> F64>(
        m: &M,
        p: F64,
        r: u64,
        s: u64,
    ) -> (result: Result<F64, NegativeBinomialError>)
        requires
            lawful(m),
        ensures
            result == solve_pr_spec(m, p, r, s),
    {
        check_p(p)?;
        let rf = F64::from_u64(r);
        let sf = F64::from_u64(s);
        let q = lit(ONE) - p;
        let objective = |pr: F64| -> (v: F64)
            ensures
                v == deviation(m, p, q, sf, rf, pr),
            { deviation(m, p, q, sf, rf, pr) };
        let answer = solve_monotone(
            BracketStrategy::Increasing { small: lit(ZERO), big: lit(ONE), start: lit(HALF) },
            &objective,
        );
        proof {
            assert(agrees(&objective, |pr: F64| deviation(m, p, q, sf, rf, pr)));
        }
        match answer {
            Ok(found) => Ok(found),
            Err(e) => Err(NegativeBinomialError::Solver(e)),
        }
    }
}

pub open spec fn cdf_at_spec<M: Fn(Elementary) -> F64>(m: &M, r: u64, pr: F64, s: u64) -> F64 {
    beta_inc_value(m, F64::from_u64(r), F64::from_u64(s) + lit(ONE), pr, lit(ONE) - pr).0
}

/// The probability of at most `s` failures.
#[verifier::when_used_as_spec(cdf_at_spec)]
pub fn cdf_at<M: Fn(Elementary) -> F64>(m: &M, r: u64, pr: F64, s: u64) -> (result: F64)
    requires
        lawful(m),
    ensures
        result == cdf_at(m, r, pr, s),
{
    beta_inc_value(m, F64::from_u64(r), F64::from_u64(s) + lit(ONE), pr, lit(ONE) - pr).0
}

pub open spec fn ccdf_at_spec<M: Fn(Elementary) -> F64>(m: &M, r: u64, pr: F64, s: u64) -> F64 {
    beta_inc_value(m, F64::from_u64(r), F64::from_u64(s) + lit(ONE), pr, lit(ONE) - pr).1
}

/// The probability of more than `s` failures.
#[verifier::when_used_as_spec(ccdf_at_spec)]
pub fn ccdf_at<M: Fn(Elementary) -> F64>(m: &M, r: u64, pr: F64, s: u64) -> (result: F64)
    requires
        lawful(m),
    ensures
        result == ccdf_at(m, r, pr, s),
{
    beta_inc_value(m, F64::from_u64(r), F64::from_u64(s) + lit(ONE), pr, lit(ONE) - pr).1
}

pub open spec fn ln_mass_spec<M: Fn(Elementary) -> F64>(m: &M, r: u64, pr: F64, s: u64) -> F64 {
    let rf = F64::from_u64(r);
    let sf = F64::from_u64(s);
    let log_c = gamma_log(m, sf + rf) - gamma_log(m, sf + lit(ONE)) - gamma_log(m, rf);
    let log_q = if pr.equals(lit(ONE)) {
        if s == 0 {
            lit(ZERO)
        } else {
            lit(NEG_INFINITY)
        }
    } else {
        sf * ln(m, lit(ONE) - pr)
    };
    log_c + rf * ln(m, pr) + log_q
}

/// The logarithm of the probability of `s` failures.
#[verifier::when_used_as_spec(ln_mass_spec)]
pub fn ln_mass<M: Fn(Elementary) -> F64>(m: &M, r: u64, pr: F64, s: u64) -> (result: F64)
    requires
        lawful(m),
    ensures
        result == ln_mass(m, r, pr, s),
{
    let rf = F64::from_u64(r);
    let sf = F64::from_u64(s);
    let log_c = gamma_log(m, sf + rf) - gamma_log(m, sf + lit(ONE)) - gamma_log(m, rf);
    let log_q = if pr.equals(lit(ONE)) {
        if s == 0 {
            lit(ZERO)
        } else {
            lit(NEG_INFINITY)
        }
    } else {
        sf * ln(m, lit(ONE) - pr)
    };
    log_c + rf * ln(m, pr) + log_q
}

pub open spec fn mass_spec<M: Fn(Elementary) -> F64>(m: &M, r: u64, pr: F64, s: u64) -> F64 {
    exp(m, ln_mass(m, r, pr, s))
}

/// The probability of `s` failures.
#[verifier::when_used_as_spec(mass_spec)]
pub fn mass<M: Fn(Elementary) -> F64>(m: &M, r: u64, pr: F64, s: u64) -> (result: F64)
    requires
        lawful(m),
    ensures
        result == mass(m, r, pr, s),
{
    exp(m, ln_mass(m, r, pr, s))
}

pub open spec fn mean_of_spec(r: u64, pr: F64) -> F64 {
    F64::from_u64(r) * (lit(ONE) - pr) / pr
}

/// The mean.
#[verifier::when_used_as_spec(mean_of_spec)]
pub fn mean_of(r: u64, pr: F64) -> (result: F64)
    ensures
        result == mean_of(r, pr),
{
    F64::from_u64(r) * (lit(ONE) - pr) / pr
}

pub open spec fn variance_of_spec(r: u64, pr: F64) -> F64 {
    mean_of(r, pr) / pr
}

/// The variance.
#[verifier::when_used_as_spec(variance_of_spec)]
pub fn variance_of(r: u64, pr: F64) -> (result: F64)
    ensures
        result == variance_of(r, pr),
{
    mean_of(r, pr) / pr
}

pub open spec fn far_count_spec(r: u64, pr: F64) -> u64 {
    let mean = F64::from_u64(r) * (lit(ONE) - pr) / pr;
    let sd = (mean / pr).sqrt();
    (mean + lit(TEN) * sd + lit(TEN)).ceil().to_u64()
}

/// A count ten standard deviations above the mean, and ten.
#[verifier::when_used_as_spec(far_count_spec)]
pub fn far_count(r: u64, pr: F64) -> (result: u64)
    ensures
        result == far_count(r, pr),
{
    let mean = F64::from_u64(r) * (lit(ONE) - pr) / pr;
    let sd = (mean / pr).sqrt();
    (mean + lit(TEN) * sd + lit(TEN)).ceil().to_u64()
}

/// The smallest count whose probability, with those below it, reaches `p`.
pub open spec fn quantile_spec<M: Fn(Elementary) -> F64>(m: &M, r: u64, pr: F64, p: F64) -> Result<
    u64,
    NegativeBinomialError,
> {
    match check_p(p) {
        Err(e) => Err(e),
        Ok(_) => {
            let short = |s: u64| cdf_at(m, r, pr, s).lt(p);
            if p.equals(lit(ZERO)) {
                Ok(0)
            } else if p.equals(lit(ONE)) {
                Ok(u64::MAX)
            } else {
                let hi = grow_spec(short, far_count(r, pr));
                if short(hi) {
                    Ok(u64::MAX)
                } else {
                    Ok(least_spec(short, 0, hi))
                }
            }
        },
    }
}

/// The smallest count whose probability, with those below it, reaches `p`.
#[verifier::when_used_as_spec(quantile_spec)]
pub fn quantile<M: Fn(Elementary) -> F64>(
    m: &M,
    r: u64,
    pr: F64,
    p: F64,
) -> (result: Result<u64, NegativeBinomialError>)
    requires
        lawful(m),
    ensures
        result == quantile(m, r, pr, p),
{
    check_p(p)?;
    if p.equals(lit(ZERO)) {
        return Ok(0);
    }
    if p.equals(lit(ONE)) {
        return Ok(u64::MAX);
    }
    let below = |s: u64| -> (b: bool)
        ensures
            b == cdf_at(m, r, pr, s).lt(p),
        { cdf_at(m, r, pr, s).lt(p) };
    let ghost short = |s: u64| cdf_at(m, r, pr, s).lt(p);
    proof {
        assert(decides(&below, short));
    }
    let hi: u64 = grow(&below, far_count(r, pr));
    if below(hi) {
        return Ok(u64::MAX);
    }
    Ok(least(&below, 0, hi))
}

impl<M: Fn(Elementary) -> F64> DiscreteCdf<M> for NegativeBinomial {
    type Error = NegativeBinomialError;

    open spec fn cdf_spec(&self, m: &M, s: u64) -> F64 {
        cdf_at(m, self.r, self.pr, s)
    }

    fn cdf(&self, m: &M, s: u64) -> (r: F64) {
        cdf_at(m, self.r, self.pr, s)
    }

    open spec fn ccdf_spec(&self, m: &M, s: u64) -> F64 {
        ccdf_at(m, self.r, self.pr, s)
    }

    fn ccdf(&self, m: &M, s: u64) -> (r: F64) {
        ccdf_at(m, self.r, self.pr, s)
    }

    open spec fn inverse_cdf_spec(&self, m: &M, p: F64) -> Result<u64, NegativeBinomialError> {
        quantile(m, self.r, self.pr, p)
    }

    fn inverse_cdf(&self, m: &M, p: F64) -> (r: Result<u64, NegativeBinomialError>) {
        quantile(m, self.r, self.pr, p)
    }

    fn sf(&self, m: &M, s: u64) -> (r: F64) {
        ccdf_at(m, self.r, self.pr, s)
    }
}

impl<M: Fn(Elementary) -> F64> Discrete<M> for NegativeBinomial {
    open spec fn pmf_spec(&self, m: &M, s: u64) -> F64 {
        mass(m, self.r, self.pr, s)
    }

    fn pmf(&self, m: &M, s: u64) -> (r: F64) {
        mass(m, self.r, self.pr, s)
    }

    open spec fn ln_pmf_spec(&self, m: &M, s: u64) -> F64 {
        ln_mass(m, self.r, self.pr, s)
    }

    fn ln_pmf(&self, m: &M, s: u64) -> (r: F64) {
        ln_mass(m, self.r, self.pr, s)
    }
}

impl Mean for NegativeBinomial {
    open spec fn mean_spec(&self) -> F64 {
        mean_of(self.r, self.pr)
    }

    fn mean(&self) -> (r: F64) {
        mean_of(self.r, self.pr)
    }
}

impl Variance for NegativeBinomial {
    open spec fn variance_spec(&self) -> F64 {
        variance_of(self.r, self.pr)
    }

    fn variance(&self) -> (r: F64) {
        variance_of(self.r, self.pr)
    }

    fn std_dev(&self) -> (r: F64) {
        variance_of(self.r, self.pr).sqrt()
    }
}

/// The largest count with at least the probability `q` above it, or zero where there is
/// none.
pub open spec fn upper_count_spec<M: Fn(Elementary) -> F64>(
    m: &M,
    r: u64,
    pr: F64,
    q: F64,
) -> Result<u64, NegativeBinomialError> {
    match check_p(q) {
        Err(e) => Err(e),
        Ok(_) => {
            let full = |s: u64| ccdf_at(m, r, pr, s).ge(q);
            if q.equals(lit(ZERO)) {
                Ok(u64::MAX)
            } else if q.equals(lit(ONE)) {
                Ok(0)
            } else {
                let hi = grow_spec(full, far_count(r, pr));
                if full(hi) {
                    Ok(u64::MAX)
                } else {
                    Ok(before(least_spec(full, 0, hi)))
                }
            }
        },
    }
}

/// The largest count with at least the probability `q` above it, or zero where there is
/// none.
#[verifier::when_used_as_spec(upper_count_spec)]
pub fn upper_count<M: Fn(Elementary) -> F64>(
    m: &M,
    r: u64,
    pr: F64,
    q: F64,
) -> (result: Result<u64, NegativeBinomialError>)
    requires
        lawful(m),
    ensures
        result == upper_count(m, r, pr, q),
{
    check_p(q)?;
    if q.equals(lit(ZERO)) {
        return Ok(u64::MAX);
    }
    if q.equals(lit(ONE)) {
        return Ok(0);
    }
    let reaches = |s: u64| -> (b: bool)
        ensures
            b == ccdf_at(m, r, pr, s).ge(q),
        { ccdf_at(m, r, pr, s).ge(q) };
    let ghost full = |s: u64| ccdf_at(m, r, pr, s).ge(q);
    proof {
        assert(decides(&reaches, full));
    }
    let hi: u64 = grow(&reaches, far_count(r, pr));
    if reaches(hi) {
        return Ok(u64::MAX);
    }
    Ok(before(least(&reaches, 0, hi)))
}

impl NegativeBinomial {
    /// The largest count with at least the probability `q` above it, or zero where there
    /// is none.
    pub fn inverse_sf<M: Fn(Elementary) -> F64>(
        &self,
        m: &M,
        q: F64,
    ) -> (r: Result<u64, NegativeBinomialError>)
        requires
            lawful(m),
        ensures
            r == upper_count(m, self.r, self.pr, q),
    {
        upper_count(m, self.r, self.pr, q)
    }
}

} // verus!
