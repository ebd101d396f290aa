//! The binomial distribution.
use crate::consts::{FIVE, HALF, NEG_INFINITY, ONE, ZERO};
use crate::error::{SolverError};
use crate::float::number::{lemma_le_units, lemma_lt_units, lemma_order};
use crate::solver::bracket::{solve_monotone, solve_monotone_spec, BracketStrategy};
use crate::special::beta_inc::beta_inc_value;
use crate::special::gamma::gamma_log;
use super::common::pivot;
use super::counts::{before, decides, least, least_spec};
use crate::float::{lit, F64};
use crate::functions::{agrees, exp, lawful, ln, Elementary};
use crate::special::poly::within;
use crate::traits::{Discrete, DiscreteCdf, Mean, Variance};
use vstd::prelude::*;

verus! {

/// A binomial distribution, by the number of trials and the probability of a success.
#[derive(Clone, Copy, Debug, PartialEq, Eq, Structural)]
pub struct Binomial {
    pub n: u64,
    pub pr: F64,
}

/// What is wrong with the arguments, or why a search gave nothing.
#[derive(Clone, Copy, Debug, PartialEq, Eq, Structural)]
pub enum BinomialError {
    PrOutOfRange(F64),
    SuccessesExceedTrials { s: u64, n: u64 },
    ProbabilityOutOfRange(F64),
    Solver(SolverError),
}

impl Binomial {
    /// The parameters are such as the distribution can have.
    pub open spec fn valid(self) -> bool {
        within(self.pr, lit(ZERO), lit(ONE)) && self.pr.is_finite()
    }
}

/// The distribution with the given parameters, where it can have them.
pub open spec fn try_new_spec(n: u64, pr: F64) -> Result<Binomial, BinomialError> {
    if !within(pr, lit(ZERO), lit(ONE)) || !pr.is_finite() {
        Err(BinomialError::PrOutOfRange(pr))
    } else {
        Ok(Binomial { n, pr })
    }
}

impl Binomial {
    /// The distribution with the given parameters, where it can have them.
    pub fn try_new(n: u64, pr: F64) -> (r: Result<Binomial, BinomialError>)
        ensures
            r == try_new_spec(n, pr),
    {
        if !within(pr, lit(ZERO), lit(ONE)) || !pr.is_finite() {
            Err(BinomialError::PrOutOfRange(pr))
        } else {
            Ok(Binomial { n, pr })
        }
    }
}

impl Binomial {
    /// The distribution with the given parameters.
    pub fn new(n: u64, pr: F64) -> (r: Binomial)
        requires
            try_new_spec(n, pr) is Ok,
        ensures
            try_new_spec(n, pr) == Ok::<Binomial, BinomialError>(r),
    {
        proof {
            lemma_new_valid(n, pr);
        }
        Binomial { n, pr }
    }

    /// The parameter `n`.
    pub fn n(&self) -> (r: u64)
        ensures
            r == self.n,
    {
        self.n
    }

    /// The parameter `pr`.
    pub fn pr(&self) -> (r: F64)
        ensures
            r == self.pr,
    {
        self.pr
    }
}

/// The constructor succeeds exactly on valid parameters, and keeps them.
pub proof fn lemma_new_valid(n: u64, pr: F64)
    ensures
        try_new_spec(n, pr) is Ok <==> (Binomial { n, pr }).valid(),
        try_new_spec(n, pr) matches Ok(d) ==> d == (Binomial { n, pr }),
{
    broadcast use lemma_lt_units;
    broadcast use lemma_le_units;
    lemma_order(0, ONE as int);
}

pub open spec fn check_p_spec(p: F64) -> Result<(), BinomialError> {
    if !within(p, lit(ZERO), lit(ONE)) || !p.is_finite() {
        Err(BinomialError::ProbabilityOutOfRange(p))
    } else {
        Ok(())
    }
}

/// `p` is a probability.
#[verifier::when_used_as_spec(check_p_spec)]
pub fn check_p(p: F64) -> (r: Result<(), BinomialError>)
    ensures
        r == check_p(p),
{
    if !within(p, lit(ZERO), lit(ONE)) || !p.is_finite() {
        Err(BinomialError::ProbabilityOutOfRange(p))
    } else {
        Ok(())
    }
}

pub open spec fn cumbin_spec<M: Fn(Elementary) -> F64>(m: &M, s: u64, n: u64, pr: F64) -> (F64, F64) {
    if s >= n {
        (lit(ONE), lit(ZERO))
    } else {
        let sf = F64::from_u64(s);
        let (above, below) = beta_inc_value(m, sf + lit(ONE), F64::from_u64(n) - sf, pr, lit(ONE)
            - pr);
        (below, above)
    }
}

/// The probability of at most `s` successes in `n` trials, and its complement.
#[verifier::when_used_as_spec(cumbin_spec)]
pub fn cumbin<M: Fn(Elementary) -> F64>(m: &M, s: u64, n: u64, pr: F64) -> (r: (F64, F64))
    requires
        lawful(m),
    ensures
        r == cumbin(m, s, n, pr),
{
    if s >= n {
        (lit(ONE), lit(ZERO))
    } else {
        let sf = F64::from_u64(s);
        let (above, below) = beta_inc_value(m, sf + lit(ONE), F64::from_u64(n) - sf, pr, lit(ONE)
            - pr);
        (below, above)
    }
}

pub open spec fn trials_deviation_spec<M: Fn(Elementary) -> F64>(
    m: &M,
    p: F64,
    q: F64,
    sf: F64,
    pr: F64,
    n: F64,
) -> F64 {
    if sf.ge(n) {
        if p.le(q) {
            lit(ONE) - p
        } else {
            q.negated()
        }
    } else {
        let (above, below) = beta_inc_value(m, sf + lit(ONE), n - sf, pr, lit(ONE) - pr);
        pivot(p, q, below, above)
    }
}

/// How far the distribution function at `sf` is from `p` for `n` trials.
#[verifier::when_used_as_spec(trials_deviation_spec)]
pub fn trials_deviation<M: Fn(Elementary) -> F64>(
    m: &M,
    p: F64,
    q: F64,
    sf: F64,
    pr: F64,
    n: F64,
) -> (r: F64)
    requires
        lawful(m),
    ensures
        r == trials_deviation(m, p, q, sf, pr, n),
{
    if sf.ge(n) {
        if p.le(q) {
            lit(ONE) - p
        } else {
            q.negated()
        }
    } else {
        let (above, below) = beta_inc_value(m, sf + lit(ONE), n - sf, pr, lit(ONE) - pr);
        pivot(p, q, below, above)
    }
}

pub open spec fn pr_deviation_spec<M: Fn(Elementary) -> F64>(
    m: &M,
    p: F64,
    q: F64,
    sf: F64,
    nf: F64,
    pr: F64,
) -> F64 {
    let (above, below) = beta_inc_value(m, sf + lit(ONE), nf - sf, pr, lit(ONE) - pr);
    pivot(p, q, below, above)
}

/// How far the distribution function at `sf` is from `p` for the success probability
/// `pr`.
#[verifier::when_used_as_spec(pr_deviation_spec)]
pub fn pr_deviation<M: Fn(Elementary) -> F64>(
    m: &M,
    p: F64,
    q: F64,
    sf: F64,
    nf: F64,
    pr: F64,
) -> (r: F64)
    requires
        lawful(m),
    ensures
        r == pr_deviation(m, p, q, sf, nf, pr),
{
    let (above, below) = beta_inc_value(m, sf + lit(ONE), nf - sf, pr, lit(ONE) - pr);
    pivot(p, q, below, above)
}

/// The number of trials that puts the probability `p` on at most `s` successes.
pub open spec fn solve_trials_spec<M: Fn(Elementary) -> F64>(
    m: &M,
    p: F64,
    pr: F64,
    s: u64,
) -> Result<F64, BinomialError> {
    match check_p(p) {
        Err(e) => Err(e),
        Ok(_) => {
            if !within(pr, lit(ZERO), lit(ONE)) || !pr.is_finite() {
                Err(BinomialError::PrOutOfRange(pr))
            } else {
                let sf = F64::from_u64(s);
                let q = lit(ONE) - p;
                match solve_monotone_spec(
                    BracketStrategy::Decreasing { small: lit(ZERO),
                        big: lit(0x7E37_E43C_8800_759C /* 1.0e300 */), start: lit(FIVE) },
                    |n: F64| trials_deviation(m, p, q, sf, pr, n),
                ) {
                    Ok(found) => Ok(found),
                    Err(e) => Err(BinomialError::Solver(e)),
                }
            }
        },
    }
}

impl Binomial {
    /// The number of trials that puts the probability `p` on at most `s` successes.
    pub fn solve_trials<M: Fn(Elementary) -> F64>(
        m: &M,
        p: F64,
        pr: F64,
        s: u64,
    ) -> (r: Result<F64, BinomialError>)
        requires
            lawful(m),
        ensures
            r == solve_trials_spec(m, p, pr, s),
    {
        check_p(p)?;
        if !within(pr, lit(ZERO), lit(ONE)) || !pr.is_finite() {
            Err(BinomialError::PrOutOfRange(pr))
        } else {
            let sf = F64::from_u64(s);
            let q = lit(ONE) - p;
            let objective = |n: F64| -> (v: F64)
                ensures
                    v == trials_deviation(m, p, q, sf, pr, n),
                { trials_deviation(m, p, q, sf, pr, n) };
            let answer = solve_monotone(
                BracketStrategy::Decreasing { small: lit(ZERO),
                    big: lit(0x7E37_E43C_8800_759C /* 1.0e300 */), start: lit(FIVE) },
                &objective,
            );
            proof {
                assert(agrees(&objective, |n: F64| trials_deviation(m, p, q, sf, pr, n)));
            }
            match answer {
                Ok(found) => Ok(found),
                Err(e) => Err(BinomialError::Solver(e)),
            }
        }
    }
}

/// The success probability that puts the probability `p` on at most `s` successes.
pub open spec fn solve_pr_spec<M: Fn(Elementary) -> F64>(
    m: &M,
    p: F64,
    n: u64,
    s: u64,
) -> Result<F64, BinomialError> {
    match check_p(p) {
        Err(e) => Err(e),
        Ok(_) => {
            if s > n {
                Err(BinomialError::SuccessesExceedTrials { s, n })
            } else {
                let nf = F64::from_u64(n);
                let sf = F64::from_u64(s);
                let q = lit(ONE) - p;
                match solve_monotone_spec(
                    BracketStrategy::Decreasing { small: lit(ZERO), big: lit(ONE),
                        start: lit(HALF) },
                    |pr: F64| pr_deviation(m, p, q, sf, nf, pr),
                ) {
                    Ok(found) => Ok(found),
                    Err(e) => Err(BinomialError::Solver(e)),
                }
            }
        },
    }
}

impl Binomial {
    /// The success probability that puts the probability `p` on at most `s` successes.
    pub fn solve_pr<M: Fn(Elementary) -> F64>(
        m: &M,
        p: F64,
        n: u64,
        s: u64,
    ) -> (r: Result<F64, BinomialError>)
        requires
            lawful(m),
        ensures
            r == solve_pr_spec(m, p, n, s),
    {
        check_p(p)?;
        if s > n {
            Err(BinomialError::SuccessesExceedTrials { s, n })
        } else {
            let nf = F64::from_u64(n);
            let sf = F64::from_u64(s);
            let q = lit(ONE) - p;
            let objective = |pr: F64| -> (v: F64)
                ensures
                    v == pr_deviation(m, p, q, sf, nf, pr),
                { pr_deviation(m, p, q, sf, nf, pr) };
            let answer = solve_monotone(
                BracketStrategy::Decreasing { small: lit(ZERO), big: lit(ONE), start: lit(HALF) },
                &objective,
            );
            proof {
                assert(agrees(&objective, |pr: F64| pr_deviation(m, p, q, sf, nf, pr)));
            }
            match answer {
                Ok(found) => Ok(found),
                Err(e) => Err(BinomialError::Solver(e)),
            }
        }
    }
}

pub open spec fn cdf_at_spec<M: Fn(Elementary) -> F64>(m: &M, n: u64, pr: F64, s: u64) -> F64 {
    cumbin(m, s, n, pr).0
}

/// The probability of at most `s` successes.
#[verifier::when_used_as_spec(cdf_at_spec)]
pub fn cdf_at<M: Fn(Elementary) -> F64>(m: &M, n: u64, pr: F64, s: u64) -> (r: F64)
    requires
        lawful(m),
    ensures
        r == cdf_at(m, n, pr, s),
{
    cumbin(m, s, n, pr).0
}

pub open spec fn ccdf_at_spec<M: Fn(Elementary) -> F64>(m: &M, n: u64, pr: F64, s: u64) -> F64 {
    cumbin(m, s, n, pr).1
}

/// The probability of more than `s` successes.
#[verifier::when_used_as_spec(ccdf_at_spec)]
pub fn ccdf_at<M: Fn(Elementary) -> F64>(m: &M, n: u64, pr: F64, s: u64) -> (r: F64)
    requires
        lawful(m),
    ensures
        r == ccdf_at(m, n, pr, s),
{
    cumbin(m, s, n, pr).1
}

pub open spec fn ln_mass_spec<M: Fn(Elementary) -> F64>(m: &M, n: u64, pr: F64, s: u64) -> F64 {
    if s > n {
        lit(NEG_INFINITY)
    } else {
        let nf = F64::from_u64(n);
        let sf = F64::from_u64(s);
        let log_c = gamma_log(m, nf + lit(ONE)) - gamma_log(m, sf + lit(ONE))
            - gamma_log(m, nf - sf + lit(ONE));
        let log_pr = if pr.equals(lit(ZERO)) {
            if s == 0 {
                lit(ZERO)
            } else {
                lit(NEG_INFINITY)
            }
        } else {
            sf * ln(m, pr)
        };
        let log_q = if pr.equals(lit(ONE)) {
            if s == n {
                lit(ZERO)
            } else {
                lit(NEG_INFINITY)
            }
        } else {
            (nf - sf) * ln(m, lit(ONE) - pr)
        };
        log_c + log_pr + log_q
    }
}

/// The logarithm of the probability of `s` successes.
#[verifier::when_used_as_spec(ln_mass_spec)]
pub fn ln_mass<M: Fn(Elementary) -> F64>(m: &M, n: u64, pr: F64, s: u64) -> (r: F64)
    requires
        lawful(m),
    ensures
        r == ln_mass(m, n, pr, s),
{
    if s > n {
        lit(NEG_INFINITY)
    } else {
        let nf = F64::from_u64(n);
        let sf = F64::from_u64(s);
        let log_c = gamma_log(m, nf + lit(ONE)) - gamma_log(m, sf + lit(ONE))
            - gamma_log(m, nf - sf + lit(ONE));
        let log_pr = if pr.equals(lit(ZERO)) {
            if s == 0 {
                lit(ZERO)
            } else {
                lit(NEG_INFINITY)
            }
        } else {
            sf * ln(m, pr)
        };
        let log_q = if pr.equals(lit(ONE)) {
            if s == n {
                lit(ZERO)
            } else {
                lit(NEG_INFINITY)
            }
        } else {
            (nf - sf) * ln(m, lit(ONE) - pr)
        };
        log_c + log_pr + log_q
    }
}

pub open spec fn mass_spec<M: Fn(Elementary) -> F64>(m: &M, n: u64, pr: F64, s: u64) -> F64 {
    if s > n {
        lit(ZERO)
    } else {
        exp(m, ln_mass(m, n, pr, s))
    }
}

/// The probability of `s` successes.
#[verifier::when_used_as_spec(mass_spec)]
pub fn mass<M: Fn(Elementary) -> F64>(m: &M, n: u64, pr: F64, s: u64) -> (r: F64)
    requires
        lawful(m),
    ensures
        r == mass(m, n, pr, s),
{
    if s > n {
        lit(ZERO)
    } else {
        exp(m, ln_mass(m, n, pr, s))
    }
}

pub open spec fn mean_of_spec(n: u64, pr: F64) -> F64 {
    F64::from_u64(n) * pr
}

/// The mean.
#[verifier::when_used_as_spec(mean_of_spec)]
pub fn mean_of(n: u64, pr: F64) -> (r: F64)
    ensures
        r == mean_of(n, pr),
{
    F64::from_u64(n) * pr
}

pub open spec fn variance_of_spec(n: u64, pr: F64) -> F64 {
    F64::from_u64(n) * pr * (lit(ONE) - pr)
}

/// The variance.
#[verifier::when_used_as_spec(variance_of_spec)]
pub fn variance_of(n: u64, pr: F64) -> (r: F64)
    ensures
        r == variance_of(n, pr),
{
    F64::from_u64(n) * pr * (lit(ONE) - pr)
}

/// The smallest count whose probability, with those below it, reaches `p`.
pub open spec fn quantile_spec<M: Fn(Elementary) -> F64>(m: &M, n: u64, pr: F64, p: F64) -> Result<
    u64,
    BinomialError,
> {
    match check_p(p) {
        Err(e) => Err(e),
        Ok(_) => {
            let short = |s: u64| cdf_at(m, n, pr, s).lt(p);
            if p.equals(lit(ZERO)) {
                Ok(0)
            } else if p.equals(lit(ONE)) {
                Ok(n)
            } else {
                Ok(least_spec(short, 0, n))
            }
        },
    }
}

/// The smallest count whose probability, with those below it, reaches `p`.
#[verifier::when_used_as_spec(quantile_spec)]
pub fn quantile<M: Fn(Elementary) -> F64>(
    m: &M,
    n: u64,
    pr: F64,
    p: F64,
) -> (result: Result<u64, BinomialError>)
    requires
        lawful(m),
    ensures
        result == quantile(m, n, pr, p),
{
    check_p(p)?;
    if p.equals(lit(ZERO)) {
        return Ok(0);
    }
    if p.equals(lit(ONE)) {
        return Ok(n);
    }
    let below = |s: u64| -> (b: bool)
        ensures
            b == cdf_at(m, n, pr, s).lt(p),
        { cdf_at(m, n, pr, s).lt(p) };
    let ghost short = |s: u64| cdf_at(m, n, pr, s).lt(p);
    proof {
        assert(decides(&below, short));
    }
    Ok(least(&below, 0, n))
}

impl<M: Fn(Elementary) -> F64> DiscreteCdf<M> for Binomial {
    type Error = BinomialError;

    open spec fn cdf_spec(&self, m: &M, s: u64) -> F64 {
        cdf_at(m, self.n, self.pr, s)
    }

    fn cdf(&self, m: &M, s: u64) -> (r: F64) {
        cdf_at(m, self.n, self.pr, s)
    }

    open spec fn ccdf_spec(&self, m: &M, s: u64) -> F64 {
        ccdf_at(m, self.n, self.pr, s)
    }

    fn ccdf(&self, m: &M, s: u64) -> (r: F64) {
        ccdf_at(m, self.n, self.pr, s)
    }

    open spec fn inverse_cdf_spec(&self, m: &M, p: F64) -> Result<u64, BinomialError> {
        quantile(m, self.n, self.pr, p)
    }

    fn inverse_cdf(&self, m: &M, p: F64) -> (r: Result<u64, BinomialError>) {
        quantile(m, self.n, self.pr, p)
    }

    fn sf(&self, m: &M, s: u64) -> (r: F64) {
        ccdf_at(m, self.n, self.pr, s)
    }
}

impl<M: Fn(Elementary) -> F64> Discrete<M> for Binomial {
    open spec fn pmf_spec(&self, m: &M, s: u64) -> F64 {
        mass(m, self.n, self.pr, s)
    }

    fn pmf(&self, m: &M, s: u64) -> (r: F64) {
        mass(m, self.n, self.pr, s)
    }

    open spec fn ln_pmf_spec(&self, m: &M, s: u64) -> F64 {
        ln_mass(m, self.n, self.pr, s)
    }

    fn ln_pmf(&self, m: &M, s: u64) -> (r: F64) {
        ln_mass(m, self.n, self.pr, s)
    }
}

impl Mean for Binomial {
    open spec fn mean_spec(&self) -> F64 {
        mean_of(self.n, self.pr)
    }

    fn mean(&self) -> (r: F64) {
        mean_of(self.n, self.pr)
    }
}

impl Variance for Binomial {
    open spec fn variance_spec(&self) -> F64 {
        variance_of(self.n, self.pr)
    }

    fn variance(&self) -> (r: F64) {
        variance_of(self.n, self.pr)
    }

    fn std_dev(&self) -> (r: F64) {
        variance_of(self.n, self.pr).sqrt()
    }
}

/// The largest count with at least the probability `q` above it, or zero where there is
/// none.
pub open spec fn upper_count_spec<M: Fn(Elementary) -> F64>(
    m: &M,
    n: u64,
    pr: F64,
    q: F64,
) -> Result<u64, BinomialError> {
    match check_p(q) {
        Err(e) => Err(e),
        Ok(_) => {
            let full = |s: u64| ccdf_at(m, n, pr, s).ge(q);
            if q.equals(lit(ZERO)) {
                Ok(n)
            } else if q.equals(lit(ONE)) {
                Ok(0)
            } else {
                Ok(before(least_spec(full, 0, n)))
            }
        },
    }
}

/// The largest count with at least the probability `q` above it, or zero where there is
/// none.
#[verifier::when_used_as_spec(upper_count_spec)]
pub fn upper_count<M: Fn(Elementary) -> F64>(
    m: &M,
    n: u64,
    pr: F64,
    q: F64,
) -> (r: Result<u64, BinomialError>)
    requires
        lawful(m),
    ensures
        r == upper_count(m, n, pr, q),
{
    check_p(q)?;
    if q.equals(lit(ZERO)) {
        return Ok(n);
    }
    if q.equals(lit(ONE)) {
        return Ok(0);
    }
    let reaches = |s: u64| -> (b: bool)
        ensures
            b == ccdf_at(m, n, pr, s).ge(q),
        { ccdf_at(m, n, pr, s).ge(q) };
    let ghost full = |s: u64| ccdf_at(m, n, pr, s).ge(q);
    proof {
        assert(decides(&reaches, full));
    }
    Ok(before(least(&reaches, 0, n)))
}

impl Binomial {
    /// The largest count with at least the probability `q` above it, or zero where there
    /// is none.
    pub fn inverse_sf<M: Fn(Elementary) -> F64>(&self, m: &M, q: F64) -> (r: Result<u64, BinomialError>)
        requires
            lawful(m),
        ensures
            r == upper_count(m, self.n, self.pr, q),
    {
        upper_count(m, self.n, self.pr, q)
    }
}

} // verus!
