//! The noncentral F distribution.
use crate::consts::{EPSILON, FIVE, FOUR, HALF, INFINITY, NAN, ONE, PATIENCE, TWO, ZERO};
use crate::error::{SearchError, SolverError};
use crate::float::number::{lemma_le_units, lemma_lt_units, lemma_order};
use crate::search::drive::{search_monotone, search_monotone_spec};
use crate::solver::bracket::{solve_monotone, solve_monotone_spec, BracketStrategy};
use crate::special::beta_inc::beta_inc_value;
use crate::special::gamma::gamma_log;
use super::fisher_snedecor::cumf;
use crate::float::{lit, F64};
use crate::functions::{agrees, exp, lawful, ln, Elementary};
use crate::special::poly::within;
use crate::traits::{ContinuousCdf, Mean, Variance};
use vstd::prelude::*;

verus! {

/// A noncentral F distribution, by both degrees of freedom and its noncentrality.
#[derive(Clone, Copy, Debug, PartialEq, Eq, Structural)]
pub struct FisherSnedecorNoncentral {
    pub dfn: F64,
    pub dfd: F64,
    pub ncp: F64,
}

/// What is wrong with the arguments, or why a search gave nothing.
#[derive(Clone, Copy, Debug, PartialEq, Eq, Structural)]
pub enum FisherSnedecorNoncentralError {
    DfnNotPositive(F64),
    DfnTooSmall(F64),
    DfnNotFinite(F64),
    DfdNotPositive(F64),
    DfdTooSmall(F64),
    DfdNotFinite(F64),
    NcpNegative(F64),
    NcpNotFinite(F64),
    FNotPositive(F64),
    FNotFinite(F64),
    PNotInRange(F64),
    QNotInRange(F64),
    Search(SearchError),
    Solver(SolverError),
}

impl FisherSnedecorNoncentral {
    /// The parameters are such as the distribution can have.
    pub open spec fn valid(self) -> bool {
        &&& self.dfn.is_finite()
        &&& self.dfn.ge(lit(ONE))
        &&& self.dfd.is_finite()
        &&& self.dfd.ge(lit(ONE))
        &&& self.ncp.is_finite()
        &&& self.ncp.ge(lit(ZERO))
    }
}

/// The distribution with the given parameters, where it can have them.
pub open spec fn try_new_spec(
    dfn: F64,
    dfd: F64,
    ncp: F64,
) -> Result<FisherSnedecorNoncentral, FisherSnedecorNoncentralError> {
    if !dfn.is_finite() {
        Err(FisherSnedecorNoncentralError::DfnNotFinite(dfn))
    } else if dfn.le(lit(ZERO)) {
        Err(FisherSnedecorNoncentralError::DfnNotPositive(dfn))
    } else if dfn.lt(lit(ONE)) {
        Err(FisherSnedecorNoncentralError::DfnTooSmall(dfn))
    } else if !dfd.is_finite() {
        Err(FisherSnedecorNoncentralError::DfdNotFinite(dfd))
    } else if dfd.le(lit(ZERO)) {
        Err(FisherSnedecorNoncentralError::DfdNotPositive(dfd))
    } else if dfd.lt(lit(ONE)) {
        Err(FisherSnedecorNoncentralError::DfdTooSmall(dfd))
    } else if !ncp.is_finite() {
        Err(FisherSnedecorNoncentralError::NcpNotFinite(ncp))
    } else if ncp.lt(lit(ZERO)) {
        Err(FisherSnedecorNoncentralError::NcpNegative(ncp))
    } else {
        Ok(FisherSnedecorNoncentral { dfn, dfd, ncp })
    }
}

impl FisherSnedecorNoncentral {
    /// The distribution with the given parameters, where it can have them.
    pub fn try_new(
        dfn: F64,
        dfd: F64,
        ncp: F64,
    ) -> (r: Result<FisherSnedecorNoncentral, FisherSnedecorNoncentralError>)
        ensures
            r == try_new_spec(dfn, dfd, ncp),
    {
        if !dfn.is_finite() {
            Err(FisherSnedecorNoncentralError::DfnNotFinite(dfn))
        } else if dfn.le(lit(ZERO)) {
            Err(FisherSnedecorNoncentralError::DfnNotPositive(dfn))
        } else if dfn.lt(lit(ONE)) {
            Err(FisherSnedecorNoncentralError::DfnTooSmall(dfn))
        } else if !dfd.is_finite() {
            Err(FisherSnedecorNoncentralError::DfdNotFinite(dfd))
        } else if dfd.le(lit(ZERO)) {
            Err(FisherSnedecorNoncentralError::DfdNotPositive(dfd))
        } else if dfd.lt(lit(ONE)) {
            Err(FisherSnedecorNoncentralError::DfdTooSmall(dfd))
        } else if !ncp.is_finite() {
            Err(FisherSnedecorNoncentralError::NcpNotFinite(ncp))
        } else if ncp.lt(lit(ZERO)) {
            Err(FisherSnedecorNoncentralError::NcpNegative(ncp))
        } else {
            Ok(FisherSnedecorNoncentral { dfn, dfd, ncp })
        }
    }
}

impl FisherSnedecorNoncentral {
    /// The distribution with the given parameters.
    pub fn new(dfn: F64, dfd: F64, ncp: F64) -> (r: FisherSnedecorNoncentral)
        requires
            try_new_spec(dfn, dfd, ncp) is Ok,
        ensures
            try_new_spec(dfn, dfd, ncp) == Ok::<FisherSnedecorNoncentral, FisherSnedecorNoncentralError>(r),
    {
        proof {
            lemma_new_valid(dfn, dfd, ncp);
        }
        FisherSnedecorNoncentral { dfn, dfd, ncp }
    }

    /// The parameter `dfn`.
    pub fn dfn(&self) -> (r: F64)
        ensures
            r == self.dfn,
    {
        self.dfn
    }

    /// The parameter `dfd`.
    pub fn dfd(&self) -> (r: F64)
        ensures
            r == self.dfd,
    {
        self.dfd
    }

    /// The parameter `ncp`.
    pub fn ncp(&self) -> (r: F64)
        ensures
            r == self.ncp,
    {
        self.ncp
    }
}

/// The constructor succeeds exactly on valid parameters, and keeps them.
pub proof fn lemma_new_valid(dfn: F64, dfd: F64, ncp: F64)
    ensures
        try_new_spec(dfn, dfd, ncp) is Ok <==> (FisherSnedecorNoncentral { dfn, dfd, ncp }).valid(),
        try_new_spec(dfn, dfd, ncp) matches Ok(d) ==> d == (FisherSnedecorNoncentral { dfn, dfd, ncp }),
{
    broadcast use lemma_lt_units;
    broadcast use lemma_le_units;
    lemma_order(0, ONE as int);
}

pub open spec fn check_p_spec(p: F64) -> Result<(), FisherSnedecorNoncentralError> {
    if !within(p, lit(ZERO), lit(ONE)) || !p.is_finite() {
        Err(FisherSnedecorNoncentralError::PNotInRange(p))
    } else {
        Ok(())
    }
}

/// `p` is a probability.
#[verifier::when_used_as_spec(check_p_spec)]
pub fn check_p(p: F64) -> (r: Result<(), FisherSnedecorNoncentralError>)
    ensures
        r == check_p(p),
{
    if !within(p, lit(ZERO), lit(ONE)) || !p.is_finite() {
        Err(FisherSnedecorNoncentralError::PNotInRange(p))
    } else {
        Ok(())
    }
}

pub open spec fn check_q_spec(q: F64) -> Result<(), FisherSnedecorNoncentralError> {
    if !within(q, lit(ZERO), lit(ONE)) || !q.is_finite() {
        Err(FisherSnedecorNoncentralError::QNotInRange(q))
    } else {
        Ok(())
    }
}

/// `q` is a probability.
#[verifier::when_used_as_spec(check_q_spec)]
pub fn check_q(q: F64) -> (r: Result<(), FisherSnedecorNoncentralError>)
    ensures
        r == check_q(q),
{
    if !within(q, lit(ZERO), lit(ONE)) || !q.is_finite() {
        Err(FisherSnedecorNoncentralError::QNotInRange(q))
    } else {
        Ok(())
    }
}

pub open spec fn sum_down_spec(
    xnonc: F64,
    b: F64,
    xx: F64,
    i: F64,
    xmult: F64,
    adn: F64,
    dnterm: F64,
    betdn: F64,
    sum: F64,
    n: u64,
) -> F64
    decreases n,
{
    if n == 0 {
        sum
    } else {
        if sum.lt(lit(EPSILON)) || (xmult * betdn).lt(lit(0x3F1A_36E2_EB1C_432D /* 1e-4 */) * sum) {
            sum
        } else {
            let xmult1 = xmult * (i / xnonc);
            let adn1 = adn - lit(ONE);
            let dnterm1 = dnterm * ((adn1 + lit(ONE)) / ((adn1 + b) * xx));
            let betdn1 = betdn + dnterm1;
            sum_down_spec(xnonc, b, xx, i - lit(ONE), xmult1, adn1, dnterm1, betdn1, sum
                + xmult1 * betdn1, (n - 1) as u64)
        }
    }
}

/// The terms of the sum below the central one, added to `sum` until one is small: at
/// most `n` of them.
#[verifier::when_used_as_spec(sum_down_spec)]
pub fn sum_down(
    xnonc: F64,
    b: F64,
    xx: F64,
    i_init: F64,
    xmult_init: F64,
    adn_init: F64,
    dnterm_init: F64,
    betdn_init: F64,
    sum_init: F64,
    n: u64,
) -> (r: F64)
    ensures
        r == sum_down(xnonc, b, xx, i_init, xmult_init, adn_init, dnterm_init, betdn_init, sum_init, n),
{
    let mut i = i_init;
    let mut xmult = xmult_init;
    let mut adn = adn_init;
    let mut dnterm = dnterm_init;
    let mut betdn = betdn_init;
    let mut sum = sum_init;
    let mut left: u64 = n;
    while left > 0
        invariant
            left <= n,
            sum_down(xnonc, b, xx, i_init, xmult_init, adn_init, dnterm_init, betdn_init, sum_init, n)
                == sum_down(xnonc, b, xx, i, xmult, adn, dnterm, betdn, sum, left),
        decreases left,
    {
        if sum.lt(lit(EPSILON)) || (xmult * betdn).lt(lit(0x3F1A_36E2_EB1C_432D /* 1e-4 */) * sum) {
            return sum;
        } else {
            let xmult1 = xmult * (i / xnonc);
            let adn1 = adn - lit(ONE);
            let dnterm1 = dnterm * ((adn1 + lit(ONE)) / ((adn1 + b) * xx));
            let betdn1 = betdn + dnterm1;
            let next_i = i - lit(ONE);
            let next_xmult = xmult1;
            let next_adn = adn1;
            let next_dnterm = dnterm1;
            let next_betdn = betdn1;
            let next_sum = sum + xmult1 * betdn1;
            i = next_i;
            xmult = next_xmult;
            adn = next_adn;
            dnterm = next_dnterm;
            betdn = next_betdn;
            sum = next_sum;
        }
        left = left - 1;
    }
    sum
}

pub open spec fn sum_up_spec(
    xnonc: F64,
    b: F64,
    xx: F64,
    i: F64,
    xmult: F64,
    aup: F64,
    upterm: F64,
    betup: F64,
    sum: F64,
    n: u64,
) -> F64
    decreases n,
{
    if n == 0 {
        lit(NAN)
    } else {
        let xmult1 = xmult * (xnonc / i);
        let aup1 = aup + lit(ONE);
        let upterm1 = upterm * ((aup1 + b - lit(TWO)) * xx / (aup1 - lit(ONE)));
        let betup1 = betup - upterm1;
        let sum1 = sum + xmult1 * betup1;
        if sum1.lt(lit(EPSILON)) || (xmult1 * betup1).lt(lit(0x3F1A_36E2_EB1C_432D /* 1e-4 */)
            * sum1) {
            sum1
        } else {
            sum_up_spec(xnonc, b, xx, i + lit(ONE), xmult1, aup1, upterm1, betup1, sum1,
                (n - 1) as u64)
        }
    }
}

/// The terms of the sum above the central one, added to `sum` until one is small.
#[verifier::when_used_as_spec(sum_up_spec)]
pub fn sum_up(
    xnonc: F64,
    b: F64,
    xx: F64,
    i_init: F64,
    xmult_init: F64,
    aup_init: F64,
    upterm_init: F64,
    betup_init: F64,
    sum_init: F64,
    n: u64,
) -> (r: F64)
    ensures
        r == sum_up(xnonc, b, xx, i_init, xmult_init, aup_init, upterm_init, betup_init, sum_init, n),
{
    let mut i = i_init;
    let mut xmult = xmult_init;
    let mut aup = aup_init;
    let mut upterm = upterm_init;
    let mut betup = betup_init;
    let mut sum = sum_init;
    let mut left: u64 = n;
    while left > 0
        invariant
            left <= n,
            sum_up(xnonc, b, xx, i_init, xmult_init, aup_init, upterm_init, betup_init, sum_init, n)
                == sum_up(xnonc, b, xx, i, xmult, aup, upterm, betup, sum, left),
        decreases left,
    {
        let xmult1 = xmult * (xnonc / i);
        let aup1 = aup + lit(ONE);
        let upterm1 = upterm * ((aup1 + b - lit(TWO)) * xx / (aup1 - lit(ONE)));
        let betup1 = betup - upterm1;
        let sum1 = sum + xmult1 * betup1;
        if sum1.lt(lit(EPSILON)) || (xmult1 * betup1).lt(lit(0x3F1A_36E2_EB1C_432D /* 1e-4 */)
            * sum1) {
            return sum1;
        } else {
            let next_i = i + lit(ONE);
            let next_xmult = xmult1;
            let next_aup = aup1;
            let next_upterm = upterm1;
            let next_betup = betup1;
            let next_sum = sum1;
            i = next_i;
            xmult = next_xmult;
            aup = next_aup;
            upterm = next_upterm;
            betup = next_betup;
            sum = next_sum;
        }
        left = left - 1;
    }
    lit(NAN)
}

pub open spec fn first_up_spec<M: Fn(Elementary) -> F64>(
    m: &M,
    aup: F64,
    b: F64,
    xx: F64,
    yy: F64,
) -> F64 {
    let apb = aup - lit(ONE) + b;
    let expon = if apb.equals(lit(ZERO)) {
        gamma_log(m, aup).negated() - gamma_log(m, b) + (aup - lit(ONE)) * ln(m, xx) + b * ln(m, yy)
    } else {
        gamma_log(m, apb) - gamma_log(m, aup) - gamma_log(m, b) + (aup - lit(ONE)) * ln(m, xx)
            + b * ln(m, yy)
    };
    if expon.le(ln(m, lit(EPSILON))) {
        lit(ZERO)
    } else {
        exp(m, expon)
    }
}

/// The first difference above the central term; zero where its exponential would
/// vanish beside one.
#[verifier::when_used_as_spec(first_up_spec)]
pub fn first_up<M: Fn(Elementary) -> F64>(m: &M, aup: F64, b: F64, xx: F64, yy: F64) -> (r: F64)
    requires
        lawful(m),
    ensures
        r == first_up(m, aup, b, xx, yy),
{
    let apb = aup - lit(ONE) + b;
    let expon = if apb.equals(lit(ZERO)) {
        gamma_log(m, aup).negated() - gamma_log(m, b) + (aup - lit(ONE)) * ln(m, xx) + b * ln(m, yy)
    } else {
        gamma_log(m, apb) - gamma_log(m, aup) - gamma_log(m, b) + (aup - lit(ONE)) * ln(m, xx)
            + b * ln(m, yy)
    };
    if expon.le(ln(m, lit(EPSILON))) {
        lit(ZERO)
    } else {
        exp(m, expon)
    }
}

pub open spec fn mixture_spec<M: Fn(Elementary) -> F64>(
    m: &M,
    f: F64,
    dfn: F64,
    dfd: F64,
    pnonc: F64,
) -> F64 {
    let xnonc = pnonc / lit(TWO);
    let whole = xnonc.to_i32();
    let icent = if whole == 0 {
        lit(ONE)
    } else {
        F64::from_i64(whole as i64)
    };
    let centwt = exp(m, xnonc.negated() + icent * ln(m, xnonc) - gamma_log(m, icent + lit(ONE)));
    let prod = dfn * f;
    let dsum = dfd + prod;
    let y0 = dfd / dsum;
    let xx = if y0.gt(lit(HALF)) {
        prod / dsum
    } else {
        lit(ONE) - y0
    };
    let yy = if y0.gt(lit(HALF)) {
        lit(ONE) - xx
    } else {
        y0
    };
    let central = beta_inc_value(m, lit(HALF) * dfn + icent, lit(HALF) * dfd, xx, yy).0;
    let adn = dfn / lit(TWO) + icent;
    let b = dfd / lit(TWO);
    let dnterm = exp(m, gamma_log(m, adn + b) - gamma_log(m, adn + lit(ONE)) - gamma_log(m, b)
        + adn * ln(m, xx) + b * ln(m, yy));
    let down = sum_down(xnonc, b, xx, icent, centwt, adn, dnterm, central, centwt * central,
        icent.to_u64());
    sum_up(xnonc, b, xx, icent + lit(ONE), centwt, adn, first_up(m, adn, b, xx, yy), central, down,
        PATIENCE)
}

/// The distribution function as a Poisson mixture, summed from the central term.
#[verifier::when_used_as_spec(mixture_spec)]
pub fn mixture<M: Fn(Elementary) -> F64>(m: &M, f: F64, dfn: F64, dfd: F64, pnonc: F64) -> (r: F64)
    requires
        lawful(m),
    ensures
        r == mixture(m, f, dfn, dfd, pnonc),
{
    let xnonc = pnonc / lit(TWO);
    let whole: i32 = xnonc.to_i32();
    let icent = if whole == 0 {
        lit(ONE)
    } else {
        F64::from_i64(whole as i64)
    };
    let centwt = exp(m, xnonc.negated() + icent * ln(m, xnonc) - gamma_log(m, icent + lit(ONE)));
    let prod = dfn * f;
    let dsum = dfd + prod;
    let y0 = dfd / dsum;
    let xx = if y0.gt(lit(HALF)) {
        prod / dsum
    } else {
        lit(ONE) - y0
    };
    let yy = if y0.gt(lit(HALF)) {
        lit(ONE) - xx
    } else {
        y0
    };
    let central = beta_inc_value(m, lit(HALF) * dfn + icent, lit(HALF) * dfd, xx, yy).0;
    let adn = dfn / lit(TWO) + icent;
    let b = dfd / lit(TWO);
    let dnterm = exp(m, gamma_log(m, adn + b) - gamma_log(m, adn + lit(ONE)) - gamma_log(m, b)
        + adn * ln(m, xx) + b * ln(m, yy));
    let down = sum_down(xnonc, b, xx, icent, centwt, adn, dnterm, central, centwt * central,
        icent.to_u64());
    sum_up(xnonc, b, xx, icent + lit(ONE), centwt, adn, first_up(m, adn, b, xx, yy), central, down,
        PATIENCE)
}

pub open spec fn upper_down_spec<M: Fn(Elementary) -> F64>(
    m: &M,
    a: F64,
    b: F64,
    xnonc: F64,
    xx: F64,
    yy: F64,
    i: F64,
    wt: F64,
    sum: F64,
    n: u64,
) -> F64
    decreases n,
{
    if n == 0 {
        sum
    } else {
        let i1 = i - lit(ONE);
        let wt1 = wt * (i / xnonc);
        let term = wt1 * beta_inc_value(m, a + i1, b, xx, yy).1;
        let sum1 = sum + term;
        if !wt1.gt(lit(ZERO)) || term.le(lit(EPSILON) * sum1) {
            sum1
        } else {
            upper_down_spec(m, a, b, xnonc, xx, yy, i1, wt1, sum1, (n - 1) as u64)
        }
    }
}

/// The upper ratios below the central one, each with its weight, added to `sum` until one
/// is lost beside it: at most `n` of them.
#[verifier::when_used_as_spec(upper_down_spec)]
pub fn upper_down<M: Fn(Elementary) -> F64>(
    m: &M,
    a: F64,
    b: F64,
    xnonc: F64,
    xx: F64,
    yy: F64,
    i_init: F64,
    wt_init: F64,
    sum_init: F64,
    n: u64,
) -> (r: F64)
    requires
        lawful(m),
    ensures
        r == upper_down(m, a, b, xnonc, xx, yy, i_init, wt_init, sum_init, n),
{
    let mut i = i_init;
    let mut wt = wt_init;
    let mut sum = sum_init;
    let mut left: u64 = n;
    while left > 0
        invariant
            lawful(m),
            left <= n,
            upper_down(m, a, b, xnonc, xx, yy, i_init, wt_init, sum_init, n)
                == upper_down(m, a, b, xnonc, xx, yy, i, wt, sum, left),
        decreases left,
    {
        let i1 = i - lit(ONE);
        let wt1 = wt * (i / xnonc);
        let term = wt1 * beta_inc_value(m, a + i1, b, xx, yy).1;
        let sum1 = sum + term;
        if !wt1.gt(lit(ZERO)) || term.le(lit(EPSILON) * sum1) {
            return sum1;
        }
        i = i1;
        wt = wt1;
        sum = sum1;
        left = left - 1;
    }
    sum
}

pub open spec fn upper_up_spec<M: Fn(Elementary) -> F64>(
    m: &M,
    a: F64,
    b: F64,
    xnonc: F64,
    xx: F64,
    yy: F64,
    i: F64,
    wt: F64,
    sum: F64,
    n: u64,
) -> F64
    decreases n,
{
    if n == 0 {
        sum
    } else {
        let i1 = i + lit(ONE);
        let wt1 = wt * (xnonc / i1);
        let term = wt1 * beta_inc_value(m, a + i1, b, xx, yy).1;
        let sum1 = sum + term;
        if !wt1.gt(lit(ZERO)) || (sum1.gt(lit(ZERO)) && term.le(lit(EPSILON) * sum1)) {
            sum1
        } else {
            upper_up_spec(m, a, b, xnonc, xx, yy, i1, wt1, sum1, (n - 1) as u64)
        }
    }
}

/// The upper ratios above the central one, each with its weight, added to `sum` until one
/// is lost beside it or the weights vanish: at most `n` of them. A sum of zero goes on,
/// since the ratios grow.
#[verifier::when_used_as_spec(upper_up_spec)]
pub fn upper_up<M: Fn(Elementary) -> F64>(
    m: &M,
    a: F64,
    b: F64,
    xnonc: F64,
    xx: F64,
    yy: F64,
    i_init: F64,
    wt_init: F64,
    sum_init: F64,
    n: u64,
) -> (r: F64)
    requires
        lawful(m),
    ensures
        r == upper_up(m, a, b, xnonc, xx, yy, i_init, wt_init, sum_init, n),
{
    let mut i = i_init;
    let mut wt = wt_init;
    let mut sum = sum_init;
    let mut left: u64 = n;
    while left > 0
        invariant
            lawful(m),
            left <= n,
            upper_up(m, a, b, xnonc, xx, yy, i_init, wt_init, sum_init, n)
                == upper_up(m, a, b, xnonc, xx, yy, i, wt, sum, left),
        decreases left,
    {
        let i1 = i + lit(ONE);
        let wt1 = wt * (xnonc / i1);
        let term = wt1 * beta_inc_value(m, a + i1, b, xx, yy).1;
        let sum1 = sum + term;
        if !wt1.gt(lit(ZERO)) || (sum1.gt(lit(ZERO)) && term.le(lit(EPSILON) * sum1)) {
            return sum1;
        }
        i = i1;
        wt = wt1;
        sum = sum1;
        left = left - 1;
    }
    sum
}

pub open spec fn upper_mixture_spec<M: Fn(Elementary) -> F64>(
    m: &M,
    f: F64,
    dfn: F64,
    dfd: F64,
    pnonc: F64,
) -> F64 {
    let xnonc = pnonc / lit(TWO);
    let whole = xnonc.to_i32();
    let icent = if whole == 0 {
        lit(ONE)
    } else {
        F64::from_i64(whole as i64)
    };
    let centwt = exp(m, xnonc.negated() + icent * ln(m, xnonc) - gamma_log(m, icent + lit(ONE)));
    let prod = dfn * f;
    let dsum = dfd + prod;
    let y0 = dfd / dsum;
    let xx = if y0.gt(lit(HALF)) {
        prod / dsum
    } else {
        lit(ONE) - y0
    };
    let yy = if y0.gt(lit(HALF)) {
        lit(ONE) - xx
    } else {
        y0
    };
    let a = dfn / lit(TWO);
    let b = dfd / lit(TWO);
    let central = beta_inc_value(m, a + icent, b, xx, yy).1;
    let down = upper_down(m, a, b, xnonc, xx, yy, icent, centwt, centwt * central, icent.to_u64());
    upper_up(m, a, b, xnonc, xx, yy, icent, centwt, down, PATIENCE)
}

/// The complement of the distribution function as a Poisson mixture of upper ratios,
/// summed from the central term: it does not go through the distribution function. That
/// one leaves off its sum at terms below 1e-4 of it, and this one does not, so the two add
/// up to one no more closely than that.
#[verifier::when_used_as_spec(upper_mixture_spec)]
pub fn upper_mixture<M: Fn(Elementary) -> F64>(
    m: &M,
    f: F64,
    dfn: F64,
    dfd: F64,
    pnonc: F64,
) -> (r: F64)
    requires
        lawful(m),
    ensures
        r == upper_mixture(m, f, dfn, dfd, pnonc),
{
    let xnonc = pnonc / lit(TWO);
    let whole: i32 = xnonc.to_i32();
    let icent = if whole == 0 {
        lit(ONE)
    } else {
        F64::from_i64(whole as i64)
    };
    let centwt = exp(m, xnonc.negated() + icent * ln(m, xnonc) - gamma_log(m, icent + lit(ONE)));
    let prod = dfn * f;
    let dsum = dfd + prod;
    let y0 = dfd / dsum;
    let xx = if y0.gt(lit(HALF)) {
        prod / dsum
    } else {
        lit(ONE) - y0
    };
    let yy = if y0.gt(lit(HALF)) {
        lit(ONE) - xx
    } else {
        y0
    };
    let a = dfn / lit(TWO);
    let b = dfd / lit(TWO);
    let central = beta_inc_value(m, a + icent, b, xx, yy).1;
    let down = upper_down(m, a, b, xnonc, xx, yy, icent, centwt, centwt * central, icent.to_u64());
    upper_up(m, a, b, xnonc, xx, yy, icent, centwt, down, PATIENCE)
}

pub open spec fn cumfnc_spec<M: Fn(Elementary) -> F64>(
    m: &M,
    f: F64,
    dfn: F64,
    dfd: F64,
    pnonc: F64,
) -> (F64, F64) {
    if f.is_nan() || dfn.is_nan() || dfd.is_nan() || pnonc.is_nan() {
        (lit(NAN), lit(NAN))
    } else if f.le(lit(ZERO)) {
        (lit(ZERO), lit(ONE))
    } else if pnonc.lt(lit(0x3DDB_7CDF_D9D7_BDBB /* 1e-10 */)) {
        cumf(m, f, dfn, dfd)
    } else {
        (mixture(m, f, dfn, dfd, pnonc), upper_mixture(m, f, dfn, dfd, pnonc))
    }
}

/// The distribution function at `f` and its complement.
#[verifier::when_used_as_spec(cumfnc_spec)]
pub fn cumfnc<M: Fn(Elementary) -> F64>(
    m: &M,
    f: F64,
    dfn: F64,
    dfd: F64,
    pnonc: F64,
) -> (r: (F64, F64))
    requires
        lawful(m),
    ensures
        r == cumfnc(m, f, dfn, dfd, pnonc),
{
    if f.is_nan() || dfn.is_nan() || dfd.is_nan() || pnonc.is_nan() {
        (lit(NAN), lit(NAN))
    } else if f.le(lit(ZERO)) {
        (lit(ZERO), lit(ONE))
    } else if pnonc.lt(lit(0x3DDB_7CDF_D9D7_BDBB /* 1e-10 */)) {
        cumf(m, f, dfn, dfd)
    } else {
        (mixture(m, f, dfn, dfd, pnonc), upper_mixture(m, f, dfn, dfd, pnonc))
    }
}
/// The distribution function alone.
pub fn cumfnc_below<M: Fn(Elementary) -> F64>(
    m: &M,
    f: F64,
    dfn: F64,
    dfd: F64,
    pnonc: F64,
) -> (r: F64)
    requires
        lawful(m),
    ensures
        r == cumfnc(m, f, dfn, dfd, pnonc).0,
{
    if f.is_nan() || dfn.is_nan() || dfd.is_nan() || pnonc.is_nan() {
        lit(NAN)
    } else if f.le(lit(ZERO)) {
        lit(ZERO)
    } else if pnonc.lt(lit(0x3DDB_7CDF_D9D7_BDBB /* 1e-10 */)) {
        cumf(m, f, dfn, dfd).0
    } else {
        mixture(m, f, dfn, dfd, pnonc)
    }
}

/// Its complement alone.
pub fn cumfnc_above<M: Fn(Elementary) -> F64>(
    m: &M,
    f: F64,
    dfn: F64,
    dfd: F64,
    pnonc: F64,
) -> (r: F64)
    requires
        lawful(m),
    ensures
        r == cumfnc(m, f, dfn, dfd, pnonc).1,
{
    if f.is_nan() || dfn.is_nan() || dfd.is_nan() || pnonc.is_nan() {
        lit(NAN)
    } else if f.le(lit(ZERO)) {
        lit(ONE)
    } else if pnonc.lt(lit(0x3DDB_7CDF_D9D7_BDBB /* 1e-10 */)) {
        cumf(m, f, dfn, dfd).1
    } else {
        upper_mixture(m, f, dfn, dfd, pnonc)
    }
}


/// The degrees of freedom of the numerator that put the probability `p` below `f`. An
/// answer below the range is reported against the bound zero.
pub open spec fn search_dfn_spec<M: Fn(Elementary) -> F64>(
    m: &M,
    p: F64,
    f: F64,
    dfd: F64,
    ncp: F64,
) -> Result<F64, FisherSnedecorNoncentralError> {
    match check_p(p) {
        Err(e) => Err(e),
        Ok(_) => {
            if !f.is_finite() {
                Err(FisherSnedecorNoncentralError::FNotFinite(f))
            } else if f.le(lit(ZERO)) {
                Err(FisherSnedecorNoncentralError::FNotPositive(f))
            } else if !dfd.is_finite() {
                Err(FisherSnedecorNoncentralError::DfdNotFinite(dfd))
            } else if dfd.le(lit(ZERO)) {
                Err(FisherSnedecorNoncentralError::DfdNotPositive(dfd))
            } else if dfd.lt(lit(ONE)) {
                Err(FisherSnedecorNoncentralError::DfdTooSmall(dfd))
            } else if !ncp.is_finite() {
                Err(FisherSnedecorNoncentralError::NcpNotFinite(ncp))
            } else if ncp.lt(lit(ZERO)) {
                Err(FisherSnedecorNoncentralError::NcpNegative(ncp))
            } else {
                match search_monotone_spec(
                    lit(ONE),
                    lit(0x4629_3E59_39A0_8CEA /* 1.0e30 */),
                    lit(FIVE),
                    lit(ZERO),
                    lit(0x4629_3E59_39A0_8CEA /* 1.0e30 */),
                    |dfn: F64| cumfnc(m, f, dfn, dfd, ncp).0 - p,
                ) {
                    Ok(found) => Ok(found),
                    Err(e) => Err(FisherSnedecorNoncentralError::Search(e)),
                }
            }
        },
    }
}

impl FisherSnedecorNoncentral {
    /// The degrees of freedom of the numerator that put the probability `p` below `f`. An
    /// answer below the range is reported against the bound zero.
    pub fn search_dfn<M: Fn(Elementary) -> F64>(
        m: &M,
        p: F64,
        f: F64,
        dfd: F64,
        ncp: F64,
    ) -> (r: Result<F64, FisherSnedecorNoncentralError>)
        requires
            lawful(m),
        ensures
            r == search_dfn_spec(m, p, f, dfd, ncp),
    {
        check_p(p)?;
        if !f.is_finite() {
            Err(FisherSnedecorNoncentralError::FNotFinite(f))
        } else if f.le(lit(ZERO)) {
            Err(FisherSnedecorNoncentralError::FNotPositive(f))
        } else if !dfd.is_finite() {
            Err(FisherSnedecorNoncentralError::DfdNotFinite(dfd))
        } else if dfd.le(lit(ZERO)) {
            Err(FisherSnedecorNoncentralError::DfdNotPositive(dfd))
        } else if dfd.lt(lit(ONE)) {
            Err(FisherSnedecorNoncentralError::DfdTooSmall(dfd))
        } else if !ncp.is_finite() {
            Err(FisherSnedecorNoncentralError::NcpNotFinite(ncp))
        } else if ncp.lt(lit(ZERO)) {
            Err(FisherSnedecorNoncentralError::NcpNegative(ncp))
        } else {
            let objective = |dfn: F64| -> (v: F64)
                ensures
                    v == cumfnc(m, f, dfn, dfd, ncp).0 - p,
                { cumfnc_below(m, f, dfn, dfd, ncp) - p };
            let answer = search_monotone(
                lit(ONE),
                lit(0x4629_3E59_39A0_8CEA /* 1.0e30 */),
                lit(FIVE),
                lit(ZERO),
                lit(0x4629_3E59_39A0_8CEA /* 1.0e30 */),
                &objective,
            );
            proof {
                assert(agrees(&objective, |dfn: F64| cumfnc(m, f, dfn, dfd, ncp).0 - p));
            }
            match answer {
                Ok(found) => Ok(found),
                Err(e) => Err(FisherSnedecorNoncentralError::Search(e)),
            }
        }
    }
}

/// The degrees of freedom of the denominator that put the probability `p` below `f`. An
/// answer below the range is reported against the bound zero.
pub open spec fn search_dfd_spec<M: Fn(Elementary) -> F64>(
    m: &M,
    p: F64,
    f: F64,
    dfn: F64,
    ncp: F64,
) -> Result<F64, FisherSnedecorNoncentralError> {
    match check_p(p) {
        Err(e) => Err(e),
        Ok(_) => {
            if !f.is_finite() {
                Err(FisherSnedecorNoncentralError::FNotFinite(f))
            } else if f.le(lit(ZERO)) {
                Err(FisherSnedecorNoncentralError::FNotPositive(f))
            } else if !dfn.is_finite() {
                Err(FisherSnedecorNoncentralError::DfnNotFinite(dfn))
            } else if dfn.le(lit(ZERO)) {
                Err(FisherSnedecorNoncentralError::DfnNotPositive(dfn))
            } else if dfn.lt(lit(ONE)) {
                Err(FisherSnedecorNoncentralError::DfnTooSmall(dfn))
            } else if !ncp.is_finite() {
                Err(FisherSnedecorNoncentralError::NcpNotFinite(ncp))
            } else if ncp.lt(lit(ZERO)) {
                Err(FisherSnedecorNoncentralError::NcpNegative(ncp))
            } else {
                match search_monotone_spec(
                    lit(ONE),
                    lit(0x4629_3E59_39A0_8CEA /* 1.0e30 */),
                    lit(FIVE),
                    lit(ZERO),
                    lit(0x4629_3E59_39A0_8CEA /* 1.0e30 */),
                    |dfd: F64| cumfnc(m, f, dfn, dfd, ncp).0 - p,
                ) {
                    Ok(found) => Ok(found),
                    Err(e) => Err(FisherSnedecorNoncentralError::Search(e)),
                }
            }
        },
    }
}

impl FisherSnedecorNoncentral {
    /// The degrees of freedom of the denominator that put the probability `p` below `f`. An
    /// answer below the range is reported against the bound zero.
    pub fn search_dfd<M: Fn(Elementary) -> F64>(
        m: &M,
        p: F64,
        f: F64,
        dfn: F64,
        ncp: F64,
    ) -> (r: Result<F64, FisherSnedecorNoncentralError>)
        requires
            lawful(m),
        ensures
            r == search_dfd_spec(m, p, f, dfn, ncp),
    {
        check_p(p)?;
        if !f.is_finite() {
            Err(FisherSnedecorNoncentralError::FNotFinite(f))
        } else if f.le(lit(ZERO)) {
            Err(FisherSnedecorNoncentralError::FNotPositive(f))
        } else if !dfn.is_finite() {
            Err(FisherSnedecorNoncentralError::DfnNotFinite(dfn))
        } else if dfn.le(lit(ZERO)) {
            Err(FisherSnedecorNoncentralError::DfnNotPositive(dfn))
        } else if dfn.lt(lit(ONE)) {
            Err(FisherSnedecorNoncentralError::DfnTooSmall(dfn))
        } else if !ncp.is_finite() {
            Err(FisherSnedecorNoncentralError::NcpNotFinite(ncp))
        } else if ncp.lt(lit(ZERO)) {
            Err(FisherSnedecorNoncentralError::NcpNegative(ncp))
        } else {
            let objective = |dfd: F64| -> (v: F64)
                ensures
                    v == cumfnc(m, f, dfn, dfd, ncp).0 - p,
                { cumfnc_below(m, f, dfn, dfd, ncp) - p };
            let answer = search_monotone(
                lit(ONE),
                lit(0x4629_3E59_39A0_8CEA /* 1.0e30 */),
                lit(FIVE),
                lit(ZERO),
                lit(0x4629_3E59_39A0_8CEA /* 1.0e30 */),
                &objective,
            );
            proof {
                assert(agrees(&objective, |dfd: F64| cumfnc(m, f, dfn, dfd, ncp).0 - p));
            }
            match answer {
                Ok(found) => Ok(found),
                Err(e) => Err(FisherSnedecorNoncentralError::Search(e)),
            }
        }
    }
}

/// The noncentrality, of at most 1e4, that puts the probability `p` below `f`.
pub open spec fn search_ncp_spec<M: Fn(Elementary) -> F64>(
    m: &M,
    p: F64,
    f: F64,
    dfn: F64,
    dfd: F64,
) -> Result<F64, FisherSnedecorNoncentralError> {
    match check_p(p) {
        Err(e) => Err(e),
        Ok(_) => {
            if !f.is_finite() {
                Err(FisherSnedecorNoncentralError::FNotFinite(f))
            } else if f.le(lit(ZERO)) {
                Err(FisherSnedecorNoncentralError::FNotPositive(f))
            } else if !dfn.is_finite() {
                Err(FisherSnedecorNoncentralError::DfnNotFinite(dfn))
            } else if dfn.le(lit(ZERO)) {
                Err(FisherSnedecorNoncentralError::DfnNotPositive(dfn))
            } else if dfn.lt(lit(ONE)) {
                Err(FisherSnedecorNoncentralError::DfnTooSmall(dfn))
            } else if !dfd.is_finite() {
                Err(FisherSnedecorNoncentralError::DfdNotFinite(dfd))
            } else if dfd.le(lit(ZERO)) {
                Err(FisherSnedecorNoncentralError::DfdNotPositive(dfd))
            } else if dfd.lt(lit(ONE)) {
                Err(FisherSnedecorNoncentralError::DfdTooSmall(dfd))
            } else {
                match search_monotone_spec(
                    lit(ZERO),
                    lit(0x40C3_8800_0000_0000 /* 1.0e4 */),
                    lit(FIVE),
                    lit(ZERO),
                    lit(0x40C3_8800_0000_0000 /* 1.0e4 */),
                    |ncp: F64| cumfnc(m, f, dfn, dfd, ncp).0 - p,
                ) {
                    Ok(found) => Ok(found),
                    Err(e) => Err(FisherSnedecorNoncentralError::Search(e)),
                }
            }
        },
    }
}

impl FisherSnedecorNoncentral {
    /// The noncentrality, of at most 1e4, that puts the probability `p` below `f`.
    pub fn search_ncp<M: Fn(Elementary) -> F64>(
        m: &M,
        p: F64,
        f: F64,
        dfn: F64,
        dfd: F64,
    ) -> (r: Result<F64, FisherSnedecorNoncentralError>)
        requires
            lawful(m),
        ensures
            r == search_ncp_spec(m, p, f, dfn, dfd),
    {
        check_p(p)?;
        if !f.is_finite() {
            Err(FisherSnedecorNoncentralError::FNotFinite(f))
        } else if f.le(lit(ZERO)) {
            Err(FisherSnedecorNoncentralError::FNotPositive(f))
        } else if !dfn.is_finite() {
            Err(FisherSnedecorNoncentralError::DfnNotFinite(dfn))
        } else if dfn.le(lit(ZERO)) {
            Err(FisherSnedecorNoncentralError::DfnNotPositive(dfn))
        } else if dfn.lt(lit(ONE)) {
            Err(FisherSnedecorNoncentralError::DfnTooSmall(dfn))
        } else if !dfd.is_finite() {
            Err(FisherSnedecorNoncentralError::DfdNotFinite(dfd))
        } else if dfd.le(lit(ZERO)) {
            Err(FisherSnedecorNoncentralError::DfdNotPositive(dfd))
        } else if dfd.lt(lit(ONE)) {
            Err(FisherSnedecorNoncentralError::DfdTooSmall(dfd))
        } else {
            let objective = |ncp: F64| -> (v: F64)
                ensures
                    v == cumfnc(m, f, dfn, dfd, ncp).0 - p,
                { cumfnc_below(m, f, dfn, dfd, ncp) - p };
            let answer = search_monotone(
                lit(ZERO),
                lit(0x40C3_8800_0000_0000 /* 1.0e4 */),
                lit(FIVE),
                lit(ZERO),
                lit(0x40C3_8800_0000_0000 /* 1.0e4 */),
                &objective,
            );
            proof {
                assert(agrees(&objective, |ncp: F64| cumfnc(m, f, dfn, dfd, ncp).0 - p));
            }
            match answer {
                Ok(found) => Ok(found),
                Err(e) => Err(FisherSnedecorNoncentralError::Search(e)),
            }
        }
    }
}

impl FisherSnedecorNoncentral {
    /// The degrees of freedom of the numerator that put the probability `p` below `f`.
    pub fn solve_dfn<M: Fn(Elementary) -> F64>(
        m: &M,
        p: F64,
        f: F64,
        dfd: F64,
        ncp: F64,
    ) -> (r: Result<F64, FisherSnedecorNoncentralError>)
        requires
            lawful(m),
        ensures
            r == search_dfn_spec(m, p, f, dfd, ncp),
    {
        FisherSnedecorNoncentral::search_dfn(m, p, f, dfd, ncp)
    }
}

impl FisherSnedecorNoncentral {
    /// The degrees of freedom of the denominator that put the probability `p` below `f`.
    pub fn solve_dfd<M: Fn(Elementary) -> F64>(
        m: &M,
        p: F64,
        f: F64,
        dfn: F64,
        ncp: F64,
    ) -> (r: Result<F64, FisherSnedecorNoncentralError>)
        requires
            lawful(m),
        ensures
            r == search_dfd_spec(m, p, f, dfn, ncp),
    {
        FisherSnedecorNoncentral::search_dfd(m, p, f, dfn, ncp)
    }
}

impl FisherSnedecorNoncentral {
    /// The noncentrality, of at most 1e4, that puts the probability `p` below `f`.
    pub fn solve_ncp<M: Fn(Elementary) -> F64>(
        m: &M,
        p: F64,
        f: F64,
        dfn: F64,
        dfd: F64,
    ) -> (r: Result<F64, FisherSnedecorNoncentralError>)
        requires
            lawful(m),
        ensures
            r == search_ncp_spec(m, p, f, dfn, dfd),
    {
        FisherSnedecorNoncentral::search_ncp(m, p, f, dfn, dfd)
    }
}

pub open spec fn cdf_at_spec<M: Fn(Elementary) -> F64>(
    m: &M,
    dfn: F64,
    dfd: F64,
    ncp: F64,
    x: F64,
) -> F64 {
    cumfnc(m, x, dfn, dfd, ncp).0
}

/// The probability of a value of at most `x`.
#[verifier::when_used_as_spec(cdf_at_spec)]
pub fn cdf_at<M: Fn(Elementary) -> F64>(m: &M, dfn: F64, dfd: F64, ncp: F64, x: F64) -> (r: F64)
    requires
        lawful(m),
    ensures
        r == cdf_at(m, dfn, dfd, ncp, x),
{
    cumfnc_below(m, x, dfn, dfd, ncp)
}

pub open spec fn ccdf_at_spec<M: Fn(Elementary) -> F64>(
    m: &M,
    dfn: F64,
    dfd: F64,
    ncp: F64,
    x: F64,
) -> F64 {
    cumfnc(m, x, dfn, dfd, ncp).1
}

/// The probability of a value above `x`.
#[verifier::when_used_as_spec(ccdf_at_spec)]
pub fn ccdf_at<M: Fn(Elementary) -> F64>(m: &M, dfn: F64, dfd: F64, ncp: F64, x: F64) -> (r: F64)
    requires
        lawful(m),
    ensures
        r == ccdf_at(m, dfn, dfd, ncp, x),
{
    cumfnc_above(m, x, dfn, dfd, ncp)
}

pub open spec fn quantile_spec<M: Fn(Elementary) -> F64>(
    m: &M,
    dfn: F64,
    dfd: F64,
    ncp: F64,
    p: F64,
) -> Result<F64, FisherSnedecorNoncentralError> {
    match check_p(p) {
        Err(e) => Err(e),
        Ok(_) => {
            if p.equals(lit(ZERO)) {
                Ok(lit(ZERO))
            } else if p.equals(lit(ONE)) {
                Ok(lit(INFINITY))
            } else {
                match search_monotone_spec(
                    lit(ZERO),
                    lit(0x4629_3E59_39A0_8CEA /* 1.0e30 */),
                    lit(FIVE),
                    lit(ZERO),
                    lit(0x4629_3E59_39A0_8CEA /* 1.0e30 */),
                    |x: F64| cumfnc(m, x, dfn, dfd, ncp).0 - p,
                ) {
                    Ok(found) => Ok(found),
                    Err(e) => Err(FisherSnedecorNoncentralError::Search(e)),
                }
            }
        },
    }
}

/// The value with the probability `p` below it.
#[verifier::when_used_as_spec(quantile_spec)]
pub fn quantile<M: Fn(Elementary) -> F64>(
    m: &M,
    dfn: F64,
    dfd: F64,
    ncp: F64,
    p: F64,
) -> (r: Result<F64, FisherSnedecorNoncentralError>)
    requires
        lawful(m),
    ensures
        r == quantile(m, dfn, dfd, ncp, p),
{
    check_p(p)?;
    if p.equals(lit(ZERO)) {
        Ok(lit(ZERO))
    } else if p.equals(lit(ONE)) {
        Ok(lit(INFINITY))
    } else {
        let objective = |x: F64| -> (v: F64)
            ensures
                v == cumfnc(m, x, dfn, dfd, ncp).0 - p,
            { cumfnc_below(m, x, dfn, dfd, ncp) - p };
        let answer = search_monotone(
            lit(ZERO),
            lit(0x4629_3E59_39A0_8CEA /* 1.0e30 */),
            lit(FIVE),
            lit(ZERO),
            lit(0x4629_3E59_39A0_8CEA /* 1.0e30 */),
            &objective,
        );
        proof {
            assert(agrees(&objective, |x: F64| cumfnc(m, x, dfn, dfd, ncp).0 - p));
        }
        match answer {
            Ok(found) => Ok(found),
            Err(e) => Err(FisherSnedecorNoncentralError::Search(e)),
        }
    }
}

pub open spec fn upper_quantile_spec<M: Fn(Elementary) -> F64>(
    m: &M,
    dfn: F64,
    dfd: F64,
    ncp: F64,
    q: F64,
) -> Result<F64, FisherSnedecorNoncentralError> {
    match check_q(q) {
        Err(e) => Err(e),
        Ok(_) => {
            if q.equals(lit(ONE)) {
                Ok(lit(ZERO))
            } else if q.equals(lit(ZERO)) {
                Ok(lit(INFINITY))
            } else {
                match solve_monotone_spec(
                    BracketStrategy::Decreasing { small: lit(ZERO),
                        big: lit(0x7E37_E43C_8800_759C /* 1.0e300 */), start: lit(FIVE) },
                    |x: F64| cumfnc(m, x, dfn, dfd, ncp).1 - q,
                ) {
                    Ok(found) => Ok(found),
                    Err(e) => Err(FisherSnedecorNoncentralError::Solver(e)),
                }
            }
        },
    }
}

/// The value with the probability `q` above it.
#[verifier::when_used_as_spec(upper_quantile_spec)]
pub fn upper_quantile<M: Fn(Elementary) -> F64>(
    m: &M,
    dfn: F64,
    dfd: F64,
    ncp: F64,
    q: F64,
) -> (r: Result<F64, FisherSnedecorNoncentralError>)
    requires
        lawful(m),
    ensures
        r == upper_quantile(m, dfn, dfd, ncp, q),
{
    check_q(q)?;
    if q.equals(lit(ONE)) {
        Ok(lit(ZERO))
    } else if q.equals(lit(ZERO)) {
        Ok(lit(INFINITY))
    } else {
        let objective = |x: F64| -> (v: F64)
            ensures
                v == cumfnc(m, x, dfn, dfd, ncp).1 - q,
            { cumfnc_above(m, x, dfn, dfd, ncp) - q };
        let answer = solve_monotone(
            BracketStrategy::Decreasing { small: lit(ZERO),
                big: lit(0x7E37_E43C_8800_759C /* 1.0e300 */), start: lit(FIVE) },
            &objective,
        );
        proof {
            assert(agrees(&objective, |x: F64| cumfnc(m, x, dfn, dfd, ncp).1 - q));
        }
        match answer {
            Ok(found) => Ok(found),
            Err(e) => Err(FisherSnedecorNoncentralError::Solver(e)),
        }
    }
}

pub open spec fn mean_of_spec(dfn: F64, dfd: F64, ncp: F64) -> F64 {
    if dfd.gt(lit(TWO)) {
        dfd * (dfn + ncp) / (dfn * (dfd - lit(TWO)))
    } else {
        lit(NAN)
    }
}

/// The mean, where it exists.
#[verifier::when_used_as_spec(mean_of_spec)]
pub fn mean_of(dfn: F64, dfd: F64, ncp: F64) -> (r: F64)
    ensures
        r == mean_of(dfn, dfd, ncp),
{
    if dfd.gt(lit(TWO)) {
        dfd * (dfn + ncp) / (dfn * (dfd - lit(TWO)))
    } else {
        lit(NAN)
    }
}

pub open spec fn variance_of_spec(dfn: F64, dfd: F64, ncp: F64) -> F64 {
    if dfd.gt(lit(FOUR)) {
        lit(TWO) * dfd * dfd * ((dfn + ncp).squared() + (dfd - lit(TWO)) * (dfn + lit(TWO) * ncp))
            / (dfn * dfn * (dfd - lit(TWO)).squared() * (dfd - lit(FOUR)))
    } else {
        lit(NAN)
    }
}

/// The variance, where it exists.
#[verifier::when_used_as_spec(variance_of_spec)]
pub fn variance_of(dfn: F64, dfd: F64, ncp: F64) -> (r: F64)
    ensures
        r == variance_of(dfn, dfd, ncp),
{
    if dfd.gt(lit(FOUR)) {
        lit(TWO) * dfd * dfd * ((dfn + ncp).squared() + (dfd - lit(TWO)) * (dfn + lit(TWO) * ncp))
            / (dfn * dfn * (dfd - lit(TWO)).squared() * (dfd - lit(FOUR)))
    } else {
        lit(NAN)
    }
}

impl<M: Fn(Elementary) -> F64> ContinuousCdf<M> for FisherSnedecorNoncentral {
    type Error = FisherSnedecorNoncentralError;

    open spec fn cdf_spec(&self, m: &M, x: F64) -> F64 {
        cdf_at(m, self.dfn, self.dfd, self.ncp, x)
    }

    fn cdf(&self, m: &M, x: F64) -> (r: F64) {
        cdf_at(m, self.dfn, self.dfd, self.ncp, x)
    }

    open spec fn ccdf_spec(&self, m: &M, x: F64) -> F64 {
        ccdf_at(m, self.dfn, self.dfd, self.ncp, x)
    }

    fn ccdf(&self, m: &M, x: F64) -> (r: F64) {
        ccdf_at(m, self.dfn, self.dfd, self.ncp, x)
    }

    open spec fn inverse_cdf_spec(&self, m: &M, p: F64) -> Result<F64, FisherSnedecorNoncentralError> {
        quantile(m, self.dfn, self.dfd, self.ncp, p)
    }

    fn inverse_cdf(&self, m: &M, p: F64) -> (r: Result<F64, FisherSnedecorNoncentralError>) {
        quantile(m, self.dfn, self.dfd, self.ncp, p)
    }

    fn sf(&self, m: &M, x: F64) -> (r: F64) {
        ccdf_at(m, self.dfn, self.dfd, self.ncp, x)
    }
}

impl Mean for FisherSnedecorNoncentral {
    open spec fn mean_spec(&self) -> F64 {
        mean_of(self.dfn, self.dfd, self.ncp)
    }

    fn mean(&self) -> (r: F64) {
        mean_of(self.dfn, self.dfd, self.ncp)
    }
}

impl Variance for FisherSnedecorNoncentral {
    open spec fn variance_spec(&self) -> F64 {
        variance_of(self.dfn, self.dfd, self.ncp)
    }

    fn variance(&self) -> (r: F64) {
        variance_of(self.dfn, self.dfd, self.ncp)
    }

    fn std_dev(&self) -> (r: F64) {
        variance_of(self.dfn, self.dfd, self.ncp).sqrt()
    }
}

impl FisherSnedecorNoncentral {
    /// The value with the probability `q` above it.
    pub fn inverse_sf<M: Fn(Elementary) -> F64>(
        &self,
        m: &M,
        q: F64,
    ) -> (r: Result<F64, FisherSnedecorNoncentralError>)
        requires
            lawful(m),
        ensures
            r == upper_quantile(m, self.dfn, self.dfd, self.ncp, q),
    {
        upper_quantile(m, self.dfn, self.dfd, self.ncp, q)
    }
}

} // verus!
