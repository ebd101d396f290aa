//! The noncentral chi-squared distribution.
use crate::consts::{EPSILON, FIVE, INFINITY, NAN, ONE, PATIENCE, TWO, ZERO};
use crate::error::{SearchError, SolverError};
use crate::float::number::{lemma_le_units, lemma_lt_units, lemma_order};
use crate::search::drive::{search_monotone_with_atol, search_monotone_with_atol_spec};
use crate::solver::bracket::{solve_monotone, solve_monotone_spec, BracketStrategy};
use crate::special::gamma::gamma_log;
use crate::special::gamma_inc::gamma_inc_value;
use crate::float::{lit, F64};
use crate::functions::{agrees, exp, lawful, ln, Elementary};
use crate::special::poly::within;
use crate::traits::{ContinuousCdf, Mean, Variance};
use vstd::prelude::*;

verus! {

/// A noncentral chi-squared distribution, by its degrees of freedom and its
/// noncentrality.
#[derive(Clone, Copy, Debug, PartialEq, Eq, Structural)]
pub struct ChiSquaredNoncentral {
    pub df: F64,
    pub ncp: F64,
}

/// What is wrong with the arguments, or why a search gave nothing.
#[derive(Clone, Copy, Debug, PartialEq, Eq, Structural)]
pub enum ChiSquaredNoncentralError {
    DfNotPositive(F64),
    DfNotFinite(F64),
    NcpNegative(F64),
    NcpNotFinite(F64),
    XNotPositive(F64),
    XNotFinite(F64),
    PNotInRange(F64),
    QNotInRange(F64),
    Search(SearchError),
    Solver(SolverError),
}

impl ChiSquaredNoncentral {
    /// The parameters are such as the distribution can have.
    pub open spec fn valid(self) -> bool {
        self.df.is_finite() && self.df.gt(lit(ZERO)) && self.ncp.is_finite() && self.ncp.ge(lit(ZERO))
    }
}

/// The distribution with the given parameters, where it can have them.
pub open spec fn try_new_spec(
    df: F64,
    ncp: F64,
) -> Result<ChiSquaredNoncentral, ChiSquaredNoncentralError> {
    if !df.is_finite() {
        Err(ChiSquaredNoncentralError::DfNotFinite(df))
    } else if df.le(lit(ZERO)) {
        Err(ChiSquaredNoncentralError::DfNotPositive(df))
    } else if !ncp.is_finite() {
        Err(ChiSquaredNoncentralError::NcpNotFinite(ncp))
    } else if ncp.lt(lit(ZERO)) {
        Err(ChiSquaredNoncentralError::NcpNegative(ncp))
    } else {
        Ok(ChiSquaredNoncentral { df, ncp })
    }
}

impl ChiSquaredNoncentral {
    /// The distribution with the given parameters, where it can have them.
    pub fn try_new(
        df: F64,
        ncp: F64,
    ) -> (r: Result<ChiSquaredNoncentral, ChiSquaredNoncentralError>)
        ensures
            r == try_new_spec(df, ncp),
    {
        if !df.is_finite() {
            Err(ChiSquaredNoncentralError::DfNotFinite(df))
        } else if df.le(lit(ZERO)) {
            Err(ChiSquaredNoncentralError::DfNotPositive(df))
        } else if !ncp.is_finite() {
            Err(ChiSquaredNoncentralError::NcpNotFinite(ncp))
        } else if ncp.lt(lit(ZERO)) {
            Err(ChiSquaredNoncentralError::NcpNegative(ncp))
        } else {
            Ok(ChiSquaredNoncentral { df, ncp })
        }
    }
}

impl ChiSquaredNoncentral {
    /// The distribution with the given parameters.
    pub fn new(df: F64, ncp: F64) -> (r: ChiSquaredNoncentral)
        requires
            try_new_spec(df, ncp) is Ok,
        ensures
            try_new_spec(df, ncp) == Ok::<ChiSquaredNoncentral, ChiSquaredNoncentralError>(r),
    {
        proof {
            lemma_new_valid(df, ncp);
        }
        ChiSquaredNoncentral { df, ncp }
    }

    /// The parameter `df`.
    pub fn df(&self) -> (r: F64)
        ensures
            r == self.df,
    {
        self.df
    }

    /// The parameter `ncp`.
    pub fn ncp(&self) -> (r: F64)
        ensures
            r == self.ncp,
    {
        self.ncp
    }
}

/// The constructor succeeds exactly on valid parameters, and keeps them.
pub proof fn lemma_new_valid(df: F64, ncp: F64)
    ensures
        try_new_spec(df, ncp) is Ok <==> (ChiSquaredNoncentral { df, ncp }).valid(),
        try_new_spec(df, ncp) matches Ok(d) ==> d == (ChiSquaredNoncentral { df, ncp }),
{
    broadcast use lemma_lt_units;
    broadcast use lemma_le_units;
    lemma_order(0, ONE as int);
}

pub open spec fn check_p_spec(p: F64) -> Result<(), ChiSquaredNoncentralError> {
    if !within(p, lit(ZERO), lit(ONE)) || !p.is_finite() {
        Err(ChiSquaredNoncentralError::PNotInRange(p))
    } else {
        Ok(())
    }
}

/// `p` is a probability.
#[verifier::when_used_as_spec(check_p_spec)]
pub fn check_p(p: F64) -> (r: Result<(), ChiSquaredNoncentralError>)
    ensures
        r == check_p(p),
{
    if !within(p, lit(ZERO), lit(ONE)) || !p.is_finite() {
        Err(ChiSquaredNoncentralError::PNotInRange(p))
    } else {
        Ok(())
    }
}

pub open spec fn check_q_spec(q: F64) -> Result<(), ChiSquaredNoncentralError> {
    if !within(q, lit(ZERO), lit(ONE)) || !q.is_finite() {
        Err(ChiSquaredNoncentralError::QNotInRange(q))
    } else {
        Ok(())
    }
}

/// `q` is a probability.
#[verifier::when_used_as_spec(check_q_spec)]
pub fn check_q(q: F64) -> (r: Result<(), ChiSquaredNoncentralError>)
    ensures
        r == check_q(q),
{
    if !within(q, lit(ZERO), lit(ONE)) || !q.is_finite() {
        Err(ChiSquaredNoncentralError::QNotInRange(q))
    } else {
        Ok(())
    }
}

pub open spec fn sum_down_spec(
    df: F64,
    xnonc: F64,
    chid2: F64,
    pcent: F64,
    i: F64,
    adj: F64,
    sumadj: F64,
    wt: F64,
    sum: F64,
    n: u64,
) -> F64
    decreases n,
{
    if n == 0 {
        sum
    } else {
        let dfd2 = (df + lit(TWO) * i) / lit(TWO);
        let adj1 = adj * (dfd2 / chid2);
        let sumadj1 = sumadj + adj1;
        let wt1 = wt * (i / xnonc);
        let term = wt1 * (pcent + sumadj1);
        let sum1 = sum + term;
        let i1 = i - lit(ONE);
        if sum1.lt(lit(0x3BC7_9CA1_0C92_4223 /* 1e-20 */))
            || term.lt(lit(0x3EE4_F8B5_88E3_68F1 /* 1e-5 */) * sum1) || i1.equals(lit(ZERO)) {
            sum1
        } else {
            sum_down_spec(df, xnonc, chid2, pcent, i1, adj1, sumadj1, wt1, sum1, (n - 1) as u64)
        }
    }
}

/// The terms of the sum below the central one, added to `sum` until one is small:
/// at most `n` of them, the last one at index one.
#[verifier::when_used_as_spec(sum_down_spec)]
pub fn sum_down(
    df: F64,
    xnonc: F64,
    chid2: F64,
    pcent: F64,
    i_init: F64,
    adj_init: F64,
    sumadj_init: F64,
    wt_init: F64,
    sum_init: F64,
    n: u64,
) -> (r: F64)
    ensures
        r == sum_down(df, xnonc, chid2, pcent, i_init, adj_init, sumadj_init, wt_init, sum_init, n),
{
    let mut i = i_init;
    let mut adj = adj_init;
    let mut sumadj = sumadj_init;
    let mut wt = wt_init;
    let mut sum = sum_init;
    let mut left: u64 = n;
    while left > 0
        invariant
            left <= n,
            sum_down(df, xnonc, chid2, pcent, i_init, adj_init, sumadj_init, wt_init, sum_init, n)
                == sum_down(df, xnonc, chid2, pcent, i, adj, sumadj, wt, sum, left),
        decreases left,
    {
        let dfd2 = (df + lit(TWO) * i) / lit(TWO);
        let adj1 = adj * (dfd2 / chid2);
        let sumadj1 = sumadj + adj1;
        let wt1 = wt * (i / xnonc);
        let term = wt1 * (pcent + sumadj1);
        let sum1 = sum + term;
        let i1 = i - lit(ONE);
        if sum1.lt(lit(0x3BC7_9CA1_0C92_4223 /* 1e-20 */))
            || term.lt(lit(0x3EE4_F8B5_88E3_68F1 /* 1e-5 */) * sum1) || i1.equals(lit(ZERO)) {
            return sum1;
        } else {
            let next_i = i1;
            let next_adj = adj1;
            let next_sumadj = sumadj1;
            let next_wt = wt1;
            let next_sum = sum1;
            i = next_i;
            adj = next_adj;
            sumadj = next_sumadj;
            wt = next_wt;
            sum = next_sum;
        }
        left = left - 1;
    }
    sum
}

pub open spec fn sum_up_spec(
    df: F64,
    xnonc: F64,
    chid2: F64,
    pcent: F64,
    i: F64,
    adj: F64,
    sumadj: F64,
    wt: F64,
    sum: F64,
    n: u64,
) -> F64
    decreases n,
{
    if n == 0 {
        sum
    } else {
        let i1 = i + lit(ONE);
        let wt1 = wt * (xnonc / i1);
        let term = wt1 * (pcent - sumadj);
        let sum1 = sum + term;
        let dfd2 = (df + lit(TWO) * i1) / lit(TWO);
        let adj1 = adj * (chid2 / dfd2);
        if sum1.lt(lit(0x3BC7_9CA1_0C92_4223 /* 1e-20 */))
            || term.lt(lit(0x3EE4_F8B5_88E3_68F1 /* 1e-5 */) * sum1) {
            sum1
        } else {
            sum_up_spec(df, xnonc, chid2, pcent, i1, adj1, sumadj + adj1, wt1, sum1, (n - 1) as u64)
        }
    }
}

/// The terms of the sum above the central one, added to `sum` until one is small: at
/// most `n` of them.
#[verifier::when_used_as_spec(sum_up_spec)]
pub fn sum_up(
    df: F64,
    xnonc: F64,
    chid2: F64,
    pcent: F64,
    i_init: F64,
    adj_init: F64,
    sumadj_init: F64,
    wt_init: F64,
    sum_init: F64,
    n: u64,
) -> (r: F64)
    ensures
        r == sum_up(df, xnonc, chid2, pcent, i_init, adj_init, sumadj_init, wt_init, sum_init, n),
{
    let mut i = i_init;
    let mut adj = adj_init;
    let mut sumadj = sumadj_init;
    let mut wt = wt_init;
    let mut sum = sum_init;
    let mut left: u64 = n;
    while left > 0
        invariant
            left <= n,
            sum_up(df, xnonc, chid2, pcent, i_init, adj_init, sumadj_init, wt_init, sum_init, n)
                == sum_up(df, xnonc, chid2, pcent, i, adj, sumadj, wt, sum, left),
        decreases left,
    {
        let i1 = i + lit(ONE);
        let wt1 = wt * (xnonc / i1);
        let term = wt1 * (pcent - sumadj);
        let sum1 = sum + term;
        let dfd2 = (df + lit(TWO) * i1) / lit(TWO);
        let adj1 = adj * (chid2 / dfd2);
        if sum1.lt(lit(0x3BC7_9CA1_0C92_4223 /* 1e-20 */))
            || term.lt(lit(0x3EE4_F8B5_88E3_68F1 /* 1e-5 */) * sum1) {
            return sum1;
        } else {
            let next_i = i1;
            let next_adj = adj1;
            let next_sumadj = sumadj + adj1;
            let next_wt = wt1;
            let next_sum = sum1;
            i = next_i;
            adj = next_adj;
            sumadj = next_sumadj;
            wt = next_wt;
            sum = next_sum;
        }
        left = left - 1;
    }
    sum
}

pub open spec fn mixture_spec<M: Fn(Elementary) -> F64>(m: &M, x: F64, df: F64, pnonc: F64) -> F64 {
    let xnonc = pnonc / lit(TWO);
    let whole = xnonc.to_i32();
    let icent = if whole == 0 {
        lit(ONE)
    } else {
        F64::from_i64(whole as i64)
    };
    let chid2 = x / lit(TWO);
    let centwt = exp(m, xnonc.negated() + icent * ln(m, xnonc) - gamma_log(m, icent + lit(ONE)));
    let dfd2 = (df + lit(TWO) * icent) / lit(TWO);
    let pcent = gamma_inc_value(m, dfd2, chid2).0;
    let centaj = exp(m, dfd2 * ln(m, chid2) - chid2 - gamma_log(m, lit(ONE) + dfd2));
    let down = sum_down(df, xnonc, chid2, pcent, icent, centaj, lit(ZERO), centwt, centwt * pcent,
        1001);
    sum_up(df, xnonc, chid2, pcent, icent, centaj, centaj, centwt, down, 1001)
}

/// The distribution function as a Poisson mixture, summed from the central term.
#[verifier::when_used_as_spec(mixture_spec)]
pub fn mixture<M: Fn(Elementary) -> F64>(m: &M, x: F64, df: F64, pnonc: F64) -> (r: F64)
    requires
        lawful(m),
    ensures
        r == mixture(m, x, df, pnonc),
{
    let xnonc = pnonc / lit(TWO);
    let whole: i32 = xnonc.to_i32();
    let icent = if whole == 0 {
        lit(ONE)
    } else {
        F64::from_i64(whole as i64)
    };
    let chid2 = x / lit(TWO);
    let centwt = exp(m, xnonc.negated() + icent * ln(m, xnonc) - gamma_log(m, icent + lit(ONE)));
    let dfd2 = (df + lit(TWO) * icent) / lit(TWO);
    let pcent = gamma_inc_value(m, dfd2, chid2).0;
    let centaj = exp(m, dfd2 * ln(m, chid2) - chid2 - gamma_log(m, lit(ONE) + dfd2));
    let down = sum_down(df, xnonc, chid2, pcent, icent, centaj, lit(ZERO), centwt, centwt * pcent,
        1001);
    sum_up(df, xnonc, chid2, pcent, icent, centaj, centaj, centwt, down, 1001)
}

pub open spec fn upper_down_spec<M: Fn(Elementary) -> F64>(
    m: &M,
    df: F64,
    xnonc: F64,
    chid2: F64,
    i: F64,
    wt: F64,
    sum: F64,
    n: u64,
) -> F64
    decreases n,
{
    if n == 0 {
        sum
    } else {
        let i1 = i - lit(ONE);
        let wt1 = wt * (i / xnonc);
        let term = wt1 * gamma_inc_value(m, (df + lit(TWO) * i1) / lit(TWO), chid2).1;
        let sum1 = sum + term;
        if !wt1.gt(lit(ZERO)) || term.le(lit(EPSILON) * sum1) {
            sum1
        } else {
            upper_down_spec(m, df, xnonc, chid2, i1, wt1, sum1, (n - 1) as u64)
        }
    }
}

/// The upper ratios below the central one, each with its weight, added to `sum` until one
/// is lost beside it: at most `n` of them.
#[verifier::when_used_as_spec(upper_down_spec)]
pub fn upper_down<M: Fn(Elementary) -> F64>(
    m: &M,
    df: F64,
    xnonc: F64,
    chid2: F64,
    i_init: F64,
    wt_init: F64,
    sum_init: F64,
    n: u64,
) -> (r: F64)
    requires
        lawful(m),
    ensures
        r == upper_down(m, df, xnonc, chid2, i_init, wt_init, sum_init, n),
{
    let mut i = i_init;
    let mut wt = wt_init;
    let mut sum = sum_init;
    let mut left: u64 = n;
    while left > 0
        invariant
            lawful(m),
            left <= n,
            upper_down(m, df, xnonc, chid2, i_init, wt_init, sum_init, n)
                == upper_down(m, df, xnonc, chid2, i, wt, sum, left),
        decreases left,
    {
        let i1 = i - lit(ONE);
        let wt1 = wt * (i / xnonc);
        let term = wt1 * gamma_inc_value(m, (df + lit(TWO) * i1) / lit(TWO), chid2).1;
        let sum1 = sum + term;
        if !wt1.gt(lit(ZERO)) || term.le(lit(EPSILON) * sum1) {
            return sum1;
        }
        i = i1;
        wt = wt1;
        sum = sum1;
        left = left - 1;
    }
    sum
}

pub open spec fn upper_up_spec<M: Fn(Elementary) -> F64>(
    m: &M,
    df: F64,
    xnonc: F64,
    chid2: F64,
    i: F64,
    wt: F64,
    sum: F64,
    n: u64,
) -> F64
    decreases n,
{
    if n == 0 {
        sum
    } else {
        let i1 = i + lit(ONE);
        let wt1 = wt * (xnonc / i1);
        let term = wt1 * gamma_inc_value(m, (df + lit(TWO) * i1) / lit(TWO), chid2).1;
        let sum1 = sum + term;
        if !wt1.gt(lit(ZERO)) || (sum1.gt(lit(ZERO)) && term.le(lit(EPSILON) * sum1)) {
            sum1
        } else {
            upper_up_spec(m, df, xnonc, chid2, i1, wt1, sum1, (n - 1) as u64)
        }
    }
}

/// The upper ratios above the central one, each with its weight, added to `sum` until one
/// is lost beside it or the weights vanish: at most `n` of them. A sum of zero goes on,
/// since the ratios grow.
#[verifier::when_used_as_spec(upper_up_spec)]
pub fn upper_up<M: Fn(Elementary) -> F64>(
    m: &M,
    df: F64,
    xnonc: F64,
    chid2: F64,
    i_init: F64,
    wt_init: F64,
    sum_init: F64,
    n: u64,
) -> (r: F64)
    requires
        lawful(m),
    ensures
        r == upper_up(m, df, xnonc, chid2, i_init, wt_init, sum_init, n),
{
    let mut i = i_init;
    let mut wt = wt_init;
    let mut sum = sum_init;
    let mut left: u64 = n;
    while left > 0
        invariant
            lawful(m),
            left <= n,
            upper_up(m, df, xnonc, chid2, i_init, wt_init, sum_init, n)
                == upper_up(m, df, xnonc, chid2, i, wt, sum, left),
        decreases left,
    {
        let i1 = i + lit(ONE);
        let wt1 = wt * (xnonc / i1);
        let term = wt1 * gamma_inc_value(m, (df + lit(TWO) * i1) / lit(TWO), chid2).1;
        let sum1 = sum + term;
        if !wt1.gt(lit(ZERO)) || (sum1.gt(lit(ZERO)) && term.le(lit(EPSILON) * sum1)) {
            return sum1;
        }
        i = i1;
        wt = wt1;
        sum = sum1;
        left = left - 1;
    }
    sum
}

pub open spec fn upper_mixture_spec<M: Fn(Elementary) -> F64>(m: &M, x: F64, df: F64, pnonc: F64) -> F64 {
    let xnonc = pnonc / lit(TWO);
    let whole = xnonc.to_i32();
    let icent = if whole == 0 {
        lit(ONE)
    } else {
        F64::from_i64(whole as i64)
    };
    let centwt = exp(m, xnonc.negated() + icent * ln(m, xnonc) - gamma_log(m, icent + lit(ONE)));
    let chid2 = x / lit(TWO);
    let central = gamma_inc_value(m, (df + lit(TWO) * icent) / lit(TWO), chid2).1;
    let down = upper_down(m, df, xnonc, chid2, icent, centwt, centwt * central, icent.to_u64());
    upper_up(m, df, xnonc, chid2, icent, centwt, down, PATIENCE)
}

/// The complement of the distribution function as a Poisson mixture of upper ratios,
/// summed from the central term: it does not go through the distribution function. That
/// one leaves off its sum at terms below 1e-5 of it, and this one does not, so the two add
/// up to one no more closely than that.
#[verifier::when_used_as_spec(upper_mixture_spec)]
pub fn upper_mixture<M: Fn(Elementary) -> F64>(m: &M, x: F64, df: F64, pnonc: F64) -> (r: F64)
    requires
        lawful(m),
    ensures
        r == upper_mixture(m, x, df, pnonc),
{
    let xnonc = pnonc / lit(TWO);
    let whole: i32 = xnonc.to_i32();
    let icent = if whole == 0 {
        lit(ONE)
    } else {
        F64::from_i64(whole as i64)
    };
    let centwt = exp(m, xnonc.negated() + icent * ln(m, xnonc) - gamma_log(m, icent + lit(ONE)));
    let chid2 = x / lit(TWO);
    let central = gamma_inc_value(m, (df + lit(TWO) * icent) / lit(TWO), chid2).1;
    let down = upper_down(m, df, xnonc, chid2, icent, centwt, centwt * central, icent.to_u64());
    upper_up(m, df, xnonc, chid2, icent, centwt, down, PATIENCE)
}

pub open spec fn cumchn_spec<M: Fn(Elementary) -> F64>(
    m: &M,
    x: F64,
    df: F64,
    pnonc: F64,
) -> (F64, F64) {
    if x.is_nan() || df.is_nan() || pnonc.is_nan() {
        (lit(NAN), lit(NAN))
    } else if x.le(lit(ZERO)) {
        (lit(ZERO), lit(ONE))
    } else if pnonc.le(lit(0x3DDB_7CDF_D9D7_BDBB /* 1e-10 */)) {
        gamma_inc_value(m, df / lit(TWO), x / lit(TWO))
    } else {
        (mixture(m, x, df, pnonc), upper_mixture(m, x, df, pnonc))
    }
}

/// The distribution function at `x` and its complement.
#[verifier::when_used_as_spec(cumchn_spec)]
pub fn cumchn<M: Fn(Elementary) -> F64>(m: &M, x: F64, df: F64, pnonc: F64) -> (r: (F64, F64))
    requires
        lawful(m),
    ensures
        r == cumchn(m, x, df, pnonc),
{
    if x.is_nan() || df.is_nan() || pnonc.is_nan() {
        (lit(NAN), lit(NAN))
    } else if x.le(lit(ZERO)) {
        (lit(ZERO), lit(ONE))
    } else if pnonc.le(lit(0x3DDB_7CDF_D9D7_BDBB /* 1e-10 */)) {
        gamma_inc_value(m, df / lit(TWO), x / lit(TWO))
    } else {
        (mixture(m, x, df, pnonc), upper_mixture(m, x, df, pnonc))
    }
}
/// The distribution function alone.
pub fn cumchn_below<M: Fn(Elementary) -> F64>(m: &M, x: F64, df: F64, pnonc: F64) -> (r: F64)
    requires
        lawful(m),
    ensures
        r == cumchn(m, x, df, pnonc).0,
{
    if x.is_nan() || df.is_nan() || pnonc.is_nan() {
        lit(NAN)
    } else if x.le(lit(ZERO)) {
        lit(ZERO)
    } else if pnonc.le(lit(0x3DDB_7CDF_D9D7_BDBB /* 1e-10 */)) {
        gamma_inc_value(m, df / lit(TWO), x / lit(TWO)).0
    } else {
        mixture(m, x, df, pnonc)
    }
}

/// Its complement alone.
pub fn cumchn_above<M: Fn(Elementary) -> F64>(m: &M, x: F64, df: F64, pnonc: F64) -> (r: F64)
    requires
        lawful(m),
    ensures
        r == cumchn(m, x, df, pnonc).1,
{
    if x.is_nan() || df.is_nan() || pnonc.is_nan() {
        lit(NAN)
    } else if x.le(lit(ZERO)) {
        lit(ONE)
    } else if pnonc.le(lit(0x3DDB_7CDF_D9D7_BDBB /* 1e-10 */)) {
        gamma_inc_value(m, df / lit(TWO), x / lit(TWO)).1
    } else {
        upper_mixture(m, x, df, pnonc)
    }
}


/// The degrees of freedom that put the probability `p` below `x`.
pub open spec fn search_df_spec<M: Fn(Elementary) -> F64>(
    m: &M,
    p: F64,
    x: F64,
    ncp: F64,
) -> Result<F64, ChiSquaredNoncentralError> {
    match check_p(p) {
        Err(e) => Err(e),
        Ok(_) => {
            if !x.is_finite() {
                Err(ChiSquaredNoncentralError::XNotFinite(x))
            } else if x.le(lit(ZERO)) {
                Err(ChiSquaredNoncentralError::XNotPositive(x))
            } else if !ncp.is_finite() {
                Err(ChiSquaredNoncentralError::NcpNotFinite(ncp))
            } else if ncp.lt(lit(ZERO)) {
                Err(ChiSquaredNoncentralError::NcpNegative(ncp))
            } else {
                match search_monotone_with_atol_spec(
                    lit(ZERO),
                    lit(0x7E37_E43C_8800_759C /* 1.0e300 */),
                    lit(FIVE),
                    lit(ZERO),
                    lit(0x7E37_E43C_8800_759C /* 1.0e300 */),
                    lit(0x358D_EE7A_4AD4_B81F /* 1.0e-50 */),
                    |df: F64| cumchn(m, x, df, ncp).0 - p,
                ) {
                    Ok(found) => Ok(found),
                    Err(e) => Err(ChiSquaredNoncentralError::Search(e)),
                }
            }
        },
    }
}

impl ChiSquaredNoncentral {
    /// The degrees of freedom that put the probability `p` below `x`.
    pub fn search_df<M: Fn(Elementary) -> F64>(
        m: &M,
        p: F64,
        x: F64,
        ncp: F64,
    ) -> (r: Result<F64, ChiSquaredNoncentralError>)
        requires
            lawful(m),
        ensures
            r == search_df_spec(m, p, x, ncp),
    {
        check_p(p)?;
        if !x.is_finite() {
            Err(ChiSquaredNoncentralError::XNotFinite(x))
        } else if x.le(lit(ZERO)) {
            Err(ChiSquaredNoncentralError::XNotPositive(x))
        } else if !ncp.is_finite() {
            Err(ChiSquaredNoncentralError::NcpNotFinite(ncp))
        } else if ncp.lt(lit(ZERO)) {
            Err(ChiSquaredNoncentralError::NcpNegative(ncp))
        } else {
            let objective = |df: F64| -> (v: F64)
                ensures
                    v == cumchn(m, x, df, ncp).0 - p,
                { cumchn_below(m, x, df, ncp) - p };
            let answer = search_monotone_with_atol(
                lit(ZERO),
                lit(0x7E37_E43C_8800_759C /* 1.0e300 */),
                lit(FIVE),
                lit(ZERO),
                lit(0x7E37_E43C_8800_759C /* 1.0e300 */),
                lit(0x358D_EE7A_4AD4_B81F /* 1.0e-50 */),
                &objective,
            );
            proof {
                assert(agrees(&objective, |df: F64| cumchn(m, x, df, ncp).0 - p));
            }
            match answer {
                Ok(found) => Ok(found),
                Err(e) => Err(ChiSquaredNoncentralError::Search(e)),
            }
        }
    }
}

/// The noncentrality, of at most 1e4, that puts the probability `p` below `x`.
pub open spec fn search_ncp_spec<M: Fn(Elementary) -> F64>(
    m: &M,
    p: F64,
    x: F64,
    df: F64,
) -> Result<F64, ChiSquaredNoncentralError> {
    match check_p(p) {
        Err(e) => Err(e),
        Ok(_) => {
            if !x.is_finite() {
                Err(ChiSquaredNoncentralError::XNotFinite(x))
            } else if x.le(lit(ZERO)) {
                Err(ChiSquaredNoncentralError::XNotPositive(x))
            } else if !df.is_finite() {
                Err(ChiSquaredNoncentralError::DfNotFinite(df))
            } else if df.le(lit(ZERO)) {
                Err(ChiSquaredNoncentralError::DfNotPositive(df))
            } else {
                match search_monotone_with_atol_spec(
                    lit(ZERO),
                    lit(0x40C3_8800_0000_0000 /* 1.0e4 */),
                    lit(FIVE),
                    lit(ZERO),
                    lit(0x40C3_8800_0000_0000 /* 1.0e4 */),
                    lit(0x358D_EE7A_4AD4_B81F /* 1.0e-50 */),
                    |ncp: F64| cumchn(m, x, df, ncp).0 - p,
                ) {
                    Ok(found) => Ok(found),
                    Err(e) => Err(ChiSquaredNoncentralError::Search(e)),
                }
            }
        },
    }
}

impl ChiSquaredNoncentral {
    /// The noncentrality, of at most 1e4, that puts the probability `p` below `x`.
    pub fn search_ncp<M: Fn(Elementary) -> F64>(
        m: &M,
        p: F64,
        x: F64,
        df: F64,
    ) -> (r: Result<F64, ChiSquaredNoncentralError>)
        requires
            lawful(m),
        ensures
            r == search_ncp_spec(m, p, x, df),
    {
        check_p(p)?;
        if !x.is_finite() {
            Err(ChiSquaredNoncentralError::XNotFinite(x))
        } else if x.le(lit(ZERO)) {
            Err(ChiSquaredNoncentralError::XNotPositive(x))
        } else if !df.is_finite() {
            Err(ChiSquaredNoncentralError::DfNotFinite(df))
        } else if df.le(lit(ZERO)) {
            Err(ChiSquaredNoncentralError::DfNotPositive(df))
        } else {
            let objective = |ncp: F64| -> (v: F64)
                ensures
                    v == cumchn(m, x, df, ncp).0 - p,
                { cumchn_below(m, x, df, ncp) - p };
            let answer = search_monotone_with_atol(
                lit(ZERO),
                lit(0x40C3_8800_0000_0000 /* 1.0e4 */),
                lit(FIVE),
                lit(ZERO),
                lit(0x40C3_8800_0000_0000 /* 1.0e4 */),
                lit(0x358D_EE7A_4AD4_B81F /* 1.0e-50 */),
                &objective,
            );
            proof {
                assert(agrees(&objective, |ncp: F64| cumchn(m, x, df, ncp).0 - p));
            }
            match answer {
                Ok(found) => Ok(found),
                Err(e) => Err(ChiSquaredNoncentralError::Search(e)),
            }
        }
    }
}

impl ChiSquaredNoncentral {
    /// The degrees of freedom that put the probability `p` below `x`.
    pub fn solve_df<M: Fn(Elementary) -> F64>(
        m: &M,
        p: F64,
        x: F64,
        ncp: F64,
    ) -> (r: Result<F64, ChiSquaredNoncentralError>)
        requires
            lawful(m),
        ensures
            r == search_df_spec(m, p, x, ncp),
    {
        ChiSquaredNoncentral::search_df(m, p, x, ncp)
    }
}

impl ChiSquaredNoncentral {
    /// The noncentrality, of at most 1e4, that puts the probability `p` below `x`.
    pub fn solve_ncp<M: Fn(Elementary) -> F64>(
        m: &M,
        p: F64,
        x: F64,
        df: F64,
    ) -> (r: Result<F64, ChiSquaredNoncentralError>)
        requires
            lawful(m),
        ensures
            r == search_ncp_spec(m, p, x, df),
    {
        ChiSquaredNoncentral::search_ncp(m, p, x, df)
    }
}

pub open spec fn cdf_at_spec<M: Fn(Elementary) -> F64>(m: &M, df: F64, ncp: F64, x: F64) -> F64 {
    cumchn(m, x, df, ncp).0
}

/// The probability of a value of at most `x`.
#[verifier::when_used_as_spec(cdf_at_spec)]
pub fn cdf_at<M: Fn(Elementary) -> F64>(m: &M, df: F64, ncp: F64, x: F64) -> (r: F64)
    requires
        lawful(m),
    ensures
        r == cdf_at(m, df, ncp, x),
{
    cumchn_below(m, x, df, ncp)
}

pub open spec fn ccdf_at_spec<M: Fn(Elementary) -> F64>(m: &M, df: F64, ncp: F64, x: F64) -> F64 {
    cumchn(m, x, df, ncp).1
}

/// The probability of a value above `x`.
#[verifier::when_used_as_spec(ccdf_at_spec)]
pub fn ccdf_at<M: Fn(Elementary) -> F64>(m: &M, df: F64, ncp: F64, x: F64) -> (r: F64)
    requires
        lawful(m),
    ensures
        r == ccdf_at(m, df, ncp, x),
{
    cumchn_above(m, x, df, ncp)
}

pub open spec fn quantile_spec<M: Fn(Elementary) -> F64>(
    m: &M,
    df: F64,
    ncp: F64,
    p: F64,
) -> Result<F64, ChiSquaredNoncentralError> {
    match check_p(p) {
        Err(e) => Err(e),
        Ok(_) => {
            if p.equals(lit(ZERO)) {
                Ok(lit(ZERO))
            } else if p.equals(lit(ONE)) {
                Ok(lit(INFINITY))
            } else {
                match search_monotone_with_atol_spec(
                    lit(ZERO),
                    lit(0x7E37_E43C_8800_759C /* 1.0e300 */),
                    lit(FIVE),
                    lit(ZERO),
                    lit(0x7E37_E43C_8800_759C /* 1.0e300 */),
                    lit(0x358D_EE7A_4AD4_B81F /* 1.0e-50 */),
                    |x: F64| cumchn(m, x, df, ncp).0 - p,
                ) {
                    Ok(found) => Ok(found),
                    Err(e) => Err(ChiSquaredNoncentralError::Search(e)),
                }
            }
        },
    }
}

/// The value with the probability `p` below it.
#[verifier::when_used_as_spec(quantile_spec)]
pub fn quantile<M: Fn(Elementary) -> F64>(
    m: &M,
    df: F64,
    ncp: F64,
    p: F64,
) -> (r: Result<F64, ChiSquaredNoncentralError>)
    requires
        lawful(m),
    ensures
        r == quantile(m, df, ncp, p),
{
    check_p(p)?;
    if p.equals(lit(ZERO)) {
        Ok(lit(ZERO))
    } else if p.equals(lit(ONE)) {
        Ok(lit(INFINITY))
    } else {
        let objective = |x: F64| -> (v: F64)
            ensures
                v == cumchn(m, x, df, ncp).0 - p,
            { cumchn_below(m, x, df, ncp) - p };
        let answer = search_monotone_with_atol(
            lit(ZERO),
            lit(0x7E37_E43C_8800_759C /* 1.0e300 */),
            lit(FIVE),
            lit(ZERO),
            lit(0x7E37_E43C_8800_759C /* 1.0e300 */),
            lit(0x358D_EE7A_4AD4_B81F /* 1.0e-50 */),
            &objective,
        );
        proof {
            assert(agrees(&objective, |x: F64| cumchn(m, x, df, ncp).0 - p));
        }
        match answer {
            Ok(found) => Ok(found),
            Err(e) => Err(ChiSquaredNoncentralError::Search(e)),
        }
    }
}

pub open spec fn upper_quantile_spec<M: Fn(Elementary) -> F64>(
    m: &M,
    df: F64,
    ncp: F64,
    q: F64,
) -> Result<F64, ChiSquaredNoncentralError> {
    match check_q(q) {
        Err(e) => Err(e),
        Ok(_) => {
            if q.equals(lit(ONE)) {
                Ok(lit(ZERO))
            } else if q.equals(lit(ZERO)) {
                Ok(lit(INFINITY))
            } else {
                match solve_monotone_spec(
                    BracketStrategy::Decreasing { small: lit(ZERO),
                        big: lit(0x7E37_E43C_8800_759C /* 1.0e300 */), start: df + ncp },
                    |x: F64| cumchn(m, x, df, ncp).1 - q,
                ) {
                    Ok(found) => Ok(found),
                    Err(e) => Err(ChiSquaredNoncentralError::Solver(e)),
                }
            }
        },
    }
}

/// The value with the probability `q` above it.
#[verifier::when_used_as_spec(upper_quantile_spec)]
pub fn upper_quantile<M: Fn(Elementary) -> F64>(
    m: &M,
    df: F64,
    ncp: F64,
    q: F64,
) -> (r: Result<F64, ChiSquaredNoncentralError>)
    requires
        lawful(m),
    ensures
        r == upper_quantile(m, df, ncp, q),
{
    check_q(q)?;
    if q.equals(lit(ONE)) {
        Ok(lit(ZERO))
    } else if q.equals(lit(ZERO)) {
        Ok(lit(INFINITY))
    } else {
        let objective = |x: F64| -> (v: F64)
            ensures
                v == cumchn(m, x, df, ncp).1 - q,
            { cumchn_above(m, x, df, ncp) - q };
        let answer = solve_monotone(
            BracketStrategy::Decreasing { small: lit(ZERO),
                big: lit(0x7E37_E43C_8800_759C /* 1.0e300 */), start: df + ncp },
            &objective,
        );
        proof {
            assert(agrees(&objective, |x: F64| cumchn(m, x, df, ncp).1 - q));
        }
        match answer {
            Ok(found) => Ok(found),
            Err(e) => Err(ChiSquaredNoncentralError::Solver(e)),
        }
    }
}

pub open spec fn mean_of_spec(df: F64, ncp: F64) -> F64 {
    df + ncp
}

/// The mean.
#[verifier::when_used_as_spec(mean_of_spec)]
pub fn mean_of(df: F64, ncp: F64) -> (r: F64)
    ensures
        r == mean_of(df, ncp),
{
    df + ncp
}

pub open spec fn variance_of_spec(df: F64, ncp: F64) -> F64 {
    lit(TWO) * (df + lit(TWO) * ncp)
}

/// The variance.
#[verifier::when_used_as_spec(variance_of_spec)]
pub fn variance_of(df: F64, ncp: F64) -> (r: F64)
    ensures
        r == variance_of(df, ncp),
{
    lit(TWO) * (df + lit(TWO) * ncp)
}

impl<M: Fn(Elementary) -> F64> ContinuousCdf<M> for ChiSquaredNoncentral {
    type Error = ChiSquaredNoncentralError;

    open spec fn cdf_spec(&self, m: &M, x: F64) -> F64 {
        cdf_at(m, self.df, self.ncp, x)
    }

    fn cdf(&self, m: &M, x: F64) -> (r: F64) {
        cdf_at(m, self.df, self.ncp, x)
    }

    open spec fn ccdf_spec(&self, m: &M, x: F64) -> F64 {
        ccdf_at(m, self.df, self.ncp, x)
    }

    fn ccdf(&self, m: &M, x: F64) -> (r: F64) {
        ccdf_at(m, self.df, self.ncp, x)
    }

    open spec fn inverse_cdf_spec(&self, m: &M, p: F64) -> Result<F64, ChiSquaredNoncentralError> {
        quantile(m, self.df, self.ncp, p)
    }

    fn inverse_cdf(&self, m: &M, p: F64) -> (r: Result<F64, ChiSquaredNoncentralError>) {
        quantile(m, self.df, self.ncp, p)
    }

    fn sf(&self, m: &M, x: F64) -> (r: F64) {
        ccdf_at(m, self.df, self.ncp, x)
    }
}

impl Mean for ChiSquaredNoncentral {
    open spec fn mean_spec(&self) -> F64 {
        mean_of(self.df, self.ncp)
    }

    fn mean(&self) -> (r: F64) {
        mean_of(self.df, self.ncp)
    }
}

impl Variance for ChiSquaredNoncentral {
    open spec fn variance_spec(&self) -> F64 {
        variance_of(self.df, self.ncp)
    }

    fn variance(&self) -> (r: F64) {
        variance_of(self.df, self.ncp)
    }

    fn std_dev(&self) -> (r: F64) {
        variance_of(self.df, self.ncp).sqrt()
    }
}

impl ChiSquaredNoncentral {
    /// The value with the probability `q` above it.
    pub fn inverse_sf<M: Fn(Elementary) -> F64>(
        &self,
        m: &M,
        q: F64,
    ) -> (r: Result<F64, ChiSquaredNoncentralError>)
        requires
            lawful(m),
        ensures
            r == upper_quantile(m, self.df, self.ncp, q),
    {
        upper_quantile(m, self.df, self.ncp, q)
    }
}

} // verus!
