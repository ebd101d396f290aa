//! Where the distribution functions have no value.
use crate::consts::{NAN, ONE, TWO, ZERO};
use crate::dist::{chi_squared, chi_squared_noncentral, gamma, poisson};
use crate::float::{lit, F64};
use crate::float::bounds::lemma_ratio_le;
use crate::float::laws::{
    law_nan_propagates, law_order, law_product_is_nearest, law_quotient_is_nearest,
    law_sign_and_zero, law_sum_is_monotone,
};
use crate::float::model::{lemma_mag_cell, lemma_mag_zero, CELL, INF_ENC};
use crate::float::number::{lemma_equals_units, lemma_le_units, lemma_lt_units, lemma_order};
use crate::float::round::lemma_powers;
use crate::float::signed::lemma_representable;
use crate::functions::{exp, ln, Elementary};
use crate::special::gamma::gamma_log;
use crate::special::gamma_inc::{gamma_inc_value, try_gamma_inc, GammaIncError};
use vstd::arithmetic::power2::{
    lemma_pow2_adds, lemma_pow2_pos, lemma_pow2_strictly_increases, pow2,
};
use vstd::prelude::*;

verus! {

/// The two tails are the ratios of the incomplete gamma function at `a` and `x` where these
/// can be told. Where they cannot, for an `a` and an `x` that leave them indeterminate or
/// have both vanished, the two tails are NaN; there is no other error.
pub open spec fn tails_of<M: Fn(Elementary) -> F64>(m: &M, a: F64, x: F64, cdf: F64, ccdf: F64) -> bool {
    match try_gamma_inc(m, a, x) {
        Ok(r) => cdf == r.0 && ccdf == r.1,
        Err(e) => {
            &&& cdf == lit(NAN) && ccdf == lit(NAN)
            &&& e == (GammaIncError::Indeterminate { a, x }) || (e == GammaIncError::BothZero && a.equals(
                lit(ZERO),
            ) && x.equals(lit(ZERO)))
        },
    }
}

proof fn lemma_tails<M: Fn(Elementary) -> F64>(m: &M, a: F64, x: F64)
    requires
        lit(ZERO).le(a),
        lit(ZERO).le(x),
    ensures
        tails_of(m, a, x, gamma_inc_value(m, a, x).0, gamma_inc_value(m, a, x).1),
{
    broadcast use lemma_le_units;
    broadcast use lemma_lt_units;
    broadcast use lemma_equals_units;
}

/// A product of a positive number and a positive finite one is a number, and not negative.
proof fn lemma_product(x: F64, y: F64)
    requires
        x.gt(lit(ZERO)),
        y.gt(lit(ZERO)),
        y.is_finite(),
    ensures
        lit(ZERO).le(x * y),
{
    law_sign_and_zero(x);
    law_sign_and_zero(y);
    reveal(F64::spec_mul);
    if x.is_finite() {
        law_product_is_nearest(x, y);
    }
    let p = x * y;
    assert(!p.is_nan() && !p.sign());
    lemma_mag_zero(0);
    lemma_order(p.enc() as int, 0);
    broadcast use lemma_le_units;
}

/// Half of a positive number is a number, and not negative.
proof fn lemma_half(x: F64)
    requires
        x.gt(lit(ZERO)),
    ensures
        lit(ZERO).le(x / lit(TWO)),
{
    law_sign_and_zero(x);
    reveal(F64::spec_euclidean_or_real_div);
    lemma_order(TWO as int, 0);
    if x.is_finite() {
        law_quotient_is_nearest(x, lit(TWO));
    }
    let p = x / lit(TWO);
    assert(!p.is_nan() && !p.sign());
    lemma_mag_zero(0);
    lemma_order(p.enc() as int, 0);
    broadcast use lemma_le_units;
}

/// The tails of a gamma distribution inside its support.
pub proof fn law_gamma_indeterminate<M: Fn(Elementary) -> F64>(m: &M, shape: F64, rate: F64, x: F64)
    requires
        shape.gt(lit(ZERO)),
        rate.gt(lit(ZERO)) && rate.is_finite(),
        x.gt(lit(ZERO)),
    ensures
        tails_of(
            m,
            shape,
            x * rate,
            gamma::cdf_at(m, shape, rate, x),
            gamma::ccdf_at(m, shape, rate, x),
        ),
{
    broadcast use lemma_le_units;
    broadcast use lemma_lt_units;
    lemma_product(x, rate);
    lemma_tails(m, shape, x * rate);
}

/// The tails of a chi-squared distribution inside its support.
pub proof fn law_chi_squared_indeterminate<M: Fn(Elementary) -> F64>(m: &M, df: F64, x: F64)
    requires
        df.gt(lit(ZERO)),
        x.gt(lit(ZERO)),
    ensures
        tails_of(
            m,
            df / lit(TWO),
            x / lit(TWO),
            chi_squared::cdf_at(m, df, x),
            chi_squared::ccdf_at(m, df, x),
        ),
{
    broadcast use lemma_le_units;
    broadcast use lemma_lt_units;
    lemma_half(df);
    lemma_half(x);
    lemma_tails(m, df / lit(TWO), x / lit(TWO));
}

/// The tails of a Poisson distribution: the upper ratio is what lies below.
pub proof fn law_poisson_indeterminate<M: Fn(Elementary) -> F64>(m: &M, lambda: F64, s: u64)
    requires
        lit(ZERO).le(lambda),
    ensures
        tails_of(
            m,
            F64::from_u64(s) + lit(ONE),
            lambda,
            poisson::ccdf_at(m, lambda, s),
            poisson::cdf_at(m, lambda, s),
        ),
{
    let sf = F64::from_u64(s);
    lemma_count(s);
    law_sum_is_monotone(sf, lit(ONE));
    law_order(lit(ZERO), sf, sf + lit(ONE));
    lemma_tails(m, sf + lit(ONE), lambda);
}

/// A count as a number is finite and not negative.
pub proof fn lemma_count(s: u64)
    ensures
        F64::from_u64(s).is_finite(),
        lit(ZERO).le(F64::from_u64(s)),
{
    reveal(F64::from_u64_spec);
    let d = pow2(1074) as int;
    let c = pow2(1138) as int;
    lemma_pow2_pos(1074);
    lemma_pow2_adds(64, 1074);
    lemma_powers();
    lemma_representable(1, 1138);
    assert(s * d <= c) by (nonlinear_arith)
        requires s <= 0xFFFF_FFFF_FFFF_FFFF, c == pow2(64) * d, pow2(64) == 0x1_0000_0000_0000_0000, d > 0;
    assert(s * d >= 0) by (nonlinear_arith)
        requires s >= 0, d > 0;
    assert(1 * pow2(1138) == c);
    lemma_ratio_le(s * d, 1, c);
    lemma_mag_cell(2046, CELL as int);
    assert(2046 * CELL + CELL == INF_ENC);
    lemma_pow2_strictly_increases(1138, 2046);
    assert(c < CELL * pow2(2046)) by (nonlinear_arith)
        requires c < pow2(2046), CELL == 0x0010_0000_0000_0000;
    let e = F64::from_u64(s).enc() as int;
    lemma_order(e, INF_ENC as int);
    lemma_mag_zero(0);
    lemma_order(e, 0);
    broadcast use lemma_le_units;
}

proof fn lemma_down_keeps_nan(
    df: F64,
    xnonc: F64,
    chid2: F64,
    pcent: F64,
    i: F64,
    adj: F64,
    sumadj: F64,
    wt: F64,
    sum: F64,
    n: u64,
)
    requires
        sum.is_nan(),
    ensures
        chi_squared_noncentral::sum_down(df, xnonc, chid2, pcent, i, adj, sumadj, wt, sum, n).is_nan(),
    decreases n,
{
    if n > 0 {
        let dfd2 = (df + lit(TWO) * i) / lit(TWO);
        let adj1 = adj * (dfd2 / chid2);
        let sumadj1 = sumadj + adj1;
        let wt1 = wt * (i / xnonc);
        let term = wt1 * (pcent + sumadj1);
        law_nan_propagates(sum, term);
        lemma_down_keeps_nan(
            df,
            xnonc,
            chid2,
            pcent,
            i - lit(ONE),
            adj1,
            sumadj1,
            wt1,
            sum + term,
            (n - 1) as u64,
        );
    }
}

proof fn lemma_up_keeps_nan(
    df: F64,
    xnonc: F64,
    chid2: F64,
    pcent: F64,
    i: F64,
    adj: F64,
    sumadj: F64,
    wt: F64,
    sum: F64,
    n: u64,
)
    requires
        sum.is_nan(),
    ensures
        chi_squared_noncentral::sum_up(df, xnonc, chid2, pcent, i, adj, sumadj, wt, sum, n).is_nan(),
    decreases n,
{
    if n > 0 {
        let i1 = i + lit(ONE);
        let wt1 = wt * (xnonc / i1);
        let term = wt1 * (pcent - sumadj);
        let dfd2 = (df + lit(TWO) * i1) / lit(TWO);
        let adj1 = adj * (chid2 / dfd2);
        law_nan_propagates(sum, term);
        lemma_up_keeps_nan(
            df,
            xnonc,
            chid2,
            pcent,
            i1,
            adj1,
            sumadj + adj1,
            wt1,
            sum + term,
            (n - 1) as u64,
        );
    }
}

/// The index that the mixtures of a noncentral distribution are summed from.
pub open spec fn central_index(ncp: F64) -> F64 {
    let whole = (ncp / lit(TWO)).to_i32();
    if whole == 0 {
        lit(ONE)
    } else {
        F64::from_i64(whole as i64)
    }
}

/// A noncentral chi-squared distribution whose central ratio cannot be told has no
/// distribution function there.
pub proof fn law_noncentral_chi_squared_indeterminate<M: Fn(Elementary) -> F64>(
    m: &M,
    df: F64,
    ncp: F64,
    x: F64,
)
    requires
        x.gt(lit(ZERO)),
        !ncp.le(lit(0x3DDB_7CDF_D9D7_BDBB)),
        try_gamma_inc(m, (df + lit(TWO) * central_index(ncp)) / lit(TWO), x / lit(TWO)) is Err,
    ensures
        chi_squared_noncentral::cdf_at(m, df, ncp, x).is_nan(),
{
    broadcast use lemma_le_units;
    broadcast use lemma_lt_units;
    let xnonc = ncp / lit(TWO);
    let icent = central_index(ncp);
    let chid2 = x / lit(TWO);
    let centwt = exp(m, xnonc.negated() + icent * ln(m, xnonc) - gamma_log(m, icent + lit(ONE)));
    let dfd2 = (df + lit(TWO) * icent) / lit(TWO);
    let pcent = gamma_inc_value(m, dfd2, chid2).0;
    assert(pcent == lit(NAN));
    let centaj = exp(m, dfd2 * ln(m, chid2) - chid2 - gamma_log(m, lit(ONE) + dfd2));
    law_nan_propagates(pcent, centwt);
    let sum = centwt * pcent;
    lemma_down_keeps_nan(df, xnonc, chid2, pcent, icent, centaj, lit(ZERO), centwt, sum, 1001);
    let down = chi_squared_noncentral::sum_down(
        df,
        xnonc,
        chid2,
        pcent,
        icent,
        centaj,
        lit(ZERO),
        centwt,
        sum,
        1001,
    );
    lemma_up_keeps_nan(df, xnonc, chid2, pcent, icent, centaj, centaj, centwt, down, 1001);
}

} // verus!
