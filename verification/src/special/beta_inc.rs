//! The incomplete beta function ratios.
use crate::consts::{EPSILON, FIVE, HALF, NAN, ONE, PATIENCE, QUARTER, THREE, TWO, ZERO};
use super::beta::{algdiv, bcorr, beta_log, beta_rcomp, beta_rcomp1, shifted, sum_factor};
use super::erf::{error_fc_scaled, NEG_EXPARG};
use super::gamma::{alnrel, gam1, gamma_ln1, psi_value, rlog1, POS_EXPARG};
use super::gamma_inc::{complement, convergents, one_half, settled, taylor_finish, taylor_series};
use super::poly::within;
use crate::float::{lit, F64};
use crate::functions::{exp, lawful, ln, powf, Elementary};
use vstd::prelude::*;

verus! {

pub open spec fn fpser_sum_spec(x: F64, tol: F64, an: F64, t: F64, s: F64, n: u64) -> F64
    decreases n,
{
    if n == 0 {
        lit(NAN)
    } else {
        let an1 = an + lit(ONE);
        let t1 = t * x;
        let c = t1 / an1;
        let s1 = s + c;
        if c.abs().le(tol) {
            s1
        } else {
            fpser_sum_spec(x, tol, an1, t1, s1, (n - 1) as u64)
        }
    }
}

/// The terms `t x^k / (an + k)`, up to one within the tolerance.
#[verifier::when_used_as_spec(fpser_sum_spec)]
pub fn fpser_sum(x: F64, tol: F64, an_init: F64, t_init: F64, s_init: F64, n: u64) -> (r: F64)
    ensures
        r == fpser_sum(x, tol, an_init, t_init, s_init, n),
{
    let mut an = an_init;
    let mut t = t_init;
    let mut s = s_init;
    let mut left: u64 = n;
    while left > 0
        invariant
            left <= n,
            fpser_sum(x, tol, an_init, t_init, s_init, n)
                == fpser_sum(x, tol, an, t, s, left),
        decreases left,
    {
        let an1 = an + lit(ONE);
        let t1 = t * x;
        let c = t1 / an1;
        let s1 = s + c;
        if c.abs().le(tol) {
            return s1;
        } else {
            let next_an = an1;
            let next_t = t1;
            let next_s = s1;
            an = next_an;
            t = next_t;
            s = next_s;
        }
        left = left - 1;
    }
    lit(NAN)
}

#[verifier::opaque]
pub open spec fn fpser_spec<M: Fn(Elementary) -> F64>(
    m: &M,
    a: F64,
    b: F64,
    x: F64,
    eps: F64,
) -> F64 {
    let t = a * ln(m, x);
    if a.gt(lit(0x3F50_624D_D2F1_A9FC /* 1e-3 */) * eps) && t.lt(lit(NEG_EXPARG)) {
        lit(ZERO)
    } else {
        let scale = if a.gt(lit(0x3F50_624D_D2F1_A9FC /* 1e-3 */) * eps) {
            exp(m, t)
        } else {
            lit(ONE)
        };
        let result = scale * (b / a);
        let an = a + lit(ONE);
        let s = fpser_sum(x, eps / a, an, x, x / an, PATIENCE);
        result * (lit(ONE) + a * s)
    }
}

/// The lower ratio for a `b` that is tiny beside `a`.
#[verifier::when_used_as_spec(fpser_spec)]
pub fn fpser<M: Fn(Elementary) -> F64>(m: &M, a: F64, b: F64, x: F64, eps: F64) -> (r: F64)
    requires
        lawful(m),
    ensures
        r == fpser(m, a, b, x, eps),
{
    proof {
        reveal(fpser_spec);
    }
    let t = a * ln(m, x);
    if a.gt(lit(0x3F50_624D_D2F1_A9FC /* 1e-3 */) * eps) && t.lt(lit(NEG_EXPARG)) {
        lit(ZERO)
    } else {
        let scale = if a.gt(lit(0x3F50_624D_D2F1_A9FC /* 1e-3 */) * eps) {
            exp(m, t)
        } else {
            lit(ONE)
        };
        let result = scale * (b / a);
        let an = a + lit(ONE);
        let s = fpser_sum(x, eps / a, an, x, x / an, PATIENCE);
        result * (lit(ONE) + a * s)
    }
}

pub open spec fn apser_sum_spec(x: F64, bx: F64, tol: F64, j: F64, t: F64, s: F64, n: u64) -> F64
    decreases n,
{
    if n == 0 {
        lit(NAN)
    } else {
        let j1 = j + lit(ONE);
        let t1 = t * (x - bx / j1);
        let aj = t1 / j1;
        let s1 = s + aj;
        if aj.abs().le(tol) {
            s1
        } else {
            apser_sum_spec(x, bx, tol, j1, t1, s1, (n - 1) as u64)
        }
    }
}

/// The terms of the power series in `x - b x / j`, up to one within the tolerance.
#[verifier::when_used_as_spec(apser_sum_spec)]
pub fn apser_sum(
    x: F64,
    bx: F64,
    tol: F64,
    j_init: F64,
    t_init: F64,
    s_init: F64,
    n: u64,
) -> (r: F64)
    ensures
        r == apser_sum(x, bx, tol, j_init, t_init, s_init, n),
{
    let mut j = j_init;
    let mut t = t_init;
    let mut s = s_init;
    let mut left: u64 = n;
    while left > 0
        invariant
            left <= n,
            apser_sum(x, bx, tol, j_init, t_init, s_init, n)
                == apser_sum(x, bx, tol, j, t, s, left),
        decreases left,
    {
        let j1 = j + lit(ONE);
        let t1 = t * (x - bx / j1);
        let aj = t1 / j1;
        let s1 = s + aj;
        if aj.abs().le(tol) {
            return s1;
        } else {
            let next_j = j1;
            let next_t = t1;
            let next_s = s1;
            j = next_j;
            t = next_t;
            s = next_s;
        }
        left = left - 1;
    }
    lit(NAN)
}

#[verifier::opaque]
pub open spec fn apser_spec<M: Fn(Elementary) -> F64>(
    m: &M,
    a: F64,
    b: F64,
    x: F64,
    eps: F64,
) -> F64 {
    let bx = b * x;
    let t = x - bx;
    let c = if (b * eps).le(lit(0x3F94_7AE1_47AE_147B /* 2e-2 */)) {
        ln(m, x) + psi_value(m, b) + lit(0x3FE2_788C_FC6F_B61A /* 0.577215664901533 */) + t
    } else {
        ln(m, bx) + lit(0x3FE2_788C_FC6F_B61A /* 0.577215664901533 */) + t
    };
    let tol = lit(FIVE) * eps * c.abs();
    let s = apser_sum(x, bx, tol, lit(ONE), t, lit(ZERO), PATIENCE);
    (a * (c + s)).negated()
}

/// The upper ratio for a tiny `a` and a `b x` of at most one.
#[verifier::when_used_as_spec(apser_spec)]
pub fn apser<M: Fn(Elementary) -> F64>(m: &M, a: F64, b: F64, x: F64, eps: F64) -> (r: F64)
    requires
        lawful(m),
    ensures
        r == apser(m, a, b, x, eps),
{
    proof {
        reveal(apser_spec);
    }
    let bx = b * x;
    let t = x - bx;
    let c = if (b * eps).le(lit(0x3F94_7AE1_47AE_147B /* 2e-2 */)) {
        ln(m, x) + psi_value(m, b) + lit(0x3FE2_788C_FC6F_B61A /* 0.577215664901533 */) + t
    } else {
        ln(m, bx) + lit(0x3FE2_788C_FC6F_B61A /* 0.577215664901533 */) + t
    };
    let tol = lit(FIVE) * eps * c.abs();
    let s = apser_sum(x, bx, tol, lit(ONE), t, lit(ZERO), PATIENCE);
    (a * (c + s)).negated()
}

#[verifier::opaque]
pub open spec fn pser_scale_spec<M: Fn(Elementary) -> F64>(m: &M, a: F64, b: F64, x: F64) -> F64 {
    let a0 = a.min(b);
    let b0 = a.max(b);
    if a0.ge(lit(ONE)) {
        exp(m, a * ln(m, x) - beta_log(m, a, b)) / a
    } else if b0.le(lit(ONE)) {
        let power = powf(m, x, a);
        if power.equals(lit(ZERO)) {
            lit(ZERO)
        } else {
            let c = (lit(ONE) + gam1(a)) * (lit(ONE) + gam1(b)) / sum_factor(a, b);
            power * (c * (b / (a + b)))
        }
    } else if b0.lt(lit(0x4020_0000_0000_0000 /* 8.0 */)) {
        let (u, top, t) = shifted(m, a0, b0);
        exp(m, a * ln(m, x) - u) * (a0 / a) * top / t
    } else {
        let u = gamma_ln1(a0) + algdiv(m, a0, b0);
        a0 / a * exp(m, a * ln(m, x) - u)
    }
}

/// The factor in front of the power series.
#[verifier::when_used_as_spec(pser_scale_spec)]
pub fn pser_scale<M: Fn(Elementary) -> F64>(m: &M, a: F64, b: F64, x: F64) -> (r: F64)
    requires
        lawful(m),
    ensures
        r == pser_scale(m, a, b, x),
{
    proof {
        reveal(pser_scale_spec);
    }
    let a0 = a.min(b);
    let b0 = a.max(b);
    if a0.ge(lit(ONE)) {
        exp(m, a * ln(m, x) - beta_log(m, a, b)) / a
    } else if b0.le(lit(ONE)) {
        let power = powf(m, x, a);
        if power.equals(lit(ZERO)) {
            lit(ZERO)
        } else {
            let c = (lit(ONE) + gam1(a)) * (lit(ONE) + gam1(b)) / sum_factor(a, b);
            power * (c * (b / (a + b)))
        }
    } else if b0.lt(lit(0x4020_0000_0000_0000 /* 8.0 */)) {
        let (u, top, t) = shifted(m, a0, b0);
        exp(m, a * ln(m, x) - u) * (a0 / a) * top / t
    } else {
        let u = gamma_ln1(a0) + algdiv(m, a0, b0);
        a0 / a * exp(m, a * ln(m, x) - u)
    }
}

pub open spec fn pser_sum_spec(
    a: F64,
    b: F64,
    x: F64,
    tol: F64,
    n0: F64,
    c: F64,
    sum: F64,
    n: u64,
) -> F64
    decreases n,
{
    if n == 0 {
        lit(NAN)
    } else {
        let n1 = n0 + lit(ONE);
        let c1 = c * ((lit(HALF) + (lit(HALF) - b / n1)) * x);
        let w = c1 / (a + n1);
        let sum1 = sum + w;
        if w.abs().le(tol) {
            sum1
        } else {
            pser_sum_spec(a, b, x, tol, n1, c1, sum1, (n - 1) as u64)
        }
    }
}

/// The terms of the power series, up to one within the tolerance.
#[verifier::when_used_as_spec(pser_sum_spec)]
pub fn pser_sum(
    a: F64,
    b: F64,
    x: F64,
    tol: F64,
    n0_init: F64,
    c_init: F64,
    sum_init: F64,
    n: u64,
) -> (r: F64)
    ensures
        r == pser_sum(a, b, x, tol, n0_init, c_init, sum_init, n),
{
    let mut n0 = n0_init;
    let mut c = c_init;
    let mut sum = sum_init;
    let mut left: u64 = n;
    while left > 0
        invariant
            left <= n,
            pser_sum(a, b, x, tol, n0_init, c_init, sum_init, n)
                == pser_sum(a, b, x, tol, n0, c, sum, left),
        decreases left,
    {
        let n1 = n0 + lit(ONE);
        let c1 = c * ((lit(HALF) + (lit(HALF) - b / n1)) * x);
        let w = c1 / (a + n1);
        let sum1 = sum + w;
        if w.abs().le(tol) {
            return sum1;
        } else {
            let next_n0 = n1;
            let next_c = c1;
            let next_sum = sum1;
            n0 = next_n0;
            c = next_c;
            sum = next_sum;
        }
        left = left - 1;
    }
    lit(NAN)
}

#[verifier::opaque]
pub open spec fn beta_pser_spec<M: Fn(Elementary) -> F64>(
    m: &M,
    a: F64,
    b: F64,
    x: F64,
    eps: F64,
) -> F64 {
    if x.equals(lit(ZERO)) {
        lit(ZERO)
    } else {
        let result = pser_scale(m, a, b, x);
        if result.equals(lit(ZERO)) || a.le(lit(0x3FB9_9999_9999_999A /* 0.1 */) * eps) {
            result
        } else {
            result * (lit(ONE) + a * pser_sum(a, b, x, eps / a, lit(ZERO), lit(ONE), lit(ZERO),
                PATIENCE))
        }
    }
}

/// The lower ratio by its power series, for `b` or `b x` of at most about one.
#[verifier::when_used_as_spec(beta_pser_spec)]
pub fn beta_pser<M: Fn(Elementary) -> F64>(m: &M, a: F64, b: F64, x: F64, eps: F64) -> (r: F64)
    requires
        lawful(m),
    ensures
        r == beta_pser(m, a, b, x, eps),
{
    proof {
        reveal(beta_pser_spec);
    }
    if x.equals(lit(ZERO)) {
        lit(ZERO)
    } else {
        let result = pser_scale(m, a, b, x);
        if result.equals(lit(ZERO)) || a.le(lit(0x3FB9_9999_9999_999A /* 0.1 */) * eps) {
            result
        } else {
            result * (lit(ONE) + a * pser_sum(a, b, x, eps / a, lit(ZERO), lit(ONE), lit(ZERO),
                PATIENCE))
        }
    }
}

pub open spec fn up_rise_spec(
    apb: F64,
    ap1: F64,
    x: F64,
    l: F64,
    d: F64,
    w: F64,
    n: u64,
) -> (F64, F64)
    decreases n,
{
    if n == 0 {
        (d, w)
    } else {
        let d1 = (apb + l) / (ap1 + l) * x * d;
        up_rise_spec(apb, ap1, x, l + lit(ONE), d1, w + d1, (n - 1) as u64)
    }
}

/// The terms up to the largest one, `n` of them; the last term and the sum.
#[verifier::when_used_as_spec(up_rise_spec)]
pub fn up_rise(
    apb: F64,
    ap1: F64,
    x: F64,
    l_init: F64,
    d_init: F64,
    w_init: F64,
    n: u64,
) -> (r: (F64, F64))
    ensures
        r == up_rise(apb, ap1, x, l_init, d_init, w_init, n),
{
    let mut l = l_init;
    let mut d = d_init;
    let mut w = w_init;
    let mut left: u64 = n;
    while left > 0
        invariant
            left <= n,
            up_rise(apb, ap1, x, l_init, d_init, w_init, n)
                == up_rise(apb, ap1, x, l, d, w, left),
        decreases left,
    {
        let d1 = (apb + l) / (ap1 + l) * x * d;
        let next_l = l + lit(ONE);
        let next_d = d1;
        let next_w = w + d1;
        l = next_l;
        d = next_d;
        w = next_w;
        left = left - 1;
    }
    (d, w)
}

pub open spec fn up_fall_spec(
    apb: F64,
    ap1: F64,
    x: F64,
    eps: F64,
    l: F64,
    d: F64,
    w: F64,
    n: u64,
) -> F64
    decreases n,
{
    if n == 0 {
        w
    } else {
        let d1 = d * ((apb + l) / (ap1 + l) * x);
        let w1 = w + d1;
        if d1.le(eps * w1) {
            w1
        } else {
            up_fall_spec(apb, ap1, x, eps, l + lit(ONE), d1, w1, (n - 1) as u64)
        }
    }
}

/// The terms from the largest one on, up to `n` of them; the sum.
#[verifier::when_used_as_spec(up_fall_spec)]
pub fn up_fall(
    apb: F64,
    ap1: F64,
    x: F64,
    eps: F64,
    l_init: F64,
    d_init: F64,
    w_init: F64,
    n: u64,
) -> (r: F64)
    ensures
        r == up_fall(apb, ap1, x, eps, l_init, d_init, w_init, n),
{
    let mut l = l_init;
    let mut d = d_init;
    let mut w = w_init;
    let mut left: u64 = n;
    while left > 0
        invariant
            left <= n,
            up_fall(apb, ap1, x, eps, l_init, d_init, w_init, n)
                == up_fall(apb, ap1, x, eps, l, d, w, left),
        decreases left,
    {
        let d1 = d * ((apb + l) / (ap1 + l) * x);
        let w1 = w + d1;
        if d1.le(eps * w1) {
            return w1;
        } else {
            let next_l = l + lit(ONE);
            let next_d = d1;
            let next_w = w1;
            l = next_l;
            d = next_d;
            w = next_w;
        }
        left = left - 1;
    }
    w
}

#[verifier::opaque]
pub open spec fn up_peak_spec(a: F64, b: F64, x: F64, y: F64, nm1: u64) -> u64 {
    let r = (b - lit(ONE)) * x / y - a;
    if !b.gt(lit(ONE)) {
        0
    } else if y.le(lit(0x3F1A_36E2_EB1C_432D /* 1e-4 */)) {
        nm1
    } else if r.ge(lit(ONE)) {
        if r.lt(F64::from_u64(nm1)) {
            r.to_u64()
        } else {
            nm1
        }
    } else {
        0
    }
}

/// The number of terms up to the largest of `nm1`.
#[verifier::when_used_as_spec(up_peak_spec)]
pub fn up_peak(a: F64, b: F64, x: F64, y: F64, nm1: u64) -> (r: u64)
    ensures
        r == up_peak(a, b, x, y, nm1),
{
    proof {
        reveal(up_peak_spec);
    }
    let r = (b - lit(ONE)) * x / y - a;
    if !b.gt(lit(ONE)) {
        0
    } else if y.le(lit(0x3F1A_36E2_EB1C_432D /* 1e-4 */)) {
        nm1
    } else if r.ge(lit(ONE)) {
        if r.lt(F64::from_u64(nm1)) {
            r.to_u64()
        } else {
            nm1
        }
    } else {
        0
    }
}

#[verifier::opaque]
pub open spec fn beta_up_spec<M: Fn(Elementary) -> F64>(
    m: &M,
    a: F64,
    b: F64,
    x: F64,
    y: F64,
    n: i32,
    eps: F64,
) -> F64 {
    let apb = a + b;
    let ap1 = a + lit(ONE);
    let scaled: bool = n != 1 && a.ge(lit(ONE))
        && apb.ge(lit(0x3FF1_9999_9999_999A /* 1.1 */) * ap1);
    let down = lit(NEG_EXPARG).abs().to_i32();
    let up = lit(POS_EXPARG).to_i32();
    let mu = if !scaled {
        0
    } else if up < down {
        up
    } else {
        down
    };
    let d = if scaled {
        exp(m, F64::from_i64(mu as i64).negated())
    } else {
        lit(ONE)
    };
    let bup = beta_rcomp1(m, mu, a, b, x, y) / a;
    if n == 1 || bup.equals(lit(ZERO)) {
        bup
    } else {
        let nm1 = if n >= 1 {
            (n - 1) as u64
        } else {
            0
        };
        let k = up_peak(a, b, x, y, nm1);
        let rise = up_rise(apb, ap1, x, lit(ZERO), d, d, k);
        let w = up_fall(apb, ap1, x, eps, F64::from_u64(k), rise.0, rise.1, if k < nm1 {
            (nm1 - k) as u64
        } else {
            0
        });
        bup * w
    }
}

/// The lower ratio at `(a, b)` minus that at `(a + n, b)`.
#[verifier::when_used_as_spec(beta_up_spec)]
pub fn beta_up<M: Fn(Elementary) -> F64>(
    m: &M,
    a: F64,
    b: F64,
    x: F64,
    y: F64,
    n: i32,
    eps: F64,
) -> (r: F64)
    requires
        lawful(m),
    ensures
        r == beta_up(m, a, b, x, y, n, eps),
{
    proof {
        reveal(beta_up_spec);
    }
    let apb = a + b;
    let ap1 = a + lit(ONE);
    let scaled: bool = n != 1 && a.ge(lit(ONE))
        && apb.ge(lit(0x3FF1_9999_9999_999A /* 1.1 */) * ap1);
    let down: i32 = lit(NEG_EXPARG).abs().to_i32();
    let up: i32 = lit(POS_EXPARG).to_i32();
    let mu: i32 = if !scaled {
        0
    } else if up < down {
        up
    } else {
        down
    };
    let d = if scaled {
        exp(m, F64::from_i64(mu as i64).negated())
    } else {
        lit(ONE)
    };
    let bup = beta_rcomp1(m, mu, a, b, x, y) / a;
    if n == 1 || bup.equals(lit(ZERO)) {
        bup
    } else {
        let nm1: u64 = if n >= 1 {
            (n - 1) as u64
        } else {
            0
        };
        let k: u64 = up_peak(a, b, x, y, nm1);
        let rise = up_rise(apb, ap1, x, lit(ZERO), d, d, k);
        let w = up_fall(apb, ap1, x, eps, F64::from_u64(k), rise.0, rise.1, if k < nm1 {
            (nm1 - k) as u64
        } else {
            0
        });
        bup * w
    }
}

#[verifier::opaque]
pub open spec fn gamma_rat1_spec<M: Fn(Elementary) -> F64>(
    m: &M,
    a: F64,
    x: F64,
    r: F64,
    eps: F64,
) -> (F64, F64) {
    if (a * x).equals(lit(ZERO)) {
        settled(a, x)
    } else if a.equals(lit(HALF)) {
        one_half(m, x)
    } else if x.lt(lit(0x3FF1_9999_9999_999A /* 1.1 */)) {
        let sum = taylor_series(a, x, lit(0x3FB9_9999_9999_999A /* 0.1 */) * eps / (a + lit(ONE)),
            lit(THREE), x, x / (a + lit(THREE)), PATIENCE);
        taylor_finish(m, a, x, sum)
    } else {
        let q = r * convergents(a, x, eps, lit(ONE), lit(ONE), x, x + (lit(ONE) - a), lit(ONE),
            PATIENCE);
        (complement(q), q)
    }
}

/// The incomplete gamma function ratios for `a` of at most one, with
/// `r = e^-x x^a / gamma(a)`.
#[verifier::when_used_as_spec(gamma_rat1_spec)]
pub fn gamma_rat1<M: Fn(Elementary) -> F64>(
    m: &M,
    a: F64,
    x: F64,
    r: F64,
    eps: F64,
) -> (result: (F64, F64))
    requires
        lawful(m),
    ensures
        result == gamma_rat1(m, a, x, r, eps),
{
    proof {
        reveal(gamma_rat1_spec);
    }
    if (a * x).equals(lit(ZERO)) {
        settled(a, x)
    } else if a.equals(lit(HALF)) {
        one_half(m, x)
    } else if x.lt(lit(0x3FF1_9999_9999_999A /* 1.1 */)) {
        let sum = taylor_series(a, x, lit(0x3FB9_9999_9999_999A /* 0.1 */) * eps / (a + lit(ONE)),
            lit(THREE), x, x / (a + lit(THREE)), PATIENCE);
        taylor_finish(m, a, x, sum)
    } else {
        let q = r * convergents(a, x, eps, lit(ONE), lit(ONE), x, x + (lit(ONE) - a), lit(ONE),
            PATIENCE);
        (complement(q), q)
    }
}

/// Why the asymptotic expansion for large `a` gave nothing.
#[derive(Clone, Copy, Debug, PartialEq, Eq, Structural)]
pub enum BetaGratError {
    BzZero,
    UnderflowedScale,
    NonPositiveSum,
}

/// The numbers that stay the same in the expansion for large `a`.
#[derive(Clone, Copy, Debug, PartialEq, Eq, Structural)]
pub struct Grat {
    pub b: F64,
    pub bm1: F64,
    pub z: F64,
    pub v: F64,
    pub t2: F64,
    pub l: F64,
    pub eps: F64,
}

/// `s` plus the products `coef c d` with the indices of `c` and `d` adding up to `n`,
/// from the `i`th on; `coef` grows by `b`.
pub open spec fn grat_dot(c: Seq<F64>, d: Seq<F64>, b: F64, coef: F64, s: F64, i: int, n: int) -> F64
    decreases n - i,
{
    if i >= n {
        s
    } else {
        grat_dot(c, d, b, coef + b, s + coef * c[i - 1] * d[n - i - 1], i + 1, n)
    }
}

/// The sum of the expansion from the `n`th term on; nothing where it is not positive.
pub open spec fn grat_sum_spec(
    k: Grat,
    j: F64,
    sum: F64,
    t: F64,
    cn: F64,
    n2: F64,
    c: Seq<F64>,
    d: Seq<F64>,
    n: int,
) -> Option<F64>
    decreases 31 - n,
{
    if n > 30 {
        Some(sum)
    } else {
        let bp2n = k.b + n2;
        let nf = F64::from_u64(n as u64);
        let j1 = (bp2n * (bp2n + lit(ONE)) * j + (k.z + bp2n + lit(ONE)) * t) * k.v;
        let m2 = n2 + lit(TWO);
        let cn1 = cn / (m2 * (m2 + lit(ONE)));
        let c1 = c.push(cn1);
        let s = grat_dot(c1, d, k.b, k.b - nf, lit(ZERO), 1, n);
        let dn = k.bm1 * cn1 + s / nf;
        let dj = dn * j1;
        let sum1 = sum + dj;
        if sum1.le(lit(ZERO)) {
            None
        } else if dj.abs().le(k.eps * (sum1 + k.l)) {
            Some(sum1)
        } else {
            grat_sum_spec(k, j1, sum1, t * k.t2, cn1, m2, c1, d.push(dn), n + 1)
        }
    }
}

fn dot(c: &Vec<F64>, d: &Vec<F64>, b: F64, coef0: F64, n: usize) -> (r: F64)
    requires
        1 <= n,
        c.len() == n,
        d.len() == n - 1,
    ensures
        r == grat_dot(c@, d@, b, coef0, lit(ZERO), 1, n as int),
{
    let mut s = lit(ZERO);
    let mut coef = coef0;
    let mut i: usize = 1;
    while i < n
        invariant
            1 <= i <= n,
            c.len() == n,
            d.len() == n - 1,
            grat_dot(c@, d@, b, coef0, lit(ZERO), 1, n as int) == grat_dot(
                c@,
                d@,
                b,
                coef,
                s,
                i as int,
                n as int,
            ),
        decreases n - i,
    {
        s = s + coef * c[i - 1] * d[n - i - 1];
        coef = coef + b;
        i = i + 1;
    }
    s
}

/// The sum of the expansion for large `a`, with the first term `j0`.
pub fn grat_sum(k: Grat, j0: F64) -> (r: Option<F64>)
    ensures
        r == grat_sum_spec(
            k,
            j0,
            j0,
            lit(ONE),
            lit(ONE),
            lit(ZERO),
            Seq::empty(),
            Seq::empty(),
            1,
        ),
{
    let mut j = j0;
    let mut sum = j0;
    let mut t = lit(ONE);
    let mut cn = lit(ONE);
    let mut n2 = lit(ZERO);
    let mut c: Vec<F64> = Vec::new();
    let mut d: Vec<F64> = Vec::new();
    let mut n: usize = 1;
    proof {
        assert(c@ =~= Seq::<F64>::empty());
        assert(d@ =~= Seq::<F64>::empty());
    }
    while n <= 30
        invariant
            1 <= n <= 31,
            c.len() == n - 1,
            d.len() == n - 1,
            grat_sum_spec(
                k,
                j0,
                j0,
                lit(ONE),
                lit(ONE),
                lit(ZERO),
                Seq::empty(),
                Seq::empty(),
                1,
            ) == grat_sum_spec(k, j, sum, t, cn, n2, c@, d@, n as int),
        decreases 31 - n,
    {
        let bp2n = k.b + n2;
        let nf = F64::from_u64(n as u64);
        j = (bp2n * (bp2n + lit(ONE)) * j + (k.z + bp2n + lit(ONE)) * t) * k.v;
        n2 = n2 + lit(TWO);
        t = t * k.t2;
        cn = cn / (n2 * (n2 + lit(ONE)));
        c.push(cn);
        let s = dot(&c, &d, k.b, k.b - nf, n);
        let dn = k.bm1 * cn + s / nf;
        d.push(dn);
        let dj = dn * j;
        sum = sum + dj;
        if sum.le(lit(ZERO)) {
            return None;
        }
        if dj.abs().le(k.eps * (sum + k.l)) {
            return Some(sum);
        }
        n = n + 1;
    }
    Some(sum)
}

/// The sum from its first term on.
pub open spec fn grat_total(k: Grat, j0: F64) -> Option<F64> {
    grat_sum_spec(k, j0, j0, lit(ONE), lit(ONE), lit(ZERO), Seq::empty(), Seq::empty(), 1)
}

/// `w` plus the lower ratio for large `a` and `b` of at most one.
#[verifier::opaque]
pub open spec fn beta_grat_spec<M: Fn(Elementary) -> F64>(
    m: &M,
    a: F64,
    b: F64,
    x: F64,
    y: F64,
    w_in: F64,
    eps: F64,
) -> Result<F64, BetaGratError> {
    let bm1 = b - lit(HALF) - lit(HALF);
    let nu = a + lit(HALF) * bm1;
    let lnx = if y.gt(lit(0x3FD8_0000_0000_0000 /* 0.375 */)) {
        ln(m, x)
    } else {
        alnrel(m, y.negated())
    };
    let z = (nu * lnx).negated();
    let r = b * (lit(ONE) + gam1(b)) * exp(m, b * ln(m, z)) * (exp(m, a * lnx) * exp(
        m,
        lit(HALF) * bm1 * lnx,
    ));
    let u = r * exp(m, (algdiv(m, b, a) + b * ln(m, nu)).negated());
    if (b * z).equals(lit(ZERO)) {
        Err(BetaGratError::BzZero)
    } else if u.equals(lit(ZERO)) {
        Err(BetaGratError::UnderflowedScale)
    } else {
        let q = gamma_rat1(m, b, z, r, eps).1;
        let k = Grat {
            b,
            bm1,
            z,
            v: lit(QUARTER) * (lit(ONE) / nu).squared(),
            t2: lit(QUARTER) * lnx * lnx,
            l: w_in / u,
            eps,
        };
        match grat_total(k, q / r) {
            None => Err(BetaGratError::NonPositiveSum),
            Some(sum) => Ok(w_in + u * sum),
        }
    }
}

/// `w` plus the lower ratio for large `a` and `b` of at most one.
#[verifier::when_used_as_spec(beta_grat_spec)]
pub fn beta_grat<M: Fn(Elementary) -> F64>(
    m: &M,
    a: F64,
    b: F64,
    x: F64,
    y: F64,
    w_in: F64,
    eps: F64,
) -> (result: Result<F64, BetaGratError>)
    requires
        lawful(m),
    ensures
        result == beta_grat(m, a, b, x, y, w_in, eps),
{
    proof {
        reveal(beta_grat_spec);
    }
    let bm1 = b - lit(HALF) - lit(HALF);
    let nu = a + lit(HALF) * bm1;
    let lnx = if y.gt(lit(0x3FD8_0000_0000_0000 /* 0.375 */)) {
        ln(m, x)
    } else {
        alnrel(m, y.negated())
    };
    let z = (nu * lnx).negated();
    if (b * z).equals(lit(ZERO)) {
        return Err(BetaGratError::BzZero);
    }
    let r = b * (lit(ONE) + gam1(b)) * exp(m, b * ln(m, z)) * (exp(m, a * lnx) * exp(
        m,
        lit(HALF) * bm1 * lnx,
    ));
    let u = r * exp(m, (algdiv(m, b, a) + b * ln(m, nu)).negated());
    if u.equals(lit(ZERO)) {
        return Err(BetaGratError::UnderflowedScale);
    }
    let q = gamma_rat1(m, b, z, r, eps).1;
    let k = Grat {
        b,
        bm1,
        z,
        v: lit(QUARTER) * (lit(ONE) / nu).squared(),
        t2: lit(QUARTER) * lnx * lnx,
        l: w_in / u,
        eps,
    };
    match grat_sum(k, q / r) {
        None => Err(BetaGratError::NonPositiveSum),
        Some(sum) => Ok(w_in + u * sum),
    }
}

/// `acc` plus the products of the convolution that gives the `mm`th coefficient of a
/// power of a series, from the `j`th on.
pub open spec fn power_dot(a0: Seq<F64>, b0: Seq<F64>, r: F64, mm: int, j: int, acc: F64) -> F64
    decreases mm - j,
{
    if j >= mm {
        acc
    } else {
        let w = F64::from_u64(j as u64) * r - F64::from_u64((mm - j) as u64);
        power_dot(a0, b0, r, mm, j + 1, acc + w * a0[j - 1] * b0[mm - j - 1])
    }
}

/// The first `mm` coefficients of the power `r` of a series with the coefficients
/// `a0`.
pub open spec fn power_coeffs(a0: Seq<F64>, r: F64, mm: int) -> Seq<F64>
    decreases mm,
{
    if mm <= 1 {
        seq![r * a0[0]]
    } else {
        let b0 = power_coeffs(a0, r, mm - 1);
        b0.push(
            r * a0[mm - 1] + power_dot(a0, b0, r, mm, 1, lit(ZERO)) / F64::from_u64(mm as u64),
        )
    }
}

/// `acc` plus the products `d c` with the indices adding up to `i`, from the `j`th on.
pub open spec fn convolution(d: Seq<F64>, c: Seq<F64>, i: int, j: int, acc: F64) -> F64
    decreases i - j,
{
    if j >= i {
        acc
    } else {
        convolution(d, c, i, j + 1, acc + d[i - j - 1] * c[j - 1])
    }
}

/// The `i`th coefficient of the series that is put into the expansion.
pub open spec fn next_c(a0: Seq<F64>, i: int) -> F64 {
    let i1 = F64::from_u64(i as u64) + lit(ONE);
    let r = (lit(HALF) * i1).negated();
    power_coeffs(a0, r, i)[i - 1] / i1
}

/// The `i`th coefficient of the reciprocal series.
pub open spec fn next_d(c: Seq<F64>, d: Seq<F64>, i: int) -> F64 {
    (convolution(d, c, i, 1, lit(ZERO)) + c[i - 1]).negated()
}

fn coeffs(a0: &Vec<F64>, r: F64, n: usize) -> (b0: Vec<F64>)
    requires
        1 <= n <= a0.len() <= 30,
    ensures
        b0@ == power_coeffs(a0@, r, n as int),
        b0.len() == n,
{
    let mut b0: Vec<F64> = Vec::new();
    b0.push(r * a0[0]);
    let mut mm: usize = 1;
    proof {
        assert(b0@ =~= power_coeffs(a0@, r, 1));
    }
    while mm < n
        invariant
            1 <= mm <= n <= a0.len() <= 30,
            b0@ == power_coeffs(a0@, r, mm as int),
            b0.len() == mm,
        decreases n - mm,
    {
        mm = mm + 1;
        let mut acc = lit(ZERO);
        let mut j: usize = 1;
        while j < mm
            invariant
                1 <= j <= mm,
                2 <= mm <= n <= a0.len() <= 30,
                b0.len() == mm - 1,
                power_dot(a0@, b0@, r, mm as int, 1, lit(ZERO)) == power_dot(
                    a0@,
                    b0@,
                    r,
                    mm as int,
                    j as int,
                    acc,
                ),
            decreases mm - j,
        {
            let w = F64::from_u64(j as u64) * r - F64::from_u64((mm - j) as u64);
            acc = acc + w * a0[j - 1] * b0[mm - j - 1];
            j = j + 1;
        }
        b0.push(r * a0[mm - 1] + acc / F64::from_u64(mm as u64));
    }
    b0
}

/// Appends the `i`th coefficient to each of the two series.
fn extend(a0: &Vec<F64>, c: &mut Vec<F64>, d: &mut Vec<F64>, i: usize)
    requires
        2 <= i <= a0.len() <= 30,
        old(c).len() == i - 1,
        old(d).len() == i - 1,
    ensures
        final(c)@ == old(c)@.push(next_c(a0@, i as int)),
        final(d)@ == old(d)@.push(next_d(final(c)@, old(d)@, i as int)),
{
    let i1 = F64::from_u64(i as u64) + lit(ONE);
    let r = (lit(HALF) * i1).negated();
    let b0 = coeffs(a0, r, i);
    c.push(b0[i - 1] / i1);
    let mut acc = lit(ZERO);
    let mut j: usize = 1;
    while j < i
        invariant
            1 <= j <= i,
            c.len() == i,
            d.len() == i - 1,
            convolution(d@, c@, i as int, 1, lit(ZERO)) == convolution(d@, c@, i as int, j as int, acc),
        decreases i - j,
    {
        acc = acc + d[i - j - 1] * c[j - 1];
        j = j + 1;
    }
    let last = (acc + c[i - 1]).negated();
    d.push(last);
}

/// The numbers that stay the same in the expansion for large `a` and `b`.
#[derive(Clone, Copy, Debug, PartialEq, Eq, Structural)]
pub struct Asym {
    pub h: F64,
    pub r0: F64,
    pub r1: F64,
    pub w0: F64,
    pub z2: F64,
    pub eps: F64,
}

/// What changes from one pair of terms to the next.
#[derive(Clone, Copy, Debug, PartialEq, Eq, Structural)]
pub struct AsymTerms {
    pub j0: F64,
    pub j1: F64,
    pub sum: F64,
    pub s: F64,
    pub hn: F64,
    pub w: F64,
    pub znm1: F64,
    pub zn: F64,
}

/// 0.353553390593274
pub const ASYM_E1: u64 = 0x3FD6_A09E_667F_3BD1;

/// The sum of the expansion from the `n`th term on.
pub open spec fn asym_sum_spec(
    k: Asym,
    q: AsymTerms,
    a0: Seq<F64>,
    c: Seq<F64>,
    d: Seq<F64>,
    n: int,
) -> F64
    decreases 22 - n,
{
    if n > 20 {
        q.sum
    } else {
        let nf = F64::from_u64(n as u64);
        let hn = q.hn * (k.h * k.h);
        let s = q.s + hn;
        let a1 = a0.push(lit(TWO) * k.r0 * (lit(ONE) + k.h * hn) / (nf + lit(TWO))).push(
            lit(TWO) * k.r1 * s / (nf + lit(THREE)),
        );
        let c1 = c.push(next_c(a1, n));
        let d1 = d.push(next_d(c1, d, n));
        let c2 = c1.push(next_c(a1, n + 1));
        let d2 = d1.push(next_d(c2, d1, n + 1));
        let j0 = lit(ASYM_E1) * q.znm1 + (nf - lit(ONE)) * q.j0;
        let j1 = lit(ASYM_E1) * q.zn + nf * q.j1;
        let w = q.w * k.w0;
        let w2 = w * k.w0;
        let t0 = d2[n - 1] * w * j0;
        let t1 = d2[n] * w2 * j1;
        let sum = q.sum + (t0 + t1);
        if (t0.abs() + t1.abs()).le(k.eps * sum) {
            sum
        } else {
            asym_sum_spec(
                k,
                AsymTerms { j0, j1, sum, s, hn, w: w2, znm1: q.znm1 * k.z2, zn: q.zn * k.z2 },
                a1,
                c2,
                d2,
                n + 2,
            )
        }
    }
}

/// The sum of the expansion, from the first coefficient `a00` of the series.
#[verifier::rlimit(60)]
fn asym_sum(k: Asym, q0: AsymTerms, a00: F64, c00: F64, d00: F64) -> (r: F64)
    ensures
        r == asym_sum_spec(k, q0, seq![a00], seq![c00], seq![d00], 2),
{
    let mut a0: Vec<F64> = Vec::new();
    let mut c: Vec<F64> = Vec::new();
    let mut d: Vec<F64> = Vec::new();
    a0.push(a00);
    c.push(c00);
    d.push(d00);
    let mut q = q0;
    let mut n: usize = 2;
    proof {
        assert(a0@ =~= seq![a00]);
        assert(c@ =~= seq![c00]);
        assert(d@ =~= seq![d00]);
    }
    while n <= 20
        invariant
            2 <= n <= 22,
            n % 2 == 0,
            a0.len() == n - 1,
            c.len() == n - 1,
            d.len() == n - 1,
            asym_sum_spec(k, q0, seq![a00], seq![c00], seq![d00], 2) == asym_sum_spec(
                k,
                q,
                a0@,
                c@,
                d@,
                n as int,
            ),
        decreases 22 - n,
    {
        let nf = F64::from_u64(n as u64);
        let hn = q.hn * (k.h * k.h);
        let s = q.s + hn;
        a0.push(lit(TWO) * k.r0 * (lit(ONE) + k.h * hn) / (nf + lit(TWO)));
        a0.push(lit(TWO) * k.r1 * s / (nf + lit(THREE)));
        extend(&a0, &mut c, &mut d, n);
        extend(&a0, &mut c, &mut d, n + 1);
        let j0 = lit(ASYM_E1) * q.znm1 + (nf - lit(ONE)) * q.j0;
        let j1 = lit(ASYM_E1) * q.zn + nf * q.j1;
        let w = q.w * k.w0;
        let w2 = w * k.w0;
        let t0 = d[n - 1] * w * j0;
        let t1 = d[n] * w2 * j1;
        let sum = q.sum + (t0 + t1);
        if (t0.abs() + t1.abs()).le(k.eps * sum) {
            return sum;
        }
        q = AsymTerms { j0, j1, sum, s, hn, w: w2, znm1: q.znm1 * k.z2, zn: q.zn * k.z2 };
        n = n + 2;
    }
    q.sum
}

/// The lower ratio for large `a` and `b`, with `lambda = (a + b) y - b`.
#[verifier::opaque]
pub open spec fn beta_asym_spec<M: Fn(Elementary) -> F64>(
    m: &M,
    a: F64,
    b: F64,
    lambda: F64,
    eps: F64,
) -> F64 {
    let h = if a.lt(b) {
        a / b
    } else {
        b / a
    };
    let r0 = lit(ONE) / (lit(ONE) + h);
    let r1 = (b - a) / (if a.lt(b) {
        b
    } else {
        a
    });
    let w0 = lit(ONE) / ((if a.lt(b) {
        a
    } else {
        b
    }) * (lit(ONE) + h)).sqrt();
    let f = a * rlog1(m, (lambda / a).negated()) + b * rlog1(m, lambda / b);
    let t = exp(m, f.negated());
    if t.equals(lit(ZERO)) {
        lit(ZERO)
    } else {
        let z0 = f.sqrt();
        let a00 = lit(0x3FE5_5555_5555_5555 /* 0.66666666666666663 */) * r1;
        let c00 = (lit(HALF) * a00).negated();
        let d00 = c00.negated();
        let j0 = lit(HALF) / lit(0x3FF2_0DD7_5042_9B61 /* 1.12837916709551 */) * error_fc_scaled(m, z0);
        let k = Asym { h, r0, r1, w0, z2: f + f, eps };
        let q = AsymTerms {
            j0,
            j1: lit(ASYM_E1),
            sum: j0 + d00 * w0 * lit(ASYM_E1),
            s: lit(ONE),
            hn: lit(ONE),
            w: w0,
            znm1: lit(HALF) * (z0 / lit(ASYM_E1)),
            zn: f + f,
        };
        lit(0x3FF2_0DD7_5042_9B61 /* 1.12837916709551 */) * t * exp(m, bcorr(a, b).negated()) * asym_sum_spec(
            k,
            q,
            seq![a00],
            seq![c00],
            seq![d00],
            2,
        )
    }
}

/// The lower ratio for large `a` and `b`, with `lambda = (a + b) y - b`.
#[verifier::when_used_as_spec(beta_asym_spec)]
pub fn beta_asym<M: Fn(Elementary) -> F64>(m: &M, a: F64, b: F64, lambda: F64, eps: F64) -> (r: F64)
    requires
        lawful(m),
    ensures
        r == beta_asym(m, a, b, lambda, eps),
{
    proof {
        reveal(beta_asym_spec);
    }
    let h = if a.lt(b) {
        a / b
    } else {
        b / a
    };
    let r0 = lit(ONE) / (lit(ONE) + h);
    let r1 = (b - a) / (if a.lt(b) {
        b
    } else {
        a
    });
    let w0 = lit(ONE) / ((if a.lt(b) {
        a
    } else {
        b
    }) * (lit(ONE) + h)).sqrt();
    let f = a * rlog1(m, (lambda / a).negated()) + b * rlog1(m, lambda / b);
    let t = exp(m, f.negated());
    if t.equals(lit(ZERO)) {
        return lit(ZERO);
    }
    let z0 = f.sqrt();
    let a00 = lit(0x3FE5_5555_5555_5555 /* 0.66666666666666663 */) * r1;
    let c00 = (lit(HALF) * a00).negated();
    let d00 = c00.negated();
    let j0 = lit(HALF) / lit(0x3FF2_0DD7_5042_9B61 /* 1.12837916709551 */) * error_fc_scaled(m, z0);
    let k = Asym { h, r0, r1, w0, z2: f + f, eps };
    let q = AsymTerms {
        j0,
        j1: lit(ASYM_E1),
        sum: j0 + d00 * w0 * lit(ASYM_E1),
        s: lit(ONE),
        hn: lit(ONE),
        w: w0,
        znm1: lit(HALF) * (z0 / lit(ASYM_E1)),
        zn: f + f,
    };
    lit(0x3FF2_0DD7_5042_9B61 /* 1.12837916709551 */) * t * exp(m, bcorr(a, b).negated()) * asym_sum(k, q, a00, c00, d00)
}

pub open spec fn frac_convergents_spec(
    a: F64,
    b: F64,
    x: F64,
    c: F64,
    c0: F64,
    c1: F64,
    yp1: F64,
    eps: F64,
    n0: F64,
    p: F64,
    s: F64,
    an: F64,
    anp1: F64,
    bn: F64,
    bnp1: F64,
    r: F64,
    n: u64,
) -> F64
    decreases n,
{
    if n == 0 {
        lit(NAN)
    } else {
        let n1 = n0 + lit(ONE);
        let t = n1 / a;
        let w = n1 * (b - n1) * x;
        let e1 = a / s;
        let alpha = p * (p + c0) * e1 * e1 * (w * x);
        let e2 = (lit(ONE) + t) / (c1 + t + t);
        let beta = n1 + w / s + e2 * (c + n1 * yp1);
        let top = alpha * an + beta * anp1;
        let bot = alpha * bn + beta * bnp1;
        let r1 = top / bot;
        if (r1 - r).abs().le(eps * r1) {
            r1
        } else {
            frac_convergents_spec(a, b, x, c, c0, c1, yp1, eps, n1, lit(ONE) + t, s
                + lit(TWO), anp1 / bot, r1, bnp1 / bot, lit(ONE), r1, (n - 1) as u64)
        }
    }
}

/// Successive convergents of the continued fraction, until two agree.
#[verifier::when_used_as_spec(frac_convergents_spec)]
pub fn frac_convergents(
    a: F64,
    b: F64,
    x: F64,
    c: F64,
    c0: F64,
    c1: F64,
    yp1: F64,
    eps: F64,
    n0_init: F64,
    p_init: F64,
    s_init: F64,
    an_init: F64,
    anp1_init: F64,
    bn_init: F64,
    bnp1_init: F64,
    r_init: F64,
    n: u64,
) -> (result: F64)
    ensures
        result == frac_convergents(
            a,
            b,
            x,
            c,
            c0,
            c1,
            yp1,
            eps,
            n0_init,
            p_init,
            s_init,
            an_init,
            anp1_init,
            bn_init,
            bnp1_init,
            r_init,
            n,
        ),
{
    let mut n0 = n0_init;
    let mut p = p_init;
    let mut s = s_init;
    let mut an = an_init;
    let mut anp1 = anp1_init;
    let mut bn = bn_init;
    let mut bnp1 = bnp1_init;
    let mut r = r_init;
    let mut left: u64 = n;
    while left > 0
        invariant
            left <= n,
            frac_convergents(
                a,
                b,
                x,
                c,
                c0,
                c1,
                yp1,
                eps,
                n0_init,
                p_init,
                s_init,
                an_init,
                anp1_init,
                bn_init,
                bnp1_init,
                r_init,
                n,
            )
                == frac_convergents(a, b, x, c, c0, c1, yp1, eps, n0, p, s, an, anp1, bn, bnp1, r, left),
        decreases left,
    {
        let n1 = n0 + lit(ONE);
        let t = n1 / a;
        let w = n1 * (b - n1) * x;
        let e1 = a / s;
        let alpha = p * (p + c0) * e1 * e1 * (w * x);
        let e2 = (lit(ONE) + t) / (c1 + t + t);
        let beta = n1 + w / s + e2 * (c + n1 * yp1);
        let top = alpha * an + beta * anp1;
        let bot = alpha * bn + beta * bnp1;
        let r1 = top / bot;
        if (r1 - r).abs().le(eps * r1) {
            return r1;
        } else {
            let next_n0 = n1;
            let next_p = lit(ONE) + t;
            let next_s = s + lit(TWO);
            let next_an = anp1 / bot;
            let next_anp1 = r1;
            let next_bn = bnp1 / bot;
            let next_bnp1 = lit(ONE);
            let next_r = r1;
            n0 = next_n0;
            p = next_p;
            s = next_s;
            an = next_an;
            anp1 = next_anp1;
            bn = next_bn;
            bnp1 = next_bnp1;
            r = next_r;
        }
        left = left - 1;
    }
    lit(NAN)
}

#[verifier::opaque]
pub open spec fn beta_frac_spec<M: Fn(Elementary) -> F64>(
    m: &M,
    a: F64,
    b: F64,
    x: F64,
    y: F64,
    lambda: F64,
    eps: F64,
) -> F64 {
    let front = beta_rcomp(m, a, b, x, y);
    if front.equals(lit(ZERO)) {
        lit(ZERO)
    } else {
        let c = lit(ONE) + lambda;
        let c1 = lit(ONE) + lit(ONE) / a;
        front * frac_convergents(a, b, x, c, b / a, c1, y + lit(ONE), eps, lit(ZERO), lit(ONE), a
            + lit(ONE), lit(ZERO), lit(ONE), lit(ONE), c / c1, c1 / c, PATIENCE)
    }
}

/// The lower ratio by its continued fraction, for `a` and `b` above one.
#[verifier::when_used_as_spec(beta_frac_spec)]
pub fn beta_frac<M: Fn(Elementary) -> F64>(
    m: &M,
    a: F64,
    b: F64,
    x: F64,
    y: F64,
    lambda: F64,
    eps: F64,
) -> (r: F64)
    requires
        lawful(m),
    ensures
        r == beta_frac(m, a, b, x, y, lambda, eps),
{
    proof {
        reveal(beta_frac_spec);
    }
    let front = beta_rcomp(m, a, b, x, y);
    if front.equals(lit(ZERO)) {
        lit(ZERO)
    } else {
        let c = lit(ONE) + lambda;
        let c1 = lit(ONE) + lit(ONE) / a;
        front * frac_convergents(a, b, x, c, b / a, c1, y + lit(ONE), eps, lit(ZERO), lit(ONE), a
            + lit(ONE), lit(ZERO), lit(ONE), lit(ONE), c / c1, c1 / c, PATIENCE)
    }
}

/// Why the ratios have no value.
#[derive(Clone, Copy, Debug, PartialEq, Eq, Structural)]
pub enum BetaIncError {
    NegativeParameter { a: F64, b: F64 },
    BothZero,
    XOutOfRange(F64),
    YOutOfRange(F64),
    InconsistentSum { x: F64, y: F64 },
    XZeroAndAZero,
    YZeroAndBZero,
}

#[verifier::opaque]
pub open spec fn grat_or_spec<M: Fn(Elementary) -> F64>(
    m: &M,
    a: F64,
    b: F64,
    x: F64,
    y: F64,
    w: F64,
    eps: F64,
) -> F64 {
    match beta_grat(m, a, b, x, y, w, eps) {
        Ok(total) => total,
        Err(_) => w,
    }
}

/// `w` plus the ratio of the expansion for large `a`, or `w` where that gives
/// nothing.
#[verifier::when_used_as_spec(grat_or_spec)]
pub fn grat_or<M: Fn(Elementary) -> F64>(
    m: &M,
    a: F64,
    b: F64,
    x: F64,
    y: F64,
    w: F64,
    eps: F64,
) -> (r: F64)
    requires
        lawful(m),
    ensures
        r == grat_or(m, a, b, x, y, w, eps),
{
    proof {
        reveal(grat_or_spec);
    }
    match beta_grat(m, a, b, x, y, w, eps) {
        Ok(total) => total,
        Err(_) => w,
    }
}

#[verifier::opaque]
pub open spec fn from_lower_spec(w: F64) -> (F64, F64) {
    (w, complement(w))
}

/// Both ratios from the lower one.
#[verifier::when_used_as_spec(from_lower_spec)]
pub fn from_lower(w: F64) -> (r: (F64, F64))
    ensures
        r == from_lower(w),
{
    proof {
        reveal(from_lower_spec);
    }
    (w, complement(w))
}

#[verifier::opaque]
pub open spec fn from_upper_spec(w1: F64) -> (F64, F64) {
    (complement(w1), w1)
}

/// Both ratios from the upper one.
#[verifier::when_used_as_spec(from_upper_spec)]
pub fn from_upper(w1: F64) -> (r: (F64, F64))
    ensures
        r == from_upper(w1),
{
    proof {
        reveal(from_upper_spec);
    }
    (complement(w1), w1)
}

#[verifier::opaque]
pub open spec fn stepped_upper_spec<M: Fn(Elementary) -> F64>(
    m: &M,
    a0: F64,
    b0: F64,
    x0: F64,
    y0: F64,
    eps: F64,
) -> F64 {
    let w1 = beta_up(m, b0, a0, y0, x0, 20, eps);
    grat_or(m, b0 + lit(0x4034_0000_0000_0000 /* 20.0 */), a0, y0, x0, w1,
        lit(0x402E_0000_0000_0000 /* 15.0 */) * eps)
}

/// The upper ratio by twenty steps up in `b` and the expansion for large `b`.
#[verifier::when_used_as_spec(stepped_upper_spec)]
pub fn stepped_upper<M: Fn(Elementary) -> F64>(
    m: &M,
    a0: F64,
    b0: F64,
    x0: F64,
    y0: F64,
    eps: F64,
) -> (r: F64)
    requires
        lawful(m),
    ensures
        r == stepped_upper(m, a0, b0, x0, y0, eps),
{
    proof {
        reveal(stepped_upper_spec);
    }
    let w1 = beta_up(m, b0, a0, y0, x0, 20, eps);
    grat_or(m, b0 + lit(0x4034_0000_0000_0000 /* 20.0 */), a0, y0, x0, w1,
        lit(0x402E_0000_0000_0000 /* 15.0 */) * eps)
}

#[verifier::opaque]
pub open spec fn small_branch_spec<M: Fn(Elementary) -> F64>(
    m: &M,
    a0: F64,
    b0: F64,
    x0: F64,
    y0: F64,
    eps: F64,
) -> (F64, F64) {
    if b0.lt(eps.min(eps * a0)) {
        from_lower(fpser(m, a0, b0, x0, eps))
    } else if a0.lt(eps.min(eps * b0)) && (b0 * x0).le(lit(ONE)) {
        from_upper(apser(m, a0, b0, x0, eps))
    } else if a0.max(b0).gt(lit(ONE)) {
        if b0.le(lit(ONE)) {
            from_lower(beta_pser(m, a0, b0, x0, eps))
        } else if x0.ge(lit(0x3FD3_3333_3333_3333 /* 0.3 */)) {
            from_upper(beta_pser(m, b0, a0, y0, eps))
        } else if x0.lt(lit(0x3FB9_9999_9999_999A /* 0.1 */))
            && powf(m, x0 * b0, a0).le(lit(0x3FE6_6666_6666_6666 /* 0.7 */)) {
            from_lower(beta_pser(m, a0, b0, x0, eps))
        } else if b0.gt(lit(0x402E_0000_0000_0000 /* 15.0 */)) {
            from_upper(grat_or(m, b0, a0, y0, x0, lit(ZERO),
                lit(0x402E_0000_0000_0000 /* 15.0 */) * eps))
        } else {
            from_upper(stepped_upper(m, a0, b0, x0, y0, eps))
        }
    } else if a0.ge(lit(0x3FC9_9999_9999_999A /* 0.2 */).min(b0)) {
        from_lower(beta_pser(m, a0, b0, x0, eps))
    } else if powf(m, x0, a0).le(lit(0x3FEC_CCCC_CCCC_CCCD /* 0.9 */)) {
        from_lower(beta_pser(m, a0, b0, x0, eps))
    } else if x0.ge(lit(0x3FD3_3333_3333_3333 /* 0.3 */)) {
        from_upper(beta_pser(m, b0, a0, y0, eps))
    } else {
        from_upper(stepped_upper(m, a0, b0, x0, y0, eps))
    }
}

/// The ratios where one parameter is at most one and `x` at most one half.
#[verifier::when_used_as_spec(small_branch_spec)]
pub fn small_branch<M: Fn(Elementary) -> F64>(
    m: &M,
    a0: F64,
    b0: F64,
    x0: F64,
    y0: F64,
    eps: F64,
) -> (r: (F64, F64))
    requires
        lawful(m),
    ensures
        r == small_branch(m, a0, b0, x0, y0, eps),
{
    proof {
        reveal(small_branch_spec);
    }
    if b0.lt(eps.min(eps * a0)) {
        from_lower(fpser(m, a0, b0, x0, eps))
    } else if a0.lt(eps.min(eps * b0)) && (b0 * x0).le(lit(ONE)) {
        from_upper(apser(m, a0, b0, x0, eps))
    } else if a0.max(b0).gt(lit(ONE)) {
        if b0.le(lit(ONE)) {
            from_lower(beta_pser(m, a0, b0, x0, eps))
        } else if x0.ge(lit(0x3FD3_3333_3333_3333 /* 0.3 */)) {
            from_upper(beta_pser(m, b0, a0, y0, eps))
        } else if x0.lt(lit(0x3FB9_9999_9999_999A /* 0.1 */))
            && powf(m, x0 * b0, a0).le(lit(0x3FE6_6666_6666_6666 /* 0.7 */)) {
            from_lower(beta_pser(m, a0, b0, x0, eps))
        } else if b0.gt(lit(0x402E_0000_0000_0000 /* 15.0 */)) {
            from_upper(grat_or(m, b0, a0, y0, x0, lit(ZERO),
                lit(0x402E_0000_0000_0000 /* 15.0 */) * eps))
        } else {
            from_upper(stepped_upper(m, a0, b0, x0, y0, eps))
        }
    } else if a0.ge(lit(0x3FC9_9999_9999_999A /* 0.2 */).min(b0)) {
        from_lower(beta_pser(m, a0, b0, x0, eps))
    } else if powf(m, x0, a0).le(lit(0x3FEC_CCCC_CCCC_CCCD /* 0.9 */)) {
        from_lower(beta_pser(m, a0, b0, x0, eps))
    } else if x0.ge(lit(0x3FD3_3333_3333_3333 /* 0.3 */)) {
        from_upper(beta_pser(m, b0, a0, y0, eps))
    } else {
        from_upper(stepped_upper(m, a0, b0, x0, y0, eps))
    }
}

#[verifier::opaque]
pub open spec fn stepped_lower_spec<M: Fn(Elementary) -> F64>(
    m: &M,
    a0: F64,
    b0: F64,
    x0: F64,
    y0: F64,
    eps: F64,
) -> F64 {
    let n = b0.to_i32();
    let rest = b0 - F64::from_i64(n as i64);
    let whole: bool = rest.equals(lit(ZERO));
    let b0r = if whole {
        lit(ONE)
    } else {
        rest
    };
    let steps = if whole && n > 0 {
        (n - 1) as i32
    } else {
        n
    };
    let w = beta_up(m, b0r, a0, y0, x0, steps, eps);
    if x0.le(lit(0x3FE6_6666_6666_6666 /* 0.7 */)) {
        w + beta_pser(m, a0, b0r, x0, eps)
    } else if a0.le(lit(0x402E_0000_0000_0000 /* 15.0 */)) {
        grat_or(m, a0 + lit(0x4034_0000_0000_0000 /* 20.0 */), b0r, x0, y0, w
            + beta_up(m, a0, b0r, x0, y0, 20, eps), lit(0x402E_0000_0000_0000 /* 15.0 */) * eps)
    } else {
        grat_or(m, a0, b0r, x0, y0, w, lit(0x402E_0000_0000_0000 /* 15.0 */) * eps)
    }
}

/// The lower ratio for `b0` below 40 by steps in the whole part of `b0`.
#[verifier::when_used_as_spec(stepped_lower_spec)]
pub fn stepped_lower<M: Fn(Elementary) -> F64>(
    m: &M,
    a0: F64,
    b0: F64,
    x0: F64,
    y0: F64,
    eps: F64,
) -> (r: F64)
    requires
        lawful(m),
    ensures
        r == stepped_lower(m, a0, b0, x0, y0, eps),
{
    proof {
        reveal(stepped_lower_spec);
    }
    let n: i32 = b0.to_i32();
    let rest = b0 - F64::from_i64(n as i64);
    let whole: bool = rest.equals(lit(ZERO));
    let b0r = if whole {
        lit(ONE)
    } else {
        rest
    };
    let steps: i32 = if whole && n > 0 {
        (n - 1) as i32
    } else {
        n
    };
    let w = beta_up(m, b0r, a0, y0, x0, steps, eps);
    if x0.le(lit(0x3FE6_6666_6666_6666 /* 0.7 */)) {
        w + beta_pser(m, a0, b0r, x0, eps)
    } else if a0.le(lit(0x402E_0000_0000_0000 /* 15.0 */)) {
        grat_or(m, a0 + lit(0x4034_0000_0000_0000 /* 20.0 */), b0r, x0, y0, w
            + beta_up(m, a0, b0r, x0, y0, 20, eps), lit(0x402E_0000_0000_0000 /* 15.0 */) * eps)
    } else {
        grat_or(m, a0, b0r, x0, y0, w, lit(0x402E_0000_0000_0000 /* 15.0 */) * eps)
    }
}

#[verifier::opaque]
pub open spec fn large_branch_spec<M: Fn(Elementary) -> F64>(
    m: &M,
    a0: F64,
    b0: F64,
    x0: F64,
    y0: F64,
    lambda: F64,
    eps: F64,
) -> (F64, F64) {
    if b0.lt(lit(0x4044_0000_0000_0000 /* 40.0 */))
        && (b0 * x0).le(lit(0x3FE6_6666_6666_6666 /* 0.7 */)) {
        from_lower(beta_pser(m, a0, b0, x0, eps))
    } else if b0.lt(lit(0x4044_0000_0000_0000 /* 40.0 */)) {
        from_lower(stepped_lower(m, a0, b0, x0, y0, eps))
    } else {
        let least = if a0.le(b0) {
            a0
        } else {
            b0
        };
        if least.le(lit(0x4059_0000_0000_0000 /* 100.0 */))
            || lambda.gt(lit(0x3F9E_B851_EB85_1EB8 /* 0.03 */) * least) {
            from_lower(beta_frac(m, a0, b0, x0, y0, lambda,
                lit(0x402E_0000_0000_0000 /* 15.0 */) * eps))
        } else {
            from_lower(beta_asym(m, a0, b0, lambda, lit(0x4059_0000_0000_0000 /* 100.0 */) * eps))
        }
    }
}

/// The ratios where both parameters are above one and `x` is below the mean.
#[verifier::when_used_as_spec(large_branch_spec)]
pub fn large_branch<M: Fn(Elementary) -> F64>(
    m: &M,
    a0: F64,
    b0: F64,
    x0: F64,
    y0: F64,
    lambda: F64,
    eps: F64,
) -> (r: (F64, F64))
    requires
        lawful(m),
    ensures
        r == large_branch(m, a0, b0, x0, y0, lambda, eps),
{
    proof {
        reveal(large_branch_spec);
    }
    if b0.lt(lit(0x4044_0000_0000_0000 /* 40.0 */))
        && (b0 * x0).le(lit(0x3FE6_6666_6666_6666 /* 0.7 */)) {
        from_lower(beta_pser(m, a0, b0, x0, eps))
    } else if b0.lt(lit(0x4044_0000_0000_0000 /* 40.0 */)) {
        from_lower(stepped_lower(m, a0, b0, x0, y0, eps))
    } else {
        let least = if a0.le(b0) {
            a0
        } else {
            b0
        };
        if least.le(lit(0x4059_0000_0000_0000 /* 100.0 */))
            || lambda.gt(lit(0x3F9E_B851_EB85_1EB8 /* 0.03 */) * least) {
            from_lower(beta_frac(m, a0, b0, x0, y0, lambda,
                lit(0x402E_0000_0000_0000 /* 15.0 */) * eps))
        } else {
            from_lower(beta_asym(m, a0, b0, lambda, lit(0x4059_0000_0000_0000 /* 100.0 */) * eps))
        }
    }
}

#[verifier::opaque]
pub open spec fn beta_inc_inner_spec<M: Fn(Elementary) -> F64>(
    m: &M,
    a: F64,
    b: F64,
    x: F64,
    y: F64,
) -> (F64, F64) {
    let eps = lit(EPSILON).max(lit(0x3CD2_03AF_9EE7_5616 /* 1e-15 */));
    if a.max(b).lt(lit(0x3F50_624D_D2F1_A9FC /* 1e-3 */) * eps) {
        (b / (a + b), a / (a + b))
    } else if a.min(b).le(lit(ONE)) {
        if x.gt(lit(HALF)) {
            let (w, w1) = small_branch(m, b, a, y, x, eps);
            (w1, w)
        } else {
            small_branch(m, a, b, x, y, eps)
        }
    } else {
        let lambda = if a.gt(b) {
            (a + b) * y - b
        } else {
            a - (a + b) * x
        };
        if lambda.lt(lit(ZERO)) {
            let (w, w1) = large_branch(m, b, a, y, x, lambda.abs(), eps);
            (w1, w)
        } else {
            large_branch(m, a, b, x, y, lambda, eps)
        }
    }
}

/// The ratios for arguments in range and none of them zero.
#[verifier::when_used_as_spec(beta_inc_inner_spec)]
pub fn beta_inc_inner<M: Fn(Elementary) -> F64>(
    m: &M,
    a: F64,
    b: F64,
    x: F64,
    y: F64,
) -> (r: (F64, F64))
    requires
        lawful(m),
    ensures
        r == beta_inc_inner(m, a, b, x, y),
{
    proof {
        reveal(beta_inc_inner_spec);
    }
    let eps = lit(EPSILON).max(lit(0x3CD2_03AF_9EE7_5616 /* 1e-15 */));
    if a.max(b).lt(lit(0x3F50_624D_D2F1_A9FC /* 1e-3 */) * eps) {
        (b / (a + b), a / (a + b))
    } else if a.min(b).le(lit(ONE)) {
        if x.gt(lit(HALF)) {
            let (w, w1) = small_branch(m, b, a, y, x, eps);
            (w1, w)
        } else {
            small_branch(m, a, b, x, y, eps)
        }
    } else {
        let lambda = if a.gt(b) {
            (a + b) * y - b
        } else {
            a - (a + b) * x
        };
        if lambda.lt(lit(ZERO)) {
            let (w, w1) = large_branch(m, b, a, y, x, lambda.abs(), eps);
            (w1, w)
        } else {
            large_branch(m, a, b, x, y, lambda, eps)
        }
    }
}

pub open spec fn try_beta_inc_spec<M: Fn(Elementary) -> F64>(
    m: &M,
    a: F64,
    b: F64,
    x: F64,
    y: F64,
) -> Result<(F64, F64), BetaIncError> {
    if a.lt(lit(ZERO)) || b.lt(lit(ZERO)) {
        Err(BetaIncError::NegativeParameter { a, b })
    } else if a.equals(lit(ZERO)) && b.equals(lit(ZERO)) {
        Err(BetaIncError::BothZero)
    } else if !within(x, lit(ZERO), lit(ONE)) {
        Err(BetaIncError::XOutOfRange(x))
    } else if !within(y, lit(ZERO), lit(ONE)) {
        Err(BetaIncError::YOutOfRange(y))
    } else if (x + y - lit(HALF) - lit(HALF)).abs().gt(lit(THREE) * lit(EPSILON)) {
        Err(BetaIncError::InconsistentSum { x, y })
    } else if x.equals(lit(ZERO)) {
        if a.equals(lit(ZERO)) {
            Err(BetaIncError::XZeroAndAZero)
        } else {
            Ok((lit(ZERO), lit(ONE)))
        }
    } else if y.equals(lit(ZERO)) {
        if b.equals(lit(ZERO)) {
            Err(BetaIncError::YZeroAndBZero)
        } else {
            Ok((lit(ONE), lit(ZERO)))
        }
    } else if a.equals(lit(ZERO)) {
        Ok((lit(ONE), lit(ZERO)))
    } else if b.equals(lit(ZERO)) {
        Ok((lit(ZERO), lit(ONE)))
    } else {
        Ok(beta_inc_inner(m, a, b, x, y))
    }
}

/// The lower and the upper ratio, with `x + y = 1`.
#[verifier::when_used_as_spec(try_beta_inc_spec)]
pub fn try_beta_inc<M: Fn(Elementary) -> F64>(
    m: &M,
    a: F64,
    b: F64,
    x: F64,
    y: F64,
) -> (r: Result<(F64, F64), BetaIncError>)
    requires
        lawful(m),
    ensures
        r == try_beta_inc(m, a, b, x, y),
{
    if a.lt(lit(ZERO)) || b.lt(lit(ZERO)) {
        Err(BetaIncError::NegativeParameter { a, b })
    } else if a.equals(lit(ZERO)) && b.equals(lit(ZERO)) {
        Err(BetaIncError::BothZero)
    } else if !within(x, lit(ZERO), lit(ONE)) {
        Err(BetaIncError::XOutOfRange(x))
    } else if !within(y, lit(ZERO), lit(ONE)) {
        Err(BetaIncError::YOutOfRange(y))
    } else if (x + y - lit(HALF) - lit(HALF)).abs().gt(lit(THREE) * lit(EPSILON)) {
        Err(BetaIncError::InconsistentSum { x, y })
    } else if x.equals(lit(ZERO)) {
        if a.equals(lit(ZERO)) {
            Err(BetaIncError::XZeroAndAZero)
        } else {
            Ok((lit(ZERO), lit(ONE)))
        }
    } else if y.equals(lit(ZERO)) {
        if b.equals(lit(ZERO)) {
            Err(BetaIncError::YZeroAndBZero)
        } else {
            Ok((lit(ONE), lit(ZERO)))
        }
    } else if a.equals(lit(ZERO)) {
        Ok((lit(ONE), lit(ZERO)))
    } else if b.equals(lit(ZERO)) {
        Ok((lit(ZERO), lit(ONE)))
    } else {
        Ok(beta_inc_inner(m, a, b, x, y))
    }
}

/// The ratios where they have values, else two NaNs.
pub open spec fn beta_inc_value_spec<M: Fn(Elementary) -> F64>(m: &M, a: F64, b: F64, x: F64, y: F64) -> (
    F64,
    F64,
) {
    match try_beta_inc(m, a, b, x, y) {
        Ok(pq) => if a.is_nan() || b.is_nan() || x.is_nan() || y.is_nan() {
            (lit(NAN), lit(NAN))
        } else {
            pq
        },
        Err(_) => (lit(NAN), lit(NAN)),
    }
}

/// The ratios where they have values, else two NaNs.
#[verifier::when_used_as_spec(beta_inc_value_spec)]
pub fn beta_inc_value<M: Fn(Elementary) -> F64>(m: &M, a: F64, b: F64, x: F64, y: F64) -> (r: (F64, F64))
    requires
        lawful(m),
    ensures
        r == beta_inc_value(m, a, b, x, y),
{
    if a.is_nan() || b.is_nan() || x.is_nan() || y.is_nan() {
        return (lit(NAN), lit(NAN));
    }
    match try_beta_inc(m, a, b, x, y) {
        Ok(pq) => pq,
        Err(_) => (lit(NAN), lit(NAN)),
    }
}

/// The lower and the upper ratio, with `x + y = 1`; two NaNs where an argument is
/// NaN.
pub fn beta_inc<M: Fn(Elementary) -> F64>(m: &M, a: F64, b: F64, x: F64, y: F64) -> (r: (F64, F64))
    requires
        lawful(m),
        a.is_nan() || b.is_nan() || x.is_nan() || y.is_nan() || try_beta_inc(m, a, b, x, y) is Ok,
    ensures
        a.is_nan() || b.is_nan() || x.is_nan() || y.is_nan() ==> r == (lit(NAN), lit(NAN)),
        !(a.is_nan() || b.is_nan() || x.is_nan() || y.is_nan()) ==> try_beta_inc(m, a, b, x, y) == Ok::<
            (F64, F64),
            BetaIncError,
        >(r),
{
    beta_inc_value(m, a, b, x, y)
}

} // verus!
