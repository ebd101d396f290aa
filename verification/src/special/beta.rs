//! The beta function and its companions.
use crate::consts::{HALF, ONE, TWO, ZERO};
use super::gamma::{alnrel, dstrem, gam1, gamma_ln1, gamma_log, gsumln, rlog1, LG_C0, LG_C1, LG_C2, LG_C3, LG_C4, LG_C5, RT2PIN};
use crate::float::{lit, F64};
use crate::functions::{exp, lawful, ln, Elementary};
use vstd::prelude::*;

verus! {

#[verifier::opaque]
pub open spec fn esum_spec<M: Fn(Elementary) -> F64>(m: &M, mu: i32, x: F64) -> F64 {
    let w = F64::from_i64(mu as i64) + x;
    if x.gt(lit(ZERO)) && mu <= 0 && !w.lt(lit(ZERO)) {
        exp(m, w)
    } else if !x.gt(lit(ZERO)) && mu >= 0 && w.le(lit(ZERO)) {
        exp(m, w)
    } else {
        exp(m, F64::from_i64(mu as i64)) * exp(m, x)
    }
}

/// The exponential of `mu + x`, in one step where the two do not have the same sign
/// and do not overshoot.
#[verifier::when_used_as_spec(esum_spec)]
pub fn esum<M: Fn(Elementary) -> F64>(m: &M, mu: i32, x: F64) -> (r: F64)
    requires
        lawful(m),
    ensures
        r == esum(m, mu, x),
{
    proof {
        reveal(esum_spec);
    }
    let w = F64::from_i64(mu as i64) + x;
    if x.gt(lit(ZERO)) && mu <= 0 && !w.lt(lit(ZERO)) {
        exp(m, w)
    } else if !x.gt(lit(ZERO)) && mu >= 0 && w.le(lit(ZERO)) {
        exp(m, w)
    } else {
        exp(m, F64::from_i64(mu as i64)) * exp(m, x)
    }
}

#[verifier::opaque]
pub open spec fn delta_series_spec(x: F64, t: F64) -> F64 {
    let x2 = x * x;
    let s3 = lit(ONE) + (x + x2);
    let s5 = lit(ONE) + (x + x2 * s3);
    let s7 = lit(ONE) + (x + x2 * s5);
    let s9 = lit(ONE) + (x + x2 * s7);
    let s11 = lit(ONE) + (x + x2 * s9);
    ((((lit(LG_C5) * s11 * t + lit(LG_C4) * s9) * t + lit(LG_C3) * s7) * t + lit(LG_C2) * s5) * t
        + lit(LG_C1) * s3) * t + lit(LG_C0)
}

/// The difference of two Stirling corrections, in the powers of `x`, times the
/// square `t` of the inverse.
#[verifier::when_used_as_spec(delta_series_spec)]
pub fn delta_series(x: F64, t: F64) -> (r: F64)
    ensures
        r == delta_series(x, t),
{
    proof {
        reveal(delta_series_spec);
    }
    let x2 = x * x;
    let s3 = lit(ONE) + (x + x2);
    let s5 = lit(ONE) + (x + x2 * s3);
    let s7 = lit(ONE) + (x + x2 * s5);
    let s9 = lit(ONE) + (x + x2 * s7);
    let s11 = lit(ONE) + (x + x2 * s9);
    ((((lit(LG_C5) * s11 * t + lit(LG_C4) * s9) * t + lit(LG_C3) * s7) * t + lit(LG_C2) * s5) * t
        + lit(LG_C1) * s3) * t + lit(LG_C0)
}

#[verifier::opaque]
pub open spec fn algdiv_spec<M: Fn(Elementary) -> F64>(m: &M, a: F64, b: F64) -> F64 {
    let h = if b.le(a) {
        b / a
    } else {
        a / b
    };
    let c = if b.le(a) {
        lit(ONE) / (lit(ONE) + h)
    } else {
        h / (lit(ONE) + h)
    };
    let x = if b.le(a) {
        h / (lit(ONE) + h)
    } else {
        lit(ONE) / (lit(ONE) + h)
    };
    let d = if b.le(a) {
        a + (b - lit(HALF))
    } else {
        b + (a - lit(HALF))
    };
    let w = delta_series(x, (lit(ONE) / b).squared()) * (c / b);
    let u = d * alnrel(m, a / b);
    let v = a * (ln(m, b) - lit(ONE));
    if v.lt(u) {
        w - v - u
    } else {
        w - u - v
    }
}

/// The logarithm of `gamma(b) / gamma(a + b)`, for `b` of at least 8.
#[verifier::when_used_as_spec(algdiv_spec)]
pub fn algdiv<M: Fn(Elementary) -> F64>(m: &M, a: F64, b: F64) -> (r: F64)
    requires
        lawful(m),
    ensures
        r == algdiv(m, a, b),
{
    proof {
        reveal(algdiv_spec);
    }
    let h = if b.le(a) {
        b / a
    } else {
        a / b
    };
    let c = if b.le(a) {
        lit(ONE) / (lit(ONE) + h)
    } else {
        h / (lit(ONE) + h)
    };
    let x = if b.le(a) {
        h / (lit(ONE) + h)
    } else {
        lit(ONE) / (lit(ONE) + h)
    };
    let d = if b.le(a) {
        a + (b - lit(HALF))
    } else {
        b + (a - lit(HALF))
    };
    let w = delta_series(x, (lit(ONE) / b).squared()) * (c / b);
    let u = d * alnrel(m, a / b);
    let v = a * (ln(m, b) - lit(ONE));
    if v.lt(u) {
        w - v - u
    } else {
        w - u - v
    }
}

#[verifier::opaque]
pub open spec fn bcorr_spec(a0: F64, b0: F64) -> F64 {
    let a = a0.min(b0);
    let b = a0.max(b0);
    let h = a / b;
    let c = h / (lit(ONE) + h);
    let x = lit(ONE) / (lit(ONE) + h);
    let w = delta_series(x, (lit(ONE) / b).squared()) * (c / b);
    let t = (lit(ONE) / a).squared();
    (((((lit(LG_C5) * t + lit(LG_C4)) * t + lit(LG_C3)) * t + lit(LG_C2)) * t + lit(LG_C1)) * t
        + lit(LG_C0)) / a + w
}

/// The Stirling corrections of `a` and `b` minus that of their sum, for arguments of
/// at least 8.
#[verifier::when_used_as_spec(bcorr_spec)]
pub fn bcorr(a0: F64, b0: F64) -> (r: F64)
    ensures
        r == bcorr(a0, b0),
{
    proof {
        reveal(bcorr_spec);
    }
    let a = a0.min(b0);
    let b = a0.max(b0);
    let h = a / b;
    let c = h / (lit(ONE) + h);
    let x = lit(ONE) / (lit(ONE) + h);
    let w = delta_series(x, (lit(ONE) / b).squared()) * (c / b);
    let t = (lit(ONE) / a).squared();
    (((((lit(LG_C5) * t + lit(LG_C4)) * t + lit(LG_C3)) * t + lit(LG_C2)) * t + lit(LG_C1)) * t
        + lit(LG_C0)) / a + w
}

pub open spec fn ratio_walk_spec(a: F64, b: F64, z: F64, n: u64) -> (F64, F64)
    decreases n,
{
    if n == 0 {
        (b, z)
    } else {
        let b1 = b - lit(ONE);
        ratio_walk_spec(a, b1, z * (b1 / (a + b1)), (n - 1) as u64)
    }
}

/// Takes ones off `b`, collecting the factors `b / (a + b)`.
#[verifier::when_used_as_spec(ratio_walk_spec)]
pub fn ratio_walk(a: F64, b_init: F64, z_init: F64, n: u64) -> (r: (F64, F64))
    ensures
        r == ratio_walk(a, b_init, z_init, n),
{
    let mut b = b_init;
    let mut z = z_init;
    let mut left: u64 = n;
    while left > 0
        invariant
            left <= n,
            ratio_walk(a, b_init, z_init, n)
                == ratio_walk(a, b, z, left),
        decreases left,
    {
        let b1 = b - lit(ONE);
        let next_b = b1;
        let next_z = z * (b1 / (a + b1));
        b = next_b;
        z = next_z;
        left = left - 1;
    }
    (b, z)
}

pub open spec fn steep_walk_spec(b: F64, a: F64, w: F64, n: u64) -> (F64, F64)
    decreases n,
{
    if n == 0 {
        (a, w)
    } else {
        let a1 = a - lit(ONE);
        steep_walk_spec(b, a1, w * (a1 / (lit(ONE) + a1 / b)), (n - 1) as u64)
    }
}

/// Takes ones off `a`, collecting the factors `a / (1 + a / b)`.
#[verifier::when_used_as_spec(steep_walk_spec)]
pub fn steep_walk(b: F64, a_init: F64, w_init: F64, n: u64) -> (r: (F64, F64))
    ensures
        r == steep_walk(b, a_init, w_init, n),
{
    let mut a = a_init;
    let mut w = w_init;
    let mut left: u64 = n;
    while left > 0
        invariant
            left <= n,
            steep_walk(b, a_init, w_init, n)
                == steep_walk(b, a, w, left),
        decreases left,
    {
        let a1 = a - lit(ONE);
        let next_a = a1;
        let next_w = w * (a1 / (lit(ONE) + a1 / b));
        a = next_a;
        w = next_w;
        left = left - 1;
    }
    (a, w)
}

pub open spec fn gentle_walk_spec(b: F64, a: F64, w: F64, n: u64) -> (F64, F64)
    decreases n,
{
    if n == 0 {
        (a, w)
    } else {
        let a1 = a - lit(ONE);
        let h = a1 / b;
        gentle_walk_spec(b, a1, w * (h / (lit(ONE) + h)), (n - 1) as u64)
    }
}

/// Takes ones off `a`, collecting the factors `(a / b) / (1 + a / b)`.
#[verifier::when_used_as_spec(gentle_walk_spec)]
pub fn gentle_walk(b: F64, a_init: F64, w_init: F64, n: u64) -> (r: (F64, F64))
    ensures
        r == gentle_walk(b, a_init, w_init, n),
{
    let mut a = a_init;
    let mut w = w_init;
    let mut left: u64 = n;
    while left > 0
        invariant
            left <= n,
            gentle_walk(b, a_init, w_init, n)
                == gentle_walk(b, a, w, left),
        decreases left,
    {
        let a1 = a - lit(ONE);
        let h = a1 / b;
        let next_a = a1;
        let next_w = w * (h / (lit(ONE) + h));
        a = next_a;
        w = next_w;
        left = left - 1;
    }
    (a, w)
}

#[verifier::opaque]
pub open spec fn reduce_b_spec<M: Fn(Elementary) -> F64>(m: &M, a: F64, b0: F64, w: F64) -> F64 {
    let walk = ratio_walk(a, b0, lit(ONE), (b0 - lit(ONE)).to_u64());
    w + ln(m, walk.1) + (gamma_log(m, a) + (gamma_log(m, walk.0) - gsumln(m, a, walk.0)))
}

/// The logarithm of the beta function for `a` from 1 to 2 and `b` below 8, plus `w`.
#[verifier::when_used_as_spec(reduce_b_spec)]
pub fn reduce_b<M: Fn(Elementary) -> F64>(m: &M, a: F64, b0: F64, w: F64) -> (r: F64)
    requires
        lawful(m),
    ensures
        r == reduce_b(m, a, b0, w),
{
    proof {
        reveal(reduce_b_spec);
    }
    let walk = ratio_walk(a, b0, lit(ONE), (b0 - lit(ONE)).to_u64());
    w + ln(m, walk.1) + (gamma_log(m, a) + (gamma_log(m, walk.0) - gsumln(m, a, walk.0)))
}

/// 0.918938533204673
pub const HALF_LN_2PI: u64 = 0x3FED_67F1_C864_BEB7;

#[verifier::opaque]
pub open spec fn beta_log_large_spec<M: Fn(Elementary) -> F64>(m: &M, a: F64, b: F64) -> F64 {
    let w = bcorr(a, b);
    let h = a / b;
    let c = h / (lit(ONE) + h);
    let u = ((a - lit(HALF)) * ln(m, c)).negated();
    let v = b * alnrel(m, h);
    if v.lt(u) {
        (lit(HALF) * ln(m, b)).negated() + lit(HALF_LN_2PI) + w - v - u
    } else {
        (lit(HALF) * ln(m, b)).negated() + lit(HALF_LN_2PI) + w - u - v
    }
}

/// The logarithm of the beta function for two numbers of at least 8, the lesser one
/// first.
#[verifier::when_used_as_spec(beta_log_large_spec)]
pub fn beta_log_large<M: Fn(Elementary) -> F64>(m: &M, a: F64, b: F64) -> (r: F64)
    requires
        lawful(m),
    ensures
        r == beta_log_large(m, a, b),
{
    proof {
        reveal(beta_log_large_spec);
    }
    let w = bcorr(a, b);
    let h = a / b;
    let c = h / (lit(ONE) + h);
    let u = ((a - lit(HALF)) * ln(m, c)).negated();
    let v = b * alnrel(m, h);
    if v.lt(u) {
        (lit(HALF) * ln(m, b)).negated() + lit(HALF_LN_2PI) + w - v - u
    } else {
        (lit(HALF) * ln(m, b)).negated() + lit(HALF_LN_2PI) + w - u - v
    }
}

#[verifier::opaque]
pub open spec fn beta_log_middle_spec<M: Fn(Elementary) -> F64>(m: &M, a: F64, b: F64) -> F64 {
    let n = (a - lit(ONE)).to_u64();
    if b.gt(lit(0x408F_4000_0000_0000 /* 1000.0 */)) {
        let walk = steep_walk(b, a, lit(ONE), n);
        ln(m, walk.1) - F64::from_u64(n) * ln(m, b) + (gamma_log(m, walk.0) + algdiv(m, walk.0, b))
    } else {
        let walk = gentle_walk(b, a, lit(ONE), n);
        let w = ln(m, walk.1);
        if b.ge(lit(0x4020_0000_0000_0000 /* 8.0 */)) {
            w + gamma_log(m, walk.0) + algdiv(m, walk.0, b)
        } else {
            reduce_b(m, walk.0, b, w)
        }
    }
}

/// The logarithm of the beta function for `a` from 2 to 8 and `b` of at least `a`.
#[verifier::when_used_as_spec(beta_log_middle_spec)]
pub fn beta_log_middle<M: Fn(Elementary) -> F64>(m: &M, a: F64, b: F64) -> (r: F64)
    requires
        lawful(m),
    ensures
        r == beta_log_middle(m, a, b),
{
    proof {
        reveal(beta_log_middle_spec);
    }
    let n: u64 = (a - lit(ONE)).to_u64();
    if b.gt(lit(0x408F_4000_0000_0000 /* 1000.0 */)) {
        let walk = steep_walk(b, a, lit(ONE), n);
        ln(m, walk.1) - F64::from_u64(n) * ln(m, b) + (gamma_log(m, walk.0) + algdiv(m, walk.0, b))
    } else {
        let walk = gentle_walk(b, a, lit(ONE), n);
        let w = ln(m, walk.1);
        if b.ge(lit(0x4020_0000_0000_0000 /* 8.0 */)) {
            w + gamma_log(m, walk.0) + algdiv(m, walk.0, b)
        } else {
            reduce_b(m, walk.0, b, w)
        }
    }
}

#[verifier::opaque]
pub open spec fn beta_log_spec<M: Fn(Elementary) -> F64>(m: &M, a0: F64, b0: F64) -> F64 {
    let a = a0.min(b0);
    let b = a0.max(b0);
    if a.ge(lit(0x4020_0000_0000_0000 /* 8.0 */)) {
        beta_log_large(m, a, b)
    } else if a.lt(lit(ONE)) {
        if b.lt(lit(0x4020_0000_0000_0000 /* 8.0 */)) {
            gamma_log(m, a) + (gamma_log(m, b) - gamma_log(m, a + b))
        } else {
            gamma_log(m, a) + algdiv(m, a, b)
        }
    } else if a.le(lit(TWO)) {
        if b.le(lit(TWO)) {
            gamma_log(m, a) + gamma_log(m, b) - gsumln(m, a, b)
        } else if b.ge(lit(0x4020_0000_0000_0000 /* 8.0 */)) {
            gamma_log(m, a) + algdiv(m, a, b)
        } else {
            reduce_b(m, a, b, lit(ZERO))
        }
    } else {
        beta_log_middle(m, a, b)
    }
}

/// The logarithm of the beta function.
#[verifier::when_used_as_spec(beta_log_spec)]
pub fn beta_log<M: Fn(Elementary) -> F64>(m: &M, a0: F64, b0: F64) -> (r: F64)
    requires
        lawful(m),
    ensures
        r == beta_log(m, a0, b0),
{
    proof {
        reveal(beta_log_spec);
    }
    let a = a0.min(b0);
    let b = a0.max(b0);
    if a.ge(lit(0x4020_0000_0000_0000 /* 8.0 */)) {
        beta_log_large(m, a, b)
    } else if a.lt(lit(ONE)) {
        if b.lt(lit(0x4020_0000_0000_0000 /* 8.0 */)) {
            gamma_log(m, a) + (gamma_log(m, b) - gamma_log(m, a + b))
        } else {
            gamma_log(m, a) + algdiv(m, a, b)
        }
    } else if a.le(lit(TWO)) {
        if b.le(lit(TWO)) {
            gamma_log(m, a) + gamma_log(m, b) - gsumln(m, a, b)
        } else if b.ge(lit(0x4020_0000_0000_0000 /* 8.0 */)) {
            gamma_log(m, a) + algdiv(m, a, b)
        } else {
            reduce_b(m, a, b, lit(ZERO))
        }
    } else {
        beta_log_middle(m, a, b)
    }
}

#[verifier::opaque]
pub open spec fn beta_spec<M: Fn(Elementary) -> F64>(m: &M, a: F64, b: F64) -> F64 {
    exp(m, beta_log(m, a, b))
}

/// The beta function.
#[verifier::when_used_as_spec(beta_spec)]
pub fn beta<M: Fn(Elementary) -> F64>(m: &M, a: F64, b: F64) -> (r: F64)
    requires
        lawful(m),
    ensures
        r == beta(m, a, b),
{
    proof {
        reveal(beta_spec);
    }
    exp(m, beta_log(m, a, b))
}

#[verifier::opaque]
pub open spec fn dbetrm_spec<M: Fn(Elementary) -> F64>(m: &M, a: F64, b: F64) -> F64 {
    dstrem(m, a + b).negated() + dstrem(m, a.max(b)) + dstrem(m, a.min(b))
}

/// The Stirling remainders of `a` and `b` minus that of their sum.
#[verifier::when_used_as_spec(dbetrm_spec)]
pub fn dbetrm<M: Fn(Elementary) -> F64>(m: &M, a: F64, b: F64) -> (r: F64)
    requires
        lawful(m),
        !(a + b).le(lit(ZERO)),
        !a.max(b).le(lit(ZERO)),
        !a.min(b).le(lit(ZERO)),
    ensures
        r == dbetrm(m, a, b),
{
    proof {
        reveal(dbetrm_spec);
    }
    dstrem(m, a + b).negated() + dstrem(m, a.max(b)) + dstrem(m, a.min(b))
}

#[verifier::opaque]
pub open spec fn sum_factor_spec(a: F64, b: F64) -> F64 {
    let apb = a + b;
    if apb.le(lit(ONE)) {
        lit(ONE) + gam1(apb)
    } else {
        (lit(ONE) + gam1(a + b - lit(ONE))) / apb
    }
}

/// The reciprocal of `gamma(1 + a + b)`, over `a + b` where that is above one.
#[verifier::when_used_as_spec(sum_factor_spec)]
pub fn sum_factor(a: F64, b: F64) -> (r: F64)
    ensures
        r == sum_factor(a, b),
{
    proof {
        reveal(sum_factor_spec);
    }
    let apb = a + b;
    if apb.le(lit(ONE)) {
        lit(ONE) + gam1(apb)
    } else {
        (lit(ONE) + gam1(a + b - lit(ONE))) / apb
    }
}

#[verifier::opaque]
pub open spec fn log_pair_spec<M: Fn(Elementary) -> F64>(m: &M, x: F64, y: F64) -> (F64, F64) {
    if x.le(lit(0x3FD8_0000_0000_0000 /* 0.375 */)) {
        (ln(m, x), alnrel(m, x.negated()))
    } else if y.le(lit(0x3FD8_0000_0000_0000 /* 0.375 */)) {
        (alnrel(m, y.negated()), ln(m, y))
    } else {
        (ln(m, x), ln(m, y))
    }
}

/// The logarithms of `x` and `y = 1 - x`.
#[verifier::when_used_as_spec(log_pair_spec)]
pub fn log_pair<M: Fn(Elementary) -> F64>(m: &M, x: F64, y: F64) -> (r: (F64, F64))
    requires
        lawful(m),
    ensures
        r == log_pair(m, x, y),
{
    proof {
        reveal(log_pair_spec);
    }
    if x.le(lit(0x3FD8_0000_0000_0000 /* 0.375 */)) {
        (ln(m, x), alnrel(m, x.negated()))
    } else if y.le(lit(0x3FD8_0000_0000_0000 /* 0.375 */)) {
        (alnrel(m, y.negated()), ln(m, y))
    } else {
        (ln(m, x), ln(m, y))
    }
}

#[verifier::opaque]
pub open spec fn mode_spec(a: F64, b: F64, x: F64, y: F64) -> (F64, F64, F64) {
    if a.le(b) {
        let h = a / b;
        (h / (lit(ONE) + h), lit(ONE) / (lit(ONE) + h), a - (a + b) * x)
    } else {
        let h = b / a;
        (lit(ONE) / (lit(ONE) + h), h / (lit(ONE) + h), (a + b) * y - b)
    }
}

/// The mode, its complement and the distance from the mode, for large parameters.
#[verifier::when_used_as_spec(mode_spec)]
pub fn mode(a: F64, b: F64, x: F64, y: F64) -> (r: (F64, F64, F64))
    ensures
        r == mode(a, b, x, y),
{
    proof {
        reveal(mode_spec);
    }
    if a.le(b) {
        let h = a / b;
        (h / (lit(ONE) + h), lit(ONE) / (lit(ONE) + h), a - (a + b) * x)
    } else {
        let h = b / a;
        (lit(ONE) / (lit(ONE) + h), h / (lit(ONE) + h), (a + b) * y - b)
    }
}

#[verifier::opaque]
pub open spec fn excess_spec<M: Fn(Elementary) -> F64>(m: &M, e: F64, x: F64, x0: F64) -> F64 {
    if e.abs().le(lit(0x3FE3_3333_3333_3333 /* 0.6 */)) {
        rlog1(m, e)
    } else {
        e - ln(m, x / x0)
    }
}

/// `e - ln(1 + e)`, where `1 + e = x / x0`.
#[verifier::when_used_as_spec(excess_spec)]
pub fn excess<M: Fn(Elementary) -> F64>(m: &M, e: F64, x: F64, x0: F64) -> (r: F64)
    requires
        lawful(m),
    ensures
        r == excess(m, e, x, x0),
{
    proof {
        reveal(excess_spec);
    }
    if e.abs().le(lit(0x3FE3_3333_3333_3333 /* 0.6 */)) {
        rlog1(m, e)
    } else {
        e - ln(m, x / x0)
    }
}

#[verifier::opaque]
pub open spec fn shifted_spec<M: Fn(Elementary) -> F64>(m: &M, a0: F64, b0: F64) -> (F64, F64, F64) {
    let walk = ratio_walk(a0, b0, lit(ONE), (b0 - lit(ONE)).to_u64());
    let b1 = walk.0 - lit(ONE);
    (ln(m, walk.1) + gamma_ln1(a0), lit(ONE) + gam1(b1), sum_factor(a0, b1))
}

/// For `a0` below 1 and `b0` from 1 to 8: the logarithm to subtract, and numerator
/// and denominator of the factor in front.
#[verifier::when_used_as_spec(shifted_spec)]
pub fn shifted<M: Fn(Elementary) -> F64>(m: &M, a0: F64, b0: F64) -> (r: (F64, F64, F64))
    requires
        lawful(m),
    ensures
        r == shifted(m, a0, b0),
{
    proof {
        reveal(shifted_spec);
    }
    let walk = ratio_walk(a0, b0, lit(ONE), (b0 - lit(ONE)).to_u64());
    let b1 = walk.0 - lit(ONE);
    (ln(m, walk.1) + gamma_ln1(a0), lit(ONE) + gam1(b1), sum_factor(a0, b1))
}

#[verifier::opaque]
pub open spec fn rcomp_large_spec<M: Fn(Elementary) -> F64>(
    m: &M,
    mu: i32,
    a: F64,
    b: F64,
    x: F64,
    y: F64,
) -> F64 {
    let (x0, y0, lambda) = mode(a, b, x, y);
    let u = excess(m, (lambda / a).negated(), x, x0);
    let v = excess(m, lambda / b, y, y0);
    let z = esum(m, mu, (a * u + b * v).negated());
    lit(RT2PIN) * (b * x0).sqrt() * z * exp(m, bcorr(a, b).negated())
}

/// `x^a y^b / beta(a, b)`, for both parameters of at least 8 and `esum` in place of
/// the exponential.
#[verifier::when_used_as_spec(rcomp_large_spec)]
pub fn rcomp_large<M: Fn(Elementary) -> F64>(
    m: &M,
    mu: i32,
    a: F64,
    b: F64,
    x: F64,
    y: F64,
) -> (r: F64)
    requires
        lawful(m),
    ensures
        r == rcomp_large(m, mu, a, b, x, y),
{
    proof {
        reveal(rcomp_large_spec);
    }
    let (x0, y0, lambda) = mode(a, b, x, y);
    let u = excess(m, (lambda / a).negated(), x, x0);
    let v = excess(m, lambda / b, y, y0);
    let z = esum(m, mu, (a * u + b * v).negated());
    lit(RT2PIN) * (b * x0).sqrt() * z * exp(m, bcorr(a, b).negated())
}

#[verifier::opaque]
pub open spec fn beta_rcomp_spec<M: Fn(Elementary) -> F64>(
    m: &M,
    a: F64,
    b: F64,
    x: F64,
    y: F64,
) -> F64 {
    let a0 = a.min(b);
    let b0 = a.max(b);
    if x.equals(lit(ZERO)) || y.equals(lit(ZERO)) {
        lit(ZERO)
    } else if a0.lt(lit(0x4020_0000_0000_0000 /* 8.0 */)) {
        let (lnx, lny) = log_pair(m, x, y);
        let z = a * lnx + b * lny;
        if a0.ge(lit(ONE)) {
            exp(m, z - beta_log(m, a, b))
        } else if b0.le(lit(ONE)) {
            let result = exp(m, z);
            if result.equals(lit(ZERO)) {
                lit(ZERO)
            } else {
                let c = (lit(ONE) + gam1(a)) * (lit(ONE) + gam1(b)) / sum_factor(a, b);
                result * (a0 * c) / (lit(ONE) + a0 / b0)
            }
        } else if b0.lt(lit(0x4020_0000_0000_0000 /* 8.0 */)) {
            let (u, top, t) = shifted(m, a0, b0);
            a0 * exp(m, z - u) * top / t
        } else {
            a0 * exp(m, z - (gamma_ln1(a0) + algdiv(m, a0, b0)))
        }
    } else {
        let (x0, y0, lambda) = mode(a, b, x, y);
        let u = excess(m, (lambda / a).negated(), x, x0);
        let v = excess(m, lambda / b, y, y0);
        let z = exp(m, (a * u + b * v).negated());
        lit(RT2PIN) * (b * x0).sqrt() * z * exp(m, bcorr(a, b).negated())
    }
}

/// `x^a y^b / beta(a, b)`.
#[verifier::when_used_as_spec(beta_rcomp_spec)]
pub fn beta_rcomp<M: Fn(Elementary) -> F64>(m: &M, a: F64, b: F64, x: F64, y: F64) -> (r: F64)
    requires
        lawful(m),
    ensures
        r == beta_rcomp(m, a, b, x, y),
{
    proof {
        reveal(beta_rcomp_spec);
    }
    let a0 = a.min(b);
    let b0 = a.max(b);
    if x.equals(lit(ZERO)) || y.equals(lit(ZERO)) {
        lit(ZERO)
    } else if a0.lt(lit(0x4020_0000_0000_0000 /* 8.0 */)) {
        let (lnx, lny) = log_pair(m, x, y);
        let z = a * lnx + b * lny;
        if a0.ge(lit(ONE)) {
            exp(m, z - beta_log(m, a, b))
        } else if b0.le(lit(ONE)) {
            let result = exp(m, z);
            if result.equals(lit(ZERO)) {
                lit(ZERO)
            } else {
                let c = (lit(ONE) + gam1(a)) * (lit(ONE) + gam1(b)) / sum_factor(a, b);
                result * (a0 * c) / (lit(ONE) + a0 / b0)
            }
        } else if b0.lt(lit(0x4020_0000_0000_0000 /* 8.0 */)) {
            let (u, top, t) = shifted(m, a0, b0);
            a0 * exp(m, z - u) * top / t
        } else {
            a0 * exp(m, z - (gamma_ln1(a0) + algdiv(m, a0, b0)))
        }
    } else {
        let (x0, y0, lambda) = mode(a, b, x, y);
        let u = excess(m, (lambda / a).negated(), x, x0);
        let v = excess(m, lambda / b, y, y0);
        let z = exp(m, (a * u + b * v).negated());
        lit(RT2PIN) * (b * x0).sqrt() * z * exp(m, bcorr(a, b).negated())
    }
}

#[verifier::opaque]
pub open spec fn beta_rcomp1_spec<M: Fn(Elementary) -> F64>(
    m: &M,
    mu: i32,
    a: F64,
    b: F64,
    x: F64,
    y: F64,
) -> F64 {
    let a0 = a.min(b);
    let b0 = a.max(b);
    if a0.ge(lit(0x4020_0000_0000_0000 /* 8.0 */)) {
        rcomp_large(m, mu, a, b, x, y)
    } else {
        let (lnx, lny) = log_pair(m, x, y);
        let z = a * lnx + b * lny;
        if a0.ge(lit(ONE)) {
            esum(m, mu, z - beta_log(m, a, b))
        } else if b0.ge(lit(0x4020_0000_0000_0000 /* 8.0 */)) {
            a0 * esum(m, mu, z - (gamma_ln1(a0) + algdiv(m, a0, b0)))
        } else if b0.gt(lit(ONE)) {
            let (u, top, t) = shifted(m, a0, b0);
            a0 * esum(m, mu, z - u) * top / t
        } else {
            let result = esum(m, mu, z);
            if result.equals(lit(ZERO)) {
                lit(ZERO)
            } else {
                let c = (lit(ONE) + gam1(a)) * (lit(ONE) + gam1(b)) / sum_factor(a, b);
                result * (a0 * c) / (lit(ONE) + a0 / b0)
            }
        }
    }
}

/// `e^mu x^a y^b / beta(a, b)`.
#[verifier::when_used_as_spec(beta_rcomp1_spec)]
pub fn beta_rcomp1<M: Fn(Elementary) -> F64>(
    m: &M,
    mu: i32,
    a: F64,
    b: F64,
    x: F64,
    y: F64,
) -> (r: F64)
    requires
        lawful(m),
    ensures
        r == beta_rcomp1(m, mu, a, b, x, y),
{
    proof {
        reveal(beta_rcomp1_spec);
    }
    let a0 = a.min(b);
    let b0 = a.max(b);
    if a0.ge(lit(0x4020_0000_0000_0000 /* 8.0 */)) {
        rcomp_large(m, mu, a, b, x, y)
    } else {
        let (lnx, lny) = log_pair(m, x, y);
        let z = a * lnx + b * lny;
        if a0.ge(lit(ONE)) {
            esum(m, mu, z - beta_log(m, a, b))
        } else if b0.ge(lit(0x4020_0000_0000_0000 /* 8.0 */)) {
            a0 * esum(m, mu, z - (gamma_ln1(a0) + algdiv(m, a0, b0)))
        } else if b0.gt(lit(ONE)) {
            let (u, top, t) = shifted(m, a0, b0);
            a0 * esum(m, mu, z - u) * top / t
        } else {
            let result = esum(m, mu, z);
            if result.equals(lit(ZERO)) {
                lit(ZERO)
            } else {
                let c = (lit(ONE) + gam1(a)) * (lit(ONE) + gam1(b)) / sum_factor(a, b);
                result * (a0 * c) / (lit(ONE) + a0 / b0)
            }
        }
    }
}

} // verus!
