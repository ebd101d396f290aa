//! The inverse of the incomplete gamma function ratios.
use crate::consts::{EPSILON, FIVE, FOUR, HALF, MAX, MIN_POSITIVE, NAN, ONE, PATIENCE, THREE, TWO, ZERO};
use super::gamma::{alnrel, gamma_ln1, gamma_log, gamma_value, rcomp};
use super::gamma_inc::try_gamma_inc;
use crate::float::{lit, F64};
use crate::functions::{exp, lawful, ln, Elementary};
use vstd::prelude::*;

verus! {

/// Why the inverse has no value, or none that can be vouched for.
#[derive(Clone, Copy, Debug, PartialEq, Eq, Structural)]
pub enum GammaIncInvError {
    ANotPositive(F64),
    NoSolution,
    InconsistentPq,
    NotConverged { partial: F64 },
    IterationFailed,
    UncertainAccuracy { value: F64 },
    AtInfinity,
}

/// A first approximation: the answer already, or a number to refine, by the upper
/// ratio or by the lower one.
#[derive(Clone, Copy, Debug)]
pub enum InverseStart {
    Settled(Result<F64, GammaIncInvError>),
    Refine { xn: F64, use_q: bool },
}

#[verifier::opaque]
pub open spec fn log_expansion_spec(a: F64, s: F64, z: F64, y: F64) -> F64 {
    let c1 = s.negated() * z;
    let c2 = s.negated() * (lit(ONE) + c1);
    let c3 = s * ((lit(HALF) * c1 + (lit(TWO) - a)) * c1
        + (lit(0x4004_0000_0000_0000 /* 2.5 */) - lit(0x3FF8_0000_0000_0000 /* 1.5 */) * a));
    let c4 = s.negated() * (((c1 / lit(THREE) + (lit(0x4004_0000_0000_0000 /* 2.5 */)
        - lit(0x3FF8_0000_0000_0000 /* 1.5 */) * a)) * c1
        + ((a - lit(0x4018_0000_0000_0000 /* 6.0 */)) * a + lit(0x401C_0000_0000_0000 /* 7.0 */)))
        * c1 + ((lit(0x4026_0000_0000_0000 /* 11.0 */) * a
        - lit(0x4047_0000_0000_0000 /* 46.0 */)) * a + lit(0x4047_8000_0000_0000 /* 47.0 */))
        / lit(0x4018_0000_0000_0000 /* 6.0 */));
    let c5 = s.negated() * ((((c1.negated() / lit(FOUR)
        + (lit(0x4026_0000_0000_0000 /* 11.0 */) * a - lit(0x4031_0000_0000_0000 /* 17.0 */))
        / lit(0x4018_0000_0000_0000 /* 6.0 */)) * c1
        + ((lit(0xC008_0000_0000_0000 /* -3.0 */) * a + lit(0x402A_0000_0000_0000 /* 13.0 */)) * a
        - lit(0x402A_0000_0000_0000 /* 13.0 */))) * c1
        + lit(HALF) * (((lit(TWO) * a - lit(0x4039_0000_0000_0000 /* 25.0 */)) * a
        + lit(0x4052_0000_0000_0000 /* 72.0 */)) * a - lit(0x404E_8000_0000_0000 /* 61.0 */)))
        * c1 + (((lit(0x4039_0000_0000_0000 /* 25.0 */) * a
        - lit(0x4068_6000_0000_0000 /* 195.0 */)) * a + lit(0x407D_D000_0000_0000 /* 477.0 */))
        * a - lit(0x4077_B000_0000_0000 /* 379.0 */)) / lit(0x4028_0000_0000_0000 /* 12.0 */));
    (((c5 / y + c4) / y + c3) / y + c2) / y + c1 + y
}

/// The asymptotic expansion in the inverse logarithm.
#[verifier::when_used_as_spec(log_expansion_spec)]
pub fn log_expansion(a: F64, s: F64, z: F64, y: F64) -> (r: F64)
    ensures
        r == log_expansion(a, s, z, y),
{
    proof {
        reveal(log_expansion_spec);
    }
    let c1 = s.negated() * z;
    let c2 = s.negated() * (lit(ONE) + c1);
    let c3 = s * ((lit(HALF) * c1 + (lit(TWO) - a)) * c1
        + (lit(0x4004_0000_0000_0000 /* 2.5 */) - lit(0x3FF8_0000_0000_0000 /* 1.5 */) * a));
    let c4 = s.negated() * (((c1 / lit(THREE) + (lit(0x4004_0000_0000_0000 /* 2.5 */)
        - lit(0x3FF8_0000_0000_0000 /* 1.5 */) * a)) * c1
        + ((a - lit(0x4018_0000_0000_0000 /* 6.0 */)) * a + lit(0x401C_0000_0000_0000 /* 7.0 */)))
        * c1 + ((lit(0x4026_0000_0000_0000 /* 11.0 */) * a
        - lit(0x4047_0000_0000_0000 /* 46.0 */)) * a + lit(0x4047_8000_0000_0000 /* 47.0 */))
        / lit(0x4018_0000_0000_0000 /* 6.0 */));
    let c5 = s.negated() * ((((c1.negated() / lit(FOUR)
        + (lit(0x4026_0000_0000_0000 /* 11.0 */) * a - lit(0x4031_0000_0000_0000 /* 17.0 */))
        / lit(0x4018_0000_0000_0000 /* 6.0 */)) * c1
        + ((lit(0xC008_0000_0000_0000 /* -3.0 */) * a + lit(0x402A_0000_0000_0000 /* 13.0 */)) * a
        - lit(0x402A_0000_0000_0000 /* 13.0 */))) * c1
        + lit(HALF) * (((lit(TWO) * a - lit(0x4039_0000_0000_0000 /* 25.0 */)) * a
        + lit(0x4052_0000_0000_0000 /* 72.0 */)) * a - lit(0x404E_8000_0000_0000 /* 61.0 */)))
        * c1 + (((lit(0x4039_0000_0000_0000 /* 25.0 */) * a
        - lit(0x4068_6000_0000_0000 /* 195.0 */)) * a + lit(0x407D_D000_0000_0000 /* 477.0 */))
        * a - lit(0x4077_B000_0000_0000 /* 379.0 */)) / lit(0x4028_0000_0000_0000 /* 12.0 */));
    (((c5 / y + c4) / y + c3) / y + c2) / y + c1 + y
}

/// 0.577215664901533
pub const EULER: u64 = 0x3FE2_788C_FC6F_B61A;

#[verifier::opaque]
pub open spec fn initial_approx_small_b_spec<M: Fn(Elementary) -> F64>(
    m: &M,
    a: F64,
    p: F64,
    q: F64,
    g: F64,
    b: F64,
) -> F64 {
    let xn = if (b * q).le(lit(0x3E45_798E_E230_8C3A /* 1.0e-8 */)) {
        exp(m, (q / a + lit(EULER)).negated())
    } else if p.gt(lit(0x3FEC_CCCC_CCCC_CCCD /* 0.9 */)) {
        exp(m, (alnrel(m, q.negated()) + gamma_ln1(a)) / a)
    } else {
        exp(m, ln(m, p * g) / a)
    };
    if xn.equals(lit(ZERO)) {
        lit(ZERO)
    } else {
        let t = lit(HALF) + (lit(HALF) - xn / (a + lit(ONE)));
        xn / t
    }
}

/// A first approximation for `a < 1` and an upper ratio that is not small.
#[verifier::when_used_as_spec(initial_approx_small_b_spec)]
pub fn initial_approx_small_b<M: Fn(Elementary) -> F64>(
    m: &M,
    a: F64,
    p: F64,
    q: F64,
    g: F64,
    b: F64,
) -> (r: F64)
    requires
        lawful(m),
    ensures
        r == initial_approx_small_b(m, a, p, q, g, b),
{
    proof {
        reveal(initial_approx_small_b_spec);
    }
    let xn = if (b * q).le(lit(0x3E45_798E_E230_8C3A /* 1.0e-8 */)) {
        exp(m, (q / a + lit(EULER)).negated())
    } else if p.gt(lit(0x3FEC_CCCC_CCCC_CCCD /* 0.9 */)) {
        exp(m, (alnrel(m, q.negated()) + gamma_ln1(a)) / a)
    } else {
        exp(m, ln(m, p * g) / a)
    };
    if xn.equals(lit(ZERO)) {
        lit(ZERO)
    } else {
        let t = lit(HALF) + (lit(HALF) - xn / (a + lit(ONE)));
        xn / t
    }
}

pub open spec fn power_sum_spec(xn: F64, apn: F64, t: F64, sum: F64, n: u64) -> F64
    decreases n,
{
    if n == 0 {
        lit(NAN)
    } else {
        let apn1 = apn + lit(ONE);
        let t1 = t * (xn / apn1);
        let sum1 = sum + t1;
        if t1.le(lit(0x3F1A_36E2_EB1C_432D /* 1.0e-4 */)) {
            sum1
        } else {
            power_sum_spec(xn, apn1, t1, sum1, (n - 1) as u64)
        }
    }
}

/// The series `1 + xn/ap1 + ...`, up to a term of at most a ten-thousandth.
#[verifier::when_used_as_spec(power_sum_spec)]
pub fn power_sum(xn: F64, apn_init: F64, t_init: F64, sum_init: F64, n: u64) -> (r: F64)
    ensures
        r == power_sum(xn, apn_init, t_init, sum_init, n),
{
    let mut apn = apn_init;
    let mut t = t_init;
    let mut sum = sum_init;
    let mut left: u64 = n;
    while left > 0
        invariant
            left <= n,
            power_sum(xn, apn_init, t_init, sum_init, n)
                == power_sum(xn, apn, t, sum, left),
        decreases left,
    {
        let apn1 = apn + lit(ONE);
        let t1 = t * (xn / apn1);
        let sum1 = sum + t1;
        if t1.le(lit(0x3F1A_36E2_EB1C_432D /* 1.0e-4 */)) {
            return sum1;
        } else {
            let next_apn = apn1;
            let next_t = t1;
            let next_sum = sum1;
            apn = next_apn;
            t = next_t;
            sum = next_sum;
        }
        left = left - 1;
    }
    lit(NAN)
}

#[verifier::opaque]
pub open spec fn fixed_point_spec<M: Fn(Elementary) -> F64>(
    m: &M,
    a: F64,
    w: F64,
    x_initial: F64,
) -> F64 {
    let ap1 = a + lit(ONE);
    let ap2 = a + lit(TWO);
    let ap3 = a + lit(THREE);
    let x0 = exp(m, (w + x_initial) / a);
    let x1 = exp(m, (w + x0 - ln(m, lit(ONE) + x0 / ap1 * (lit(ONE) + x0 / ap2))) / a);
    let x2 = exp(m, (w + x1 - ln(m, lit(ONE) + x1 / ap1 * (lit(ONE) + x1 / ap2))) / a);
    exp(m, (w + x2 - ln(m, lit(ONE) + x2 / ap1 * (lit(ONE) + x2 / ap2 * (lit(ONE) + x2 / ap3))))
        / a)
}

/// Three rounds of the fixed-point equation for small `x`.
#[verifier::when_used_as_spec(fixed_point_spec)]
pub fn fixed_point<M: Fn(Elementary) -> F64>(m: &M, a: F64, w: F64, x_initial: F64) -> (r: F64)
    requires
        lawful(m),
    ensures
        r == fixed_point(m, a, w, x_initial),
{
    proof {
        reveal(fixed_point_spec);
    }
    let ap1 = a + lit(ONE);
    let ap2 = a + lit(TWO);
    let ap3 = a + lit(THREE);
    let x0 = exp(m, (w + x_initial) / a);
    let x1 = exp(m, (w + x0 - ln(m, lit(ONE) + x0 / ap1 * (lit(ONE) + x0 / ap2))) / a);
    let x2 = exp(m, (w + x1 - ln(m, lit(ONE) + x1 / ap1 * (lit(ONE) + x1 / ap2))) / a);
    exp(m, (w + x2 - ln(m, lit(ONE) + x2 / ap1 * (lit(ONE) + x2 / ap2 * (lit(ONE) + x2 / ap3))))
        / a)
}

#[verifier::opaque]
pub open spec fn series_step_spec<M: Fn(Elementary) -> F64>(m: &M, a: F64, w: F64, xn: F64) -> F64 {
    let ap1 = a + lit(ONE);
    let t = xn / ap1;
    let v = w - ln(m, power_sum(xn, ap1, t, lit(ONE) + t, PATIENCE));
    let x = exp(m, (xn + v) / a);
    x * (lit(ONE) - (a * ln(m, x) - x - v) / (a - x))
}

/// One correction by the full series.
#[verifier::when_used_as_spec(series_step_spec)]
pub fn series_step<M: Fn(Elementary) -> F64>(m: &M, a: F64, w: F64, xn: F64) -> (r: F64)
    requires
        lawful(m),
    ensures
        r == series_step(m, a, w, xn),
{
    proof {
        reveal(series_step_spec);
    }
    let ap1 = a + lit(ONE);
    let t = xn / ap1;
    let v = w - ln(m, power_sum(xn, ap1, t, lit(ONE) + t, PATIENCE));
    let x = exp(m, (xn + v) / a);
    x * (lit(ONE) - (a * ln(m, x) - x - v) / (a - x))
}

#[verifier::opaque]
pub open spec fn improve_lower_spec<M: Fn(Elementary) -> F64>(
    m: &M,
    a: F64,
    p: F64,
    xn0: F64,
    x_initial: F64,
    emin: F64,
) -> (F64, bool) {
    let ap1 = a + lit(ONE);
    let w = ln(m, p) + gamma_log(m, ap1);
    if (lit(0x3FE6_6666_6666_6666 /* 0.70 */) * ap1).lt(xn0) {
        (xn0, false)
    } else if xn0.le(lit(0x3FC3_3333_3333_3333 /* 0.15 */) * ap1) {
        let xn = fixed_point(m, a, w, x_initial);
        if xn.le(lit(0x3F84_7AE1_47AE_147B /* 1.0e-2 */) * ap1) {
            (xn, xn.le(emin * ap1))
        } else {
            (series_step(m, a, w, xn), false)
        }
    } else {
        (series_step(m, a, w, xn0), false)
    }
}

/// Improves a first approximation for a lower ratio of at most one half; whether it
/// is the answer already.
#[verifier::when_used_as_spec(improve_lower_spec)]
pub fn improve_lower<M: Fn(Elementary) -> F64>(
    m: &M,
    a: F64,
    p: F64,
    xn0: F64,
    x_initial: F64,
    emin: F64,
) -> (r: (F64, bool))
    requires
        lawful(m),
    ensures
        r == improve_lower(m, a, p, xn0, x_initial, emin),
{
    proof {
        reveal(improve_lower_spec);
    }
    let ap1 = a + lit(ONE);
    let w = ln(m, p) + gamma_log(m, ap1);
    if (lit(0x3FE6_6666_6666_6666 /* 0.70 */) * ap1).lt(xn0) {
        (xn0, false)
    } else if xn0.le(lit(0x3FC3_3333_3333_3333 /* 0.15 */) * ap1) {
        let xn = fixed_point(m, a, w, x_initial);
        if xn.le(lit(0x3F84_7AE1_47AE_147B /* 1.0e-2 */) * ap1) {
            (xn, xn.le(emin * ap1))
        } else {
            (series_step(m, a, w, xn), false)
        }
    } else {
        (series_step(m, a, w, xn0), false)
    }
}

#[verifier::opaque]
pub open spec fn start_below_one_spec<M: Fn(Elementary) -> F64>(
    m: &M,
    a: F64,
    p: F64,
    q: F64,
) -> InverseStart {
    let g = gamma_value(m, a + lit(ONE));
    let qg = q * g;
    let b = qg / a;
    if qg.equals(lit(ZERO)) {
        InverseStart::Settled(Err(GammaIncInvError::UncertainAccuracy { value: lit(MAX) }))
    } else if (lit(0x3FE3_3333_3333_3333 /* 0.6 */) * a).lt(qg)
        || (b.ge(lit(0x3FDC_CCCC_CCCC_CCCD /* 0.45 */))
        && !(a.lt(lit(0x3FD3_3333_3333_3333 /* 0.30 */))
        && b.ge(lit(0x3FD6_6666_6666_6666 /* 0.35 */)))) {
        let xn = initial_approx_small_b(m, a, p, q, g, b);
        if xn.equals(lit(ZERO)) {
            InverseStart::Settled(Err(GammaIncInvError::NoSolution))
        } else {
            InverseStart::Refine { xn, use_q: p.gt(lit(HALF)) }
        }
    } else if a.lt(lit(0x3FD3_3333_3333_3333 /* 0.30 */))
        && b.ge(lit(0x3FD6_6666_6666_6666 /* 0.35 */)) {
        let t = exp(m, (b + lit(EULER)).negated());
        let u = t * exp(m, t);
        InverseStart::Refine { xn: t * exp(m, u), use_q: p.gt(lit(HALF)) }
    } else if b.equals(lit(ZERO)) {
        InverseStart::Settled(Err(GammaIncInvError::UncertainAccuracy { value: lit(MAX) }))
    } else {
        let y = ln(m, b).negated();
        let s = lit(HALF) + (lit(HALF) - a);
        let z = ln(m, y);
        let t = y - s * z;
        if b.ge(lit(0x3FC3_3333_3333_3333 /* 0.15 */)) {
            InverseStart::Refine { xn: y - s * ln(m, t)
                - ln(m, lit(ONE) + s / (t + lit(ONE))), use_q: true }
        } else if b.gt(lit(0x3F84_7AE1_47AE_147B /* 0.01 */)) {
            let u = ((t + lit(TWO) * (lit(THREE) - a)) * t + (lit(TWO) - a) * (lit(THREE) - a))
                / ((t + (lit(FIVE) - a)) * t + lit(TWO));
            InverseStart::Refine { xn: y - s * ln(m, t) - ln(m, u), use_q: true }
        } else if lit(0x3A1F_B0F6_BE50_6019 /* 1.0e-28 */).lt(b) {
            InverseStart::Refine { xn: log_expansion(a, s, z, y), use_q: true }
        } else {
            InverseStart::Settled(Ok(log_expansion(a, s, z, y)))
        }
    }
}

/// A first approximation for `a < 1`.
#[verifier::when_used_as_spec(start_below_one_spec)]
pub fn start_below_one<M: Fn(Elementary) -> F64>(m: &M, a: F64, p: F64, q: F64) -> (r: InverseStart)
    requires
        lawful(m),
    ensures
        r == start_below_one(m, a, p, q),
{
    proof {
        reveal(start_below_one_spec);
    }
    let g = gamma_value(m, a + lit(ONE));
    let qg = q * g;
    let b = qg / a;
    if qg.equals(lit(ZERO)) {
        InverseStart::Settled(Err(GammaIncInvError::UncertainAccuracy { value: lit(MAX) }))
    } else if (lit(0x3FE3_3333_3333_3333 /* 0.6 */) * a).lt(qg)
        || (b.ge(lit(0x3FDC_CCCC_CCCC_CCCD /* 0.45 */))
        && !(a.lt(lit(0x3FD3_3333_3333_3333 /* 0.30 */))
        && b.ge(lit(0x3FD6_6666_6666_6666 /* 0.35 */)))) {
        let xn = initial_approx_small_b(m, a, p, q, g, b);
        if xn.equals(lit(ZERO)) {
            InverseStart::Settled(Err(GammaIncInvError::NoSolution))
        } else {
            InverseStart::Refine { xn, use_q: p.gt(lit(HALF)) }
        }
    } else if a.lt(lit(0x3FD3_3333_3333_3333 /* 0.30 */))
        && b.ge(lit(0x3FD6_6666_6666_6666 /* 0.35 */)) {
        let t = exp(m, (b + lit(EULER)).negated());
        let u = t * exp(m, t);
        InverseStart::Refine { xn: t * exp(m, u), use_q: p.gt(lit(HALF)) }
    } else if b.equals(lit(ZERO)) {
        InverseStart::Settled(Err(GammaIncInvError::UncertainAccuracy { value: lit(MAX) }))
    } else {
        let y = ln(m, b).negated();
        let s = lit(HALF) + (lit(HALF) - a);
        let z = ln(m, y);
        let t = y - s * z;
        if b.ge(lit(0x3FC3_3333_3333_3333 /* 0.15 */)) {
            InverseStart::Refine { xn: y - s * ln(m, t)
                - ln(m, lit(ONE) + s / (t + lit(ONE))), use_q: true }
        } else if b.gt(lit(0x3F84_7AE1_47AE_147B /* 0.01 */)) {
            let u = ((t + lit(TWO) * (lit(THREE) - a)) * t + (lit(TWO) - a) * (lit(THREE) - a))
                / ((t + (lit(FIVE) - a)) * t + lit(TWO));
            InverseStart::Refine { xn: y - s * ln(m, t) - ln(m, u), use_q: true }
        } else if lit(0x3A1F_B0F6_BE50_6019 /* 1.0e-28 */).lt(b) {
            InverseStart::Refine { xn: log_expansion(a, s, z, y), use_q: true }
        } else {
            InverseStart::Settled(Ok(log_expansion(a, s, z, y)))
        }
    }
}

/// 3.31125922108741
pub const A0: u64 = 0x400A_7D75_7979_30DD;

/// 11.6616720288968
pub const A1: u64 = 0x4027_52C6_AD19_9457;

/// 4.28342155967104
pub const A2: u64 = 0x4011_2239_42E7_12DF;

/// 0.213623493715853
pub const A3: u64 = 0x3FCB_5803_BF95_5B59;

/// 6.61053765625462
pub const B1: u64 = 0x401A_7130_C88A_5C3F;

/// 6.40691597760039
pub const B2: u64 = 0x4019_A0AE_9500_0DDE;

/// 1.27364489782223
pub const B3: u64 = 0x3FF4_60D9_78ED_D1E0;

/// 0.036117081018842
pub const B4: u64 = 0x3FA2_7DF0_239B_16DB;

/// 2.302585
pub const LN10: u64 = 0x4002_6BB1_AF3A_14CF;

#[verifier::opaque]
pub open spec fn cornish_fisher_spec(a: F64, q: F64, w: F64) -> F64 {
    let t = (lit(0xC000_0000_0000_0000 /* -2.0 */) * w).sqrt();
    let r = t - (((lit(A3) * t + lit(A2)) * t + lit(A1)) * t + lit(A0))
        / ((((lit(B4) * t + lit(B3)) * t + lit(B2)) * t + lit(B1)) * t + lit(ONE));
    let s = if q.gt(lit(HALF)) {
        r.negated()
    } else {
        r
    };
    let rta = a.sqrt();
    let s2 = s * s;
    let xn = a + s * rta + (s2 - lit(ONE)) / lit(THREE)
        + s * (s2 - lit(0x401C_0000_0000_0000 /* 7.0 */))
        / (lit(0x4042_0000_0000_0000 /* 36.0 */) * rta)
        - ((lit(THREE) * s2 + lit(0x401C_0000_0000_0000 /* 7.0 */)) * s2
        - lit(0x4030_0000_0000_0000 /* 16.0 */)) / (lit(0x4089_5000_0000_0000 /* 810.0 */) * a)
        + s * ((lit(0x4022_0000_0000_0000 /* 9.0 */) * s2
        + lit(0x4070_0000_0000_0000 /* 256.0 */)) * s2 - lit(0x407B_1000_0000_0000 /* 433.0 */))
        / (lit(0x40E2_FC00_0000_0000 /* 38880.0 */) * a * rta);
    xn.max(lit(ZERO))
}

/// The Cornish-Fisher approximation for `a > 1`, from the logarithm `w` of the
/// smaller ratio.
#[verifier::when_used_as_spec(cornish_fisher_spec)]
pub fn cornish_fisher(a: F64, q: F64, w: F64) -> (r: F64)
    ensures
        r == cornish_fisher(a, q, w),
{
    proof {
        reveal(cornish_fisher_spec);
    }
    let t = (lit(0xC000_0000_0000_0000 /* -2.0 */) * w).sqrt();
    let r = t - (((lit(A3) * t + lit(A2)) * t + lit(A1)) * t + lit(A0))
        / ((((lit(B4) * t + lit(B3)) * t + lit(B2)) * t + lit(B1)) * t + lit(ONE));
    let s = if q.gt(lit(HALF)) {
        r.negated()
    } else {
        r
    };
    let rta = a.sqrt();
    let s2 = s * s;
    let xn = a + s * rta + (s2 - lit(ONE)) / lit(THREE)
        + s * (s2 - lit(0x401C_0000_0000_0000 /* 7.0 */))
        / (lit(0x4042_0000_0000_0000 /* 36.0 */) * rta)
        - ((lit(THREE) * s2 + lit(0x401C_0000_0000_0000 /* 7.0 */)) * s2
        - lit(0x4030_0000_0000_0000 /* 16.0 */)) / (lit(0x4089_5000_0000_0000 /* 810.0 */) * a)
        + s * ((lit(0x4022_0000_0000_0000 /* 9.0 */) * s2
        + lit(0x4070_0000_0000_0000 /* 256.0 */)) * s2 - lit(0x407B_1000_0000_0000 /* 433.0 */))
        / (lit(0x40E2_FC00_0000_0000 /* 38880.0 */) * a * rta);
    xn.max(lit(ZERO))
}

#[verifier::opaque]
pub open spec fn start_in_tail_spec<M: Fn(Elementary) -> F64>(
    m: &M,
    a: F64,
    w: F64,
    xn0: F64,
) -> F64 {
    let y = (w + gamma_log(m, a)).negated();
    let d = lit(TWO).max(a * (a - lit(ONE)));
    if (lit(LN10) * d).le(y) {
        log_expansion(a, lit(ONE) - a, ln(m, y), y)
    } else {
        let t = a - lit(ONE);
        let xn1 = y + t * ln(m, xn0) - alnrel(m, t.negated() / (xn0 + lit(ONE)));
        y + t * ln(m, xn1) - alnrel(m, t.negated() / (xn1 + lit(ONE)))
    }
}

/// A first approximation for `a > 1` and an upper ratio far out in the tail.
#[verifier::when_used_as_spec(start_in_tail_spec)]
pub fn start_in_tail<M: Fn(Elementary) -> F64>(m: &M, a: F64, w: F64, xn0: F64) -> (r: F64)
    requires
        lawful(m),
    ensures
        r == start_in_tail(m, a, w, xn0),
{
    proof {
        reveal(start_in_tail_spec);
    }
    let y = (w + gamma_log(m, a)).negated();
    let d = lit(TWO).max(a * (a - lit(ONE)));
    if (lit(LN10) * d).le(y) {
        log_expansion(a, lit(ONE) - a, ln(m, y), y)
    } else {
        let t = a - lit(ONE);
        let xn1 = y + t * ln(m, xn0) - alnrel(m, t.negated() / (xn0 + lit(ONE)));
        y + t * ln(m, xn1) - alnrel(m, t.negated() / (xn1 + lit(ONE)))
    }
}

#[verifier::opaque]
pub open spec fn start_above_one_spec<M: Fn(Elementary) -> F64>(
    m: &M,
    a: F64,
    p: F64,
    q: F64,
) -> InverseStart {
    let w = if q.gt(lit(HALF)) {
        ln(m, p)
    } else {
        ln(m, q)
    };
    let xn0 = cornish_fisher(a, q, w);
    if lit(0x407F_4000_0000_0000 /* 500.0 */).le(a)
        && (lit(HALF) + (lit(HALF) - xn0 / a)).abs().le(lit(0x3EB0_C6F7_A0B5_ED8D /* 1.0e-6 */)) {
        InverseStart::Settled(Ok(xn0))
    } else if p.le(lit(HALF)) {
        let (xn, found) = improve_lower(m, a, p, xn0,
            if lit(0x407F_4000_0000_0000 /* 500.0 */).le(a) {
            xn0
        } else {
            lit(ZERO)
        }, lit(0x3F60_624D_D2F1_A9FC /* 2.0e-3 */));
        if found {
            InverseStart::Settled(Ok(xn))
        } else {
            InverseStart::Refine { xn, use_q: false }
        }
    } else if xn0.lt(lit(THREE) * a) {
        InverseStart::Refine { xn: xn0, use_q: true }
    } else {
        InverseStart::Refine { xn: start_in_tail(m, a, w, xn0), use_q: true }
    }
}

/// A first approximation for `a > 1`.
#[verifier::when_used_as_spec(start_above_one_spec)]
pub fn start_above_one<M: Fn(Elementary) -> F64>(m: &M, a: F64, p: F64, q: F64) -> (r: InverseStart)
    requires
        lawful(m),
    ensures
        r == start_above_one(m, a, p, q),
{
    proof {
        reveal(start_above_one_spec);
    }
    let w = if q.gt(lit(HALF)) {
        ln(m, p)
    } else {
        ln(m, q)
    };
    let xn0 = cornish_fisher(a, q, w);
    if lit(0x407F_4000_0000_0000 /* 500.0 */).le(a)
        && (lit(HALF) + (lit(HALF) - xn0 / a)).abs().le(lit(0x3EB0_C6F7_A0B5_ED8D /* 1.0e-6 */)) {
        InverseStart::Settled(Ok(xn0))
    } else if p.le(lit(HALF)) {
        let (xn, found) = improve_lower(m, a, p, xn0,
            if lit(0x407F_4000_0000_0000 /* 500.0 */).le(a) {
            xn0
        } else {
            lit(ZERO)
        }, lit(0x3F60_624D_D2F1_A9FC /* 2.0e-3 */));
        if found {
            InverseStart::Settled(Ok(xn))
        } else {
            InverseStart::Refine { xn, use_q: false }
        }
    } else if xn0.lt(lit(THREE) * a) {
        InverseStart::Refine { xn: xn0, use_q: true }
    } else {
        InverseStart::Refine { xn: start_in_tail(m, a, w, xn0), use_q: true }
    }
}

#[verifier::opaque]
pub open spec fn too_close_spec(a: F64, xn: F64) -> bool {
    (lit(0x3DC5_FD7F_E179_6495 /* 0.4e-10 */) / (lit(EPSILON) * lit(EPSILON))).lt(a)
        && (lit(HALF) + (lit(HALF) - xn / a)).abs().le(lit(TWO) * lit(EPSILON))
}

/// `x` is so close to a huge `a` that the ratios cannot be told apart.
#[verifier::when_used_as_spec(too_close_spec)]
pub fn too_close(a: F64, xn: F64) -> (r: bool)
    ensures
        r == too_close(a, xn),
{
    proof {
        reveal(too_close_spec);
    }
    (lit(0x3DC5_FD7F_E179_6495 /* 0.4e-10 */) / (lit(EPSILON) * lit(EPSILON))).lt(a)
        && (lit(HALF) + (lit(HALF) - xn / a)).abs().le(lit(TWO) * lit(EPSILON))
}

pub open spec fn schroder_spec<M: Fn(Elementary) -> F64>(
    m: &M,
    a: F64,
    use_q: bool,
    target: F64,
    xn: F64,
    n: u64,
) -> Result<(F64, u32), GammaIncInvError>
    decreases n,
{
    if n == 0 {
        if too_close(a, xn) {
            Err(GammaIncInvError::UncertainAccuracy { value: xn })
        } else {
            Err(GammaIncInvError::NotConverged { partial: xn })
        }
    } else {
        let k = if n <= 20 {
            (21 - n) as u32
        } else {
            0
        };
        if too_close(a, xn) {
            Err(GammaIncInvError::UncertainAccuracy { value: xn })
        } else {
            match try_gamma_inc(m, a, xn) {
                Err(_) => Err(GammaIncInvError::UncertainAccuracy { value: xn }),
                Ok((pn,  qn)) => {
                    let r = rcomp(m, a, xn);
                    let got = if use_q {
                        qn
                    } else {
                        pn
                    };
                    let off = if use_q {
                        target - qn
                    } else {
                        pn - target
                    };
                    let t = off / r;
                    let w = lit(HALF) * (a - lit(HALF) - lit(HALF) - xn);
                    let small: bool = t.abs().le(lit(0x3FB9_9999_9999_999A /* 0.1 */))
                        && (w * t).abs().le(lit(0x3FB9_9999_9999_999A /* 0.1 */));
                    let h = if small {
                        t * (lit(ONE) + w * t)
                    } else {
                        t
                    };
                    let x = xn * (lit(ONE) - h);
                    if pn.equals(lit(ZERO)) || qn.equals(lit(ZERO)) || r.equals(lit(ZERO)) {
                        Err(GammaIncInvError::UncertainAccuracy { value: xn })
                    } else if x.le(lit(ZERO)) {
                        Err(GammaIncInvError::IterationFailed)
                    } else if small && w.abs().ge(lit(ONE))
                        && (w.abs() * t * t).le(lit(0x3DDB_7CDF_D9D7_BDBB /* 1.0e-10 */)) {
                        Ok((x, k))
                    } else if h.abs().le(lit(0x3EE4_F8B5_88E3_68F1 /* 1.0e-5 */))
                        && (h.abs().le(lit(0x3DDB_7CDF_D9D7_BDBB /* 1.0e-10 */))
                        || (target - got).abs().le(lit(0x3EE4_F8B5_88E3_68F1 /* 1.0e-5 */)
                        * target)) {
                        Ok((x, k))
                    } else {
                        schroder_spec(m, a, use_q, target, x, (n - 1) as u64)
                    }
                },
            }
        }
    }
}

/// Up to `n` Schroeder steps. `use_q` says which ratio is matched, and `target` is
/// its value.
#[verifier::when_used_as_spec(schroder_spec)]
pub fn schroder<M: Fn(Elementary) -> F64>(
    m: &M,
    a: F64,
    use_q: bool,
    target: F64,
    xn_init: F64,
    n: u64,
) -> (r: Result<(F64, u32), GammaIncInvError>)
    requires
        lawful(m),
    ensures
        r == schroder(m, a, use_q, target, xn_init, n),
        n <= 20 ==> (r matches Ok((x, k)) ==> 1 <= k <= 20),
{
    let mut xn = xn_init;
    let mut left: u64 = n;
    while left > 0
        invariant
            lawful(m),
            left <= n,
            schroder(m, a, use_q, target, xn_init, n)
                == schroder(m, a, use_q, target, xn, left),
        decreases left,
    {
        let k: u32 = if left <= 20 {
            (21 - left) as u32
        } else {
            0
        };
        if too_close(a, xn) {
            return Err(GammaIncInvError::UncertainAccuracy { value: xn });
        } else {
            match try_gamma_inc(m, a, xn) {
                Err(_) => return Err(GammaIncInvError::UncertainAccuracy { value: xn }),
                Ok((pn,  qn)) => {
                    let r = rcomp(m, a, xn);
                    let got = if use_q {
                        qn
                    } else {
                        pn
                    };
                    let off = if use_q {
                        target - qn
                    } else {
                        pn - target
                    };
                    let t = off / r;
                    let w = lit(HALF) * (a - lit(HALF) - lit(HALF) - xn);
                    let small: bool = t.abs().le(lit(0x3FB9_9999_9999_999A /* 0.1 */))
                        && (w * t).abs().le(lit(0x3FB9_9999_9999_999A /* 0.1 */));
                    let h = if small {
                        t * (lit(ONE) + w * t)
                    } else {
                        t
                    };
                    let x = xn * (lit(ONE) - h);
                    if pn.equals(lit(ZERO)) || qn.equals(lit(ZERO)) || r.equals(lit(ZERO)) {
                        return Err(GammaIncInvError::UncertainAccuracy { value: xn });
                    } else if x.le(lit(ZERO)) {
                        return Err(GammaIncInvError::IterationFailed);
                    } else if small && w.abs().ge(lit(ONE))
                        && (w.abs() * t * t).le(lit(0x3DDB_7CDF_D9D7_BDBB /* 1.0e-10 */)) {
                        return Ok((x, k));
                    } else if h.abs().le(lit(0x3EE4_F8B5_88E3_68F1 /* 1.0e-5 */))
                        && (h.abs().le(lit(0x3DDB_7CDF_D9D7_BDBB /* 1.0e-10 */))
                        || (target - got).abs().le(lit(0x3EE4_F8B5_88E3_68F1 /* 1.0e-5 */)
                        * target)) {
                        return Ok((x, k));
                    } else {
                        let next_xn = x;
                        xn = next_xn;
                    }
                },
            }
        }
        left = left - 1;
    }
    if too_close(a, xn) {
        Err(GammaIncInvError::UncertainAccuracy { value: xn })
    } else {
        Err(GammaIncInvError::NotConverged { partial: xn })
    }
}

pub open spec fn schroder_p_spec<M: Fn(Elementary) -> F64>(
    m: &M,
    a: F64,
    xn0: F64,
    p: F64,
) -> Result<(F64, u32), GammaIncInvError> {
    if p.le(lit(0x4202_A05F_2000_0000 /* 1.0e10 */) * lit(MIN_POSITIVE)) {
        Err(GammaIncInvError::UncertainAccuracy { value: xn0 })
    } else {
        schroder(m, a, false, p, xn0, 20)
    }
}

/// Refines by the lower ratio.
#[verifier::when_used_as_spec(schroder_p_spec)]
pub fn schroder_p<M: Fn(Elementary) -> F64>(
    m: &M,
    a: F64,
    xn0: F64,
    p: F64,
) -> (r: Result<(F64, u32), GammaIncInvError>)
    requires
        lawful(m),
    ensures
        r == schroder_p(m, a, xn0, p),
        r matches Ok((x, k)) ==> 1 <= k <= 20,
{
    if p.le(lit(0x4202_A05F_2000_0000 /* 1.0e10 */) * lit(MIN_POSITIVE)) {
        Err(GammaIncInvError::UncertainAccuracy { value: xn0 })
    } else {
        schroder(m, a, false, p, xn0, 20)
    }
}

pub open spec fn schroder_q_spec<M: Fn(Elementary) -> F64>(
    m: &M,
    a: F64,
    xn0: F64,
    q: F64,
) -> Result<(F64, u32), GammaIncInvError> {
    if q.le(lit(0x4202_A05F_2000_0000 /* 1.0e10 */) * lit(MIN_POSITIVE)) {
        Err(GammaIncInvError::UncertainAccuracy { value: xn0 })
    } else {
        schroder(m, a, true, q, xn0, 20)
    }
}

/// Refines by the upper ratio.
#[verifier::when_used_as_spec(schroder_q_spec)]
pub fn schroder_q<M: Fn(Elementary) -> F64>(
    m: &M,
    a: F64,
    xn0: F64,
    q: F64,
) -> (r: Result<(F64, u32), GammaIncInvError>)
    requires
        lawful(m),
    ensures
        r == schroder_q(m, a, xn0, q),
        r matches Ok((x, k)) ==> 1 <= k <= 20,
{
    if q.le(lit(0x4202_A05F_2000_0000 /* 1.0e10 */) * lit(MIN_POSITIVE)) {
        Err(GammaIncInvError::UncertainAccuracy { value: xn0 })
    } else {
        schroder(m, a, true, q, xn0, 20)
    }
}

pub open spec fn reported_spec(
    supplied: bool,
    outcome: Result<(F64, u32), GammaIncInvError>,
) -> Result<(F64, u32), GammaIncInvError> {
    match outcome {
        Err(GammaIncInvError::NotConverged { partial }) => if supplied {
            Err(GammaIncInvError::NotConverged { partial })
        } else {
            Err(GammaIncInvError::UncertainAccuracy { value: partial })
        },
        other => other,
    }
}

/// The outcome as it is reported: steps that do not converge are a failure of the
/// starting point only where one was supplied.
#[verifier::when_used_as_spec(reported_spec)]
pub fn reported(
    supplied: bool,
    outcome: Result<(F64, u32), GammaIncInvError>,
) -> (r: Result<(F64, u32), GammaIncInvError>)
    ensures
        r == reported(supplied, outcome),
{
    match outcome {
        Err(GammaIncInvError::NotConverged { partial }) => if supplied {
            Err(GammaIncInvError::NotConverged { partial })
        } else {
            Err(GammaIncInvError::UncertainAccuracy { value: partial })
        },
        other => other,
    }
}

pub open spec fn try_gamma_inc_inv_spec<M: Fn(Elementary) -> F64>(
    m: &M,
    a: F64,
    x0: F64,
    p: F64,
    q: F64,
) -> Result<(F64, u32), GammaIncInvError> {
    if a.le(lit(ZERO)) {
        Err(GammaIncInvError::ANotPositive(a))
    } else if (p + q - lit(ONE)).abs().gt(lit(EPSILON)) {
        Err(GammaIncInvError::InconsistentPq)
    } else if p.equals(lit(ZERO)) {
        Ok((lit(ZERO), 0))
    } else if q.equals(lit(ZERO)) {
        Err(GammaIncInvError::AtInfinity)
    } else if a.equals(lit(ONE)) {
        if q.ge(lit(0x3FEC_CCCC_CCCC_CCCD /* 0.9 */)) {
            Ok((alnrel(m, p.negated()).negated(), 0))
        } else {
            Ok((ln(m, q).negated(), 0))
        }
    } else {
        let start = if x0.gt(lit(ZERO)) {
            InverseStart::Refine { xn: x0, use_q: p.gt(lit(HALF)) }
        } else if a.lt(lit(ONE)) {
            start_below_one(m, a, p, q)
        } else {
            start_above_one(m, a, p, q)
        };
        let outcome = match start {
            InverseStart::Settled(Ok(x)) => Ok((x, 0)),
            InverseStart::Settled(Err(e)) => Err(e),
            InverseStart::Refine { xn,  use_q } => {
                if use_q {
                    schroder_q(m, a, xn, q)
                } else {
                    schroder_p(m, a, xn, p)
                }
            },
        };
        reported(x0.gt(lit(ZERO)), outcome)
    }
}

/// The argument at which the ratios are `p` and `q`, with the number of steps taken.
/// A positive `x0` is where to start.
#[verifier::when_used_as_spec(try_gamma_inc_inv_spec)]
pub fn try_gamma_inc_inv<M: Fn(Elementary) -> F64>(
    m: &M,
    a: F64,
    x0: F64,
    p: F64,
    q: F64,
) -> (r: Result<(F64, u32), GammaIncInvError>)
    requires
        lawful(m),
    ensures
        r == try_gamma_inc_inv(m, a, x0, p, q),
        !x0.gt(lit(ZERO)) ==> !(r matches Err(GammaIncInvError::NotConverged { .. })),
        r matches Ok((x, k)) ==> k <= 20,
{
    if a.le(lit(ZERO)) {
        Err(GammaIncInvError::ANotPositive(a))
    } else if (p + q - lit(ONE)).abs().gt(lit(EPSILON)) {
        Err(GammaIncInvError::InconsistentPq)
    } else if p.equals(lit(ZERO)) {
        Ok((lit(ZERO), 0))
    } else if q.equals(lit(ZERO)) {
        Err(GammaIncInvError::AtInfinity)
    } else if a.equals(lit(ONE)) {
        if q.ge(lit(0x3FEC_CCCC_CCCC_CCCD /* 0.9 */)) {
            Ok((alnrel(m, p.negated()).negated(), 0))
        } else {
            Ok((ln(m, q).negated(), 0))
        }
    } else {
        let start = if x0.gt(lit(ZERO)) {
            InverseStart::Refine { xn: x0, use_q: p.gt(lit(HALF)) }
        } else if a.lt(lit(ONE)) {
            start_below_one(m, a, p, q)
        } else {
            start_above_one(m, a, p, q)
        };
        let outcome = match start {
            InverseStart::Settled(Ok(x)) => Ok((x, 0)),
            InverseStart::Settled(Err(e)) => Err(e),
            InverseStart::Refine { xn,  use_q } => {
                if use_q {
                    schroder_q(m, a, xn, q)
                } else {
                    schroder_p(m, a, xn, p)
                }
            },
        };
        reported(x0.gt(lit(ZERO)), outcome)
    }
}

/// The inverse with the number of steps taken; NaN where an argument is NaN.
pub fn gamma_inc_inv<M: Fn(Elementary) -> F64>(m: &M, a: F64, x0: F64, p: F64, q: F64) -> (r: (F64, u32))
    requires
        lawful(m),
        a.is_nan() || x0.is_nan() || p.is_nan() || q.is_nan() || try_gamma_inc_inv(m, a, x0, p, q) is Ok,
    ensures
        a.is_nan() || x0.is_nan() || p.is_nan() || q.is_nan() ==> r == (lit(NAN), 0u32),
        !(a.is_nan() || x0.is_nan() || p.is_nan() || q.is_nan()) ==> try_gamma_inc_inv(m, a, x0, p, q) == Ok::<
            (F64, u32),
            GammaIncInvError,
        >(r),
{
    if a.is_nan() || x0.is_nan() || p.is_nan() || q.is_nan() {
        return (lit(NAN), 0);
    }
    match try_gamma_inc_inv(m, a, x0, p, q) {
        Ok(found) => found,
        Err(_) => (lit(NAN), 0),
    }
}

} // verus!
