//! Starting value for the quantiles of Student's t distribution.
use crate::consts::{FIVE, FOUR, HALF, ONE, THREE};
use super::normal::dinvnr;
use super::poly::{eval_pol, horner};
use crate::float::{lit, F64};
use crate::functions::{lawful, Elementary};
use vstd::prelude::*;

verus! {

#[verifier::opaque]
pub open spec fn dt1_spec<M: Fn(Elementary) -> F64>(m: &M, p: F64, q: F64, df: F64) -> F64 {
    let x = dinvnr(m, p, q).abs();
    let xx = x * x;
    let d1 = lit(ONE) * df;
    let d2 = d1 * df;
    let d3 = d2 * df;
    let d4 = d3 * df;
    let s1 = x + horner(seq![lit(ONE), lit(ONE)], xx) * x / (d1 * lit(FOUR));
    let s2 = s1 + horner(seq![lit(THREE), lit(0x4030_0000_0000_0000 /* 16.0 */), lit(FIVE)], xx)
        * x / (d2 * lit(0x4058_0000_0000_0000 /* 96.0 */));
    let s3 = s2 + horner(seq![lit(0xC02E_0000_0000_0000 /* -15.0 */),
        lit(0x4031_0000_0000_0000 /* 17.0 */), lit(0x4033_0000_0000_0000 /* 19.0 */), lit(THREE)],
        xx) * x / (d3 * lit(0x4078_0000_0000_0000 /* 384.0 */));
    let s4 = s3 + horner(seq![lit(0xC08D_8800_0000_0000 /* -945.0 */),
        lit(0xC09E_0000_0000_0000 /* -1920.0 */), lit(0x4097_2800_0000_0000 /* 1482.0 */),
        lit(0x4088_4000_0000_0000 /* 776.0 */), lit(0x4053_C000_0000_0000 /* 79.0 */)], xx) * x
        / (d4 * lit(0x40F6_8000_0000_0000 /* 92160.0 */));
    if p.ge(lit(HALF)) {
        s4
    } else {
        s4.negated()
    }
}

/// An asymptotic approximation to the quantile of Student's t distribution.
#[verifier::when_used_as_spec(dt1_spec)]
pub fn dt1<M: Fn(Elementary) -> F64>(m: &M, p: F64, q: F64, df: F64) -> (r: F64)
    requires
        lawful(m),
    ensures
        r == dt1(m, p, q, df),
{
    proof {
        reveal(dt1_spec);
    }
    let x = dinvnr(m, p, q).abs();
    let xx = x * x;
    let d1 = lit(ONE) * df;
    let d2 = d1 * df;
    let d3 = d2 * df;
    let d4 = d3 * df;
    let s1 = x + eval_pol(&[lit(ONE), lit(ONE)], xx) * x / (d1 * lit(FOUR));
    let s2 = s1 + eval_pol(&[lit(THREE), lit(0x4030_0000_0000_0000 /* 16.0 */), lit(FIVE)], xx)
        * x / (d2 * lit(0x4058_0000_0000_0000 /* 96.0 */));
    let s3 = s2 + eval_pol(&[lit(0xC02E_0000_0000_0000 /* -15.0 */),
        lit(0x4031_0000_0000_0000 /* 17.0 */), lit(0x4033_0000_0000_0000 /* 19.0 */), lit(THREE)],
        xx) * x / (d3 * lit(0x4078_0000_0000_0000 /* 384.0 */));
    let s4 = s3 + eval_pol(&[lit(0xC08D_8800_0000_0000 /* -945.0 */),
        lit(0xC09E_0000_0000_0000 /* -1920.0 */), lit(0x4097_2800_0000_0000 /* 1482.0 */),
        lit(0x4088_4000_0000_0000 /* 776.0 */), lit(0x4053_C000_0000_0000 /* 79.0 */)], xx) * x
        / (d4 * lit(0x40F6_8000_0000_0000 /* 92160.0 */));
    if p.ge(lit(HALF)) {
        s4
    } else {
        s4.negated()
    }
}

} // verus!
