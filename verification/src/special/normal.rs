//! The normal distribution function, its inverse and its tail.
use crate::consts::{EPSILON, FIVE, HALF, MIN_POSITIVE, ONE, ZERO};
use super::gamma::alnrel;
use super::poly::{eval_pol, horner};
use crate::float::{lit, F64};
use crate::functions::{exp, lawful, ln, Elementary};
use vstd::prelude::*;

verus! {

/// 2.2352520354606839287e00
pub const A0: u64 = 0x4001_E1CB_D1B4_F7F3;

/// 1.6102823106855587881e02
pub const A1: u64 = 0x4064_20E7_44D7_85B7;

/// 1.0676894854603709582e03
pub const A2: u64 = 0x4090_AEC2_0879_FD71;

/// 1.8154981253343561249e04
pub const A3: u64 = 0x40D1_BABE_CCDA_D2EC;

/// 6.5682337918207449113e-2
pub const A4: u64 = 0x3FB0_D08E_C548_94E1;

/// 4.7202581904688241870e01
pub const B0: u64 = 0x4047_99EE_342F_B2DE;

/// 9.7609855173777669322e02
pub const B1: u64 = 0x408E_80C9_D57E_55B8;

/// 1.0260932208618978205e04
pub const B2: u64 = 0x40C4_0A77_529C_ADC8;

/// 4.5507789335026729956e04
pub const B3: u64 = 0x40E6_3879_423B_87AD;

/// 3.9894151208813466764e-1
pub const C0: u64 = 0x3FD9_8841_FADB_DC66;

/// 8.8831497943883759412e00
pub const C1: u64 = 0x4021_C42C_35B8_BC02;

/// 9.3506656132177855979e01
pub const C2: u64 = 0x4057_606D_0DD7_8164;

/// 5.9727027639480026226e02
pub const C3: u64 = 0x4082_AA29_86AB_A462;

/// 2.4945375852903726711e03
pub const C4: u64 = 0x40A3_7D13_3E61_11EC;

/// 6.8481904505362823326e03
pub const C5: u64 = 0x40BA_C030_C15D_C8D7;

/// 1.1602651437647350124e04
pub const C6: u64 = 0x40C6_A953_624F_0F60;

/// 9.8427148383839780218e03
pub const C7: u64 = 0x40C3_395B_7FD2_FC8E;

/// 1.0765576773720192317e-8
pub const C8: u64 = 0x3E47_1E70_3C5F_5815;

/// 2.2266688044328115691e01
pub const D0: u64 = 0x4036_4445_AAEC_9F9B;

/// 2.3538790178262499861e02
pub const D1: u64 = 0x406D_6C69_B0FF_CDE7;

/// 1.5193775994075548050e03
pub const D2: u64 = 0x4097_BD82_A96B_49BF;

/// 6.4855582982667607550e03
pub const D3: u64 = 0x40B9_558E_ECA2_9D27;

/// 1.8615571640885098091e04
pub const D4: u64 = 0x40D2_2DE4_95C3_A6A3;

/// 3.4900952721145977266e04
pub const D5: u64 = 0x40E1_0A9E_7CB1_0E86;

/// 3.8912003286093271411e04
pub const D6: u64 = 0x40E3_0000_1AEB_6FE4;

/// 1.9685429676859990727e04
pub const D7: u64 = 0x40D3_395B_7FD3_5F61;

/// 2.1589853405795699e-1
pub const P0: u64 = 0x3FCB_A290_2B84_421C;

/// 1.274011611602473639e-1
pub const P1: u64 = 0x3FC0_4EAE_6653_ED94;

/// 2.2235277870649807e-2
pub const P2: u64 = 0x3F96_C4D8_3D16_707A;

/// 1.421619193227893466e-3
pub const P3: u64 = 0x3F57_4AB3_FC4E_4F8B;

/// 2.9112874951168792e-5
pub const P4: u64 = 0x3EFE_86ED_886D_C483;

/// 2.307344176494017303e-2
pub const P5: u64 = 0x3F97_A090_7725_74DA;

/// 1.28426009614491121e00
pub const Q0: u64 = 0x3FF4_8C54_5088_00DB;

/// 4.68238212480865118e-1
pub const Q1: u64 = 0x3FDD_F79D_6855_F0AD;

/// 6.59881378689285515e-2
pub const Q2: u64 = 0x3FB0_E499_3E12_2C39;

/// 3.78239633202758244e-3
pub const Q3: u64 = 0x3F6E_FC42_917D_7DE7;

/// 7.29751555083966205e-5
pub const Q4: u64 = 0x3F13_2147_A014_BAD1;

/// 0.39894228040143267794
pub const SQRPI: u64 = 0x3FD9_8845_33D4_3651;

/// 0.66291
pub const THRSH: u64 = 0x3FE5_368F_0846_1F9F;

/// 5.656854248
pub const ROOT32: u64 = 0x4016_A09E_6665_983E;

#[verifier::opaque]
pub open spec fn central_spec(x: F64, y: F64) -> F64 {
    let xsq = if y.gt(lit(HALF) * lit(EPSILON)) {
        x * x
    } else {
        lit(ZERO)
    };
    let xnum = (((lit(A4) * xsq + lit(A0)) * xsq + lit(A1)) * xsq + lit(A2)) * xsq;
    let xden = (((xsq + lit(B0)) * xsq + lit(B1)) * xsq + lit(B2)) * xsq;
    x * (xnum + lit(A3)) / (xden + lit(B3))
}

/// The distance of the distribution function from one half, near the middle.
#[verifier::when_used_as_spec(central_spec)]
pub fn central(x: F64, y: F64) -> (r: F64)
    ensures
        r == central(x, y),
{
    proof {
        reveal(central_spec);
    }
    let xsq = if y.gt(lit(HALF) * lit(EPSILON)) {
        x * x
    } else {
        lit(ZERO)
    };
    let xnum = (((lit(A4) * xsq + lit(A0)) * xsq + lit(A1)) * xsq + lit(A2)) * xsq;
    let xden = (((xsq + lit(B0)) * xsq + lit(B1)) * xsq + lit(B2)) * xsq;
    x * (xnum + lit(A3)) / (xden + lit(B3))
}

#[verifier::opaque]
pub open spec fn shoulder_spec(y: F64) -> F64 {
    let xnum = (((((((lit(C8) * y + lit(C0)) * y + lit(C1)) * y + lit(C2)) * y + lit(C3)) * y
        + lit(C4)) * y + lit(C5)) * y + lit(C6)) * y;
    let xden = (((((((y + lit(D0)) * y + lit(D1)) * y + lit(D2)) * y + lit(D3)) * y + lit(D4)) * y
        + lit(D5)) * y + lit(D6)) * y;
    (xnum + lit(C7)) / (xden + lit(D7))
}

/// The smaller tail, divided by the density's exponential, at a middling distance.
#[verifier::when_used_as_spec(shoulder_spec)]
pub fn shoulder(y: F64) -> (r: F64)
    ensures
        r == shoulder(y),
{
    proof {
        reveal(shoulder_spec);
    }
    let xnum = (((((((lit(C8) * y + lit(C0)) * y + lit(C1)) * y + lit(C2)) * y + lit(C3)) * y
        + lit(C4)) * y + lit(C5)) * y + lit(C6)) * y;
    let xden = (((((((y + lit(D0)) * y + lit(D1)) * y + lit(D2)) * y + lit(D3)) * y + lit(D4)) * y
        + lit(D5)) * y + lit(D6)) * y;
    (xnum + lit(C7)) / (xden + lit(D7))
}

#[verifier::opaque]
pub open spec fn far_spec(x: F64, y: F64) -> F64 {
    let xsq = lit(ONE) / (x * x);
    let xnum = ((((lit(P5) * xsq + lit(P0)) * xsq + lit(P1)) * xsq + lit(P2)) * xsq + lit(P3))
        * xsq;
    let xden = ((((xsq + lit(Q0)) * xsq + lit(Q1)) * xsq + lit(Q2)) * xsq + lit(Q3)) * xsq;
    let r = xsq * (xnum + lit(P4)) / (xden + lit(Q4));
    (lit(SQRPI) - r) / y
}

/// The smaller tail, divided by the density's exponential, far out.
#[verifier::when_used_as_spec(far_spec)]
pub fn far(x: F64, y: F64) -> (r: F64)
    ensures
        r == far(x, y),
{
    proof {
        reveal(far_spec);
    }
    let xsq = lit(ONE) / (x * x);
    let xnum = ((((lit(P5) * xsq + lit(P0)) * xsq + lit(P1)) * xsq + lit(P2)) * xsq + lit(P3))
        * xsq;
    let xden = ((((xsq + lit(Q0)) * xsq + lit(Q1)) * xsq + lit(Q2)) * xsq + lit(Q3)) * xsq;
    let r = xsq * (xnum + lit(P4)) / (xden + lit(Q4));
    (lit(SQRPI) - r) / y
}

#[verifier::opaque]
pub open spec fn split_exponential_spec<M: Fn(Elementary) -> F64>(m: &M, x: F64) -> F64 {
    let xsq = (x * lit(0x4030_0000_0000_0000 /* 16.0 */)).trunc()
        / lit(0x4030_0000_0000_0000 /* 16.0 */);
    let del = (x - xsq) * (x + xsq);
    exp(m, lit(0xBFE0_0000_0000_0000 /* -0.5 */) * xsq * xsq)
        * exp(m, lit(0xBFE0_0000_0000_0000 /* -0.5 */) * del)
}

/// The exponential of minus half the square, in two factors: the square of the
/// argument cut to sixteenths, and the rest.
#[verifier::when_used_as_spec(split_exponential_spec)]
pub fn split_exponential<M: Fn(Elementary) -> F64>(m: &M, x: F64) -> (r: F64)
    requires
        lawful(m),
    ensures
        r == split_exponential(m, x),
{
    proof {
        reveal(split_exponential_spec);
    }
    let xsq = (x * lit(0x4030_0000_0000_0000 /* 16.0 */)).trunc()
        / lit(0x4030_0000_0000_0000 /* 16.0 */);
    let del = (x - xsq) * (x + xsq);
    exp(m, lit(0xBFE0_0000_0000_0000 /* -0.5 */) * xsq * xsq)
        * exp(m, lit(0xBFE0_0000_0000_0000 /* -0.5 */) * del)
}

#[verifier::opaque]
pub open spec fn flush_spec(p: F64) -> F64 {
    if p.lt(lit(MIN_POSITIVE)) {
        lit(ZERO)
    } else {
        p
    }
}

/// A probability too small for a normal number is zero.
#[verifier::when_used_as_spec(flush_spec)]
pub fn flush(p: F64) -> (r: F64)
    ensures
        r == flush(p),
{
    proof {
        reveal(flush_spec);
    }
    if p.lt(lit(MIN_POSITIVE)) {
        lit(ZERO)
    } else {
        p
    }
}

#[verifier::opaque]
pub open spec fn cumnor_spec<M: Fn(Elementary) -> F64>(m: &M, x: F64) -> (F64, F64) {
    let y = x.abs();
    if y.le(lit(THRSH)) {
        let r = central(x, y);
        (flush(lit(HALF) + r), flush(lit(HALF) - r))
    } else {
        let tail = if y.le(lit(ROOT32)) {
            split_exponential(m, y) * shoulder(y)
        } else {
            split_exponential(m, x) * far(x, y)
        };
        if x.gt(lit(ZERO)) {
            (flush(lit(ONE) - tail), flush(tail))
        } else {
            (flush(tail), flush(lit(ONE) - tail))
        }
    }
}

/// The distribution function of the standard normal distribution, and its
/// complement.
#[verifier::when_used_as_spec(cumnor_spec)]
pub fn cumnor<M: Fn(Elementary) -> F64>(m: &M, x: F64) -> (r: (F64, F64))
    requires
        lawful(m),
    ensures
        r == cumnor(m, x),
{
    proof {
        reveal(cumnor_spec);
    }
    let y = x.abs();
    if y.le(lit(THRSH)) {
        let r = central(x, y);
        (flush(lit(HALF) + r), flush(lit(HALF) - r))
    } else {
        let tail = if y.le(lit(ROOT32)) {
            split_exponential(m, y) * shoulder(y)
        } else {
            split_exponential(m, x) * far(x, y)
        };
        if x.gt(lit(ZERO)) {
            (flush(lit(ONE) - tail), flush(tail))
        } else {
            (flush(tail), flush(lit(ONE) - tail))
        }
    }
}

/// 0.993484626060e-1
pub const XDEN0: u64 = 0x3FB9_6EE6_9DCC_F754;

/// 0.588581570495e0
pub const XDEN1: u64 = 0x3FE2_D5A9_0489_BD2F;

/// 0.531103462366e0
pub const XDEN2: u64 = 0x3FE0_FECC_B034_F054;

/// 0.103537752850e0
pub const XDEN3: u64 = 0x3FBA_8173_3E64_5F68;

/// 0.38560700634e-2
pub const XDEN4: u64 = 0x3F6F_96C3_DA07_4588;

/// -0.322232431088e0
pub const XNUM0: u64 = 0xBFD4_9F74_C64E_F237;

/// -1.000000000000e0
pub const XNUM1: u64 = 0xBFF0_0000_0000_0000;

/// -0.342242088547e0
pub const XNUM2: u64 = 0xBFD5_E74B_5C67_F146;

/// -0.204231210245e-1
pub const XNUM3: u64 = 0xBF94_E9CC_7387_A830;

/// -0.453642210148e-4
pub const XNUM4: u64 = 0xBF07_C8AE_C3ED_1A62;

#[verifier::opaque]
pub open spec fn stvaln_spec<M: Fn(Elementary) -> F64>(m: &M, p: F64) -> F64 {
    let z = if p.le(lit(HALF)) {
        p
    } else {
        lit(ONE) - p
    };
    let y = (lit(0xC000_0000_0000_0000 /* -2.0 */) * ln(m, z)).sqrt();
    let num = horner(seq![lit(XNUM0), lit(XNUM1), lit(XNUM2), lit(XNUM3), lit(XNUM4)], y);
    let den = horner(seq![lit(XDEN0), lit(XDEN1), lit(XDEN2), lit(XDEN3), lit(XDEN4)], y);
    if p.le(lit(HALF)) {
        lit(0xBFF0_0000_0000_0000 /* -1.0 */) * (y + num / den)
    } else {
        lit(ONE) * (y + num / den)
    }
}

/// A starting value for the inverse, good to about three digits.
#[verifier::when_used_as_spec(stvaln_spec)]
pub fn stvaln<M: Fn(Elementary) -> F64>(m: &M, p: F64) -> (r: F64)
    requires
        lawful(m),
    ensures
        r == stvaln(m, p),
{
    proof {
        reveal(stvaln_spec);
    }
    let z = if p.le(lit(HALF)) {
        p
    } else {
        lit(ONE) - p
    };
    let y = (lit(0xC000_0000_0000_0000 /* -2.0 */) * ln(m, z)).sqrt();
    let num = eval_pol(&[lit(XNUM0), lit(XNUM1), lit(XNUM2), lit(XNUM3), lit(XNUM4)], y);
    let den = eval_pol(&[lit(XDEN0), lit(XDEN1), lit(XDEN2), lit(XDEN3), lit(XDEN4)], y);
    if p.le(lit(HALF)) {
        lit(0xBFF0_0000_0000_0000 /* -1.0 */) * (y + num / den)
    } else {
        lit(ONE) * (y + num / den)
    }
}

/// 0.3989422804014326
pub const R2PI: u64 = 0x3FD9_8845_33D4_364F;

pub open spec fn newton_spec<M: Fn(Elementary) -> F64>(
    m: &M,
    pp: F64,
    strtx: F64,
    xcur: F64,
    n: u64,
) -> F64
    decreases n,
{
    if n == 0 {
        strtx
    } else {
        let cum = cumnor(m, xcur).0;
        let dennor = lit(R2PI) * exp(m, lit(0xBFE0_0000_0000_0000 /* -0.5 */) * xcur * xcur);
        let dx = (cum - pp) / dennor;
        let x = xcur - dx;
        if (dx / x).abs().lt(lit(0x3D3C_25C2_6849_7682 /* 1.0e-13 */)) {
            x
        } else {
            newton_spec(m, pp, strtx, x, (n - 1) as u64)
        }
    }
}

/// Newton steps from a starting value; the starting value itself where they do not
/// settle.
#[verifier::when_used_as_spec(newton_spec)]
pub fn newton<M: Fn(Elementary) -> F64>(
    m: &M,
    pp: F64,
    strtx: F64,
    xcur_init: F64,
    n: u64,
) -> (r: F64)
    requires
        lawful(m),
    ensures
        r == newton(m, pp, strtx, xcur_init, n),
{
    let mut xcur = xcur_init;
    let mut left: u64 = n;
    while left > 0
        invariant
            lawful(m),
            left <= n,
            newton(m, pp, strtx, xcur_init, n)
                == newton(m, pp, strtx, xcur, left),
        decreases left,
    {
        let cum = cumnor(m, xcur).0;
        let dennor = lit(R2PI) * exp(m, lit(0xBFE0_0000_0000_0000 /* -0.5 */) * xcur * xcur);
        let dx = (cum - pp) / dennor;
        let x = xcur - dx;
        if (dx / x).abs().lt(lit(0x3D3C_25C2_6849_7682 /* 1.0e-13 */)) {
            return x;
        } else {
            let next_xcur = x;
            xcur = next_xcur;
        }
        left = left - 1;
    }
    strtx
}

#[verifier::opaque]
pub open spec fn dinvnr_spec<M: Fn(Elementary) -> F64>(m: &M, p: F64, q: F64) -> F64 {
    let pp = if p.le(q) {
        p
    } else {
        q
    };
    let strtx = stvaln(m, pp);
    let x = newton(m, pp, strtx, strtx, 100);
    if p.le(q) {
        x
    } else {
        x.negated()
    }
}

/// The inverse of the standard normal distribution function, from both
/// probabilities.
#[verifier::when_used_as_spec(dinvnr_spec)]
pub fn dinvnr<M: Fn(Elementary) -> F64>(m: &M, p: F64, q: F64) -> (r: F64)
    requires
        lawful(m),
    ensures
        r == dinvnr(m, p, q),
{
    proof {
        reveal(dinvnr_spec);
    }
    let pp = if p.le(q) {
        p
    } else {
        q
    };
    let strtx = stvaln(m, pp);
    let x = newton(m, pp, strtx, strtx, 100);
    if p.le(q) {
        x
    } else {
        x.negated()
    }
}

/// -1.0
pub const COEF0: u64 = 0xBFF0_0000_0000_0000;

/// 3.0
pub const COEF1: u64 = 0x4008_0000_0000_0000;

/// -15.0
pub const COEF2: u64 = 0xC02E_0000_0000_0000;

/// 105.0
pub const COEF3: u64 = 0x405A_4000_0000_0000;

/// -945.0
pub const COEF4: u64 = 0xC08D_8800_0000_0000;

/// 10395.0
pub const COEF5: u64 = 0x40C4_4D80_0000_0000;

/// -135135.0
pub const COEF6: u64 = 0xC100_7EF8_0000_0000;

/// 2027025.0
pub const COEF7: u64 = 0x413E_EE11_0000_0000;

/// -34459425.0
pub const COEF8: u64 = 0xC180_6E79_0800_0000;

/// 654729075.0
pub const COEF9: u64 = 0x41C3_832F_B980_0000;

/// -13749310575.0
pub const COEF10: u64 = 0xC209_9C2E_A378_0000;

/// 316234143225.0
pub const COEF11: u64 = 0x4252_6841_857E_4000;

/// 0.91893853320467274177
pub const DLSQPI: u64 = 0x3FED_67F1_C864_BEB5;

#[verifier::opaque]
pub open spec fn dlanor_spec<M: Fn(Elementary) -> F64>(m: &M, x: F64) -> F64 {
    let xx = x.abs();
    let approx = lit(DLSQPI).negated() - lit(HALF) * x * x - ln(m, xx);
    let xx2 = xx * xx;
    let correc = horner(seq![lit(COEF0), lit(COEF1), lit(COEF2), lit(COEF3), lit(COEF4),
        lit(COEF5), lit(COEF6), lit(COEF7), lit(COEF8), lit(COEF9), lit(COEF10), lit(COEF11)],
        lit(ONE) / xx2) / xx2;
    approx + alnrel(m, correc)
}

/// The logarithm of the upper tail of the standard normal distribution, for an
/// argument of magnitude five or more.
#[verifier::when_used_as_spec(dlanor_spec)]
pub fn dlanor<M: Fn(Elementary) -> F64>(m: &M, x: F64) -> (r: F64)
    requires
        lawful(m),
        !x.abs().lt(lit(FIVE)),
    ensures
        r == dlanor(m, x),
{
    proof {
        reveal(dlanor_spec);
    }
    let xx = x.abs();
    let approx = lit(DLSQPI).negated() - lit(HALF) * x * x - ln(m, xx);
    let xx2 = xx * xx;
    let correc = eval_pol(&[lit(COEF0), lit(COEF1), lit(COEF2), lit(COEF3), lit(COEF4), lit(COEF5),
        lit(COEF6), lit(COEF7), lit(COEF8), lit(COEF9), lit(COEF10), lit(COEF11)], lit(ONE) / xx2)
        / xx2;
    approx + alnrel(m, correc)
}

} // verus!
