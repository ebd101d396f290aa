//! The error function and its complement.
use crate::consts::{FOUR, HALF, ONE, TWO, ZERO};
use crate::float::{lit, F64};
use crate::functions::{exp, lawful, Elementary};
use vstd::prelude::*;

verus! {

/// -708.389_334_568_083_540_9
pub const NEG_EXPARG: u64 = 0xC086_231D_5B71_28F8;

/// 7.71058495001320e-05
pub const A0: u64 = 0x3F14_367C_6861_3852;

/// -1.33733772997339e-03
pub const A1: u64 = 0xBF55_E933_7417_A2A8;

/// 3.23076579225834e-02
pub const A2: u64 = 0x3FA0_8AA1_1C60_2E02;

/// 4.79137145607681e-02
pub const A3: u64 = 0x3FA8_8825_7A23_0271;

/// 1.28379167095513e-01
pub const A4: u64 = 0x3FC0_6EBA_8214_DB78;

/// 3.01048631703895e-03
pub const B0: u64 = 0x3F68_A972_88DB_092F;

/// 5.38971687740286e-02
pub const B1: u64 = 0x3FAB_9868_E276_7FFE;

/// 3.75795757275549e-01
pub const B2: u64 = 0x3FD8_0D09_A5DE_569F;

/// -1.36864857382717e-07
pub const P0: u64 = 0xBE82_5EA4_045A_BDE7;

/// 5.64195517478974e-01
pub const P1: u64 = 0x3FE2_0DE3_C203_E757;

/// 7.21175825088309e+00
pub const P2: u64 = 0x401C_D8D7_27A8_CDDC;

/// 4.31622272220567e+01
pub const P3: u64 = 0x4045_94C3_DC92_A092;

/// 1.52989285046940e+02
pub const P4: u64 = 0x4063_1FA8_391D_60EF;

/// 3.39320816734344e+02
pub const P5: u64 = 0x4075_3522_10BA_6046;

/// 4.51918953711873e+02
pub const P6: u64 = 0x407C_3EB4_08CE_B084;

/// 3.00459261020162e+02
pub const P7: u64 = 0x4072_C759_2215_5EC6;

/// 1.00000000000000e+00
pub const Q0: u64 = 0x3FF0_0000_0000_0000;

/// 1.27827273196294e+01
pub const Q1: u64 = 0x4029_90C1_A29E_FCEF;

/// 7.70001529352295e+01
pub const Q2: u64 = 0x4053_4002_8174_F3C8;

/// 2.77585444743988e+02
pub const Q3: u64 = 0x4071_595D_FB4E_D0B2;

/// 6.38980264465631e+02
pub const Q4: u64 = 0x4083_F7D7_94E5_6A87;

/// 9.31354094850610e+02
pub const Q5: u64 = 0x408D_1AD5_2FAE_586A;

/// 7.90950925327898e+02
pub const Q6: u64 = 0x4088_B79B_7EBD_0214;

/// 3.00459260956983e+02
pub const Q7: u64 = 0x4072_C759_2204_6925;

/// 2.10144126479064e+00
pub const R0: u64 = 0x4000_CFC0_7015_ECE7;

/// 2.62370141675169e+01
pub const R1: u64 = 0x403A_3CAC_F5E2_2C7B;

/// 2.13688200555087e+01
pub const R2: u64 = 0x4035_5E6A_FDBC_84CE;

/// 4.65807828718470e+00
pub const R3: u64 = 0x4012_A1DF_4646_A9F7;

/// 2.82094791773523e-01
pub const R4: u64 = 0x3FD2_0DD7_5042_826F;

/// 9.41537750555460e+01
pub const S0: u64 = 0x4057_89D7_7354_A0AF;

/// 1.87114811799590e+02
pub const S1: u64 = 0x4067_63AC_89CB_8DE3;

/// 9.90191814623914e+01
pub const S2: u64 = 0x4058_C13A_44E2_6A46;

/// 1.80124575948747e+01
pub const S3: u64 = 0x4032_0330_6BC2_92DB;

/// 0.564189583547756
pub const C: u64 = 0x3FE2_0DD7_5042_9B6A;

#[verifier::opaque]
pub open spec fn erf_near_spec(t: F64) -> F64 {
    let top = (((lit(A0) * t + lit(A1)) * t + lit(A2)) * t + lit(A3)) * t + lit(A4) + lit(ONE);
    let bot = ((lit(B0) * t + lit(B1)) * t + lit(B2)) * t + lit(ONE);
    top / bot
}

/// The error function divided by its argument, from the square of an argument of at
/// most one half.
#[verifier::when_used_as_spec(erf_near_spec)]
pub fn erf_near(t: F64) -> (r: F64)
    ensures
        r == erf_near(t),
{
    proof {
        reveal(erf_near_spec);
    }
    let top = (((lit(A0) * t + lit(A1)) * t + lit(A2)) * t + lit(A3)) * t + lit(A4) + lit(ONE);
    let bot = ((lit(B0) * t + lit(B1)) * t + lit(B2)) * t + lit(ONE);
    top / bot
}

#[verifier::opaque]
pub open spec fn erfc_middle_spec(ax: F64) -> F64 {
    let top = ((((((lit(P0) * ax + lit(P1)) * ax + lit(P2)) * ax + lit(P3)) * ax + lit(P4)) * ax
        + lit(P5)) * ax + lit(P6)) * ax + lit(P7);
    let bot = ((((((lit(Q0) * ax + lit(Q1)) * ax + lit(Q2)) * ax + lit(Q3)) * ax + lit(Q4)) * ax
        + lit(Q5)) * ax + lit(Q6)) * ax + lit(Q7);
    top / bot
}

/// The complement scaled by the exponential of the square, for a magnitude of at
/// most four.
#[verifier::when_used_as_spec(erfc_middle_spec)]
pub fn erfc_middle(ax: F64) -> (r: F64)
    ensures
        r == erfc_middle(ax),
{
    proof {
        reveal(erfc_middle_spec);
    }
    let top = ((((((lit(P0) * ax + lit(P1)) * ax + lit(P2)) * ax + lit(P3)) * ax + lit(P4)) * ax
        + lit(P5)) * ax + lit(P6)) * ax + lit(P7);
    let bot = ((((((lit(Q0) * ax + lit(Q1)) * ax + lit(Q2)) * ax + lit(Q3)) * ax + lit(Q4)) * ax
        + lit(Q5)) * ax + lit(Q6)) * ax + lit(Q7);
    top / bot
}

#[verifier::opaque]
pub open spec fn far_top_spec(t: F64) -> F64 {
    (((lit(R0) * t + lit(R1)) * t + lit(R2)) * t + lit(R3)) * t + lit(R4)
}

/// Numerator of the rational function in the inverse square.
#[verifier::when_used_as_spec(far_top_spec)]
pub fn far_top(t: F64) -> (r: F64)
    ensures
        r == far_top(t),
{
    proof {
        reveal(far_top_spec);
    }
    (((lit(R0) * t + lit(R1)) * t + lit(R2)) * t + lit(R3)) * t + lit(R4)
}

#[verifier::opaque]
pub open spec fn far_bot_spec(t: F64) -> F64 {
    (((lit(S0) * t + lit(S1)) * t + lit(S2)) * t + lit(S3)) * t + lit(ONE)
}

/// Denominator of the rational function in the inverse square.
#[verifier::when_used_as_spec(far_bot_spec)]
pub fn far_bot(t: F64) -> (r: F64)
    ensures
        r == far_bot(t),
{
    proof {
        reveal(far_bot_spec);
    }
    (((lit(S0) * t + lit(S1)) * t + lit(S2)) * t + lit(S3)) * t + lit(ONE)
}

#[verifier::opaque]
pub open spec fn erf_magnitude_spec<M: Fn(Elementary) -> F64>(m: &M, ax: F64, x: F64) -> F64 {
    if ax.le(lit(FOUR)) {
        let top = ((((((lit(P0) * ax + lit(P1)) * ax + lit(P2)) * ax + lit(P3)) * ax + lit(P4))
            * ax + lit(P5)) * ax + lit(P6)) * ax + lit(P7);
        let bot = ((((((lit(Q0) * ax + lit(Q1)) * ax + lit(Q2)) * ax + lit(Q3)) * ax + lit(Q4))
            * ax + lit(Q5)) * ax + lit(Q6)) * ax + lit(Q7);
        lit(HALF) + (lit(HALF) - exp(m, (x * x).negated()) * top / bot)
    } else {
        let x2 = x * x;
        let t = lit(ONE) / x2;
        let erf = (lit(C) - far_top(t) / (x2 * far_bot(t))) / ax;
        lit(HALF) + (lit(HALF) - exp(m, x2.negated()) * erf)
    }
}

/// The error function of a magnitude above one half, as a positive number.
#[verifier::when_used_as_spec(erf_magnitude_spec)]
pub fn erf_magnitude<M: Fn(Elementary) -> F64>(m: &M, ax: F64, x: F64) -> (r: F64)
    requires
        lawful(m),
    ensures
        r == erf_magnitude(m, ax, x),
{
    proof {
        reveal(erf_magnitude_spec);
    }
    if ax.le(lit(FOUR)) {
        let top = ((((((lit(P0) * ax + lit(P1)) * ax + lit(P2)) * ax + lit(P3)) * ax + lit(P4))
            * ax + lit(P5)) * ax + lit(P6)) * ax + lit(P7);
        let bot = ((((((lit(Q0) * ax + lit(Q1)) * ax + lit(Q2)) * ax + lit(Q3)) * ax + lit(Q4))
            * ax + lit(Q5)) * ax + lit(Q6)) * ax + lit(Q7);
        lit(HALF) + (lit(HALF) - exp(m, (x * x).negated()) * top / bot)
    } else {
        let x2 = x * x;
        let t = lit(ONE) / x2;
        let erf = (lit(C) - far_top(t) / (x2 * far_bot(t))) / ax;
        lit(HALF) + (lit(HALF) - exp(m, x2.negated()) * erf)
    }
}

#[verifier::opaque]
pub open spec fn error_f_spec<M: Fn(Elementary) -> F64>(m: &M, x: F64) -> F64 {
    let ax = x.abs();
    if ax.le(lit(HALF)) {
        x * erf_near(x * x)
    } else if ax.lt(lit(0x4017_3333_3333_3333 /* 5.8 */)) {
        let erf = erf_magnitude(m, ax, x);
        if x.lt(lit(ZERO)) {
            erf.negated()
        } else {
            erf
        }
    } else {
        x.signum()
    }
}

/// The error function.
#[verifier::when_used_as_spec(error_f_spec)]
pub fn error_f<M: Fn(Elementary) -> F64>(m: &M, x: F64) -> (r: F64)
    requires
        lawful(m),
    ensures
        r == error_f(m, x),
{
    proof {
        reveal(error_f_spec);
    }
    let ax = x.abs();
    if ax.le(lit(HALF)) {
        x * erf_near(x * x)
    } else if ax.lt(lit(0x4017_3333_3333_3333 /* 5.8 */)) {
        let erf = erf_magnitude(m, ax, x);
        if x.lt(lit(ZERO)) {
            erf.negated()
        } else {
            erf
        }
    } else {
        x.signum()
    }
}

#[verifier::opaque]
pub open spec fn erfc_finish_spec<M: Fn(Elementary) -> F64>(
    m: &M,
    x: F64,
    scaled: bool,
    erfc: F64,
) -> F64 {
    if scaled {
        if x.lt(lit(ZERO)) {
            lit(TWO) * exp(m, x * x) - erfc
        } else {
            erfc
        }
    } else {
        let e = erfc * exp(m, (x * x).negated());
        if x.lt(lit(ZERO)) {
            lit(TWO) - e
        } else {
            e
        }
    }
}

/// Brings a scaled value for a magnitude above one half to the sign and the scale
/// asked for.
#[verifier::when_used_as_spec(erfc_finish_spec)]
pub fn erfc_finish<M: Fn(Elementary) -> F64>(m: &M, x: F64, scaled: bool, erfc: F64) -> (r: F64)
    requires
        lawful(m),
    ensures
        r == erfc_finish(m, x, scaled, erfc),
{
    proof {
        reveal(erfc_finish_spec);
    }
    if scaled {
        if x.lt(lit(ZERO)) {
            lit(TWO) * exp(m, x * x) - erfc
        } else {
            erfc
        }
    } else {
        let e = erfc * exp(m, (x * x).negated());
        if x.lt(lit(ZERO)) {
            lit(TWO) - e
        } else {
            e
        }
    }
}

#[verifier::opaque]
pub open spec fn error_fc_inner_spec<M: Fn(Elementary) -> F64>(m: &M, x: F64, scaled: bool) -> F64 {
    let ax = x.abs();
    if ax.le(lit(HALF)) {
        let t = x * x;
        let erfc = lit(HALF) + (lit(HALF) - x * erf_near(t));
        if scaled {
            erfc * exp(m, t)
        } else {
            erfc
        }
    } else if ax.le(lit(FOUR)) {
        erfc_finish(m, x, scaled, erfc_middle(ax))
    } else if x.le(lit(0xC016_6666_6666_6666 /* -5.6 */)) {
        if scaled {
            lit(TWO) * exp(m, x * x)
        } else {
            lit(TWO)
        }
    } else if !scaled && (x.gt(lit(0x4059_0000_0000_0000 /* 100.0 */))
        || (x * x).gt(lit(NEG_EXPARG).negated())) {
        lit(ZERO)
    } else {
        let t = (lit(ONE) / x).squared();
        erfc_finish(m, x, scaled, (lit(C) - t * far_top(t) / far_bot(t)) / ax)
    }
}

/// The complementary error function, scaled or not.
#[verifier::when_used_as_spec(error_fc_inner_spec)]
pub fn error_fc_inner<M: Fn(Elementary) -> F64>(m: &M, x: F64, scaled: bool) -> (r: F64)
    requires
        lawful(m),
    ensures
        r == error_fc_inner(m, x, scaled),
{
    proof {
        reveal(error_fc_inner_spec);
    }
    let ax = x.abs();
    if ax.le(lit(HALF)) {
        let t = x * x;
        let erfc = lit(HALF) + (lit(HALF) - x * erf_near(t));
        if scaled {
            erfc * exp(m, t)
        } else {
            erfc
        }
    } else if ax.le(lit(FOUR)) {
        erfc_finish(m, x, scaled, erfc_middle(ax))
    } else if x.le(lit(0xC016_6666_6666_6666 /* -5.6 */)) {
        if scaled {
            lit(TWO) * exp(m, x * x)
        } else {
            lit(TWO)
        }
    } else if !scaled && (x.gt(lit(0x4059_0000_0000_0000 /* 100.0 */))
        || (x * x).gt(lit(NEG_EXPARG).negated())) {
        lit(ZERO)
    } else {
        let t = (lit(ONE) / x).squared();
        erfc_finish(m, x, scaled, (lit(C) - t * far_top(t) / far_bot(t)) / ax)
    }
}

#[verifier::opaque]
pub open spec fn error_fc_spec<M: Fn(Elementary) -> F64>(m: &M, x: F64) -> F64 {
    error_fc_inner(m, x, false)
}

/// The complementary error function, computed directly so that its small values
/// keep their digits.
#[verifier::when_used_as_spec(error_fc_spec)]
pub fn error_fc<M: Fn(Elementary) -> F64>(m: &M, x: F64) -> (r: F64)
    requires
        lawful(m),
    ensures
        r == error_fc(m, x),
{
    proof {
        reveal(error_fc_spec);
    }
    error_fc_inner(m, x, false)
}

#[verifier::opaque]
pub open spec fn error_fc_scaled_spec<M: Fn(Elementary) -> F64>(m: &M, x: F64) -> F64 {
    error_fc_inner(m, x, true)
}

/// The complementary error function times the exponential of the square.
#[verifier::when_used_as_spec(error_fc_scaled_spec)]
pub fn error_fc_scaled<M: Fn(Elementary) -> F64>(m: &M, x: F64) -> (r: F64)
    requires
        lawful(m),
    ensures
        r == error_fc_scaled(m, x),
{
    proof {
        reveal(error_fc_scaled_spec);
    }
    error_fc_inner(m, x, true)
}

} // verus!
