//! The incomplete gamma function ratios.
use crate::consts::{EPSILON, FIVE, HALF, NAN, ONE, PATIENCE, QUARTER, TEN, THREE, TWO, ZERO};
use super::erf::{error_f, error_fc, error_fc_scaled};
use super::gamma::{gam1, gamma_value, rexp, rlog, stirling_tail, RT2PIN};
use crate::float::{lit, F64};
use crate::functions::{exp, lawful, ln, Elementary};
use vstd::prelude::*;

verus! {

/// The accuracy asked for.
#[derive(Clone, Copy, Debug, PartialEq, Eq, Structural)]
pub enum GammaIncAcc {
    Max,
    Digits6,
    Digits3,
}

impl Default for GammaIncAcc {
    fn default() -> (r: GammaIncAcc)
        ensures
            r == GammaIncAcc::Max,
    {
        GammaIncAcc::Max
    }
}

/// Why the ratios have no value.
#[derive(Clone, Copy, Debug, PartialEq, Eq, Structural)]
pub enum GammaIncError {
    ANegative(F64),
    XNegative(F64),
    BothZero,
    /// Deep in the asymptotic regime, with `x` too close to `a`.
    Indeterminate { a: F64, x: F64 },
}

/// 1.0 / 3.0
pub const THIRD: u64 = 0x3FD5_5555_5555_5555;

/// 1.77245385090552
pub const RTPI: u64 = 0x3FFC_5BF8_91B4_EF7D;

/// 2.30258509299405
pub const ALOG10: u64 = 0x4002_6BB1_BBB5_551F;

/// 0.833333333333333e-1
pub const D0_0: u64 = 0x3FB5_5555_5555_5553;

/// -0.148148148148148e-1
pub const D0_1: u64 = 0xBF8E_573A_C901_E56B;

/// 0.115740740740741e-2
pub const D0_2: u64 = 0x3F52_F684_BDA1_2F74;

/// 0.352733686067019e-3
pub const D0_3: u64 = 0x3F37_1DE3_A556_C72C;

/// -0.178755144032922e-3
pub const D0_4: u64 = 0xBF27_6E06_FEC7_2742;

/// 0.391926317852244e-4
pub const D0_5: u64 = 0x3F04_8C58_92F7_CD86;

/// -0.218544851067999e-5
pub const D0_6: u64 = 0xBEC2_5537_0652_AFBC;

/// -0.185406221071516e-5
pub const D0_7: u64 = 0xBEBF_1B22_F594_C6B5;

/// 0.829671134095309e-6
pub const D0_8: u64 = 0x3EAB_D6D2_1E4B_410C;

/// -0.176659527368261e-6
pub const D0_9: u64 = 0xBE87_B5F9_A2D0_4664;

/// 0.670785354340150e-8
pub const D0_10: u64 = 0x3E3C_CF5C_EB7F_0DA1;

/// 0.102618097842403e-7
pub const D0_11: u64 = 0x3E46_097D_55C3_7C17;

/// -0.438203601845335e-8
pub const D0_12: u64 = 0xBE32_D219_7C7A_2FA6;

/// -0.347222222222222e-2
pub const D1_0: u64 = 0xBF6C_71C7_1C71_C717;

/// 0.264550264550265e-2
pub const D1_1: u64 = 0x3F65_AC05_6B01_5ACB;

/// -0.990226337448560e-3
pub const D1_2: u64 = 0xBF50_394F_6F09_E725;

/// 0.205761316872428e-3
pub const D1_3: u64 = 0x3F2A_F834_40E5_3DBD;

/// -0.401877572016461e-6
pub const D1_4: u64 = 0xBE9A_F834_40E5_3DBE;

/// -0.180985503344900e-4
pub const D1_5: u64 = 0xBEF2_FA4A_E89E_5AF7;

/// 0.764916091608111e-5
pub const D1_6: u64 = 0x3EE0_0A9C_ABD6_B83E;

/// -0.161209008945634e-5
pub const D1_7: u64 = 0xBEBB_0BDF_CC62_9CA4;

/// 0.464712780280743e-8
pub const D1_8: u64 = 0x3E33_F592_30A8_3577;

/// 0.137863344691572e-6
pub const D1_9: u64 = 0x3E82_80F2_CDE3_F844;

/// -0.575254560351770e-7
pub const D1_10: u64 = 0xBE6E_E23D_0CBA_8AE7;

/// 0.119516285997781e-7
pub const D1_11: u64 = 0x3E49_AA7A_30DE_112F;

/// -0.268132716049383e-2
pub const D2_0: u64 = 0xBF65_F726_8EDA_B4CE;

/// 0.771604938271605e-3
pub const D2_1: u64 = 0x3F49_48B0_FCD6_E9E1;

/// 0.200938786008230e-5
pub const D2_2: u64 = 0x3EC0_DB20_A88F_468B;

/// -0.107366532263652e-3
pub const D2_3: u64 = 0xBF1C_253E_FAA1_A950;

/// 0.529234488291201e-4
pub const D2_4: u64 = 0x3F0B_BF43_DAF4_FE4F;

/// -0.127606351886187e-4
pub const D2_5: u64 = 0xBEEA_C2D0_5890_F2B2;

/// 0.342357873409614e-7
pub const D2_6: u64 = 0x3E62_6154_AE39_1520;

/// 0.137219573090629e-5
pub const D2_7: u64 = 0x3EB7_0589_2966_3927;

/// -0.629899213838006e-6
pub const D2_8: u64 = 0xBEA5_22CB_0517_1916;

/// 0.142806142060642e-6
pub const D2_9: u64 = 0x3E83_2AC8_1C15_D3C7;

/// 0.229472093621399e-3
pub const D3_0: u64 = 0x3F2E_13CE_465F_A853;

/// -0.469189494395256e-3
pub const D3_1: u64 = 0xBF3E_BFB1_88B7_CA06;

/// 0.267720632062839e-3
pub const D3_2: u64 = 0x3F31_8B9B_5BF2_D987;

/// -0.756180167188398e-4
pub const D3_3: u64 = 0xBF13_D2A3_A29B_5D9F;

/// -0.239650511386730e-6
pub const D3_4: u64 = 0xBE90_152A_1871_F280;

/// 0.110826541153473e-4
pub const D3_5: u64 = 0x3EE7_3DF4_6220_4EF3;

/// -0.567495282699160e-5
pub const D3_6: u64 = 0xBED7_CD6F_27B3_F024;

/// 0.142309007324359e-5
pub const D3_7: u64 = 0x3EB7_E020_1539_3116;

/// 0.784039221720067e-3
pub const D4_0: u64 = 0x3F49_B0FF_6874_F2C8;

/// -0.299072480303190e-3
pub const D4_1: u64 = 0xBF33_999A_85A4_2377;

/// -0.146384525788434e-5
pub const D4_2: u64 = 0xBEB8_8F2A_E1DE_F9C7;

/// 0.664149821546512e-4
pub const D4_3: u64 = 0x3F11_6908_B48C_E057;

/// -0.396836504717943e-4
pub const D4_4: u64 = 0xBF04_CE3F_D902_BCA6;

/// 0.113757269706784e-4
pub const D4_5: u64 = 0x3EE7_DB4C_0284_6E76;

/// -0.697281375836586e-4
pub const D5_0: u64 = 0xBF12_4760_4839_C03A;

/// 0.277275324495939e-3
pub const D5_1: u64 = 0x3F32_2BE8_7360_EF1C;

/// -0.199325705161888e-3
pub const D5_2: u64 = 0xBF2A_2042_C514_8E16;

/// 0.679778047793721e-4
pub const D5_3: u64 = 0x3F11_D1E9_CB24_760C;

/// -0.592166437353694e-3
pub const D6_0: u64 = 0xBF43_6773_BDB9_7B49;

/// 0.270878209671804e-3
pub const D6_1: u64 = 0x3F31_C095_0D3E_CB94;

/// -0.185185185185185e-2
pub const D10: u64 = 0xBF5E_573A_C901_E56B;

/// 0.413359788359788e-2
pub const D20: u64 = 0x3F70_EE64_3B99_0EE2;

/// 0.649434156378601e-3
pub const D30: u64 = 0x3F45_47D9_3B34_E2B8;

/// -0.861888290916712e-3
pub const D40: u64 = 0xBF4C_3E0B_02DA_7BFC;

/// -0.336798553366358e-3
pub const D50: u64 = 0xBF36_128A_C5A4_FA6F;

/// 0.531307936463992e-3
pub const D60: u64 = 0x3F41_68EF_1B09_31C6;

/// 0.344367606892378e-3
pub const D70: u64 = 0x3F36_9187_9C01_EFBA;

#[verifier::opaque]
pub open spec fn correction_near_spec(z: F64, u: F64) -> F64 {
    let c0 = ((((((lit(D0_6) * z + lit(D0_5)) * z + lit(D0_4)) * z + lit(D0_3)) * z + lit(D0_2))
        * z + lit(D0_1)) * z + lit(D0_0)) * z - lit(THIRD);
    let c1 = (((((lit(D1_5) * z + lit(D1_4)) * z + lit(D1_3)) * z + lit(D1_2)) * z + lit(D1_1))
        * z + lit(D1_0)) * z + lit(D10);
    let c2 = ((((lit(D2_4) * z + lit(D2_3)) * z + lit(D2_2)) * z + lit(D2_1)) * z + lit(D2_0)) * z
        + lit(D20);
    let c3 = (((lit(D3_3) * z + lit(D3_2)) * z + lit(D3_1)) * z + lit(D3_0)) * z + lit(D30);
    let c4 = (lit(D4_1) * z + lit(D4_0)) * z + lit(D40);
    let c5 = (lit(D5_1) * z + lit(D5_0)) * z + lit(D50);
    let c6 = lit(D6_0) * z + lit(D60);
    ((((((lit(D70) * u + c6) * u + c5) * u + c4) * u + c3) * u + c2) * u + c1) * u + c0
}

/// The correction of the uniform expansion, to full accuracy and close to `x = a`.
#[verifier::when_used_as_spec(correction_near_spec)]
pub fn correction_near(z: F64, u: F64) -> (r: F64)
    ensures
        r == correction_near(z, u),
{
    proof {
        reveal(correction_near_spec);
    }
    let c0 = ((((((lit(D0_6) * z + lit(D0_5)) * z + lit(D0_4)) * z + lit(D0_3)) * z + lit(D0_2))
        * z + lit(D0_1)) * z + lit(D0_0)) * z - lit(THIRD);
    let c1 = (((((lit(D1_5) * z + lit(D1_4)) * z + lit(D1_3)) * z + lit(D1_2)) * z + lit(D1_1))
        * z + lit(D1_0)) * z + lit(D10);
    let c2 = ((((lit(D2_4) * z + lit(D2_3)) * z + lit(D2_2)) * z + lit(D2_1)) * z + lit(D2_0)) * z
        + lit(D20);
    let c3 = (((lit(D3_3) * z + lit(D3_2)) * z + lit(D3_1)) * z + lit(D3_0)) * z + lit(D30);
    let c4 = (lit(D4_1) * z + lit(D4_0)) * z + lit(D40);
    let c5 = (lit(D5_1) * z + lit(D5_0)) * z + lit(D50);
    let c6 = lit(D6_0) * z + lit(D60);
    ((((((lit(D70) * u + c6) * u + c5) * u + c4) * u + c3) * u + c2) * u + c1) * u + c0
}

#[verifier::opaque]
pub open spec fn correction_full_spec(z: F64, u: F64) -> F64 {
    let c0 = ((((((((((((lit(D0_12) * z + lit(D0_11)) * z + lit(D0_10)) * z + lit(D0_9)) * z
        + lit(D0_8)) * z + lit(D0_7)) * z + lit(D0_6)) * z + lit(D0_5)) * z + lit(D0_4)) * z
        + lit(D0_3)) * z + lit(D0_2)) * z + lit(D0_1)) * z + lit(D0_0)) * z - lit(THIRD);
    let c1 = (((((((((((lit(D1_11) * z + lit(D1_10)) * z + lit(D1_9)) * z + lit(D1_8)) * z
        + lit(D1_7)) * z + lit(D1_6)) * z + lit(D1_5)) * z + lit(D1_4)) * z + lit(D1_3)) * z
        + lit(D1_2)) * z + lit(D1_1)) * z + lit(D1_0)) * z + lit(D10);
    let c2 = (((((((((lit(D2_9) * z + lit(D2_8)) * z + lit(D2_7)) * z + lit(D2_6)) * z
        + lit(D2_5)) * z + lit(D2_4)) * z + lit(D2_3)) * z + lit(D2_2)) * z + lit(D2_1)) * z
        + lit(D2_0)) * z + lit(D20);
    let c3 = (((((((lit(D3_7) * z + lit(D3_6)) * z + lit(D3_5)) * z + lit(D3_4)) * z + lit(D3_3))
        * z + lit(D3_2)) * z + lit(D3_1)) * z + lit(D3_0)) * z + lit(D30);
    let c4 = (((((lit(D4_5) * z + lit(D4_4)) * z + lit(D4_3)) * z + lit(D4_2)) * z + lit(D4_1))
        * z + lit(D4_0)) * z + lit(D40);
    let c5 = (((lit(D5_3) * z + lit(D5_2)) * z + lit(D5_1)) * z + lit(D5_0)) * z + lit(D50);
    let c6 = (lit(D6_1) * z + lit(D6_0)) * z + lit(D60);
    ((((((lit(D70) * u + c6) * u + c5) * u + c4) * u + c3) * u + c2) * u + c1) * u + c0
}

/// The correction of the uniform expansion, to full accuracy.
#[verifier::when_used_as_spec(correction_full_spec)]
pub fn correction_full(z: F64, u: F64) -> (r: F64)
    ensures
        r == correction_full(z, u),
{
    proof {
        reveal(correction_full_spec);
    }
    let c0 = ((((((((((((lit(D0_12) * z + lit(D0_11)) * z + lit(D0_10)) * z + lit(D0_9)) * z
        + lit(D0_8)) * z + lit(D0_7)) * z + lit(D0_6)) * z + lit(D0_5)) * z + lit(D0_4)) * z
        + lit(D0_3)) * z + lit(D0_2)) * z + lit(D0_1)) * z + lit(D0_0)) * z - lit(THIRD);
    let c1 = (((((((((((lit(D1_11) * z + lit(D1_10)) * z + lit(D1_9)) * z + lit(D1_8)) * z
        + lit(D1_7)) * z + lit(D1_6)) * z + lit(D1_5)) * z + lit(D1_4)) * z + lit(D1_3)) * z
        + lit(D1_2)) * z + lit(D1_1)) * z + lit(D1_0)) * z + lit(D10);
    let c2 = (((((((((lit(D2_9) * z + lit(D2_8)) * z + lit(D2_7)) * z + lit(D2_6)) * z
        + lit(D2_5)) * z + lit(D2_4)) * z + lit(D2_3)) * z + lit(D2_2)) * z + lit(D2_1)) * z
        + lit(D2_0)) * z + lit(D20);
    let c3 = (((((((lit(D3_7) * z + lit(D3_6)) * z + lit(D3_5)) * z + lit(D3_4)) * z + lit(D3_3))
        * z + lit(D3_2)) * z + lit(D3_1)) * z + lit(D3_0)) * z + lit(D30);
    let c4 = (((((lit(D4_5) * z + lit(D4_4)) * z + lit(D4_3)) * z + lit(D4_2)) * z + lit(D4_1))
        * z + lit(D4_0)) * z + lit(D40);
    let c5 = (((lit(D5_3) * z + lit(D5_2)) * z + lit(D5_1)) * z + lit(D5_0)) * z + lit(D50);
    let c6 = (lit(D6_1) * z + lit(D6_0)) * z + lit(D60);
    ((((((lit(D70) * u + c6) * u + c5) * u + c4) * u + c3) * u + c2) * u + c1) * u + c0
}

#[verifier::opaque]
pub open spec fn correction_six_spec(z: F64, u: F64) -> F64 {
    let c0 = (((((lit(D0_5) * z + lit(D0_4)) * z + lit(D0_3)) * z + lit(D0_2)) * z + lit(D0_1))
        * z + lit(D0_0)) * z - lit(THIRD);
    let c1 = (((lit(D1_3) * z + lit(D1_2)) * z + lit(D1_1)) * z + lit(D1_0)) * z + lit(D10);
    let c2 = lit(D2_0) * z + lit(D20);
    (c2 * u + c1) * u + c0
}

/// The correction of the uniform expansion, to six digits.
#[verifier::when_used_as_spec(correction_six_spec)]
pub fn correction_six(z: F64, u: F64) -> (r: F64)
    ensures
        r == correction_six(z, u),
{
    proof {
        reveal(correction_six_spec);
    }
    let c0 = (((((lit(D0_5) * z + lit(D0_4)) * z + lit(D0_3)) * z + lit(D0_2)) * z + lit(D0_1))
        * z + lit(D0_0)) * z - lit(THIRD);
    let c1 = (((lit(D1_3) * z + lit(D1_2)) * z + lit(D1_1)) * z + lit(D1_0)) * z + lit(D10);
    let c2 = lit(D2_0) * z + lit(D20);
    (c2 * u + c1) * u + c0
}

#[verifier::opaque]
pub open spec fn complement_spec(p: F64) -> F64 {
    lit(HALF) + (lit(HALF) - p)
}

/// One ratio from the other.
#[verifier::when_used_as_spec(complement_spec)]
pub fn complement(p: F64) -> (r: F64)
    ensures
        r == complement(p),
{
    proof {
        reveal(complement_spec);
    }
    lit(HALF) + (lit(HALF) - p)
}

#[verifier::opaque]
pub open spec fn settled_spec(a: F64, x: F64) -> (F64, F64) {
    if x.le(a) {
        (lit(ZERO), lit(ONE))
    } else {
        (lit(ONE), lit(ZERO))
    }
}

/// All of the distribution lies on one side.
#[verifier::when_used_as_spec(settled_spec)]
pub fn settled(a: F64, x: F64) -> (r: (F64, F64))
    ensures
        r == settled(a, x),
{
    proof {
        reveal(settled_spec);
    }
    if x.le(a) {
        (lit(ZERO), lit(ONE))
    } else {
        (lit(ONE), lit(ZERO))
    }
}

#[verifier::opaque]
pub open spec fn temme_finish_spec(l: F64, c: F64, w: F64, t: F64, rta: F64) -> (F64, F64) {
    if l.lt(lit(ONE)) {
        let ans = c * (w - lit(RT2PIN) * t / rta);
        (ans, complement(ans))
    } else {
        let qans = c * (w + lit(RT2PIN) * t / rta);
        (complement(qans), qans)
    }
}

/// The ratios from the correction `t`, the exponential `c` and the complementary
/// error function `w`.
#[verifier::when_used_as_spec(temme_finish_spec)]
pub fn temme_finish(l: F64, c: F64, w: F64, t: F64, rta: F64) -> (r: (F64, F64))
    ensures
        r == temme_finish(l, c, w, t, rta),
{
    proof {
        reveal(temme_finish_spec);
    }
    if l.lt(lit(ONE)) {
        let ans = c * (w - lit(RT2PIN) * t / rta);
        (ans, complement(ans))
    } else {
        let qans = c * (w + lit(RT2PIN) * t / rta);
        (complement(qans), qans)
    }
}

#[verifier::opaque]
pub open spec fn temme_variable_spec(l: F64, z_in: F64) -> F64 {
    let z = (z_in + z_in).sqrt();
    if l.lt(lit(ONE)) {
        z.negated()
    } else {
        z
    }
}

/// The variable of the uniform expansion.
#[verifier::when_used_as_spec(temme_variable_spec)]
pub fn temme_variable(l: F64, z_in: F64) -> (r: F64)
    ensures
        r == temme_variable(l, z_in),
{
    proof {
        reveal(temme_variable_spec);
    }
    let z = (z_in + z_in).sqrt();
    if l.lt(lit(ONE)) {
        z.negated()
    } else {
        z
    }
}

#[verifier::opaque]
pub open spec fn temme_general_spec<M: Fn(Elementary) -> F64>(
    m: &M,
    a: F64,
    l: F64,
    z_in: F64,
    y: F64,
    rta: F64,
    e: F64,
    accuracy: GammaIncAcc,
) -> (F64, F64) {
    let s = lit(HALF) + (lit(HALF) - l);
    if s.abs().le(lit(TWO) * e) && lit(0x3F6A_DEA8_9763_5E74 /* 3.28e-3 */).lt(a * e * e) {
        (lit(TWO), lit(ZERO))
    } else {
        let c = exp(m, y.negated());
        let w = lit(HALF) * error_fc_scaled(m, y.sqrt());
        let u = lit(ONE) / a;
        let z = temme_variable(l, z_in);
        let t = match accuracy {
            GammaIncAcc::Max => {
                if s.abs().le(lit(0x3F50_624D_D2F1_A9FC /* 1.0e-3 */)) {
                    correction_near(z, u)
                } else {
                    correction_full(z, u)
                }
            },
            GammaIncAcc::Digits6 => correction_six(z, u),
            GammaIncAcc::Digits3 => ((lit(D0_2) * z + lit(D0_1)) * z + lit(D0_0)) * z - lit(THIRD),
        };
        temme_finish(l, c, w, t, rta)
    }
}

/// The uniform expansion for large `a`, with `l = x / a`. The first ratio is 2 where
/// `x` is too close to `a`.
#[verifier::when_used_as_spec(temme_general_spec)]
pub fn temme_general<M: Fn(Elementary) -> F64>(
    m: &M,
    a: F64,
    l: F64,
    z_in: F64,
    y: F64,
    rta: F64,
    e: F64,
    accuracy: GammaIncAcc,
) -> (r: (F64, F64))
    requires
        lawful(m),
    ensures
        r == temme_general(m, a, l, z_in, y, rta, e, accuracy),
{
    proof {
        reveal(temme_general_spec);
    }
    let s = lit(HALF) + (lit(HALF) - l);
    if s.abs().le(lit(TWO) * e) && lit(0x3F6A_DEA8_9763_5E74 /* 3.28e-3 */).lt(a * e * e) {
        (lit(TWO), lit(ZERO))
    } else {
        let c = exp(m, y.negated());
        let w = lit(HALF) * error_fc_scaled(m, y.sqrt());
        let u = lit(ONE) / a;
        let z = temme_variable(l, z_in);
        let t = match accuracy {
            GammaIncAcc::Max => {
                if s.abs().le(lit(0x3F50_624D_D2F1_A9FC /* 1.0e-3 */)) {
                    correction_near(z, u)
                } else {
                    correction_full(z, u)
                }
            },
            GammaIncAcc::Digits6 => correction_six(z, u),
            GammaIncAcc::Digits3 => ((lit(D0_2) * z + lit(D0_1)) * z + lit(D0_0)) * z - lit(THIRD),
        };
        temme_finish(l, c, w, t, rta)
    }
}

#[verifier::opaque]
pub open spec fn temme_for_l_eq_1_spec(
    a: F64,
    l: F64,
    z_in: F64,
    y: F64,
    e: F64,
    accuracy: GammaIncAcc,
) -> (F64, F64) {
    if lit(0x3F6A_DEA8_9763_5E74 /* 3.28e-3 */).lt(a * e * e) {
        (lit(TWO), lit(ZERO))
    } else {
        let c = lit(HALF) + (lit(HALF) - y);
        let w = (lit(HALF) - y.sqrt() * (lit(HALF) + (lit(HALF) - y / lit(THREE))) / lit(RTPI)) / c;
        let u = lit(ONE) / a;
        let z = temme_variable(l, z_in);
        let t = match accuracy {
            GammaIncAcc::Max => correction_near(z, u),
            GammaIncAcc::Digits6 => (lit(D20) * u + (lit(D1_0) * z + lit(D10))) * u
                + ((lit(D0_1) * z + lit(D0_0)) * z - lit(THIRD)),
            GammaIncAcc::Digits3 => lit(D0_0) * z - lit(THIRD),
        };
        temme_finish(l, c, w, t, a.sqrt())
    }
}

/// The uniform expansion for large `a` and `l = x / a` next to one.
#[verifier::when_used_as_spec(temme_for_l_eq_1_spec)]
pub fn temme_for_l_eq_1(
    a: F64,
    l: F64,
    z_in: F64,
    y: F64,
    e: F64,
    accuracy: GammaIncAcc,
) -> (r: (F64, F64))
    ensures
        r == temme_for_l_eq_1(a, l, z_in, y, e, accuracy),
{
    proof {
        reveal(temme_for_l_eq_1_spec);
    }
    if lit(0x3F6A_DEA8_9763_5E74 /* 3.28e-3 */).lt(a * e * e) {
        (lit(TWO), lit(ZERO))
    } else {
        let c = lit(HALF) + (lit(HALF) - y);
        let w = (lit(HALF) - y.sqrt() * (lit(HALF) + (lit(HALF) - y / lit(THREE))) / lit(RTPI)) / c;
        let u = lit(ONE) / a;
        let z = temme_variable(l, z_in);
        let t = match accuracy {
            GammaIncAcc::Max => correction_near(z, u),
            GammaIncAcc::Digits6 => (lit(D20) * u + (lit(D1_0) * z + lit(D10))) * u
                + ((lit(D0_1) * z + lit(D0_0)) * z - lit(THIRD)),
            GammaIncAcc::Digits3 => lit(D0_0) * z - lit(THIRD),
        };
        temme_finish(l, c, w, t, a.sqrt())
    }
}

pub open spec fn taylor_series_spec(
    a: F64,
    x: F64,
    tol: F64,
    an: F64,
    c: F64,
    sum: F64,
    n: u64,
) -> F64
    decreases n,
{
    if n == 0 {
        lit(NAN)
    } else {
        let an1 = an + lit(ONE);
        let c1 = (c * (x / an1)).negated();
        let t = c1 / (a + an1);
        let sum1 = sum + t;
        if t.abs().le(tol) {
            sum1
        } else {
            taylor_series_spec(a, x, tol, an1, c1, sum1, (n - 1) as u64)
        }
    }
}

/// The series of the lower ratio divided by `x^a`, up to a term within the
/// tolerance.
#[verifier::when_used_as_spec(taylor_series_spec)]
pub fn taylor_series(
    a: F64,
    x: F64,
    tol: F64,
    an_init: F64,
    c_init: F64,
    sum_init: F64,
    n: u64,
) -> (r: F64)
    ensures
        r == taylor_series(a, x, tol, an_init, c_init, sum_init, n),
{
    let mut an = an_init;
    let mut c = c_init;
    let mut sum = sum_init;
    let mut left: u64 = n;
    while left > 0
        invariant
            left <= n,
            taylor_series(a, x, tol, an_init, c_init, sum_init, n)
                == taylor_series(a, x, tol, an, c, sum, left),
        decreases left,
    {
        let an1 = an + lit(ONE);
        let c1 = (c * (x / an1)).negated();
        let t = c1 / (a + an1);
        let sum1 = sum + t;
        if t.abs().le(tol) {
            return sum1;
        } else {
            let next_an = an1;
            let next_c = c1;
            let next_sum = sum1;
            an = next_an;
            c = next_c;
            sum = next_sum;
        }
        left = left - 1;
    }
    lit(NAN)
}

#[verifier::opaque]
pub open spec fn taylor_finish_spec<M: Fn(Elementary) -> F64>(
    m: &M,
    a: F64,
    x: F64,
    sum: F64,
) -> (F64, F64) {
    let j = a * x * ((sum / lit(0x4018_0000_0000_0000 /* 6.0 */) - lit(HALF) / (a + lit(TWO))) * x
        + lit(ONE) / (a + lit(ONE)));
    let z = a * ln(m, x);
    let h = gam1(a);
    let g = lit(ONE) + h;
    let upper: bool = if x.lt(lit(QUARTER)) {
        z.gt(lit(0xBFC1_24F2_27D0_28A2 /* -0.13394 */))
    } else {
        a.lt(x / lit(0x4004_B851_EB85_1EB8 /* 2.59 */))
    };
    if upper {
        let l = rexp(m, z);
        let w = lit(HALF) + (lit(HALF) + l);
        let qans = (w * j - l) * g - h;
        if qans.lt(lit(ZERO)) {
            (lit(ONE), lit(ZERO))
        } else {
            (complement(qans), qans)
        }
    } else {
        let w = exp(m, z);
        let ans = w * g * (lit(HALF) + (lit(HALF) - j));
        (ans, complement(ans))
    }
}

/// The ratios for `a < 1` and small `x`, from the series `sum`.
#[verifier::when_used_as_spec(taylor_finish_spec)]
pub fn taylor_finish<M: Fn(Elementary) -> F64>(m: &M, a: F64, x: F64, sum: F64) -> (r: (F64, F64))
    requires
        lawful(m),
    ensures
        r == taylor_finish(m, a, x, sum),
{
    proof {
        reveal(taylor_finish_spec);
    }
    let j = a * x * ((sum / lit(0x4018_0000_0000_0000 /* 6.0 */) - lit(HALF) / (a + lit(TWO))) * x
        + lit(ONE) / (a + lit(ONE)));
    let z = a * ln(m, x);
    let h = gam1(a);
    let g = lit(ONE) + h;
    let upper: bool = if x.lt(lit(QUARTER)) {
        z.gt(lit(0xBFC1_24F2_27D0_28A2 /* -0.13394 */))
    } else {
        a.lt(x / lit(0x4004_B851_EB85_1EB8 /* 2.59 */))
    };
    if upper {
        let l = rexp(m, z);
        let w = lit(HALF) + (lit(HALF) + l);
        let qans = (w * j - l) * g - h;
        if qans.lt(lit(ZERO)) {
            (lit(ONE), lit(ZERO))
        } else {
            (complement(qans), qans)
        }
    } else {
        let w = exp(m, z);
        let ans = w * g * (lit(HALF) + (lit(HALF) - j));
        (ans, complement(ans))
    }
}

#[verifier::opaque]
pub open spec fn taylor_p_over_xa_spec<M: Fn(Elementary) -> F64>(
    m: &M,
    a: F64,
    x: F64,
    acc: F64,
) -> (F64, F64) {
    let sum = taylor_series(a, x, lit(THREE) * acc / (a + lit(ONE)), lit(THREE), x, x
        / (a + lit(THREE)), PATIENCE);
    taylor_finish(m, a, x, sum)
}

/// The ratios for `a < 1` and small `x`.
#[verifier::when_used_as_spec(taylor_p_over_xa_spec)]
pub fn taylor_p_over_xa<M: Fn(Elementary) -> F64>(
    m: &M,
    a: F64,
    x: F64,
    acc: F64,
) -> (r: (F64, F64))
    requires
        lawful(m),
    ensures
        r == taylor_p_over_xa(m, a, x, acc),
{
    proof {
        reveal(taylor_p_over_xa_spec);
    }
    let sum = taylor_series(a, x, lit(THREE) * acc / (a + lit(ONE)), lit(THREE), x, x
        / (a + lit(THREE)), PATIENCE);
    taylor_finish(m, a, x, sum)
}

pub open spec fn rising_tail_spec(x: F64, tol: F64, apn: F64, t: F64, sum: F64, n: u64) -> F64
    decreases n,
{
    if n == 0 {
        lit(NAN)
    } else {
        if t.gt(tol) {
            let apn1 = apn + lit(ONE);
            let t1 = t * (x / apn1);
            rising_tail_spec(x, tol, apn1, t1, sum + t1, (n - 1) as u64)
        } else {
            sum
        }
    }
}

/// The terms `t x/(apn + 1)`, `t x/(apn + 1) x/(apn + 2)` and so on, added to `sum`
/// until one is within the tolerance.
#[verifier::when_used_as_spec(rising_tail_spec)]
pub fn rising_tail(x: F64, tol: F64, apn_init: F64, t_init: F64, sum_init: F64, n: u64) -> (r: F64)
    ensures
        r == rising_tail(x, tol, apn_init, t_init, sum_init, n),
{
    let mut apn = apn_init;
    let mut t = t_init;
    let mut sum = sum_init;
    let mut left: u64 = n;
    while left > 0
        invariant
            left <= n,
            rising_tail(x, tol, apn_init, t_init, sum_init, n)
                == rising_tail(x, tol, apn, t, sum, left),
        decreases left,
    {
        if t.gt(tol) {
            let apn1 = apn + lit(ONE);
            let t1 = t * (x / apn1);
            let next_apn = apn1;
            let next_t = t1;
            let next_sum = sum + t1;
            apn = next_apn;
            t = next_t;
            sum = next_sum;
        } else {
            return sum;
        }
        left = left - 1;
    }
    lit(NAN)
}

#[verifier::opaque]
pub open spec fn rising_sum_spec(x: F64, tol: F64, apn: F64, t: F64, n: u64) -> F64
    decreases 20 - n,
{
    let apn1 = apn + lit(ONE);
    let t1 = t * (x / apn1);
    let rest = if n >= 19 || t1.le(lit(0x3F50_624D_D2F1_A9FC /* 1e-3 */)) {
        rising_tail(x, tol, apn1, t1, t1, PATIENCE)
    } else {
        rising_sum(x, tol, apn1, t1, (n + 1) as u64)
    };
    rest + t
}

/// The sum of a term and those after it, the small ones first: the `n`th term is
/// `t`, and the terms from the first one below a thousandth on, or from the
/// twentieth on, are added up in their order.
#[verifier::when_used_as_spec(rising_sum_spec)]
pub fn rising_sum(x: F64, tol: F64, apn: F64, t: F64, n: u64) -> (r: F64)
    ensures
        r == rising_sum(x, tol, apn, t, n),
    decreases 20 - n,
{
    proof {
        reveal(rising_sum_spec);
    }
    let apn1 = apn + lit(ONE);
    let t1 = t * (x / apn1);
    let rest = if n >= 19 || t1.le(lit(0x3F50_624D_D2F1_A9FC /* 1e-3 */)) {
        rising_tail(x, tol, apn1, t1, t1, PATIENCE)
    } else {
        rising_sum(x, tol, apn1, t1, (n + 1) as u64)
    };
    rest + t
}

#[verifier::opaque]
pub open spec fn taylor_p_over_r_spec(a: F64, x: F64, r: F64, acc: F64) -> (F64, F64) {
    let apn = a + lit(ONE);
    let sum = rising_sum(x, lit(HALF) * acc, apn, x / apn, 1);
    let ans = r / a * (lit(ONE) + sum);
    (ans, complement(ans))
}

/// The ratios from the series of the lower one.
#[verifier::when_used_as_spec(taylor_p_over_r_spec)]
pub fn taylor_p_over_r(a: F64, x: F64, r: F64, acc: F64) -> (result: (F64, F64))
    ensures
        result == taylor_p_over_r(a, x, r, acc),
{
    proof {
        reveal(taylor_p_over_r_spec);
    }
    let apn = a + lit(ONE);
    let sum = rising_sum(x, lit(HALF) * acc, apn, x / apn, 1);
    let ans = r / a * (lit(ONE) + sum);
    (ans, complement(ans))
}

pub open spec fn convergents_spec(
    a: F64,
    x: F64,
    tol: F64,
    a2nm1: F64,
    a2n: F64,
    b2nm1: F64,
    b2n: F64,
    c: F64,
    n: u64,
) -> F64
    decreases n,
{
    if n == 0 {
        lit(NAN)
    } else {
        let a1 = x * a2n + c * a2nm1;
        let b1 = x * b2n + c * b2nm1;
        let am0 = a1 / b1;
        let c1 = c + lit(ONE);
        let cma = c1 - a;
        let a2 = a1 + cma * a2n;
        let b2 = b1 + cma * b2n;
        let an0 = a2 / b2;
        if (an0 - am0).abs().lt(tol * an0) {
            an0
        } else {
            convergents_spec(a, x, tol, a1, a2, b1, b2, c1, (n - 1) as u64)
        }
    }
}

/// Successive convergents of the continued fraction, until two agree.
#[verifier::when_used_as_spec(convergents_spec)]
pub fn convergents(
    a: F64,
    x: F64,
    tol: F64,
    a2nm1_init: F64,
    a2n_init: F64,
    b2nm1_init: F64,
    b2n_init: F64,
    c_init: F64,
    n: u64,
) -> (r: F64)
    ensures
        r == convergents(a, x, tol, a2nm1_init, a2n_init, b2nm1_init, b2n_init, c_init, n),
{
    let mut a2nm1 = a2nm1_init;
    let mut a2n = a2n_init;
    let mut b2nm1 = b2nm1_init;
    let mut b2n = b2n_init;
    let mut c = c_init;
    let mut left: u64 = n;
    while left > 0
        invariant
            left <= n,
            convergents(a, x, tol, a2nm1_init, a2n_init, b2nm1_init, b2n_init, c_init, n)
                == convergents(a, x, tol, a2nm1, a2n, b2nm1, b2n, c, left),
        decreases left,
    {
        let a1 = x * a2n + c * a2nm1;
        let b1 = x * b2n + c * b2nm1;
        let am0 = a1 / b1;
        let c1 = c + lit(ONE);
        let cma = c1 - a;
        let a2 = a1 + cma * a2n;
        let b2 = b1 + cma * b2n;
        let an0 = a2 / b2;
        if (an0 - am0).abs().lt(tol * an0) {
            return an0;
        } else {
            let next_a2nm1 = a1;
            let next_a2n = a2;
            let next_b2nm1 = b1;
            let next_b2n = b2;
            let next_c = c1;
            a2nm1 = next_a2nm1;
            a2n = next_a2n;
            b2nm1 = next_b2nm1;
            b2n = next_b2n;
            c = next_c;
        }
        left = left - 1;
    }
    lit(NAN)
}

#[verifier::opaque]
pub open spec fn continued_fraction_spec(a: F64, x: F64, r: F64, acc: F64, e: F64) -> (F64, F64) {
    let tol = (lit(FIVE) * e).max(acc);
    let qans = r * convergents(a, x, tol, lit(ONE), lit(ONE), x, x + (lit(ONE) - a), lit(ONE),
        PATIENCE);
    (complement(qans), qans)
}

/// The ratios from the continued fraction of the upper one.
#[verifier::when_used_as_spec(continued_fraction_spec)]
pub fn continued_fraction(a: F64, x: F64, r: F64, acc: F64, e: F64) -> (result: (F64, F64))
    ensures
        result == continued_fraction(a, x, r, acc, e),
{
    proof {
        reveal(continued_fraction_spec);
    }
    let tol = (lit(FIVE) * e).max(acc);
    let qans = r * convergents(a, x, tol, lit(ONE), lit(ONE), x, x + (lit(ONE) - a), lit(ONE),
        PATIENCE);
    (complement(qans), qans)
}

pub open spec fn falling_tail_spec(x: F64, acc: F64, amn: F64, t: F64, sum: F64, n: u64) -> F64
    decreases n,
{
    if n == 0 {
        lit(NAN)
    } else {
        if t.abs().gt(acc) {
            let amn1 = amn - lit(ONE);
            let t1 = t * (amn1 / x);
            falling_tail_spec(x, acc, amn1, t1, sum + t1, (n - 1) as u64)
        } else {
            sum
        }
    }
}

/// The terms `t (amn - 1)/x`, `t (amn - 1)/x (amn - 2)/x` and so on, added to `sum`
/// until one is within the tolerance.
#[verifier::when_used_as_spec(falling_tail_spec)]
pub fn falling_tail(x: F64, acc: F64, amn_init: F64, t_init: F64, sum_init: F64, n: u64) -> (r: F64)
    ensures
        r == falling_tail(x, acc, amn_init, t_init, sum_init, n),
{
    let mut amn = amn_init;
    let mut t = t_init;
    let mut sum = sum_init;
    let mut left: u64 = n;
    while left > 0
        invariant
            left <= n,
            falling_tail(x, acc, amn_init, t_init, sum_init, n)
                == falling_tail(x, acc, amn, t, sum, left),
        decreases left,
    {
        if t.abs().gt(acc) {
            let amn1 = amn - lit(ONE);
            let t1 = t * (amn1 / x);
            let next_amn = amn1;
            let next_t = t1;
            let next_sum = sum + t1;
            amn = next_amn;
            t = next_t;
            sum = next_sum;
        } else {
            return sum;
        }
        left = left - 1;
    }
    lit(NAN)
}

#[verifier::opaque]
pub open spec fn falling_sum_spec(x: F64, acc: F64, amn: F64, t: F64, n: u64) -> F64
    decreases 20 - n,
{
    let amn1 = amn - lit(ONE);
    let t1 = t * (amn1 / x);
    let rest = if n >= 19 || t1.abs().le(lit(0x3F50_624D_D2F1_A9FC /* 1e-3 */)) {
        falling_tail(x, acc, amn1, t1, t1, PATIENCE)
    } else {
        falling_sum(x, acc, amn1, t1, (n + 1) as u64)
    };
    rest + t
}

/// The sum of a term and those after it, as in `rising_sum`, for the expansion in
/// inverse powers of `x`.
#[verifier::when_used_as_spec(falling_sum_spec)]
pub fn falling_sum(x: F64, acc: F64, amn: F64, t: F64, n: u64) -> (r: F64)
    ensures
        r == falling_sum(x, acc, amn, t, n),
    decreases 20 - n,
{
    proof {
        reveal(falling_sum_spec);
    }
    let amn1 = amn - lit(ONE);
    let t1 = t * (amn1 / x);
    let rest = if n >= 19 || t1.abs().le(lit(0x3F50_624D_D2F1_A9FC /* 1e-3 */)) {
        falling_tail(x, acc, amn1, t1, t1, PATIENCE)
    } else {
        falling_sum(x, acc, amn1, t1, (n + 1) as u64)
    };
    rest + t
}

#[verifier::opaque]
pub open spec fn asymptotic_expansion_q_spec(a: F64, x: F64, r: F64, acc: F64) -> (F64, F64) {
    let amn = a - lit(ONE);
    let sum = falling_sum(x, acc, amn, amn / x, 1);
    let qans = r / x * (lit(ONE) + sum);
    (complement(qans), qans)
}

/// The ratios from the asymptotic expansion of the upper one.
#[verifier::when_used_as_spec(asymptotic_expansion_q_spec)]
pub fn asymptotic_expansion_q(a: F64, x: F64, r: F64, acc: F64) -> (result: (F64, F64))
    ensures
        result == asymptotic_expansion_q(a, x, r, acc),
{
    proof {
        reveal(asymptotic_expansion_q_spec);
    }
    let amn = a - lit(ONE);
    let sum = falling_sum(x, acc, amn, amn / x, 1);
    let qans = r / x * (lit(ONE) + sum);
    (complement(qans), qans)
}

pub open spec fn finite_sum_spec(x: F64, c: F64, t: F64, sum: F64, n: u64) -> F64
    decreases n,
{
    if n == 0 {
        sum
    } else {
        let c1 = c + lit(ONE);
        let t1 = x * t / c1;
        finite_sum_spec(x, c1, t1, sum + t1, (n - 1) as u64)
    }
}

/// Adds `n` terms of the finite sum.
#[verifier::when_used_as_spec(finite_sum_spec)]
pub fn finite_sum(x: F64, c_init: F64, t_init: F64, sum_init: F64, n: u64) -> (r: F64)
    ensures
        r == finite_sum(x, c_init, t_init, sum_init, n),
{
    let mut c = c_init;
    let mut t = t_init;
    let mut sum = sum_init;
    let mut left: u64 = n;
    while left > 0
        invariant
            left <= n,
            finite_sum(x, c_init, t_init, sum_init, n)
                == finite_sum(x, c, t, sum, left),
        decreases left,
    {
        let c1 = c + lit(ONE);
        let t1 = x * t / c1;
        let next_c = c1;
        let next_t = t1;
        let next_sum = sum + t1;
        c = next_c;
        t = next_t;
        sum = next_sum;
        left = left - 1;
    }
    sum
}

#[verifier::opaque]
pub open spec fn finite_q_half_integer_spec<M: Fn(Elementary) -> F64>(
    m: &M,
    x: F64,
    i: u64,
    a_eq_i: bool,
) -> (F64, F64) {
    let qans = if a_eq_i {
        let sum = exp(m, x.negated());
        finite_sum(x, lit(ZERO), sum, sum, if i > 0 {
            (i - 1) as u64
        } else {
            0
        })
    } else {
        let rtx = x.sqrt();
        finite_sum(x, lit(0xBFE0_0000_0000_0000 /* -0.5 */),
            exp(m, x.negated()) / (lit(RTPI) * rtx), error_fc(m, rtx), i)
    };
    (complement(qans), qans)
}

/// The ratios for a whole (`a_eq_i`) or a half-whole `a` with whole part `i`, from
/// the finite sum of the upper one.
#[verifier::when_used_as_spec(finite_q_half_integer_spec)]
pub fn finite_q_half_integer<M: Fn(Elementary) -> F64>(
    m: &M,
    x: F64,
    i: u64,
    a_eq_i: bool,
) -> (r: (F64, F64))
    requires
        lawful(m),
    ensures
        r == finite_q_half_integer(m, x, i, a_eq_i),
{
    proof {
        reveal(finite_q_half_integer_spec);
    }
    let qans = if a_eq_i {
        let sum = exp(m, x.negated());
        finite_sum(x, lit(ZERO), sum, sum, if i > 0 {
            (i - 1) as u64
        } else {
            0
        })
    } else {
        let rtx = x.sqrt();
        finite_sum(x, lit(0xBFE0_0000_0000_0000 /* -0.5 */),
            exp(m, x.negated()) / (lit(RTPI) * rtx), error_fc(m, rtx), i)
    };
    (complement(qans), qans)
}

#[verifier::opaque]
pub open spec fn one_half_spec<M: Fn(Elementary) -> F64>(m: &M, x: F64) -> (F64, F64) {
    let rtx = x.sqrt();
    if x.lt(lit(QUARTER)) {
        let ans = error_f(m, rtx);
        (ans, complement(ans))
    } else {
        let qans = error_fc(m, rtx);
        (complement(qans), qans)
    }
}

/// The ratios for `a = 1/2`.
#[verifier::when_used_as_spec(one_half_spec)]
pub fn one_half<M: Fn(Elementary) -> F64>(m: &M, x: F64) -> (r: (F64, F64))
    requires
        lawful(m),
    ensures
        r == one_half(m, x),
{
    proof {
        reveal(one_half_spec);
    }
    let rtx = x.sqrt();
    if x.lt(lit(QUARTER)) {
        let ans = error_f(m, rtx);
        (ans, complement(ans))
    } else {
        let qans = error_fc(m, rtx);
        (complement(qans), qans)
    }
}

#[verifier::opaque]
pub open spec fn from_scale_spec(a: F64, x: F64, r: F64, acc: F64, x0: F64) -> (F64, F64) {
    if r.equals(lit(ZERO)) {
        settled(a, x)
    } else if x.le(a.max(lit(ALOG10))) {
        taylor_p_over_r(a, x, r, acc)
    } else if x.lt(x0) {
        continued_fraction(a, x, r, acc, lit(EPSILON))
    } else {
        asymptotic_expansion_q(a, x, r, acc)
    }
}

/// The ratios from `r = e^-x x^a / gamma(a)`.
#[verifier::when_used_as_spec(from_scale_spec)]
pub fn from_scale(a: F64, x: F64, r: F64, acc: F64, x0: F64) -> (result: (F64, F64))
    ensures
        result == from_scale(a, x, r, acc, x0),
{
    proof {
        reveal(from_scale_spec);
    }
    if r.equals(lit(ZERO)) {
        settled(a, x)
    } else if x.le(a.max(lit(ALOG10))) {
        taylor_p_over_r(a, x, r, acc)
    } else if x.lt(x0) {
        continued_fraction(a, x, r, acc, lit(EPSILON))
    } else {
        asymptotic_expansion_q(a, x, r, acc)
    }
}

#[verifier::opaque]
pub open spec fn below_one_spec<M: Fn(Elementary) -> F64>(
    m: &M,
    a: F64,
    x: F64,
    acc: F64,
) -> (F64, F64) {
    if a.equals(lit(HALF)) {
        one_half(m, x)
    } else if x.lt(lit(0x3FF1_9999_9999_999A /* 1.1 */)) {
        taylor_p_over_xa(m, a, x, acc)
    } else {
        let u = a * exp(m, a * ln(m, x) - x);
        if u.equals(lit(ZERO)) {
            (lit(ONE), lit(ZERO))
        } else {
            continued_fraction(a, x, u * (lit(ONE) + gam1(a)), acc, lit(EPSILON))
        }
    }
}

/// The ratios for `a < 1`.
#[verifier::when_used_as_spec(below_one_spec)]
pub fn below_one<M: Fn(Elementary) -> F64>(m: &M, a: F64, x: F64, acc: F64) -> (r: (F64, F64))
    requires
        lawful(m),
    ensures
        r == below_one(m, a, x, acc),
{
    proof {
        reveal(below_one_spec);
    }
    if a.equals(lit(HALF)) {
        one_half(m, x)
    } else if x.lt(lit(0x3FF1_9999_9999_999A /* 1.1 */)) {
        taylor_p_over_xa(m, a, x, acc)
    } else {
        let u = a * exp(m, a * ln(m, x) - x);
        if u.equals(lit(ZERO)) {
            (lit(ONE), lit(ZERO))
        } else {
            continued_fraction(a, x, u * (lit(ONE) + gam1(a)), acc, lit(EPSILON))
        }
    }
}

#[verifier::opaque]
pub open spec fn moderate_spec<M: Fn(Elementary) -> F64>(
    m: &M,
    a: F64,
    x: F64,
    acc: F64,
    x0: F64,
) -> (F64, F64) {
    let twoa = a + a;
    let k = twoa.to_u64();
    if a.le(x) && x.lt(x0) && twoa.equals(F64::from_u64(k)) {
        let i = k / 2;
        finite_q_half_integer(m, x, i, a.equals(F64::from_u64(i)))
    } else {
        from_scale(a, x, exp(m, a * ln(m, x) - x) / gamma_value(m, a), acc, x0)
    }
}

/// The ratios for `a` from 1 up to where the uniform expansion takes over.
#[verifier::when_used_as_spec(moderate_spec)]
pub fn moderate<M: Fn(Elementary) -> F64>(
    m: &M,
    a: F64,
    x: F64,
    acc: F64,
    x0: F64,
) -> (r: (F64, F64))
    requires
        lawful(m),
    ensures
        r == moderate(m, a, x, acc, x0),
{
    proof {
        reveal(moderate_spec);
    }
    let twoa = a + a;
    let k: u64 = twoa.to_u64();
    if a.le(x) && x.lt(x0) && twoa.equals(F64::from_u64(k)) {
        let i: u64 = k / 2;
        finite_q_half_integer(m, x, i, a.equals(F64::from_u64(i)))
    } else {
        from_scale(a, x, exp(m, a * ln(m, x) - x) / gamma_value(m, a), acc, x0)
    }
}

#[verifier::opaque]
pub open spec fn large_spec<M: Fn(Elementary) -> F64>(
    m: &M,
    a: F64,
    x: F64,
    acc: F64,
    e0: F64,
    x0: F64,
    accuracy: GammaIncAcc,
) -> (F64, F64) {
    let l = x / a;
    let s = lit(HALF) + (lit(HALF) - l);
    let z = rlog(m, l);
    let y = a * z;
    let rta = a.sqrt();
    if l.equals(lit(ZERO)) {
        (lit(ZERO), lit(ONE))
    } else if z.ge(lit(0x4085_E000_0000_0000 /* 700.0 */) / a) {
        if s.abs().le(lit(TWO) * lit(EPSILON)) {
            (lit(TWO), lit(ZERO))
        } else {
            settled(a, x)
        }
    } else if s.abs().le(e0 / rta) {
        temme_for_l_eq_1(a, l, z, y, lit(EPSILON), accuracy)
    } else if s.abs().le(lit(0x3FD9_9999_9999_999A /* 0.4 */)) {
        temme_general(m, a, l, z, y, rta, lit(EPSILON), accuracy)
    } else {
        from_scale(a, x, lit(RT2PIN) * rta * exp(m, stirling_tail(a) - y), acc, x0)
    }
}

/// The ratios for large `a`.
#[verifier::when_used_as_spec(large_spec)]
pub fn large<M: Fn(Elementary) -> F64>(
    m: &M,
    a: F64,
    x: F64,
    acc: F64,
    e0: F64,
    x0: F64,
    accuracy: GammaIncAcc,
) -> (r: (F64, F64))
    requires
        lawful(m),
    ensures
        r == large(m, a, x, acc, e0, x0, accuracy),
{
    proof {
        reveal(large_spec);
    }
    let l = x / a;
    let s = lit(HALF) + (lit(HALF) - l);
    let z = rlog(m, l);
    let y = a * z;
    let rta = a.sqrt();
    if l.equals(lit(ZERO)) {
        (lit(ZERO), lit(ONE))
    } else if z.ge(lit(0x4085_E000_0000_0000 /* 700.0 */) / a) {
        if s.abs().le(lit(TWO) * lit(EPSILON)) {
            (lit(TWO), lit(ZERO))
        } else {
            settled(a, x)
        }
    } else if s.abs().le(e0 / rta) {
        temme_for_l_eq_1(a, l, z, y, lit(EPSILON), accuracy)
    } else if s.abs().le(lit(0x3FD9_9999_9999_999A /* 0.4 */)) {
        temme_general(m, a, l, z, y, rta, lit(EPSILON), accuracy)
    } else {
        from_scale(a, x, lit(RT2PIN) * rta * exp(m, stirling_tail(a) - y), acc, x0)
    }
}

#[verifier::opaque]
pub open spec fn gamma_inc_core_spec<M: Fn(Elementary) -> F64>(
    m: &M,
    a: F64,
    x: F64,
    accuracy: GammaIncAcc,
) -> (F64, F64) {
    let (acc_raw, e0, x0, big) = match accuracy {
        GammaIncAcc::Max => (lit(0x3CF6_849B_86A1_2B9B /* 5.0e-15 */),
            lit(0x3F30_624D_D2F1_A9FC /* 0.25e-3 */), lit(0x403F_0000_0000_0000 /* 31.0 */),
            lit(0x4034_0000_0000_0000 /* 20.0 */)),
        GammaIncAcc::Digits6 => (lit(0x3EA0_C6F7_A0B5_ED8D /* 5.0e-7 */),
            lit(0x3F99_9999_9999_999A /* 0.25e-1 */), lit(0x4031_0000_0000_0000 /* 17.0 */),
            lit(0x402C_0000_0000_0000 /* 14.0 */)),
        GammaIncAcc::Digits3 => (lit(0x3F40_624D_D2F1_A9FC /* 5.0e-4 */),
            lit(0x3FC1_EB85_1EB8_51EC /* 0.14 */), lit(0x4023_6666_6666_6666 /* 9.7 */), lit(TEN)),
    };
    let acc = acc_raw.max(lit(EPSILON));
    if (a * x).equals(lit(ZERO)) {
        settled(a, x)
    } else if a.lt(lit(ONE)) {
        below_one(m, a, x, acc)
    } else if a.lt(big) {
        moderate(m, a, x, acc, x0)
    } else {
        large(m, a, x, acc, e0, x0, accuracy)
    }
}

/// The ratios; the first is 2 where they cannot be told.
#[verifier::when_used_as_spec(gamma_inc_core_spec)]
pub fn gamma_inc_core<M: Fn(Elementary) -> F64>(
    m: &M,
    a: F64,
    x: F64,
    accuracy: GammaIncAcc,
) -> (r: (F64, F64))
    requires
        lawful(m),
    ensures
        r == gamma_inc_core(m, a, x, accuracy),
{
    proof {
        reveal(gamma_inc_core_spec);
    }
    let (acc_raw, e0, x0, big) = match accuracy {
        GammaIncAcc::Max => (lit(0x3CF6_849B_86A1_2B9B /* 5.0e-15 */),
            lit(0x3F30_624D_D2F1_A9FC /* 0.25e-3 */), lit(0x403F_0000_0000_0000 /* 31.0 */),
            lit(0x4034_0000_0000_0000 /* 20.0 */)),
        GammaIncAcc::Digits6 => (lit(0x3EA0_C6F7_A0B5_ED8D /* 5.0e-7 */),
            lit(0x3F99_9999_9999_999A /* 0.25e-1 */), lit(0x4031_0000_0000_0000 /* 17.0 */),
            lit(0x402C_0000_0000_0000 /* 14.0 */)),
        GammaIncAcc::Digits3 => (lit(0x3F40_624D_D2F1_A9FC /* 5.0e-4 */),
            lit(0x3FC1_EB85_1EB8_51EC /* 0.14 */), lit(0x4023_6666_6666_6666 /* 9.7 */), lit(TEN)),
    };
    let acc = acc_raw.max(lit(EPSILON));
    if (a * x).equals(lit(ZERO)) {
        settled(a, x)
    } else if a.lt(lit(ONE)) {
        below_one(m, a, x, acc)
    } else if a.lt(big) {
        moderate(m, a, x, acc, x0)
    } else {
        large(m, a, x, acc, e0, x0, accuracy)
    }
}

pub open spec fn try_gamma_inc_with_acc_spec<M: Fn(Elementary) -> F64>(
    m: &M,
    a: F64,
    x: F64,
    accuracy: GammaIncAcc,
) -> Result<(F64, F64), GammaIncError> {
    if a.lt(lit(ZERO)) {
        Err(GammaIncError::ANegative(a))
    } else if x.lt(lit(ZERO)) {
        Err(GammaIncError::XNegative(x))
    } else if a.equals(lit(ZERO)) && x.equals(lit(ZERO)) {
        Err(GammaIncError::BothZero)
    } else {
        let (p, q) = gamma_inc_core(m, a, x, accuracy);
        if p.equals(lit(TWO)) {
            Err(GammaIncError::Indeterminate { a, x })
        } else {
            Ok((p, q))
        }
    }
}

/// The lower and the upper ratio, to the accuracy asked for.
#[verifier::when_used_as_spec(try_gamma_inc_with_acc_spec)]
pub fn try_gamma_inc_with_acc<M: Fn(Elementary) -> F64>(
    m: &M,
    a: F64,
    x: F64,
    accuracy: GammaIncAcc,
) -> (r: Result<(F64, F64), GammaIncError>)
    requires
        lawful(m),
    ensures
        r == try_gamma_inc_with_acc(m, a, x, accuracy),
{
    if a.lt(lit(ZERO)) {
        Err(GammaIncError::ANegative(a))
    } else if x.lt(lit(ZERO)) {
        Err(GammaIncError::XNegative(x))
    } else if a.equals(lit(ZERO)) && x.equals(lit(ZERO)) {
        Err(GammaIncError::BothZero)
    } else {
        let (p, q) = gamma_inc_core(m, a, x, accuracy);
        if p.equals(lit(TWO)) {
            Err(GammaIncError::Indeterminate { a, x })
        } else {
            Ok((p, q))
        }
    }
}

pub open spec fn try_gamma_inc_spec<M: Fn(Elementary) -> F64>(
    m: &M,
    a: F64,
    x: F64,
) -> Result<(F64, F64), GammaIncError> {
    try_gamma_inc_with_acc(m, a, x, GammaIncAcc::Max)
}

/// The lower and the upper ratio, to full accuracy.
#[verifier::when_used_as_spec(try_gamma_inc_spec)]
pub fn try_gamma_inc<M: Fn(Elementary) -> F64>(
    m: &M,
    a: F64,
    x: F64,
) -> (r: Result<(F64, F64), GammaIncError>)
    requires
        lawful(m),
    ensures
        r == try_gamma_inc(m, a, x),
{
    try_gamma_inc_with_acc(m, a, x, GammaIncAcc::Max)
}

/// The ratios where they have values; two NaNs where an argument is NaN or refused, or the
/// ratios are indeterminate.
pub open spec fn gamma_inc_value_spec<M: Fn(Elementary) -> F64>(m: &M, a: F64, x: F64) -> (F64, F64) {
    match try_gamma_inc(m, a, x) {
        Ok(pq) => if a.is_nan() || x.is_nan() {
            (lit(NAN), lit(NAN))
        } else {
            pq
        },
        Err(_) => (lit(NAN), lit(NAN)),
    }
}

/// The ratios where they have values; two NaNs where an argument is NaN or refused, or the
/// ratios are indeterminate.
#[verifier::when_used_as_spec(gamma_inc_value_spec)]
pub fn gamma_inc_value<M: Fn(Elementary) -> F64>(m: &M, a: F64, x: F64) -> (r: (F64, F64))
    requires
        lawful(m),
    ensures
        r == gamma_inc_value(m, a, x),
{
    if a.is_nan() || x.is_nan() {
        return (lit(NAN), lit(NAN));
    }
    match try_gamma_inc(m, a, x) {
        Ok(pq) => pq,
        Err(_) => (lit(NAN), lit(NAN)),
    }
}

/// The lower and the upper ratio, to full accuracy; two NaNs where an argument is
/// NaN.
pub fn gamma_inc<M: Fn(Elementary) -> F64>(m: &M, a: F64, x: F64) -> (r: (F64, F64))
    requires
        lawful(m),
        a.is_nan() || x.is_nan() || try_gamma_inc(m, a, x) is Ok,
    ensures
        a.is_nan() || x.is_nan() ==> r == (lit(NAN), lit(NAN)),
        !(a.is_nan() || x.is_nan()) ==> try_gamma_inc(m, a, x) == Ok::<(F64, F64), GammaIncError>(r),
{
    gamma_inc_value(m, a, x)
}

/// `gamma_inc` to the accuracy asked for.
pub fn gamma_inc_with_acc<M: Fn(Elementary) -> F64>(m: &M, a: F64, x: F64, accuracy: GammaIncAcc) -> (r: (
    F64,
    F64,
))
    requires
        lawful(m),
        a.is_nan() || x.is_nan() || try_gamma_inc_with_acc(m, a, x, accuracy) is Ok,
    ensures
        a.is_nan() || x.is_nan() ==> r == (lit(NAN), lit(NAN)),
        !(a.is_nan() || x.is_nan()) ==> try_gamma_inc_with_acc(m, a, x, accuracy) == Ok::<
            (F64, F64),
            GammaIncError,
        >(r),
{
    if a.is_nan() || x.is_nan() {
        return (lit(NAN), lit(NAN));
    }
    match try_gamma_inc_with_acc(m, a, x, accuracy) {
        Ok(pq) => pq,
        Err(_) => (lit(NAN), lit(NAN)),
    }
}

} // verus!
