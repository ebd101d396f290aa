//! The gamma function, its logarithm and derivative, and their companions.
use crate::consts::{FOUR, HALF, MAX, NAN, ONE, QUARTER, TEN, THREE, TWO, ZERO};
use super::poly::{eval_pol, horner, within};
use crate::float::{lit, F64};
use crate::functions::{cos, exp, lawful, ln, sin, Elementary};
use vstd::prelude::*;

verus! {

/// -0.129418923021993e1
pub const ALN_P1: u64 = 0xBFF4_B4FF_C42A_148A;

/// 0.405303492862024
pub const ALN_P2: u64 = 0x3FD9_F07E_0FB3_016F;

/// -0.178874546012214e-1
pub const ALN_P3: u64 = 0xBF92_5116_C215_6ED7;

/// -0.162752256355323e1
pub const ALN_Q1: u64 = 0xBFFA_0A55_197F_6949;

/// 0.747811014037616
pub const ALN_Q2: u64 = 0x3FE7_EE11_5D1C_2A40;

/// -0.845104217945565e-1
pub const ALN_Q3: u64 = 0xBFB5_A279_99C7_5E82;

#[verifier::opaque]
pub open spec fn alnrel_spec<M: Fn(Elementary) -> F64>(m: &M, a: F64) -> F64 {
    if a.abs().le(lit(0x3FD8_0000_0000_0000 /* 0.375 */)) {
        let t = a / (a + lit(TWO));
        let t2 = t * t;
        let num = ((lit(ALN_P3) * t2 + lit(ALN_P2)) * t2 + lit(ALN_P1)) * t2 + lit(ONE);
        let den = ((lit(ALN_Q3) * t2 + lit(ALN_Q2)) * t2 + lit(ALN_Q1)) * t2 + lit(ONE);
        lit(TWO) * t * (num / den)
    } else {
        ln(m, lit(ONE) + a)
    }
}

/// The logarithm of one plus a number.
#[verifier::when_used_as_spec(alnrel_spec)]
pub fn alnrel<M: Fn(Elementary) -> F64>(m: &M, a: F64) -> (r: F64)
    requires
        lawful(m),
    ensures
        r == alnrel(m, a),
{
    proof {
        reveal(alnrel_spec);
    }
    if a.abs().le(lit(0x3FD8_0000_0000_0000 /* 0.375 */)) {
        let t = a / (a + lit(TWO));
        let t2 = t * t;
        let num = ((lit(ALN_P3) * t2 + lit(ALN_P2)) * t2 + lit(ALN_P1)) * t2 + lit(ONE);
        let den = ((lit(ALN_Q3) * t2 + lit(ALN_Q2)) * t2 + lit(ALN_Q1)) * t2 + lit(ONE);
        lit(TWO) * t * (num / den)
    } else {
        ln(m, lit(ONE) + a)
    }
}

/// 0.914041914819518e-9
pub const EXP_P1: u64 = 0x3E0F_67FF_69DA_8D77;

/// 0.238082361044469e-1
pub const EXP_P2: u64 = 0x3F98_612F_ADC6_B3F6;

/// -0.499999999085958
pub const EXP_Q1: u64 = 0xBFDF_FFFF_FF04_C003;

/// 0.107141568980644
pub const EXP_Q2: u64 = 0x3FBB_6DA1_3ED0_61EA;

/// -0.119041179760821e-1
pub const EXP_Q3: u64 = 0xBF88_612F_AB28_F4E2;

/// 0.595130811860248e-3
pub const EXP_Q4: u64 = 0x3F43_8051_AFD8_141C;

#[verifier::opaque]
pub open spec fn rexp_spec<M: Fn(Elementary) -> F64>(m: &M, x: F64) -> F64 {
    if x.abs().le(lit(0x3FC3_3333_3333_3333 /* 0.15 */)) {
        let num = (lit(EXP_P2) * x + lit(EXP_P1)) * x + lit(ONE);
        let den = (((lit(EXP_Q4) * x + lit(EXP_Q3)) * x + lit(EXP_Q2)) * x + lit(EXP_Q1)) * x
            + lit(ONE);
        x * (num / den)
    } else {
        let w = exp(m, x);
        if x.le(lit(ZERO)) {
            w - lit(HALF) - lit(HALF)
        } else {
            w * (lit(HALF) + (lit(HALF) - lit(ONE) / w))
        }
    }
}

/// The exponential of a number, minus one.
#[verifier::when_used_as_spec(rexp_spec)]
pub fn rexp<M: Fn(Elementary) -> F64>(m: &M, x: F64) -> (r: F64)
    requires
        lawful(m),
    ensures
        r == rexp(m, x),
{
    proof {
        reveal(rexp_spec);
    }
    if x.abs().le(lit(0x3FC3_3333_3333_3333 /* 0.15 */)) {
        let num = (lit(EXP_P2) * x + lit(EXP_P1)) * x + lit(ONE);
        let den = (((lit(EXP_Q4) * x + lit(EXP_Q3)) * x + lit(EXP_Q2)) * x + lit(EXP_Q1)) * x
            + lit(ONE);
        x * (num / den)
    } else {
        let w = exp(m, x);
        if x.le(lit(ZERO)) {
            w - lit(HALF) - lit(HALF)
        } else {
            w * (lit(HALF) + (lit(HALF) - lit(ONE) / w))
        }
    }
}

#[verifier::opaque]
pub open spec fn dexpm1_spec<M: Fn(Elementary) -> F64>(m: &M, x: F64) -> F64 {
    if x.abs().le(lit(0x3FC3_3333_3333_3333 /* 0.15 */)) {
        let top = (lit(EXP_P2) * x + lit(EXP_P1)) * x + lit(ONE);
        let bot = (((lit(EXP_Q4) * x + lit(EXP_Q3)) * x + lit(EXP_Q2)) * x + lit(EXP_Q1)) * x
            + lit(ONE);
        x * (top / bot)
    } else {
        let w = exp(m, x);
        if x.le(lit(ZERO)) {
            w - lit(HALF) - lit(HALF)
        } else {
            w * (lit(HALF) + (lit(HALF) - lit(ONE) / w))
        }
    }
}

/// The exponential of a number, minus one.
#[verifier::when_used_as_spec(dexpm1_spec)]
pub fn dexpm1<M: Fn(Elementary) -> F64>(m: &M, x: F64) -> (r: F64)
    requires
        lawful(m),
    ensures
        r == dexpm1(m, x),
{
    proof {
        reveal(dexpm1_spec);
    }
    if x.abs().le(lit(0x3FC3_3333_3333_3333 /* 0.15 */)) {
        let top = (lit(EXP_P2) * x + lit(EXP_P1)) * x + lit(ONE);
        let bot = (((lit(EXP_Q4) * x + lit(EXP_Q3)) * x + lit(EXP_Q2)) * x + lit(EXP_Q1)) * x
            + lit(ONE);
        x * (top / bot)
    } else {
        let w = exp(m, x);
        if x.le(lit(ZERO)) {
            w - lit(HALF) - lit(HALF)
        } else {
            w * (lit(HALF) + (lit(HALF) - lit(ONE) / w))
        }
    }
}

/// 0.566749439387324e-1
pub const LOG_A: u64 = 0x3FAD_047F_8D70_60E0;

/// 0.456512608815524e-1
pub const LOG_B: u64 = 0x3FA7_5F9A_2103_CE16;

/// 0.333333333333333
pub const LOG_P0: u64 = 0x3FD5_5555_5555_554F;

/// -0.224696413112536
pub const LOG_P1: u64 = 0xBFCC_C2DA_20EC_6581;

/// 0.620886815375787e-2
pub const LOG_P2: u64 = 0x3F79_6E78_5AA6_287C;

/// -0.127408923933623e1
pub const LOG_Q1: u64 = 0xBFF4_62AB_65F2_276C;

/// 0.354508718369557
pub const LOG_Q2: u64 = 0x3FD6_B045_55E2_D2E4;

#[verifier::opaque]
pub open spec fn log_series_spec(h: F64, w1: F64) -> F64 {
    let r = h / (h + lit(TWO));
    let t = r * r;
    let w = ((lit(LOG_P2) * t + lit(LOG_P1)) * t + lit(LOG_P0))
        / ((lit(LOG_Q2) * t + lit(LOG_Q1)) * t + lit(ONE));
    lit(TWO) * t * (lit(ONE) / (lit(ONE) - r) - r * w) + w1
}

/// The series shared by `rlog` and `rlog1`.
#[verifier::when_used_as_spec(log_series_spec)]
pub fn log_series(h: F64, w1: F64) -> (r: F64)
    ensures
        r == log_series(h, w1),
{
    proof {
        reveal(log_series_spec);
    }
    let r = h / (h + lit(TWO));
    let t = r * r;
    let w = ((lit(LOG_P2) * t + lit(LOG_P1)) * t + lit(LOG_P0))
        / ((lit(LOG_Q2) * t + lit(LOG_Q1)) * t + lit(ONE));
    lit(TWO) * t * (lit(ONE) / (lit(ONE) - r) - r * w) + w1
}

#[verifier::opaque]
pub open spec fn rlog_spec<M: Fn(Elementary) -> F64>(m: &M, x: F64) -> F64 {
    if x.lt(lit(0x3FE3_851E_B851_EB85 /* 0.61 */)) {
        let r = x - lit(HALF) - lit(HALF);
        r - ln(m, x)
    } else if x.lt(lit(0x3FEA_3D70_A3D7_0A3D /* 0.82 */)) {
        let u = (x - lit(0x3FE6_6666_6666_6666 /* 0.7 */)) / lit(0x3FE6_6666_6666_6666 /* 0.7 */);
        log_series(u, lit(LOG_A) - u * lit(0x3FD3_3333_3333_3333 /* 0.3 */))
    } else if x.lt(lit(0x3FF2_E147_AE14_7AE1 /* 1.18 */)) {
        log_series(x - lit(HALF) - lit(HALF), lit(ZERO))
    } else if x.lt(lit(0x3FF9_1EB8_51EB_851F /* 1.57 */)) {
        let u = lit(0x3FE8_0000_0000_0000 /* 0.75 */) * x - lit(ONE);
        log_series(u, lit(LOG_B) + u / lit(THREE))
    } else {
        let r = x - lit(HALF) - lit(HALF);
        r - ln(m, x)
    }
}

/// `x - 1 - ln(x)`.
#[verifier::when_used_as_spec(rlog_spec)]
pub fn rlog<M: Fn(Elementary) -> F64>(m: &M, x: F64) -> (r: F64)
    requires
        lawful(m),
    ensures
        r == rlog(m, x),
{
    proof {
        reveal(rlog_spec);
    }
    if x.lt(lit(0x3FE3_851E_B851_EB85 /* 0.61 */)) {
        let r = x - lit(HALF) - lit(HALF);
        r - ln(m, x)
    } else if x.lt(lit(0x3FEA_3D70_A3D7_0A3D /* 0.82 */)) {
        let u = (x - lit(0x3FE6_6666_6666_6666 /* 0.7 */)) / lit(0x3FE6_6666_6666_6666 /* 0.7 */);
        log_series(u, lit(LOG_A) - u * lit(0x3FD3_3333_3333_3333 /* 0.3 */))
    } else if x.lt(lit(0x3FF2_E147_AE14_7AE1 /* 1.18 */)) {
        log_series(x - lit(HALF) - lit(HALF), lit(ZERO))
    } else if x.lt(lit(0x3FF9_1EB8_51EB_851F /* 1.57 */)) {
        let u = lit(0x3FE8_0000_0000_0000 /* 0.75 */) * x - lit(ONE);
        log_series(u, lit(LOG_B) + u / lit(THREE))
    } else {
        let r = x - lit(HALF) - lit(HALF);
        r - ln(m, x)
    }
}

#[verifier::opaque]
pub open spec fn rlog1_spec<M: Fn(Elementary) -> F64>(m: &M, x: F64) -> F64 {
    if !within(x, lit(0xBFD8_F5C2_8F5C_28F6 /* -0.39 */), lit(0x3FE2_3D70_A3D7_0A3D /* 0.57 */)) {
        let w = x + lit(HALF) + lit(HALF);
        x - ln(m, w)
    } else if x.lt(lit(0xBFC7_0A3D_70A3_D70A /* -0.18 */)) {
        let h = (x + lit(0x3FD3_3333_3333_3333 /* 0.3 */)) / lit(0x3FE6_6666_6666_6666 /* 0.7 */);
        log_series(h, lit(LOG_A) - h * lit(0x3FD3_3333_3333_3333 /* 0.3 */))
    } else if x.gt(lit(0x3FC7_0A3D_70A3_D70A /* 0.18 */)) {
        let h = lit(0x3FE8_0000_0000_0000 /* 0.75 */) * x - lit(QUARTER);
        log_series(h, lit(LOG_B) + h / lit(THREE))
    } else {
        log_series(x, lit(ZERO))
    }
}

/// `x - ln(1 + x)`.
#[verifier::when_used_as_spec(rlog1_spec)]
pub fn rlog1<M: Fn(Elementary) -> F64>(m: &M, x: F64) -> (r: F64)
    requires
        lawful(m),
    ensures
        r == rlog1(m, x),
{
    proof {
        reveal(rlog1_spec);
    }
    if !within(x, lit(0xBFD8_F5C2_8F5C_28F6 /* -0.39 */), lit(0x3FE2_3D70_A3D7_0A3D /* 0.57 */)) {
        let w = x + lit(HALF) + lit(HALF);
        x - ln(m, w)
    } else if x.lt(lit(0xBFC7_0A3D_70A3_D70A /* -0.18 */)) {
        let h = (x + lit(0x3FD3_3333_3333_3333 /* 0.3 */)) / lit(0x3FE6_6666_6666_6666 /* 0.7 */);
        log_series(h, lit(LOG_A) - h * lit(0x3FD3_3333_3333_3333 /* 0.3 */))
    } else if x.gt(lit(0x3FC7_0A3D_70A3_D70A /* 0.18 */)) {
        let h = lit(0x3FE8_0000_0000_0000 /* 0.75 */) * x - lit(QUARTER);
        log_series(h, lit(LOG_B) + h / lit(THREE))
    } else {
        log_series(x, lit(ZERO))
    }
}

/// 0.273076135303957
pub const GAM_S1: u64 = 0x3FD1_7A14_539C_B550;

/// 0.559398236957378e-1
pub const GAM_S2: u64 = 0x3FAC_A425_02A2_6800;

/// 0.577215664901533
pub const GAM_P0: u64 = 0x3FE2_788C_FC6F_B61A;

/// -0.409078193005776
pub const GAM_P1: u64 = 0xBFDA_2E56_4D1D_DC83;

/// -0.230975380857675
pub const GAM_P2: u64 = 0xBFCD_9099_ED7B_807C;

/// 0.597275330452234e-1
pub const GAM_P3: u64 = 0x3FAE_949B_7233_3263;

/// 0.766968181649490e-2
pub const GAM_P4: u64 = 0x3F7F_6A3E_8929_40B3;

/// -0.514889771323592e-2
pub const GAM_P5: u64 = 0xBF75_1702_B49E_EA17;

/// 0.589597428611429e-3
pub const GAM_P6: u64 = 0x3F43_51E6_D63B_8846;

/// 1.0
pub const GAM_Q0: u64 = 0x3FF0_0000_0000_0000;

/// 0.427569613095214
pub const GAM_Q1: u64 = 0x3FDB_5D4C_F040_77E4;

/// 0.158451672430138
pub const GAM_Q2: u64 = 0x3FC4_4824_F78A_BECB;

/// 0.261132021441447e-1
pub const GAM_Q3: u64 = 0x3F9A_BD6B_54CF_CF21;

/// 0.423244297896961e-2
pub const GAM_Q4: u64 = 0x3F71_5609_C2D4_6A68;

/// -0.422784335098468
pub const GAM_R0: u64 = 0xBFDB_0EE6_0720_93DE;

/// -0.771330383816272
pub const GAM_R1: u64 = 0xBFE8_AEBD_0E9C_DD50;

/// -0.244757765222226
pub const GAM_R2: u64 = 0xBFCF_5438_F289_2723;

/// 0.118378989872749
pub const GAM_R3: u64 = 0x3FBE_4E15_E209_7702;

/// 0.930357293360349e-3
pub const GAM_R4: u64 = 0x3F4E_7C67_1304_98BA;

/// -0.118290993445146e-1
pub const GAM_R5: u64 = 0xBF88_39DA_D69B_4A44;

/// 0.223047661158249e-2
pub const GAM_R6: u64 = 0x3F62_45A6_033D_5B04;

/// 0.266505979058923e-3
pub const GAM_R7: u64 = 0x3F31_773A_76D8_DC66;

/// -0.132674909766242e-3
pub const GAM_R8: u64 = 0xBF21_63D4_CC01_152C;

#[verifier::opaque]
pub open spec fn gam1_spec(a: F64) -> F64 {
    let d = a - lit(HALF);
    let t = if d.gt(lit(ZERO)) {
        d - lit(HALF)
    } else {
        a
    };
    if t.equals(lit(ZERO)) {
        lit(ZERO)
    } else if t.gt(lit(ZERO)) {
        let top = (((((lit(GAM_P6) * t + lit(GAM_P5)) * t + lit(GAM_P4)) * t + lit(GAM_P3)) * t
            + lit(GAM_P2)) * t + lit(GAM_P1)) * t + lit(GAM_P0);
        let bot = (((lit(GAM_Q4) * t + lit(GAM_Q3)) * t + lit(GAM_Q2)) * t + lit(GAM_Q1)) * t
            + lit(ONE);
        let w = top / bot;
        if d.le(lit(ZERO)) {
            a * w
        } else {
            t / a * (w - lit(HALF) - lit(HALF))
        }
    } else {
        let top = (((((((lit(GAM_R8) * t + lit(GAM_R7)) * t + lit(GAM_R6)) * t + lit(GAM_R5)) * t
            + lit(GAM_R4)) * t + lit(GAM_R3)) * t + lit(GAM_R2)) * t + lit(GAM_R1)) * t
            + lit(GAM_R0);
        let bot = (lit(GAM_S2) * t + lit(GAM_S1)) * t + lit(ONE);
        let w = top / bot;
        if d.le(lit(ZERO)) {
            a * (w + lit(HALF) + lit(HALF))
        } else {
            t * w / a
        }
    }
}

/// The reciprocal of the gamma function of `1 + a`, minus one, for `a` from -0.5 to
/// 1.5.
#[verifier::when_used_as_spec(gam1_spec)]
pub fn gam1(a: F64) -> (r: F64)
    ensures
        r == gam1(a),
{
    proof {
        reveal(gam1_spec);
    }
    let d = a - lit(HALF);
    let t = if d.gt(lit(ZERO)) {
        d - lit(HALF)
    } else {
        a
    };
    if t.equals(lit(ZERO)) {
        lit(ZERO)
    } else if t.gt(lit(ZERO)) {
        let top = (((((lit(GAM_P6) * t + lit(GAM_P5)) * t + lit(GAM_P4)) * t + lit(GAM_P3)) * t
            + lit(GAM_P2)) * t + lit(GAM_P1)) * t + lit(GAM_P0);
        let bot = (((lit(GAM_Q4) * t + lit(GAM_Q3)) * t + lit(GAM_Q2)) * t + lit(GAM_Q1)) * t
            + lit(ONE);
        let w = top / bot;
        if d.le(lit(ZERO)) {
            a * w
        } else {
            t / a * (w - lit(HALF) - lit(HALF))
        }
    } else {
        let top = (((((((lit(GAM_R8) * t + lit(GAM_R7)) * t + lit(GAM_R6)) * t + lit(GAM_R5)) * t
            + lit(GAM_R4)) * t + lit(GAM_R3)) * t + lit(GAM_R2)) * t + lit(GAM_R1)) * t
            + lit(GAM_R0);
        let bot = (lit(GAM_S2) * t + lit(GAM_S1)) * t + lit(ONE);
        let w = top / bot;
        if d.le(lit(ZERO)) {
            a * (w + lit(HALF) + lit(HALF))
        } else {
            t * w / a
        }
    }
}

/// 0.577215664901533
pub const LN1_P0: u64 = 0x3FE2_788C_FC6F_B61A;

/// 0.844203922187225
pub const LN1_P1: u64 = 0x3FEB_03B7_F19E_5EB3;

/// -0.168860593646662
pub const LN1_P2: u64 = 0xBFC5_9D39_53A5_D4DE;

/// -0.780427615533591
pub const LN1_P3: u64 = 0xBFE8_F943_55B3_95CA;

/// -0.402055799310489
pub const LN1_P4: u64 = 0xBFD9_BB48_3F4D_2A05;

/// -0.673562214325671e-1
pub const LN1_P5: u64 = 0xBFB1_3E41_E03C_299D;

/// -0.271935708322958e-2
pub const LN1_P6: u64 = 0xBF66_46E7_B7A2_C01C;

/// 0.288743195473681e1
pub const LN1_Q1: u64 = 0x4007_1975_ECB8_28DC;

/// 0.312755088914843e1
pub const LN1_Q2: u64 = 0x4009_0539_668B_BEEE;

/// 0.156875193295039e1
pub const LN1_Q3: u64 = 0x3FF9_199B_A078_F07A;

/// 0.361951990101499
pub const LN1_Q4: u64 = 0x3FD7_2A38_AE0D_50C1;

/// 0.325038868253937e-1
pub const LN1_Q5: u64 = 0x3FA0_A459_75D0_DEFB;

/// 0.667465618796164e-3
pub const LN1_Q6: u64 = 0x3F45_DF1B_8080_E82C;

/// 0.422784335098467
pub const LN1_R0: u64 = 0x3FDB_0EE6_0720_93CC;

/// 0.848044614534529
pub const LN1_R1: u64 = 0x3FEB_232E_759F_30F9;

/// 0.565221050691933
pub const LN1_R2: u64 = 0x3FE2_164A_74F7_718B;

/// 0.156513060486551
pub const LN1_R3: u64 = 0x3FC4_089E_B617_E2B8;

/// 0.170502484022650e-1
pub const LN1_R4: u64 = 0x3F91_759E_CD1B_09C3;

/// 0.497958207639485e-3
pub const LN1_R5: u64 = 0x3F40_512D_1BB9_1A1E;

/// 0.124313399877507e1
pub const LN1_S1: u64 = 0x3FF3_E3E0_79D4_8DD8;

/// 0.548042109832463
pub const LN1_S2: u64 = 0x3FE1_898F_9B51_F5EA;

/// 0.101552187439830
pub const LN1_S3: u64 = 0x3FB9_FF52_FBE4_2E52;

/// 0.713309612391000e-2
pub const LN1_S4: u64 = 0x3F7D_3797_E924_8701;

/// 0.116165475989616e-3
pub const LN1_S5: u64 = 0x3F1E_73BB_AE63_09A9;

#[verifier::opaque]
pub open spec fn gamma_ln1_spec(a: F64) -> F64 {
    if a.lt(lit(0x3FE3_3333_3333_3333 /* 0.6 */)) {
        let num = (((((lit(LN1_P6) * a + lit(LN1_P5)) * a + lit(LN1_P4)) * a + lit(LN1_P3)) * a
            + lit(LN1_P2)) * a + lit(LN1_P1)) * a + lit(LN1_P0);
        let den = (((((lit(LN1_Q6) * a + lit(LN1_Q5)) * a + lit(LN1_Q4)) * a + lit(LN1_Q3)) * a
            + lit(LN1_Q2)) * a + lit(LN1_Q1)) * a + lit(ONE);
        (a * (num / den)).negated()
    } else {
        let x = a - lit(HALF) - lit(HALF);
        let num = ((((lit(LN1_R5) * x + lit(LN1_R4)) * x + lit(LN1_R3)) * x + lit(LN1_R2)) * x
            + lit(LN1_R1)) * x + lit(LN1_R0);
        let den = ((((lit(LN1_S5) * x + lit(LN1_S4)) * x + lit(LN1_S3)) * x + lit(LN1_S2)) * x
            + lit(LN1_S1)) * x + lit(ONE);
        x * (num / den)
    }
}

/// The logarithm of the gamma function of `1 + a`, for `a` from -0.2 to 1.25.
#[verifier::when_used_as_spec(gamma_ln1_spec)]
pub fn gamma_ln1(a: F64) -> (r: F64)
    ensures
        r == gamma_ln1(a),
{
    proof {
        reveal(gamma_ln1_spec);
    }
    if a.lt(lit(0x3FE3_3333_3333_3333 /* 0.6 */)) {
        let num = (((((lit(LN1_P6) * a + lit(LN1_P5)) * a + lit(LN1_P4)) * a + lit(LN1_P3)) * a
            + lit(LN1_P2)) * a + lit(LN1_P1)) * a + lit(LN1_P0);
        let den = (((((lit(LN1_Q6) * a + lit(LN1_Q5)) * a + lit(LN1_Q4)) * a + lit(LN1_Q3)) * a
            + lit(LN1_Q2)) * a + lit(LN1_Q1)) * a + lit(ONE);
        (a * (num / den)).negated()
    } else {
        let x = a - lit(HALF) - lit(HALF);
        let num = ((((lit(LN1_R5) * x + lit(LN1_R4)) * x + lit(LN1_R3)) * x + lit(LN1_R2)) * x
            + lit(LN1_R1)) * x + lit(LN1_R0);
        let den = ((((lit(LN1_S5) * x + lit(LN1_S4)) * x + lit(LN1_S3)) * x + lit(LN1_S2)) * x
            + lit(LN1_S1)) * x + lit(ONE);
        x * (num / den)
    }
}

/// Why the gamma function has no value in range.
#[derive(Clone, Copy, Debug, PartialEq, Eq, Structural)]
pub enum GammaDomainError {
    Pole(F64),
    Overflow(F64),
    Underflow(F64),
}

/// Why the digamma function has no value in range.
#[derive(Clone, Copy, Debug, PartialEq, Eq, Structural)]
pub enum PsiError {
    Pole(F64),
    Overflow(F64),
}

pub open spec fn descend_spec(x: F64, t: F64, n: u64) -> (F64, F64)
    decreases n,
{
    if n == 0 {
        (x, t)
    } else {
        let y = x - lit(ONE);
        descend_spec(y, t * y, (n - 1) as u64)
    }
}

/// Goes down by ones `n` times, multiplying the numbers met.
#[verifier::when_used_as_spec(descend_spec)]
pub fn descend(x_init: F64, t_init: F64, n: u64) -> (r: (F64, F64))
    ensures
        r == descend(x_init, t_init, n),
{
    let mut x = x_init;
    let mut t = t_init;
    let mut left: u64 = n;
    while left > 0
        invariant
            left <= n,
            descend(x_init, t_init, n)
                == descend(x, t, left),
        decreases left,
    {
        let y = x - lit(ONE);
        let next_x = y;
        let next_t = t * y;
        x = next_x;
        t = next_t;
        left = left - 1;
    }
    (x, t)
}

pub open spec fn ascend_spec(x: F64, t: F64, n: u64) -> (F64, F64)
    decreases n,
{
    if n == 0 {
        (x, t)
    } else {
        let y = x + lit(ONE);
        ascend_spec(y, t * y, (n - 1) as u64)
    }
}

/// Goes up by ones `n` times, multiplying the numbers met.
#[verifier::when_used_as_spec(ascend_spec)]
pub fn ascend(x_init: F64, t_init: F64, n: u64) -> (r: (F64, F64))
    ensures
        r == ascend(x_init, t_init, n),
{
    let mut x = x_init;
    let mut t = t_init;
    let mut left: u64 = n;
    while left > 0
        invariant
            left <= n,
            ascend(x_init, t_init, n)
                == ascend(x, t, left),
        decreases left,
    {
        let y = x + lit(ONE);
        let next_x = y;
        let next_t = t * y;
        x = next_x;
        t = next_t;
        left = left - 1;
    }
    (x, t)
}

/// 0.41893853320467274178
pub const GAMMA_D: u64 = 0x3FDA_CFE3_90C9_7D69;

/// 3.1415926535898
pub const GAMMA_PI: u64 = 0x4009_21FB_5444_2D28;

/// 0.539637273585445e-3
pub const GAMMA_P0: u64 = 0x3F41_AECE_388B_5520;

/// 0.261939260042690e-2
pub const GAMMA_P1: u64 = 0x3F65_7543_B1BC_273E;

/// 0.204493667594920e-1
pub const GAMMA_P2: u64 = 0x3F94_F0AD_C5D2_DEB2;

/// 0.730981088720487e-1
pub const GAMMA_P3: u64 = 0x3FB2_B68E_C301_40E8;

/// 0.279648642639792
pub const GAMMA_P4: u64 = 0x3FD1_E5C3_6BA0_8E81;

/// 0.553413866010467
pub const GAMMA_P5: u64 = 0x3FE1_B590_FEF5_5F4A;

/// 1.0
pub const GAMMA_P6: u64 = 0x3FF0_0000_0000_0000;

/// -0.832979206704073e-3
pub const GAMMA_Q0: u64 = 0xBF4B_4B89_39BB_BEAD;

/// 0.470059485860584e-2
pub const GAMMA_Q1: u64 = 0x3F73_40EE_5308_04EE;

/// 0.225211131035340e-1
pub const GAMMA_Q2: u64 = 0x3F97_0FC6_50FF_2D21;

/// -0.170458969313360
pub const GAMMA_Q3: u64 = 0xBFC5_D199_7941_6037;

/// -0.567902761974940e-1
pub const GAMMA_Q4: u64 = 0xBFAD_139D_75FF_82B1;

/// 0.113062953091122e1
pub const GAMMA_Q5: u64 = 0x3FF2_170E_FDB2_7CF9;

/// 1.0
pub const GAMMA_Q6: u64 = 0x3FF0_0000_0000_0000;

/// 0.820756370353826e-3
pub const GAMMA_R1: u64 = 0x3F4A_E500_E263_3B9D;

/// -0.595156336428591e-3
pub const GAMMA_R2: u64 = 0xBF43_8088_801F_B7F0;

/// 0.793650663183693e-3
pub const GAMMA_R3: u64 = 0x3F4A_019F_D248_036A;

/// -0.277777777770481e-2
pub const GAMMA_R4: u64 = 0xBF66_C16C_16BE_DADB;

/// 0.833333333333333e-1
pub const GAMMA_R5: u64 = 0x3FB5_5555_5555_5553;

/// 709.775_615_066_259_888_4
pub const POS_EXPARG: u64 = 0x4086_2E34_75AB_FEF8;

#[verifier::opaque]
pub open spec fn gamma_unit_spec(x: F64) -> F64 {
    let top = lit(GAMMA_P6) + x * (lit(GAMMA_P5) + x
        * (lit(GAMMA_P4) + x * (lit(GAMMA_P3) + x * (lit(GAMMA_P2) + x
        * (lit(GAMMA_P1) + x * lit(GAMMA_P0))))));
    let bot = lit(GAMMA_Q6) + x * (lit(GAMMA_Q5) + x
        * (lit(GAMMA_Q4) + x * (lit(GAMMA_Q3) + x * (lit(GAMMA_Q2) + x
        * (lit(GAMMA_Q1) + x * lit(GAMMA_Q0))))));
    top / bot
}

/// The gamma function of `1 + x`, for `x` from 0 to 1.
#[verifier::when_used_as_spec(gamma_unit_spec)]
pub fn gamma_unit(x: F64) -> (r: F64)
    ensures
        r == gamma_unit(x),
{
    proof {
        reveal(gamma_unit_spec);
    }
    let top = lit(GAMMA_P6) + x * (lit(GAMMA_P5) + x
        * (lit(GAMMA_P4) + x * (lit(GAMMA_P3) + x * (lit(GAMMA_P2) + x
        * (lit(GAMMA_P1) + x * lit(GAMMA_P0))))));
    let bot = lit(GAMMA_Q6) + x * (lit(GAMMA_Q5) + x
        * (lit(GAMMA_Q4) + x * (lit(GAMMA_Q3) + x * (lit(GAMMA_Q2) + x
        * (lit(GAMMA_Q1) + x * lit(GAMMA_Q0))))));
    top / bot
}

#[verifier::opaque]
pub open spec fn gamma_scaled_spec(a: F64, x: F64, t: F64) -> F64 {
    let g = gamma_unit(x);
    if a.lt(lit(ONE)) {
        g / t
    } else {
        g * t
    }
}

/// The gamma function of `a` from the factors `t` that bring it to the unit
/// interval, at `x` there.
#[verifier::when_used_as_spec(gamma_scaled_spec)]
pub fn gamma_scaled(a: F64, x: F64, t: F64) -> (r: F64)
    ensures
        r == gamma_scaled(a, x, t),
{
    proof {
        reveal(gamma_scaled_spec);
    }
    let g = gamma_unit(x);
    if a.lt(lit(ONE)) {
        g / t
    } else {
        g * t
    }
}

pub open spec fn gamma_below_one_spec(a: F64, x: F64, t: F64) -> Result<F64, GammaDomainError> {
    if t.abs().lt(lit(0x39B4_484B_FEEB_C2A0 /* 1e-30 */))
        && (t.abs() * lit(MAX)).le(lit(0x3FF0_0068_DB8B_AC71 /* 1.0001 */)) {
        Err(GammaDomainError::Overflow(a))
    } else if t.abs().lt(lit(0x39B4_484B_FEEB_C2A0 /* 1e-30 */)) {
        Ok(lit(ONE) / t)
    } else {
        Ok(gamma_scaled(a, x, t))
    }
}

/// The gamma function below one: `t` is the product of the factors.
#[verifier::when_used_as_spec(gamma_below_one_spec)]
pub fn gamma_below_one(a: F64, x: F64, t: F64) -> (r: Result<F64, GammaDomainError>)
    ensures
        r == gamma_below_one(a, x, t),
{
    if t.abs().lt(lit(0x39B4_484B_FEEB_C2A0 /* 1e-30 */))
        && (t.abs() * lit(MAX)).le(lit(0x3FF0_0068_DB8B_AC71 /* 1.0001 */)) {
        Err(GammaDomainError::Overflow(a))
    } else if t.abs().lt(lit(0x39B4_484B_FEEB_C2A0 /* 1e-30 */)) {
        Ok(lit(ONE) / t)
    } else {
        Ok(gamma_scaled(a, x, t))
    }
}

#[verifier::opaque]
pub open spec fn gamma_small_spec(a: F64) -> Result<F64, GammaDomainError> {
    let k = a.to_i64();
    if k >= 1 {
        let walk = descend(a, lit(ONE), (k - 1) as u64);
        Ok(gamma_scaled(a, walk.0 - lit(ONE), walk.1))
    } else if a.le(lit(ZERO)) {
        let walk = ascend(a, a, a.negated().to_u64());
        let x = walk.0 + (lit(HALF) + lit(HALF));
        let t = walk.1 * x;
        if t.equals(lit(ZERO)) {
            Err(GammaDomainError::Pole(a))
        } else {
            gamma_below_one(a, x, t)
        }
    } else {
        gamma_below_one(a, a, a)
    }
}

/// The gamma function of a number of magnitude below 15.
#[verifier::when_used_as_spec(gamma_small_spec)]
pub fn gamma_small(a: F64) -> (r: Result<F64, GammaDomainError>)
    ensures
        r == gamma_small(a),
{
    proof {
        reveal(gamma_small_spec);
    }
    let k: i64 = a.to_i64();
    if k >= 1 {
        let walk = descend(a, lit(ONE), (k - 1) as u64);
        Ok(gamma_scaled(a, walk.0 - lit(ONE), walk.1))
    } else if a.le(lit(ZERO)) {
        let walk = ascend(a, a, a.negated().to_u64());
        let x = walk.0 + (lit(HALF) + lit(HALF));
        let t = walk.1 * x;
        if t.equals(lit(ZERO)) {
            Err(GammaDomainError::Pole(a))
        } else {
            gamma_below_one(a, x, t)
        }
    } else {
        gamma_below_one(a, a, a)
    }
}

#[verifier::opaque]
pub open spec fn reflection_spec<M: Fn(Elementary) -> F64>(m: &M, x: F64) -> F64 {
    let n = x.to_u64();
    let r = x - F64::from_u64(n);
    let t = if r.gt(lit(0x3FEC_CCCC_CCCC_CCCD /* 0.9 */)) {
        lit(ONE) - r
    } else {
        r
    };
    let s = sin(m, lit(GAMMA_PI) * t) / lit(GAMMA_PI);
    if n % 2 == 0 {
        s.negated()
    } else {
        s
    }
}

/// The sine factor of the reflection formula, for a negative argument of magnitude
/// `x`.
#[verifier::when_used_as_spec(reflection_spec)]
pub fn reflection<M: Fn(Elementary) -> F64>(m: &M, x: F64) -> (r: F64)
    requires
        lawful(m),
    ensures
        r == reflection(m, x),
{
    proof {
        reveal(reflection_spec);
    }
    let n: u64 = x.to_u64();
    let r = x - F64::from_u64(n);
    let t = if r.gt(lit(0x3FEC_CCCC_CCCC_CCCD /* 0.9 */)) {
        lit(ONE) - r
    } else {
        r
    };
    let s = sin(m, lit(GAMMA_PI) * t) / lit(GAMMA_PI);
    if n % 2 == 0 {
        s.negated()
    } else {
        s
    }
}

#[verifier::opaque]
pub open spec fn gamma_large_spec<M: Fn(Elementary) -> F64>(
    m: &M,
    a: F64,
    x: F64,
    s: F64,
) -> Result<F64, GammaDomainError> {
    let t = lit(ONE) / (x * x);
    let g = ((((lit(GAMMA_R1) * t + lit(GAMMA_R2)) * t + lit(GAMMA_R3)) * t + lit(GAMMA_R4)) * t
        + lit(GAMMA_R5)) / x;
    let w = lit(GAMMA_D) + g + (x - lit(HALF)) * (ln(m, x) - lit(ONE));
    if w.gt(lit(0x3FEF_FFEB_074A_771D /* 0.99999 */) * lit(POS_EXPARG)) {
        Err(GammaDomainError::Overflow(a))
    } else {
        let result = exp(m, w) * (lit(ONE) + (w - w));
        if a.lt(lit(ZERO)) {
            Ok(lit(ONE) / (result * s) / x)
        } else {
            Ok(result)
        }
    }
}

/// The gamma function of a number of magnitude 15 or more; `s` is the sine factor
/// where the number is negative and of magnitude `x`.
#[verifier::when_used_as_spec(gamma_large_spec)]
pub fn gamma_large<M: Fn(Elementary) -> F64>(
    m: &M,
    a: F64,
    x: F64,
    s: F64,
) -> (r: Result<F64, GammaDomainError>)
    requires
        lawful(m),
    ensures
        r == gamma_large(m, a, x, s),
{
    proof {
        reveal(gamma_large_spec);
    }
    let t = lit(ONE) / (x * x);
    let g = ((((lit(GAMMA_R1) * t + lit(GAMMA_R2)) * t + lit(GAMMA_R3)) * t + lit(GAMMA_R4)) * t
        + lit(GAMMA_R5)) / x;
    let w = lit(GAMMA_D) + g + (x - lit(HALF)) * (ln(m, x) - lit(ONE));
    if w.gt(lit(0x3FEF_FFEB_074A_771D /* 0.99999 */) * lit(POS_EXPARG)) {
        Err(GammaDomainError::Overflow(a))
    } else {
        let result = exp(m, w) * (lit(ONE) + (w - w));
        if a.lt(lit(ZERO)) {
            Ok(lit(ONE) / (result * s) / x)
        } else {
            Ok(result)
        }
    }
}

pub open spec fn try_gamma_spec<M: Fn(Elementary) -> F64>(
    m: &M,
    a: F64,
) -> Result<F64, GammaDomainError> {
    if a.abs().lt(lit(0x402E_0000_0000_0000 /* 15.0 */)) {
        gamma_small(a)
    } else if a.ge(lit(0x408F_4000_0000_0000 /* 1e3 */)) {
        Err(GammaDomainError::Overflow(a))
    } else if a.le(lit(0xC08F_4000_0000_0000 /* -1e3 */)) {
        Err(GammaDomainError::Underflow(a))
    } else if a.le(lit(ZERO)) {
        let s = reflection(m, a.negated());
        if s.equals(lit(ZERO)) {
            Err(GammaDomainError::Pole(a))
        } else {
            gamma_large(m, a, a.negated(), s)
        }
    } else {
        gamma_large(m, a, a, lit(ZERO))
    }
}

/// The gamma function.
#[verifier::when_used_as_spec(try_gamma_spec)]
pub fn try_gamma<M: Fn(Elementary) -> F64>(m: &M, a: F64) -> (r: Result<F64, GammaDomainError>)
    requires
        lawful(m),
    ensures
        r == try_gamma(m, a),
{
    if a.abs().lt(lit(0x402E_0000_0000_0000 /* 15.0 */)) {
        gamma_small(a)
    } else if a.ge(lit(0x408F_4000_0000_0000 /* 1e3 */)) {
        Err(GammaDomainError::Overflow(a))
    } else if a.le(lit(0xC08F_4000_0000_0000 /* -1e3 */)) {
        Err(GammaDomainError::Underflow(a))
    } else if a.le(lit(ZERO)) {
        let s = reflection(m, a.negated());
        if s.equals(lit(ZERO)) {
            Err(GammaDomainError::Pole(a))
        } else {
            gamma_large(m, a, a.negated(), s)
        }
    } else {
        gamma_large(m, a, a, lit(ZERO))
    }
}

/// The value of the gamma function where it has one, else NaN.
pub open spec fn gamma_value_spec<M: Fn(Elementary) -> F64>(m: &M, a: F64) -> F64 {
    match try_gamma(m, a) {
        Ok(g) => g,
        Err(_) => lit(NAN),
    }
}

/// The value of the gamma function where it has one, else NaN.
#[verifier::when_used_as_spec(gamma_value_spec)]
pub fn gamma_value<M: Fn(Elementary) -> F64>(m: &M, a: F64) -> (r: F64)
    requires
        lawful(m),
    ensures
        r == gamma_value(m, a),
{
    match try_gamma(m, a) {
        Ok(g) => g,
        Err(_) => lit(NAN),
    }
}

/// The gamma function; NaN of NaN.
pub fn gamma<M: Fn(Elementary) -> F64>(m: &M, a: F64) -> (r: F64)
    requires
        lawful(m),
        a.is_nan() || try_gamma(m, a) is Ok,
    ensures
        a.is_nan() ==> r == lit(NAN),
        !a.is_nan() ==> try_gamma(m, a) == Ok::<F64, GammaDomainError>(r),
{
    if a.is_nan() {
        lit(NAN)
    } else {
        gamma_value(m, a)
    }
}

/// 1.461632144968362341262659542325721325
pub const PSI_DX0: u64 = 0x3FF7_62D8_6356_BE3F;

/// 0.785398163397448
pub const PSI_PIOV4: u64 = 0x3FE9_21FB_5444_2D15;

/// 0.895385022981970e-2
pub const PSI_P1_0: u64 = 0x3F82_5665_6F48_699E;

/// 0.477762828042627e1
pub const PSI_P1_1: u64 = 0x4013_1C4A_9683_808F;

/// 0.142441585084029e3
pub const PSI_P1_2: u64 = 0x4061_CE21_770A_C9CA;

/// 0.118645200713425e4
pub const PSI_P1_3: u64 = 0x4092_89CE_DAF5_4CA6;

/// 0.363351846806499e4
pub const PSI_P1_4: u64 = 0x40AC_6309_74A5_6E4E;

/// 0.413810161269013e4
pub const PSI_P1_5: u64 = 0x40B0_2A1A_034A_0CF8;

/// 0.130560269827897e4
pub const PSI_P1_6: u64 = 0x4094_6669_29BC_D620;

/// -0.212940445131011e1
pub const PSI_P2_0: u64 = 0xC001_0905_3372_AB83;

/// -0.701677227766759e1
pub const PSI_P2_1: u64 = 0xC01C_112C_C080_3F36;

/// -0.448616543918019e1
pub const PSI_P2_2: u64 = 0xC011_F1D5_5A56_E5C7;

/// -0.648157123766197
pub const PSI_P2_3: u64 = 0xBFE4_BDB4_0227_D903;

/// 0.448452573429826e2
pub const PSI_Q1_0: u64 = 0x4046_6C31_6482_6835;

/// 0.520752771467162e3
pub const PSI_Q1_1: u64 = 0x4080_4605_AD0C_0695;

/// 0.221000799247830e4
pub const PSI_Q1_2: u64 = 0x40A1_4404_1797_11D3;

/// 0.364127349079381e4
pub const PSI_Q1_3: u64 = 0x40AC_728C_06FC_3E58;

/// 0.190831076596300e4
pub const PSI_Q1_4: u64 = 0x409D_D13E_396E_BF2E;

/// 0.691091682714533e-5
pub const PSI_Q1_5: u64 = 0x3EDC_FC8A_5A3E_14AF;

/// 0.322703493791143e2
pub const PSI_Q2_0: u64 = 0x4040_229A_CEF6_E519;

/// 0.892920700481861e2
pub const PSI_Q2_1: u64 = 0x4056_52B1_4692_466E;

/// 0.546117738103215e2
pub const PSI_Q2_2: u64 = 0x404B_4E4E_9AAD_F0A9;

/// 0.777788548522962e1
pub const PSI_Q2_3: u64 = 0x401F_1C8E_033C_6093;

/// 2147483647.0
pub const PSI_XMAX: u64 = 0x41DF_FFFF_FFC0_0000;

#[verifier::opaque]
pub open spec fn psi_right_spec<M: Fn(Elementary) -> F64>(m: &M, x: F64, aug: F64) -> F64 {
    if x.le(lit(THREE)) {
        let den = ((((x + lit(PSI_Q1_0)) * x + lit(PSI_Q1_1)) * x + lit(PSI_Q1_2)) * x
            + lit(PSI_Q1_3)) * x + lit(PSI_Q1_4);
        let upper = ((((lit(PSI_P1_0) * x + lit(PSI_P1_1)) * x + lit(PSI_P1_2)) * x
            + lit(PSI_P1_3)) * x + lit(PSI_P1_4)) * x + lit(PSI_P1_5);
        let quot = (upper * x + lit(PSI_P1_6)) / (den * x + lit(PSI_Q1_5));
        quot * (x - lit(PSI_DX0)) + aug
    } else if x.lt(lit(PSI_XMAX)) {
        let w = lit(ONE) / x / x;
        let den = ((w + lit(PSI_Q2_0)) * w + lit(PSI_Q2_1)) * w + lit(PSI_Q2_2);
        let upper = ((lit(PSI_P2_0) * w + lit(PSI_P2_1)) * w + lit(PSI_P2_2)) * w + lit(PSI_P2_3);
        let tail = upper * w / (den * w + lit(PSI_Q2_3)) - lit(HALF) / x + aug;
        tail + ln(m, x)
    } else {
        aug + ln(m, x)
    }
}

/// The digamma function from one half up, plus a term of the reflection.
#[verifier::when_used_as_spec(psi_right_spec)]
pub fn psi_right<M: Fn(Elementary) -> F64>(m: &M, x: F64, aug: F64) -> (r: F64)
    requires
        lawful(m),
    ensures
        r == psi_right(m, x, aug),
{
    proof {
        reveal(psi_right_spec);
    }
    if x.le(lit(THREE)) {
        let den = ((((x + lit(PSI_Q1_0)) * x + lit(PSI_Q1_1)) * x + lit(PSI_Q1_2)) * x
            + lit(PSI_Q1_3)) * x + lit(PSI_Q1_4);
        let upper = ((((lit(PSI_P1_0) * x + lit(PSI_P1_1)) * x + lit(PSI_P1_2)) * x
            + lit(PSI_P1_3)) * x + lit(PSI_P1_4)) * x + lit(PSI_P1_5);
        let quot = (upper * x + lit(PSI_P1_6)) / (den * x + lit(PSI_Q1_5));
        quot * (x - lit(PSI_DX0)) + aug
    } else if x.lt(lit(PSI_XMAX)) {
        let w = lit(ONE) / x / x;
        let den = ((w + lit(PSI_Q2_0)) * w + lit(PSI_Q2_1)) * w + lit(PSI_Q2_2);
        let upper = ((lit(PSI_P2_0) * w + lit(PSI_P2_1)) * w + lit(PSI_P2_2)) * w + lit(PSI_P2_3);
        let tail = upper * w / (den * w + lit(PSI_Q2_3)) - lit(HALF) / x + aug;
        tail + ln(m, x)
    } else {
        aug + ln(m, x)
    }
}

#[verifier::opaque]
pub open spec fn psi_reflection_spec<M: Fn(Elementary) -> F64>(
    m: &M,
    w0: F64,
    sgn0: F64,
) -> Option<F64> {
    let w = w0 - F64::from_u64(w0.to_u64());
    let nq = (w * lit(FOUR)).to_u64();
    let v = lit(FOUR) * (w - F64::from_u64(nq) * lit(QUARTER));
    let n = nq / 2;
    let u = if nq % 2 != 0 {
        lit(ONE) - v
    } else {
        v
    };
    let z = lit(PSI_PIOV4) * u;
    let sgn = if n % 2 != 0 {
        sgn0.negated()
    } else {
        sgn0
    };
    if nq % 4 == 0 || nq % 4 == 3 {
        if z.equals(lit(ZERO)) {
            None
        } else {
            Some(lit(FOUR) * sgn * (cos(m, z) / sin(m, z)))
        }
    } else {
        Some(lit(FOUR) * sgn * (sin(m, z) / cos(m, z)))
    }
}

/// The cotangent term of the reflection, for a fraction `w` of a half turn with the
/// sign `sgn`: the quarters are taken off first. Nothing at a pole.
#[verifier::when_used_as_spec(psi_reflection_spec)]
pub fn psi_reflection<M: Fn(Elementary) -> F64>(m: &M, w0: F64, sgn0: F64) -> (r: Option<F64>)
    requires
        lawful(m),
    ensures
        r == psi_reflection(m, w0, sgn0),
{
    proof {
        reveal(psi_reflection_spec);
    }
    let w = w0 - F64::from_u64(w0.to_u64());
    let nq: u64 = (w * lit(FOUR)).to_u64();
    let v = lit(FOUR) * (w - F64::from_u64(nq) * lit(QUARTER));
    let n: u64 = nq / 2;
    let u = if nq % 2 != 0 {
        lit(ONE) - v
    } else {
        v
    };
    let z = lit(PSI_PIOV4) * u;
    let sgn = if n % 2 != 0 {
        sgn0.negated()
    } else {
        sgn0
    };
    if nq % 4 == 0 || nq % 4 == 3 {
        if z.equals(lit(ZERO)) {
            None
        } else {
            Some(lit(FOUR) * sgn * (cos(m, z) / sin(m, z)))
        }
    } else {
        Some(lit(FOUR) * sgn * (sin(m, z) / cos(m, z)))
    }
}

pub open spec fn try_psi_spec<M: Fn(Elementary) -> F64>(m: &M, xx: F64) -> Result<F64, PsiError> {
    if xx.equals(lit(ZERO)) {
        Err(PsiError::Pole(xx))
    } else if xx.lt(lit(HALF)) {
        if xx.abs().le(lit(0x3E11_2E0B_E826_D695 /* 1.0e-9 */)) {
            Ok(psi_right(m, lit(ONE) - xx, lit(0xBFF0_0000_0000_0000 /* -1.0 */) / xx))
        } else {
            let w = if xx.negated().le(lit(ZERO)) {
                xx
            } else {
                xx.negated()
            };
            let sgn = if xx.negated().le(lit(ZERO)) {
                lit(PSI_PIOV4).negated()
            } else {
                lit(PSI_PIOV4)
            };
            if w.ge(lit(PSI_XMAX)) {
                Err(PsiError::Overflow(xx))
            } else {
                match psi_reflection(m, w, sgn) {
                    None => Err(PsiError::Pole(xx)),
                    Some(aug) => Ok(psi_right(m, lit(ONE) - xx, aug)),
                }
            }
        }
    } else {
        Ok(psi_right(m, xx, lit(ZERO)))
    }
}

/// The digamma function.
#[verifier::when_used_as_spec(try_psi_spec)]
pub fn try_psi<M: Fn(Elementary) -> F64>(m: &M, xx: F64) -> (r: Result<F64, PsiError>)
    requires
        lawful(m),
    ensures
        r == try_psi(m, xx),
{
    if xx.equals(lit(ZERO)) {
        Err(PsiError::Pole(xx))
    } else if xx.lt(lit(HALF)) {
        if xx.abs().le(lit(0x3E11_2E0B_E826_D695 /* 1.0e-9 */)) {
            Ok(psi_right(m, lit(ONE) - xx, lit(0xBFF0_0000_0000_0000 /* -1.0 */) / xx))
        } else {
            let w = if xx.negated().le(lit(ZERO)) {
                xx
            } else {
                xx.negated()
            };
            let sgn = if xx.negated().le(lit(ZERO)) {
                lit(PSI_PIOV4).negated()
            } else {
                lit(PSI_PIOV4)
            };
            if w.ge(lit(PSI_XMAX)) {
                Err(PsiError::Overflow(xx))
            } else {
                match psi_reflection(m, w, sgn) {
                    None => Err(PsiError::Pole(xx)),
                    Some(aug) => Ok(psi_right(m, lit(ONE) - xx, aug)),
                }
            }
        }
    } else {
        Ok(psi_right(m, xx, lit(ZERO)))
    }
}

/// The value of the digamma function where it has one, else NaN.
pub open spec fn psi_value_spec<M: Fn(Elementary) -> F64>(m: &M, a: F64) -> F64 {
    match try_psi(m, a) {
        Ok(g) => g,
        Err(_) => lit(NAN),
    }
}

/// The value of the digamma function where it has one, else NaN.
#[verifier::when_used_as_spec(psi_value_spec)]
pub fn psi_value<M: Fn(Elementary) -> F64>(m: &M, a: F64) -> (r: F64)
    requires
        lawful(m),
    ensures
        r == psi_value(m, a),
{
    match try_psi(m, a) {
        Ok(g) => g,
        Err(_) => lit(NAN),
    }
}

/// The digamma function; NaN of NaN.
pub fn psi<M: Fn(Elementary) -> F64>(m: &M, xx: F64) -> (r: F64)
    requires
        lawful(m),
        xx.is_nan() || try_psi(m, xx) is Ok,
    ensures
        xx.is_nan() ==> r == lit(NAN),
        !xx.is_nan() ==> try_psi(m, xx) == Ok::<F64, PsiError>(r),
{
    if xx.is_nan() {
        lit(NAN)
    } else {
        psi_value(m, xx)
    }
}

/// 0.833333333333333e-1
pub const LG_C0: u64 = 0x3FB5_5555_5555_5553;

/// -0.277777777760991e-2
pub const LG_C1: u64 = 0xBF66_C16C_16BB_8412;

/// 0.793650666825390e-3
pub const LG_C2: u64 = 0x3F4A_019F_D448_8960;

/// -0.595202931351870e-3
pub const LG_C3: u64 = 0xBF43_80EC_8FF4_30DF;

/// 0.837308034031215e-3
pub const LG_C4: u64 = 0x3F4B_6FD9_4FB9_4A6B;

/// -0.165322962780713e-2
pub const LG_C5: u64 = 0xBF5B_1625_CBCA_1838;

/// 0.418938533204673
pub const LG_D: u64 = 0x3FDA_CFE3_90C9_7D6E;

#[verifier::opaque]
pub open spec fn gamma_log_spec<M: Fn(Elementary) -> F64>(m: &M, a: F64) -> F64 {
    if a.le(lit(0x3FE9_9999_9999_999A /* 0.8 */)) {
        gamma_ln1(a) - ln(m, a)
    } else if a.le(lit(0x4002_0000_0000_0000 /* 2.25 */)) {
        gamma_ln1(a - lit(HALF) - lit(HALF))
    } else if a.lt(lit(TEN)) {
        let walk = descend(a, lit(ONE), (a - lit(0x3FF4_0000_0000_0000 /* 1.25 */)).to_u64());
        gamma_ln1(walk.0 - lit(ONE)) + ln(m, walk.1)
    } else {
        let t = lit(ONE) / (a * a);
        let w = (((((lit(LG_C5) * t + lit(LG_C4)) * t + lit(LG_C3)) * t + lit(LG_C2)) * t
            + lit(LG_C1)) * t + lit(LG_C0)) / a;
        lit(LG_D) + w + (a - lit(HALF)) * (ln(m, a) - lit(ONE))
    }
}

/// The logarithm of the gamma function of a positive number.
#[verifier::when_used_as_spec(gamma_log_spec)]
pub fn gamma_log<M: Fn(Elementary) -> F64>(m: &M, a: F64) -> (r: F64)
    requires
        lawful(m),
    ensures
        r == gamma_log(m, a),
{
    proof {
        reveal(gamma_log_spec);
    }
    if a.le(lit(0x3FE9_9999_9999_999A /* 0.8 */)) {
        gamma_ln1(a) - ln(m, a)
    } else if a.le(lit(0x4002_0000_0000_0000 /* 2.25 */)) {
        gamma_ln1(a - lit(HALF) - lit(HALF))
    } else if a.lt(lit(TEN)) {
        let walk = descend(a, lit(ONE), (a - lit(0x3FF4_0000_0000_0000 /* 1.25 */)).to_u64());
        gamma_ln1(walk.0 - lit(ONE)) + ln(m, walk.1)
    } else {
        let t = lit(ONE) / (a * a);
        let w = (((((lit(LG_C5) * t + lit(LG_C4)) * t + lit(LG_C3)) * t + lit(LG_C2)) * t
            + lit(LG_C1)) * t + lit(LG_C0)) / a;
        lit(LG_D) + w + (a - lit(HALF)) * (ln(m, a) - lit(ONE))
    }
}

#[verifier::opaque]
pub open spec fn gsumln_spec<M: Fn(Elementary) -> F64>(m: &M, a: F64, b: F64) -> F64 {
    let x = a + b - lit(TWO);
    if x.le(lit(QUARTER)) {
        gamma_ln1(lit(ONE) + x)
    } else if x.le(lit(0x3FF4_0000_0000_0000 /* 1.25 */)) {
        gamma_ln1(x) + alnrel(m, x)
    } else {
        gamma_ln1(x - lit(ONE)) + ln(m, x * (lit(ONE) + x))
    }
}

/// The logarithm of the gamma function of `a + b`, for `a` and `b` from 1 to 2.
#[verifier::when_used_as_spec(gsumln_spec)]
pub fn gsumln<M: Fn(Elementary) -> F64>(m: &M, a: F64, b: F64) -> (r: F64)
    requires
        lawful(m),
    ensures
        r == gsumln(m, a, b),
{
    proof {
        reveal(gsumln_spec);
    }
    let x = a + b - lit(TWO);
    if x.le(lit(QUARTER)) {
        gamma_ln1(lit(ONE) + x)
    } else if x.le(lit(0x3FF4_0000_0000_0000 /* 1.25 */)) {
        gamma_ln1(x) + alnrel(m, x)
    } else {
        gamma_ln1(x - lit(ONE)) + ln(m, x * (lit(ONE) + x))
    }
}

/// 0.0
pub const STIRLING0: u64 = 0x0000_0000_0000_0000;

/// 0.0833333333333333333333333333333
pub const STIRLING1: u64 = 0x3FB5_5555_5555_5555;

/// -0.00277777777777777777777777777778
pub const STIRLING2: u64 = 0xBF66_C16C_16C1_6C17;

/// 0.000793650793650793650793650793651
pub const STIRLING3: u64 = 0x3F4A_01A0_1A01_A01A;

/// -0.000595238095238095238095238095238
pub const STIRLING4: u64 = 0xBF43_8138_1381_3814;

/// 0.000841750841750841750841750841751
pub const STIRLING5: u64 = 0x3F4B_951E_2B18_FF23;

/// -0.00191752691752691752691752691753
pub const STIRLING6: u64 = 0xBF5F_6AB0_D999_3C7D;

/// 0.00641025641025641025641025641026
pub const STIRLING7: u64 = 0x3F7A_41A4_1A41_A41A;

/// -0.0295506535947712418300653594771
pub const STIRLING8: u64 = 0xBF9E_4286_CB0F_5398;

/// 0.179644372368830573164938490016
pub const STIRLING9: u64 = 0x3FC6_FE96_381E_0680;

/// 0.91893853320467274178
pub const HLN2PI: u64 = 0x3FED_67F1_C864_BEB5;

#[verifier::opaque]
pub open spec fn dstrem_spec<M: Fn(Elementary) -> F64>(m: &M, z: F64) -> F64 {
    if z.gt(lit(0x4018_0000_0000_0000 /* 6.0 */)) {
        horner(seq![lit(STIRLING0), lit(STIRLING1), lit(STIRLING2), lit(STIRLING3), lit(STIRLING4),
            lit(STIRLING5), lit(STIRLING6), lit(STIRLING7), lit(STIRLING8), lit(STIRLING9)],
            lit(ONE) / (z * z)) * z
    } else {
        let sterl = lit(HLN2PI) + (z - lit(HALF)) * ln(m, z) - z;
        gamma_log(m, z) - sterl
    }
}

/// The logarithm of the gamma function minus Stirling's approximation to it, for a
/// positive number.
#[verifier::when_used_as_spec(dstrem_spec)]
pub fn dstrem<M: Fn(Elementary) -> F64>(m: &M, z: F64) -> (r: F64)
    requires
        lawful(m),
        !z.le(lit(ZERO)),
    ensures
        r == dstrem(m, z),
{
    proof {
        reveal(dstrem_spec);
    }
    if z.gt(lit(0x4018_0000_0000_0000 /* 6.0 */)) {
        eval_pol(&[lit(STIRLING0), lit(STIRLING1), lit(STIRLING2), lit(STIRLING3), lit(STIRLING4),
            lit(STIRLING5), lit(STIRLING6), lit(STIRLING7), lit(STIRLING8), lit(STIRLING9)],
            lit(ONE) / (z * z)) * z
    } else {
        let sterl = lit(HLN2PI) + (z - lit(HALF)) * ln(m, z) - z;
        gamma_log(m, z) - sterl
    }
}

/// 0.398942280401433
pub const RT2PIN: u64 = 0x3FD9_8845_33D4_3656;

#[verifier::opaque]
pub open spec fn stirling_tail_spec(a: F64) -> F64 {
    let t = (lit(ONE) / a).squared();
    (((lit(0x3FE8_0000_0000_0000 /* 0.75 */) * t - lit(ONE)) * t
        + lit(0x400C_0000_0000_0000 /* 3.5 */)) * t - lit(0x405A_4000_0000_0000 /* 105.0 */))
        / (a * lit(0x4093_B000_0000_0000 /* 1260.0 */))
}

/// The exponent that Stirling's series leaves of `x^a e^-x / gamma(a)`, but for the
/// term in `x / a`.
#[verifier::when_used_as_spec(stirling_tail_spec)]
pub fn stirling_tail(a: F64) -> (r: F64)
    ensures
        r == stirling_tail(a),
{
    proof {
        reveal(stirling_tail_spec);
    }
    let t = (lit(ONE) / a).squared();
    (((lit(0x3FE8_0000_0000_0000 /* 0.75 */) * t - lit(ONE)) * t
        + lit(0x400C_0000_0000_0000 /* 3.5 */)) * t - lit(0x405A_4000_0000_0000 /* 105.0 */))
        / (a * lit(0x4093_B000_0000_0000 /* 1260.0 */))
}

#[verifier::opaque]
pub open spec fn rcomp_spec<M: Fn(Elementary) -> F64>(m: &M, a: F64, x: F64) -> F64 {
    if a.lt(lit(0x4034_0000_0000_0000 /* 20.0 */)) {
        let t = a * ln(m, x) - x;
        if a.lt(lit(ONE)) {
            a * exp(m, t) * (lit(ONE) + gam1(a))
        } else {
            exp(m, t) / gamma_value(m, a)
        }
    } else {
        let u = x / a;
        if u.equals(lit(ZERO)) {
            lit(ZERO)
        } else {
            let t1 = stirling_tail(a) - a * rlog(m, u);
            lit(RT2PIN) * a.sqrt() * exp(m, t1)
        }
    }
}

/// `e^-x x^a / gamma(a)`.
#[verifier::when_used_as_spec(rcomp_spec)]
pub fn rcomp<M: Fn(Elementary) -> F64>(m: &M, a: F64, x: F64) -> (r: F64)
    requires
        lawful(m),
    ensures
        r == rcomp(m, a, x),
{
    proof {
        reveal(rcomp_spec);
    }
    if a.lt(lit(0x4034_0000_0000_0000 /* 20.0 */)) {
        let t = a * ln(m, x) - x;
        if a.lt(lit(ONE)) {
            a * exp(m, t) * (lit(ONE) + gam1(a))
        } else {
            exp(m, t) / gamma_value(m, a)
        }
    } else {
        let u = x / a;
        if u.equals(lit(ZERO)) {
            lit(ZERO)
        } else {
            let t1 = stirling_tail(a) - a * rlog(m, u);
            lit(RT2PIN) * a.sqrt() * exp(m, t1)
        }
    }
}

} // verus!
