//! What a lesser accuracy costs, where the ratios of the incomplete gamma function come of the
//! uniform expansion for a large parameter.
use crate::consts::{HALF, ONE, TEN, ZERO};
use crate::float::{lit, F64};
use crate::float::bounds::{
    at_most, lemma_literal, lemma_part, lemma_quotient, lemma_ratio_le, part,
};
use crate::float::laws::{law_negation, law_root_is_nearest, law_rounding_is_monotone};
use crate::float::model::{lemma_mag_zero, mag, CELL, INF_ENC};
use crate::float::number::{lemma_equals_units, lemma_le_units, lemma_lt_units, lemma_order};
use crate::float::relative::SPAN;
use crate::functions::{exp, Elementary};
use crate::special::accuracy_laws::TWENTY;
use crate::special::erf::error_fc_scaled;
use crate::special::gamma::{rlog, RT2PIN};
use crate::special::gamma_inc::{
    correction_full, correction_full_spec, correction_near, correction_near_spec, correction_six,
    correction_six_spec, gamma_inc_core, gamma_inc_core_spec, large_spec, temme_finish,
    temme_finish_spec, temme_general_spec, temme_variable, GammaIncAcc, D0_0, D0_1, D0_10, D0_11,
    D0_12, D0_2, D0_3, D0_4, D0_5, D0_6, D0_7, D0_8, D0_9, D10, D1_0, D1_1, D1_10, D1_11, D1_2,
    D1_3, D1_4, D1_5, D1_6, D1_7, D1_8, D1_9, D20, D2_0, D2_1, D2_2, D2_3, D2_4, D2_5, D2_6, D2_7,
    D2_8, D2_9, D30, D3_0, D3_1, D3_2, D3_3, D3_4, D3_5, D3_6, D3_7, D40, D4_0, D4_1, D4_2, D4_3,
    D4_4, D4_5, D50, D5_0, D5_1, D5_2, D5_3, D60, D6_0, D6_1, D70, THIRD,
};
use crate::special::normal_laws::lemma_small_powers;
use crate::special::normal_smooth_laws::{lemma_fractions, size};
use crate::special::small_series_laws::{
    lemma_complements_off, lemma_product_off, lemma_products_off, lemma_quotient_off, lemma_sum_off,
    lemma_sums_off, off_by, ratios_off_by, sized,
};
use vstd::arithmetic::power2::{
    lemma2_to64, lemma2_to64_rest, lemma_pow2_adds, lemma_pow2_pos, pow2,
};
use vstd::prelude::*;

verus! {

/// The number is finite, and its magnitude is at most `k / 2^60` and one.
spec fn small(x: F64, k: int) -> bool {
    sized(x, 1) && size(x.units()) <= k * pow2(1014) && k >= 0
}

/// A variable of at most one half.
pub open spec fn half_sized(z: F64) -> bool {
    z.is_finite() && 2 * size(z.units()) <= pow2(1074)
}

/// A coefficient is at most a power of two.
proof fn lemma_coefficient(bits: u64, e: int, cap: u64, k: int)
    requires
        0 <= e <= 60,
        cap == (1023 - e) * CELL,
        lit(bits).enc() <= cap,
        k == pow2((60 - e) as nat),
    ensures
        small(lit(bits), k),
{
    lemma_small_powers();
    lemma_fractions();
    assert(cap == (1022 - e) * CELL + CELL) by (nonlinear_arith)
        requires cap == (1023 - e) * CELL;
    lemma_literal(cap, (1022 - e) as nat, CELL as int, 52, 1, 1, e);
    let x = lit(bits);
    lemma_order(x.enc() as int, cap as int);
    lemma_order(x.enc() as int, INF_ENC as int);
    lemma_order(cap as int, INF_ENC as int);
    lemma_pow2_adds((60 - e) as nat, 1014);
    lemma_pow2_adds(e as nat, (1074 - e) as nat);
    lemma_pow2_pos(e as nat);
    lemma_pow2_pos((1074 - e) as nat);
    let a = pow2(e as nat) as int;
    let b = pow2((1074 - e) as nat) as int;
    assert(b <= a * b) by (nonlinear_arith)
        requires a >= 1, b > 0;
}

/// A Horner step, by magnitudes: the variable is at most `1 / p`.
proof fn lemma_magnitude(h: F64, z: F64, c: F64, k: int, kc: int, p: int)
    requires
        small(h, k),
        small(c, kc),
        z.is_finite() && p * size(z.units()) <= pow2(1074),
        p > 0,
        k / p + kc + 0x2_0001 <= SPAN,
    ensures
        small(h * z + c, k / p + kc + 0x2_0001),
{
    lemma_fractions();
    let u = pow2(1014) as int;
    let d = pow2(1074) as int;
    lemma_pow2_pos(1074);
    assert(sized(z, 1)) by {
        let zs = size(z.units());
        assert(zs <= d) by (nonlinear_arith)
            requires p * zs <= d, p >= 1, zs >= 0;
    }
    lemma_product_off(h, z, 1, 1);
    lemma_sum_off(h * z, c, 1, 1);
    lemma_scaled_down(h, z, k, p);
    let f = k / p;
    assert((f + kc + 0x2_0001) * u == (f + 0x8001) * u + kc * u + 0x1_8000 * u) by (nonlinear_arith);
    assert((f + kc + 0x2_0001) * u <= SPAN * u) by (nonlinear_arith)
        requires f + kc + 0x2_0001 <= SPAN, u > 0;
    vstd::arithmetic::div_mod::lemma_div_pos_is_pos(k, p);
}

/// A product with a variable of at most `1 / p`.
proof fn lemma_scaled_down(h: F64, z: F64, k: int, p: int)
    requires
        small(h, k),
        sized(z, 1),
        p * size(z.units()) <= pow2(1074),
        p > 0,
    ensures
        size((h * z).units()) <= (k / p + 0x8001) * pow2(1014),
{
    lemma_fractions();
    let u = pow2(1014) as int;
    let d = pow2(1074) as int;
    lemma_pow2_pos(1074);
    lemma_product_off(h, z, 1, 1);
    let r = (h * z).units();
    let hu = h.units();
    let zu = z.units();
    let g = 0x8000 * u;
    assert(size(hu * zu) == size(hu) * size(zu)) by (nonlinear_arith);
    assert(p * (size(hu) * size(zu)) <= (k * u) * d) by (nonlinear_arith)
        requires 0 <= size(hu) <= k * u, 0 <= size(zu), p * size(zu) <= d, p > 0;
    assert(size(r * d) <= size(hu * zu) + g * d);
    assert(size(r * d) == size(r) * d) by (nonlinear_arith)
        requires d > 0;
    assert(p * (size(r) * d) <= (k * u + p * g) * d) by (nonlinear_arith)
        requires size(r) * d <= size(hu) * size(zu) + g * d, p * (size(hu) * size(zu)) <= (k * u) * d, p > 0;
    assert(p * size(r) <= k * u + p * g) by (nonlinear_arith)
        requires p * (size(r) * d) <= (k * u + p * g) * d, d > 0;
    let f = k / p;
    vstd::arithmetic::div_mod::lemma_fundamental_div_mod(k, p);
    vstd::arithmetic::div_mod::lemma_mod_bound(k, p);
    assert(k <= p * (f + 1)) by (nonlinear_arith)
        requires k == p * f + k % p, k % p < p;
    assert(size(r) <= (f + 0x8001) * u) by (nonlinear_arith)
        requires p * size(r) <= k * u + p * g, k <= p * (f + 1), g == 0x8000 * u, p > 0, u > 0;
}

/// A Horner step that starts from the constant leaves out one product.
proof fn lemma_first_off(h: F64, z: F64, c: F64, k: int, p: int)
    requires
        small(h, k),
        sized(c, 1),
        z.is_finite() && p * size(z.units()) <= pow2(1074),
        p > 0,
    ensures
        off_by(h * z + c, c, k / p + 0x2_0001),
{
    lemma_fractions();
    let u = pow2(1014) as int;
    let d = pow2(1074) as int;
    lemma_pow2_pos(1074);
    assert(sized(z, 1)) by {
        let zs = size(z.units());
        assert(zs <= d) by (nonlinear_arith)
            requires p * zs <= d, p >= 1, zs >= 0;
    }
    lemma_product_off(h, z, 1, 1);
    lemma_sum_off(h * z, c, 1, 1);
    lemma_scaled_down(h, z, k, p);
    let f = k / p;
    assert((f + 0x2_0001) * u == (f + 0x8001) * u + 0x1_8000 * u) by (nonlinear_arith);
}

/// A Horner step on two numbers.
proof fn lemma_off_step(h: F64, h2: F64, z: F64, c: F64, k: int, p: int)
    requires
        sized(h, 1),
        sized(h2, 1),
        sized(c, 1),
        off_by(h, h2, k),
        k >= 0,
        z.is_finite() && p * size(z.units()) <= pow2(1074),
        p > 0,
    ensures
        off_by(h * z + c, h2 * z + c, k / p + 0x2_0001),
{
    let d = pow2(1074) as int;
    lemma_pow2_pos(1074);
    assert(sized(z, 1)) by {
        let zs = size(z.units());
        assert(zs <= d) by (nonlinear_arith)
            requires p * zs <= d, p >= 1, zs >= 0;
    }
    lemma_products_off(h, h2, z, 1, 1, k, 1, p);
    lemma_sums_off(h * z, h2 * z, c, 1, 1, k / p + 0x1_0001);
}

/// A Horner step on two numbers with two constants.
proof fn lemma_off_two(h: F64, h2: F64, z: F64, c: F64, c2: F64, k: int, kc: int, p: int)
    requires
        sized(h, 1),
        sized(h2, 1),
        sized(c, 1),
        sized(c2, 1),
        off_by(h, h2, k),
        off_by(c, c2, kc),
        k >= 0,
        z.is_finite() && p * size(z.units()) <= pow2(1074),
        p > 0,
    ensures
        off_by(h * z + c, h2 * z + c2, k / p + kc + 0x2_0001),
{
    let d = pow2(1074) as int;
    let u = pow2(1014) as int;
    lemma_fractions();
    lemma_pow2_pos(1074);
    assert(sized(z, 1)) by {
        let zs = size(z.units());
        assert(zs <= d) by (nonlinear_arith)
            requires p * zs <= d, p >= 1, zs >= 0;
    }
    lemma_products_off(h, h2, z, 1, 1, k, 1, p);
    lemma_sum_off(h * z, c, 1, 1);
    lemma_sum_off(h2 * z, c2, 1, 1);
    let f = (1 * k) / p;
    assert(1 * k == k);
    assert((f + kc + 0x2_0001) * u == (f + 0x1_0001) * u + kc * u + 0x1_0000 * u) by (nonlinear_arith);
}

spec fn c0_full(z: F64) -> F64 {
    ((((((((((((lit(D0_12) * z + lit(D0_11)) * z + lit(D0_10)) * z + lit(D0_9)) * z + lit(D0_8)) * z + lit(D0_7)) * z + lit(D0_6)) * z + lit(D0_5)) * z + lit(D0_4)) * z + lit(D0_3)) * z + lit(D0_2)) * z + lit(D0_1)) * z + lit(D0_0)) * z - lit(THIRD)
}

spec fn c1_full(z: F64) -> F64 {
    (((((((((((lit(D1_11) * z + lit(D1_10)) * z + lit(D1_9)) * z + lit(D1_8)) * z + lit(D1_7)) * z + lit(D1_6)) * z + lit(D1_5)) * z + lit(D1_4)) * z + lit(D1_3)) * z + lit(D1_2)) * z + lit(D1_1)) * z + lit(D1_0)) * z + lit(D10)
}

spec fn c2_full(z: F64) -> F64 {
    (((((((((lit(D2_9) * z + lit(D2_8)) * z + lit(D2_7)) * z + lit(D2_6)) * z + lit(D2_5)) * z + lit(D2_4)) * z + lit(D2_3)) * z + lit(D2_2)) * z + lit(D2_1)) * z + lit(D2_0)) * z + lit(D20)
}

spec fn c3_full(z: F64) -> F64 {
    (((((((lit(D3_7) * z + lit(D3_6)) * z + lit(D3_5)) * z + lit(D3_4)) * z + lit(D3_3)) * z + lit(D3_2)) * z + lit(D3_1)) * z + lit(D3_0)) * z + lit(D30)
}

spec fn c4_full(z: F64) -> F64 {
    (((((lit(D4_5) * z + lit(D4_4)) * z + lit(D4_3)) * z + lit(D4_2)) * z + lit(D4_1)) * z + lit(D4_0)) * z + lit(D40)
}

spec fn c5_full(z: F64) -> F64 {
    (((lit(D5_3) * z + lit(D5_2)) * z + lit(D5_1)) * z + lit(D5_0)) * z + lit(D50)
}

spec fn c6_full(z: F64) -> F64 {
    (lit(D6_1) * z + lit(D6_0)) * z + lit(D60)
}

spec fn c0_six(z: F64) -> F64 {
    (((((lit(D0_5) * z + lit(D0_4)) * z + lit(D0_3)) * z + lit(D0_2)) * z + lit(D0_1)) * z + lit(D0_0)) * z - lit(THIRD)
}

proof fn lemma_c0_full(z: F64)
    requires
        half_sized(z),
    ensures
        small(c0_full(z), 653348546297462753),
        small(c0_six(z), 653348500922429441),
        off_by(c0_full(z), c0_six(z), 45375291361),
{
    lemma2_to64();
    lemma2_to64_rest();
    lemma_coefficient(D0_12, 27, 0x3E40_0000_0000_0000, 8589934592);
    let h0 = lit(D0_12);
    lemma_coefficient(D0_11, 26, 0x3E50_0000_0000_0000, 17179869184);
    lemma_magnitude(h0, z, lit(D0_11), 8589934592, 17179869184, 2);
    let h1 = h0 * z + lit(D0_11);
    lemma_coefficient(D0_10, 27, 0x3E40_0000_0000_0000, 8589934592);
    lemma_magnitude(h1, z, lit(D0_10), 21474967553, 8589934592, 2);
    let h2 = h1 * z + lit(D0_10);
    lemma_coefficient(D0_9, 22, 0x3E90_0000_0000_0000, 274877906944);
    lemma_magnitude(h2, z, lit(D0_9), 19327549441, 274877906944, 2);
    let h3 = h2 * z + lit(D0_9);
    lemma_coefficient(D0_8, 20, 0x3EB0_0000_0000_0000, 1099511627776);
    lemma_magnitude(h3, z, lit(D0_8), 284541812737, 1099511627776, 2);
    let h4 = h3 * z + lit(D0_8);
    lemma_coefficient(D0_7, 19, 0x3EC0_0000_0000_0000, 2199023255552);
    lemma_magnitude(h4, z, lit(D0_7), 1241782665217, 2199023255552, 2);
    let h5 = h4 * z + lit(D0_7);
    lemma_coefficient(D0_6, 18, 0x3ED0_0000_0000_0000, 4398046511104);
    lemma_magnitude(h5, z, lit(D0_6), 2819914719233, 4398046511104, 2);
    let h6 = h5 * z + lit(D0_6);
    lemma_coefficient(D0_5, 14, 0x3F10_0000_0000_0000, 70368744177664);
    lemma_magnitude(h6, z, lit(D0_5), 5808004001793, 70368744177664, 2);
    let h7 = h6 * z + lit(D0_5);
    lemma_first_off(h6, z, lit(D0_5), 5808004001793, 2);
    let t7 = lit(D0_5);
    lemma_coefficient(D0_4, 12, 0x3F30_0000_0000_0000, 281474976710656);
    lemma_magnitude(h7, z, lit(D0_4), 73272746309633, 281474976710656, 2);
    let h8 = h7 * z + lit(D0_4);
    lemma_magnitude(t7, z, lit(D0_4), 70368744177664, 281474976710656, 2);
    lemma_off_step(h7, t7, z, lit(D0_4), 2904002131969, 2);
    let t8 = t7 * z + lit(D0_4);
    lemma_coefficient(D0_3, 11, 0x3F40_0000_0000_0000, 562949953421312);
    lemma_magnitude(h8, z, lit(D0_3), 318111349996545, 562949953421312, 2);
    let h9 = h8 * z + lit(D0_3);
    lemma_magnitude(t8, z, lit(D0_3), 316659348930561, 562949953421312, 2);
    lemma_off_step(h8, t8, z, lit(D0_3), 1452001197057, 2);
    let t9 = t8 * z + lit(D0_3);
    lemma_coefficient(D0_2, 9, 0x3F60_0000_0000_0000, 2251799813685248);
    lemma_magnitude(h9, z, lit(D0_2), 722005628550657, 2251799813685248, 2);
    let h10 = h9 * z + lit(D0_2);
    lemma_magnitude(t9, z, lit(D0_2), 721279628017665, 2251799813685248, 2);
    lemma_off_step(h9, t9, z, lit(D0_2), 726000729601, 2);
    let t10 = t9 * z + lit(D0_2);
    lemma_coefficient(D0_1, 6, 0x3F90_0000_0000_0000, 18014398509481984);
    lemma_magnitude(h10, z, lit(D0_1), 2612802628091649, 18014398509481984, 2);
    let h11 = h10 * z + lit(D0_1);
    lemma_magnitude(t10, z, lit(D0_1), 2612439627825153, 18014398509481984, 2);
    lemma_off_step(h10, t10, z, lit(D0_1), 363000495873, 2);
    let t11 = t10 * z + lit(D0_1);
    lemma_coefficient(D0_0, 3, 0x3FC0_0000_0000_0000, 144115188075855872);
    lemma_magnitude(h11, z, lit(D0_0), 19320799823658881, 144115188075855872, 2);
    let h12 = h11 * z + lit(D0_0);
    lemma_magnitude(t11, z, lit(D0_0), 19320618323525633, 144115188075855872, 2);
    lemma_off_step(h11, t11, z, lit(D0_0), 181500379009, 2);
    let t12 = t11 * z + lit(D0_0);
    lemma_coefficient(THIRD, 1, 0x3FE0_0000_0000_0000, 576460752303423488);
    law_negation(lit(THIRD));
    lemma_magnitude(h12, z, lit(THIRD).negated(), 153775587987816385, 576460752303423488, 2);
    let h13 = h12 * z + lit(THIRD).negated();
    lemma_magnitude(t12, z, lit(THIRD).negated(), 153775497237749761, 576460752303423488, 2);
    lemma_off_step(h12, t12, z, lit(THIRD).negated(), 90750320577, 2);
    let t13 = t12 * z + lit(THIRD).negated();
}

spec fn c1_six(z: F64) -> F64 {
    (((lit(D1_3) * z + lit(D1_2)) * z + lit(D1_1)) * z + lit(D1_0)) * z + lit(D10)
}

proof fn lemma_c1_full(z: F64)
    requires
        half_sized(z),
    ensures
        small(c1_full(z), 5929279984762817),
        small(c1_six(z), 5928566697213953),
        off_by(c1_full(z), c1_six(z), 713287794625),
{
    lemma2_to64();
    lemma2_to64_rest();
    lemma_coefficient(D1_11, 26, 0x3E50_0000_0000_0000, 17179869184);
    let h0 = lit(D1_11);
    lemma_coefficient(D1_10, 24, 0x3E70_0000_0000_0000, 68719476736);
    lemma_magnitude(h0, z, lit(D1_10), 17179869184, 68719476736, 2);
    let h1 = h0 * z + lit(D1_10);
    lemma_coefficient(D1_9, 22, 0x3E90_0000_0000_0000, 274877906944);
    lemma_magnitude(h1, z, lit(D1_9), 77309542401, 274877906944, 2);
    let h2 = h1 * z + lit(D1_9);
    lemma_coefficient(D1_8, 27, 0x3E40_0000_0000_0000, 8589934592);
    lemma_magnitude(h2, z, lit(D1_8), 313532809217, 8589934592, 2);
    let h3 = h2 * z + lit(D1_8);
    lemma_coefficient(D1_7, 19, 0x3EC0_0000_0000_0000, 2199023255552);
    lemma_magnitude(h3, z, lit(D1_7), 165356470273, 2199023255552, 2);
    let h4 = h3 * z + lit(D1_7);
    lemma_coefficient(D1_6, 16, 0x3EF0_0000_0000_0000, 17592186044416);
    lemma_magnitude(h4, z, lit(D1_6), 2281701621761, 17592186044416, 2);
    let h5 = h4 * z + lit(D1_6);
    lemma_coefficient(D1_5, 15, 0x3F00_0000_0000_0000, 35184372088832);
    lemma_magnitude(h5, z, lit(D1_5), 18733036986369, 35184372088832, 2);
    let h6 = h5 * z + lit(D1_5);
    lemma_coefficient(D1_4, 21, 0x3EA0_0000_0000_0000, 549755813888);
    lemma_magnitude(h6, z, lit(D1_4), 44550890713089, 549755813888, 2);
    let h7 = h6 * z + lit(D1_4);
    lemma_coefficient(D1_3, 12, 0x3F30_0000_0000_0000, 281474976710656);
    lemma_magnitude(h7, z, lit(D1_3), 22825201301505, 281474976710656, 2);
    let h8 = h7 * z + lit(D1_3);
    lemma_first_off(h7, z, lit(D1_3), 22825201301505, 2);
    let t8 = lit(D1_3);
    lemma_coefficient(D1_2, 9, 0x3F60_0000_0000_0000, 2251799813685248);
    lemma_magnitude(h8, z, lit(D1_2), 292887577492481, 2251799813685248, 2);
    let h9 = h8 * z + lit(D1_2);
    lemma_magnitude(t8, z, lit(D1_2), 281474976710656, 2251799813685248, 2);
    lemma_off_step(h8, t8, z, lit(D1_2), 11412600781825, 2);
    let t9 = t8 * z + lit(D1_2);
    lemma_coefficient(D1_1, 8, 0x3F70_0000_0000_0000, 4503599627370496);
    lemma_magnitude(h9, z, lit(D1_1), 2398243602562561, 4503599627370496, 2);
    let h10 = h9 * z + lit(D1_1);
    lemma_magnitude(t9, z, lit(D1_1), 2392537302171649, 4503599627370496, 2);
    lemma_off_step(h9, t9, z, lit(D1_1), 5706300521985, 2);
    let t10 = t9 * z + lit(D1_1);
    lemma_coefficient(D1_0, 8, 0x3F70_0000_0000_0000, 4503599627370496);
    lemma_magnitude(h10, z, lit(D1_0), 5702721428782849, 4503599627370496, 2);
    let h11 = h10 * z + lit(D1_0);
    lemma_magnitude(t10, z, lit(D1_0), 5699868278587393, 4503599627370496, 2);
    lemma_off_step(h10, t10, z, lit(D1_0), 2853150392065, 2);
    let t11 = t10 * z + lit(D1_0);
    lemma_coefficient(D10, 9, 0x3F60_0000_0000_0000, 2251799813685248);
    lemma_magnitude(h11, z, lit(D10), 7354960341892993, 2251799813685248, 2);
    let h12 = h11 * z + lit(D10);
    lemma_magnitude(t11, z, lit(D10), 7353533766795265, 2251799813685248, 2);
    lemma_off_step(h11, t11, z, lit(D10), 1426575327105, 2);
    let t12 = t11 * z + lit(D10);
}

spec fn c2_six(z: F64) -> F64 {
    lit(D2_0) * z + lit(D20)
}

proof fn lemma_c2_full(z: F64)
    requires
        half_sized(z),
    ensures
        small(c2_full(z), 11552305338121985),
        small(c2_six(z), 11258999068557313),
        off_by(c2_full(z), c2_six(z), 293306269695745),
{
    lemma2_to64();
    lemma2_to64_rest();
    lemma_coefficient(D2_9, 22, 0x3E90_0000_0000_0000, 274877906944);
    let h0 = lit(D2_9);
    lemma_coefficient(D2_8, 20, 0x3EB0_0000_0000_0000, 1099511627776);
    lemma_magnitude(h0, z, lit(D2_8), 274877906944, 1099511627776, 2);
    let h1 = h0 * z + lit(D2_8);
    lemma_coefficient(D2_7, 19, 0x3EC0_0000_0000_0000, 2199023255552);
    lemma_magnitude(h1, z, lit(D2_7), 1236950712321, 2199023255552, 2);
    let h2 = h1 * z + lit(D2_7);
    lemma_coefficient(D2_6, 24, 0x3E70_0000_0000_0000, 68719476736);
    lemma_magnitude(h2, z, lit(D2_6), 2817498742785, 68719476736, 2);
    let h3 = h2 * z + lit(D2_6);
    lemma_coefficient(D2_5, 16, 0x3EF0_0000_0000_0000, 17592186044416);
    lemma_magnitude(h3, z, lit(D2_5), 1477468979201, 17592186044416, 2);
    let h4 = h3 * z + lit(D2_5);
    lemma_coefficient(D2_4, 14, 0x3F10_0000_0000_0000, 70368744177664);
    lemma_magnitude(h4, z, lit(D2_4), 18330920665089, 70368744177664, 2);
    let h5 = h4 * z + lit(D2_4);
    lemma_coefficient(D2_3, 13, 0x3F20_0000_0000_0000, 140737488355328);
    lemma_magnitude(h5, z, lit(D2_3), 79534204641281, 140737488355328, 2);
    let h6 = h5 * z + lit(D2_3);
    lemma_coefficient(D2_2, 18, 0x3ED0_0000_0000_0000, 4398046511104);
    lemma_magnitude(h6, z, lit(D2_2), 180504590807041, 4398046511104, 2);
    let h7 = h6 * z + lit(D2_2);
    lemma_coefficient(D2_1, 10, 0x3F50_0000_0000_0000, 1125899906842624);
    lemma_magnitude(h7, z, lit(D2_1), 94650342045697, 1125899906842624, 2);
    let h8 = h7 * z + lit(D2_1);
    lemma_coefficient(D2_0, 8, 0x3F70_0000_0000_0000, 4503599627370496);
    lemma_magnitude(h8, z, lit(D2_0), 1173225077996545, 4503599627370496, 2);
    let h9 = h8 * z + lit(D2_0);
    lemma_first_off(h8, z, lit(D2_0), 1173225077996545, 2);
    let t9 = lit(D2_0);
    lemma_coefficient(D20, 7, 0x3F80_0000_0000_0000, 9007199254740992);
    lemma_magnitude(h9, z, lit(D20), 5090212166499841, 9007199254740992, 2);
    let h10 = h9 * z + lit(D20);
    lemma_magnitude(t9, z, lit(D20), 4503599627370496, 9007199254740992, 2);
    lemma_off_step(h9, t9, z, lit(D20), 586612539129345, 2);
    let t10 = t9 * z + lit(D20);
}

proof fn lemma_c3_full(z: F64)
    requires
        half_sized(z),
    ensures
        small(c3_full(z), 1486909088201729),
{
    lemma2_to64();
    lemma2_to64_rest();
    lemma_coefficient(D3_7, 19, 0x3EC0_0000_0000_0000, 2199023255552);
    let h0 = lit(D3_7);
    lemma_coefficient(D3_6, 17, 0x3EE0_0000_0000_0000, 8796093022208);
    lemma_magnitude(h0, z, lit(D3_6), 2199023255552, 8796093022208, 2);
    let h1 = h0 * z + lit(D3_6);
    lemma_coefficient(D3_5, 16, 0x3EF0_0000_0000_0000, 17592186044416);
    lemma_magnitude(h1, z, lit(D3_5), 9895604781057, 17592186044416, 2);
    let h2 = h1 * z + lit(D3_5);
    lemma_coefficient(D3_4, 21, 0x3EA0_0000_0000_0000, 549755813888);
    lemma_magnitude(h2, z, lit(D3_4), 22539988566017, 549755813888, 2);
    let h3 = h2 * z + lit(D3_4);
    lemma_coefficient(D3_3, 13, 0x3F20_0000_0000_0000, 140737488355328);
    lemma_magnitude(h3, z, lit(D3_3), 11819750227969, 140737488355328, 2);
    let h4 = h3 * z + lit(D3_3);
    lemma_coefficient(D3_2, 11, 0x3F40_0000_0000_0000, 562949953421312);
    lemma_magnitude(h4, z, lit(D3_2), 146647363600385, 562949953421312, 2);
    let h5 = h4 * z + lit(D3_2);
    lemma_coefficient(D3_1, 11, 0x3F40_0000_0000_0000, 562949953421312);
    lemma_magnitude(h5, z, lit(D3_1), 636273635352577, 562949953421312, 2);
    let h6 = h5 * z + lit(D3_1);
    lemma_coefficient(D3_0, 12, 0x3F30_0000_0000_0000, 281474976710656);
    lemma_magnitude(h6, z, lit(D3_0), 881086771228673, 281474976710656, 2);
    let h7 = h6 * z + lit(D3_0);
    lemma_coefficient(D30, 10, 0x3F50_0000_0000_0000, 1125899906842624);
    lemma_magnitude(h7, z, lit(D30), 722018362456065, 1125899906842624, 2);
    let h8 = h7 * z + lit(D30);
}

proof fn lemma_c4_full(z: F64)
    requires
        half_sized(z),
    ensures
        small(c4_full(z), 1841132220968961),
{
    lemma2_to64();
    lemma2_to64_rest();
    lemma_coefficient(D4_5, 16, 0x3EF0_0000_0000_0000, 17592186044416);
    let h0 = lit(D4_5);
    lemma_coefficient(D4_4, 14, 0x3F10_0000_0000_0000, 70368744177664);
    lemma_magnitude(h0, z, lit(D4_4), 17592186044416, 70368744177664, 2);
    let h1 = h0 * z + lit(D4_4);
    lemma_coefficient(D4_3, 13, 0x3F20_0000_0000_0000, 140737488355328);
    lemma_magnitude(h1, z, lit(D4_3), 79164837330945, 140737488355328, 2);
    let h2 = h1 * z + lit(D4_3);
    lemma_coefficient(D4_2, 19, 0x3EC0_0000_0000_0000, 2199023255552);
    lemma_magnitude(h2, z, lit(D4_2), 180319907151873, 2199023255552, 2);
    let h3 = h2 * z + lit(D4_2);
    lemma_coefficient(D4_1, 11, 0x3F40_0000_0000_0000, 562949953421312);
    lemma_magnitude(h3, z, lit(D4_1), 92358976962561, 562949953421312, 2);
    let h4 = h3 * z + lit(D4_1);
    lemma_coefficient(D4_0, 10, 0x3F50_0000_0000_0000, 1125899906842624);
    lemma_magnitude(h4, z, lit(D4_0), 609129442033665, 1125899906842624, 2);
    let h5 = h4 * z + lit(D4_0);
    lemma_coefficient(D40, 10, 0x3F50_0000_0000_0000, 1125899906842624);
    lemma_magnitude(h5, z, lit(D40), 1430464627990529, 1125899906842624, 2);
    let h6 = h5 * z + lit(D40);
}

proof fn lemma_c5_full(z: F64)
    requires
        half_sized(z),
    ensures
        small(c5_full(z), 818036651311105),
{
    lemma2_to64();
    lemma2_to64_rest();
    lemma_coefficient(D5_3, 13, 0x3F20_0000_0000_0000, 140737488355328);
    let h0 = lit(D5_3);
    lemma_coefficient(D5_2, 12, 0x3F30_0000_0000_0000, 281474976710656);
    lemma_magnitude(h0, z, lit(D5_2), 140737488355328, 281474976710656, 2);
    let h1 = h0 * z + lit(D5_2);
    lemma_coefficient(D5_1, 11, 0x3F40_0000_0000_0000, 562949953421312);
    lemma_magnitude(h1, z, lit(D5_1), 351843721019393, 562949953421312, 2);
    let h2 = h1 * z + lit(D5_1);
    lemma_coefficient(D5_0, 13, 0x3F20_0000_0000_0000, 140737488355328);
    lemma_magnitude(h2, z, lit(D5_0), 738871814062081, 140737488355328, 2);
    let h3 = h2 * z + lit(D5_0);
    lemma_coefficient(D50, 11, 0x3F40_0000_0000_0000, 562949953421312);
    lemma_magnitude(h3, z, lit(D50), 510173395517441, 562949953421312, 2);
    let h4 = h3 * z + lit(D50);
}

proof fn lemma_c6_full(z: F64)
    requires
        half_sized(z),
    ensures
        small(c6_full(z), 1829587348815873),
{
    lemma2_to64();
    lemma2_to64_rest();
    lemma_coefficient(D6_1, 11, 0x3F40_0000_0000_0000, 562949953421312);
    let h0 = lit(D6_1);
    lemma_coefficient(D6_0, 10, 0x3F50_0000_0000_0000, 1125899906842624);
    lemma_magnitude(h0, z, lit(D6_0), 562949953421312, 1125899906842624, 2);
    let h1 = h0 * z + lit(D6_0);
    lemma_coefficient(D60, 10, 0x3F50_0000_0000_0000, 1125899906842624);
    lemma_magnitude(h1, z, lit(D60), 1407374883684353, 1125899906842624, 2);
    let h2 = h1 * z + lit(D60);
}

spec fn c0_three(z: F64) -> F64 {
    ((lit(D0_2) * z + lit(D0_1)) * z + lit(D0_0)) * z - lit(THIRD)
}

proof fn lemma_c0_full_three(z: F64)
    requires
        half_sized(z),
    ensures
        small(c0_three(z), 653303420945661953),
        off_by(c0_full(z), c0_three(z), 45125352030177),
{
    lemma2_to64();
    lemma2_to64_rest();
    lemma_coefficient(D0_12, 27, 0x3E40_0000_0000_0000, 8589934592);
    let h0 = lit(D0_12);
    lemma_coefficient(D0_11, 26, 0x3E50_0000_0000_0000, 17179869184);
    lemma_magnitude(h0, z, lit(D0_11), 8589934592, 17179869184, 2);
    let h1 = h0 * z + lit(D0_11);
    lemma_coefficient(D0_10, 27, 0x3E40_0000_0000_0000, 8589934592);
    lemma_magnitude(h1, z, lit(D0_10), 21474967553, 8589934592, 2);
    let h2 = h1 * z + lit(D0_10);
    lemma_coefficient(D0_9, 22, 0x3E90_0000_0000_0000, 274877906944);
    lemma_magnitude(h2, z, lit(D0_9), 19327549441, 274877906944, 2);
    let h3 = h2 * z + lit(D0_9);
    lemma_coefficient(D0_8, 20, 0x3EB0_0000_0000_0000, 1099511627776);
    lemma_magnitude(h3, z, lit(D0_8), 284541812737, 1099511627776, 2);
    let h4 = h3 * z + lit(D0_8);
    lemma_coefficient(D0_7, 19, 0x3EC0_0000_0000_0000, 2199023255552);
    lemma_magnitude(h4, z, lit(D0_7), 1241782665217, 2199023255552, 2);
    let h5 = h4 * z + lit(D0_7);
    lemma_coefficient(D0_6, 18, 0x3ED0_0000_0000_0000, 4398046511104);
    lemma_magnitude(h5, z, lit(D0_6), 2819914719233, 4398046511104, 2);
    let h6 = h5 * z + lit(D0_6);
    lemma_coefficient(D0_5, 14, 0x3F10_0000_0000_0000, 70368744177664);
    lemma_magnitude(h6, z, lit(D0_5), 5808004001793, 70368744177664, 2);
    let h7 = h6 * z + lit(D0_5);
    lemma_coefficient(D0_4, 12, 0x3F30_0000_0000_0000, 281474976710656);
    lemma_magnitude(h7, z, lit(D0_4), 73272746309633, 281474976710656, 2);
    let h8 = h7 * z + lit(D0_4);
    lemma_coefficient(D0_3, 11, 0x3F40_0000_0000_0000, 562949953421312);
    lemma_magnitude(h8, z, lit(D0_3), 318111349996545, 562949953421312, 2);
    let h9 = h8 * z + lit(D0_3);
    lemma_coefficient(D0_2, 9, 0x3F60_0000_0000_0000, 2251799813685248);
    lemma_magnitude(h9, z, lit(D0_2), 722005628550657, 2251799813685248, 2);
    let h10 = h9 * z + lit(D0_2);
    lemma_first_off(h9, z, lit(D0_2), 722005628550657, 2);
    let t10 = lit(D0_2);
    lemma_coefficient(D0_1, 6, 0x3F90_0000_0000_0000, 18014398509481984);
    lemma_magnitude(h10, z, lit(D0_1), 2612802628091649, 18014398509481984, 2);
    let h11 = h10 * z + lit(D0_1);
    lemma_magnitude(t10, z, lit(D0_1), 2251799813685248, 18014398509481984, 2);
    lemma_off_step(h10, t10, z, lit(D0_1), 361002814406401, 2);
    let t11 = t10 * z + lit(D0_1);
    lemma_coefficient(D0_0, 3, 0x3FC0_0000_0000_0000, 144115188075855872);
    lemma_magnitude(h11, z, lit(D0_0), 19320799823658881, 144115188075855872, 2);
    let h12 = h11 * z + lit(D0_0);
    lemma_magnitude(t11, z, lit(D0_0), 19140298416455681, 144115188075855872, 2);
    lemma_off_step(h11, t11, z, lit(D0_0), 180501407334273, 2);
    let t12 = t11 * z + lit(D0_0);
    lemma_coefficient(THIRD, 1, 0x3FE0_0000_0000_0000, 576460752303423488);
    law_negation(lit(THIRD));
    lemma_magnitude(h12, z, lit(THIRD).negated(), 153775587987816385, 576460752303423488, 2);
    let h13 = h12 * z + lit(THIRD).negated();
    lemma_magnitude(t12, z, lit(THIRD).negated(), 153685337284214785, 576460752303423488, 2);
    lemma_off_step(h12, t12, z, lit(THIRD).negated(), 90250703798209, 2);
    let t13 = t12 * z + lit(THIRD).negated();
}

/// The corrections to six and to three digits lie near that to full accuracy.
proof fn lemma_corrections_full(z: F64, u: F64)
    requires
        half_sized(z),
        u.is_finite() && 16 * size(u.units()) <= pow2(1074),
    ensures
        sized(correction_full(z, u), 1),
        sized(correction_six(z, u), 1),
        sized(c0_three(z), 1),
        off_by(correction_full(z, u), correction_six(z, u), 1627683186243),
        off_by(correction_full(z, u), c0_three(z), 461223543596611),
{
    reveal(correction_full_spec);
    reveal(correction_six_spec);
    lemma2_to64();
    lemma2_to64_rest();
    lemma_fractions();
    lemma_c0_full(z);
    lemma_c0_full_three(z);
    lemma_c1_full(z);
    lemma_c2_full(z);
    lemma_c3_full(z);
    lemma_c4_full(z);
    lemma_c5_full(z);
    lemma_c6_full(z);
    lemma_coefficient(D70, 11, 0x3F40_0000_0000_0000, 562949953421312);
    let g7 = lit(D70);
    lemma_magnitude(g7, u, c6_full(z), 562949953421312, 1829587348815873, 16);
    let g6 = g7 * u + c6_full(z);
    lemma_magnitude(g6, u, c5_full(z), 1864771721035778, 818036651311105, 16);
    let g5 = g6 * u + c5_full(z);
    lemma_magnitude(g5, u, c4_full(z), 934584884006914, 1841132220968961, 16);
    let g4 = g5 * u + c4_full(z);
    lemma_magnitude(g4, u, c3_full(z), 1899543776350466, 1486909088201729, 16);
    let g3 = g4 * u + c3_full(z);
    lemma_magnitude(g3, u, c2_full(z), 1605630574354706, 11552305338121985, 16);
    let g2 = g3 * u + c2_full(z);
    lemma_first_off(g3, u, c2_full(z), 1605630574354706, 16);
    assert(off_by(g2, c2_six(z), 393658180723987));
    lemma_magnitude(g2, u, c1_full(z), 11652657249150227, 5929279984762817, 16);
    let g1 = g2 * u + c1_full(z);
    lemma_magnitude(c2_six(z), u, c1_six(z), 11258999068557313, 5928566697213953, 16);
    let s1 = c2_six(z) * u + c1_six(z);
    lemma_off_two(g2, c2_six(z), u, c1_full(z), c1_six(z), 393658180723987, 713287794625, 16);
    lemma_off_two(g1, s1, u, c0_full(z), c0_six(z), 25316924220947, 45375291361, 16);
    lemma_magnitude(g1, u, c0_full(z), 6657571062965779, 653348546297462753, 16);
    lemma_magnitude(s1, u, c0_six(z), 6632254139129858, 653348500922429441, 16);
    lemma_first_off(g1, u, c0_full(z), 6657571062965779, 16);
}

spec fn c0_near(z: F64) -> F64 {
    ((((((lit(D0_6) * z + lit(D0_5)) * z + lit(D0_4)) * z + lit(D0_3)) * z + lit(D0_2)) * z + lit(D0_1)) * z + lit(D0_0)) * z - lit(THIRD)
}

spec fn c1_near(z: F64) -> F64 {
    (((((lit(D1_5) * z + lit(D1_4)) * z + lit(D1_3)) * z + lit(D1_2)) * z + lit(D1_1)) * z + lit(D1_0)) * z + lit(D10)
}

spec fn c2_near(z: F64) -> F64 {
    ((((lit(D2_4) * z + lit(D2_3)) * z + lit(D2_2)) * z + lit(D2_1)) * z + lit(D2_0)) * z + lit(D20)
}

spec fn c3_near(z: F64) -> F64 {
    (((lit(D3_3) * z + lit(D3_2)) * z + lit(D3_1)) * z + lit(D3_0)) * z + lit(D30)
}

spec fn c4_near(z: F64) -> F64 {
    (lit(D4_1) * z + lit(D4_0)) * z + lit(D40)
}

spec fn c5_near(z: F64) -> F64 {
    (lit(D5_1) * z + lit(D5_0)) * z + lit(D50)
}

spec fn c6_near(z: F64) -> F64 {
    lit(D6_0) * z + lit(D60)
}

proof fn lemma_c0_near(z: F64)
    requires
        half_sized(z),
    ensures
        small(c0_near(z), 653348535282169857),
        small(c0_six(z), 653348500922429441),
        off_by(c0_near(z), c0_six(z), 34359998465),
{
    lemma2_to64();
    lemma2_to64_rest();
    lemma_coefficient(D0_6, 18, 0x3ED0_0000_0000_0000, 4398046511104);
    let h0 = lit(D0_6);
    lemma_coefficient(D0_5, 14, 0x3F10_0000_0000_0000, 70368744177664);
    lemma_magnitude(h0, z, lit(D0_5), 4398046511104, 70368744177664, 2);
    let h1 = h0 * z + lit(D0_5);
    lemma_first_off(h0, z, lit(D0_5), 4398046511104, 2);
    let t1 = lit(D0_5);
    lemma_coefficient(D0_4, 12, 0x3F30_0000_0000_0000, 281474976710656);
    lemma_magnitude(h1, z, lit(D0_4), 72567767564289, 281474976710656, 2);
    let h2 = h1 * z + lit(D0_4);
    lemma_magnitude(t1, z, lit(D0_4), 70368744177664, 281474976710656, 2);
    lemma_off_step(h1, t1, z, lit(D0_4), 2199023386625, 2);
    let t2 = t1 * z + lit(D0_4);
    lemma_coefficient(D0_3, 11, 0x3F40_0000_0000_0000, 562949953421312);
    lemma_magnitude(h2, z, lit(D0_3), 317758860623873, 562949953421312, 2);
    let h3 = h2 * z + lit(D0_3);
    lemma_magnitude(t2, z, lit(D0_3), 316659348930561, 562949953421312, 2);
    lemma_off_step(h2, t2, z, lit(D0_3), 1099511824385, 2);
    let t3 = t2 * z + lit(D0_3);
    lemma_coefficient(D0_2, 9, 0x3F60_0000_0000_0000, 2251799813685248);
    lemma_magnitude(h3, z, lit(D0_2), 721829383864321, 2251799813685248, 2);
    let h4 = h3 * z + lit(D0_2);
    lemma_magnitude(t3, z, lit(D0_2), 721279628017665, 2251799813685248, 2);
    lemma_off_step(h3, t3, z, lit(D0_2), 549756043265, 2);
    let t4 = t3 * z + lit(D0_2);
    lemma_coefficient(D0_1, 6, 0x3F90_0000_0000_0000, 18014398509481984);
    lemma_magnitude(h4, z, lit(D0_1), 2612714505748481, 18014398509481984, 2);
    let h5 = h4 * z + lit(D0_1);
    lemma_magnitude(t4, z, lit(D0_1), 2612439627825153, 18014398509481984, 2);
    lemma_off_step(h4, t4, z, lit(D0_1), 274878152705, 2);
    let t5 = t4 * z + lit(D0_1);
    lemma_coefficient(D0_0, 3, 0x3FC0_0000_0000_0000, 144115188075855872);
    lemma_magnitude(h5, z, lit(D0_0), 19320755762487297, 144115188075855872, 2);
    let h6 = h5 * z + lit(D0_0);
    lemma_magnitude(t5, z, lit(D0_0), 19320618323525633, 144115188075855872, 2);
    lemma_off_step(h5, t5, z, lit(D0_0), 137439207425, 2);
    let t6 = t5 * z + lit(D0_0);
    lemma_coefficient(THIRD, 1, 0x3FE0_0000_0000_0000, 576460752303423488);
    law_negation(lit(THIRD));
    lemma_magnitude(h6, z, lit(THIRD).negated(), 153775565957230593, 576460752303423488, 2);
    let h7 = h6 * z + lit(THIRD).negated();
    lemma_magnitude(t6, z, lit(THIRD).negated(), 153775497237749761, 576460752303423488, 2);
    lemma_off_step(h6, t6, z, lit(THIRD).negated(), 68719734785, 2);
    let t7 = t6 * z + lit(THIRD).negated();
}

proof fn lemma_c1_near(z: F64)
    requires
        half_sized(z),
    ensures
        small(c1_near(z), 5929133632909313),
        small(c1_six(z), 5928566697213953),
        off_by(c1_near(z), c1_six(z), 566935941121),
{
    lemma2_to64();
    lemma2_to64_rest();
    lemma_coefficient(D1_5, 15, 0x3F00_0000_0000_0000, 35184372088832);
    let h0 = lit(D1_5);
    lemma_coefficient(D1_4, 21, 0x3EA0_0000_0000_0000, 549755813888);
    lemma_magnitude(h0, z, lit(D1_4), 35184372088832, 549755813888, 2);
    let h1 = h0 * z + lit(D1_4);
    lemma_coefficient(D1_3, 12, 0x3F30_0000_0000_0000, 281474976710656);
    lemma_magnitude(h1, z, lit(D1_3), 18141941989377, 281474976710656, 2);
    let h2 = h1 * z + lit(D1_3);
    lemma_first_off(h1, z, lit(D1_3), 18141941989377, 2);
    let t2 = lit(D1_3);
    lemma_coefficient(D1_2, 9, 0x3F60_0000_0000_0000, 2251799813685248);
    lemma_magnitude(h2, z, lit(D1_2), 290545947836417, 2251799813685248, 2);
    let h3 = h2 * z + lit(D1_2);
    lemma_magnitude(t2, z, lit(D1_2), 281474976710656, 2251799813685248, 2);
    lemma_off_step(h2, t2, z, lit(D1_2), 9070971125761, 2);
    let t3 = t2 * z + lit(D1_2);
    lemma_coefficient(D1_1, 8, 0x3F70_0000_0000_0000, 4503599627370496);
    lemma_magnitude(h3, z, lit(D1_1), 2397072787734529, 4503599627370496, 2);
    let h4 = h3 * z + lit(D1_1);
    lemma_magnitude(t3, z, lit(D1_1), 2392537302171649, 4503599627370496, 2);
    lemma_off_step(h3, t3, z, lit(D1_1), 4535485693953, 2);
    let t4 = t3 * z + lit(D1_1);
    lemma_coefficient(D1_0, 8, 0x3F70_0000_0000_0000, 4503599627370496);
    lemma_magnitude(h4, z, lit(D1_0), 5702136021368833, 4503599627370496, 2);
    let h5 = h4 * z + lit(D1_0);
    lemma_magnitude(t4, z, lit(D1_0), 5699868278587393, 4503599627370496, 2);
    lemma_off_step(h4, t4, z, lit(D1_0), 2267742978049, 2);
    let t5 = t4 * z + lit(D1_0);
    lemma_coefficient(D10, 9, 0x3F60_0000_0000_0000, 2251799813685248);
    lemma_magnitude(h5, z, lit(D10), 7354667638185985, 2251799813685248, 2);
    let h6 = h5 * z + lit(D10);
    lemma_magnitude(t5, z, lit(D10), 7353533766795265, 2251799813685248, 2);
    lemma_off_step(h5, t5, z, lit(D10), 1133871620097, 2);
    let t6 = t5 * z + lit(D10);
}

proof fn lemma_c2_near(z: F64)
    requires
        half_sized(z),
    ensures
        small(c2_near(z), 11552018917482497),
        small(c2_six(z), 11258999068557313),
        off_by(c2_near(z), c2_six(z), 293019849056257),
{
    lemma2_to64();
    lemma2_to64_rest();
    lemma_coefficient(D2_4, 14, 0x3F10_0000_0000_0000, 70368744177664);
    let h0 = lit(D2_4);
    lemma_coefficient(D2_3, 13, 0x3F20_0000_0000_0000, 140737488355328);
    lemma_magnitude(h0, z, lit(D2_3), 70368744177664, 140737488355328, 2);
    let h1 = h0 * z + lit(D2_3);
    lemma_coefficient(D2_2, 18, 0x3ED0_0000_0000_0000, 4398046511104);
    lemma_magnitude(h1, z, lit(D2_2), 175921860575233, 4398046511104, 2);
    let h2 = h1 * z + lit(D2_2);
    lemma_coefficient(D2_1, 10, 0x3F50_0000_0000_0000, 1125899906842624);
    lemma_magnitude(h2, z, lit(D2_1), 92358976929793, 1125899906842624, 2);
    let h3 = h2 * z + lit(D2_1);
    lemma_coefficient(D2_0, 8, 0x3F70_0000_0000_0000, 4503599627370496);
    lemma_magnitude(h3, z, lit(D2_0), 1172079395438593, 4503599627370496, 2);
    let h4 = h3 * z + lit(D2_0);
    lemma_first_off(h3, z, lit(D2_0), 1172079395438593, 2);
    let t4 = lit(D2_0);
    lemma_coefficient(D20, 7, 0x3F80_0000_0000_0000, 9007199254740992);
    lemma_magnitude(h4, z, lit(D20), 5089639325220865, 9007199254740992, 2);
    let h5 = h4 * z + lit(D20);
    lemma_magnitude(t4, z, lit(D20), 4503599627370496, 9007199254740992, 2);
    lemma_off_step(h4, t4, z, lit(D20), 586039697850369, 2);
    let t5 = t4 * z + lit(D20);
}

proof fn lemma_c3_near(z: F64)
    requires
        half_sized(z),
    ensures
        small(c3_near(z), 1486539720998913),
{
    lemma2_to64();
    lemma2_to64_rest();
    lemma_coefficient(D3_3, 13, 0x3F20_0000_0000_0000, 140737488355328);
    let h0 = lit(D3_3);
    lemma_coefficient(D3_2, 11, 0x3F40_0000_0000_0000, 562949953421312);
    lemma_magnitude(h0, z, lit(D3_2), 140737488355328, 562949953421312, 2);
    let h1 = h0 * z + lit(D3_2);
    lemma_coefficient(D3_1, 11, 0x3F40_0000_0000_0000, 562949953421312);
    lemma_magnitude(h1, z, lit(D3_1), 633318697730049, 562949953421312, 2);
    let h2 = h1 * z + lit(D3_1);
    lemma_coefficient(D3_0, 12, 0x3F30_0000_0000_0000, 281474976710656);
    lemma_magnitude(h2, z, lit(D3_0), 879609302417409, 281474976710656, 2);
    let h3 = h2 * z + lit(D3_0);
    lemma_coefficient(D30, 10, 0x3F50_0000_0000_0000, 1125899906842624);
    lemma_magnitude(h3, z, lit(D30), 721279628050433, 1125899906842624, 2);
    let h4 = h3 * z + lit(D30);
}

proof fn lemma_c4_near(z: F64)
    requires
        half_sized(z),
    ensures
        small(c4_near(z), 1829587348815873),
{
    lemma2_to64();
    lemma2_to64_rest();
    lemma_coefficient(D4_1, 11, 0x3F40_0000_0000_0000, 562949953421312);
    let h0 = lit(D4_1);
    lemma_coefficient(D4_0, 10, 0x3F50_0000_0000_0000, 1125899906842624);
    lemma_magnitude(h0, z, lit(D4_0), 562949953421312, 1125899906842624, 2);
    let h1 = h0 * z + lit(D4_0);
    lemma_coefficient(D40, 10, 0x3F50_0000_0000_0000, 1125899906842624);
    lemma_magnitude(h1, z, lit(D40), 1407374883684353, 1125899906842624, 2);
    let h2 = h1 * z + lit(D40);
}

proof fn lemma_c5_near(z: F64)
    requires
        half_sized(z),
    ensures
        small(c5_near(z), 774056186150913),
{
    lemma2_to64();
    lemma2_to64_rest();
    lemma_coefficient(D5_1, 11, 0x3F40_0000_0000_0000, 562949953421312);
    let h0 = lit(D5_1);
    lemma_coefficient(D5_0, 13, 0x3F20_0000_0000_0000, 140737488355328);
    lemma_magnitude(h0, z, lit(D5_0), 562949953421312, 140737488355328, 2);
    let h1 = h0 * z + lit(D5_0);
    lemma_coefficient(D50, 11, 0x3F40_0000_0000_0000, 562949953421312);
    lemma_magnitude(h1, z, lit(D50), 422212465197057, 562949953421312, 2);
    let h2 = h1 * z + lit(D50);
}

proof fn lemma_c6_near(z: F64)
    requires
        half_sized(z),
    ensures
        small(c6_near(z), 1688849860395009),
{
    lemma2_to64();
    lemma2_to64_rest();
    lemma_coefficient(D6_0, 10, 0x3F50_0000_0000_0000, 1125899906842624);
    let h0 = lit(D6_0);
    lemma_coefficient(D60, 10, 0x3F50_0000_0000_0000, 1125899906842624);
    lemma_magnitude(h0, z, lit(D60), 1125899906842624, 1125899906842624, 2);
    let h1 = h0 * z + lit(D60);
}

proof fn lemma_c0_near_three(z: F64)
    requires
        half_sized(z),
    ensures
        small(c0_three(z), 653303420945661953),
        off_by(c0_near(z), c0_three(z), 45114336737281),
{
    lemma2_to64();
    lemma2_to64_rest();
    lemma_coefficient(D0_6, 18, 0x3ED0_0000_0000_0000, 4398046511104);
    let h0 = lit(D0_6);
    lemma_coefficient(D0_5, 14, 0x3F10_0000_0000_0000, 70368744177664);
    lemma_magnitude(h0, z, lit(D0_5), 4398046511104, 70368744177664, 2);
    let h1 = h0 * z + lit(D0_5);
    lemma_coefficient(D0_4, 12, 0x3F30_0000_0000_0000, 281474976710656);
    lemma_magnitude(h1, z, lit(D0_4), 72567767564289, 281474976710656, 2);
    let h2 = h1 * z + lit(D0_4);
    lemma_coefficient(D0_3, 11, 0x3F40_0000_0000_0000, 562949953421312);
    lemma_magnitude(h2, z, lit(D0_3), 317758860623873, 562949953421312, 2);
    let h3 = h2 * z + lit(D0_3);
    lemma_coefficient(D0_2, 9, 0x3F60_0000_0000_0000, 2251799813685248);
    lemma_magnitude(h3, z, lit(D0_2), 721829383864321, 2251799813685248, 2);
    let h4 = h3 * z + lit(D0_2);
    lemma_first_off(h3, z, lit(D0_2), 721829383864321, 2);
    let t4 = lit(D0_2);
    lemma_coefficient(D0_1, 6, 0x3F90_0000_0000_0000, 18014398509481984);
    lemma_magnitude(h4, z, lit(D0_1), 2612714505748481, 18014398509481984, 2);
    let h5 = h4 * z + lit(D0_1);
    lemma_magnitude(t4, z, lit(D0_1), 2251799813685248, 18014398509481984, 2);
    lemma_off_step(h4, t4, z, lit(D0_1), 360914692063233, 2);
    let t5 = t4 * z + lit(D0_1);
    lemma_coefficient(D0_0, 3, 0x3FC0_0000_0000_0000, 144115188075855872);
    lemma_magnitude(h5, z, lit(D0_0), 19320755762487297, 144115188075855872, 2);
    let h6 = h5 * z + lit(D0_0);
    lemma_magnitude(t5, z, lit(D0_0), 19140298416455681, 144115188075855872, 2);
    lemma_off_step(h5, t5, z, lit(D0_0), 180457346162689, 2);
    let t6 = t5 * z + lit(D0_0);
    lemma_coefficient(THIRD, 1, 0x3FE0_0000_0000_0000, 576460752303423488);
    law_negation(lit(THIRD));
    lemma_magnitude(h6, z, lit(THIRD).negated(), 153775565957230593, 576460752303423488, 2);
    let h7 = h6 * z + lit(THIRD).negated();
    lemma_magnitude(t6, z, lit(THIRD).negated(), 153685337284214785, 576460752303423488, 2);
    lemma_off_step(h6, t6, z, lit(THIRD).negated(), 90228673212417, 2);
    let t7 = t6 * z + lit(THIRD).negated();
}

/// The corrections to six and to three digits lie near that to full accuracy.
proof fn lemma_corrections_near(z: F64, u: F64)
    requires
        half_sized(z),
        u.is_finite() && 16 * size(u.units()) <= pow2(1074),
    ensures
        sized(correction_near(z, u), 1),
        sized(correction_six(z, u), 1),
        sized(c0_three(z), 1),
        off_by(correction_near(z, u), correction_six(z, u), 1606085401923),
        off_by(correction_near(z, u), c0_three(z), 461201945812291),
{
    reveal(correction_near_spec);
    reveal(correction_six_spec);
    lemma2_to64();
    lemma2_to64_rest();
    lemma_fractions();
    lemma_c0_near(z);
    lemma_c0_near_three(z);
    lemma_c1_near(z);
    lemma_c2_near(z);
    lemma_c3_near(z);
    lemma_c4_near(z);
    lemma_c5_near(z);
    lemma_c6_near(z);
    lemma_coefficient(D70, 11, 0x3F40_0000_0000_0000, 562949953421312);
    let g7 = lit(D70);
    lemma_magnitude(g7, u, c6_near(z), 562949953421312, 1688849860395009, 16);
    let g6 = g7 * u + c6_near(z);
    lemma_magnitude(g6, u, c5_near(z), 1724034232614914, 774056186150913, 16);
    let g5 = g6 * u + c5_near(z);
    lemma_magnitude(g5, u, c4_near(z), 881808325820418, 1829587348815873, 16);
    let g4 = g5 * u + c4_near(z);
    lemma_magnitude(g4, u, c3_near(z), 1884700369310722, 1486539720998913, 16);
    let g3 = g4 * u + c3_near(z);
    lemma_magnitude(g3, u, c2_near(z), 1604333494211906, 11552018917482497, 16);
    let g2 = g3 * u + c2_near(z);
    lemma_first_off(g3, u, c2_near(z), 1604333494211906, 16);
    assert(off_by(g2, c2_six(z), 393290692575574));
    lemma_magnitude(g2, u, c1_near(z), 11652289761001814, 5929133632909313, 16);
    let g1 = g2 * u + c1_near(z);
    lemma_magnitude(c2_six(z), u, c1_six(z), 11258999068557313, 5928566697213953, 16);
    let s1 = c2_six(z) * u + c1_six(z);
    lemma_off_two(g2, c2_six(z), u, c1_near(z), c1_six(z), 393290692575574, 566935941121, 16);
    lemma_off_two(g1, s1, u, c0_near(z), c0_six(z), 25147604358167, 34359998465, 16);
    lemma_magnitude(g1, u, c0_near(z), 6657401743102999, 653348535282169857, 16);
    lemma_magnitude(s1, u, c0_six(z), 6632254139129858, 653348500922429441, 16);
    lemma_first_off(g1, u, c0_near(z), 6657401743102999, 16);
}

/// Quotients by the same number of at least `q`.
proof fn lemma_quotients_off(x: F64, x2: F64, y: F64, k: int, q: int)
    requires
        sized(x, 1),
        sized(x2, 1),
        off_by(x, x2, k),
        k >= 0,
        q >= 1,
        y.is_finite() && y.units() >= q * pow2(1074),
    ensures
        sized(x / y, 1) && sized(x2 / y, 1),
        off_by(x / y, x2 / y, k / q + 0x1_0001),
{
    lemma_fractions();
    let d = pow2(1074) as int;
    let u = pow2(1014) as int;
    lemma_pow2_pos(1074);
    let yu = y.units();
    assert(yu >= d) by (nonlinear_arith)
        requires yu >= q * d, q >= 1, d > 0;
    lemma_quotient_off(x, y, 1);
    lemma_quotient_off(x2, y, 1);
    let v = (x / y).units() - (x2 / y).units();
    let e = x.units() - x2.units();
    let g = 0x8000 * u;
    assert(v * yu == (x / y).units() * yu - (x2 / y).units() * yu) by (nonlinear_arith)
        requires v == (x / y).units() - (x2 / y).units();
    assert(e * d == x.units() * d - x2.units() * d) by (nonlinear_arith)
        requires e == x.units() - x2.units();
    assert(size(v * yu) <= size(e * d) + 2 * (g * yu));
    assert(size(v * yu) == size(v) * yu) by (nonlinear_arith)
        requires yu > 0;
    assert(size(e * d) == size(e) * d) by (nonlinear_arith)
        requires d > 0;
    assert(q * (size(e) * d) <= (k * u) * yu) by (nonlinear_arith)
        requires 0 <= size(e) <= k * u, q * d <= yu, q >= 1, d > 0;
    assert(q * (size(v) * yu) <= (k * u + 2 * (q * g)) * yu) by (nonlinear_arith)
        requires size(v) * yu <= size(e) * d + 2 * (g * yu), q * (size(e) * d) <= (k * u) * yu, q >= 1;
    assert(q * size(v) <= k * u + 2 * (q * g)) by (nonlinear_arith)
        requires q * (size(v) * yu) <= (k * u + 2 * (q * g)) * yu, yu > 0;
    let f = k / q;
    vstd::arithmetic::div_mod::lemma_fundamental_div_mod(k, q);
    vstd::arithmetic::div_mod::lemma_mod_bound(k, q);
    assert(k <= q * (f + 1)) by (nonlinear_arith)
        requires k == q * f + k % q, k % q < q;
    assert(size(v) <= (f + 0x1_0001) * u) by (nonlinear_arith)
        requires q * size(v) <= k * u + 2 * (q * g), k <= q * (f + 1), g == 0x8000 * u, q >= 1, u > 0;
}

/// How much of a difference between two corrections is left in the ratios.
spec fn after_uniform(k: int) -> int {
    ((13 * k) / 32 + 0x1_0001) / 4 + 0x1_0001 + 0x1_0000 + 0x1_0001 + 0x2_0000
}

proof fn lemma_uniform_finish(l: F64, c: F64, w: F64, t: F64, t2: F64, rta: F64, k: int)
    requires
        at_most(c, 1, 0) && c.units() >= 0,
        at_most(w, 1, 0) && w.units() >= 0,
        sized(t, 1),
        sized(t2, 1),
        off_by(t, t2, k),
        k >= 0,
        rta.is_finite() && rta.units() >= 4 * pow2(1074),
    ensures
        ratios_off_by(temme_finish(l, c, w, t, rta), temme_finish(l, c, w, t2, rta), after_uniform(k)),
{
    reveal(temme_finish_spec);
    lemma_small_powers();
    lemma_fractions();
    let d = pow2(1074) as int;
    let u = pow2(1014) as int;
    lemma_pow2_pos(1074);
    let r = lit(RT2PIN);
    lemma_literal(RT2PIN, 1020, 0x19_8845_33D4_3656, 49, 12, 13, 5);
    lemma_pow2_adds(5, 1069);
    assert(32 * size(r.units()) <= 13 * d);
    lemma_products_off(t, t2, r, 1, 1, k, 13, 32);
    let k1 = (13 * k) / 32 + 0x1_0001;
    lemma_quotients_off(r * t, r * t2, rta, k1, 4);
    let k2 = k1 / 4 + 0x1_0001;
    let v = r * t / rta;
    let v2 = r * t2 / rta;
    lemma_sums_off(v, v2, w, 1, 1, k2);
    let k3 = k2 + 0x1_0000;
    lemma_products_off(w - v, w - v2, c, 2, 1, k3, 1, 1);
    lemma_products_off(w + v, w + v2, c, 2, 1, k3, 1, 1);
    assert((1 * k3) / 1 == k3);
    let k4 = k3 + 0x1_0001;
    lemma_complements_off(c * (w - v), c * (w - v2), 2, k4);
    lemma_complements_off(c * (w + v), c * (w + v2), 2, k4);
    assert(k4 * u <= (k4 + 0x2_0000) * u) by (nonlinear_arith)
        requires u > 0;
}

/// The root of a number of at least twenty is at least four.
proof fn lemma_root_from_four(a: F64)
    requires
        a.is_finite() && a.units() >= 20 * pow2(1074),
    ensures
        a.sqrt().is_finite(),
        a.sqrt().units() >= 4 * pow2(1074),
{
    broadcast use lemma_lt_units;
    lemma_small_powers();
    lemma_mag_zero(0);
    lemma_pow2_pos(1074);
    law_root_is_nearest(a);
    let d = pow2(1074) as int;
    let e = a.sqrt().enc() as int;
    lemma_order(a.enc() as int, 0);
    lemma_order(a.enc() as int, INF_ENC as int);
    let am = mag(a.enc() as int);
    let num = am * d;
    lemma_literal(FOUR, 1024, 0x10_0000_0000_0000, 50, 4, 4, 0);
    if e < FOUR {
        lemma_order(e, FOUR as int);
        lemma_order(e + 1, FOUR as int);
        let h = mag(e) + mag(e + 1);
        lemma_order(e, 0);
        assert(h * h <= (8 * d) * (8 * d)) by (nonlinear_arith)
            requires 0 <= h <= 8 * d;
        assert(4 * num >= 80 * (d * d)) by (nonlinear_arith)
            requires num == am * d, am >= 20 * d, d > 0;
        assert((8 * d) * (8 * d) == 64 * (d * d)) by (nonlinear_arith);
        assert(d * d > 0) by (nonlinear_arith)
            requires d > 0;
    }
    lemma_order(e, FOUR as int);
    if e >= INF_ENC {
        lemma_order(INF_ENC as int, INF_ENC - 1);
        lemma_order(INF_ENC - 1, FOUR as int);
        let h = mag(INF_ENC - 1) + mag(INF_ENC as int);
        let m = mag(INF_ENC as int);
        assert(am <= m);
        let b = 4 * d;
        assert(h * h >= h * b) by (nonlinear_arith)
            requires h >= b, h >= 0;
        assert(h * b >= (m + b) * b) by (nonlinear_arith)
            requires h >= m + b, b > 0;
        assert((m + b) * b > 4 * num) by (nonlinear_arith)
            requires b == 4 * d, d > 0, num == am * d, am <= m;
    }
}

/// The bits of four.
pub const FOUR: u64 = 0x4010_0000_0000_0000;

/// The bits of 0.14.
pub const WIDEST: u64 = 0x3FC1_EB85_1EB8_51EC;

/// The uniform expansion away from its centre: the ratio of the argument to the parameter is
/// off one by more than 0.14 over the parameter's root, but by at most 0.4, the expansion's
/// variable is at most one half, and the exponential and the error function lie between zero
/// and one.
pub open spec fn is_uniform<M: Fn(Elementary) -> F64>(m: &M, a: F64, x: F64) -> bool {
    let l = x / a;
    let s = lit(HALF) + (lit(HALF) - l);
    let z = rlog(m, l);
    let y = a * z;
    let c = exp(m, y.negated());
    let w = lit(HALF) * error_fc_scaled(m, y.sqrt());
    &&& a.is_finite() && a.ge(lit(TWENTY))
    &&& !l.equals(lit(ZERO)) && !z.ge(lit(0x4085_E000_0000_0000 /* 700.0 */) / a)
    &&& s.abs().gt(lit(WIDEST) / a.sqrt())
    &&& s.abs().le(lit(0x3FD9_9999_9999_999A /* 0.4 */))
    &&& half_sized(temme_variable(l, z))
    &&& at_most(c, 1, 0) && c.units() >= 0
    &&& at_most(w, 1, 0) && w.units() >= 0
}

/// Where the ratios come of the uniform expansion away from its centre, those at six digits
/// are within 1e-6 of those at full accuracy, and those at three digits within 1e-3.
pub proof fn law_accuracy_of_uniform_expansion<M: Fn(Elementary) -> F64>(m: &M, a: F64, x: F64)
    requires
        is_uniform(m, a, x),
    ensures
        ({
            let f = gamma_inc_core(m, a, x, GammaIncAcc::Max);
            let s = gamma_inc_core(m, a, x, GammaIncAcc::Digits6);
            let t = gamma_inc_core(m, a, x, GammaIncAcc::Digits3);
            &&& ratios_off_by(f, s, SPAN as int / 1_000_000)
            &&& ratios_off_by(f, t, SPAN as int / 1_000)
        }),
{
    broadcast use lemma_le_units;
    broadcast use lemma_lt_units;
    broadcast use lemma_equals_units;
    lemma_small_powers();
    lemma_fractions();
    lemma_mag_zero(0);
    let d = pow2(1074) as int;
    let u = pow2(1014) as int;
    lemma_pow2_pos(1074);
    reveal(gamma_inc_core_spec);
    reveal(large_spec);
    reveal(temme_general_spec);
    lemma_literal(TWENTY, 1026, 0x14_0000_0000_0000, 48, 20, 20, 0);
    lemma_literal(ONE, 1022, 0x10_0000_0000_0000, 52, 1, 1, 0);
    lemma_order(TWENTY as int, ONE as int);
    lemma_order(TWENTY as int, 0x402C_0000_0000_0000);
    lemma_order(TWENTY as int, TEN as int);
    lemma_root_from_four(a);
    let rta = a.sqrt();
    lemma_thresholds(rta);
    // the inverse of the parameter
    let v = lit(ONE) / a;
    lemma_quotient(lit(ONE), a);
    lemma_part(1, 4);
    lemma_pow2_adds(4, 1070);
    lemma2_to64();
    assert(d * d <= part(1, 4) * a.units()) by (nonlinear_arith)
        requires d == 16 * part(1, 4), a.units() >= 20 * d, d > 0;
    lemma_ratio_le(d * d, a.units(), part(1, 4));
    lemma_order(v.enc() as int, INF_ENC as int);
    lemma_order(v.enc() as int, 0);
    let l = x / a;
    let z = rlog(m, l);
    let y = a * z;
    let w = lit(HALF) * error_fc_scaled(m, y.sqrt());
    let c = exp(m, y.negated());
    let zz = temme_variable(l, z);
    let full = correction_full(zz, v);
    let near = correction_near(zz, v);
    let six = correction_six(zz, v);
    lemma_corrections_full(zz, v);
    lemma_corrections_near(zz, v);
    lemma_uniform_finish(l, c, w, full, six, rta, 1627683186243);
    lemma_uniform_finish(l, c, w, full, c0_three(zz), rta, 461223543596611);
    lemma_uniform_finish(l, c, w, near, six, rta, 1606085401923);
    lemma_uniform_finish(l, c, w, near, c0_three(zz), rta, 461201945812291);
    assert(after_uniform(1627683186243) == 165311917669);
    assert(after_uniform(461223543596611) == 46843016490597);
    assert(after_uniform(1606085401923) == 163118392699);
    assert(after_uniform(461201945812291) == 46840822965627);
    let k6 = SPAN as int / 1_000_000;
    let k3 = SPAN as int / 1_000;
    assert(165311917669 * u <= k6 * u && 163118392699 * u <= k6 * u && 0 <= k6 * u) by (nonlinear_arith)
        requires u > 0, k6 == 1152921504606;
    assert(46843016490597 * u <= k3 * u && 46840822965627 * u <= k3 * u && 0 <= k3 * u) by (nonlinear_arith)
        requires u > 0, k3 == 1152921504606846;
}

/// The centre of the expansion is narrower at a higher accuracy.
proof fn lemma_thresholds(rta: F64)
    requires
        rta.is_finite() && rta.units() >= 4 * pow2(1074),
    ensures
        !(lit(WIDEST) / rta).is_nan(),
        (lit(0x3F30_624D_D2F1_A9FC) / rta).units() <= (lit(WIDEST) / rta).units(),
        (lit(0x3F99_9999_9999_999A) / rta).units() <= (lit(WIDEST) / rta).units(),
{
    let d = pow2(1074) as int;
    lemma_pow2_pos(1074);
    lemma_mag_zero(0);
    let w = lit(WIDEST);
    let p = lit(0x3F30_624D_D2F1_A9FC);
    let q = lit(0x3F99_9999_9999_999A);
    lemma_order(WIDEST as int, 0x3F30_624D_D2F1_A9FC);
    lemma_order(WIDEST as int, 0x3F99_9999_9999_999A);
    lemma_order(WIDEST as int, 0);
    lemma_order(0x3F30_624D_D2F1_A9FC, 0);
    lemma_order(0x3F99_9999_9999_999A, 0);
    lemma_quotient(w, rta);
    lemma_quotient(p, rta);
    lemma_quotient(q, rta);
    assert(p.units() * d <= w.units() * d && q.units() * d <= w.units() * d) by (nonlinear_arith)
        requires p.units() <= w.units(), q.units() <= w.units(), d > 0;
    law_rounding_is_monotone(p.units() * d, w.units() * d, rta.units());
    law_rounding_is_monotone(q.units() * d, w.units() * d, rta.units());
    lemma_order((p / rta).enc() as int, (w / rta).enc() as int);
    lemma_order((q / rta).enc() as int, (w / rta).enc() as int);
}

} // verus!
