//! The normal distribution function is continuous, up to rounding, and its inverse undoes it.
use crate::consts::{EPSILON, HALF, ONE, ZERO};
use crate::dist::normal;
use crate::float::{lit, F64};
use crate::float::arith::lemma_round_zero;
use crate::float::bounds::{
    at_least, at_most, lemma_literal, lemma_part, lemma_product, lemma_product_at_least,
    lemma_product_at_most, lemma_quotient, lemma_quotient_at_least, lemma_ratio_ge, lemma_ratio_le,
    part,
};
use crate::float::laws::{
    law_negation, law_product_is_nearest, law_product_of_negated, law_quotient_is_nearest,
    law_sum_is_nearest,
};
use crate::float::model::{
    lemma_cell_of, lemma_mag_cell, lemma_mag_zero, lemma_round_ratio_is, mag, round_ratio, scale,
    significand, CELL, INF_ENC,
};
use crate::float::number::{lemma_le_units, lemma_lt_units, lemma_order};
use crate::float::relative::{
    alike, lemma_alike_end, lemma_alike_products, lemma_alike_quotients, lemma_alike_start,
    lemma_alike_step, lemma_both_rounded, lemma_finite_round, lemma_moderate, lemma_near_apart,
    lemma_near_cancel, lemma_near_chain, lemma_near_product, lemma_near_rest, lemma_near_self,
    lemma_near_wider, lemma_normal_product, lemma_round_near, lemma_rounded_near, moderate, near,
    SPAN,
};
use crate::float::signed::{
    lemma_representable, lemma_rounded, lemma_sum_units, representable, rounded,
};
use crate::functions::{exp, Elementary};
use crate::search::drive::SEARCH_BOUND;
use crate::special::normal::{
    central, central_spec, cumnor, cumnor_spec, dinvnr, far, far_spec, flush, shoulder,
    shoulder_spec, split_exponential, A0, A1, A2, A3, A4, B0, B1, B2, B3, C0, C1, C2, C3, C4, C5,
    C6, C7, C8, D0, D1, D2, D3, D4, D5, D6, D7, P0, P1, P2, P3, P4, P5, Q0, Q1, Q2, Q3, Q4, R2PI,
    ROOT32, SQRPI, THRSH,
};
use crate::special::normal_laws::{
    decays, inverts, last_step, law_last_step_is_close, law_normal_inverse_ends, law_normal_tails,
    lemma_at_least, lemma_at_most, lemma_bound_is_large, lemma_central, lemma_coarser,
    lemma_complement_in_range, lemma_far, lemma_fine_grid, lemma_finite_step, lemma_flush,
    lemma_grid, lemma_inverse_square, lemma_looser, lemma_quotient_below, lemma_rest,
    lemma_shoulder, lemma_sixteenths, lemma_sixteenths_close, lemma_small_powers, lemma_split,
    lemma_split_arguments, lemma_unit, rest, sixteenths, smaller, turned, MINUS_HALF, SIXTEEN,
    SIXTY_FOUR, STEP,
};
use crate::special::poly::within;
use vstd::arithmetic::div_mod::{
    lemma_div_multiples_vanish, lemma_div_pos_is_pos, lemma_fundamental_div_mod, lemma_mod_bound,
};
use vstd::arithmetic::power2::{
    lemma2_to64, lemma2_to64_rest, lemma_pow2_adds, lemma_pow2_pos, lemma_pow2_strictly_increases,
    pow2,
};
use vstd::prelude::*;

verus! {

/// Quotients of what has been bounded on the way are normal.
proof fn lemma_wide_quotient(n: F64, d: F64, b: int)
    requires
        at_least(n, 1, 30),
        at_least(d, 1, 30),
        at_most(d, b, 0),
        0 <= b <= 0x2000_0000_0000,
    ensures
        n.units() * pow2(1074) >= CELL * d.units(),
        d.units() > 0,
{
    lemma_small_powers();
    lemma_part(1, 30);
    lemma_pow2_pos(1074);
    lemma_pow2_adds(30, 1044);
    lemma_pow2_adds(64, 980);
    lemma_pow2_adds(64, 916);
    lemma_pow2_pos(916);
    lemma2_to64();
    lemma2_to64_rest();
    let w = pow2(1044) as int;
    let t = pow2(1074) as int;
    assert(pow2(1044) == pow2(64) * (pow2(64) * pow2(916)));
    assert(w >= CELL * 0x2000_0000_0000) by (nonlinear_arith)
        requires w == 0x1_0000_0000_0000_0000 * (0x1_0000_0000_0000_0000 * pow2(916)), pow2(916) > 0,
            CELL == 0x0010_0000_0000_0000;
    let du = d.units();
    assert(n.units() * t >= w * t) by (nonlinear_arith)
        requires n.units() >= w, t > 0;
    assert(w * t >= (CELL * 0x2000_0000_0000) * t) by (nonlinear_arith)
        requires w >= CELL * 0x2000_0000_0000, t > 0;
    assert(du <= 0x2000_0000_0000 * t) by (nonlinear_arith)
        requires du <= b * t, b <= 0x2000_0000_0000, t > 0;
    assert(CELL * du <= CELL * (0x2000_0000_0000 * t)) by (nonlinear_arith)
        requires du <= 0x2000_0000_0000 * t, CELL > 0;
}

/// A product of what has been bounded on the way is finite and normal.
proof fn lemma_tame_product(u: F64, n: F64, b: int)
    requires
        moderate(u),
        at_least(n, 1, 30),
        at_most(n, b, 0),
        0 <= b <= 0x2000_0000_0000,
    ensures
        (u * n).is_finite(),
        u.units() * n.units() >= CELL * pow2(1074),
        at_least(u * n, 1, 130),
{
    lemma_part(1, 30);
    lemma_part(1, 100);
    lemma_product_at_most(u, n, 8, 0, b, 0);
    lemma_product_at_least(u, n, 1, 100, 1, 30);
    lemma_normal_product(n.units(), u.units());
    assert(n.units() * u.units() == u.units() * n.units()) by (nonlinear_arith);
}

/// The same for a quotient of a product.
proof fn lemma_wider_quotient(n: F64, d: F64, b: int)
    requires
        at_least(n, 1, 130),
        at_least(d, 1, 30),
        at_most(d, b, 0),
        0 <= b <= 0x2000_0000_0000,
    ensures
        n.units() * pow2(1074) >= CELL * d.units(),
        d.units() > 0,
{
    lemma_small_powers();
    lemma_part(1, 30);
    lemma_pow2_pos(1074);
    lemma_pow2_adds(64, 880);
    lemma_pow2_adds(64, 816);
    lemma_pow2_pos(816);
    lemma2_to64();
    lemma2_to64_rest();
    let w = pow2(944) as int;
    let t = pow2(1074) as int;
    assert(pow2(944) == pow2(64) * (pow2(64) * pow2(816)));
    assert(w >= CELL * 0x2000_0000_0000) by (nonlinear_arith)
        requires w == 0x1_0000_0000_0000_0000 * (0x1_0000_0000_0000_0000 * pow2(816)), pow2(816) > 0,
            CELL == 0x0010_0000_0000_0000;
    let du = d.units();
    assert(n.units() * t >= w * t) by (nonlinear_arith)
        requires n.units() >= w, t > 0;
    assert(w * t >= (CELL * 0x2000_0000_0000) * t) by (nonlinear_arith)
        requires w >= CELL * 0x2000_0000_0000, t > 0;
    assert(du <= 0x2000_0000_0000 * t) by (nonlinear_arith)
        requires du <= b * t, b <= 0x2000_0000_0000, t > 0;
    assert(CELL * du <= CELL * (0x2000_0000_0000 * t)) by (nonlinear_arith)
        requires du <= 0x2000_0000_0000 * t, CELL > 0;
}

/// At near arguments the shoulder's rational function has near values.
proof fn lemma_shoulder_alike(y: F64, y2: F64, j: int)
    requires
        alike(y, y2, j),
        j <= 0x4_0000,
        at_least(y, 1, 1),
        at_least(y2, 1, 1),
        y.le(lit(ROOT32)),
        y2.le(lit(ROOT32)),
    ensures
        alike(shoulder(y), shoulder(y2), 16 * j + 8464),
{
    reveal(shoulder_spec);
    lemma_small_powers();
    broadcast use lemma_le_units;
    lemma_part(1, 1);
    lemma_literal(ROOT32, 1024, 6369051670845502, 50, 5, 6, 0);
    lemma_at_most(y, lit(ROOT32), 6, 0);
    lemma_at_most(y2, lit(ROOT32), 6, 0);
    lemma_looser(y, 6, 8, 0);
    lemma_looser(y2, 6, 8, 0);
    lemma_pow2_strictly_increases(974, 1073);
    assert(moderate(y) && moderate(y2));
    lemma_moderate(C8);
    let n0 = lit(C8) * y;
    let n0_2 = lit(C8) * y2;
    lemma_alike_start(lit(C8), y, y2, j);
    lemma_moderate(C0);
    let n1 = (n0 + lit(C0)) * y;
    let n1_2 = (n0_2 + lit(C0)) * y2;
    lemma_alike_step(n0, n0_2, lit(C0), y, y2, j + 265, j, 524288);
    lemma_moderate(C1);
    let n2 = (n1 + lit(C1)) * y;
    let n2_2 = (n1_2 + lit(C1)) * y2;
    lemma_alike_step(n1, n1_2, lit(C1), y, y2, 2 * j + 794, j, 4718592);
    lemma_moderate(C2);
    let n3 = (n2 + lit(C2)) * y;
    let n3_2 = (n2_2 + lit(C2)) * y2;
    lemma_alike_step(n2, n2_2, lit(C2), y, y2, 3 * j + 1323, j, 38273024);
    lemma_moderate(C3);
    let n4 = (n3 + lit(C3)) * y;
    let n4_2 = (n3_2 + lit(C3)) * y2;
    lemma_alike_step(n3, n3_2, lit(C3), y, y2, 4 * j + 1852, j, 306708480);
    lemma_moderate(C4);
    let n5 = (n4 + lit(C4)) * y;
    let n5_2 = (n4_2 + lit(C4)) * y2;
    lemma_alike_step(n4, n4_2, lit(C4), y, y2, 5 * j + 2381, j, 2454192128);
    lemma_moderate(C5);
    let n6 = (n5 + lit(C5)) * y;
    let n6_2 = (n5_2 + lit(C5)) * y2;
    lemma_alike_step(n5, n5_2, lit(C5), y, y2, 6 * j + 2910, j, 19634061312);
    lemma_moderate(C6);
    let n7 = (n6 + lit(C6)) * y;
    let n7_2 = (n6_2 + lit(C6)) * y2;
    lemma_alike_step(n6, n6_2, lit(C6), y, y2, 7 * j + 3439, j, 157073014784);
    lemma_moderate(C7);
    let n = n7 + lit(C7);
    let n_2 = n7_2 + lit(C7);
    lemma_alike_end(n7, n7_2, lit(C7), 8 * j + 3968, 1256584642560);
    let d0 = y;
    let d0_2 = y2;
    lemma_moderate(D0);
    let d1 = (d0 + lit(D0)) * y;
    let d1_2 = (d0_2 + lit(D0)) * y2;
    lemma_alike_step(d0, d0_2, lit(D0), y, y2, j, j, 8);
    lemma_moderate(D1);
    let d2 = (d1 + lit(D1)) * y;
    let d2_2 = (d1_2 + lit(D1)) * y2;
    lemma_alike_step(d1, d1_2, lit(D1), y, y2, 2 * j + 529, j, 524352);
    lemma_moderate(D2);
    let d3 = (d2 + lit(D2)) * y;
    let d3_2 = (d2_2 + lit(D2)) * y2;
    lemma_alike_step(d2, d2_2, lit(D2), y, y2, 3 * j + 1058, j, 4719104);
    lemma_moderate(D3);
    let d4 = (d3 + lit(D3)) * y;
    let d4_2 = (d3_2 + lit(D3)) * y2;
    lemma_alike_step(d3, d3_2, lit(D3), y, y2, 4 * j + 1587, j, 38277120);
    lemma_moderate(D4);
    let d5 = (d4 + lit(D4)) * y;
    let d5_2 = (d4_2 + lit(D4)) * y2;
    lemma_alike_step(d4, d4_2, lit(D4), y, y2, 5 * j + 2116, j, 306741248);
    lemma_moderate(D5);
    let d6 = (d5 + lit(D5)) * y;
    let d6_2 = (d5_2 + lit(D5)) * y2;
    lemma_alike_step(d5, d5_2, lit(D5), y, y2, 6 * j + 2645, j, 2454454272);
    lemma_moderate(D6);
    let d7 = (d6 + lit(D6)) * y;
    let d7_2 = (d6_2 + lit(D6)) * y2;
    lemma_alike_step(d6, d6_2, lit(D6), y, y2, 7 * j + 3174, j, 19636158464);
    lemma_moderate(D7);
    let d = d7 + lit(D7);
    let d_2 = d7_2 + lit(D7);
    lemma_alike_end(d7, d7_2, lit(D7), 8 * j + 3703, 157089792000);
    lemma_wide_quotient(n, d, 157089857536);
    lemma_wide_quotient(n_2, d_2, 157089857536);
    lemma_shoulder(y);
    lemma_shoulder(y2);
    lemma_alike_quotients(n, n_2, d, d_2, 8 * j + 4232, 8 * j + 3967);
}

/// At near arguments what the tail is lessened by, far out, has near values.
proof fn lemma_rest_alike(u: F64, u2: F64, j: int)
    requires
        alike(u, u2, j),
        j <= 0x8_0000,
        at_least(u, 1, 100),
        at_least(u2, 1, 100),
        at_most(u, 129, 12),
        at_most(u2, 129, 12),
    ensures
        alike(rest(u), rest(u2), 11 * j + 5555),
{
    lemma_small_powers();
    lemma_part(1, 100);
    lemma_coarser(u, 129, 0, 12, 8);
    lemma_coarser(u2, 129, 0, 12, 8);
    lemma_moderate(P5);
    let n0 = lit(P5) * u;
    let n0_2 = lit(P5) * u2;
    lemma_alike_start(lit(P5), u, u2, j);
    lemma_moderate(P0);
    let n1 = (n0 + lit(P0)) * u;
    let n1_2 = (n0_2 + lit(P0)) * u2;
    lemma_alike_step(n0, n0_2, lit(P0), u, u2, j + 265, j, 524288);
    lemma_moderate(P1);
    let n2 = (n1 + lit(P1)) * u;
    let n2_2 = (n1_2 + lit(P1)) * u2;
    lemma_alike_step(n1, n1_2, lit(P1), u, u2, 2 * j + 794, j, 4718592);
    lemma_moderate(P2);
    let n3 = (n2 + lit(P2)) * u;
    let n3_2 = (n2_2 + lit(P2)) * u2;
    lemma_alike_step(n2, n2_2, lit(P2), u, u2, 3 * j + 1323, j, 38273024);
    lemma_moderate(P3);
    let n4 = (n3 + lit(P3)) * u;
    let n4_2 = (n3_2 + lit(P3)) * u2;
    lemma_alike_step(n3, n3_2, lit(P3), u, u2, 4 * j + 1852, j, 306708480);
    lemma_moderate(P4);
    let n = n4 + lit(P4);
    let n_2 = n4_2 + lit(P4);
    lemma_alike_end(n4, n4_2, lit(P4), 5 * j + 2381, 2454192128);
    let d0 = u;
    let d0_2 = u2;
    lemma_moderate(Q0);
    let d1 = (d0 + lit(Q0)) * u;
    let d1_2 = (d0_2 + lit(Q0)) * u2;
    lemma_alike_step(d0, d0_2, lit(Q0), u, u2, j, j, 8);
    lemma_moderate(Q1);
    let d2 = (d1 + lit(Q1)) * u;
    let d2_2 = (d1_2 + lit(Q1)) * u2;
    lemma_alike_step(d1, d1_2, lit(Q1), u, u2, 2 * j + 529, j, 524352);
    lemma_moderate(Q2);
    let d3 = (d2 + lit(Q2)) * u;
    let d3_2 = (d2_2 + lit(Q2)) * u2;
    lemma_alike_step(d2, d2_2, lit(Q2), u, u2, 3 * j + 1058, j, 4719104);
    lemma_moderate(Q3);
    let d4 = (d3 + lit(Q3)) * u;
    let d4_2 = (d3_2 + lit(Q3)) * u2;
    lemma_alike_step(d3, d3_2, lit(Q3), u, u2, 4 * j + 1587, j, 38277120);
    lemma_moderate(Q4);
    let d = d4 + lit(Q4);
    let d_2 = d4_2 + lit(Q4);
    lemma_alike_end(d4, d4_2, lit(Q4), 5 * j + 2116, 306741248);
    lemma_tame_product(u, n, 2454257664);
    lemma_tame_product(u2, n_2, 2454257664);
    lemma_alike_products(u, u2, n, n_2, j, 5 * j + 2645);
    lemma_wider_quotient(u * n, d, 306806784);
    lemma_wider_quotient(u2 * n_2, d_2, 306806784);
    lemma_rest(u);
    lemma_rest(u2);
    lemma_alike_quotients(u * n, u2 * n_2, d, d_2, 6 * j + 2910, 5 * j + 2380);
}

/// At near arguments the rational function near the middle has near values.
proof fn lemma_central_alike(x: F64, x2: F64, j: int)
    requires
        alike(x, x2, j),
        j <= 0x4_0000,
        at_least(x, 1, 40),
        at_least(x2, 1, 40),
        x.le(lit(THRSH)),
        x2.le(lit(THRSH)),
    ensures
        alike(central(x, x), central(x2, x2), 17 * j + 6617),
{
    reveal(central_spec);
    lemma_small_powers();
    broadcast use lemma_le_units;
    broadcast use lemma_lt_units;
    lemma_part(1, 40);
    lemma_literal(THRSH, 1021, 5970962457960351, 45, 169, 170, 8);
    lemma_at_most(x, lit(THRSH), 170, 8);
    lemma_at_most(x2, lit(THRSH), 170, 8);
    lemma_coarser(x, 170, 0, 8, 8);
    lemma_coarser(x2, 170, 0, 8, 8);
    lemma_above_noise(x);
    lemma_above_noise(x2);
    let u = x * x;
    let u2 = x2 * x2;
    let i = 2 * j + 265;
    lemma_square(x);
    lemma_square(x2);
    lemma_alike_products(x, x2, x, x2, j, j);
    lemma_pow2_strictly_increases(974, 1034);
    lemma_moderate(A4);
    let n0 = lit(A4) * u;
    let n0_2 = lit(A4) * u2;
    lemma_alike_start(lit(A4), u, u2, i);
    lemma_moderate(A0);
    let n1 = (n0 + lit(A0)) * u;
    let n1_2 = (n0_2 + lit(A0)) * u2;
    lemma_alike_step(n0, n0_2, lit(A0), u, u2, i + 265, i, 524288);
    lemma_moderate(A1);
    let n2 = (n1 + lit(A1)) * u;
    let n2_2 = (n1_2 + lit(A1)) * u2;
    lemma_alike_step(n1, n1_2, lit(A1), u, u2, 2 * i + 794, i, 4718592);
    lemma_moderate(A2);
    let n3 = (n2 + lit(A2)) * u;
    let n3_2 = (n2_2 + lit(A2)) * u2;
    lemma_alike_step(n2, n2_2, lit(A2), u, u2, 3 * i + 1323, i, 38273024);
    lemma_moderate(A3);
    let n = n3 + lit(A3);
    let n_2 = n3_2 + lit(A3);
    lemma_alike_end(n3, n3_2, lit(A3), 4 * i + 1852, 306708480);
    let d0 = u;
    let d0_2 = u2;
    lemma_moderate(B0);
    let d1 = (d0 + lit(B0)) * u;
    let d1_2 = (d0_2 + lit(B0)) * u2;
    lemma_alike_step(d0, d0_2, lit(B0), u, u2, i, i, 8);
    lemma_moderate(B1);
    let d2 = (d1 + lit(B1)) * u;
    let d2_2 = (d1_2 + lit(B1)) * u2;
    lemma_alike_step(d1, d1_2, lit(B1), u, u2, 2 * i + 529, i, 524352);
    lemma_moderate(B2);
    let d3 = (d2 + lit(B2)) * u;
    let d3_2 = (d2_2 + lit(B2)) * u2;
    lemma_alike_step(d2, d2_2, lit(B2), u, u2, 3 * i + 1058, i, 4719104);
    lemma_moderate(B3);
    let d = d3 + lit(B3);
    let d_2 = d3_2 + lit(B3);
    lemma_alike_end(d3, d3_2, lit(B3), 4 * i + 1587, 38277120);
    lemma_tame_product(x, n, 306774016);
    lemma_tame_product(x2, n_2, 306774016);
    lemma_alike_products(x, x2, n, n_2, j, 4 * i + 2116);
    lemma_wider_quotient(x * n, d, 38342656);
    lemma_wider_quotient(x2 * n_2, d_2, 38342656);
    lemma_central(x, x);
    lemma_central(x2, x2);
    lemma_alike_quotients(x * n, x2 * n_2, d, d_2, j + 4 * i + 2381, 4 * i + 1851);
}

/// A square below one is moderate.
proof fn lemma_square(x: F64)
    requires
        at_least(x, 1, 40),
        at_most(x, 170, 8),
    ensures
        x.units() * x.units() >= CELL * pow2(1074),
        moderate(x * x),
{
    lemma_small_powers();
    lemma_part(1, 40);
    lemma_product_at_most(x, x, 170, 8, 170, 8);
    lemma_coarser(x * x, 28900, 0, 16, 8);
    lemma_product_at_least(x, x, 1, 40, 1, 40);
    lemma_pow2_strictly_increases(974, 994);
    lemma_pow2_adds(1034, 1034);
    lemma_pow2_adds(52, 1074);
    lemma_pow2_strictly_increases(1126, 2068);
    lemma2_to64_rest();
    let w = pow2(1034) as int;
    assert(x.units() * x.units() >= w * w) by (nonlinear_arith)
        requires x.units() >= w, w >= 0;
}

/// Beyond 2^-40 the square is taken.
proof fn lemma_above_noise(x: F64)
    requires
        at_least(x, 1, 40),
    ensures
        x.gt(lit(HALF) * lit(EPSILON)),
{
    broadcast use lemma_lt_units;
    lemma_small_powers();
    lemma2_to64();
    lemma2_to64_rest();
    lemma_literal(HALF, 1021, 0x10_0000_0000_0000, 52, 1, 1, 1);
    lemma_literal(EPSILON, 970, 0x10_0000_0000_0000, 52, 1, 1, 52);
    lemma_product_at_most(lit(HALF), lit(EPSILON), 1, 1, 1, 52);
    lemma_pow2_strictly_increases(1021, 1034);
}

/// At near arguments the tail's factor, far out, has near values.
proof fn lemma_far_alike(x: F64, x2: F64, j: int)
    requires
        alike(x, x2, j),
        j <= 0x2_8000,
        x.gt(lit(ROOT32)),
        x2.gt(lit(ROOT32)),
        at_most(x, 64, 0),
        at_most(x2, 64, 0),
    ensures
        alike(far(x, x), far(x2, x2), 23 * j + 11914),
{
    reveal(far_spec);
    lemma_far_part(x);
    lemma_far_part(x2);
    let xx = x * x;
    let xx2 = x2 * x2;
    lemma_alike_products(x, x2, x, x2, j, j);
    let one = lit(ONE);
    lemma_near_self(one.units(), 0);
    lemma_alike_quotients(one, one, xx, xx2, 0, 2 * j + 265);
    let u = one / xx;
    let u2 = one / xx2;
    lemma_rest_alike(u, u2, 2 * j + 530);
    let r = rest(u);
    let r2 = rest(u2);
    let k = 22 * j + 11385;
    let c = lit(SQRPI).units();
    lemma_near_rest(c, r.units(), r2.units(), k);
    let w = lit(SQRPI) - r;
    let w2 = lit(SQRPI) - r2;
    lemma_finite_round(w, c - r.units());
    lemma_finite_round(w2, c - r2.units());
    lemma_rounded_near(c - r.units());
    lemma_rounded_near(c - r2.units());
    lemma_both_rounded(c - r.units(), c - r2.units(), w.units(), w2.units(), k);
    lemma_alike_quotients(w, w2, x, x2, k + 264, j);
}

/// The parts of the tail's factor, far out.
proof fn lemma_far_part(x: F64)
    requires
        x.gt(lit(ROOT32)),
        at_most(x, 64, 0),
    ensures
        x.units() * x.units() >= CELL * pow2(1074),
        (x * x).is_finite(),
        (x * x).units() > 0,
        lit(ONE).units() * pow2(1074) >= CELL * (x * x).units(),
        lit(ONE).units() >= 0,
        (lit(ONE) / (x * x)).is_finite(),
        at_least(lit(ONE) / (x * x), 1, 100),
        at_most(lit(ONE) / (x * x), 129, 12),
        ({
            let r = rest(lit(ONE) / (x * x));
            let w = lit(SQRPI) - r;
            &&& 0 <= r.units() <= part(128, 10)
            &&& lit(SQRPI).units() >= part(408, 10)
            &&& part(408, 10) > 2 * part(128, 10)
            &&& w.is_finite() && w.units() == rounded(lit(SQRPI).units() - r.units())
            &&& w.units() * pow2(1074) >= CELL * x.units()
        }),
        x.units() > 0,
        far(x, x).is_finite(),
{
    broadcast use lemma_lt_units;
    lemma_small_powers();
    lemma_literal(ROOT32, 1024, 6369051670845502, 45, 181, 182, 5);
    lemma_at_least(x, lit(ROOT32), 181, 5);
    lemma_part(181, 5);
    lemma_far(x, 1, 0);
    lemma_product_at_most(x, x, 64, 0, 64, 0);
    lemma_product_at_least(x, x, 181, 5, 181, 5);
    let xx = x * x;
    lemma_part(32761, 10);
    lemma_literal(ONE, 1022, 0x10_0000_0000_0000, 52, 1, 1, 0);
    lemma_pow2_strictly_increases(1044, 1064);
    lemma_pow2_strictly_increases(1044, 1069);
    lemma_pow2_strictly_increases(974, 1069);
    lemma_pow2_strictly_increases(1044, 1074);
    assert(part(32761, 10) >= part(1, 10)) by (nonlinear_arith)
        requires part(32761, 10) == 32761 * pow2(1064), part(1, 10) == 1 * pow2(1064), pow2(1064) >= 0;
    assert(part(181, 5) >= part(1, 5)) by (nonlinear_arith)
        requires part(181, 5) == 181 * pow2(1069), part(1, 5) == 1 * pow2(1069), pow2(1069) >= 0;
    lemma_normal_product(x.units(), x.units());
    lemma_wide_quotient(lit(ONE), xx, 4096);
    lemma_inverse_square(x);
    let u = lit(ONE) / xx;
    lemma_quotient_at_least(lit(ONE), xx, 1, 4096, 0, 1, 12);
    lemma_pow2_strictly_increases(974, 1062);
    lemma_rest(u);
    let r = rest(u);
    lemma_pow2_adds(7, 1064);
    assert(part(1, 3) == part(128, 10));
    lemma_literal(SQRPI, 1020, 7186705221432913, 44, 408, 409, 10);
    crate::float::laws::law_negation(r);
    lemma_part(409, 10);
    lemma_part(408, 10);
    lemma_part(128, 10);
    lemma_part(280, 10);
    lemma_sum_units(lit(SQRPI), r.negated());
    let w = lit(SQRPI) - r;
    let h = pow2(1064) as int;
    lemma_pow2_pos(1064);
    assert(408 * h == 280 * h + 128 * h);
    lemma_rounded(part(280, 10), lit(SQRPI).units() - r.units());
    assert(280 * h >= 1 * h);
    lemma_wide_quotient(w, x, 64);
}

/// Some fractions in units of 2^-60.
pub proof fn lemma_fractions()
    ensures
        ({
            let u = pow2(1014) as int;
            &&& u > 0
            &&& pow2(1074) == SPAN * u
            &&& part(1, 0) == SPAN * u
            &&& part(1, 1) == 0x800_0000_0000_0000 * u
            &&& part(3, 35) == 0x600_0000 * u
            &&& part(1, 38) == 0x40_0000 * u
            &&& part(1, 39) == 0x20_0000 * u
            &&& part(1, 40) == 0x10_0000 * u
            &&& part(81, 40) == 0x510_0000 * u
            &&& part(1, 45) == 0x8000 * u
            &&& part(1, 48) == 0x1000 * u
            &&& part(1, 51) == 512 * u
            &&& part(1, 53) == 128 * u
            &&& part(1, 1022) <= u
        }),
{
    lemma_small_powers();
    lemma2_to64();
    lemma2_to64_rest();
    lemma_pow2_pos(1014);
    lemma_pow2_adds(60, 1014);
    lemma_pow2_adds(59, 1014);
    lemma_pow2_adds(25, 1014);
    lemma_pow2_adds(22, 1014);
    lemma_pow2_adds(21, 1014);
    lemma_pow2_adds(20, 1014);
    lemma_pow2_adds(15, 1014);
    lemma_pow2_adds(12, 1014);
    lemma_pow2_adds(9, 1014);
    lemma_pow2_adds(7, 1014);
    lemma_pow2_strictly_increases(52, 1014);
}

/// A magnitude.
pub open spec fn size(n: int) -> int {
    if n >= 0 {
        n
    } else {
        -n
    }
}

/// The products of the exponentials of two pairs of numbers differ by at most as much as
/// the sums of the pairs, and 2^-48.
pub open spec fn close_products<M: Fn(Elementary) -> F64>(
    m: &M,
    z1: F64,
    z2: F64,
    w1: F64,
    w2: F64,
) -> bool {
    let s = z1.units() + z2.units() - w1.units() - w2.units();
    let t = exp(m, z1).units() * exp(m, z2).units() - exp(m, w1).units() * exp(m, w2).units();
    size(t) <= (size(s) + part(1, 48)) * pow2(1074)
}

/// A finite number that is not positive.
pub open spec fn not_positive(z: F64) -> bool {
    z.is_finite() && z.le(lit(ZERO))
}

/// The exponential function turns sums of numbers that are not positive into products and
/// is no steeper there than at zero, to within 2^-48.
pub open spec fn smooth<M: Fn(Elementary) -> F64>(m: &M) -> bool {
    forall|z1: F64, z2: F64, w1: F64, w2: F64|
        not_positive(z1) && not_positive(z2) && not_positive(w1) && not_positive(w2)
            ==> #[trigger] close_products(m, z1, z2, w1, w2)
}

/// A ratio of at most 128 is rounded by at most 2^-45.
pub proof fn lemma_fine_ratio(num: int, den: int)
    requires
        den > 0,
        0 <= num <= part(128, 0) * den,
    ensures
        -(part(1, 45) * den) <= mag(round_ratio(num, den) as int) * den - num <= part(1, 45) * den,
{
    let g = pow2(1029) as int;
    lemma_pow2_pos(1029);
    lemma_pow2_adds(45, 1029);
    lemma_small_powers();
    assert(part(1, 45) == g);
    let gd = g * den;
    assert(gd > 0) by (nonlinear_arith)
        requires gd == g * den, g > 0, den > 0;
    let q = num / gd;
    lemma_fundamental_div_mod(num, gd);
    lemma_mod_bound(num, gd);
    lemma_div_pos_is_pos(num, gd);
    assert(gd * q == (q * g) * den) by (nonlinear_arith)
        requires gd == g * den;
    assert(((q + 1) * g) * den == (q * g) * den + gd) by (nonlinear_arith)
        requires gd == g * den;
    assert(part(128, 0) * den == (128 * 0x2000_0000_0000) * gd) by (nonlinear_arith)
        requires part(128, 0) == 128 * (0x2000_0000_0000 * g), gd == g * den;
    assert(q <= 128 * 0x2000_0000_0000) by (nonlinear_arith)
        requires gd * q <= (128 * 0x2000_0000_0000) * gd, gd > 0;
    lemma_part(q, 45);
    lemma_part(q + 1, 45);
    lemma_ratio_ge(num, den, q * g);
    lemma_ratio_le(num, den, (q + 1) * g);
    let v = mag(round_ratio(num, den) as int);
    assert((q * g) * den <= v * den <= ((q + 1) * g) * den) by (nonlinear_arith)
        requires q * g <= v <= (q + 1) * g, den > 0;
}

/// A product of at most 128, by its distance from the exact one.
pub proof fn lemma_fine_product(x: F64, y: F64)
    requires
        x.is_finite() && x.units() >= 0,
        y.is_finite() && y.units() >= 0,
        x.units() * y.units() <= part(128, 0) * pow2(1074),
        (x * y).is_finite(),
    ensures
        (x * y).units() >= 0,
        ({
            let d = pow2(1074) as int;
            -(part(1, 45) * d) <= (x * y).units() * d - x.units() * y.units() <= part(1, 45) * d
        }),
{
    lemma_pow2_pos(1074);
    lemma_product(x, y);
    lemma_fine_ratio(x.units() * y.units(), pow2(1074) as int);
    lemma_order((x * y).enc() as int, 0);
}

/// Half of the square of what was cut to sixteenths is exact.
proof fn lemma_cut_square(x: F64)
    requires
        x.units() >= 0,
        at_most(x, 64, 0),
    ensures
        ({
            let a = sixteenths(x);
            let z = lit(MINUS_HALF) * a * a;
            let d = pow2(1074) as int;
            &&& a.is_finite() && 0 <= a.units() <= x.units()
            &&& z.is_finite()
            &&& 2 * d * z.units() == -(a.units() * a.units())
        }),
{
    lemma_small_powers();
    lemma_sixteenths_close(x);
    lemma_sixteenths(x);
    let a = sixteenths(x);
    let d = pow2(1074) as int;
    let g = pow2(1070) as int;
    lemma_pow2_pos(1074);
    lemma_pow2_pos(1070);
    lemma2_to64();
    lemma_pow2_adds(4, 1070);
    assert(d == 16 * g);
    lemma_cut_is_whole(x);
    let n = a.units() / g;
    assert(a.units() == n * g);
    assert(0 <= n <= 1024) by (nonlinear_arith)
        requires 0 <= n * g <= 64 * (16 * g), g > 0;
    let h = lit(HALF) * a;
    lemma_literal(HALF, 1021, 0x10_0000_0000_0000, 52, 1, 1, 1);
    // n / 32
    lemma_pow2_adds(1, 1069);
    lemma_pow2_adds(5, 1069);
    lemma_pow2_adds(1, 1073);
    let f = pow2(1069) as int;
    lemma_pow2_pos(1069);
    lemma_part(n, 5);
    lemma_product(lit(HALF), a);
    assert(lit(HALF).units() == pow2(1073));
    assert(lit(HALF).units() * a.units() == (n * f) * d) by (nonlinear_arith)
        requires lit(HALF).units() == pow2(1073), d == 2 * pow2(1073), a.units() == n * g, g == 2 * f;
    lemma_exact_ratio(n * f, d);
    assert(h.units() == n * f);
    lemma_order(h.enc() as int, INF_ENC as int);
    assert(h.is_finite());
    // n n / 512
    let e = pow2(1065) as int;
    lemma_pow2_pos(1065);
    lemma_pow2_adds(4, 1065);
    lemma_pow2_adds(5, 1065);
    lemma_pow2_adds(9, 1065);
    let nn = n * n;
    assert(0 <= nn <= 1024 * 1024) by (nonlinear_arith)
        requires nn == n * n, 0 <= n <= 1024;
    lemma_part(nn, 9);
    lemma_product(h, a);
    assert(d == 512 * e && f == 16 * e && g == 32 * e);
    assert(h.units() * a.units() == (nn * e) * d) by (nonlinear_arith)
        requires h.units() == n * (16 * e), a.units() == n * (32 * e), d == 512 * e, nn == n * n;
    lemma_exact_ratio(nn * e, d);
    let z = h * a;
    assert(z.units() == nn * e);
    lemma_order(z.enc() as int, INF_ENC as int);
    law_product_of_negated(lit(HALF), a);
    law_product_of_negated(h, a);
    law_negation(h);
    law_negation(z);
    assert(lit(MINUS_HALF) == lit(HALF).negated());
    assert(lit(MINUS_HALF) * a * a == z.negated());
    assert(2 * d * (-(nn * e)) == -(a.units() * a.units())) by (nonlinear_arith)
        requires a.units() == n * (32 * e), d == 512 * e, nn == n * n;
}

/// A representable number stands for itself.
proof fn lemma_exact_ratio(v: int, d: int)
    requires
        representable(v),
        v >= 0,
        d > 0,
        v < mag(INF_ENC as int),
    ensures
        mag(round_ratio(v * d, d) as int) == v,
        round_ratio(v * d, d) <= INF_ENC,
{
    assert(v * d >= 0) by (nonlinear_arith)
        requires v >= 0, d > 0;
    lemma_ratio_le(v * d, d, v);
    lemma_ratio_ge(v * d, d, v);
}

/// What is cut to sixteenths is a whole number of them.
proof fn lemma_cut_is_whole(x: F64)
    requires
        x.units() >= 0,
        at_most(x, 64, 0),
    ensures
        ({
            let g = pow2(1070) as int;
            sixteenths(x).units() == (sixteenths(x).units() / g) * g
        }),
{
    lemma_small_powers();
    lemma_literal(SIXTEEN, 1026, 0x10_0000_0000_0000, 48, 16, 16, 0);
    lemma_bound_is_large(x);
    lemma_sixteenths(x);
    let d = pow2(1074) as int;
    let g = pow2(1070) as int;
    lemma_pow2_pos(1074);
    lemma_pow2_pos(1070);
    lemma2_to64();
    lemma_pow2_adds(4, 1070);
    assert(d == 16 * g);
    let w = (x * lit(SIXTEEN)).trunc();
    let n = w.units() / d;
    lemma_fundamental_div_mod(w.units(), d);
    lemma_div_pos_is_pos(w.units(), d);
    assert(w.units() == n * d) by (nonlinear_arith)
        requires w.units() == d * n;
    assert(n < 2 * CELL) by (nonlinear_arith)
        requires n * d <= 16 * (64 * d), d > 0, CELL == 0x0010_0000_0000_0000;
    lemma_part(n, 4);
    lemma_quotient(w, lit(SIXTEEN));
    assert(w.units() * d == (n * g) * (16 * d)) by (nonlinear_arith)
        requires w.units() == n * d, d == 16 * g;
    lemma_exact_ratio(n * g, 16 * d);
    assert(sixteenths(x).units() == n * g);
    lemma_div_multiples_vanish(n, g);
}

/// The two exponents add up to minus half the square.
proof fn lemma_exponents(x: F64)
    requires
        x.units() >= 0,
        at_most(x, 64, 0),
    ensures
        ({
            let a = sixteenths(x);
            let z1 = lit(MINUS_HALF) * a * a;
            let z2 = lit(MINUS_HALF) * ((x - a) * (x + a));
            let d = pow2(1074) as int;
            &&& not_positive(z1)
            &&& not_positive(z2)
            &&& size(2 * d * (z1.units() + z2.units()) + x.units() * x.units()) <= 4 * d * part(1, 45)
        }),
{
    lemma_small_powers();
    lemma_cut_square(x);
    lemma_sixteenths_close(x);
    lemma_split_arguments(x);
    let a = sixteenths(x);
    let z1 = lit(MINUS_HALF) * a * a;
    let d = pow2(1074) as int;
    let g = part(1, 45);
    lemma_pow2_pos(1074);
    lemma_fractions();
    let u = pow2(1014) as int;
    lemma_pow2_adds(56, 1014);
    lemma2_to64();
    lemma2_to64_rest();
    assert(part(1, 4) == 0x100_0000_0000_0000 * u);
    lemma_part(64, 0);
    lemma_part(128, 0);
    lemma_part(1, 4);
    lemma_part(1, 0);
    // the difference
    law_negation(a);
    lemma_sum_units(x, a.negated());
    lemma_sum_units(x, a);
    let t = x - a;
    let s = x + a;
    let tn = x.units() - a.units();
    let sn = x.units() + a.units();
    lemma_grid(tn);
    lemma_fine_grid(sn);
    lemma_rounded(0, tn);
    lemma_rounded(tn, part(1, 4));
    lemma_rounded(part(1, 4), 0);
    lemma_rounded(0, sn);
    assert(128 * d == 2 * (64 * d));
    lemma_rounded(sn, part(128, 0));
    lemma_rounded(part(128, 0), 0);
    lemma_rounded(0, 0);
    assert(at_most(t, 1, 4) && at_most(s, 128, 0));
    lemma_product_at_most(t, s, 1, 4, 128, 0);
    let del = t * s;
    assert(t.units() * s.units() <= part(128, 0) * d) by (nonlinear_arith)
        requires 0 <= t.units() <= d, 0 <= s.units() <= part(128, 0);
    lemma_fine_product(t, s);
    lemma_coarser(del, 128, 0, 4, 8);
    lemma_literal(HALF, 1021, 0x10_0000_0000_0000, 52, 1, 1, 1);
    lemma_product_at_most(lit(HALF), del, 1, 1, 8, 0);
    let hd = lit(HALF) * del;
    let hu = lit(HALF).units();
    lemma_pow2_adds(1, 1073);
    assert(2 * hu == d);
    assert(hu * del.units() <= part(128, 0) * d) by (nonlinear_arith)
        requires 0 <= hu <= d, 0 <= del.units() <= 8 * d, part(128, 0) == 128 * d, d > 0;
    lemma_fine_product(lit(HALF), del);
    law_product_of_negated(lit(HALF), del);
    law_negation(hd);
    assert(lit(MINUS_HALF) == lit(HALF).negated());
    let z2 = lit(MINUS_HALF) * del;
    assert(z2 == hd.negated());
    lemma_exponent_sum(
        d,
        u,
        x.units(),
        a.units(),
        t.units(),
        s.units(),
        del.units(),
        hd.units(),
        hu,
    );
    assert(2 * d * (z1.units() + z2.units()) == 2 * d * z1.units() - 2 * d * hd.units())
        by (nonlinear_arith)
        requires z2.units() == -hd.units();
}

proof fn lemma_exponent_sum(
    d: int,
    u: int,
    x: int,
    a: int,
    t: int,
    s: int,
    del: int,
    hd: int,
    hu: int,
)
    requires
        u > 0,
        d == SPAN * u,
        0 <= a <= x <= 64 * d,
        x - a <= 0x100_0000_0000_0000 * u,
        -(128 * u) <= t - (x - a) <= 128 * u,
        -(0x8000 * u) <= s - (x + a) <= 0x8000 * u,
        -((0x8000 * u) * d) <= del * d - t * s <= (0x8000 * u) * d,
        2 * hu == d,
        -((0x8000 * u) * d) <= hd * d - hu * del <= (0x8000 * u) * d,
    ensures
        size(-(a * a) - 2 * d * hd + x * x) <= 4 * d * (0x8000 * u),
{
    let e1 = t - (x - a);
    let e2 = s - (x + a);
    let g = 0x8000 * u;
    // t s - (x a)(x + a)
    let b = x - a;
    let c = x + a;
    assert(t * s == b * c + b * e2 + e1 * c + e1 * e2) by (nonlinear_arith)
        requires t == b + e1, s == c + e2;
    assert(b * c == x * x - a * a) by (nonlinear_arith)
        requires b == x - a, c == x + a;
    lemma_small_factor(b, e2, 0x100_0000_0000_0000 * u, g);
    lemma_small_factor(c, e1, 128 * d, 128 * u);
    lemma_small_factor(size(e1), e2, 128 * u, g);
    assert(e1 * c == c * e1) by (nonlinear_arith);
    assert(size(e1 * e2) == size(size(e1) * e2)) by (nonlinear_arith);
    let dg = d * g;
    assert(16 * ((0x100_0000_0000_0000 * u) * g) == dg) by (nonlinear_arith)
        requires dg == d * g, d == 0x1000_0000_0000_0000 * u;
    assert(2 * ((128 * d) * (128 * u)) == dg) by (nonlinear_arith)
        requires dg == d * g, g == 0x8000 * u;
    assert(4 * ((128 * u) * g) <= dg) by (nonlinear_arith)
        requires dg == d * g, d == 0x1000_0000_0000_0000 * u, g > 0, u > 0;
    assert(size(t * s - (x * x - a * a)) <= dg);
    // twice the half
    assert(2 * (hu * del) == d * del) by (nonlinear_arith)
        requires 2 * hu == d;
    assert(d * del == del * d) by (nonlinear_arith);
    assert(2 * d * hd == 2 * (hd * d)) by (nonlinear_arith);
    assert(g * d == dg) by (nonlinear_arith)
        requires dg == d * g;
    assert(4 * d * g == 4 * dg) by (nonlinear_arith)
        requires dg == d * g;
}

proof fn lemma_small_factor(b: int, e: int, top: int, g: int)
    requires
        0 <= b <= top,
        -g <= e <= g,
    ensures
        size(b * e) <= top * g,
{
    assert(b * e <= b * g && -(b * g) <= b * e) by (nonlinear_arith)
        requires -g <= e <= g, b >= 0;
    assert(b * g <= top * g) by (nonlinear_arith)
        requires b <= top, g >= 0;
}

/// 135168, the relative distance, in units of 2^-60, within which the distribution function
/// is followed: a little over 2^-43.
pub const REACH: u64 = 0x2_1000;

/// Near numbers have near squares.
proof fn lemma_squares_apart(x: int, x2: int, b: int, d: int, u: int)
    requires
        near(x, x2, REACH as int),
        u > 0,
        d == SPAN * u,
        x <= b * d,
        x2 <= b * d,
        b > 0,
    ensures
        size(x * x - x2 * x2) <= (b * b) * (0x4_2001 * (u * d)),
{
    let r = REACH as int;
    assert(r * r <= SPAN);
    lemma_near_product(x, x2, x, x2, r, r);
    let e = SPAN as int;
    let k: int = 0x4_2001;
    let p = x * x;
    let q = x2 * x2;
    let t = b * b;
    assert(p <= t * (d * d)) by (nonlinear_arith)
        requires p == x * x, 0 <= x <= b * d, t == b * b;
    assert(q <= t * (d * d)) by (nonlinear_arith)
        requires q == x2 * x2, 0 <= x2 <= b * d, t == b * b;
    assert(q * (e + k) == q * e + q * k) by (nonlinear_arith);
    assert(p * (e + k) == p * e + p * k) by (nonlinear_arith);
    assert(q * k <= (t * (d * d)) * k) by (nonlinear_arith)
        requires q <= t * (d * d), k > 0;
    assert(p * k <= (t * (d * d)) * k) by (nonlinear_arith)
        requires p <= t * (d * d), k > 0;
    let w = t * (k * (u * d));
    assert((t * (d * d)) * k == w * e) by (nonlinear_arith)
        requires w == t * (k * (u * d)), d == e * u;
    assert(p - q <= w) by (nonlinear_arith)
        requires p * e - q * e <= w * e, e > 0;
    assert(q - p <= w) by (nonlinear_arith)
        requires q * e - p * e <= w * e, e > 0;
}

/// The exponential of minus half the square changes little between near arguments of at
/// most `b`.
proof fn lemma_split_apart<M: Fn(Elementary) -> F64>(m: &M, x: F64, x2: F64, b: int)
    requires
        decays(m),
        smooth(m),
        near(x.units(), x2.units(), REACH as int),
        at_most(x, b, 0),
        at_most(x2, b, 0),
        b == 8 || b == 64,
    ensures
        ({
            let u = pow2(1014) as int;
            size(split_exponential(m, x).units() - split_exponential(m, x2).units()) <= ((b * b) * 0x2_1001
                + 0x3_8000) * u
        }),
{
    lemma_looser(x, b, 64, 0);
    lemma_looser(x2, b, 64, 0);
    lemma_bound_is_large(x);
    lemma_bound_is_large(x2);
    lemma_exponents(x);
    lemma_exponents(x2);
    lemma_split(m, x);
    lemma_split(m, x2);
    lemma_fractions();
    let a = sixteenths(x);
    let a2 = sixteenths(x2);
    let z1 = lit(MINUS_HALF) * a * a;
    let z2 = lit(MINUS_HALF) * ((x - a) * (x + a));
    let w1 = lit(MINUS_HALF) * a2 * a2;
    let w2 = lit(MINUS_HALF) * ((x2 - a2) * (x2 + a2));
    assert(close_products(m, z1, z2, w1, w2));
    let d = pow2(1074) as int;
    let u = pow2(1014) as int;
    lemma_squares_apart(x.units(), x2.units(), b, d, u);
    lemma_part(1, 0);
    lemma_part(128, 0);
    let p1 = exp(m, z1).units() * exp(m, z2).units();
    let p2 = exp(m, w1).units() * exp(m, w2).units();
    lemma_unit_product(exp(m, z1), exp(m, z2));
    lemma_unit_product(exp(m, w1), exp(m, w2));
    lemma_split_sum(
        d,
        u,
        z1.units() + z2.units(),
        w1.units() + w2.units(),
        x.units() * x.units(),
        x2.units() * x2.units(),
        p1,
        p2,
        split_exponential(m, x).units(),
        split_exponential(m, x2).units(),
        b * b,
    );
}

proof fn lemma_unit_product(e1: F64, e2: F64)
    requires
        at_most(e1, 1, 0) && e1.units() >= 0,
        at_most(e2, 1, 0) && e2.units() >= 0,
        (e1 * e2).is_finite(),
    ensures
        ({
            let d = pow2(1074) as int;
            size((e1 * e2).units() * d - e1.units() * e2.units()) <= part(1, 45) * d
        }),
{
    let d = pow2(1074) as int;
    lemma_pow2_pos(1074);
    assert(e1.units() * e2.units() <= part(128, 0) * d) by (nonlinear_arith)
        requires 0 <= e1.units() <= d, 0 <= e2.units() <= d, part(128, 0) == 128 * d, d > 0;
    lemma_fine_product(e1, e2);
}

proof fn lemma_split_sum(
    d: int,
    u: int,
    z: int,
    w: int,
    xx: int,
    xx2: int,
    p1: int,
    p2: int,
    s1: int,
    s2: int,
    t: int,
)
    requires
        u > 0,
        d == SPAN * u,
        t >= 0,
        size(2 * d * z + xx) <= 4 * d * (0x8000 * u),
        size(2 * d * w + xx2) <= 4 * d * (0x8000 * u),
        size(xx - xx2) <= t * (0x4_2001 * (u * d)),
        size(p1 - p2) <= (size(z - w) + 0x1000 * u) * d,
        size(s1 * d - p1) <= (0x8000 * u) * d,
        size(s2 * d - p2) <= (0x8000 * u) * d,
    ensures
        size(s1 - s2) <= (t * 0x2_1001 + 0x3_8000) * u,
{
    let ud = u * d;
    assert(2 * d * z - 2 * d * w == (2 * (z - w)) * d) by (nonlinear_arith);
    assert(4 * d * (0x8000 * u) == 0x2_0000 * ud) by (nonlinear_arith)
        requires ud == u * d;
    assert(t * (0x4_2001 * ud) == (t * 0x4_2001) * ud) by (nonlinear_arith);
    let c = t * 0x4_2001 + 0x4_0000;
    assert((t * 0x4_2001 + 0x4_0000) * ud == (t * 0x4_2001) * ud + 0x4_0000 * ud) by (nonlinear_arith);
    assert(size((2 * (z - w)) * d) <= c * ud);
    assert(c * ud == (c * u) * d) by (nonlinear_arith)
        requires ud == u * d;
    let v = z - w;
    assert(2 * v <= c * u) by (nonlinear_arith)
        requires (2 * v) * d <= (c * u) * d, d > 0;
    assert(-(2 * v) <= c * u) by (nonlinear_arith)
        requires -((2 * v) * d) <= (c * u) * d, d > 0;
    let h = size(v) + 0x1000 * u;
    assert((s1 - s2) * d == s1 * d - s2 * d) by (nonlinear_arith);
    let f = h + 0x1_0000 * u;
    assert(f * d == h * d + 2 * ((0x8000 * u) * d)) by (nonlinear_arith)
        requires f == h + 0x1_0000 * u;
    assert(s1 - s2 <= f) by (nonlinear_arith)
        requires (s1 - s2) * d <= f * d, d > 0;
    assert(s2 - s1 <= f) by (nonlinear_arith)
        requires -((s1 - s2) * d) <= f * d, d > 0;
    assert(2 * f <= c * u + 0x2_2000 * u);
    assert(c * u + 0x2_2000 * u <= 2 * ((t * 0x2_1001 + 0x3_8000) * u)) by (nonlinear_arith)
        requires c == t * 0x4_2001 + 0x4_0000, u > 0, t >= 0;
}

/// A tail is a product: how far it moves with its factors, of which the second is at most
/// `1 / q`.
proof fn lemma_tail_apart(s: F64, s2: F64, g: F64, g2: F64, ks: int, kg: int, q: int)
    requires
        at_most(s, 1, 0) && s.units() >= 0,
        at_most(s2, 1, 0) && s2.units() >= 0,
        at_most(g, 1, 0) && g.units() >= 0,
        at_most(g2, 1, 0) && g2.units() >= 0,
        q > 0,
        q * g.units() <= part(1, 0),
        ks >= 0,
        kg >= 0,
        ({
            let u = pow2(1014) as int;
            &&& size(s.units() - s2.units()) <= ks * u
            &&& size(g.units() - g2.units()) <= kg * u
        }),
    ensures
        at_most(s * g, 1, 0) && (s * g).units() >= 0,
        at_most(s2 * g2, 1, 0) && (s2 * g2).units() >= 0,
        ({
            let u = pow2(1014) as int;
            q * size((s * g).units() - (s2 * g2).units()) <= (ks + q * kg + q * 0x1_0000) * u
        }),
{
    let u = pow2(1014) as int;
    let d = pow2(1074) as int;
    lemma_fractions();
    lemma_small_powers();
    lemma_product_at_most(s, g, 1, 0, 1, 0);
    lemma_product_at_most(s2, g2, 1, 0, 1, 0);
    lemma_unit_product(s, g);
    lemma_unit_product(s2, g2);
    let a = s.units();
    let a2 = s2.units();
    let b = g.units();
    let b2 = g2.units();
    let t = (s * g).units();
    let t2 = (s2 * g2).units();
    let n = a * b - a2 * b2;
    assert(n == (a - a2) * b + a2 * (b - b2)) by (nonlinear_arith)
        requires n == a * b - a2 * b2;
    lemma_small_factor(b, a - a2, b, ks * u);
    lemma_small_factor(a2, b - b2, d, kg * u);
    assert((a - a2) * b == b * (a - a2)) by (nonlinear_arith);
    assert(q * (b * (ks * u)) <= d * (ks * u)) by (nonlinear_arith)
        requires q * b <= d, ks >= 0, u > 0;
    assert(q * size(n) <= d * (ks * u) + q * (d * (kg * u))) by (nonlinear_arith)
        requires size(n) <= b * (ks * u) + d * (kg * u), q * (b * (ks * u)) <= d * (ks * u), q > 0;
    let v = t - t2;
    assert(v * d == t * d - t2 * d) by (nonlinear_arith)
        requires v == t - t2;
    let r = 0x1_0000 * u;
    assert(2 * ((0x8000 * u) * d) == r * d) by (nonlinear_arith)
        requires r == 0x1_0000 * u;
    assert(size(v * d) <= size(n) + r * d);
    assert(size(v * d) == size(v) * d) by (nonlinear_arith)
        requires d > 0;
    let c = ks * u + q * (kg * u) + q * r;
    assert(q * (size(v) * d) <= c * d) by (nonlinear_arith)
        requires size(v) * d <= size(n) + r * d, q * size(n) <= d * (ks * u) + q * (d * (kg * u)), q > 0,
            c == ks * u + q * (kg * u) + q * r;
    assert(q * size(v) <= c) by (nonlinear_arith)
        requires q * (size(v) * d) <= c * d, d > 0;
    assert(c == (ks + q * kg + q * 0x1_0000) * u) by (nonlinear_arith)
        requires c == ks * u + q * (kg * u) + q * (0x1_0000 * u);
}

/// Two pairs of tails lie within `n` of each other.
pub open spec fn apart(p: (F64, F64), q: (F64, F64), n: int) -> bool {
    &&& size(p.0.units() - q.0.units()) <= n
    &&& size(p.1.units() - q.1.units()) <= n
}

/// Both tails, from two numbers that add up to one.
proof fn lemma_flushed(a: F64, b: F64, n: int)
    requires
        at_most(a, 1, 0) && a.units() >= 0,
        at_most(b, 1, 0) && b.units() >= 0,
        size(a.units() - b.units()) <= n,
    ensures
        size(flush(a).units() - flush(b).units()) <= n + pow2(1014),
{
    lemma_flush(a);
    lemma_flush(b);
    lemma_fractions();
}

/// One of three pieces holds both arguments.
spec fn same_piece(y: F64, y2: F64) -> bool {
    ||| y.le(lit(THRSH)) && y2.le(lit(THRSH))
    ||| !y.le(lit(THRSH)) && !y2.le(lit(THRSH)) && y.le(lit(ROOT32)) && y2.le(lit(ROOT32))
    ||| !y.le(lit(ROOT32)) && !y2.le(lit(ROOT32))
}

/// The piece that an argument lies in bounds how far the tails move, in units of 2^-60.
spec fn piece_bound(y: F64) -> int {
    if y.le(lit(THRSH)) {
        2310000
    } else if y.le(lit(ROOT32)) {
        11120000
    } else {
        72425000
    }
}

proof fn lemma_same_piece<M: Fn(Elementary) -> F64>(m: &M, y: F64, y2: F64)
    requires
        decays(m),
        smooth(m),
        alike(y, y2, REACH as int),
        at_most(y, 64, 0),
        at_most(y2, 64, 0),
        same_piece(y, y2),
    ensures
        apart(cumnor(m, y), cumnor(m, y2), piece_bound(y) * pow2(1014)),
{
    broadcast use lemma_le_units;
    broadcast use lemma_lt_units;
    lemma_small_powers();
    lemma_order(THRSH as int, ROOT32 as int);
    lemma_order(THRSH as int, 0);
    lemma_order(y.enc() as int, 0);
    lemma_order(y2.enc() as int, 0);
    if y.le(lit(THRSH)) {
        lemma_middle(m, y, y2);
    } else {
        assert(y.abs() == y && y2.abs() == y2);
        if y.le(lit(ROOT32)) {
            lemma_between(m, y, y2);
        } else {
            lemma_outside(m, y, y2);
        }
    }
}

proof fn lemma_middle<M: Fn(Elementary) -> F64>(m: &M, x: F64, x2: F64)
    requires
        alike(x, x2, REACH as int),
        x.le(lit(THRSH)),
        x2.le(lit(THRSH)),
    ensures
        apart(cumnor(m, x), cumnor(m, x2), 2310000int * pow2(1014)),
{
    broadcast use lemma_le_units;
    broadcast use lemma_lt_units;
    lemma_small_powers();
    lemma_fractions();
    let u = pow2(1014) as int;
    lemma_positive_form(x);
    lemma_positive_form(x2);
    let r = central(x, x.abs());
    let r2 = central(x2, x2.abs());
    lemma_central(x, x.abs());
    lemma_central(x2, x2.abs());
    lemma_part(1, 1);
    lemma_part(1, 0);
    assert(size(r.units() - r2.units()) <= 2304473 * u) by {
        if at_most(x, 1, 39) && at_most(x2, 1, 39) {
        } else {
            lemma_not_small(x, x2);
            lemma_central_alike(x, x2, REACH as int);
            assert(x.abs() == x && x2.abs() == x2);
            lemma_near_apart(r.units(), r2.units(), 2304473);
        }
    }
    lemma_literal(HALF, 1021, 0x10_0000_0000_0000, 52, 1, 1, 1);
    let h = lit(HALF);
    law_negation(r);
    law_negation(r2);
    lemma_sum_units(h, r);
    lemma_sum_units(h, r.negated());
    lemma_sum_units(h, r2);
    lemma_sum_units(h, r2.negated());
    lemma_grid(h.units() + r.units());
    lemma_grid(h.units() - r.units());
    lemma_grid(h.units() + r2.units());
    lemma_grid(h.units() - r2.units());
    lemma_flushed(h + r, h + r2, 2304473 * u + 256 * u);
    lemma_flushed(h - r, h - r2, 2304473 * u + 256 * u);
    reveal(cumnor_spec);
}

/// A number that is not negative has its own magnitude.
proof fn lemma_positive_form(x: F64)
    requires
        x.is_finite(),
        x.units() >= 0,
    ensures
        x.abs().units() == x.units(),
        x.units() > 0 ==> x.abs() == x,
        x.abs().is_finite(),
{
    lemma_order(x.enc() as int, 0);
    law_negation(x);
}

/// Where one of two near numbers is above 2^-39, both are above 2^-40.
proof fn lemma_not_small(x: F64, x2: F64)
    requires
        alike(x, x2, REACH as int),
        !(at_most(x, 1, 39) && at_most(x2, 1, 39)),
    ensures
        at_least(x, 1, 40),
        at_least(x2, 1, 40),
        x.units() > 0,
        x2.units() > 0,
{
    lemma_fractions();
    let u = pow2(1014) as int;
    let e = SPAN as int;
    let a = x.units();
    let b = x2.units();
    let k = REACH as int;
    assert(b * (e + k) <= 2 * (b * e) && a * (e + k) <= 2 * (a * e)) by (nonlinear_arith)
        requires a >= 0, b >= 0, k <= e;
    assert(a <= 2 * b) by (nonlinear_arith)
        requires a * e <= 2 * (b * e), e > 0;
    assert(b <= 2 * a) by (nonlinear_arith)
        requires b * e <= 2 * (a * e), e > 0;
}

/// What is left of one tail, and the tail itself.
proof fn lemma_complements_apart(t: F64, t2: F64, k: int)
    requires
        at_most(t, 1, 0) && t.units() >= 0,
        at_most(t2, 1, 0) && t2.units() >= 0,
        size(t.units() - t2.units()) <= k * pow2(1014),
    ensures
        apart(
            (flush(lit(ONE) - t), flush(t)),
            (flush(lit(ONE) - t2), flush(t2)),
            (k + 257) * pow2(1014),
        ),
{
    lemma_small_powers();
    lemma_fractions();
    let u = pow2(1014) as int;
    lemma_part(1, 0);
    lemma_literal(ONE, 1022, 0x10_0000_0000_0000, 52, 1, 1, 0);
    let one = lit(ONE);
    law_negation(t);
    law_negation(t2);
    lemma_sum_units(one, t.negated());
    lemma_sum_units(one, t2.negated());
    lemma_grid(one.units() - t.units());
    lemma_grid(one.units() - t2.units());
    lemma_flushed(one - t, one - t2, k * u + 256 * u);
    lemma_flushed(t, t2, k * u);
    assert((k + 257) * u == k * u + 256 * u + u) by (nonlinear_arith);
}

proof fn lemma_between<M: Fn(Elementary) -> F64>(m: &M, y: F64, y2: F64)
    requires
        decays(m),
        smooth(m),
        alike(y, y2, REACH as int),
        y.gt(lit(THRSH)),
        y2.gt(lit(THRSH)),
        y.le(lit(ROOT32)),
        y2.le(lit(ROOT32)),
    ensures
        apart(cumnor(m, y), cumnor(m, y2), 11120000int * pow2(1014)),
{
    broadcast use lemma_le_units;
    broadcast use lemma_lt_units;
    lemma_small_powers();
    lemma_fractions();
    let u = pow2(1014) as int;
    lemma_literal(THRSH, 1021, 5970962457960351, 52, 1, 2, 1);
    lemma_literal(ROOT32, 1024, 6369051670845502, 50, 5, 6, 0);
    lemma_part(1, 1);
    lemma_at_least(y, lit(THRSH), 1, 1);
    lemma_at_least(y2, lit(THRSH), 1, 1);
    lemma_at_most(y, lit(ROOT32), 6, 0);
    lemma_at_most(y2, lit(ROOT32), 6, 0);
    lemma_looser(y, 6, 8, 0);
    lemma_looser(y2, 6, 8, 0);
    lemma_looser(y, 6, 64, 0);
    lemma_looser(y2, 6, 64, 0);
    lemma_positive_form(y);
    lemma_positive_form(y2);
    lemma_bound_is_large(y);
    lemma_bound_is_large(y2);
    lemma_split(m, y);
    lemma_split(m, y2);
    lemma_split_apart(m, y, y2, 8);
    lemma_shoulder(y);
    lemma_shoulder(y2);
    lemma_shoulder_alike(y, y2, REACH as int);
    let g = shoulder(y);
    let g2 = shoulder(y2);
    lemma_near_apart(g.units(), g2.units(), 2171152);
    let s = split_exponential(m, y);
    let s2 = split_exponential(m, y2);
    lemma_tail_apart(s, s2, g, g2, 8880192, 2171152, 1);
    lemma_complements_apart(s * g, s2 * g2, 11116880);
    lemma_order(THRSH as int, 0);
    reveal(cumnor_spec);
    assert(11117137 * u <= 11120000 * u);
}

proof fn lemma_outside<M: Fn(Elementary) -> F64>(m: &M, y: F64, y2: F64)
    requires
        decays(m),
        smooth(m),
        alike(y, y2, REACH as int),
        y.gt(lit(ROOT32)),
        y2.gt(lit(ROOT32)),
        at_most(y, 64, 0),
        at_most(y2, 64, 0),
    ensures
        apart(cumnor(m, y), cumnor(m, y2), 72425000int * pow2(1014)),
{
    broadcast use lemma_le_units;
    broadcast use lemma_lt_units;
    lemma_small_powers();
    lemma_fractions();
    let u = pow2(1014) as int;
    lemma_order(THRSH as int, ROOT32 as int);
    lemma_order(ROOT32 as int, 0);
    lemma_positive_form(y);
    lemma_positive_form(y2);
    lemma_bound_is_large(y);
    lemma_bound_is_large(y2);
    lemma_split(m, y);
    lemma_split(m, y2);
    lemma_split_apart(m, y, y2, 64);
    lemma_far(y, 1, 0);
    lemma_far(y2, 1, 0);
    lemma_far_alike(y, y2, REACH as int);
    let g = far(y, y);
    let g2 = far(y2, y2);
    lemma_pow2_adds(3, 1071);
    lemma_coarser(g, 1, 0, 3, 1);
    lemma_coarser(g2, 1, 0, 3, 1);
    lemma_near_apart(g.units(), g2.units(), 3120778);
    let s = split_exponential(m, y);
    let s2 = split_exponential(m, y2);
    lemma_tail_apart(s, s2, g, g2, 553881600, 3120778, 8);
    let v = size((s * g).units() - (s2 * g2).units());
    assert(8 * v <= 579372112 * u);
    lemma_complements_apart(s * g, s2 * g2, 72421514);
    reveal(cumnor_spec);
    assert(72421771 * u <= 72425000 * u);
}

/// The pieces that the distribution function is put together from meet: on both sides of
/// the seams the tails are within 2^-40 of each other.
pub open spec fn joined<M: Fn(Elementary) -> F64>(m: &M) -> bool {
    &&& apart(cumnor(m, lit(THRSH)), cumnor(m, lit(PAST_THRSH)), part(1, 40))
    &&& apart(cumnor(m, lit(ROOT32)), cumnor(m, lit(PAST_ROOT32)), part(1, 40))
}

/// The number after the first seam.
pub const PAST_THRSH: u64 = 0x3FE5_368F_0846_1FA0;

/// The number after the second seam.
pub const PAST_ROOT32: u64 = 0x4016_A09E_6665_983F;

/// What lies between two near numbers is near both.
proof fn lemma_near_between(a: int, c: int, b: int, k: int)
    requires
        near(a, b, k),
        a <= c <= b,
    ensures
        near(a, c, k),
        near(c, b, k),
{
    let e = SPAN as int;
    assert(c * e <= b * e) by (nonlinear_arith)
        requires c <= b, e > 0;
    assert(a * e <= c * e) by (nonlinear_arith)
        requires a <= c, e > 0;
    assert(a * (e + k) <= c * (e + k)) by (nonlinear_arith)
        requires a <= c, e + k > 0;
    assert(c * e <= c * (e + k) && b * (e + k) >= c * (e + k)) by (nonlinear_arith)
        requires a <= c, c <= b, a >= 0, e > 0, k >= 0;
}

proof fn lemma_over_seam<M: Fn(Elementary) -> F64>(m: &M, y: F64, y2: F64, seam: u64)
    requires
        decays(m),
        smooth(m),
        joined(m),
        alike(y, y2, REACH as int),
        at_most(y, 64, 0),
        at_most(y2, 64, 0),
        seam == THRSH || seam == ROOT32,
        y.le(lit(seam)),
        !y2.le(lit(seam)),
        seam == THRSH ==> y2.le(lit(ROOT32)),
        seam == ROOT32 ==> !y.le(lit(THRSH)),
    ensures
        apart(cumnor(m, y), cumnor(m, y2), part(81, 40)),
{
    broadcast use lemma_le_units;
    broadcast use lemma_lt_units;
    lemma_fractions();
    let a = lit(seam);
    let b = lit((seam + 1) as u64);
    lemma_order(seam as int, seam + 1);
    lemma_order(seam as int, 0);
    lemma_order(seam as int, y2.enc() as int);
    lemma_order(seam + 1, y2.enc() as int);
    lemma_order(seam + 1, ROOT32 as int);
    lemma_order(seam as int, ROOT32 as int);
    lemma_order(seam as int, THRSH as int);
    lemma_order(seam + 1, THRSH as int);
    lemma_order(y2.enc() as int, 0);
    lemma_order(y.enc() as int, 0);
    assert(b.units() <= y2.units());
    lemma_near_between(y.units(), a.units(), y2.units(), REACH as int);
    lemma_near_between(y.units(), b.units(), y2.units(), REACH as int);
    assert(seam + 1 == PAST_THRSH || seam + 1 == PAST_ROOT32);
    lemma_same_piece(m, y, a);
    lemma_same_piece(m, b, y2);
    assert(apart(cumnor(m, a), cumnor(m, b), part(1, 40)));
}

/// Between numbers of at most 64, of which neither exceeds the other by more than about
/// 2^-43 of it, the tails of the normal distribution move by at most 81/2^40.
pub proof fn law_normal_is_smooth<M: Fn(Elementary) -> F64>(m: &M, x: F64, x2: F64)
    requires
        decays(m),
        smooth(m),
        joined(m),
        x.sign() == x2.sign(),
        alike(x.abs(), x2.abs(), REACH as int),
        at_most(x.abs(), 64, 0),
        at_most(x2.abs(), 64, 0),
    ensures
        apart(cumnor(m, x), cumnor(m, x2), part(81, 40)),
{
    broadcast use lemma_le_units;
    broadcast use lemma_lt_units;
    lemma_fractions();
    let y = x.abs();
    let y2 = x2.abs();
    lemma_order(THRSH as int, ROOT32 as int);
    lemma_above_apart(m, y, y2);
    law_negation(x);
    law_negation(x2);
    law_negation(y);
    law_negation(y2);
    if x.sign() {
        assert(x == y.negated() && x2 == y2.negated());
        lemma_bound_is_large(y);
        lemma_bound_is_large(y2);
        lemma_order(y.enc() as int, 0);
        lemma_order(y2.enc() as int, 0);
        assert(y.abs() == y && y2.abs() == y2);
        law_normal_tails(m, y);
        law_normal_tails(m, y2);
    } else {
        assert(x == y && x2 == y2);
    }
}

proof fn lemma_above_apart<M: Fn(Elementary) -> F64>(m: &M, y: F64, y2: F64)
    requires
        decays(m),
        smooth(m),
        joined(m),
        alike(y, y2, REACH as int),
        at_most(y, 64, 0),
        at_most(y2, 64, 0),
    ensures
        apart(cumnor(m, y), cumnor(m, y2), part(81, 40)),
{
    broadcast use lemma_le_units;
    broadcast use lemma_lt_units;
    lemma_fractions();
    lemma_order(THRSH as int, ROOT32 as int);
    lemma_not_both(y, y2);
    lemma_near_wider(y.units(), y2.units(), REACH as int, REACH as int);
    if same_piece(y, y2) {
        lemma_same_piece(m, y, y2);
    } else if y.le(lit(THRSH)) {
        lemma_over_seam(m, y, y2, THRSH);
    } else if y2.le(lit(THRSH)) {
        lemma_over_seam(m, y2, y, THRSH);
    } else if y.le(lit(ROOT32)) {
        lemma_over_seam(m, y, y2, ROOT32);
    } else {
        lemma_over_seam(m, y2, y, ROOT32);
    }
}

/// Near numbers do not lie on both sides of both seams.
proof fn lemma_not_both(y: F64, y2: F64)
    requires
        alike(y, y2, REACH as int),
    ensures
        y.le(lit(THRSH)) ==> y2.le(lit(ROOT32)),
        y2.le(lit(THRSH)) ==> y.le(lit(ROOT32)),
{
    broadcast use lemma_le_units;
    lemma_small_powers();
    lemma_literal(THRSH, 1021, 5970962457960351, 53, 0, 1, 0);
    lemma_literal(ROOT32, 1024, 6369051670845502, 50, 5, 6, 0);
    let e = SPAN as int;
    let a = y.units();
    let b = y2.units();
    let k = REACH as int;
    assert(b * (e + k) <= 2 * (b * e) && a * (e + k) <= 2 * (a * e)) by (nonlinear_arith)
        requires a >= 0, b >= 0, k <= e;
    assert(a <= 2 * b) by (nonlinear_arith)
        requires a * e <= 2 * (b * e), e > 0;
    assert(b <= 2 * a) by (nonlinear_arith)
        requires b * e <= 2 * (a * e), e > 0;
    lemma_pow2_pos(1074);
}

/// The last step of a Newton search starts near its end.
proof fn lemma_step_near(x0: F64, dx: F64, x: F64)
    requires
        x == x0 - dx,
        x.is_finite(),
        x.enc() != 0,
        (dx / x).abs().lt(lit(STEP)),
    ensures
        x0.is_finite(),
        x0.sign() == x.sign(),
        alike(x.abs(), x0.abs(), 131400),
{
    broadcast use lemma_lt_units;
    lemma_small_powers();
    assert(x0.is_finite()) by {
        reveal(F64::spec_add);
        law_negation(dx);
    }
    lemma_finite_step(x0, dx, x);
    let q = dx / x;
    lemma_literal(STEP, 978, 7922816251426434, 53, 0, 1, 43);
    law_quotient_is_nearest(dx, x);
    lemma_order(q.enc() as int, 0);
    assert(q.abs().units() == mag(q.enc() as int));
    lemma_quotient_below(dx, x, 1, 43);
    let d = pow2(1074) as int;
    let dm = mag(dx.enc() as int);
    let xm = mag(x.enc() as int);
    lemma_order(dx.enc() as int, x.enc() as int);
    lemma_pow2_adds(43, 1031);
    lemma_pow2_pos(1031);
    lemma2_to64_rest();
    assert(dm * 0x800_0000_0000 < xm) by (nonlinear_arith)
        requires dm * d < (1 * pow2(1031)) * xm, d == 0x800_0000_0000 * pow2(1031), pow2(1031) > 0;
    // the sum before rounding
    law_negation(dx);
    law_sum_is_nearest(x0, dx.negated());
    let n = x0.units() - dx.units();
    let nn = size(n);
    lemma_round_ratio_is(nn, 1, x.enc());
    assert(n != 0) by {
        if n == 0 {
            lemma_round_zero(1);
        }
    }
    assert(x.units() == rounded(n));
    lemma_rounded(n, n);
    lemma_rounded_near(nn);
    assert(near(nn, xm, 129));
    lemma_order(x0.enc() as int, 0);
    let xs = mag(x0.enc() as int);
    let e = SPAN as int;
    let dd: int = 0x800_0000_0000;
    assert(nn * e <= xm * (e + 129) && xm * e <= nn * (e + 129));
    assert(nn > dm) by (nonlinear_arith)
        requires xm * e <= nn * (e + 129), dm * dd < xm, dd == 0x800_0000_0000, e == 0x1000_0000_0000_0000,
            nn >= 0, dm >= 0;
    assert(nn - dm <= xs <= nn + dm);
    assert(e == 0x2_0000 * dd);
    assert(xs * e <= xm * (e + 131400)) by (nonlinear_arith)
        requires xs <= nn + dm, nn * e <= xm * (e + 129), dm * dd < xm, e == 0x2_0000 * dd, xm >= 0, dd > 0;
    assert(dm * e <= 0x2_0000 * xm) by (nonlinear_arith)
        requires dm * dd < xm, e == 0x2_0000 * dd;
    let dk: int = 129;
    assert(dm * (e + dk) <= 0x2_0001 * xm) by (nonlinear_arith)
        requires dm * e <= 0x2_0000 * xm, dm * dd < xm, dk == 129, dd == 0x800_0000_0000, dm >= 0;
    assert(xm * e <= xs * (e + 131400)) by (nonlinear_arith)
        requires xm * e <= nn * (e + dk), nn <= xs + dm, dm * (e + dk) <= 0x2_0001 * xm,
            e == 0x1000_0000_0000_0000, dk == 129, xm >= 0, xs >= 0;
}

/// The bits of 40.
pub const FORTY: u64 = 0x4044_0000_0000_0000;

/// What is near a number of at most 40 is at most 64.
proof fn lemma_still_moderate(a: F64, b: F64, k: int)
    requires
        alike(a, b, k),
        a.le(lit(FORTY)),
        k <= REACH,
    ensures
        at_most(a, 64, 0),
        at_most(b, 64, 0),
        at_most(a, 40, 0),
{
    broadcast use lemma_le_units;
    lemma_small_powers();
    lemma_literal(FORTY, 1027, 0x14_0000_0000_0000, 47, 40, 40, 0);
    lemma_at_most(a, lit(FORTY), 40, 0);
    lemma_looser(a, 40, 64, 0);
    let e = SPAN as int;
    let u = a.units();
    let v = b.units();
    assert(2 * (u * (e + k)) <= 3 * (u * e)) by (nonlinear_arith)
        requires u >= 0, 2 * k <= e;
    assert(2 * v <= 3 * u) by (nonlinear_arith)
        requires v * e <= u * (e + k), 2 * (u * (e + k)) <= 3 * (u * e), e > 0;
    lemma_pow2_pos(1074);
}

/// Two numbers of one sign lie near each other.
pub open spec fn beside(x: F64, y: F64, k: int) -> bool {
    x.sign() == y.sign() && alike(x.abs(), y.abs(), k)
}

/// Where a last step ends, and near there, the distribution function is within 1e-10 of what
/// was asked for.
pub proof fn law_last_step_inverts<M: Fn(Elementary) -> F64>(m: &M, pp: F64, x0: F64, x: F64, v: F64)
    requires
        decays(m),
        smooth(m),
        joined(m),
        lit(ZERO).le(pp) && pp.le(lit(ONE)),
        last_step(m, pp, x0, x),
        x.abs().le(lit(FORTY)),
        beside(x, v, 3700),
    ensures
        size(cumnor(m, v).0.units() - pp.units()) <= part(0x55, 40),
        at_most(v.abs(), 64, 0),
{
    broadcast use lemma_le_units;
    lemma_small_powers();
    let dx = (cumnor(m, x0).0 - pp) / (lit(R2PI) * exp(m, lit(MINUS_HALF) * x0 * x0));
    if x.enc() == 0 {
        reveal(F64::spec_euclidean_or_real_div);
        law_negation(dx);
        lemma_order(x.enc() as int, 0);
    }
    lemma_step_near(x0, dx, x);
    lemma_still_moderate(x.abs(), x0.abs(), 131400);
    lemma_still_moderate(x.abs(), v.abs(), 3700);
    lemma_bound_is_large(x0.abs());
    lemma_literal(SIXTY_FOUR, 1028, 0x10_0000_0000_0000, 46, 64, 64, 0);
    law_last_step_is_close(m, pp, x0, x);
    lemma_near_wider(x.abs().units(), x0.abs().units(), 131400, 131400);
    lemma_near_chain(x0.abs().units(), x.abs().units(), v.abs().units(), 131400, 3700);
    lemma_near_wider(x0.abs().units(), v.abs().units(), 135101, REACH as int);
    law_normal_is_smooth(m, x0, v);
    lemma_fractions();
    lemma_pow2_adds(20, 1014);
}

/// A value is scaled and moved with little loss: the spread is not lost beside the mean, and
/// nothing is too large or too small for a normal number.
pub open spec fn scalable(mean: F64, sd: F64, z: F64) -> bool {
    let w = sd * z;
    &&& mean.is_finite() && sd.is_finite() && sd.gt(lit(ZERO))
    &&& at_least(z.abs(), 1, 1000) && z.abs().le(lit(FORTY))
    &&& at_least(w.abs(), 1, 1000) && w.abs().le(lit(SEARCH_BOUND))
    &&& mean.abs().units() <= 16 * w.abs().units()
}

/// How far a sum is rounded, against a part of it.
proof fn lemma_sum_near(mu: int, w: int, s: int)
    requires
        size(mu) <= 16 * size(w),
        w != 0,
        near(size(mu + w), size(s), 129),
        (mu + w >= 0 ==> s >= 0) && (mu + w <= 0 ==> s <= 0),
    ensures
        near(size(w), size(s - mu), 2200),
        w > 0 ==> s - mu > 0,
        w < 0 ==> s - mu < 0,
{
    let n = mu + w;
    let e = SPAN as int;
    let a = size(n);
    let b = size(s);
    let c = size(w);
    assert(a * (e + 129) == a * e + a * 129) by (nonlinear_arith);
    assert(b * (e + 129) == b * e + b * 129) by (nonlinear_arith);
    let r = size(s - n);
    assert(r == size(b - a));
    assert(r * e <= 129 * a) by (nonlinear_arith)
        requires r == b - a || (r == a - b && b <= a), b * e <= a * e + a * 129, a * e <= b * e + b * 129;
    assert(r * e <= 2193 * c);
    let t = size(s - mu);
    assert(r < c) by (nonlinear_arith)
        requires r * e <= 2193 * c, e > 2193, c > 0, r >= 0;
    assert(c - r <= t <= c + r);
    assert(c * (e + 2200) == c * e + 2200 * c) by (nonlinear_arith);
    assert(t * e <= c * (e + 2200)) by (nonlinear_arith)
        requires t <= c + r, r * e <= 2193 * c, c >= 0, e > 0, c * (e + 2200) == c * e + 2200 * c;
    assert(c * e <= t * (e + 2200)) by (nonlinear_arith)
        requires t >= c - r, r * e <= 2193 * c, c >= 0, e == 0x1000_0000_0000_0000, r >= 0, r < c;
}

/// The bound of the searches is far from the largest number.
proof fn lemma_far_from_infinity()
    ensures
        0x100 * mag(SEARCH_BOUND as int) < mag(INF_ENC as int),
        mag(SEARCH_BOUND as int) > 0,
{
    let e = SEARCH_BOUND as int;
    lemma_cell_of(e);
    lemma_order(e, 0);
    let t = scale(e);
    let k = significand(e);
    lemma_mag_cell(2046, CELL as int);
    assert(2046 * CELL + CELL == INF_ENC);
    assert(t == 2018);
    lemma_pow2_adds(28, 2018);
    lemma_pow2_pos(2018);
    lemma2_to64();
    lemma2_to64_rest();
    let g = pow2(2018) as int;
    let c = CELL as int;
    assert(0x100 * (k * g) < c * (0x1000_0000 * g)) by (nonlinear_arith)
        requires 0 <= k < 2 * c, g > 0, c > 0;
}

/// Scaling and moving a value, and back, loses little.
proof fn lemma_scaled_back(mean: F64, sd: F64, z: F64)
    requires
        scalable(mean, sd, z),
    ensures
        beside(z, ((mean + sd * z) - mean) / sd, 3700),
{
    broadcast use lemma_le_units;
    broadcast use lemma_lt_units;
    lemma_small_powers();
    lemma_part(1, 1000);
    lemma_mag_zero(0);
    let d = pow2(1074) as int;
    lemma_pow2_pos(1074);
    let w = sd * z;
    let su = sd.units();
    let zm = mag(z.enc() as int);
    let wm = mag(w.enc() as int);
    lemma_order(z.enc() as int, 0);
    lemma_order(w.enc() as int, 0);
    lemma_order(sd.enc() as int, 0);
    lemma_order(mean.enc() as int, 0);
    lemma_order(FORTY as int, INF_ENC as int);
    lemma_order(w.enc() as int, SEARCH_BOUND as int);
    lemma_order(z.enc() as int, FORTY as int);
    lemma_order(SEARCH_BOUND as int, INF_ENC as int);
    lemma_far_from_infinity();
    lemma_literal(FORTY, 1027, 0x14_0000_0000_0000, 47, 40, 40, 0);
    lemma_part(80, 0);
    law_negation(z);
    law_negation(w);
    law_negation(mean);
    assert(z.is_finite() && w.is_finite());
    assert(pow2(74) > 2 * CELL) by {
        lemma2_to64();
        lemma2_to64_rest();
        lemma_pow2_adds(10, 64);
    }
    // the product
    law_product_is_nearest(sd, z);
    let num = su * zm;
    assert(num >= 0) by (nonlinear_arith)
        requires num == su * zm, su >= 0, zm >= 0;
    lemma_round_ratio_is(num, d, w.enc());
    let c = CELL as int;
    assert(num >= c * d) by {
        if num < c * d {
            lemma2_to64();
            lemma_representable(c, 0);
            assert(c * pow2(0) == c);
            lemma_ratio_le(num, d, c);
        }
    }
    lemma_round_near(num, d);
    assert(w.units() == if z.sign() {
        -wm
    } else {
        wm
    });
    // the sum, and back
    let mu = mean.units();
    lemma_sum_units(mean, w);
    let s = mean + w;
    let n = mu + w.units();
    lemma_signed_near(s, n);
    lemma_sum_near(mu, w.units(), s.units());
    lemma_sum_units(s, mean.negated());
    let t = s - mean;
    let n2 = s.units() - mu;
    lemma_signed_near(t, n2);
    let tm = mag(t.enc() as int);
    lemma_order(t.enc() as int, 0);
    lemma_near_chain(wm, size(n2), tm, 2200, 129);
    // the quotient
    lemma_near_times(wm, tm, d, 2330);
    lemma_near_chain(num, wm * d, tm * d, 129, 2330);
    let q = t / sd;
    law_quotient_is_nearest(t, sd);
    let num2 = tm * d;
    lemma_round_ratio_is(num2, su, q.enc());
    lemma_quotient_moderate(num, num2, su, zm, d);
    lemma_ratio_le(num2, su, part(80, 0));
    lemma_order(q.enc() as int, INF_ENC as int);
    lemma_round_near(num2, su);
    let vm = mag(q.enc() as int);
    lemma_near_chain(num, num2, vm * su, 2460, 129);
    lemma_order(q.enc() as int, 0);
    assert(num == zm * su) by (nonlinear_arith)
        requires num == su * zm;
    lemma_near_cancel(zm, vm, su, 2590);
    lemma_near_wider(zm, vm, 2590, 3700);
    law_negation(q);
}

proof fn lemma_quotient_moderate(num: int, num2: int, su: int, zm: int, d: int)
    requires
        near(num, num2, 2460),
        num == su * zm,
        su > 0,
        pow2(74) > 2 * CELL,
        zm >= pow2(74),
        zm <= 40 * d,
    ensures
        num2 >= CELL * su,
        0 <= num2 <= (80 * d) * su,
{
    let e = SPAN as int;
    assert(num * (e + 2460) <= 2 * (num * e) && num2 * (e + 2460) <= 2 * (num2 * e)) by (nonlinear_arith)
        requires num >= 0, num2 >= 0, e > 2460;
    assert(num <= 2 * num2) by (nonlinear_arith)
        requires num * e <= 2 * (num2 * e), e > 0;
    assert(num2 <= 2 * num) by (nonlinear_arith)
        requires num2 * e <= 2 * (num * e), e > 0;
    assert(num >= 2 * (CELL * su)) by (nonlinear_arith)
        requires num == su * zm, zm >= 2 * CELL, su > 0;
    assert(2 * num <= (80 * d) * su) by (nonlinear_arith)
        requires num == su * zm, zm <= 40 * d, su > 0;
}

pub proof fn lemma_near_times(a: int, b: int, d: int, k: int)
    requires
        near(a, b, k),
        d > 0,
    ensures
        near(a * d, b * d, k),
{
    let e = SPAN as int;
    let f = e + k;
    assert((a * d) * e == (a * e) * d) by (nonlinear_arith);
    assert((b * d) * e == (b * e) * d) by (nonlinear_arith);
    assert((a * d) * f == (a * f) * d) by (nonlinear_arith);
    assert((b * d) * f == (b * f) * d) by (nonlinear_arith);
    assert((a * e) * d <= (b * f) * d) by (nonlinear_arith)
        requires a * e <= b * f, d > 0;
    assert((b * e) * d <= (a * f) * d) by (nonlinear_arith)
        requires b * e <= a * f, d > 0;
    assert(a * d >= 0 && b * d >= 0) by (nonlinear_arith)
        requires a >= 0, b >= 0, d > 0;
}

/// A finite number lies near the signed number of units that it is rounded from.
pub proof fn lemma_signed_near(s: F64, n: int)
    requires
        s.is_finite(),
        s.units() == rounded(n),
    ensures
        near(size(n), size(s.units()), 129),
        n >= 0 ==> s.units() >= 0,
        n <= 0 ==> s.units() <= 0,
        size(s.units()) == mag(s.enc() as int),
{
    lemma_rounded(n, n);
    lemma_order(s.enc() as int, 0);
    law_negation(s);
    if n >= 0 {
        lemma_finite_round(s, n);
        lemma_rounded_near(n);
    } else {
        lemma_rounded(-n, -n);
        lemma_finite_round(s.negated(), -n);
        lemma_rounded_near(-n);
    }
}

/// Where Newton's steps settle on the standard quantile `z` of `p`, the distribution function
/// is within 1e-10 of `p` at `z`, and at every number that differs from it by little more
/// than rounding.
pub proof fn law_normal_inverse_is_undone<M: Fn(Elementary) -> F64>(m: &M, p: F64, x0: F64, v: F64)
    requires
        decays(m),
        smooth(m),
        joined(m),
        lit(ZERO).le(p) && p.le(lit(ONE)),
        ({
            let q = lit(ONE) - p;
            let z = dinvnr(m, p, q);
            &&& last_step(m, smaller(p, q), x0, turned(p, q, z))
            &&& z.abs().le(lit(FORTY))
            &&& beside(z, v, 3700)
        }),
    ensures
        size(cumnor(m, v).0.units() - p.units()) <= part(3, 35),
{
    let q = lit(ONE) - p;
    let z = dinvnr(m, p, q);
    broadcast use lemma_le_units;
    lemma_small_powers();
    lemma_fractions();
    lemma_pow2_adds(20, 1014);
    lemma_unit(p);
    lemma_complement_in_range(p);
    lemma_unit(q);
    law_negation(z);
    law_negation(v);
    let pp = smaller(p, q);
    if p.le(q) {
        law_last_step_inverts(m, pp, x0, z, v);
    } else {
        let x = z.negated();
        let v2 = v.negated();
        law_last_step_inverts(m, pp, x0, x, v2);
        lemma_bound_is_large(v.abs());
        law_normal_tails(m, v2);
        let c = cumnor(m, v2);
        assert(cumnor(m, v) == (c.1, c.0));
        // the complement is rounded
        lemma_literal(ONE, 1022, 0x10_0000_0000_0000, 52, 1, 1, 0);
        lemma_part(1, 0);
        law_negation(p);
        lemma_sum_units(lit(ONE), p.negated());
        lemma_grid(lit(ONE).units() - p.units());
    }
}

/// The quantile of a normal distribution is the standard one, scaled and moved. It comes of
/// a last Newton step, where the steps settle; the distribution function at the quantile is
/// then within 1e-10 of the probability, where scaling and moving lose little.
pub proof fn law_normal_quantile<M: Fn(Elementary) -> F64>(m: &M, mean: F64, sd: F64, p: F64)
    requires
        decays(m),
        smooth(m),
        joined(m),
        within(p, lit(ZERO), lit(ONE)),
        !p.equals(lit(ZERO)) && !p.equals(lit(ONE)),
    ensures
        ({
            let q = lit(ONE) - p;
            let z = dinvnr(m, p, q);
            let x = mean + sd * z;
            &&& normal::quantile(m, mean, sd, p) == Ok::<F64, normal::NormalError>(x)
            &&& inverts(m, p, q, z)
            &&& forall|x0: F64| #[trigger]
                last_step(m, smaller(p, q), x0, turned(p, q, z)) && scalable(mean, sd, z) ==> size(
                    normal::cdf_at(m, mean, sd, x).units() - p.units(),
                ) <= part(3, 35)
        }),
{
    broadcast use lemma_le_units;
    let q = lit(ONE) - p;
    let z = dinvnr(m, p, q);
    law_normal_inverse_ends(m, p, q);
    assert forall|x0: F64| #[trigger]
        last_step(m, smaller(p, q), x0, turned(p, q, z)) && scalable(mean, sd, z) implies size(
        normal::cdf_at(m, mean, sd, mean + sd * z).units() - p.units(),
    ) <= part(3, 35) by {
        lemma_scaled_back(mean, sd, z);
        law_normal_inverse_is_undone(m, p, x0, ((mean + sd * z) - mean) / sd);
    }
}

} // verus!
