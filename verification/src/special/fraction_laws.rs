//! What a lesser accuracy costs, where the ratios of the incomplete gamma function come of the
//! continued fraction of the upper one.
use crate::consts::{EPSILON, FIVE, HALF, ONE, PATIENCE, TEN, ZERO};
use crate::float::{lit, F64};
use crate::float::bounds::{
    at_least, at_most, lemma_literal, lemma_part, lemma_product, lemma_product_at_most,
    lemma_quotient, lemma_ratio_ge, lemma_ratio_le, part,
};
use crate::float::laws::law_negation;
use crate::float::model::{lemma_mag_zero, mag, round_ratio, CELL, INF_ENC};
use crate::float::number::{lemma_equals_units, lemma_le_units, lemma_lt_units, lemma_order};
use crate::float::relative::{
    lemma_both_rounded, lemma_chain_half, lemma_near_cancel, lemma_near_chain, lemma_near_self,
    lemma_near_sum, lemma_near_wider, lemma_round_near, lemma_rounded_near, near, SPAN,
};
use crate::float::signed::{lemma_rounded, lemma_sum_units, rounded};
use crate::functions::{exp, ln, Elementary};
use crate::special::accuracy_laws::{
    is_finite_sum, lemma_tolerances, lemma_uppers_close, MAX_ACC, NEAR_TEN, SIX_ACC, THREE_ACC,
};
use crate::special::gamma::{gam1, gamma_value};
use crate::special::gamma_inc::{
    below_one_spec, complement, continued_fraction, continued_fraction_spec, convergents,
    from_scale_spec, gamma_inc_core, gamma_inc_core_spec, moderate_spec, GammaIncAcc, ALOG10,
};
use crate::special::normal_laws::{lemma_fine_grid, lemma_products_in_order, lemma_small_powers};
use crate::special::normal_smooth_laws::{lemma_fractions, lemma_near_times, size};
use crate::special::small_series_laws::ELEVEN_TENTHS;
use vstd::arithmetic::power2::{
    lemma2_to64, lemma2_to64_rest, lemma_pow2_adds, lemma_pow2_pos, pow2,
};
use vstd::prelude::*;

verus! {

/// The convergents agree within `n` rounds, and nothing overflows before.
pub open spec fn settles(
    a: F64,
    x: F64,
    tol: F64,
    a2nm1: F64,
    a2n: F64,
    b2nm1: F64,
    b2n: F64,
    c: F64,
    n: u64,
) -> bool
    decreases n,
{
    let a1 = x * a2n + c * a2nm1;
    let b1 = x * b2n + c * b2nm1;
    let am0 = a1 / b1;
    let c1 = c + lit(ONE);
    let cma = c1 - a;
    let a2 = a1 + cma * a2n;
    let b2 = b1 + cma * b2n;
    let an0 = a2 / b2;
    &&& n > 0
    &&& a1.is_finite() && b1.is_finite() && a2.is_finite() && b2.is_finite() && c1.is_finite()
    &&& am0.is_finite() && an0.is_finite()
    &&& (an0 - am0).abs().lt(tol * an0) || settles(a, x, tol, a1, a2, b1, b2, c1, (n - 1) as u64)
}

/// A finite number of at least `1 / 2^e`.
spec fn reaches(x: F64, e: int) -> bool {
    x.is_finite() && x.units() >= part(1, e)
}

/// A product of numbers of at least a sixteenth and one half, by the exact one.
proof fn lemma_weighted(w: F64, v: F64)
    requires
        reaches(w, 4),
        reaches(v, 1),
        (w * v).is_finite(),
    ensures
        near(w.units() * v.units(), (w * v).units() * pow2(1074), 129),
        (w * v).units() > 0,
{
    lemma_small_powers();
    let d = pow2(1074) as int;
    lemma_pow2_pos(1074);
    lemma_part(1, 4);
    lemma_part(1, 1);
    lemma_part(1, 5);
    lemma_product(w, v);
    lemma_pow2_adds(1070, 1073);
    lemma_pow2_adds(1069, 1074);
    let num = w.units() * v.units();
    assert(num >= part(1, 5) * d) by (nonlinear_arith)
        requires num == w.units() * v.units(), w.units() >= part(1, 4), v.units() >= part(1, 1), part(1, 4)
            * part(1, 1) == part(1, 5) * d, part(1, 4) > 0, part(1, 1) > 0;
    lemma_pow2_adds(52, 1017);
    lemma_pow2_pos(1017);
    assert(part(1, 5) >= CELL) by (nonlinear_arith)
        requires part(1, 5) == pow2(52) * pow2(1017), pow2(52) == CELL, pow2(1017) >= 1, CELL > 0;
    assert(num >= CELL * d) by (nonlinear_arith)
        requires num >= part(1, 5) * d, part(1, 5) >= CELL, d > 0;
    lemma_round_near(num, d);
    lemma_ratio_ge(num, d, part(1, 5));
}

/// A sum of finite numbers that are not negative lies near the exact one.
proof fn lemma_sum_is_near(p: F64, q: F64)
    requires
        p.is_finite() && p.units() >= 0,
        q.is_finite() && q.units() >= 0,
        (p + q).is_finite(),
    ensures
        near(p.units() + q.units(), (p + q).units(), 129),
        (p + q).units() >= p.units(),
{
    let n = p.units() + q.units();
    crate::float::laws::law_sum_is_nearest(p, q);
    let s = p + q;
    crate::float::model::lemma_round_ratio_is(n, 1, s.enc());
    lemma_order(s.enc() as int, 0);
    if n == 0 {
        crate::float::arith::lemma_round_zero(1);
        crate::float::model::lemma_mag_zero(0);
    }
    assert(s.units() == rounded(n));
    lemma_rounded_near(n);
    lemma_rounded(p.units(), n);
    crate::float::signed::lemma_units_representable(p);
}

/// What is added to a number that overflows overflows.
proof fn lemma_terms_finite(p: F64, q: F64)
    requires
        (p + q).is_finite(),
    ensures
        p.is_finite() && q.is_finite(),
{
    reveal(F64::spec_add);
}

/// A sum of two weighted numbers lies near the exact one.
proof fn lemma_combined(w: F64, v: F64, y: F64, z: F64)
    requires
        reaches(w, 4),
        reaches(v, 1),
        reaches(y, 4),
        reaches(z, 1),
        (w * v + y * z).is_finite(),
    ensures
        near(
            (w * v + y * z).units() * pow2(1074),
            w.units() * v.units() + y.units() * z.units(),
            260,
        ),
        (w * v).is_finite() && (w * v + y * z).units() >= (w * v).units(),
{
    let d = pow2(1074) as int;
    lemma_pow2_pos(1074);
    let p = w * v;
    let q = y * z;
    lemma_terms_finite(p, q);
    lemma_weighted(w, v);
    lemma_weighted(y, z);
    lemma_sum_is_near(p, q);
    let s = p + q;
    let wv = w.units() * v.units();
    let yz = y.units() * z.units();
    lemma_near_sum(wv, p.units() * d, yz, q.units() * d, 129);
    lemma_near_times(p.units() + q.units(), s.units(), d, 129);
    assert((p.units() + q.units()) * d == p.units() * d + q.units() * d) by (nonlinear_arith);
    lemma_near_chain(wv + yz, p.units() * d + q.units() * d, s.units() * d, 129, 129);
    lemma_near_wider(wv + yz, s.units() * d, 259, 260);
}

/// A number and a weighted number.
proof fn lemma_added_weighted(p: F64, y: F64, z: F64)
    requires
        p.is_finite() && p.units() >= 0,
        reaches(y, 4),
        reaches(z, 1),
        (p + y * z).is_finite(),
    ensures
        near((p + y * z).units() * pow2(1074), p.units() * pow2(1074) + y.units() * z.units(), 260),
        (p + y * z).units() >= p.units(),
{
    let d = pow2(1074) as int;
    lemma_pow2_pos(1074);
    let q = y * z;
    lemma_terms_finite(p, q);
    lemma_weighted(y, z);
    lemma_sum_is_near(p, q);
    let s = p + q;
    let yz = y.units() * z.units();
    assert(p.units() * d >= 0) by (nonlinear_arith)
        requires p.units() >= 0, d > 0;
    lemma_near_self(p.units() * d, 129);
    lemma_near_sum(p.units() * d, p.units() * d, yz, q.units() * d, 129);
    lemma_near_times(p.units() + q.units(), s.units(), d, 129);
    assert((p.units() + q.units()) * d == p.units() * d + q.units() * d) by (nonlinear_arith);
    lemma_near_chain(p.units() * d + yz, p.units() * d + q.units() * d, s.units() * d, 129, 129);
    lemma_near_wider(p.units() * d + yz, s.units() * d, 259, 260);
}

/// The quotient `a / b` is at most `h`, in units, but for `k / 2^60` of it.
spec fn below(a: int, b: int, h: int, k: int) -> bool {
    (a * pow2(1074)) * SPAN <= (h * b) * (SPAN + k)
}

/// The quotient `a / b` is at least `h`, in units, but for `k / 2^60` of it.
spec fn above(a: int, b: int, h: int, k: int) -> bool {
    (h * b) * SPAN <= (a * pow2(1074)) * (SPAN + k)
}

proof fn lemma_spread(w: int, a: int, w2: int, a2: int, d: int, e: int)
    ensures
        ((w * a + w2 * a2) * d) * e == w * ((a * d) * e) + w2 * ((a2 * d) * e),
{
    let s = d * e;
    let p = w * a;
    let q = w2 * a2;
    assert(((p + q) * d) * e == (p + q) * s) by (nonlinear_arith)
        requires s == d * e;
    assert((p + q) * s == p * s + q * s) by (nonlinear_arith);
    assert(p * s == w * (a * s)) by (nonlinear_arith)
        requires p == w * a;
    assert(q * s == w2 * (a2 * s)) by (nonlinear_arith)
        requires q == w2 * a2;
    assert((a * d) * e == a * s) by (nonlinear_arith)
        requires s == d * e;
    assert((a2 * d) * e == a2 * s) by (nonlinear_arith)
        requires s == d * e;
}

/// A quotient of weighted sums lies between the quotients.
proof fn lemma_mediant(a: int, b: int, a2: int, b2: int, w: int, w2: int, h: int, k: int)
    requires
        w >= 0,
        w2 >= 0,
    ensures
        below(a, b, h, k) && below(a2, b2, h, k) ==> below(w * a + w2 * a2, w * b + w2 * b2, h, k),
        above(a, b, h, k) && above(a2, b2, h, k) ==> above(w * a + w2 * a2, w * b + w2 * b2, h, k),
{
    let d = pow2(1074) as int;
    let e = SPAN as int;
    let f = e + k;
    let x = w * a + w2 * a2;
    let y = w * b + w2 * b2;
    lemma_spread(w, a, w2, a2, d, e);
    lemma_spread(w, a, w2, a2, d, f);
    lemma_spread(w, b, w2, b2, h, e);
    lemma_spread(w, b, w2, b2, h, f);
    assert(y * h == h * y && b * h == h * b && b2 * h == h * b2) by (nonlinear_arith);
    if below(a, b, h, k) && below(a2, b2, h, k) {
        assert(w * ((a * d) * e) <= w * ((h * b) * f)) by (nonlinear_arith)
            requires (a * d) * e <= (h * b) * f, w >= 0;
        assert(w2 * ((a2 * d) * e) <= w2 * ((h * b2) * f)) by (nonlinear_arith)
            requires (a2 * d) * e <= (h * b2) * f, w2 >= 0;
    }
    if above(a, b, h, k) && above(a2, b2, h, k) {
        assert(w * ((h * b) * e) <= w * ((a * d) * f)) by (nonlinear_arith)
            requires (h * b) * e <= (a * d) * f, w >= 0;
        assert(w2 * ((h * b2) * e) <= w2 * ((a2 * d) * f)) by (nonlinear_arith)
            requires (h * b2) * e <= (a2 * d) * f, w2 >= 0;
    }
}

/// Rounding both parts of a quotient moves it little.
proof fn lemma_rounded_quotient(x: int, y: int, r: int, t: int, h: int, k: int, p: int)
    requires
        near(r * pow2(1074), x, p),
        near(t * pow2(1074), y, p),
        r >= 0,
        t >= 0,
        h >= 0,
        0 <= k <= 0x10_0000_0000,
        0 <= p <= 0x1_0000,
    ensures
        below(x, y, h, k) ==> below(r, t, h, k + 2 * p + 2),
        above(x, y, h, k) ==> above(r, t, h, k + 2 * p + 2),
{
    let d = pow2(1074) as int;
    lemma_pow2_pos(1074);
    let e = SPAN as int;
    let rd = (r * d) * d;
    let xd = x * d;
    let hy = h * y;
    let ht = h * (t * d);
    assert(near(rd, xd, p)) by {
        lemma_near_times(r * d, x, d, p);
    }
    assert(near(ht, hy, p)) by {
        if h > 0 {
            lemma_near_times(t * d, y, h, p);
            assert((t * d) * h == ht && y * h == hy) by (nonlinear_arith)
                requires ht == h * (t * d), hy == h * y;
        } else {
            assert(ht == 0 && hy == 0) by (nonlinear_arith)
                requires h == 0, ht == h * (t * d), hy == h * y;
        }
    }
    assert(p * k <= 0x1_0000 * 0x10_0000_0000) by (nonlinear_arith)
        requires 0 <= k <= 0x10_0000_0000, 0 <= p <= 0x1_0000;
    assert(k * p == p * k) by (nonlinear_arith);
    assert((p + k + 1) * p <= e) by (nonlinear_arith)
        requires p * k <= 0x1_0000 * 0x10_0000_0000, 0 <= p <= 0x1_0000, e == 0x1000_0000_0000_0000, k >= 0;
    let f = e + (k + 2 * p + 2);
    assert((h * t) * d == ht) by (nonlinear_arith)
        requires ht == h * (t * d);
    if below(x, y, h, k) {
        lemma_chain_half(rd, xd, hy, p, k, e);
        lemma_chain_half(rd, hy, ht, p + k + 1, p, e);
        assert(((r * d) * e) * d <= ((h * t) * f) * d) by (nonlinear_arith)
            requires rd * e <= ht * f, rd == (r * d) * d, (h * t) * d == ht;
        assert((r * d) * e <= (h * t) * f) by (nonlinear_arith)
            requires ((r * d) * e) * d <= ((h * t) * f) * d, d > 0;
    }
    if above(x, y, h, k) {
        lemma_chain_half(ht, hy, xd, p, k, e);
        lemma_chain_half(ht, xd, rd, p + k + 1, p, e);
        assert(((h * t) * e) * d <= ((r * d) * f) * d) by (nonlinear_arith)
            requires ht * e <= rd * f, rd == (r * d) * d, (h * t) * d == ht;
        assert((h * t) * e <= (r * d) * f) by (nonlinear_arith)
            requires ((h * t) * e) * d <= ((r * d) * f) * d, d > 0;
    }
}

/// The state of the fraction before a round: all is positive, and the counter is not past
/// `cnt`.
spec fn ready(
    a: F64,
    x: F64,
    a2nm1: F64,
    a2n: F64,
    b2nm1: F64,
    b2n: F64,
    c: F64,
    cnt: int,
) -> bool {
    &&& a.is_finite() && 0 < a.units()
    &&& a.units() <= part(1, 0) || a.units() <= x.units() <= part(10, 0)
    &&& reaches(x, 0)
    &&& reaches(a2nm1, 1) && reaches(a2n, 1) && reaches(b2nm1, 1) && reaches(b2n, 1)
    &&& reaches(c, 0) && at_most(c, cnt, 0)
    &&& 1 <= cnt <= 0x10_0000
}

/// Both quotients are at most `h`, or at least.
spec fn both_below(a: F64, b: F64, a2: F64, b2: F64, h: int, k: int) -> bool {
    below(a.units(), b.units(), h, k) && below(a2.units(), b2.units(), h, k)
}

spec fn both_above(a: F64, b: F64, a2: F64, b2: F64, h: int, k: int) -> bool {
    above(a.units(), b.units(), h, k) && above(a2.units(), b2.units(), h, k)
}

proof fn lemma_wider(a: int, b: int, h: int, k: int, j: int)
    requires
        a >= 0,
        b >= 0,
        h >= 0,
        k <= j,
    ensures
        below(a, b, h, k) ==> below(a, b, h, j),
        above(a, b, h, k) ==> above(a, b, h, j),
{
    let e = SPAN as int;
    let d = pow2(1074) as int;
    assert(h * b >= 0 && a * d >= 0) by (nonlinear_arith)
        requires a >= 0, b >= 0, h >= 0, d >= 0;
    assert((h * b) * (e + k) <= (h * b) * (e + j)) by (nonlinear_arith)
        requires h * b >= 0, k <= j;
    assert((a * d) * (e + k) <= (a * d) * (e + j)) by (nonlinear_arith)
        requires a * d >= 0, k <= j;
}

/// The counter, and what it is ahead of the parameter.
proof fn lemma_counter(a: F64, x: F64, c: F64, cnt: int)
    requires
        a.is_finite() && 0 < a.units(),
        a.units() <= part(1, 0) || a.units() <= x.units() <= part(10, 0),
        reaches(x, 0),
        reaches(c, 0) && at_most(c, cnt, 0),
        1 <= cnt <= 0x10_0000,
    ensures
        reaches(c + lit(ONE), 0) && at_most(c + lit(ONE), cnt + 1, 0),
        ({
            let cma = (c + lit(ONE)) - a;
            &&& cma.is_finite()
            &&& reaches(cma, 4) || (-part(8, 0) <= cma.units() < part(1, 4) && x.units() <= part(10, 0)
                && x.units() + cma.units() >= part(1, 0))
        }),
{
    lemma_small_powers();
    let d = pow2(1074) as int;
    lemma_pow2_pos(1074);
    lemma_fractions();
    lemma_literal(ONE, 1022, 0x10_0000_0000_0000, 52, 1, 1, 0);
    lemma_part(cnt + 1, 0);
    lemma_part(2, 0);
    lemma_part(8, 0);
    lemma_part(10, 0);
    lemma_part(128, 0);
    assert((cnt + 1) * d == cnt * d + d) by (nonlinear_arith);
    let n = c.units() + d;
    lemma_sum_units(c, lit(ONE));
    lemma_rounded(part(2, 0), n);
    lemma_rounded(n, part(cnt + 1, 0));
    lemma_rounded(part(cnt + 1, 0), 0);
    let c1 = c + lit(ONE);
    law_negation(a);
    lemma_sum_units(c1, a.negated());
    let k = c1.units() - a.units();
    lemma_rounded(-part(8, 0), k);
    lemma_rounded(part(8, 0), 0);
    lemma_rounded(0, k);
    if k < 0 {
        lemma_fine_grid(k);
    }
    lemma_rounded(d, k);
    lemma_part(1, 0);
    if a.units() <= d {
        lemma_pow2_adds(4, 1070);
        lemma2_to64();
    }
}

/// A number of at least one makes nothing smaller.
proof fn lemma_product_grows(x: F64, v: F64)
    requires
        reaches(x, 0),
        reaches(v, 1),
        (x * v).is_finite(),
    ensures
        (x * v).units() >= v.units(),
{
    let d = pow2(1074) as int;
    lemma_pow2_pos(1074);
    lemma_part(1, 1);
    lemma_product(x, v);
    assert(v.units() * d <= x.units() * v.units()) by (nonlinear_arith)
        requires x.units() >= d, v.units() >= 0;
    crate::float::signed::lemma_units_representable(v);
    lemma_ratio_ge(x.units() * v.units(), d, v.units());
}

/// One of the two sums of a round.
proof fn lemma_first(x: F64, c: F64, v: F64, w: F64)
    requires
        reaches(x, 0),
        reaches(c, 0),
        reaches(v, 1),
        reaches(w, 1),
        (x * v + c * w).is_finite(),
    ensures
        near((x * v + c * w).units() * pow2(1074), x.units() * v.units() + c.units() * w.units(), 260),
        reaches(x * v + c * w, 1),
{
    lemma_small_powers();
    vstd::arithmetic::power2::lemma_pow2_strictly_increases(1070, 1074);
    lemma_combined(x, v, c, w);
    lemma_product_grows(x, v);
}

/// A ratio too small for a normal number is rounded by at most one unit.
proof fn lemma_small_ratio(num: int, den: int)
    requires
        den > 0,
        0 <= num < CELL * den,
    ensures
        -den <= mag(round_ratio(num, den) as int) * den - num <= den,
{
    let enc = round_ratio(num, den) as int;
    let c = CELL as int;
    crate::float::laws::law_rounding_is_nearest(num, den);
    lemma2_to64();
    crate::float::signed::lemma_representable(c, 0);
    assert(c * pow2(0) == c);
    lemma_ratio_le(num, den, c);
    crate::float::model::lemma_mag_cell(0, c);
    lemma_order(enc, c);
    assert(enc <= c);
    if enc > 0 {
        crate::float::model::lemma_mag_cell(0, enc - 1);
    }
    crate::float::model::lemma_mag_cell(0, enc);
    assert(mag(enc) == enc);
    let v = enc;
    assert(enc > 0 ==> mag(enc - 1) == enc - 1);
    assert((mag(enc) + mag(enc + 1)) * den == (2 * v + 1) * den);
    assert(2 * num <= (2 * v + 1) * den);
    if enc > 0 {
        assert(2 * num >= (2 * v - 1) * den);
    }
    assert(v * den - num <= den && num - v * den <= den) by (nonlinear_arith)
        requires 2 * num <= (2 * v + 1) * den, 2 * num >= (2 * v - 1) * den || v == 0, num >= 0, den > 0;
}

/// The product with a number of at most eight, by its distance from the exact one.
proof fn lemma_signed_product(y: F64, v: F64)
    requires
        y.is_finite() && size(y.units()) <= part(8, 0),
        reaches(v, 1),
        (y * v).is_finite(),
    ensures
        size((y * v).units() * pow2(1074) - y.units() * v.units()) * SPAN <= 1041 * (pow2(1074)
            * v.units()),
{
    lemma_small_powers();
    lemma_fractions();
    let d = pow2(1074) as int;
    let e = SPAN as int;
    lemma_pow2_pos(1074);
    lemma_part(1, 1);
    crate::float::laws::law_product_is_nearest(y, v);
    lemma_order(y.enc() as int, 0);
    lemma_order(v.enc() as int, 0);
    lemma_order((y * v).enc() as int, 0);
    let ym = mag(y.enc() as int);
    let vu = v.units();
    let n = ym * vu;
    assert(0 <= n <= 8 * (d * vu)) by (nonlinear_arith)
        requires n == ym * vu, 0 <= ym <= 8 * d, vu > 0;
    crate::float::model::lemma_round_ratio_is(n, d, (y * v).enc());
    let rm = mag((y * v).enc() as int);
    let dv = d * vu;
    assert(size(rm * d - n) * e <= 1041 * dv) by {
        if n >= CELL * d {
            lemma_round_near(n, d);
            let rd = rm * d;
            assert(size(rd - n) * e <= 130 * n) by (nonlinear_arith)
                requires n * e <= rd * (e + 129), rd * e <= n * (e + 129), e == 0x1000_0000_0000_0000, n >= 0,
                    rd >= 0;
        } else {
            lemma_small_ratio(n, d);
            lemma_pow2_adds(61, 1012);
            lemma2_to64_rest();
            lemma_pow2_pos(1012);
            assert(vu >= e) by (nonlinear_arith)
                requires vu >= part(1, 1), part(1, 1) == pow2(61) * pow2(1012), pow2(61) == 2 * e, pow2(1012)
                    >= 1, e > 0;
            assert(d * e <= dv) by (nonlinear_arith)
                requires dv == d * vu, vu >= e, d > 0;
            assert(size(rm * d - n) * e <= d * e) by (nonlinear_arith)
                requires size(rm * d - n) <= d, e > 0;
        }
    }
    assert((-rm) * d == -(rm * d)) by (nonlinear_arith);
    assert((-ym) * vu == -n) by (nonlinear_arith)
        requires n == ym * vu;
}

/// The other sum of a round, as a sum of what the first one is made of.
proof fn lemma_second(x: F64, c: F64, cma: F64, v: F64, w: F64)
    requires
        reaches(x, 0),
        reaches(c, 0),
        reaches(v, 1),
        reaches(w, 1),
        cma.is_finite(),
        reaches(cma, 4) || (-part(8, 0) <= cma.units() < part(1, 4) && x.units() <= part(10, 0) && x.units()
            + cma.units() >= part(1, 0)),
        (x * v + c * w).is_finite(),
        ((x * v + c * w) + cma * v).is_finite(),
    ensures
        x.units() + cma.units() >= 0,
        near(
            ((x * v + c * w) + cma * v).units() * pow2(1074),
            (x.units() + cma.units()) * v.units() + c.units() * w.units(),
            40_000,
        ),
        reaches((x * v + c * w) + cma * v, 1),
{
    lemma_small_powers();
    lemma_part(1, 0);
    lemma_part(1, 1);
    lemma_part(1, 4);
    lemma_part(8, 0);
    lemma_part(10, 0);
    let d = pow2(1074) as int;
    let e = SPAN as int;
    lemma_pow2_pos(1074);
    lemma_pow2_adds(1, 1073);
    let a1 = x * v + c * w;
    lemma_first(x, c, v, w);
    let p = cma * v;
    let s = a1 + p;
    let xu = x.units();
    let cu = c.units();
    let vu = v.units();
    let wu = w.units();
    let mu = cma.units();
    let n = xu * vu + cu * wu;
    let t = (xu + mu) * vu + cu * wu;
    assert(t == n + mu * vu) by (nonlinear_arith)
        requires n == xu * vu + cu * wu, t == (xu + mu) * vu + cu * wu;
    lemma_pow2_adds(4, 1070);
    lemma2_to64();
    lemma_pow2_pos(1070);
    assert(part(1, 4) <= d);
    assert(t >= d * d) by (nonlinear_arith)
        requires t == (xu + mu) * vu + cu * wu, xu + mu >= d, cu >= d, 2 * vu >= d, 2 * wu >= d, d > 0;
    assert(d * d > 0) by (nonlinear_arith)
        requires d > 0;
    let ad = a1.units() * d;
    let sd = s.units() * d;
    if reaches(cma, 4) {
        lemma_added_weighted(a1, cma, v);
        let q = ad + mu * vu;
        assert(mu * vu >= 0 && n >= 0) by (nonlinear_arith)
            requires mu >= 0, vu > 0, n == xu * vu + cu * wu, xu >= 0, cu >= 0, wu >= 0;
        lemma_near_self(mu * vu, 260);
        lemma_near_sum(ad, n, mu * vu, mu * vu, 260);
        lemma_near_chain(sd, q, t, 260, 260);
        lemma_near_wider(sd, t, 521, 40_000);
    } else {
        lemma_terms_finite(a1, p);
        lemma_signed_product(cma, v);
        lemma_sum_of_both_signs(a1, p);
        let pd = p.units() * d;
        let mv = mu * vu;
        let dv = d * vu;
        assert(dv <= n) by (nonlinear_arith)
            requires dv == d * vu, n == xu * vu + cu * wu, xu >= d, cu >= 0, wu >= 0, vu > 0;
        assert(-(8 * dv) <= mv <= 8 * dv) by (nonlinear_arith)
            requires mv == mu * vu, dv == d * vu, -(8 * d) <= mu <= 8 * d, vu > 0;
        assert(size(ad - n) * e <= 261 * n) by (nonlinear_arith)
            requires n * e <= ad * (e + 260), ad * e <= n * (e + 260), e == 0x1000_0000_0000_0000, n >= 0, ad >= 0;
        // the sum of both
        let y = a1.units() + p.units();
        let yd = y * d;
        assert(yd == ad + pd) by (nonlinear_arith)
            requires yd == y * d, y == a1.units() + p.units(), ad == a1.units() * d, pd == p.units() * d;
        assert(size(yd - t) * e <= 1302 * n) by (nonlinear_arith)
            requires size(ad - n) * e <= 261 * n, size(pd - mv) * e <= 1041 * dv, dv <= n, yd == ad + pd, t == n
                + mv, e > 0;
        // which is a tenth of the first one or more
        assert(10 * t >= n) by (nonlinear_arith)
            requires n == xu * vu + cu * wu, t == (xu + mu) * vu + cu * wu, xu <= 10 * d, xu + mu >= d, vu > 0,
                cu >= 0, wu >= 0;
        assert(size(yd - t) * e <= 13_020 * t);
        assert(yd > 0) by (nonlinear_arith)
            requires size(yd - t) * e <= 13_020 * t, t > 0, e > 13_020;
        assert(y > 0) by (nonlinear_arith)
            requires yd == y * d, yd > 0, d > 0;
        assert(near(yd, t, 14_000)) by (nonlinear_arith)
            requires size(yd - t) * e <= 13_020 * t, t > 0, yd > 0, e == 0x1000_0000_0000_0000, SPAN == e;
        lemma_near_times(y, s.units(), d, 129);
        lemma_near_wider(yd, sd, 129, 129);
        lemma_near_chain(sd, yd, t, 129, 14_000);
        lemma_near_wider(sd, t, 14_130, 40_000);
    }
    // at least one half
    let su = s.units();
    assert(2 * su >= d) by (nonlinear_arith)
        requires t * e <= (su * d) * (e + 40_000), t >= d * d, e == 0x1000_0000_0000_0000, d > 0, su * d >= 0;
}

/// A sum that is positive lies near the exact one.
proof fn lemma_sum_of_both_signs(p: F64, q: F64)
    requires
        p.is_finite(),
        q.is_finite(),
        (p + q).is_finite(),
    ensures
        p.units() + q.units() > 0 ==> near(p.units() + q.units(), (p + q).units(), 129),
{
    let n = p.units() + q.units();
    if n > 0 {
        crate::float::laws::law_sum_is_nearest(p, q);
        let s = p + q;
        crate::float::model::lemma_round_ratio_is(n, 1, s.enc());
        assert(s.units() == rounded(n));
        lemma_rounded_near(n);
    }
}

/// A round keeps the bounds on both quotients.
proof fn lemma_round(
    a: F64,
    x: F64,
    a2nm1: F64,
    a2n: F64,
    b2nm1: F64,
    b2n: F64,
    c: F64,
    cnt: int,
    h: int,
    k: int,
)
    requires
        ready(a, x, a2nm1, a2n, b2nm1, b2n, c, cnt),
        cnt < 0x10_0000,
        h >= 0,
        0 <= k <= 0x8_0000_0000,
        ({
            let a1 = x * a2n + c * a2nm1;
            let b1 = x * b2n + c * b2nm1;
            let cma = (c + lit(ONE)) - a;
            &&& a1.is_finite() && b1.is_finite()
            &&& (a1 + cma * a2n).is_finite() && (b1 + cma * b2n).is_finite()
        }),
    ensures
        ({
            let a1 = x * a2n + c * a2nm1;
            let b1 = x * b2n + c * b2nm1;
            let c1 = c + lit(ONE);
            let cma = c1 - a;
            let a2 = a1 + cma * a2n;
            let b2 = b1 + cma * b2n;
            &&& ready(a, x, a1, a2, b1, b2, c1, cnt + 1)
            &&& both_below(a2nm1, b2nm1, a2n, b2n, h, k) ==> both_below(a1, b1, a2, b2, h, k + 80_002)
            &&& both_above(a2nm1, b2nm1, a2n, b2n, h, k) ==> both_above(a1, b1, a2, b2, h, k + 80_002)
        }),
{
    lemma_pow2_pos(1074);
    lemma_part(1, 0);
    lemma_part(1, 1);
    let a1 = x * a2n + c * a2nm1;
    let b1 = x * b2n + c * b2nm1;
    lemma_first(x, c, a2n, a2nm1);
    lemma_first(x, c, b2n, b2nm1);
    lemma_counter(a, x, c, cnt);
    let cma = (c + lit(ONE)) - a;
    lemma_second(x, c, cma, a2n, a2nm1);
    lemma_second(x, c, cma, b2n, b2nm1);
    let a2 = a1 + cma * a2n;
    let b2 = b1 + cma * b2n;
    let xu = x.units();
    let cu = c.units();
    let wu = xu + cma.units();
    lemma_mediant(a2n.units(), b2n.units(), a2nm1.units(), b2nm1.units(), xu, cu, h, k);
    lemma_rounded_quotient(
        xu * a2n.units() + cu * a2nm1.units(),
        xu * b2n.units() + cu * b2nm1.units(),
        a1.units(),
        b1.units(),
        h,
        k,
        260,
    );
    lemma_wider(a1.units(), b1.units(), h, k + 522, k + 80_002);
    lemma_mediant(a2n.units(), b2n.units(), a2nm1.units(), b2nm1.units(), wu, cu, h, k);
    lemma_rounded_quotient(
        wu * a2n.units() + cu * a2nm1.units(),
        wu * b2n.units() + cu * b2nm1.units(),
        a2.units(),
        b2.units(),
        h,
        k,
        40_000,
    );
}

/// The quotient that a round ends with, by the bounds.
proof fn lemma_read_off(p: F64, q: F64, lo: int, k: int)
    requires
        p.is_finite() && p.units() > 0,
        q.is_finite() && q.units() > 0,
        (p / q).is_finite(),
        above(p.units(), q.units(), lo, k),
        0 <= k <= 0x8_0000_0000,
        lo >= 2 * CELL,
    ensures
        near(p.units() * pow2(1074), (p / q).units() * q.units(), 129),
        lo * SPAN <= (p / q).units() * (SPAN + (k + 130)),
        (p / q).units() > 0,
{
    let d = pow2(1074) as int;
    lemma_pow2_pos(1074);
    lemma_quotient(p, q);
    let pd = p.units() * d;
    let qu = q.units();
    let e = SPAN as int;
    assert(pd >= CELL * qu) by (nonlinear_arith)
        requires (lo * qu) * e <= pd * (e + k), k <= e, e > 0, lo >= 2 * CELL, qu > 0, pd >= 0, CELL > 0;
    lemma_round_near(pd, qu);
    let r = (p / q).units();
    lemma_order((p / q).enc() as int, 0);
    assert(lo * qu >= 0) by (nonlinear_arith)
        requires lo >= 0, qu > 0;
    assert(r * qu >= 0) by (nonlinear_arith)
        requires r >= 0, qu > 0;
    lemma_chain_half(lo * qu, pd, r * qu, k, 129, e);
    let f = e + (k + 130);
    assert((lo * e) * qu <= (r * f) * qu) by (nonlinear_arith)
        requires (lo * qu) * e <= (r * qu) * f;
    assert(lo * e <= r * f) by (nonlinear_arith)
        requires (lo * e) * qu <= (r * f) * qu, qu > 0;
    assert(r > 0) by (nonlinear_arith)
        requires lo * e <= r * f, lo > 0, e > 0, r >= 0;
}

/// From its vectors on the fraction stays between the quotients of both.
proof fn lemma_after(
    a: F64,
    x: F64,
    tol: F64,
    a2nm1: F64,
    a2n: F64,
    b2nm1: F64,
    b2n: F64,
    c: F64,
    n: u64,
    left: u64,
    cnt: int,
    hi: int,
    lo: int,
    k: int,
)
    requires
        ready(a, x, a2nm1, a2n, b2nm1, b2n, c, cnt),
        settles(a, x, tol, a2nm1, a2n, b2nm1, b2n, c, n),
        left >= n,
        cnt + n <= 0x10_0000,
        lo >= 2 * CELL,
        hi >= 0,
        0 <= k,
        k + 80_100 * n <= 0x4_0000_0000,
        both_below(a2nm1, b2nm1, a2n, b2n, hi, k),
        both_above(a2nm1, b2nm1, a2n, b2n, lo, k),
    ensures
        ({
            let s = convergents(a, x, tol, a2nm1, a2n, b2nm1, b2n, c, left);
            let j = k + 80_100 * n + 200;
            &&& s.is_finite() && s.units() > 0
            &&& s.units() * SPAN <= hi * (SPAN + j)
            &&& lo * SPAN <= s.units() * (SPAN + j)
        }),
    decreases n,
{
    let d = pow2(1074) as int;
    lemma_pow2_pos(1074);
    lemma_part(1, 1);
    let a1 = x * a2n + c * a2nm1;
    let b1 = x * b2n + c * b2nm1;
    let am0 = a1 / b1;
    let c1 = c + lit(ONE);
    let cma = c1 - a;
    let a2 = a1 + cma * a2n;
    let b2 = b1 + cma * b2n;
    let an0 = a2 / b2;
    lemma_round(a, x, a2nm1, a2n, b2nm1, b2n, c, cnt, hi, k);
    lemma_round(a, x, a2nm1, a2n, b2nm1, b2n, c, cnt, lo, k);
    if (an0 - am0).abs().lt(tol * an0) {
        lemma_read_off(a2, b2, lo, k + 80_002);
        let e = SPAN as int;
        let pd = a2.units() * d;
        let qu = b2.units();
        let r = an0.units();
        assert(r * qu >= 0 && hi * qu >= 0 && pd >= 0) by (nonlinear_arith)
            requires r >= 0, qu > 0, hi >= 0, pd == a2.units() * d, a2.units() >= 0, d > 0;
        lemma_chain_half(r * qu, pd, hi * qu, 129, k + 80_002, e);
        let f = e + (k + 80_132);
        assert((r * e) * qu <= (hi * f) * qu) by (nonlinear_arith)
            requires (r * qu) * e <= (hi * qu) * f;
        assert(r * e <= hi * f) by (nonlinear_arith)
            requires (r * e) * qu <= (hi * f) * qu, qu > 0;
        let j = k + 80_100 * n + 200;
        assert(hi * f <= hi * (e + j)) by (nonlinear_arith)
            requires hi >= 0, f <= e + j;
        assert(r * f <= r * (e + j)) by (nonlinear_arith)
            requires r >= 0, f <= e + j;
    } else {
        lemma_after(a, x, tol, a1, a2, b1, b2, c1, (n - 1) as u64, (left - 1) as u64, cnt + 1, hi, lo, k + 80_002);
        let s = convergents(a, x, tol, a1, a2, b1, b2, c1, (left - 1) as u64);
        let j1 = k + 80_002 + 80_100 * (n - 1) + 200;
        let j = k + 80_100 * n + 200;
        let e = SPAN as int;
        assert(hi * (e + j1) <= hi * (e + j)) by (nonlinear_arith)
            requires hi >= 0, j1 <= j;
        assert(s.units() * (e + j1) <= s.units() * (e + j)) by (nonlinear_arith)
            requires s.units() >= 0, j1 <= j;
    }
}

/// A finite difference lies near the exact one.
proof fn lemma_difference_is_near(p: F64, q: F64)
    requires
        p.is_finite() && q.is_finite(),
        (p - q).is_finite(),
    ensures
        near(size(p.units() - q.units()), size((p - q).units()), 129),
{
    law_negation(q);
    crate::float::laws::law_sum_is_nearest(p, q.negated());
    let n = p.units() - q.units();
    let c = p - q;
    lemma_order(c.enc() as int, 0);
    crate::float::model::lemma_round_ratio_is(size(n), 1, c.enc());
    assert(size(c.units()) == rounded(size(n)));
    lemma_rounded_near(size(n));
}

/// Where two convergents agree, by how much.
proof fn lemma_gap(an0: F64, am0: F64, tol: F64, kw: int)
    requires
        an0.is_finite() && an0.units() >= part(1, 13),
        am0.is_finite(),
        tol.is_finite() && tol.units() >= part(1, 60),
        tol.units() <= kw * pow2(1014),
        0 <= kw,
        1950 * kw <= SPAN,
        (an0 - am0).abs().lt(tol * an0),
    ensures
        size(an0.units() - am0.units()) * SPAN <= an0.units() * (kw + 2),
{
    broadcast use lemma_lt_units;
    lemma_small_powers();
    lemma_fractions();
    lemma_part(1, 60);
    lemma_part(1, 13);
    let d = pow2(1074) as int;
    let u = pow2(1014) as int;
    lemma_pow2_pos(1074);
    let e = SPAN as int;
    let t = tol * an0;
    lemma_product(tol, an0);
    let r = an0.units();
    let num = tol.units() * r;
    assert(num >= CELL * d) by {
        lemma_pow2_adds(1014, 1061);
        lemma_pow2_adds(52, 1074);
        vstd::arithmetic::power2::lemma_pow2_strictly_increases(1126, 2075);
        assert(num >= pow2(1014) * pow2(1061)) by (nonlinear_arith)
            requires num == tol.units() * r, tol.units() >= pow2(1014), r >= pow2(1061);
    }
    assert(tol.units() <= d) by (nonlinear_arith)
        requires tol.units() <= kw * u, 1950 * kw <= e, d == e * u, u > 0, kw >= 0;
    assert(num <= r * d) by (nonlinear_arith)
        requires num == tol.units() * r, tol.units() <= d, r >= 0;
    crate::float::signed::lemma_units_representable(an0);
    lemma_ratio_le(num, d, r);
    lemma_order(t.enc() as int, an0.enc() as int);
    lemma_order(t.enc() as int, INF_ENC as int);
    lemma_order(an0.enc() as int, INF_ENC as int);
    assert(t.is_finite());
    lemma_round_near(num, d);
    let c = an0 - am0;
    law_negation(c);
    lemma_order(c.enc() as int, 0);
    assert(c.is_finite()) by {
        lemma_order(c.enc() as int, INF_ENC as int);
        lemma_order(c.enc() as int, t.enc() as int);
    }
    lemma_difference_is_near(an0, am0);
    let n = size(an0.units() - am0.units());
    let tu = t.units();
    assert(n * e <= tu * (e + 129)) by (nonlinear_arith)
        requires n * e <= size(c.units()) * (e + 129), size(c.units()) <= tu, e > 0;
    let nd = n * d;
    assert(nd * e <= (tu * d) * (e + 129)) by (nonlinear_arith)
        requires n * e <= tu * (e + 129), nd == n * d, d > 0;
    assert(nd >= 0 && tu * d >= 0) by (nonlinear_arith)
        requires nd == n * d, n >= 0, d > 0, tu >= 0;
    lemma_chain_half(nd, tu * d, num, 129, 129, e);
    let f = e + 259;
    assert(num <= (kw * u) * r) by (nonlinear_arith)
        requires num == tol.units() * r, tol.units() <= kw * u, r >= 0;
    assert(((n * e) * e) * u <= ((kw * r) * f) * u) by (nonlinear_arith)
        requires nd * e <= num * f, nd == n * d, d == e * u, num <= (kw * u) * r, f > 0;
    assert((n * e) * e <= (kw * r) * f) by (nonlinear_arith)
        requires ((n * e) * e) * u <= ((kw * r) * f) * u, u > 0;
    assert((kw * r) * f <= (r * (kw + 2)) * e) by (nonlinear_arith)
        requires f == e + 259, 1950 * kw <= e, kw >= 0, r >= 0, e > 0;
    assert(n * e <= r * (kw + 2)) by (nonlinear_arith)
        requires (n * e) * e <= (r * (kw + 2)) * e, e > 0;
}

/// How far what stays between two near numbers can be from one of them.
proof fn lemma_close(r: int, m: int, s: int, g: int, j: int)
    requires
        r > 0,
        m > 0,
        s > 0,
        size(r - m) * SPAN <= r * g,
        0 <= g,
        1900 * g <= SPAN,
        0 <= j <= 0x100_0000,
        s * SPAN <= (if r >= m {
            r
        } else {
            m
        }) * (SPAN + j),
        (if r >= m {
            m
        } else {
            r
        }) * SPAN <= s * (SPAN + j),
    ensures
        near(r, s, g + g / 1000 + j + 9000),
{
    let e = SPAN as int;
    let q = g / 1000;
    let k = g + q + j + 9000;
    let hi = if r >= m {
        r
    } else {
        m
    };
    let lo = if r >= m {
        m
    } else {
        r
    };
    assert(hi * e <= r * (e + g)) by (nonlinear_arith)
        requires hi <= r + size(r - m), size(r - m) * e <= r * g, e > 0;
    assert(r * (e - g) <= lo * e) by (nonlinear_arith)
        requires lo >= r - size(r - m), size(r - m) * e <= r * g, e > 0;
    // above
    assert((s * e) * e <= (hi * e) * (e + j)) by (nonlinear_arith)
        requires s * e <= hi * (e + j), e > 0;
    assert((hi * e) * (e + j) <= (r * (e + g)) * (e + j)) by (nonlinear_arith)
        requires hi * e <= r * (e + g), e + j > 0;
    assert(g * j <= 8900 * e) by (nonlinear_arith)
        requires 1900 * g <= e, 0 <= j <= 0x100_0000, g >= 0;
    assert((e + g) * (e + j) <= e * (e + k)) by (nonlinear_arith)
        requires g * j <= 8900 * e, k >= g + j + 9000, e > 0;
    assert((r * (e + g)) * (e + j) <= (r * (e + k)) * e) by (nonlinear_arith)
        requires (e + g) * (e + j) <= e * (e + k), r > 0;
    assert(s * e <= r * (e + k)) by (nonlinear_arith)
        requires (s * e) * e <= (r * (e + k)) * e, e > 0;
    // below
    let kg = k * g;
    assert(1900 * kg <= e * k) by (nonlinear_arith)
        requires kg == k * g, 1900 * g <= e, k >= 0;
    assert(e * k <= e * (1900 * (q + 9000))) by (nonlinear_arith)
        requires k <= 1900 * (q + 9000), e > 0;
    assert(kg <= e * (q + 9000)) by (nonlinear_arith)
        requires 1900 * kg <= e * (1900 * (q + 9000));
    assert((e + j) * e <= (e + k) * (e - g)) by (nonlinear_arith)
        requires kg == k * g, kg <= e * (q + 9000), k == g + q + j + 9000;
    let w = e - g;
    assert((r * w) * e <= (s * (e + j)) * e) by (nonlinear_arith)
        requires r * w <= lo * e, lo * e <= s * (e + j), e > 0;
    assert((s * (e + j)) * e <= (s * (e + k)) * w) by (nonlinear_arith)
        requires (e + j) * e <= (e + k) * w, s > 0;
    assert(r * e <= s * (e + k)) by (nonlinear_arith)
        requires (r * w) * e <= (s * (e + k)) * w, w > 0;
}

/// How far the fraction at a wider tolerance can be from that at a finer one, in units of
/// 2^-60 of it.
pub open spec fn fraction_off(kw: int) -> int {
    (kw + 2) + (kw + 2) / 1000 + 17_000_000
}

proof fn lemma_both(
    a: F64,
    x: F64,
    wide: F64,
    fine: F64,
    a2nm1: F64,
    a2n: F64,
    b2nm1: F64,
    b2n: F64,
    c: F64,
    n: u64,
    left: u64,
    cnt: int,
    k: int,
    kw: int,
)
    requires
        ready(a, x, a2nm1, a2n, b2nm1, b2n, c, cnt),
        settles(a, x, fine, a2nm1, a2n, b2nm1, b2n, c, n),
        n <= 200,
        left >= n,
        cnt + n <= 0x10_0000,
        0 <= k,
        k + 80_100 * n <= 0x4_0000_0000,
        both_above(a2nm1, b2nm1, a2n, b2n, part(1, 12), k),
        fine.is_finite() && wide.is_finite() && part(1, 60) <= fine.units() <= wide.units(),
        wide.units() <= kw * pow2(1014),
        0 <= kw,
        1950 * kw + 4000 <= SPAN,
    ensures
        ({
            let r = convergents(a, x, wide, a2nm1, a2n, b2nm1, b2n, c, left);
            let s = convergents(a, x, fine, a2nm1, a2n, b2nm1, b2n, c, left);
            &&& r.is_finite() && r.units() >= part(1, 13)
            &&& s.is_finite() && s.units() > 0
            &&& near(r.units(), s.units(), fraction_off(kw))
        }),
    decreases n,
{
    broadcast use lemma_lt_units;
    lemma_small_powers();
    let d = pow2(1074) as int;
    lemma_pow2_pos(1074);
    lemma_part(1, 1);
    lemma_part(1, 12);
    lemma_part(1, 13);
    lemma_part(1, 60);
    lemma_pow2_adds(1, 1061);
    let a1 = x * a2n + c * a2nm1;
    let b1 = x * b2n + c * b2nm1;
    let am0 = a1 / b1;
    let c1 = c + lit(ONE);
    let cma = c1 - a;
    let a2 = a1 + cma * a2n;
    let b2 = b1 + cma * b2n;
    let an0 = a2 / b2;
    let h0 = part(1, 12);
    lemma_round(a, x, a2nm1, a2n, b2nm1, b2n, c, cnt, h0, k);
    lemma_pow2_adds(52, 1010);
    lemma_pow2_pos(1010);
    vstd::arithmetic::power2::lemma_pow2_strictly_increases(2, 1008);
    assert(part(1, 13) >= 2 * CELL) by {
        lemma_pow2_adds(53, 1008);
        lemma_pow2_pos(1008);
        assert(pow2(1061) >= 2 * CELL) by (nonlinear_arith)
            requires pow2(1061) == pow2(53) * pow2(1008), pow2(53) == 2 * CELL, pow2(1008) >= 1, CELL > 0;
    }
    lemma_read_off(a1, b1, h0, k + 80_002);
    lemma_read_off(a2, b2, h0, k + 80_002);
    let r = an0.units();
    let m = am0.units();
    let e = SPAN as int;
    assert(r >= part(1, 13)) by (nonlinear_arith)
        requires h0 * e <= r * (e + (k + 80_132)), k + 80_132 <= e, h0 == 2 * part(1, 13), e > 0, r > 0;
    assert(m >= part(1, 13)) by (nonlinear_arith)
        requires h0 * e <= m * (e + (k + 80_132)), k + 80_132 <= e, h0 == 2 * part(1, 13), e > 0, m > 0;
    lemma_products_in_order(fine, wide, an0);
    lemma_product(fine, an0);
    lemma_product(wide, an0);
    let gap = (an0 - am0).abs();
    assert(gap.lt(fine * an0) ==> gap.lt(wide * an0));
    if (an0 - am0).abs().lt(wide * an0) {
        if (an0 - am0).abs().lt(fine * an0) {
            lemma_near_self(r, fraction_off(kw));
        } else {
            lemma_gap(an0, am0, wide, kw);
            let hi = if r >= m {
                r
            } else {
                m
            };
            let lo = if r >= m {
                m
            } else {
                r
            };
            lemma_between(a1.units(), b1.units(), m, hi, lo);
            lemma_between(a2.units(), b2.units(), r, hi, lo);
            lemma_after(a, x, fine, a1, a2, b1, b2, c1, (n - 1) as u64, (left - 1) as u64, cnt + 1, hi, lo, 129);
            let s = convergents(a, x, fine, a1, a2, b1, b2, c1, (left - 1) as u64);
            let j = 129 + 80_100 * (n - 1) + 200;
            lemma_close(r, m, s.units(), kw + 2, j);
            lemma_near_wider(r, s.units(), kw + 2 + (kw + 2) / 1000 + j + 9000, fraction_off(kw));
        }
    } else {
        lemma_both(a, x, wide, fine, a1, a2, b1, b2, c1, (n - 1) as u64, (left - 1) as u64, cnt + 1, k + 80_002, kw);
    }
}

proof fn lemma_between(p: int, q: int, r: int, hi: int, lo: int)
    requires
        near(p * pow2(1074), r * q, 129),
        lo <= r <= hi,
        q > 0,
        lo >= 0,
    ensures
        below(p, q, hi, 129),
        above(p, q, lo, 129),
{
    let e = SPAN as int;
    assert((r * q) * (e + 129) <= (hi * q) * (e + 129)) by (nonlinear_arith)
        requires r <= hi, q > 0, e > 0;
    assert((lo * q) * e <= (r * q) * e) by (nonlinear_arith)
        requires lo <= r, q > 0, e > 0;
}

/// The fraction from its start, with two tolerances.
proof fn lemma_whole_fraction(a: F64, x: F64, wide: F64, fine: F64, kw: int)
    requires
        a.is_finite() && 0 < a.units(),
        x.is_finite() && part(1, 0) <= x.units() <= part(1024, 0),
        a.units() <= part(1, 0) || a.units() <= x.units() <= part(10, 0),
        settles(a, x, fine, lit(ONE), lit(ONE), x, x + (lit(ONE) - a), lit(ONE), 200),
        fine.is_finite() && wide.is_finite() && part(1, 60) <= fine.units() <= wide.units(),
        wide.units() <= kw * pow2(1014),
        0 <= kw,
        1950 * kw + 4000 <= SPAN,
    ensures
        ({
            let y = x + (lit(ONE) - a);
            let r = convergents(a, x, wide, lit(ONE), lit(ONE), x, y, lit(ONE), PATIENCE);
            let s = convergents(a, x, fine, lit(ONE), lit(ONE), x, y, lit(ONE), PATIENCE);
            &&& r.is_finite() && r.units() >= part(1, 13)
            &&& s.is_finite() && s.units() > 0
            &&& near(r.units(), s.units(), fraction_off(kw))
        }),
{
    lemma_small_powers();
    lemma2_to64();
    let d = pow2(1074) as int;
    lemma_pow2_pos(1074);
    lemma_literal(ONE, 1022, 0x10_0000_0000_0000, 52, 1, 1, 0);
    lemma_part(1, 0);
    lemma_part(1, 1);
    lemma_part(1024, 0);
    lemma_part(1025, 0);
    lemma_part(10, 0);
    lemma_part(128, 0);
    lemma_fractions();
    lemma_pow2_adds(1, 1073);
    law_negation(a);
    let one = lit(ONE);
    let n = d - a.units();
    lemma_sum_units(one, a.negated());
    let z = one - a;
    lemma_fine_grid(n);
    lemma_rounded(n, part(1, 0));
    lemma_rounded(part(1, 0), 0);
    lemma_rounded(0, n);
    lemma_sum_units(x, z);
    let y = x + z;
    let k = x.units() + z.units();
    lemma_rounded(part(1, 1), k);
    lemma_rounded(part(1, 1), 0);
    lemma_rounded(k, part(1025, 0));
    lemma_rounded(part(1025, 0), 0);
    let h0 = part(1, 12);
    lemma_pow2_adds(12, 1062);
    assert(d == 4096 * h0);
    let e = SPAN as int;
    assert(above(d, x.units(), h0, 0)) by {
        let b = x.units();
        assert((h0 * b) * e <= (d * d) * (e + 0)) by (nonlinear_arith)
            requires d == 4096 * h0, 0 <= b <= 1024 * d, h0 >= 0, e > 0;
    }
    assert(above(d, y.units(), h0, 0)) by {
        let b = y.units();
        assert((h0 * b) * e <= (d * d) * (e + 0)) by (nonlinear_arith)
            requires d == 4096 * h0, 0 <= b <= 1025 * d, h0 >= 0, e > 0;
    }
    lemma_both(a, x, wide, fine, one, one, x, y, one, 200, PATIENCE, 1, 0, kw);
}

/// The upper ratio from the fraction hardly depends on the tolerance.
proof fn lemma_fraction_close(a: F64, x: F64, r: F64, wide: F64, fine: F64, kw: int)
    requires
        a.is_finite() && 0 < a.units(),
        x.is_finite() && part(1, 0) <= x.units() <= part(1024, 0),
        a.units() <= part(1, 0) || a.units() <= x.units() <= part(10, 0),
        settles(a, x, fine, lit(ONE), lit(ONE), x, x + (lit(ONE) - a), lit(ONE), 200),
        fine.is_finite() && wide.is_finite() && part(1, 48) <= fine.units() <= wide.units(),
        wide.units() <= kw * pow2(1014),
        0 <= kw <= 0x2_0C50_0000_0000,
        at_least(r, 1, 1000),
        at_most(r, 1, 0),
    ensures
        near(
            continued_fraction(a, x, r, wide, lit(EPSILON)).1.units(),
            continued_fraction(a, x, r, fine, lit(EPSILON)).1.units(),
            fraction_off(kw) + 264,
        ),
        continued_fraction(a, x, r, wide, lit(EPSILON)).1.is_finite(),
        continued_fraction(a, x, r, fine, lit(EPSILON)).1.is_finite(),
{
    broadcast use lemma_lt_units;
    reveal(continued_fraction_spec);
    lemma_small_powers();
    lemma2_to64();
    lemma2_to64_rest();
    lemma_part(1, 48);
    lemma_part(1, 1000);
    let d = pow2(1074) as int;
    lemma_pow2_pos(1074);
    lemma_literal(EPSILON, 970, 0x10_0000_0000_0000, 52, 1, 1, 52);
    lemma_literal(FIVE, 1024, 0x14_0000_0000_0000, 50, 5, 5, 0);
    lemma_product_at_most(lit(FIVE), lit(EPSILON), 5, 0, 1, 52);
    lemma_pow2_adds(4, 1022);
    lemma_pow2_pos(1022);
    assert((lit(FIVE) * lit(EPSILON)).max(wide) == wide);
    assert((lit(FIVE) * lit(EPSILON)).max(fine) == fine);
    vstd::arithmetic::power2::lemma_pow2_strictly_increases(1014, 1026);
    lemma_whole_fraction(a, x, wide, fine, kw);
    let y = x + (lit(ONE) - a);
    let v = convergents(a, x, wide, lit(ONE), lit(ONE), x, y, lit(ONE), PATIENCE);
    let w = convergents(a, x, fine, lit(ONE), lit(ONE), x, y, lit(ONE), PATIENCE);
    let k = fraction_off(kw);
    let e = SPAN as int;
    lemma_part(1, 13);
    lemma_pow2_adds(1, 1060);
    assert(2 * w.units() >= v.units()) by (nonlinear_arith)
        requires v.units() * e <= w.units() * (e + k), k <= e, e > 0, w.units() > 0;
    lemma_scale_normal(r, v);
    lemma_scale_normal(r, w);
    lemma_near_times(v.units(), w.units(), r.units(), k);
    assert(v.units() * r.units() == r.units() * v.units()) by (nonlinear_arith);
    assert(w.units() * r.units() == r.units() * w.units()) by (nonlinear_arith);
    let n1 = r.units() * v.units();
    let n2 = r.units() * w.units();
    lemma_product(r, v);
    lemma_product(r, w);
    lemma_round_near(n1, d);
    lemma_round_near(n2, d);
    lemma_both_rounded(n1, n2, (r * v).units() * d, (r * w).units() * d, k);
    lemma_order((r * v).enc() as int, 0);
    lemma_order((r * w).enc() as int, 0);
    lemma_near_cancel((r * v).units(), (r * w).units(), d, k + 264);
}

/// A number between 2^-1000 and one, times one that is not tiny, is normal.
proof fn lemma_scale_normal(r: F64, v: F64)
    requires
        at_least(r, 1, 1000),
        at_most(r, 1, 0),
        v.is_finite() && v.units() >= part(1, 14),
    ensures
        (r * v).is_finite(),
        r.units() * v.units() >= CELL * pow2(1074),
{
    lemma_small_powers();
    lemma_part(1, 1000);
    lemma_part(1, 14);
    let d = pow2(1074) as int;
    lemma_pow2_pos(1074);
    lemma_product(r, v);
    crate::float::signed::lemma_units_representable(v);
    assert(r.units() * v.units() <= v.units() * d) by (nonlinear_arith)
        requires r.units() <= d, v.units() >= 0;
    lemma_ratio_le(r.units() * v.units(), d, v.units());
    lemma_order((r * v).enc() as int, v.enc() as int);
    lemma_order(v.enc() as int, INF_ENC as int);
    lemma_order((r * v).enc() as int, INF_ENC as int);
    lemma_pow2_adds(74, 1060);
    lemma_pow2_adds(52, 1074);
    vstd::arithmetic::power2::lemma_pow2_strictly_increases(1126, 1134);
    assert(r.units() * v.units() >= pow2(74) * pow2(1060)) by (nonlinear_arith)
        requires r.units() >= pow2(74), v.units() >= pow2(1060);
}

/// What the upper ratio is a multiple of, in its continued fraction.
pub open spec fn fraction_scale<M: Fn(Elementary) -> F64>(m: &M, a: F64, x: F64) -> F64 {
    if a.lt(lit(ONE)) {
        a * exp(m, a * ln(m, x) - x) * (lit(ONE) + gam1(a))
    } else {
        exp(m, a * ln(m, x) - x) / gamma_value(m, a)
    }
}

/// The continued fraction is taken at all three accuracies.
pub open spec fn takes_fraction(a: F64, x: F64) -> bool {
    if a.lt(lit(ONE)) {
        !a.equals(lit(HALF)) && !x.lt(lit(ELEVEN_TENTHS)) && x.le(lit(KILO))
    } else {
        &&& a.lt(lit(NEAR_TEN)) && x.lt(lit(NEAR_TEN))
        &&& x.gt(a.max(lit(ALOG10)))
        &&& !is_finite_sum(a, x)
    }
}

/// The bits of 1024.
pub const KILO: u64 = 0x4090_0000_0000_0000;

/// Where the ratios come of the continued fraction of the upper one, this is within 1e-6 of
/// itself at six digits, and within 1e-3 at three; so is the lower one, as a part of one. The
/// fraction is that for a parameter below one and an argument from 1.1 on, and for a parameter
/// from 1 up to 9.7 and an argument below 9.7 but beyond it and the logarithm of ten.
pub proof fn law_accuracy_of_fraction<M: Fn(Elementary) -> F64>(m: &M, a: F64, x: F64)
    requires
        a.gt(lit(ZERO)),
        takes_fraction(a, x),
        settles(a, x, lit(MAX_ACC), lit(ONE), lit(ONE), x, x + (lit(ONE) - a), lit(ONE), 200),
        at_least(fraction_scale(m, a, x), 1, 1000),
        at_most(fraction_scale(m, a, x), 1, 0),
    ensures
        ({
            let f = gamma_inc_core(m, a, x, GammaIncAcc::Max);
            let s = gamma_inc_core(m, a, x, GammaIncAcc::Digits6);
            let t = gamma_inc_core(m, a, x, GammaIncAcc::Digits3);
            &&& near(s.1.units(), f.1.units(), SPAN as int / 1_000_000)
            &&& near(t.1.units(), f.1.units(), SPAN as int / 1_000)
            &&& s.0 == complement(s.1) && t.0 == complement(t.1) && f.0 == complement(f.1)
            &&& at_most(f.1, 1, 0) && at_most(s.1, 1, 0) ==> 1_000_000 * size(s.0.units() - f.0.units())
                <= part(1, 0)
            &&& at_most(f.1, 1, 0) && at_most(t.1, 1, 0) ==> 1_000 * size(t.0.units() - f.0.units())
                <= part(1, 0)
        }),
{
    broadcast use lemma_lt_units;
    broadcast use lemma_le_units;
    broadcast use lemma_equals_units;
    lemma_mag_zero(0);
    lemma_small_powers();
    lemma2_to64();
    lemma2_to64_rest();
    lemma_fractions();
    lemma_tolerances();
    reveal(gamma_inc_core_spec);
    reveal(below_one_spec);
    reveal(moderate_spec);
    reveal(from_scale_spec);
    lemma_fraction_branches(a, x);
    let r = fraction_scale(m, a, x);
    lemma_part(1, 1000);
    if a.lt(lit(ONE)) {
        let u = a * exp(m, a * ln(m, x) - x);
        assert(!u.equals(lit(ZERO))) by {
            if u.equals(lit(ZERO)) {
                lemma_zero_times(u, lit(ONE) + gam1(a));
            }
        }
    }
    let f = gamma_inc_core(m, a, x, GammaIncAcc::Max);
    let s = gamma_inc_core(m, a, x, GammaIncAcc::Digits6);
    let t = gamma_inc_core(m, a, x, GammaIncAcc::Digits3);
    assert(f == continued_fraction(a, x, r, lit(MAX_ACC), lit(EPSILON)));
    assert(s == continued_fraction(a, x, r, lit(SIX_ACC), lit(EPSILON)));
    assert(t == continued_fraction(a, x, r, lit(THREE_ACC), lit(EPSILON)));
    lemma_literal(MAX_ACC, 974, 0x16849b86a12b9b, 52, 1, 2, 48);
    lemma_literal(SIX_ACC, 1001, 0x10c6f7a0b5ed8d, 14, 288230376151, 288230376152, 59);
    lemma_literal(THREE_ACC, 1011, 0x10624dd2f1a9fc, 4, 288230376151711, 288230376151712, 59);
    lemma_pow2_adds(1, 1014);
    lemma_order(MAX_ACC as int, SIX_ACC as int);
    lemma_order(MAX_ACC as int, THREE_ACC as int);
    lemma_fraction_close(a, x, r, lit(SIX_ACC), lit(MAX_ACC), 576460752304);
    lemma_fraction_close(a, x, r, lit(THREE_ACC), lit(MAX_ACC), 576460752303424);
    reveal(continued_fraction_spec);
    assert(fraction_off(576460752304) == 577054213058);
    assert(fraction_off(576460752303424) == 577037230055729);
    lemma_uppers_close(s.1, f.1, 577054213322);
    lemma_uppers_close(t.1, f.1, 577037230055993);
    lemma_near_wider(s.1.units(), f.1.units(), 577054213322, SPAN as int / 1_000_000);
    lemma_near_wider(t.1.units(), f.1.units(), 577037230055993, SPAN as int / 1_000);
}

/// Nothing times a number is nothing.
proof fn lemma_zero_times(u: F64, g: F64)
    requires
        u.equals(lit(ZERO)),
    ensures
        !at_least(u * g, 1, 1000),
{
    broadcast use lemma_equals_units;
    lemma_mag_zero(0);
    lemma_part(1, 1000);
    lemma_order(u.enc() as int, 0);
    if g.is_finite() {
        crate::float::laws::law_product_is_nearest(u, g);
        lemma_pow2_pos(1074);
        let n = mag(u.enc() as int) * mag(g.enc() as int);
        assert(n == 0) by (nonlinear_arith)
            requires n == mag(u.enc() as int) * mag(g.enc() as int), mag(u.enc() as int) == 0;
        crate::float::arith::lemma_round_zero(pow2(1074) as int);
        crate::float::model::lemma_round_ratio_is(0, pow2(1074) as int, (u * g).enc());
    } else {
        reveal(F64::spec_mul);
    }
}

/// The bounds that go with the continued fraction.
proof fn lemma_fraction_branches(a: F64, x: F64)
    requires
        a.gt(lit(ZERO)),
        takes_fraction(a, x),
    ensures
        !(a * x).equals(lit(ZERO)),
        a.is_finite() && 0 < a.units(),
        x.is_finite() && part(1, 0) <= x.units() <= part(1024, 0),
        a.units() <= part(1, 0) || a.units() <= x.units() <= part(10, 0),
        !a.lt(lit(ONE)) ==> {
            &&& a.lt(lit(0x4034_0000_0000_0000)) && a.lt(lit(0x402C_0000_0000_0000)) && a.lt(lit(TEN))
            &&& x.lt(lit(0x403F_0000_0000_0000)) && x.lt(lit(0x4031_0000_0000_0000))
            &&& !x.le(a.max(lit(ALOG10)))
        },
{
    broadcast use lemma_lt_units;
    broadcast use lemma_le_units;
    broadcast use lemma_equals_units;
    lemma_small_powers();
    lemma_mag_zero(0);
    lemma_literal(ONE, 1022, 0x10_0000_0000_0000, 52, 1, 1, 0);
    lemma_literal(KILO, 1032, 0x10_0000_0000_0000, 42, 1024, 1024, 0);
    lemma_literal(TEN, 1025, 0x14_0000_0000_0000, 49, 10, 10, 0);
    lemma_literal(ALOG10, 1023, 0x12_6BB1_BBB5_551F, 51, 2, 3, 0);
    lemma_literal(ELEVEN_TENTHS, 1022, 0x11_9999_9999_999A, 52, 1, 2, 0);
    lemma_pow2_pos(1074);
    lemma_order(NEAR_TEN as int, TEN as int);
    lemma_order(NEAR_TEN as int, 0x4034_0000_0000_0000);
    lemma_order(NEAR_TEN as int, 0x402C_0000_0000_0000);
    lemma_order(NEAR_TEN as int, 0x403F_0000_0000_0000);
    lemma_order(NEAR_TEN as int, 0x4031_0000_0000_0000);
    lemma_order(NEAR_TEN as int, KILO as int);
    lemma_order(KILO as int, INF_ENC as int);
    lemma_order(x.enc() as int, KILO as int);
    lemma_order(a.enc() as int, NEAR_TEN as int);
    lemma_order(NEAR_TEN as int, INF_ENC as int);
    lemma_order(a.enc() as int, INF_ENC as int);
    lemma_order(x.enc() as int, INF_ENC as int);
    lemma_product(a, x);
    let d = pow2(1074) as int;
    assert(a.units() * d <= a.units() * x.units()) by (nonlinear_arith)
        requires x.units() >= d, a.units() > 0;
    crate::float::signed::lemma_units_representable(a);
    lemma_ratio_ge(a.units() * x.units(), d, a.units());
}

} // verus!
