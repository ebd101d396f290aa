//! Numbers that lie near each other in proportion to their size.
use super::bounds::{
    at_least, at_most, lemma_literal, lemma_part, lemma_product, lemma_product_at_most,
    lemma_quotient, lemma_ratio_ge, lemma_sum_at_most, part,
};
use super::laws::law_rounding_is_nearest;
use super::model::{
    lemma_cell_of, lemma_mag_cell, mag, round_ratio, scale, significand, CELL, INF_ENC,
};
use super::number::{lemma_order, lit, F64};
use super::round::lemma_powers;
use super::signed::{lemma_representable, lemma_rounded, lemma_sum_units, rounded};
use vstd::arithmetic::power2::{
    lemma2_to64, lemma2_to64_rest, lemma_pow2_adds, lemma_pow2_pos, lemma_pow2_strictly_increases,
    pow2,
};
use vstd::prelude::*;

verus! {

/// 2^60, below a relative distance.
pub const SPAN: u64 = 0x1000_0000_0000_0000;

/// Neither of two numbers that are not negative exceeds the other by more than `k / 2^60`
/// of it.
pub open spec fn near(a: int, b: int, k: int) -> bool {
    &&& a >= 0 && b >= 0 && k >= 0
    &&& a * SPAN <= b * (SPAN + k)
    &&& b * SPAN <= a * (SPAN + k)
}

pub proof fn lemma_near_wider(a: int, b: int, k: int, j: int)
    requires
        near(a, b, k),
        k <= j,
    ensures
        near(a, b, j),
        near(b, a, j),
{
    let e = SPAN as int;
    assert(b * (e + k) <= b * (e + j)) by (nonlinear_arith)
        requires b >= 0, k <= j;
    assert(a * (e + k) <= a * (e + j)) by (nonlinear_arith)
        requires a >= 0, k <= j;
}

/// Two relative distances one after the other.
proof fn lemma_two_distances(k: int, j: int, e: int)
    requires
        0 <= k,
        0 <= j,
        k * j <= e,
    ensures
        (e + k) * (e + j) <= e * (e + (k + j + 1)),
{
    assert((e + k) * (e + j) == e * e + e * j + k * e + k * j) by (nonlinear_arith);
    assert(e * (e + (k + j + 1)) == e * e + e * k + e * j + e) by (nonlinear_arith);
    assert(k * e == e * k) by (nonlinear_arith);
}

pub proof fn lemma_chain_half(a: int, b: int, c: int, k: int, j: int, e: int)
    requires
        a >= 0,
        b >= 0,
        c >= 0,
        k >= 0,
        j >= 0,
        e > 0,
        k * j <= e,
        a * e <= b * (e + k),
        b * e <= c * (e + j),
    ensures
        a * e <= c * (e + (k + j + 1)),
{
    lemma_two_distances(k, j, e);
    let s = e + (k + j + 1);
    assert((a * e) * e <= (b * (e + k)) * e) by (nonlinear_arith)
        requires a * e <= b * (e + k), e > 0;
    assert((b * (e + k)) * e == (b * e) * (e + k)) by (nonlinear_arith);
    assert((b * e) * (e + k) <= (c * (e + j)) * (e + k)) by (nonlinear_arith)
        requires b * e <= c * (e + j), e + k > 0;
    assert((c * (e + j)) * (e + k) == c * ((e + k) * (e + j))) by (nonlinear_arith);
    assert(c * ((e + k) * (e + j)) <= c * (e * s)) by (nonlinear_arith)
        requires (e + k) * (e + j) <= e * s, c >= 0;
    assert(c * (e * s) == (c * s) * e) by (nonlinear_arith);
    assert(a * e <= c * s) by (nonlinear_arith)
        requires (a * e) * e <= (c * s) * e, e > 0;
}

pub proof fn lemma_near_chain(a: int, b: int, c: int, k: int, j: int)
    requires
        near(a, b, k),
        near(b, c, j),
        k * j <= SPAN,
    ensures
        near(a, c, k + j + 1),
{
    let e = SPAN as int;
    lemma_chain_half(a, b, c, k, j, e);
    assert(j * k == k * j) by (nonlinear_arith);
    lemma_chain_half(c, b, a, j, k, e);
}

proof fn lemma_product_half(a: int, a2: int, b: int, b2: int, k: int, j: int, e: int)
    requires
        a >= 0,
        a2 >= 0,
        b >= 0,
        b2 >= 0,
        k >= 0,
        j >= 0,
        e > 0,
        k * j <= e,
        a * e <= a2 * (e + k),
        b * e <= b2 * (e + j),
    ensures
        (a * b) * e <= (a2 * b2) * (e + (k + j + 1)),
{
    lemma_two_distances(k, j, e);
    let s = e + (k + j + 1);
    assert((a * e) * (b * e) <= (a2 * (e + k)) * (b2 * (e + j))) by (nonlinear_arith)
        requires 0 <= a * e <= a2 * (e + k), 0 <= b * e <= b2 * (e + j), a >= 0, b >= 0, e > 0;
    assert((a2 * (e + k)) * (b2 * (e + j)) == (a2 * b2) * ((e + k) * (e + j))) by (nonlinear_arith);
    let c = a2 * b2;
    assert(c >= 0) by (nonlinear_arith)
        requires c == a2 * b2, a2 >= 0, b2 >= 0;
    assert(c * ((e + k) * (e + j)) <= c * (e * s)) by (nonlinear_arith)
        requires (e + k) * (e + j) <= e * s, c >= 0;
    assert(c * (e * s) == (c * s) * e) by (nonlinear_arith);
    assert((a * e) * (b * e) == ((a * b) * e) * e) by (nonlinear_arith);
    assert((a * b) * e <= c * s) by (nonlinear_arith)
        requires ((a * b) * e) * e <= (c * s) * e, e > 0;
}

pub proof fn lemma_near_product(a: int, a2: int, b: int, b2: int, k: int, j: int)
    requires
        near(a, a2, k),
        near(b, b2, j),
        k * j <= SPAN,
    ensures
        near(a * b, a2 * b2, k + j + 1),
{
    let e = SPAN as int;
    assert(a * e >= 0 && b * e >= 0 && a2 * e >= 0 && b2 * e >= 0);
    lemma_product_half(a, a2, b, b2, k, j, e);
    lemma_product_half(a2, a, b2, b, k, j, e);
    assert(a * b >= 0 && a2 * b2 >= 0) by (nonlinear_arith)
        requires a >= 0, b >= 0, a2 >= 0, b2 >= 0;
}

pub proof fn lemma_near_sum(a: int, a2: int, b: int, b2: int, k: int)
    requires
        near(a, a2, k),
        near(b, b2, k),
    ensures
        near(a + b, a2 + b2, k),
{
    let s = SPAN + k;
    assert((a2 + b2) * s == a2 * s + b2 * s) by (nonlinear_arith);
    assert((a + b) * s == a * s + b * s) by (nonlinear_arith);
}

pub proof fn lemma_near_self(a: int, k: int)
    requires
        a >= 0,
        k >= 0,
    ensures
        near(a, a, k),
{
    assert(a * SPAN <= a * (SPAN + k)) by (nonlinear_arith)
        requires a >= 0, k >= 0;
}

/// A common factor can be taken out.
pub proof fn lemma_near_cancel(a: int, b: int, c: int, k: int)
    requires
        near(a * c, b * c, k),
        a >= 0,
        b >= 0,
        c > 0,
    ensures
        near(a, b, k),
{
    let e = SPAN as int;
    let s = e + k;
    assert((a * c) * e == (a * e) * c) by (nonlinear_arith);
    assert((b * c) * e == (b * e) * c) by (nonlinear_arith);
    assert((a * c) * s == (a * s) * c) by (nonlinear_arith);
    assert((b * c) * s == (b * s) * c) by (nonlinear_arith);
    assert(a * e <= b * s) by (nonlinear_arith)
        requires (a * e) * c <= (b * s) * c, c > 0;
    assert(b * e <= a * s) by (nonlinear_arith)
        requires (b * e) * c <= (a * s) * c, c > 0;
}

/// What is taken from a constant, where it is no larger than what is left.
pub proof fn lemma_near_rest(c: int, r: int, r2: int, k: int)
    requires
        near(r, r2, k),
        r <= c - r2,
        r2 <= c - r,
    ensures
        near(c - r, c - r2, k),
{
    let e = SPAN as int;
    let w = c - r;
    let w2 = c - r2;
    assert(r2 * (e + k) == r2 * e + r2 * k) by (nonlinear_arith);
    assert(r * (e + k) == r * e + r * k) by (nonlinear_arith);
    assert(w * (e + k) == w * e + w * k) by (nonlinear_arith);
    assert(w2 * (e + k) == w2 * e + w2 * k) by (nonlinear_arith);
    assert(r2 * k <= w * k) by (nonlinear_arith)
        requires r2 <= w, k >= 0;
    assert(r * k <= w2 * k) by (nonlinear_arith)
        requires r <= w2, k >= 0;
}

/// Near numbers of at most one differ by little.
pub proof fn lemma_near_apart(a: int, b: int, k: int)
    requires
        near(a, b, k),
        a <= part(1, 0),
        b <= part(1, 0),
    ensures
        -part(k, 60) <= a - b <= part(k, 60),
{
    let e = SPAN as int;
    let g = pow2(1014) as int;
    lemma_pow2_adds(60, 1014);
    lemma2_to64();
    lemma2_to64_rest();
    lemma_pow2_pos(1014);
    assert(part(1, 0) == e * g);
    assert(part(k, 60) == k * g);
    assert(b * (e + k) == b * e + b * k) by (nonlinear_arith);
    assert(a * (e + k) == a * e + a * k) by (nonlinear_arith);
    assert(b * k <= (e * g) * k) by (nonlinear_arith)
        requires b <= e * g, k >= 0;
    assert(a * k <= (e * g) * k) by (nonlinear_arith)
        requires a <= e * g, k >= 0;
    assert((e * g) * k == (k * g) * e) by (nonlinear_arith);
    assert(a - b <= k * g) by (nonlinear_arith)
        requires a * e - b * e <= (k * g) * e, e > 0;
    assert(b - a <= k * g) by (nonlinear_arith)
        requires b * e - a * e <= (k * g) * e, e > 0;
}

/// A normal number lies near what it is rounded from.
pub proof fn lemma_round_near(num: int, den: int)
    requires
        den > 0,
        num >= CELL * den,
        round_ratio(num, den) < INF_ENC,
    ensures
        near(num, mag(round_ratio(num, den) as int) * den, 129),
{
    let enc = round_ratio(num, den) as int;
    let c = CELL as int;
    assert(c * den >= 0) by (nonlinear_arith)
        requires c > 0, den > 0;
    law_rounding_is_nearest(num, den);
    lemma_mag_cell(0, c);
    lemma2_to64();
    lemma_representable(c, 0);
    assert(c * pow2(0) == c);
    lemma_ratio_ge(num, den, c);
    lemma_order(enc, c);
    assert(enc >= c);
    lemma_cell_of(enc);
    lemma_cell_of(enc - 1);
    let t = scale(enc);
    let k = significand(enc);
    lemma_pow2_pos(t);
    lemma_pow2_pos(scale(enc - 1));
    let g = pow2(t) as int;
    assert(k >= c);
    assert(scale(enc - 1) <= t) by (nonlinear_arith)
        requires enc == t * c + k, enc - 1 == scale(enc - 1) * c + significand(enc - 1), k < 2 * c,
            scale(enc - 1) == 0 || significand(enc - 1) >= c, c > 0;
    assert(pow2(scale(enc - 1)) <= g) by {
        if scale(enc - 1) < t {
            lemma_pow2_strictly_increases(scale(enc - 1), t);
        }
    }
    let v = mag(enc);
    assert(v == k * g);
    assert(c * g <= v) by (nonlinear_arith)
        requires v == k * g, k >= c, g > 0;
    // 2 num lies within g den of 2 v den
    let w = v * den;
    assert((v + (v + g)) * den == 2 * w + g * den) by (nonlinear_arith)
        requires w == v * den;
    let lo = mag(enc - 1) + mag(enc);
    assert(lo * den >= 2 * w - g * den) by (nonlinear_arith)
        requires w == v * den, lo >= 2 * v - g, den > 0;
    assert(-(g * den) <= 2 * num - 2 * w <= g * den);
    assert(c * (g * den) <= w) by (nonlinear_arith)
        requires c * g <= v, w == v * den, den > 0;
    assert(w >= 0) by (nonlinear_arith)
        requires w == v * den, v >= 0, den > 0;
    let e = SPAN as int;
    let gd = g * den;
    assert(gd > 0) by (nonlinear_arith)
        requires gd == g * den, g > 0, den > 0;
    assert(e == 256 * c);
    assert(num * e <= w * (e + 129)) by (nonlinear_arith)
        requires 2 * num <= 2 * w + gd, c * gd <= w, e == 256 * c, c > 0, w >= 0;
    assert(w * e <= num * (e + 129)) by (nonlinear_arith)
        requires 2 * w <= 2 * num + gd, c * gd <= w, e == 256 * c, c == 0x0010_0000_0000_0000, w >= 0;
}

/// A whole number of units lies near what it is rounded to.
pub proof fn lemma_rounded_near(n: int)
    requires
        n >= 0,
        round_ratio(n, 1) < INF_ENC,
    ensures
        near(n, rounded(n), 129),
{
    if n < 2 * CELL {
        lemma2_to64();
        lemma_representable(n, 0);
        assert(n * pow2(0) == n);
        lemma_rounded(n, n);
        lemma_near_self(n, 129);
    } else {
        lemma_round_near(n, 1);
    }
}

/// Two finite numbers that are not negative lie near each other.
pub open spec fn alike(x: F64, y: F64, k: int) -> bool {
    x.is_finite() && y.is_finite() && near(x.units(), y.units(), k)
}

/// What both of two near numbers are rounded to is near too.
pub proof fn lemma_both_rounded(a: int, a2: int, r: int, r2: int, k: int)
    requires
        near(a, a2, k),
        near(a, r, 129),
        near(a2, r2, 129),
        k <= 0x10_0000_0000_0000,
    ensures
        near(r, r2, k + 264),
{
    lemma_near_wider(a, r, 129, 129);
    lemma_near_chain(r, a, a2, 129, k);
    lemma_near_chain(r, a2, r2, 129 + k + 1, 129);
    lemma_near_wider(r, r2, k + 260, k + 264);
}

pub proof fn lemma_alike_products(x: F64, x2: F64, y: F64, y2: F64, k: int, j: int)
    requires
        alike(x, x2, k),
        alike(y, y2, j),
        k <= 0x800_0000,
        j <= 0x800_0000,
        (x * y).is_finite(),
        (x2 * y2).is_finite(),
        x.units() * y.units() >= CELL * pow2(1074),
        x2.units() * y2.units() >= CELL * pow2(1074),
    ensures
        alike(x * y, x2 * y2, k + j + 265),
{
    let d = pow2(1074) as int;
    lemma_pow2_pos(1074);
    lemma_product(x, y);
    lemma_product(x2, y2);
    assert(k * j <= SPAN) by (nonlinear_arith)
        requires 0 <= k <= 0x800_0000, 0 <= j <= 0x800_0000, SPAN == 0x1000_0000_0000_0000;
    lemma_near_product(x.units(), x2.units(), y.units(), y2.units(), k, j);
    let a = x.units() * y.units();
    let a2 = x2.units() * y2.units();
    lemma_round_near(a, d);
    lemma_round_near(a2, d);
    let r = (x * y).units();
    let r2 = (x2 * y2).units();
    lemma_both_rounded(a, a2, r * d, r2 * d, k + j + 1);
    lemma_order((x * y).enc() as int, (x2 * y2).enc() as int);
    lemma_near_cancel(r, r2, d, k + j + 265);
}

pub proof fn lemma_alike_quotients(x: F64, x2: F64, y: F64, y2: F64, k: int, j: int)
    requires
        alike(x, x2, k),
        alike(y, y2, j),
        k <= 0x800_0000,
        j <= 0x800_0000,
        y.units() > 0,
        y2.units() > 0,
        (x / y).is_finite(),
        (x2 / y2).is_finite(),
        x.units() * pow2(1074) >= CELL * y.units(),
        x2.units() * pow2(1074) >= CELL * y2.units(),
    ensures
        alike(x / y, x2 / y2, k + j + 265),
{
    let d = pow2(1074) as int;
    lemma_pow2_pos(1074);
    lemma_quotient(x, y);
    lemma_quotient(x2, y2);
    let yu = y.units();
    let yu2 = y2.units();
    let a = x.units() * d;
    let a2 = x2.units() * d;
    lemma_near_self(d, 0);
    assert(k * 0 == 0);
    // the numerators
    let e = SPAN as int;
    assert(near(a, a2, k)) by {
        assert(a * e == (x.units() * e) * d) by (nonlinear_arith)
            requires a == x.units() * d;
        assert(a2 * e == (x2.units() * e) * d) by (nonlinear_arith)
            requires a2 == x2.units() * d;
        assert(a * (e + k) == (x.units() * (e + k)) * d) by (nonlinear_arith)
            requires a == x.units() * d;
        assert(a2 * (e + k) == (x2.units() * (e + k)) * d) by (nonlinear_arith)
            requires a2 == x2.units() * d;
        assert((x.units() * e) * d <= (x2.units() * (e + k)) * d) by (nonlinear_arith)
            requires x.units() * e <= x2.units() * (e + k), d > 0;
        assert((x2.units() * e) * d <= (x.units() * (e + k)) * d) by (nonlinear_arith)
            requires x2.units() * e <= x.units() * (e + k), d > 0;
    }
    lemma_round_near(a, yu);
    lemma_round_near(a2, yu2);
    let r = (x / y).units();
    let r2 = (x2 / y2).units();
    lemma_order((x / y).enc() as int, (x2 / y2).enc() as int);
    lemma_both_rounded(a, a2, r * yu, r2 * yu2, k);
    lemma_near_wider(yu, yu2, j, j);
    assert((k + 264) * j <= SPAN) by (nonlinear_arith)
        requires 0 <= k <= 0x800_0000, 0 <= j <= 0x800_0000, SPAN == 0x1000_0000_0000_0000;
    lemma_near_product(r * yu, r2 * yu2, yu2, yu, k + 264, j);
    let c = yu * yu2;
    assert(c > 0) by (nonlinear_arith)
        requires c == yu * yu2, yu > 0, yu2 > 0;
    assert((r * yu) * yu2 == r * c) by (nonlinear_arith)
        requires c == yu * yu2;
    assert((r2 * yu2) * yu == r2 * c) by (nonlinear_arith)
        requires c == yu * yu2;
    lemma_near_cancel(r, r2, c, k + j + 265);
}

pub proof fn lemma_alike_sums(x: F64, x2: F64, y: F64, y2: F64, k: int)
    requires
        alike(x, x2, k),
        alike(y, y2, k),
        k <= 0x800_0000,
        2 * (x.units() + y.units()) < mag(INF_ENC as int),
        2 * (x2.units() + y2.units()) < mag(INF_ENC as int),
    ensures
        alike(x + y, x2 + y2, k + 264),
{
    lemma_sum_units(x, y);
    lemma_sum_units(x2, y2);
    lemma_near_sum(x.units(), x2.units(), y.units(), y2.units(), k);
    let n = x.units() + y.units();
    let n2 = x2.units() + y2.units();
    lemma_finite_round(x + y, n);
    lemma_finite_round(x2 + y2, n2);
    lemma_rounded_near(n);
    lemma_rounded_near(n2);
    lemma_both_rounded(n, n2, rounded(n), rounded(n2), k);
}

/// What a finite number is rounded from does not round to infinity.
pub proof fn lemma_finite_round(x: F64, n: int)
    requires
        x.is_finite(),
        n >= 0,
        x.units() == rounded(n),
    ensures
        round_ratio(n, 1) < INF_ENC,
{
    law_rounding_is_nearest(n, 1);
    lemma_order(x.enc() as int, round_ratio(n, 1) as int);
    lemma_order(x.enc() as int, INF_ENC as int);
}

/// A literal of moderate size.
pub proof fn lemma_moderate(bits: u64)
    requires
        0x3E10_0000_0000_0000 <= bits <= 0x40F0_0000_0000_0000,
    ensures
        at_least(lit(bits), 1, 30),
        at_most(lit(bits), 65536, 0),
        lit(bits).units() > 0,
{
    lemma_powers();
    lemma2_to64();
    lemma2_to64_rest();
    lemma_literal(0x3E10_0000_0000_0000, 992, 0x10_0000_0000_0000, 52, 1, 1, 30);
    lemma_literal(0x40F0_0000_0000_0000, 1038, 0x10_0000_0000_0000, 36, 65536, 65536, 0);
    lemma_order(bits as int, 0x3E10_0000_0000_0000);
    lemma_order(bits as int, 0x40F0_0000_0000_0000);
    lemma_part(1, 30);
    assert(lit(bits).enc() == bits && !lit(bits).sign());
}

/// Bounds within which a Horner step stays normal.
pub open spec fn moderate(y: F64) -> bool {
    at_least(y, 1, 100) && at_most(y, 8, 0)
}

pub proof fn lemma_normal_product(a: int, b: int)
    requires
        a >= part(1, 30),
        b >= part(1, 100),
    ensures
        a * b >= CELL * pow2(1074),
{
    lemma_pow2_adds(1044, 974);
    lemma_pow2_adds(52, 1074);
    lemma_powers();
    lemma2_to64();
    lemma2_to64_rest();
    lemma_pow2_strictly_increases(1126, 2018);
    lemma_pow2_pos(1044);
    lemma_pow2_pos(974);
    assert(a * b >= pow2(1044) * pow2(974)) by (nonlinear_arith)
        requires a >= pow2(1044), b >= pow2(974), pow2(1044) > 0, pow2(974) > 0;
}

/// The first product of a polynomial.
pub proof fn lemma_alike_start(c: F64, y: F64, y2: F64, j: int)
    requires
        at_least(c, 1, 30),
        at_most(c, 65536, 0),
        alike(y, y2, j),
        moderate(y),
        moderate(y2),
        j <= 0x800_0000,
    ensures
        alike(c * y, c * y2, j + 265),
        at_most(c * y, 524288, 0),
        at_most(c * y2, 524288, 0),
{
    lemma_part(1, 30);
    lemma_near_self(c.units(), 0);
    lemma_product_at_most(c, y, 65536, 0, 8, 0);
    lemma_product_at_most(c, y2, 65536, 0, 8, 0);
    lemma_normal_product(c.units(), y.units());
    lemma_normal_product(c.units(), y2.units());
    lemma_alike_products(c, c, y, y2, 0, j);
}

/// The last sum of a polynomial.
pub proof fn lemma_alike_end(s: F64, s2: F64, c: F64, k: int, b: int)
    requires
        alike(s, s2, k),
        at_most(s, b, 0),
        at_most(s2, b, 0),
        0 <= b <= 0x1000_0000_0000,
        at_least(c, 1, 30),
        at_most(c, 65536, 0),
        k <= 0x800_0000,
    ensures
        alike(s + c, s2 + c, k + 264),
        at_most(s + c, b + 65536, 0),
        at_most(s2 + c, b + 65536, 0),
        at_least(s + c, 1, 30),
        at_least(s2 + c, 1, 30),
{
    lemma_part(1, 30);
    lemma_part(b, 0);
    lemma_part(65536, 0);
    assert(0 * pow2(1074) == 0);
    lemma_near_self(c.units(), k);
    lemma_sum_at_most(s, c, b, 65536, 0, 0);
    lemma_sum_at_most(s2, c, b, 65536, 0, 0);
    lemma_sum_units(s, c);
    lemma_sum_units(s2, c);
    lemma_rounded(part(1, 30), s.units() + c.units());
    lemma_rounded(part(1, 30), s2.units() + c.units());
    lemma_alike_sums(s, s2, c, c, k);
}

/// A step of Horner's rule.
pub proof fn lemma_alike_step(s: F64, s2: F64, c: F64, y: F64, y2: F64, k: int, j: int, b: int)
    requires
        alike(s, s2, k),
        at_most(s, b, 0),
        at_most(s2, b, 0),
        0 <= b <= 0x1000_0000_0000,
        at_least(c, 1, 30),
        at_most(c, 65536, 0),
        alike(y, y2, j),
        moderate(y),
        moderate(y2),
        k <= 0x400_0000,
        j <= 0x400_0000,
    ensures
        alike((s + c) * y, (s2 + c) * y2, k + j + 529),
        at_most((s + c) * y, (b + 65536) * 8, 0),
        at_most((s2 + c) * y2, (b + 65536) * 8, 0),
{
    lemma_alike_end(s, s2, c, k, b);
    lemma_part(1, 30);
    lemma_part(1, 100);
    lemma_product_at_most(s + c, y, b + 65536, 0, 8, 0);
    lemma_product_at_most(s2 + c, y2, b + 65536, 0, 8, 0);
    lemma_normal_product((s + c).units(), y.units());
    lemma_normal_product((s2 + c).units(), y2.units());
    lemma_alike_products(s + c, s2 + c, y, y2, k + 264, j);
}

} // verus!
