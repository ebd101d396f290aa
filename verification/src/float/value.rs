//! The numbers as real numbers, and how far the operations are off the exact ones.
use super::laws::{
    law_negation, law_product_is_nearest, law_quotient_is_nearest, law_rounding_is_nearest,
    law_sum_is_nearest,
};
use super::model::{
    lemma_mag_cell, lemma_mag_zero, lemma_round_ratio_is, mag, round_ratio, CELL, INF_ENC,
};
use super::number::{lemma_order, lit, F64};
use super::relative::{lemma_round_near, lemma_rounded_near, near, SPAN};
use super::signed::lemma_representable;
use vstd::arithmetic::power2::{
    lemma2_to64, lemma2_to64_rest, lemma_pow2_adds, lemma_pow2_pos, pow2,
};
use vstd::prelude::*;

verus! {

/// 2^1074 as a real number.
pub open spec fn scale_of_units() -> real {
    pow2(1074) as real
}

/// What a finite number stands for.
pub open spec fn val(x: F64) -> real {
    x.units() as real / scale_of_units()
}

/// The magnitude of a real number.
pub open spec fn abs(x: real) -> real {
    if x >= 0real {
        x
    } else {
        -x
    }
}

/// 2^-52, the relative distance that bounds one rounding.
pub open spec fn ulp() -> real {
    1real / 4503599627370496real
}

/// 2^-1022, the least normal number.
pub open spec fn least() -> real {
    1real / (pow2(1022) as real)
}

/// The finite number `v` stands for `e` to within `k` roundings of the magnitude `m`, which
/// is not below that of `e`.
pub open spec fn approx(v: F64, e: real, m: real, k: real) -> bool {
    &&& v.is_finite()
    &&& abs(val(v) - e) <= k * ulp() * m
    &&& abs(e) <= m
    &&& k >= 0real
}

pub proof fn lemma_scale()
    ensures
        scale_of_units() > 0real,
        scale_of_units() == (pow2(1022) as real) * 4503599627370496real,
        least() > 0real,
        ulp() * least() * scale_of_units() == 1real,
        (pow2(1022) as real) > 0real,
{
    lemma_pow2_pos(1074);
    lemma_pow2_pos(1022);
    lemma_pow2_adds(52, 1022);
    lemma2_to64_rest();
    let a = pow2(1022);
    assert(pow2(1074) == a * 4503599627370496) by (nonlinear_arith)
        requires
            pow2(1074) == pow2(52) * a,
            pow2(52) == 0x10_0000_0000_0000,
    ;
    let r = a as real;
    assert((a * 4503599627370496) as real == r * 4503599627370496real);
    let s = scale_of_units();
    assert(ulp() * least() * s == 1real) by (nonlinear_arith)
        requires
            ulp() == 1real / 4503599627370496real,
            least() == 1real / r,
            s == r * 4503599627370496real,
            r > 0real,
    ;
    assert(least() > 0real) by (nonlinear_arith)
        requires
            least() == 1real / r,
            r > 0real,
    ;
}

/// What lies near is off by at most one rounding.
proof fn lemma_off(n: int, r: int)
    requires
        near(n, r, 129),
    ensures
        (r - n) * SPAN <= 130 * n,
        (n - r) * SPAN <= 130 * n,
{
    let e = SPAN as int;
    assert((r - n) * e <= 129 * n) by (nonlinear_arith)
        requires
            r * e <= n * (e + 129),
    ;
    assert((n - r) * e <= 129 * r) by (nonlinear_arith)
        requires
            n * e <= r * (e + 129),
    ;
    assert(129 * r <= 130 * n) by (nonlinear_arith)
        requires
            (r - n) * e <= 129 * n,
            e == 0x1000_0000_0000_0000,
            n >= 0,
    ;
}

/// The magnitude of an integer.
pub open spec fn size_of(n: int) -> int {
    if n >= 0 {
        n
    } else {
        -n
    }
}

/// An integer distance as a real one.
proof fn lemma_real_off(s: int, n: int)
    requires
        size_of(s - n) * SPAN <= 130 * size_of(n),
    ensures
        abs(s as real / scale_of_units() - n as real / scale_of_units()) <= ulp() * abs(
            n as real / scale_of_units(),
        ),
{
    lemma_scale();
    let d = scale_of_units();
    let x = s as real;
    let y = n as real;
    assert((s - n) as real == x - y);
    let e = SPAN as int;
    assert(e as real == 1152921504606846976real);
    assert(size_of(s - n) as real == abs(x - y));
    assert(size_of(n) as real == abs(y));
    let l = size_of(s - n);
    let k = size_of(n);
    assert((l * 1152921504606846976) as real == (l as real) * 1152921504606846976real);
    assert((130 * k) as real == 130real * (k as real));
    assert(abs(x - y) * 1152921504606846976real <= 130real * abs(y));
    let u = x / d;
    let v = y / d;
    assert(u * d == x && v * d == y) by (nonlinear_arith)
        requires
            u == x / d,
            v == y / d,
            d > 0real,
    ;
    assert(abs(u - v) * d == abs(x - y) && abs(v) * d == abs(y)) by (nonlinear_arith)
        requires
            u * d == x,
            v * d == y,
            d > 0real,
    ;
    assert(abs(u - v) * 1152921504606846976real <= 130real * abs(v)) by (nonlinear_arith)
        requires
            abs(u - v) * d == abs(x - y),
            abs(v) * d == abs(y),
            abs(x - y) * 1152921504606846976real <= 130real * abs(y),
            d > 0real,
    ;
}

/// A finite sum is off the exact one by at most one rounding.
pub proof fn law_sum_value(a: F64, b: F64)
    requires
        a.is_finite(),
        b.is_finite(),
        (a + b).is_finite(),
    ensures
        abs(val(a + b) - (val(a) + val(b))) <= ulp() * abs(val(a) + val(b)),
{
    law_sum_is_nearest(a, b);
    let n = a.units() + b.units();
    let s = a + b;
    lemma_order(s.enc() as int, 0);
    lemma_mag_zero(0);
    lemma_round_ratio_is(size_of(n), 1, s.enc());
    lemma_rounded_near(size_of(n));
    lemma_off(size_of(n), mag(s.enc() as int));
    if n == 0 {
        super::arith::lemma_round_zero(1);
    }
    assert(size_of(s.units() - n) * SPAN <= 130 * size_of(n));
    lemma_real_off(s.units(), n);
    lemma_scale();
    let d = scale_of_units();
    let x = a.units() as real;
    let y = b.units() as real;
    assert(n as real == x + y);
    assert((x + y) / d == x / d + y / d) by (nonlinear_arith)
        requires
            d > 0real,
    ;
}

/// Turning the sign over turns over what the number stands for.
pub proof fn law_negated_value(a: F64)
    ensures
        val(a.negated()) == -val(a),
        a.is_finite() ==> a.negated().is_finite(),
{
    law_negation(a);
    lemma_scale();
    let d = scale_of_units();
    let x = a.units() as real;
    assert((-a.units()) as real == -x);
    assert((-x) / d == -(x / d)) by (nonlinear_arith)
        requires
            d > 0real,
    ;
}

/// A finite difference is off the exact one by at most one rounding.
pub proof fn law_difference_value(a: F64, b: F64)
    requires
        a.is_finite(),
        b.is_finite(),
        (a - b).is_finite(),
    ensures
        abs(val(a - b) - (val(a) - val(b))) <= ulp() * abs(val(a) - val(b)),
{
    law_negated_value(b);
    law_sum_value(a, b.negated());
}

/// A ratio too small for a normal number is rounded by at most one unit.
pub proof fn lemma_small_ratio(num: int, den: int)
    requires
        den > 0,
        0 <= num < CELL * den,
    ensures
        -den <= mag(round_ratio(num, den) as int) * den - num <= den,
{
    let enc = round_ratio(num, den) as int;
    let c = CELL as int;
    law_rounding_is_nearest(num, den);
    lemma2_to64();
    lemma_representable(c, 0);
    assert(c * pow2(0) == c);
    super::bounds::lemma_ratio_le(num, den, c);
    lemma_mag_cell(0, c);
    lemma_order(enc, c);
    if enc > 0 {
        lemma_mag_cell(0, enc - 1);
    }
    lemma_mag_cell(0, enc);
    assert(mag(enc) == enc);
    let v = enc;
    assert(enc > 0 ==> mag(enc - 1) == enc - 1);
    assert((mag(enc) + mag(enc + 1)) * den == (2 * v + 1) * den);
    assert(2 * num <= (2 * v + 1) * den);
    if enc > 0 {
        assert(2 * num >= (2 * v - 1) * den);
    }
    assert(v * den - num <= den && num - v * den <= den) by (nonlinear_arith)
        requires
            2 * num <= (2 * v + 1) * den,
            2 * num >= (2 * v - 1) * den || v == 0,
            num >= 0,
            den > 0,
    ;
}

/// What a ratio is rounded to, as a real number.
proof fn lemma_real_ratio(num: int, den: int)
    requires
        den > 0,
        num >= 0,
        round_ratio(num, den) < INF_ENC,
    ensures
        ({
            let r = mag(round_ratio(num, den) as int) as real / scale_of_units();
            let e = (num as real / den as real) / scale_of_units();
            abs(r - e) <= ulp() * (e + least())
        }),
{
    lemma_scale();
    let v = mag(round_ratio(num, den) as int);
    let d = scale_of_units();
    let x = num as real;
    let y = den as real;
    let w = v as real;
    let q = x / y;
    assert(q * y == x) by (nonlinear_arith)
        requires
            q == x / y,
            y > 0real,
    ;
    assert((v * den) as real == w * y) by {
        lemma_cast_product(v, den);
    }
    assert(q >= 0real) by (nonlinear_arith)
        requires
            q * y == x,
            x >= 0real,
            y > 0real,
    ;
    let l = least();
    let u = ulp();
    assert(u * l * d == 1real);
    assert(abs(w - q) <= u * q + 1real) by {
        if num >= CELL * den {
            lemma_round_near(num, den);
            lemma_off(num, v * den);
            let n = v * den;
            assert(((n - num) * SPAN) as real == ((n - num) as real) * 1152921504606846976real);
            assert(((num - n) * SPAN) as real == ((num - n) as real) * 1152921504606846976real);
            assert((130 * num) as real == 130real * x);
            assert((w * y - x) * 1152921504606846976real <= 130real * x);
            assert((x - w * y) * 1152921504606846976real <= 130real * x);
            assert((w - q) * 1152921504606846976real <= 130real * q) by (nonlinear_arith)
                requires
                    (w * y - x) * 1152921504606846976real <= 130real * x,
                    q * y == x,
                    y > 0real,
            ;
            assert((q - w) * 1152921504606846976real <= 130real * q) by (nonlinear_arith)
                requires
                    (x - w * y) * 1152921504606846976real <= 130real * x,
                    q * y == x,
                    y > 0real,
            ;
        } else {
            lemma_small_ratio(num, den);
            assert((v * den - num) as real == w * y - x);
            assert(w * y - x <= y && x - w * y <= y);
            assert(w - q <= 1real) by (nonlinear_arith)
                requires
                    w * y - x <= y,
                    q * y == x,
                    y > 0real,
            ;
            assert(q - w <= 1real) by (nonlinear_arith)
                requires
                    x - w * y <= y,
                    q * y == x,
                    y > 0real,
            ;
            assert(u * q >= 0real) by (nonlinear_arith)
                requires
                    u > 0real,
                    q >= 0real,
            ;
        }
    }
    let r = w / d;
    let e = q / d;
    assert(r * d == w && e * d == q) by (nonlinear_arith)
        requires
            r == w / d,
            e == q / d,
            d > 0real,
    ;
    assert(abs(r - e) * d == abs(w - q)) by (nonlinear_arith)
        requires
            r * d == w,
            e * d == q,
            d > 0real,
    ;
    let t = u * (e + l);
    assert(t * d == u * q + 1real) by (nonlinear_arith)
        requires
            t == u * (e + l),
            e * d == q,
            u * l * d == 1real,
    ;
    assert(abs(r - e) <= t) by (nonlinear_arith)
        requires
            abs(r - e) * d <= t * d,
            d > 0real,
    ;
}

pub proof fn lemma_cast_product(a: int, b: int)
    ensures
        (a * b) as real == (a as real) * (b as real),
    decreases size_of(a),
{
    if a > 0 {
        lemma_cast_product(a - 1, b);
        assert(a * b == (a - 1) * b + b) by (nonlinear_arith);
        let x = (a - 1) as real;
        let y = b as real;
        assert(a as real == x + 1real);
        assert((x + 1real) * y == x * y + y) by (nonlinear_arith);
    } else if a < 0 {
        lemma_cast_product(a + 1, b);
        assert(a * b == (a + 1) * b - b) by (nonlinear_arith);
        let x = (a + 1) as real;
        let y = b as real;
        assert(a as real == x - 1real);
        assert((x - 1real) * y == x * y - y) by (nonlinear_arith);
    } else {
        assert(0 * b == 0);
        assert(0real * (b as real) == 0real);
    }
}

/// A finite product is off the exact one by at most one rounding, or by the least number.
pub proof fn law_product_value(a: F64, b: F64)
    requires
        a.is_finite(),
        b.is_finite(),
        (a * b).is_finite(),
    ensures
        abs(val(a * b) - val(a) * val(b)) <= ulp() * (abs(val(a) * val(b)) + least()),
{
    law_product_is_nearest(a, b);
    lemma_order(a.enc() as int, b.enc() as int);
    lemma_order((a * b).enc() as int, 0);
    let am = mag(a.enc() as int);
    let bm = mag(b.enc() as int);
    let num = am * bm;
    assert(num >= 0) by (nonlinear_arith)
        requires
            num == am * bm,
            am >= 0,
            bm >= 0,
    ;
    lemma_pow2_pos(1074);
    lemma_round_ratio_is(num, pow2(1074) as int, (a * b).enc());
    lemma_real_ratio(num, pow2(1074) as int);
    lemma_scale();
    lemma_cast_product(am, bm);
    let d = scale_of_units();
    let x = am as real;
    let y = bm as real;
    let rm = mag((a * b).enc() as int) as real;
    assert((-am) as real == -x && (-bm) as real == -y);
    assert((-mag((a * b).enc() as int)) as real == -rm);
    assert((x * y / d) / d == (x / d) * (y / d)) by (nonlinear_arith)
        requires
            d > 0real,
    ;
    assert((-x) / d == -(x / d) && (-y) / d == -(y / d) && (-rm) / d == -(rm / d)) by (nonlinear_arith)
        requires
            d > 0real,
    ;
    let p = x / d;
    let q = y / d;
    assert(p >= 0real && q >= 0real && p * q >= 0real) by (nonlinear_arith)
        requires
            p == x / d,
            q == y / d,
            x >= 0real,
            y >= 0real,
            d > 0real,
    ;
    assert((-p) * q == -(p * q) && p * (-q) == -(p * q) && (-p) * (-q) == p * q) by (nonlinear_arith);
}

/// A finite quotient is off the exact one by at most one rounding, or by the least number.
pub proof fn law_quotient_value(a: F64, b: F64)
    requires
        a.is_finite(),
        b.is_finite(),
        b.enc() != 0,
        (a / b).is_finite(),
    ensures
        abs(val(a / b) - val(a) / val(b)) <= ulp() * (abs(val(a) / val(b)) + least()),
        val(b) != 0real,
{
    law_quotient_is_nearest(a, b);
    lemma_order(a.enc() as int, b.enc() as int);
    lemma_order((a / b).enc() as int, 0);
    let am = mag(a.enc() as int);
    let bm = mag(b.enc() as int);
    let num = am * pow2(1074);
    lemma_pow2_pos(1074);
    assert(num >= 0) by (nonlinear_arith)
        requires
            num == am * pow2(1074),
            am >= 0,
            pow2(1074) > 0,
    ;
    lemma_round_ratio_is(num, bm, (a / b).enc());
    lemma_real_ratio(num, bm);
    lemma_scale();
    lemma_cast_product(am, pow2(1074) as int);
    let d = scale_of_units();
    let x = am as real;
    let y = bm as real;
    let rm = mag((a / b).enc() as int) as real;
    assert((-am) as real == -x && (-bm) as real == -y);
    assert((-mag((a / b).enc() as int)) as real == -rm);
    let p = x / d;
    let q = y / d;
    assert(p * d == x && q * d == y) by (nonlinear_arith)
        requires
            p == x / d,
            q == y / d,
            d > 0real,
    ;
    assert(p >= 0real && q > 0real) by (nonlinear_arith)
        requires
            p * d == x,
            q * d == y,
            x >= 0real,
            y > 0real,
            d > 0real,
    ;
    let e = p / q;
    assert(e * q == p && e >= 0real) by (nonlinear_arith)
        requires
            e == p / q,
            p >= 0real,
            q > 0real,
    ;
    assert((x * d / y) / d == e) by (nonlinear_arith)
        requires
            e * q == p,
            p * d == x,
            q * d == y,
            d > 0real,
            y > 0real,
    ;
    assert((-x) / d == -p && (-y) / d == -q && (-rm) / d == -(rm / d)) by (nonlinear_arith)
        requires
            d > 0real,
            p == x / d,
            q == y / d,
    ;
    assert((-p) / q == -e && p / (-q) == -e && (-p) / (-q) == e) by (nonlinear_arith)
        requires
            e * q == p,
            q > 0real,
    ;
}

/// A number stands for itself.
pub proof fn lemma_approx_self(v: F64)
    requires
        v.is_finite(),
    ensures
        approx(v, val(v), abs(val(v)), 0real),
{
}

pub proof fn lemma_approx_sum(v1: F64, e1: real, m1: real, k1: real, v2: F64, e2: real, m2: real, k2: real)
    requires
        approx(v1, e1, m1, k1),
        approx(v2, e2, m2, k2),
        k1 <= 1000000000000real,
        k2 <= 1000000000000real,
        (v1 + v2).is_finite(),
    ensures
        approx(
            v1 + v2,
            e1 + e2,
            m1 + m2,
            if k1 >= k2 {
                k1 + 2real
            } else {
                k2 + 2real
            },
        ),
{
    law_sum_value(v1, v2);
    let k = if k1 >= k2 {
        k1
    } else {
        k2
    };
    let u = ulp();
    assert(k1 * u * m1 <= k * u * m1) by (nonlinear_arith)
        requires
            k1 <= k,
            u > 0real,
            m1 >= 0real,
    ;
    assert(k2 * u * m2 <= k * u * m2) by (nonlinear_arith)
        requires
            k2 <= k,
            u > 0real,
            m2 >= 0real,
    ;
    assert(k * u * m1 <= m1 && k * u * m2 <= m2) by (nonlinear_arith)
        requires
            k <= 1000000000000real,
            k >= 0real,
            u == 1real / 4503599627370496real,
            m1 >= 0real,
            m2 >= 0real,
    ;
    let t = val(v1) + val(v2);
    assert(abs(t) <= 2real * (m1 + m2));
    assert(u * abs(t) <= u * (2real * (m1 + m2))) by (nonlinear_arith)
        requires
            abs(t) <= 2real * (m1 + m2),
            u > 0real,
    ;
    assert(u * (2real * (m1 + m2)) + k * u * m1 + k * u * m2 == (k + 2real) * u * (m1 + m2))
        by (nonlinear_arith);
}

pub proof fn lemma_approx_negated(v: F64, e: real, m: real, k: real)
    requires
        approx(v, e, m, k),
    ensures
        approx(v.negated(), -e, m, k),
{
    law_negated_value(v);
}

pub proof fn lemma_approx_difference(
    v1: F64,
    e1: real,
    m1: real,
    k1: real,
    v2: F64,
    e2: real,
    m2: real,
    k2: real,
)
    requires
        approx(v1, e1, m1, k1),
        approx(v2, e2, m2, k2),
        k1 <= 1000000000000real,
        k2 <= 1000000000000real,
        (v1 - v2).is_finite(),
    ensures
        approx(
            v1 - v2,
            e1 - e2,
            m1 + m2,
            if k1 >= k2 {
                k1 + 2real
            } else {
                k2 + 2real
            },
        ),
{
    lemma_approx_negated(v2, e2, m2, k2);
    lemma_approx_sum(v1, e1, m1, k1, v2.negated(), -e2, m2, k2);
}

pub proof fn lemma_approx_product(
    v1: F64,
    e1: real,
    m1: real,
    k1: real,
    v2: F64,
    e2: real,
    m2: real,
    k2: real,
)
    requires
        approx(v1, e1, m1, k1),
        approx(v2, e2, m2, k2),
        k1 <= 1000000000000real,
        k2 <= 1000000000000real,
        (v1 * v2).is_finite(),
    ensures
        approx(v1 * v2, e1 * e2, m1 * m2 + least(), k1 + 2real * k2 + 4real),
{
    law_product_value(v1, v2);
    lemma_scale();
    let u = ulp();
    let x = val(v1);
    let y = val(v2);
    assert(k1 * u * m1 <= m1 && k2 * u * m2 <= m2) by (nonlinear_arith)
        requires
            0real <= k1 <= 1000000000000real,
            0real <= k2 <= 1000000000000real,
            u == 1real / 4503599627370496real,
            m1 >= 0real,
            m2 >= 0real,
    ;
    assert(abs(x) <= 2real * m1 && abs(y) <= 2real * m2);
    lemma_abs_product(x, y, 2real * m1, 2real * m2);
    lemma_abs_product(x, y - e2, 2real * m1, k2 * u * m2);
    lemma_abs_product(x - e1, e2, k1 * u * m1, m2);
    lemma_abs_product(e1, e2, m1, m2);
    assert(x * y - e1 * e2 == x * (y - e2) + (x - e1) * e2) by (nonlinear_arith);
    let mm = m1 * m2;
    assert((2real * m1) * (2real * m2) == 4real * mm) by (nonlinear_arith)
        requires
            mm == m1 * m2,
    ;
    assert((2real * m1) * (k2 * u * m2) == 2real * k2 * u * mm) by (nonlinear_arith)
        requires
            mm == m1 * m2,
    ;
    assert((k1 * u * m1) * m2 == k1 * u * mm) by (nonlinear_arith)
        requires
            mm == m1 * m2,
    ;
    let l = least();
    assert(u * (abs(x * y) + l) <= u * (4real * mm + l)) by (nonlinear_arith)
        requires
            abs(x * y) <= 4real * mm,
            u > 0real,
    ;
    let k = k1 + 2real * k2 + 4real;
    assert(u * (4real * mm + l) + 2real * k2 * u * mm + k1 * u * mm <= k * u * (mm + l)) by (nonlinear_arith)
        requires
            k == k1 + 2real * k2 + 4real,
            k1 >= 0real,
            k2 >= 0real,
            u > 0real,
            l > 0real,
    ;
}

pub proof fn lemma_abs_product(x: real, y: real, a: real, b: real)
    requires
        abs(x) <= a,
        abs(y) <= b,
    ensures
        abs(x * y) <= a * b,
        a * b >= 0real,
{
    assert(abs(x * y) == abs(x) * abs(y)) by (nonlinear_arith);
    assert(abs(x) * abs(y) <= a * b) by (nonlinear_arith)
        requires
            0real <= abs(x) <= a,
            0real <= abs(y) <= b,
    ;
    assert(abs(x) * abs(y) >= 0real) by (nonlinear_arith)
        requires
            0real <= abs(x),
            0real <= abs(y),
    ;
}

pub proof fn lemma_approx_quotient(v: F64, e: real, m: real, k: real, b: F64)
    requires
        approx(v, e, m, k),
        k <= 1000000000000real,
        b.is_finite() && b.enc() != 0,
        (v / b).is_finite(),
    ensures
        approx(v / b, e / val(b), m / abs(val(b)) + least(), k + 2real),
        val(b) != 0real,
{
    law_quotient_value(v, b);
    lemma_scale();
    let u = ulp();
    let x = val(v);
    let y = val(b);
    let l = least();
    let c = abs(y);
    assert(k * u * m <= m) by (nonlinear_arith)
        requires
            0real <= k <= 1000000000000real,
            u == 1real / 4503599627370496real,
            m >= 0real,
    ;
    let q = x / y;
    let p = e / y;
    let w = m / c;
    assert(abs(q - p) * c == abs(x - e) && abs(q) * c == abs(x) && abs(p) * c == abs(e) && w * c == m)
        by (nonlinear_arith)
        requires
            q == x / y,
            p == e / y,
            w == m / c,
            c == abs(y),
            y != 0real,
    ;
    assert(abs(q - p) <= k * u * w) by (nonlinear_arith)
        requires
            abs(q - p) * c <= k * u * (w * c),
            c > 0real,
    ;
    assert(abs(q) <= 2real * w) by (nonlinear_arith)
        requires
            abs(q) * c <= 2real * (w * c),
            c > 0real,
    ;
    assert(abs(p) <= w) by (nonlinear_arith)
        requires
            abs(p) * c <= w * c,
            c > 0real,
    ;
    assert(u * (abs(q) + l) <= u * (2real * w + l)) by (nonlinear_arith)
        requires
            abs(q) <= 2real * w,
            u > 0real,
    ;
    assert(u * (2real * w + l) + k * u * w <= (k + 2real) * u * (w + l)) by (nonlinear_arith)
        requires
            k >= 0real,
            u > 0real,
            l > 0real,
            w >= 0real,
    ;
}

/// A wider statement of the same.
pub proof fn lemma_approx_wider(v: F64, e: real, m: real, k: real, m2: real, k2: real)
    requires
        approx(v, e, m, k),
        m <= m2,
        k <= k2,
    ensures
        approx(v, e, m2, k2),
{
    let u = ulp();
    assert(k * u * m <= k2 * u * m2) by (nonlinear_arith)
        requires
            0real <= k <= k2,
            0real <= m <= m2,
            u > 0real,
    ;
}

/// A finite sum comes of finite numbers.
pub proof fn lemma_finite_sum(a: F64, b: F64)
    requires
        (a + b).is_finite(),
    ensures
        a.is_finite() && b.is_finite(),
{
    reveal(F64::spec_add);
}

/// A finite difference comes of finite numbers.
pub proof fn lemma_finite_difference(a: F64, b: F64)
    requires
        (a - b).is_finite(),
    ensures
        a.is_finite() && b.is_finite(),
{
    law_negation(b);
    lemma_finite_sum(a, b.negated());
}

/// A finite product comes of finite numbers.
pub proof fn lemma_finite_product(a: F64, b: F64)
    requires
        (a * b).is_finite(),
    ensures
        a.is_finite() && b.is_finite(),
{
    reveal(F64::spec_mul);
}

/// A finite quotient comes of a finite number.
pub proof fn lemma_finite_quotient(a: F64, b: F64)
    requires
        (a / b).is_finite(),
    ensures
        a.is_finite(),
{
    reveal(F64::spec_euclidean_or_real_div);
}

/// A power of two as a real number.
pub open spec fn power(i: nat) -> real {
    pow2(i) as real
}

/// The number is finite and of a magnitude of at most 2^200.
pub open spec fn ordinary(v: F64) -> bool {
    v.is_finite() && abs(val(v)) <= power(200)
}

/// The number can be divided by: its magnitude is at least 2^-200.
pub open spec fn divides(v: F64) -> bool {
    v.is_finite() && v.enc() != 0 && abs(val(v)) * power(200) >= 1real
}

pub proof fn lemma_power_adds(i: nat, j: nat)
    ensures
        power(i) * power(j) == power(i + j),
        power(i) >= 1real,
        power(j) >= 1real,
        i <= j ==> power(i) <= power(j),
        power(i + 1) == 2real * power(i),
{
    lemma_pow2_adds(i, j);
    lemma_pow2_adds(i, 1);
    lemma2_to64();
    lemma_pow2_pos(i);
    lemma_pow2_pos(j);
    lemma_cast_product(pow2(i) as int, pow2(j) as int);
    lemma_cast_product(pow2(i) as int, 2);
    if i < j {
        vstd::arithmetic::power2::lemma_pow2_strictly_increases(i, j);
    }
}

/// What is below 2^1000 does not overflow.
proof fn lemma_no_overflow(num: int, den: int)
    requires
        num >= 0,
        den > 0,
        num <= pow2(2074) * den,
    ensures
        round_ratio(num, den) < INF_ENC,
{
    lemma_representable(1, 2045);
    lemma_pow2_pos(2045);
    let c = pow2(2045) as int;
    lemma_pow2_adds(29, 2045);
    lemma_pow2_adds(29, 2017);
    lemma_pow2_adds(52, 2045);
    lemma2_to64();
    lemma2_to64_rest();
    assert(2 * CELL > 0x2000_0000);
    lemma_representable(0x2000_0000, 2045);
    super::bounds::lemma_ratio_le(num, den, 0x2000_0000 * c);
    lemma_mag_cell(2046, CELL as int);
    assert(2046 * CELL + CELL == INF_ENC);
    lemma_pow2_adds(1, 2045);
    lemma_order(round_ratio(num, den) as int, INF_ENC as int);
    assert(0x2000_0000 * c < CELL * (2 * c)) by (nonlinear_arith)
        requires
            c > 0,
            CELL == 0x0010_0000_0000_0000,
    ;
}

/// A bound on the real number is one on the units.
proof fn lemma_units_bound(n: int)
    requires
        abs(n as real / scale_of_units()) <= power(1000),
    ensures
        size_of(n) <= pow2(2074),
{
    lemma_scale();
    let d = scale_of_units();
    let x = n as real;
    let y = x / d;
    assert(abs(y) * d == abs(x)) by (nonlinear_arith)
        requires
            y == x / d,
            d > 0real,
    ;
    lemma_power_adds(1000, 1074);
    assert(abs(x) <= power(1000) * d) by (nonlinear_arith)
        requires
            abs(y) * d == abs(x),
            abs(y) <= power(1000),
            d > 0real,
    ;
    assert(size_of(n) as real == abs(x));
}

/// A sum of at most 2^1000 is finite.
pub proof fn lemma_sum_stays_finite(a: F64, b: F64)
    requires
        a.is_finite() && b.is_finite(),
        abs(val(a) + val(b)) <= power(1000),
    ensures
        (a + b).is_finite(),
{
    lemma_scale();
    let d = scale_of_units();
    let x = a.units() as real;
    let y = b.units() as real;
    let n = a.units() + b.units();
    assert(n as real == x + y);
    assert((x + y) / d == x / d + y / d) by (nonlinear_arith)
        requires
            d > 0real,
    ;
    lemma_units_bound(n);
    law_sum_is_nearest(a, b);
    lemma_round_ratio_is(size_of(n), 1, (a + b).enc());
    lemma_no_overflow(size_of(n), 1);
}

/// A product of at most 2^1000 is finite.
pub proof fn lemma_product_stays_finite(a: F64, b: F64)
    requires
        a.is_finite() && b.is_finite(),
        abs(val(a) * val(b)) <= power(1000),
    ensures
        (a * b).is_finite(),
{
    lemma_scale();
    let d = scale_of_units();
    law_product_is_nearest(a, b);
    lemma_order(a.enc() as int, b.enc() as int);
    let n = a.units() * b.units();
    let am = mag(a.enc() as int);
    let bm = mag(b.enc() as int);
    assert(size_of(n) == am * bm && am * bm >= 0) by (nonlinear_arith)
        requires
            n == a.units() * b.units(),
            a.units() == am || a.units() == -am,
            b.units() == bm || b.units() == -bm,
            am >= 0,
            bm >= 0,
    ;
    lemma_cast_product(a.units(), b.units());
    let x = a.units() as real;
    let y = b.units() as real;
    let v = (x / d) * (y / d);
    assert(v * d * d == x * y) by (nonlinear_arith)
        requires
            v == (x / d) * (y / d),
            d > 0real,
    ;
    lemma_power_adds(1000, 1074);
    let p = power(2074);
    assert(abs(x * y) <= p * d) by (nonlinear_arith)
        requires
            v * d * d == x * y,
            abs(v) <= power(1000),
            p == power(1000) * d,
            d > 0real,
    ;
    lemma_cast_product(pow2(2074) as int, pow2(1074) as int);
    lemma_pow2_pos(1074);
    assert(size_of(n) as real == abs(x * y));
    lemma_round_ratio_is(am * bm, pow2(1074) as int, (a * b).enc());
    lemma_no_overflow(am * bm, pow2(1074) as int);
}

/// A quotient of at most 2^1000 is finite.
pub proof fn lemma_quotient_stays_finite(a: F64, b: F64)
    requires
        a.is_finite() && b.is_finite() && b.enc() != 0,
        abs(val(a)) <= power(1000) * abs(val(b)),
    ensures
        (a / b).is_finite(),
{
    lemma_scale();
    let d = scale_of_units();
    law_quotient_is_nearest(a, b);
    lemma_order(a.enc() as int, b.enc() as int);
    lemma_order(b.enc() as int, 0);
    let am = mag(a.enc() as int);
    let bm = mag(b.enc() as int);
    let x = am as real;
    let y = bm as real;
    assert((-am) as real == -x && (-bm) as real == -y);
    assert(abs(x / d) * d == x && abs(y / d) * d == y && (-x) / d == -(x / d) && (-y) / d == -(y / d))
        by (nonlinear_arith)
        requires
            d > 0real,
            x >= 0real,
            y >= 0real,
    ;
    lemma_power_adds(1000, 1074);
    let p = power(2074);
    let h = power(1000);
    let u = abs(val(a));
    let w = abs(val(b));
    assert(x * d <= p * y) by (nonlinear_arith)
        requires
            u * d == x,
            w * d == y,
            u <= h * w,
            p == h * d,
            d > 0real,
    ;
    lemma_cast_product(am, pow2(1074) as int);
    lemma_cast_product(pow2(2074) as int, bm);
    lemma_pow2_pos(1074);
    assert(am * pow2(1074) >= 0) by (nonlinear_arith)
        requires
            am >= 0,
            pow2(1074) > 0,
    ;
    lemma_round_ratio_is(am * pow2(1074), bm, (a / b).enc());
    lemma_no_overflow(am * pow2(1074), bm);
}

/// What an approximation stands for is at most twice its magnitude.
pub proof fn lemma_approx_size(v: F64, e: real, m: real, k: real)
    requires
        approx(v, e, m, k),
        k <= 1000000000000real,
    ensures
        abs(val(v)) <= 2real * m,
        m >= 0real,
{
    let u = ulp();
    assert(k * u * m <= m) by (nonlinear_arith)
        requires
            0real <= k <= 1000000000000real,
            u == 1real / 4503599627370496real,
            m >= 0real,
    ;
}

pub proof fn lemma_bounded_sum(
    v1: F64,
    e1: real,
    m1: real,
    k1: real,
    i: nat,
    v2: F64,
    e2: real,
    m2: real,
    k2: real,
    j: nat,
)
    requires
        approx(v1, e1, m1, k1),
        approx(v2, e2, m2, k2),
        k1 <= 1000000000000real,
        k2 <= 1000000000000real,
        m1 <= power(i),
        m2 <= power(j),
        i <= 900,
        j <= 900,
    ensures
        (v1 + v2).is_finite(),
        (v1 - v2).is_finite(),
        m1 + m2 <= power(
            if i >= j {
                i + 1
            } else {
                j + 1
            },
        ),
{
    lemma_approx_size(v1, e1, m1, k1);
    lemma_approx_size(v2, e2, m2, k2);
    lemma_power_adds(i, j);
    lemma_power_adds(j, i);
    lemma_power_adds(i, 900);
    lemma_power_adds(j, 900);
    lemma_power_adds(900, 100);
    lemma_power_adds(2, 900);
    lemma_power_adds(902, 1000);
    lemma2_to64();
    assert(power(2) == 4real);
    assert(power(902) == 4real * power(900));
    law_negated_value(v2);
    lemma_sum_stays_finite(v1, v2);
    lemma_sum_stays_finite(v1, v2.negated());
}

pub proof fn lemma_bounded_product(
    v1: F64,
    e1: real,
    m1: real,
    k1: real,
    i: nat,
    v2: F64,
    e2: real,
    m2: real,
    k2: real,
    j: nat,
)
    requires
        approx(v1, e1, m1, k1),
        approx(v2, e2, m2, k2),
        k1 <= 1000000000000real,
        k2 <= 1000000000000real,
        m1 <= power(i),
        m2 <= power(j),
        i + j <= 900,
    ensures
        (v1 * v2).is_finite(),
        m1 * m2 + least() <= power(i + j + 1),
{
    lemma_approx_size(v1, e1, m1, k1);
    lemma_approx_size(v2, e2, m2, k2);
    lemma_power_adds(i, j);
    lemma_power_adds(i + j, 900);
    lemma_power_adds(2, 900);
    lemma_power_adds(902, 1000);
    lemma2_to64();
    assert(power(2) == 4real);
    assert(power(902) == 4real * power(900));
    lemma_abs_product(val(v1), val(v2), 2real * m1, 2real * m2);
    assert((2real * m1) * (2real * m2) <= 4real * (power(i) * power(j)) && m1 * m2 <= power(i) * power(j))
        by (nonlinear_arith)
        requires
            0real <= m1 <= power(i),
            0real <= m2 <= power(j),
    ;
    lemma_product_stays_finite(v1, v2);
    lemma_least();
}

pub proof fn lemma_least()
    ensures
        0real < least() <= 1real,
{
    lemma_scale();
    lemma_pow2_pos(1022);
    let y = pow2(1022) as real;
    assert(1real / y <= 1real) by (nonlinear_arith)
        requires
            y >= 1real,
    ;
}

pub proof fn lemma_bounded_quotient(v: F64, e: real, m: real, k: real, i: nat, b: F64)
    requires
        approx(v, e, m, k),
        k <= 1000000000000real,
        m <= power(i),
        i <= 700,
        divides(b),
    ensures
        (v / b).is_finite(),
        m / abs(val(b)) + least() <= power(i + 201),
{
    lemma_approx_size(v, e, m, k);
    lemma_power_adds(i, 200);
    lemma_power_adds(i + 200, 900);
    lemma_power_adds(1, 900);
    lemma_power_adds(901, 1000);
    lemma_power_adds(i + 200, 1);
    lemma2_to64();
    assert(power(1) == 2real);
    assert(power(901) == 2real * power(900));
    let c = abs(val(b));
    let p = power(i);
    let q = power(200);
    assert(m <= p * q * c) by (nonlinear_arith)
        requires
            0real <= m <= p,
            c * q >= 1real,
            p >= 1real,
    ;
    let h = power(1000);
    let pq = power(i + 200);
    assert(abs(val(v)) <= h * c) by (nonlinear_arith)
        requires
            abs(val(v)) <= 2real * m,
            m <= pq * c,
            2real * pq <= h,
            c >= 0real,
    ;
    lemma_quotient_stays_finite(v, b);
    let w = m / c;
    assert(w <= pq) by (nonlinear_arith)
        requires
            w == m / c,
            m <= pq * c,
            c * q >= 1real,
            q >= 1real,
            c >= 0real,
    ;
    lemma_least();
}

/// Multiplication keeps the order.
pub proof fn lemma_mul_le(a: real, b: real, c: real)
    requires
        a <= b,
        c >= 0real,
    ensures
        a * c <= b * c,
        c * a <= c * b,
{
    assert(a * c <= b * c) by (nonlinear_arith)
        requires
            a <= b,
            c >= 0real,
    ;
    assert(c * a == a * c && c * b == b * c) by (nonlinear_arith);
}

/// A product of numbers that are not negative is not negative.
pub proof fn lemma_mul_nonneg(a: real, b: real)
    requires
        a >= 0real,
        b >= 0real,
    ensures
        a * b >= 0real,
{
    assert(a * b >= 0real) by (nonlinear_arith)
        requires
            a >= 0real,
            b >= 0real,
    ;
}

/// A moderate number of roundings is small.
pub proof fn lemma_few_roundings(k: real)
    requires
        0real <= k <= 1000000000000real,
    ensures
        0real <= k * ulp() <= 1real / 4000real,
{
    lemma_mul_le(k, 1000000000000real, ulp());
    lemma_mul_nonneg(k, ulp());
    assert(1000000000000real * ulp() <= 1real / 4000real);
}

pub proof fn lemma_distrib(a: real, b: real, c: real)
    ensures
        a * (b + c) == a * b + a * c,
        (b + c) * a == b * a + c * a,
{
    assert(a * (b + c) == a * b + a * c) by (nonlinear_arith);
    assert((b + c) * a == b * a + c * a) by (nonlinear_arith);
}

pub proof fn lemma_assoc(a: real, b: real, c: real)
    ensures
        (a * b) * c == a * (b * c),
        (a * b) * c == (a * c) * b,
        a * b == b * a,
{
    assert((a * b) * c == a * (b * c)) by (nonlinear_arith);
    assert((a * b) * c == (a * c) * b) by (nonlinear_arith);
    assert(a * b == b * a) by (nonlinear_arith);
}

} // verus!
