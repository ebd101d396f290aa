//! The continued fraction of the incomplete beta function has the value that it stands for.
use crate::consts::{ONE, TWO, ZERO};
use crate::dist::mixture_laws::{count, lemma_count, lemma_next_count};
use crate::float::number::{lemma_le_units, lemma_order};
use crate::float::ratio::{
    lemma_over, lemma_rel_bounds, lemma_rel_product, lemma_rel_quotient, lemma_rel_sum, lemma_rel_wider, rel,
};
use crate::float::value::{
    abs, approx, law_difference_value, law_product_value, law_quotient_value, law_sum_value, least,
    lemma_abs_product, lemma_approx_product, lemma_approx_self, lemma_approx_size, lemma_approx_sum,
    lemma_approx_wider, lemma_assoc, lemma_distrib, lemma_few_roundings, lemma_mul_le, lemma_mul_nonneg,
    lemma_power_adds, lemma_product_stays_finite, lemma_quotient_stays_finite, lemma_scale,
    lemma_sum_stays_finite, power, scale_of_units, ulp, val,
};
use crate::float::{lit, F64};
use crate::consts::PATIENCE;
use crate::functions::Elementary;
use crate::special::beta::beta_rcomp;
use crate::special::beta_inc::{beta_frac, beta_frac_spec, frac_convergents};
use vstd::arithmetic::power2::{lemma2_to64, lemma2_to64_rest, pow2};
use vstd::prelude::*;

verus! {

/// The numerator of the continued fraction at the place `n`.
#[verifier::opaque]
pub open spec fn numerator(a: real, b: real, x: real, n: real) -> real {
    let p = 1real + (n - 1real) / a;
    let e = a / (a + 2real * n - 1real);
    p * (p + b / a) * e * e * (n * (b - n) * x * x)
}

/// The denominator of the continued fraction at the place `n`, where `l` is the distance from
/// the mean.
#[verifier::opaque]
pub open spec fn denominator(a: real, b: real, x: real, y: real, l: real, n: real) -> real {
    n + n * (b - n) * x / (a + 2real * n - 1real) + (1real + n / a) / (1real + 1real / a + n / a + n / a) * (1real
        + l + n * (y + 1real))
}

/// The continued fraction from the place `n` on; for a whole `b` it ends there.
pub open spec fn fraction(a: real, b: int, x: real, y: real, l: real, n: int) -> real
    decreases b - n,
{
    if n >= b {
        denominator(a, b as real, x, y, l, n as real)
    } else {
        denominator(a, b as real, x, y, l, n as real) + numerator(a, b as real, x, (n + 1) as real)
            / fraction(a, b, x, y, l, n + 1)
    }
}

/// The numbers that a round starts from.
pub open spec fn at_place(a: F64, b: F64, x: F64, c: F64, c0: F64, c1: F64, yp1: F64, p: F64, s: F64, n: int) -> bool {
    let k = 2real * (n as real);
    &&& rel(a, val(a), 0real, 30)
    &&& rel(b, val(b), 0real, 30)
    &&& rel(x, val(x), 0real, 30)
    &&& rel(c, val(c), 0real, 31)
    &&& rel(c0, val(b) / val(a), 6real, 60)
    &&& rel(c1, 1real + 1real / val(a), 8real, 31)
    &&& rel(yp1, val(yp1), 0real, 31)
    &&& rel(p, 1real + (n as real - 1real) / val(a), 8real, 61)
    &&& rel(s, val(a) + 2real * (n as real) - 1real, k, 33)
    &&& 1 <= n <= 1000000000
}

/// The coefficients of a round, as they are computed.
pub open spec fn round_alpha(a: F64, b: F64, x: F64, c0: F64, p: F64, s: F64, n: int) -> F64 {
    let w = count(n) * (b - count(n)) * x;
    p * (p + c0) * (a / s) * (a / s) * (w * x)
}

pub open spec fn round_beta(a: F64, b: F64, x: F64, c: F64, c1: F64, yp1: F64, s: F64, n: int) -> F64 {
    let t = count(n) / a;
    let w = count(n) * (b - count(n)) * x;
    count(n) + w / s + (lit(ONE) + t) / (c1 + t + t) * (c + count(n) * yp1)
}

proof fn lemma_one()
    ensures
        rel(lit(ONE), 1real, 0real, 0),
        rel(lit(TWO), 2real, 0real, 1),
        val(lit(ZERO)) == 0real,
        lit(ZERO).is_finite(),
{
    lemma_next_count(1);
    lemma_count(1);
    lemma_count(2);
    lemma_count(0);
    lemma_power_adds(0, 1);
    lemma2_to64();
    assert(power(0) == 1real && power(1) == 2real);
    assert(count(2) == lit(TWO)) by {
        crate::special::normal_laws::lemma_small_powers();
        crate::float::bounds::lemma_literal(TWO, 1023, 0x10_0000_0000_0000, 51, 2, 2, 0);
        lemma_order(count(2).enc() as int, TWO as int);
    }
    assert(0real * ulp() * 1real == 0real && 0real * ulp() * 2real == 0real);
    crate::float::model::lemma_mag_zero(0);
    lemma_scale();
    let d = scale_of_units();
    assert(0real / d == 0real) by (nonlinear_arith)
        requires
            d > 0real,
    ;
}

/// A count between 1 and 2^30 stands for itself.
proof fn lemma_count_rel(n: int)
    requires
        1 <= n <= 1000000000,
    ensures
        rel(count(n), n as real, 0real, 30),
{
    lemma_count(n);
    lemma2_to64();
    assert(power(30) == 1073741824real);
    lemma_mul_le(1real, n as real, power(30));
    assert(0real * ulp() == 0real);
    assert(0real * (n as real) == 0real);
}

/// What is left of the second parameter.
proof fn lemma_left(b: F64, n: int)
    requires
        rel(b, val(b), 0real, 30),
        1 <= n <= 1000000000,
        val(b) >= n as real + 1real,
    ensures
        rel(b - count(n), val(b) - n as real, 1real, 30),
{
    lemma_count_rel(n);
    lemma_count(n);
    lemma2_to64();
    let z = count(n);
    crate::float::value::law_negated_value(z);
    lemma_power_adds(30, 1000);
    lemma_sum_stays_finite(b, z.negated());
    law_difference_value(b, z);
    let e = val(b) - n as real;
    assert(power(30) == 1073741824real);
    lemma_mul_le(1real, e, power(30));
    assert(1real * ulp() == ulp());
}

proof fn lemma_alpha(a: F64, b: F64, x: F64, c: F64, c0: F64, c1: F64, yp1: F64, p: F64, s: F64, n: int)
    requires
        at_place(a, b, x, c, c0, c1, yp1, p, s, n),
        val(b) >= n as real + 1real,
    ensures
        rel(
            round_alpha(a, b, x, c0, p, s, n),
            numerator(val(a), val(b), val(x), n as real),
            1000real + 48real * (2real * (n as real)),
            383,
        ),
{
    reveal(numerator);
    let k = 2real * (n as real);
    let av = val(a);
    let bv = val(b);
    let xv = val(x);
    let nr = n as real;
    lemma_count_rel(n);
    lemma_left(b, n);
    let ep = 1real + (nr - 1real) / av;
    let es = av + 2real * nr - 1real;
    let ee = av / es;
    lemma_rel_sum(p, ep, 8real, 61, c0, bv / av, 6real, 60);
    lemma_rel_product(p, ep, 8real, 61, p + c0, ep + bv / av, 10real, 62);
    let f1 = ep * (ep + bv / av);
    lemma_rel_quotient(a, av, 0real, 30, s, es, k, 33);
    let ke = 2real * k + 6real;
    lemma_rel_product(p * (p + c0), f1, 64real, 123, a / s, ee, ke, 63);
    let k2 = 2real * (64real + 2real * ke + 4real);
    lemma_rel_product(p * (p + c0) * (a / s), f1 * ee, k2, 186, a / s, ee, ke, 63);
    let k3 = 2real * (k2 + 2real * ke + 4real);
    let w1 = count(n) * (b - count(n));
    lemma_rel_product(count(n), nr, 0real, 30, b - count(n), bv - nr, 1real, 30);
    lemma_rel_product(w1, nr * (bv - nr), 12real, 60, x, xv, 0real, 30);
    let w = w1 * x;
    lemma_rel_product(w, nr * (bv - nr) * xv, 32real, 90, x, xv, 0real, 30);
    lemma_rel_product(
        p * (p + c0) * (a / s) * (a / s),
        f1 * ee * ee,
        k3,
        249,
        w * x,
        nr * (bv - nr) * xv * xv,
        72real,
        120,
    );
    lemma_rel_wider(
        round_alpha(a, b, x, c0, p, s, n),
        numerator(av, bv, xv, nr),
        2real * (k3 + 2real * 72real + 4real),
        369,
        1000real + 48real * k,
        383,
    );
}

proof fn lemma_beta(a: F64, b: F64, x: F64, c: F64, c0: F64, c1: F64, yp1: F64, p: F64, s: F64, n: int)
    requires
        at_place(a, b, x, c, c0, c1, yp1, p, s, n),
        val(b) >= n as real + 1real,
    ensures
        rel(
            round_beta(a, b, x, c, c1, yp1, s, n),
            denominator(val(a), val(b), val(x), val(yp1) - 1real, val(c) - 1real, n as real),
            300real + 48real * (2real * (n as real)),
            190,
        ),
{
    reveal(denominator);
    let k = 2real * (n as real);
    let av = val(a);
    let bv = val(b);
    let xv = val(x);
    let nr = n as real;
    lemma_one();
    lemma_count_rel(n);
    lemma_left(b, n);
    let es = av + 2real * nr - 1real;
    let w1 = count(n) * (b - count(n));
    lemma_rel_product(count(n), nr, 0real, 30, b - count(n), bv - nr, 1real, 30);
    lemma_rel_product(w1, nr * (bv - nr), 12real, 60, x, xv, 0real, 30);
    let w = w1 * x;
    lemma_rel_quotient(w, nr * (bv - nr) * xv, 32real, 90, s, es, k, 33);
    let kw = 2real * (32real + k) + 6real;
    lemma_rel_sum(count(n), nr, 0real, 30, w / s, nr * (bv - nr) * xv / es, kw, 123);
    lemma_second_part(a, c, c1, yp1, n);
    let t = count(n) / a;
    let g = (1real + nr / av) / (1real + 1real / av + nr / av + nr / av) * (val(c) + nr * val(yp1));
    lemma_rel_sum(
        count(n) + w / s,
        nr + nr * (bv - nr) * xv / es,
        kw + 2real,
        124,
        (lit(ONE) + t) / (c1 + t + t) * (c + count(n) * yp1),
        g,
        200real,
        188,
    );
    let kk = if kw + 2real >= 200real {
        kw + 4real
    } else {
        202real
    };
    assert(denominator(av, bv, xv, val(yp1) - 1real, val(c) - 1real, nr) == nr + nr * (bv - nr) * xv / es + g);
    lemma_rel_wider(
        round_beta(a, b, x, c, c1, yp1, s, n),
        denominator(av, bv, xv, val(yp1) - 1real, val(c) - 1real, nr),
        kk,
        189,
        300real + 48real * k,
        190,
    );
}

/// The last part of a denominator.
proof fn lemma_second_part(a: F64, c: F64, c1: F64, yp1: F64, n: int)
    requires
        rel(a, val(a), 0real, 30),
        rel(c, val(c), 0real, 31),
        rel(c1, 1real + 1real / val(a), 8real, 31),
        rel(yp1, val(yp1), 0real, 31),
        1 <= n <= 1000000000,
    ensures
        ({
            let t = count(n) / a;
            let av = val(a);
            let nr = n as real;
            rel(
                (lit(ONE) + t) / (c1 + t + t) * (c + count(n) * yp1),
                (1real + nr / av) / (1real + 1real / av + nr / av + nr / av) * (val(c) + nr * val(yp1)),
                200real,
                188,
            )
        }),
{
    let av = val(a);
    let nr = n as real;
    lemma_one();
    lemma_count_rel(n);
    lemma_rel_quotient(count(n), nr, 0real, 30, a, av, 0real, 30);
    let t = count(n) / a;
    let et = nr / av;
    lemma_rel_sum(lit(ONE), 1real, 0real, 0, t, et, 6real, 60);
    lemma_rel_sum(c1, 1real + 1real / av, 8real, 31, t, et, 6real, 60);
    lemma_rel_sum(c1 + t, 1real + 1real / av + et, 10real, 61, t, et, 6real, 60);
    let e1 = 1real + et;
    let e2 = 1real + 1real / av + et + et;
    lemma_rel_quotient(lit(ONE) + t, e1, 8real, 61, c1 + t + t, e2, 12real, 62);
    lemma_rel_product(count(n), nr, 0real, 30, yp1, val(yp1), 0real, 31);
    lemma_rel_sum(c, val(c), 0real, 31, count(n) * yp1, nr * val(yp1), 8real, 61);
    lemma_rel_product(
        (lit(ONE) + t) / (c1 + t + t),
        e1 / e2,
        46real,
        123,
        c + count(n) * yp1,
        val(c) + nr * val(yp1),
        10real,
        62,
    );
    lemma_rel_wider(
        (lit(ONE) + t) / (c1 + t + t) * (c + count(n) * yp1),
        (e1 / e2) * (val(c) + nr * val(yp1)),
        2real * (46real + 2real * 10real + 4real),
        185,
        200real,
        188,
    );
}

/// Two sums of weighted numbers lie near each other where the numbers do.
proof fn lemma_weighted(g: real, h: real, p0: real, q0: real, p1: real, q1: real, d: real)
    requires
        g >= 0real,
        h >= 0real,
        p0 >= 0real,
        q0 >= 0real,
        d >= 0real,
        abs(p1 - p0) <= d * p0,
        abs(q1 - q0) <= d * q0,
    ensures
        abs((g * p1 + h * q1) - (g * p0 + h * q0)) <= d * (g * p0 + h * q0),
{
    lemma_abs_product(g, p1 - p0, g, d * p0);
    lemma_abs_product(h, q1 - q0, h, d * q0);
    lemma_distrib(g, p1 - p0, p0);
    lemma_distrib(h, q1 - q0, q0);
    lemma_distrib(d, g * p0, h * q0);
    lemma_assoc(d, g, p0);
    lemma_assoc(g, d, p0);
    lemma_assoc(d, h, q0);
    lemma_assoc(h, d, q0);
}

/// A quotient stays near `x` where its parts move little.
proof fn lemma_carried(n1: real, d1: real, x: real, n2: real, d2: real, f: real, g: real)
    requires
        d1 > 0real,
        x > 0real,
        n1 >= 0real,
        0real <= f <= 1real / 1000real,
        0real <= g <= 1real / 1000real,
        abs(n1 - x * d1) <= f * (x * d1),
        abs(n2 - n1) <= g * n1,
        abs(d2 - d1) <= g * d1,
    ensures
        d2 > 0real,
        abs(n2 - x * d2) <= (f + 4real * g) * (x * d2),
{
    let e = x * d1;
    lemma_mul_nonneg(x, d1);
    lemma_mul_le(g, 1real / 1000real, d1);
    assert(d2 > 0real);
    let z = x * d2;
    lemma_abs_product(x, d2 - d1, x, g * d1);
    lemma_distrib(x, d2 - d1, d1);
    lemma_assoc(x, g, d1);
    lemma_assoc(g, x, d1);
    assert(abs(z - e) <= g * e);
    lemma_mul_le(f, 1real / 1000real, e);
    lemma_mul_le(g, 1real / 1000real, e);
    lemma_mul_le(n1, e + e / 1000real, g);
    lemma_distrib(g, e, e / 1000real);
    assert(g * (e / 1000real) == (g * e) / 1000real) by {
        lemma_assoc(g, e, 1real / 1000real);
        assert(e * (1real / 1000real) == e / 1000real);
        assert((g * e) * (1real / 1000real) == (g * e) / 1000real);
    }
    let ge = g * e;
    let fe = f * e;
    lemma_mul_nonneg(g, e);
    lemma_mul_nonneg(f, e);
    assert(abs(n2 - z) <= fe + 2real * ge + ge / 1000real);
    // from e to z
    let h = e - z;
    assert(h <= ge);
    lemma_distrib(f, z, h);
    lemma_distrib(g, z, h);
    lemma_mul_le(h, ge, f);
    lemma_mul_le(h, ge, g);
    lemma_mul_le(f, 1real / 1000real, ge);
    lemma_mul_le(g, 1real / 1000real, ge);
    assert(fe <= f * z + ge / 1000real);
    assert(ge <= g * z + ge / 1000real);
    lemma_distrib(z, f, 4real * g);
    lemma_assoc(4real, g, z);
    lemma_mul_nonneg(x, d2);
    lemma_mul_nonneg(g, z);
}

/// How far a convergent at which the search ends can be from the whole fraction.
proof fn lemma_ended(n1: real, d1: real, x: real, r: real, f: real, g: real)
    requires
        d1 > 0real,
        x > 0real,
        r > 0real,
        0real <= f <= 1real / 1000real,
        0real <= g <= 1real / 100real,
        abs(n1 - x * d1) <= f * (x * d1),
        abs(n1 - r * d1) <= g * (r * d1),
    ensures
        abs(r - x) <= 2real * (f + g) * x,
{
    lemma_mul_nonneg(x, d1);
    lemma_mul_nonneg(r, d1);
    lemma_distrib(d1, r - x, x);
    let a = x * d1;
    let b = r * d1;
    lemma_assoc(r, d1, 1real);
    lemma_assoc(x, d1, 1real);
    lemma_assoc(r - x, d1, 1real);
    assert((r - x) * d1 == b - a);
    lemma_mul_le(f, 1real / 1000real, a);
    lemma_mul_le(g, 1real / 100real, b);
    assert(b <= 2real * a);
    lemma_mul_le(b, 2real * a, g);
    lemma_assoc(g, 2real, a);
    lemma_assoc(2real, g, a);
    assert(abs(b - a) <= f * a + 2real * (g * a));
    let c = 2real * (f + g) * x;
    assert(c * d1 == 2real * (f * a) + 2real * (g * a)) by {
        lemma_assoc(2real * (f + g), x, d1);
        lemma_assoc(2real, f + g, a);
        lemma_distrib(a, f, g);
    }
    lemma_mul_nonneg(f, a);
    if r - x > c {
        lemma_mul_le(c, r - x, d1);
        lemma_strictly(c, r - x, d1);
    }
    if x - r > c {
        lemma_strictly(c, x - r, d1);
        lemma_distrib(d1, x - r, r - x);
        assert(0real * d1 == 0real);
    }
}

proof fn lemma_strictly(a: real, b: real, c: real)
    requires
        a < b,
        c > 0real,
    ensures
        a * c < b * c,
{
    assert(a * c < b * c) by (nonlinear_arith)
        requires
            a < b,
            c > 0real,
    ;
}

/// The number is between 2^-300 and 2^300.
pub open spec fn sized(v: F64) -> bool {
    v.is_finite() && 1real <= val(v) * power(300) && val(v) <= power(300)
}

proof fn lemma_sized(v: F64)
    requires
        sized(v),
    ensures
        val(v) > 0real,
        v.enc() != 0,
        rel(v, val(v), 0real, 300),
{
    lemma_power_adds(300, 0);
    if val(v) <= 0real {
        lemma_mul_le(val(v), 0real, power(300));
        assert(0real * power(300) == 0real);
    }
    assert(0real * ulp() * val(v) == 0real);
    lemma_rel_bounds(v, val(v), 0real, 300);
    crate::dist::mixture_laws::lemma_nonzero(v);
}

/// A quotient of two such numbers, multiplied again.
proof fn lemma_quotient_back(p: F64, q: F64)
    requires
        sized(p),
        sized(q),
    ensures
        (p / q).is_finite(),
        val(p / q) > 0real,
        abs(val(p / q) * val(q) - val(p)) <= (6real * ulp()) * val(p),
{
    lemma_sized(p);
    lemma_sized(q);
    let x = val(p);
    let y = val(q);
    lemma_rel_quotient(p, x, 0real, 300, q, y, 0real, 300);
    lemma_rel_bounds(p / q, x / y, 6real, 600);
    let t = val(p / q);
    let e = x / y;
    assert(abs(t - e) <= 6real * ulp() * e);
    lemma_abs_product(t - e, y, 6real * ulp() * e, y);
    lemma_assoc(6real * ulp(), e, y);
    lemma_distrib(y, t - e, e);
    lemma_assoc(t - e, y, 1real);
    lemma_assoc(t, y, 1real);
    lemma_assoc(e, y, 1real);
}

/// A combination of two numbers with two coefficients, as it is computed.
proof fn lemma_combination(al: F64, ea: real, be: F64, eb: real, k: real, p: F64, q: F64)
    requires
        approx(al, ea, ea, k),
        approx(be, eb, eb, k),
        ea >= 0real,
        eb > 0real,
        k <= 10000000000real,
        p.is_finite() && val(p) >= 0real,
        sized(q),
        sized(al * p + be * q),
    ensures
        ({
            let t = ea * val(p) + eb * val(q);
            &&& t > 0real
            &&& abs(val(al * p + be * q) - t) <= ((2real * k + 12real) * ulp()) * t
        }),
{
    let x = val(p);
    let y = val(q);
    lemma_sized(q);
    lemma_sized(al * p + be * q);
    crate::float::value::lemma_finite_sum(al * p, be * q);
    lemma_approx_self(p);
    lemma_approx_self(q);
    lemma_approx_product(al, ea, ea, k, p, x, x, 0real);
    lemma_approx_product(be, eb, eb, k, q, y, y, 0real);
    let k1 = k + 2real * 0real + 4real;
    let m1 = ea * x + least();
    let m2 = eb * y + least();
    lemma_approx_sum(al * p, ea * x, m1, k1, be * q, eb * y, m2, k1);
    let t = ea * x + eb * y;
    lemma_mul_nonneg(ea, x);
    lemma_strictly(0real, eb, y);
    assert(0real * y == 0real);
    let z = val(al * p + be * q);
    let kk = k1 + 2real;
    let m = m1 + m2;
    lemma_few_roundings(kk);
    lemma_mul_le(kk * ulp(), 1real / 4000real, m);
    // t is not tiny
    let l = least();
    assert(z <= t + m / 4000real);
    lemma_least_tiny();
    assert(1000real * l <= z) by {
        lemma_mul_le(1real, z * power(300), 1000real * l);
        lemma_assoc(z, power(300), 1000real * l);
        lemma_mul_le(power(300) * (1000real * l), 1real, z);
        lemma_assoc(z, power(300) * (1000real * l), 1real);
    }
    assert(2real * l <= t);
    lemma_mul_nonneg(kk, ulp());
    lemma_mul_le(m, 2real * t, kk * ulp());
    assert((kk * ulp()) * (2real * t) == ((2real * k + 12real) * ulp()) * t) by {
        lemma_assoc(kk * ulp(), 2real, t);
        lemma_assoc(2real, kk, ulp());
        lemma_assoc(2real, kk * ulp(), 1real);
    }
}

proof fn lemma_least_tiny()
    ensures
        power(300) * (1000real * least()) <= 1real,
        least() > 0real,
{
    lemma_scale();
    lemma_power_adds(300, 722);
    lemma_power_adds(10, 712);
    lemma2_to64();
    assert(power(10) == 1024real);
    let q = power(1022);
    let j = least();
    let p = power(300);
    assert(q * j == 1real) by (nonlinear_arith)
        requires
            j == 1real / q,
            q > 0real,
    ;
    lemma_mul_le(1real, power(712), 1024real);
    assert(power(722) >= 1024real);
    lemma_mul_le(1000real, power(722), p);
    lemma_mul_le(p * 1000real, q, j);
    lemma_assoc(p, 1000real, j);
}

/// The terms of the fraction are not negative, and its denominators positive.
pub proof fn lemma_terms_positive(a: real, b: real, x: real, y: real, l: real, n: real)
    requires
        a > 0real,
        x > 0real,
        y >= 0real,
        l >= 0real,
        1real <= n <= b,
    ensures
        numerator(a, b, x, n) >= 0real,
        n == b ==> numerator(a, b, x, n) == 0real,
        denominator(a, b, x, y, l, n) > 0real,
{
    reveal(numerator);
    reveal(denominator);
    let s = a + 2real * n - 1real;
    lemma_over(a, s);
    lemma_over(b, a);
    lemma_over(n, a);
    lemma_over(1real, a);
    let q = (n - 1real) / a;
    assert(q >= 0real) by {
        if n > 1real {
            lemma_over(n - 1real, a);
        } else {
            assert(0real / a == 0real) by (nonlinear_arith)
                requires
                    a > 0real,
            ;
        }
    }
    let p = 1real + q;
    let e = a / s;
    lemma_mul_nonneg(p, p + b / a);
    lemma_mul_nonneg(p * (p + b / a), e);
    lemma_mul_nonneg(p * (p + b / a) * e, e);
    lemma_mul_nonneg(n, b - n);
    lemma_mul_nonneg(n * (b - n), x);
    lemma_mul_nonneg(n * (b - n) * x, x);
    lemma_mul_nonneg(p * (p + b / a) * e * e, n * (b - n) * x * x);
    if n == b {
        assert(n * 0real == 0real && 0real * x == 0real);
        assert((p * (p + b / a) * e * e) * 0real == 0real);
    }
    let w = n * (b - n) * x;
    assert(w / s >= 0real) by {
        if w > 0real {
            lemma_over(w, s);
        } else {
            assert(0real / s == 0real) by (nonlinear_arith)
                requires
                    s > 0real,
            ;
        }
    }
    let f = 1real + n / a;
    let g = 1real + 1real / a + n / a + n / a;
    lemma_over(f, g);
    lemma_mul_nonneg(n, y + 1real);
    lemma_mul_nonneg(f / g, 1real + l + n * (y + 1real));
}

pub proof fn lemma_fraction_positive(a: real, b: int, x: real, y: real, l: real, n: int)
    requires
        a > 0real,
        x > 0real,
        y >= 0real,
        l >= 0real,
        1 <= n <= b,
    ensures
        fraction(a, b, x, y, l, n) > 0real,
    decreases b - n,
{
    lemma_terms_positive(a, b as real, x, y, l, n as real);
    if n < b {
        lemma_fraction_positive(a, b, x, y, l, n + 1);
        lemma_terms_positive(a, b as real, x, y, l, (n + 1) as real);
        let v = fraction(a, b, x, y, l, n + 1);
        let u = numerator(a, b as real, x, (n + 1) as real);
        assert(u / v >= 0real) by {
            if u > 0real {
                lemma_over(u, v);
            } else {
                assert(0real / v == 0real) by (nonlinear_arith)
                    requires
                        v > 0real,
                ;
            }
        }
    }
}

/// A product with a zero is one.
proof fn lemma_zero_times(v: F64, z: F64)
    requires
        v.is_finite(),
        z.enc() == 0,
    ensures
        (v * z).enc() == 0,
        (z * v).enc() == 0,
{
    crate::float::model::lemma_mag_zero(0);
    crate::float::laws::law_product_is_nearest(v, z);
    crate::float::laws::law_product_commutes(v, z);
    vstd::arithmetic::power2::lemma_pow2_pos(1074);
    let m = crate::float::model::mag(v.enc() as int);
    assert(m * 0 == 0);
    crate::float::arith::lemma_round_zero(pow2(1074) as int);
    crate::float::model::lemma_round_ratio_is(0, pow2(1074) as int, (v * z).enc());
}

proof fn lemma_zero_over(z: F64, s: F64)
    requires
        s.is_finite() && s.enc() != 0,
        z.enc() == 0,
    ensures
        (z / s).enc() == 0,
{
    crate::float::model::lemma_mag_zero(0);
    crate::float::laws::law_quotient_is_nearest(z, s);
    lemma_order(s.enc() as int, 0);
    assert(0 * pow2(1074) == 0);
    let m = crate::float::model::mag(s.enc() as int);
    crate::float::arith::lemma_round_zero(m);
    crate::float::model::lemma_round_ratio_is(0, m, (z / s).enc());
}

proof fn lemma_zero_value(z: F64)
    requires
        z.enc() == 0,
    ensures
        z.is_finite(),
        val(z) == 0real,
{
    crate::float::model::lemma_mag_zero(0);
    lemma_scale();
    let d = scale_of_units();
    assert(0real / d == 0real) by (nonlinear_arith)
        requires
            d > 0real,
    ;
}

/// The coefficients of the last round.
proof fn lemma_last_coefficients(
    a: F64,
    b: F64,
    x: F64,
    c: F64,
    c0: F64,
    c1: F64,
    yp1: F64,
    p: F64,
    s: F64,
    n: int,
)
    requires
        at_place(a, b, x, c, c0, c1, yp1, p, s, n),
        b == count(n),
    ensures
        approx(round_alpha(a, b, x, c0, p, s, n), 0real, 0real, 0real),
        round_beta(a, b, x, c, c1, yp1, s, n).is_finite(),
        val(round_beta(a, b, x, c, c1, yp1, s, n)) > 0real,
{
    let k = 2real * (n as real);
    let av = val(a);
    let nr = n as real;
    lemma_count_rel(n);
    lemma_count(n);
    let z = b - count(n);
    crate::float::laws::law_difference_with_itself(b);
    assert(z.enc() == 0);
    lemma_zero_times(count(n), z);
    lemma_zero_value(count(n) * z);
    lemma_zero_times(x, count(n) * z);
    let w = count(n) * z * x;
    lemma_zero_value(w);
    lemma_zero_times(x, w);
    lemma_zero_value(w * x);
    let ep = 1real + (nr - 1real) / av;
    let es = av + 2real * nr - 1real;
    let ee = av / es;
    lemma_rel_sum(p, ep, 8real, 61, c0, val(b) / av, 6real, 60);
    lemma_rel_product(p, ep, 8real, 61, p + c0, ep + val(b) / av, 10real, 62);
    let f1 = ep * (ep + val(b) / av);
    lemma_rel_quotient(a, av, 0real, 30, s, es, k, 33);
    let ke = 2real * k + 6real;
    lemma_rel_product(p * (p + c0), f1, 64real, 123, a / s, ee, ke, 63);
    let k2 = 2real * (64real + 2real * ke + 4real);
    lemma_rel_product(p * (p + c0) * (a / s), f1 * ee, k2, 186, a / s, ee, ke, 63);
    let alpha = round_alpha(a, b, x, c0, p, s, n);
    lemma_zero_times(p * (p + c0) * (a / s) * (a / s), w * x);
    lemma_zero_value(alpha);
    assert(0real * ulp() * 0real == 0real);
    // the other one
    lemma_rel_bounds(s, es, k, 33);
    crate::dist::mixture_laws::lemma_nonzero(s);
    lemma_zero_over(w, s);
    lemma_zero_value(w / s);
    lemma_power_adds(30, 1000);
    lemma_sum_stays_finite(count(n), w / s);
    law_sum_value(count(n), w / s);
    let g = count(n) + w / s;
    assert(abs(val(g) - nr) <= ulp() * nr);
    assert(1real * ulp() == ulp());
    assert(rel(g, nr, 1real, 30));
    lemma_second_part(a, c, c1, yp1, n);
    let t = count(n) / a;
    let h = (1real + nr / av) / (1real + 1real / av + nr / av + nr / av) * (val(c) + nr * val(yp1));
    lemma_rel_sum(
        g,
        nr,
        1real,
        30,
        (lit(ONE) + t) / (c1 + t + t) * (c + count(n) * yp1),
        h,
        200real,
        188,
    );
    lemma_rel_bounds(round_beta(a, b, x, c, c1, yp1, s, n), nr + h, 202real, 189);
}

/// Nothing under- or overflows in the rounds of the fraction, until two convergents agree.
pub open spec fn calm(
    a: F64,
    b: F64,
    x: F64,
    c: F64,
    c0: F64,
    c1: F64,
    yp1: F64,
    eps: F64,
    n: int,
    p: F64,
    s: F64,
    an: F64,
    anp1: F64,
    bn: F64,
    bnp1: F64,
    r: F64,
    last: int,
) -> bool
    decreases last - n,
{
    let alpha = round_alpha(a, b, x, c0, p, s, n);
    let beta = round_beta(a, b, x, c, c1, yp1, s, n);
    let top = alpha * an + beta * anp1;
    let bot = alpha * bn + beta * bnp1;
    let r1 = top / bot;
    &&& sized(top) && sized(bot) && sized(r1) && sized(anp1 / bot) && sized(bnp1 / bot)
    &&& n >= last || (r1 - r).abs().le(eps * r1) || calm(
        a,
        b,
        x,
        c,
        c0,
        c1,
        yp1,
        eps,
        n + 1,
        lit(ONE) + count(n) / a,
        s + lit(TWO),
        anp1 / bot,
        r1,
        bnp1 / bot,
        lit(ONE),
        r1,
        last,
    )
}

/// How much one round may add, for a whole second parameter `b`.
pub open spec fn per_round(b: int) -> real {
    (2200real + 200real * (b as real)) * ulp()
}

/// The place after a round.
proof fn lemma_next_place(
    a: F64,
    b: F64,
    x: F64,
    c: F64,
    c0: F64,
    c1: F64,
    yp1: F64,
    p: F64,
    s: F64,
    n: int,
)
    requires
        at_place(a, b, x, c, c0, c1, yp1, p, s, n),
        n < 1000000000,
        val(a) <= 1000000000real,
    ensures
        at_place(a, b, x, c, c0, c1, yp1, lit(ONE) + count(n) / a, s + lit(TWO), n + 1),
{
    let av = val(a);
    let nr = n as real;
    lemma_one();
    lemma_count_rel(n);
    lemma_rel_quotient(count(n), nr, 0real, 30, a, av, 0real, 30);
    lemma_rel_sum(lit(ONE), 1real, 0real, 0, count(n) / a, nr / av, 6real, 60);
    let es = av + 2real * nr - 1real;
    lemma_rel_sum(s, es, 2real * nr, 33, lit(TWO), 2real, 0real, 1);
    let e2 = av + 2real * (nr + 1real) - 1real;
    assert(e2 == es + 2real);
    lemma2_to64_rest();
    assert(power(33) == 8589934592real);
    lemma_mul_le(1real, e2, power(33));
    assert((n + 1) as real == nr + 1real);
    assert(nr + 1real - 1real == nr);
    assert(rel(s + lit(TWO), e2, 2real * nr + 2real, 33));
    assert(2real * ((n + 1) as real) == 2real * nr + 2real);
}

/// What the sums of a round are off by, and the quotients with them.
proof fn lemma_round_values(
    al: F64,
    ea: real,
    be: F64,
    eb: real,
    k: real,
    an: F64,
    anp1: F64,
    bn: F64,
    bnp1: F64,
    d: real,
)
    requires
        approx(al, ea, ea, k),
        approx(be, eb, eb, k),
        ea >= 0real,
        eb > 0real,
        0real <= k <= 10000000000real,
        an.is_finite() && val(an) >= 0real,
        bn.is_finite() && val(bn) >= 0real,
        sized(anp1) && sized(bnp1),
        sized(al * an + be * anp1) && sized(al * bn + be * bnp1),
        (2real * k + 40real) * ulp() <= d,
        d <= 1real / 1000real,
    ensures
        ({
            let t = ea * val(an) + eb * val(anp1);
            let u = ea * val(bn) + eb * val(bnp1);
            let top = al * an + be * anp1;
            let bot = al * bn + be * bnp1;
            let r1 = top / bot;
            let w = val(bot);
            &&& t > 0real && u > 0real && w > 0real
            &&& abs(val(r1) * w - t) <= d * t
            &&& abs(w - u) <= d * u
            &&& abs(val(anp1 / bot) * w - val(anp1)) <= d * val(anp1)
            &&& abs(val(bnp1 / bot) * w - val(bnp1)) <= d * val(bnp1)
            &&& abs(t - val(r1) * u) <= (3real * d) * (val(r1) * u)
            &&& val(r1) > 0real
        }),
{
    let t = ea * val(an) + eb * val(anp1);
    let u = ea * val(bn) + eb * val(bnp1);
    let top = al * an + be * anp1;
    let bot = al * bn + be * bnp1;
    lemma_combination(al, ea, be, eb, k, an, anp1);
    lemma_combination(al, ea, be, eb, k, bn, bnp1);
    lemma_quotient_back(top, bot);
    lemma_quotient_back(anp1, bot);
    lemma_quotient_back(bnp1, bot);
    lemma_sized(bot);
    lemma_sized(top);
    lemma_sized(anp1);
    lemma_sized(bnp1);
    let w = val(bot);
    let v = val(top);
    let g = (2real * k + 12real) * ulp();
    let f = 6real * ulp();
    lemma_distrib(ulp(), 2real * k + 12real, 28real);
    lemma_mul_nonneg(k, ulp());
    lemma_distrib(ulp(), 2real * k, 12real);
    assert(g + 28real * ulp() <= d);
    lemma_mul_le(g, d, u);
    lemma_mul_le(f, d, val(anp1));
    lemma_mul_le(f, d, val(bnp1));
    // v <= 2 t
    lemma_mul_nonneg(2real * k + 12real, ulp());
    lemma_mul_le(g, 1real, t);
    lemma_mul_le(v, 2real * t, f);
    assert(f * (2real * t) == (12real * ulp()) * t) by {
        lemma_assoc(f, 2real, t);
        lemma_assoc(2real, f, t);
    }
    lemma_distrib(t, g, 12real * ulp());
    lemma_mul_le(g + 12real * ulp(), d, t);
    let r = val(top / bot);
    assert(abs(r * w - t) <= d * t);
    // r u against t
    let z = r * w;
    let y = r * u;
    lemma_abs_product(r, w - u, r, d * u);
    lemma_distrib(r, w - u, u);
    lemma_assoc(r, d, u);
    lemma_assoc(d, r, u);
    assert(abs(z - y) <= d * y);
    lemma_mul_nonneg(r, u);
    lemma_mul_le(d, 1real / 1000real, y);
    lemma_mul_le(d, 1real / 1000real, t);
    assert(t <= y + y / 400real);
    lemma_mul_le(t, 2real * y, d);
    assert(d * (2real * y) == 2real * (d * y)) by {
        lemma_assoc(d, 2real, y);
        lemma_assoc(2real, d, y);
    }
    lemma_assoc(3real, d, y);
}

/// Two convergents that agree, as real numbers.
proof fn lemma_agree(r1: F64, r: F64, eps: F64)
    requires
        sized(r1) && sized(r),
        eps.is_finite() && 0real < val(eps) <= 1real / 1000real,
        1real <= val(eps) * power(60),
        (r1 - r).abs().le(eps * r1),
    ensures
        abs(val(r1) - val(r)) <= (2real * val(eps)) * val(r1),
{
    broadcast use lemma_le_units;
    lemma_sized(r1);
    lemma_sized(r);
    let e = val(eps);
    let x = val(r1);
    let y = val(r);
    lemma_eps_product(eps, r1);
    let q = eps * r1;
    let d = r1 - r;
    crate::float::laws::law_negation(d);
    lemma_power_adds(300, 1000);
    lemma_power_adds(300, 300);
    lemma_power_adds(301, 1000);
    crate::float::value::law_negated_value(r);
    lemma_sum_stays_finite(r1, r.negated());
    law_difference_value(r1, r);
    lemma_order(d.enc() as int, 0);
    lemma_value_order(d.abs(), q);
    assert(val(d.abs()) == abs(val(d))) by {
        lemma_abs_value(d);
    }
    let w = abs(x - y);
    lemma_mul_le(ulp(), 1real / 1000real, w);
    assert(w <= abs(val(d)) + w / 1000real);
    lemma_assoc(2real, e, x);
}

/// The tolerance times a convergent.
proof fn lemma_eps_product(eps: F64, r1: F64)
    requires
        sized(r1),
        eps.is_finite() && 0real < val(eps) <= 1real / 1000real,
        1real <= val(eps) * power(60),
    ensures
        (eps * r1).is_finite(),
        val(eps * r1) <= (val(eps) * val(r1)) * (3real / 2real),
        val(eps * r1) >= (val(eps) * val(r1)) * (99real / 100real),
        val(eps) * val(r1) > 0real,
{
    lemma_sized(r1);
    let e = val(eps);
    let x = val(r1);
    lemma_power_adds(60, 0);
    assert(0real * ulp() * e == 0real);
    assert(rel(eps, e, 0real, 60));
    lemma_rel_product(eps, e, 0real, 60, r1, x, 0real, 300);
    let k = 2real * (0real + 2real * 0real + 4real);
    let m = e * x;
    lemma_few_roundings(k);
    lemma_mul_le(k * ulp(), 1real / 4000real, m);
}

proof fn lemma_value_order(a: F64, b: F64)
    requires
        a.is_finite() && b.is_finite(),
    ensures
        a.le(b) <==> val(a) <= val(b),
{
    broadcast use lemma_le_units;
    lemma_scale();
    let d = scale_of_units();
    let x = a.units() as real;
    let y = b.units() as real;
    let p = x / d;
    let q = y / d;
    assert(p * d == x && q * d == y) by (nonlinear_arith)
        requires
            p == x / d,
            q == y / d,
            d > 0real,
    ;
    if p <= q {
        lemma_mul_le(p, q, d);
    } else {
        lemma_strictly(q, p, d);
    }
}

proof fn lemma_abs_value(a: F64)
    requires
        a.is_finite(),
    ensures
        val(a.abs()) == abs(val(a)),
        a.abs().is_finite(),
{
    crate::float::laws::law_negation(a);
    lemma_order(a.enc() as int, 0);
    crate::float::value::law_negated_value(a);
    lemma_zero_is_least(a.abs());
    if a.sign() {
        assert(a.abs() == a.negated());
    } else {
        assert(a.abs() == a);
    }
}

proof fn lemma_zero_is_least(a: F64)
    requires
        a.is_finite(),
        a.units() >= 0,
    ensures
        val(a) >= 0real,
{
    lemma_scale();
    let d = scale_of_units();
    let x = a.units() as real;
    let p = x / d;
    assert(p >= 0real) by (nonlinear_arith)
        requires
            p == x / d,
            x >= 0real,
            d > 0real,
    ;
}

/// What the numbers of a round stand for: the quotient that they make up with the rest of the
/// fraction is `z`, to within `f` of it.
pub open spec fn stands_for(
    ea: real,
    v: real,
    an: F64,
    anp1: F64,
    bn: F64,
    bnp1: F64,
    z: real,
    f: real,
) -> bool {
    let n = ea * val(an) + v * val(anp1);
    let d = ea * val(bn) + v * val(bnp1);
    d > 0real && abs(n - z * d) <= f * (z * d)
}

/// A round keeps what the numbers stand for.
proof fn lemma_kept(
    al: F64,
    ea: real,
    be: F64,
    eb: real,
    k: real,
    an: F64,
    anp1: F64,
    bn: F64,
    bnp1: F64,
    ea2: real,
    v2: real,
    z: real,
    f: real,
    d: real,
)
    requires
        approx(al, ea, ea, k),
        approx(be, eb, eb, k),
        ea >= 0real,
        eb > 0real,
        ea2 >= 0real,
        v2 > 0real,
        z > 0real,
        0real <= k <= 10000000000real,
        an.is_finite() && val(an) >= 0real,
        bn.is_finite() && val(bn) >= 0real,
        sized(anp1) && sized(bnp1),
        sized(al * an + be * anp1) && sized(al * bn + be * bnp1),
        (2real * k + 40real) * ulp() <= d,
        d <= 1real / 1000real,
        0real <= f <= 1real / 1000real,
        stands_for(ea, eb + ea2 / v2, an, anp1, bn, bnp1, z, f),
    ensures
        ({
            let top = al * an + be * anp1;
            let bot = al * bn + be * bnp1;
            let t = ea * val(an) + eb * val(anp1);
            let u = ea * val(bn) + eb * val(bnp1);
            let n1 = ea2 * val(anp1) + v2 * t;
            let d1 = ea2 * val(bnp1) + v2 * u;
            &&& stands_for(ea2, v2, anp1 / bot, top / bot, bnp1 / bot, lit(ONE), z, f + 4real * d)
            &&& d1 > 0real
            &&& abs(n1 - z * d1) <= f * (z * d1)
        }),
{
    let top = al * an + be * anp1;
    let bot = al * bn + be * bnp1;
    let t = ea * val(an) + eb * val(anp1);
    let u = ea * val(bn) + eb * val(bnp1);
    let q = ea2 / v2;
    let v = eb + q;
    lemma_round_values(al, ea, be, eb, k, an, anp1, bn, bnp1, d);
    lemma_sized(anp1);
    lemma_sized(bnp1);
    lemma_one();
    // v2 times the combinations
    assert(v2 * q == ea2) by (nonlinear_arith)
        requires
            q == ea2 / v2,
            v2 > 0real,
    ;
    let n0 = ea * val(an) + v * val(anp1);
    let d0 = ea * val(bn) + v * val(bnp1);
    let n1 = ea2 * val(anp1) + v2 * t;
    let d1 = ea2 * val(bnp1) + v2 * u;
    assert(v2 * n0 == n1) by {
        lemma_distrib(val(anp1), eb, q);
        lemma_distrib(v2, t, q * val(anp1));
        lemma_assoc(v2, q, val(anp1));
    }
    assert(v2 * d0 == d1) by {
        lemma_distrib(val(bnp1), eb, q);
        lemma_distrib(v2, u, q * val(bnp1));
        lemma_assoc(v2, q, val(bnp1));
    }
    lemma_strictly(0real, d0, v2);
    assert(0real * v2 == 0real);
    lemma_assoc(d0, v2, 1real);
    assert(d1 > 0real);
    lemma_abs_product(v2, n0 - z * d0, v2, f * (z * d0));
    lemma_distrib(v2, n0 - z * d0, z * d0);
    assert(v2 * (z * d0) == z * d1) by {
        lemma_assoc(v2, z, d0);
        lemma_assoc(z, v2, d0);
    }
    assert(v2 * (f * (z * d0)) == f * (z * d1)) by {
        lemma_assoc(v2, f, z * d0);
        lemma_assoc(f, v2, z * d0);
    }
    assert(abs(n1 - z * d1) <= f * (z * d1));
    // the next numbers, times the denominator
    let w = val(bot);
    let a1 = val(anp1 / bot);
    let r1 = val(top / bot);
    let b1 = val(bnp1 / bot);
    lemma_mul_nonneg(ea2, val(anp1));
    lemma_mul_nonneg(v2, t);
    lemma_mul_nonneg(2real * k + 40real, ulp());
    lemma_weighted(ea2, v2, val(anp1), t, a1 * w, r1 * w, d);
    lemma_weighted(ea2, v2, val(bnp1), u, b1 * w, w, d);
    let n2 = ea2 * (a1 * w) + v2 * (r1 * w);
    let d2 = ea2 * (b1 * w) + v2 * w;
    lemma_carried(n1, d1, z, n2, d2, f, d);
    let np = ea2 * a1 + v2 * r1;
    let dp = ea2 * b1 + v2 * val(lit(ONE));
    assert(v2 * val(lit(ONE)) == v2);
    assert(np * w == n2) by {
        lemma_distrib(w, ea2 * a1, v2 * r1);
        lemma_assoc(ea2, a1, w);
        lemma_assoc(v2, r1, w);
    }
    assert(dp * w == d2) by {
        lemma_distrib(w, ea2 * b1, v2);
        lemma_assoc(ea2, b1, w);
    }
    let g = f + 4real * d;
    lemma_divided_out(np, dp, z, g, w);
}

/// A common factor is taken out.
proof fn lemma_divided_out(n: real, d: real, z: real, g: real, w: real)
    requires
        w > 0real,
        d * w > 0real,
        abs(n * w - z * (d * w)) <= g * (z * (d * w)),
    ensures
        d > 0real,
        abs(n - z * d) <= g * (z * d),
{
    if d <= 0real {
        lemma_mul_le(d, 0real, w);
        assert(0real * w == 0real);
    }
    let e = z * d;
    assert(z * (d * w) == e * w) by {
        lemma_assoc(z, d, w);
    }
    assert(g * (e * w) == (g * e) * w) by {
        lemma_assoc(g, e, w);
    }
    lemma_distrib(w, n - e, e);
    let c = g * e;
    if n - e > c {
        lemma_strictly(c, n - e, w);
    }
    if e - n > c {
        lemma_strictly(c, e - n, w);
        lemma_distrib(w, n - e, e - n);
        assert(0real * w == 0real);
    }
}

/// The convergent that the search ends with.
proof fn lemma_rounds(
    a: F64,
    b: F64,
    x: F64,
    c: F64,
    c0: F64,
    c1: F64,
    yp1: F64,
    eps: F64,
    n: int,
    p: F64,
    s: F64,
    an: F64,
    anp1: F64,
    bn: F64,
    bnp1: F64,
    r: F64,
    left: u64,
    last: int,
    z: real,
    f: real,
)
    requires
        at_place(a, b, x, c, c0, c1, yp1, p, s, n),
        val(a) <= 1000000000real,
        b == count(last),
        2 <= last <= 1000000,
        1 <= n <= last,
        left > last - n,
        val(yp1) >= 1real,
        val(c) >= 1real,
        eps.is_finite() && 60real * ulp() <= val(eps) <= 1real / 1000real,
        an.is_finite() && val(an) >= 0real,
        bn.is_finite() && val(bn) >= 0real,
        sized(anp1) && sized(bnp1) && sized(r),
        n >= 2 ==> anp1 == r && bnp1 == lit(ONE),
        abs(val(anp1) - val(r) * val(bnp1)) <= (40real * ulp()) * (val(r) * val(bnp1)),
        calm(a, b, x, c, c0, c1, yp1, eps, n, p, s, an, anp1, bn, bnp1, r, last),
        z > 0real,
        0real <= f,
        f + 4real * ((last - n + 1) as real) * per_round(last) <= 1real / 1000real,
        stands_for(
            numerator(val(a), last as real, val(x), n as real),
            fraction(val(a), last, val(x), val(yp1) - 1real, val(c) - 1real, n),
            an,
            anp1,
            bn,
            bnp1,
            z,
            f,
        ),
    ensures
        ({
            let q = frac_convergents(
                a,
                b,
                x,
                c,
                c0,
                c1,
                yp1,
                eps,
                count(n - 1),
                p,
                s,
                an,
                anp1,
                bn,
                bnp1,
                r,
                left,
            );
            let g = f + 4real * ((last - n + 1) as real) * per_round(last);
            &&& sized(q)
            &&& abs(val(q) - z) <= 2real * (g + (3real * val(eps) + 4real * per_round(last))) * z
        }),
    decreases last - n,
{
    let av = val(a);
    let bv = last as real;
    let xv = val(x);
    let yv = val(yp1) - 1real;
    let lv = val(c) - 1real;
    let nr = n as real;
    let d = per_round(last);
    lemma_count(last);
    lemma_next_count(n - 1);
    lemma_few_roundings(2200real + 200real * bv);
    assert(d <= 1real / 4000real);
    let ea = numerator(av, bv, xv, nr);
    let eb = denominator(av, bv, xv, yv, lv, nr);
    lemma_terms_positive(av, bv, xv, yv, lv, nr);
    lemma_fraction_positive(av, last, xv, yv, lv, n);
    let alpha = round_alpha(a, b, x, c0, p, s, n);
    let beta = round_beta(a, b, x, c, c1, yp1, s, n);
    let top = alpha * an + beta * anp1;
    let bot = alpha * bn + beta * bnp1;
    let r1 = top / bot;
    lemma_eps_floor(eps);
    let g = f + 4real * ((last - n + 1) as real) * d;
    let rest = (last - n) as real;
    assert((last - n + 1) as real == rest + 1real);
    lemma_distrib(d, 4real * rest, 4real);
    assert(4real * (rest + 1real) * d == 4real * rest * d + 4real * d);
    lemma_mul_nonneg(2200real + 200real * bv, ulp());
    lemma_mul_nonneg(4real * rest, d);
    let e0 = val(eps);
    let gg = 3real * e0 + 4real * d;
    if n < last {
        let k = 1000real + 48real * (2real * nr);
        lemma_alpha(a, b, x, c, c0, c1, yp1, p, s, n);
        lemma_beta(a, b, x, c, c0, c1, yp1, p, s, n);
        lemma_rel_wider(beta, eb, 300real + 48real * (2real * nr), 190, k, 190);
        lemma_rel_bounds(alpha, ea, k, 383);
        lemma_rel_bounds(beta, eb, k, 190);
        assert((2real * k + 40real) * ulp() <= d) by {
            lemma_mul_le(2real * k + 40real, 2200real + 200real * bv, ulp());
        }
        let ea2 = numerator(av, bv, xv, (n + 1) as real);
        let v2 = fraction(av, last, xv, yv, lv, n + 1);
        lemma_terms_positive(av, bv, xv, yv, lv, (n + 1) as real);
        lemma_fraction_positive(av, last, xv, yv, lv, n + 1);
        lemma_kept(alpha, ea, beta, eb, k, an, anp1, bn, bnp1, ea2, v2, z, f, d);
        lemma_round_values(alpha, ea, beta, eb, k, an, anp1, bn, bnp1, d);
        if (r1 - r).abs().le(eps * r1) {
            lemma_agree(r1, r, eps);
            lemma_stops(an, anp1, bn, bnp1, r, r1, ea, eb, ea2, v2, e0, d, f, z);
            lemma_final(val(r1), z, f, g, gg);
        } else {
            lemma_next_place(a, b, x, c, c0, c1, yp1, p, s, n);
            lemma_one();
            lemma_sized_one();
            lemma_sized(anp1 / bot);
            lemma_sized(bnp1 / bot);
            lemma_sized(r1);
            assert(val(r1) * 1real == val(r1));
            lemma_mul_nonneg(40real * ulp(), val(r1));
            assert((last - (n + 1) + 1) as real == rest);
            lemma_rounds(
                a,
                b,
                x,
                c,
                c0,
                c1,
                yp1,
                eps,
                n + 1,
                lit(ONE) + count(n) / a,
                s + lit(TWO),
                anp1 / bot,
                r1,
                bnp1 / bot,
                lit(ONE),
                r1,
                (left - 1) as u64,
                last,
                z,
                f + 4real * d,
            );
        }
    } else {
        lemma_last_coefficients(a, b, x, c, c0, c1, yp1, p, s, n);
        lemma_last_stops(alpha, beta, an, anp1, bn, r, eps);
        let v = fraction(av, last, xv, yv, lv, n);
        lemma_last_value(v, an, r, bn, r1, z, f, gg);
        lemma_final(val(r1), z, f, g, gg);
    }
}

proof fn lemma_final(r: real, z: real, f: real, g: real, h: real)
    requires
        abs(r - z) <= 2real * (f + h) * z,
        f <= g,
        z > 0real,
    ensures
        abs(r - z) <= 2real * (g + h) * z,
{
    lemma_mul_le(2real * (f + h), 2real * (g + h), z);
}

proof fn lemma_eps_floor(eps: F64)
    requires
        60real * ulp() <= val(eps),
    ensures
        1real <= val(eps) * power(60),
{
    lemma2_to64_rest();
    assert(power(60) == 1152921504606846976real);
    lemma_mul_le(60real * ulp(), val(eps), power(60));
    assert(60real * ulp() * 1152921504606846976real >= 1real);
}

proof fn lemma_sized_one()
    ensures
        sized(lit(ONE)),
        val(lit(ONE)) == 1real,
{
    lemma_one();
    lemma_power_adds(300, 0);
    assert(1real * power(300) == power(300));
    lemma_count(1);
    lemma_next_count(0);
}

/// Two convergents agree: what the whole fraction is then.
proof fn lemma_stops(
    an: F64,
    anp1: F64,
    bn: F64,
    bnp1: F64,
    r: F64,
    r1: F64,
    ea: real,
    eb: real,
    ea2: real,
    v2: real,
    e0: real,
    d: real,
    f: real,
    z: real,
)
    requires
        sized(anp1) && sized(bnp1) && sized(r) && sized(r1),
        ea2 >= 0real,
        v2 > 0real,
        60real * ulp() <= e0 <= 1real / 1000real,
        2200real * ulp() <= d <= 1real / 4000real,
        0real <= f <= 1real / 1000real,
        z > 0real,
        abs(val(anp1) - val(r) * val(bnp1)) <= (40real * ulp()) * (val(r) * val(bnp1)),
        abs(val(r1) - val(r)) <= (2real * e0) * val(r1),
        ({
            let t = ea * val(an) + eb * val(anp1);
            let u = ea * val(bn) + eb * val(bnp1);
            let n1 = ea2 * val(anp1) + v2 * t;
            let d1 = ea2 * val(bnp1) + v2 * u;
            &&& u > 0real
            &&& d1 > 0real
            &&& abs(n1 - z * d1) <= f * (z * d1)
            &&& abs(t - val(r1) * u) <= (3real * d) * (val(r1) * u)
        }),
    ensures
        abs(val(r1) - z) <= 2real * (f + (3real * e0 + 4real * d)) * z,
{
    let t = ea * val(an) + eb * val(anp1);
    let u = ea * val(bn) + eb * val(bnp1);
    let n1 = ea2 * val(anp1) + v2 * t;
    let d1 = ea2 * val(bnp1) + v2 * u;
    lemma_sized(anp1);
    lemma_sized(bnp1);
    lemma_sized(r);
    lemma_sized(r1);
    let x = val(r1);
    let y = val(r);
    let w = val(bnp1);
    let gg = 3real * e0 + 4real * d;
    // y w against x w
    lemma_abs_product(x - y, w, (2real * e0) * x, w);
    lemma_distrib(w, x - y, y);
    lemma_assoc(2real * e0, x, w);
    let p = x * w;
    let q = y * w;
    assert((x - y) * w == p - q);
    assert(abs(p - q) <= (2real * e0) * p);
    lemma_mul_nonneg(x, w);
    lemma_mul_le(2real * e0, 1real, p);
    assert(q <= 2real * p);
    lemma_mul_le(q, 2real * p, 40real * ulp());
    assert((40real * ulp()) * (2real * p) == (80real * ulp()) * p) by {
        lemma_assoc(40real * ulp(), 2real, p);
        lemma_assoc(2real, 40real * ulp(), p);
    }
    assert(abs(val(anp1) - p) <= (2real * e0) * p + (80real * ulp()) * p);
    lemma_distrib(p, 2real * e0, 80real * ulp());
    lemma_mul_le(2real * e0 + 80real * ulp(), gg, p);
    lemma_mul_nonneg(x, u);
    lemma_mul_le(3real * d, gg, x * u);
    lemma_weighted(ea2, v2, p, x * u, val(anp1), t, gg);
    assert(ea2 * p + v2 * (x * u) == x * d1) by {
        lemma_assoc(ea2, x, w);
        lemma_assoc(x, ea2, w);
        lemma_assoc(v2, x, u);
        lemma_assoc(x, v2, u);
        lemma_distrib(x, ea2 * w, v2 * u);
    }
    lemma_ended(n1, d1, z, x, f, gg);
}

/// In the last round the convergents agree.
proof fn lemma_last_stops(al: F64, be: F64, an: F64, anp1: F64, bn: F64, r: F64, eps: F64)
    requires
        approx(al, 0real, 0real, 0real),
        be.is_finite() && val(be) > 0real,
        an.is_finite() && val(an) >= 0real,
        bn.is_finite() && val(bn) >= 0real,
        sized(r),
        anp1 == r,
        sized(al * an + be * r) && sized(al * bn + be * lit(ONE)),
        sized((al * an + be * r) / (al * bn + be * lit(ONE))),
        eps.is_finite() && 60real * ulp() <= val(eps) <= 1real / 1000real,
    ensures
        ({
            let r1 = (al * an + be * r) / (al * bn + be * lit(ONE));
            &&& (r1 - r).abs().le(eps * r1)
            &&& abs(val(r) - val(r1) * val(lit(ONE))) <= (40real * ulp()) * (val(r1) * val(lit(ONE)))
        }),
{
    let top = al * an + be * r;
    let bot = al * bn + be * lit(ONE);
    let r1 = top / bot;
    let h = val(be);
    let x = val(r);
    let u = ulp();
    lemma_sized_one();
    lemma_sized(r);
    lemma_sized(r1);
    lemma_sized(top);
    lemma_sized(bot);
    lemma_approx_self(be);
    lemma_approx_wider(be, h, h, 0real, h, 0real);
    lemma_combination(al, 0real, be, h, 0real, an, r);
    lemma_combination(al, 0real, be, h, 0real, bn, lit(ONE));
    lemma_quotient_back(top, bot);
    assert(0real * val(an) == 0real && 0real * val(bn) == 0real);
    assert(h * 1real == h);
    let t = h * x;
    let v = val(top);
    let w = val(bot);
    let y = val(r1);
    lemma_strictly(0real, h, x);
    assert(0real * x == 0real);
    assert((2real * 0real + 12real) * u == 12real * u);
    assert(abs(v - t) <= (12real * u) * t);
    assert(abs(w - h) <= (12real * u) * h);
    assert(abs(y * w - v) <= (6real * u) * v);
    lemma_mul_le(12real * u, 1real / 1000real, t);
    lemma_mul_le(v, t + t / 1000real, 6real * u);
    lemma_distrib(6real * u, t, t / 1000real);
    let ut = u * t;
    lemma_mul_nonneg(u, t);
    lemma_assoc(12real, u, t);
    lemma_assoc(6real, u, t);
    assert((6real * u) * (t / 1000real) == (6real * ut) / 1000real) by {
        lemma_assoc(6real * u, t, 1real / 1000real);
        assert(t * (1real / 1000real) == t / 1000real);
        assert(((6real * u) * t) * (1real / 1000real) == ((6real * u) * t) / 1000real);
    }
    assert(abs(y * w - t) <= 19real * ut);
    // x w against x h
    lemma_abs_product(x, w - h, x, (12real * u) * h);
    lemma_distrib(x, w - h, h);
    assert(x * ((12real * u) * h) == 12real * ut) by {
        lemma_assoc(x, 12real * u, h);
        lemma_assoc(12real * u, x, h);
        lemma_assoc(x, h, 1real);
        lemma_assoc(h, x, 1real);
        lemma_assoc(12real, u, t);
    }
    assert(x * h == t) by {
        lemma_assoc(x, h, 1real);
    }
    assert(abs(x * w - t) <= 12real * ut);
    let z = x * w;
    lemma_mul_le(u, 1real / 1000real, t);
    assert(t <= z + z / 10real);
    lemma_mul_le(t, z + z / 10real, u);
    let uz = u * z;
    assert(u * (z + z / 10real) == uz + uz / 10real) by {
        lemma_distrib(u, z, z / 10real);
        lemma_assoc(u, z, 1real / 10real);
        assert(z * (1real / 10real) == z / 10real);
        assert((u * z) * (1real / 10real) == (u * z) / 10real);
    }
    assert(abs(y * w - z) <= 35real * uz);
    // take w out
    lemma_distrib(w, y - x, x);
    assert(35real * uz == (35real * (u * x)) * w) by {
        lemma_assoc(u, x, w);
        lemma_assoc(35real, u * x, w);
    }
    let c = 35real * (u * x);
    assert(abs(y - x) <= c) by {
        if y - x > c {
            lemma_strictly(c, y - x, w);
        }
        if x - y > c {
            lemma_strictly(c, x - y, w);
            lemma_distrib(w, y - x, x - y);
            assert(0real * w == 0real);
        }
    }
    lemma_mul_le(u, 1real / 1000000real, x);
    assert(x <= y + y / 1000real);
    lemma_mul_le(x, y + y / 1000real, u);
    let uy = u * y;
    assert(u * (y + y / 1000real) == uy + uy / 1000real) by {
        lemma_distrib(u, y, y / 1000real);
        lemma_assoc(u, y, 1real / 1000real);
        assert(y * (1real / 1000real) == y / 1000real);
        assert((u * y) * (1real / 1000real) == (u * y) / 1000real);
    }
    lemma_mul_nonneg(u, y);
    assert(abs(y - x) <= 36real * uy);
    lemma_assoc(40real, u, y);
    assert(y * val(lit(ONE)) == y);
    // the comparison
    lemma_eps_floor(eps);
    lemma_eps_product(eps, r1);
    let q = eps * r1;
    lemma_mul_le(60real * u, val(eps), y);
    lemma_assoc(60real, u, y);
    let e = r1 - r;
    crate::float::value::law_negated_value(r);
    lemma_power_adds(300, 1000);
    lemma_power_adds(301, 1000);
    lemma_sum_stays_finite(r1, r.negated());
    law_difference_value(r1, r);
    lemma_mul_le(u, 1real / 1000real, abs(y - x));
    lemma_abs_value(e);
    lemma_value_order(e.abs(), q);
}

/// What the whole fraction is at the last round.
proof fn lemma_last_value(v: real, an: F64, r: F64, bn: F64, r1: F64, z: real, f: real, g: real)
    requires
        v > 0real,
        z > 0real,
        sized(r) && sized(r1),
        stands_for(0real, v, an, r, bn, lit(ONE), z, f),
        0real <= f <= 1real / 1000real,
        40real * ulp() <= g <= 1real / 100real,
        abs(val(r) - val(r1) * val(lit(ONE))) <= (40real * ulp()) * (val(r1) * val(lit(ONE))),
    ensures
        abs(val(r1) - z) <= 2real * (f + g) * z,
{
    lemma_sized_one();
    lemma_sized(r);
    lemma_sized(r1);
    let x = val(r);
    assert(0real * val(an) == 0real && 0real * val(bn) == 0real);
    assert(v * 1real == v && 1real * v == v);
    lemma_assoc(v, x, 1real);
    lemma_divided_out(x, 1real, z, f, v);
    assert(z * 1real == z);
    assert(val(r1) * 1real == val(r1));
    lemma_mul_le(40real * ulp(), g, val(r1));
    lemma_ended(x, 1real, z, val(r1), f, g);
}

/// The whole continued fraction.
pub open spec fn whole_fraction(a: real, b: int, x: real, y: real, l: real) -> real {
    1real / ((1real + l) / (1real + 1real / a) + numerator(a, b as real, x, 1real) / fraction(
        a,
        b,
        x,
        y,
        l,
        1,
    ))
}

/// The arguments of the fraction: a first parameter from one on, a whole second one, arguments
/// that are not tiny, and the distance from the mean.
pub open spec fn fraction_arguments(a: F64, b: F64, x: F64, y: F64, lambda: F64, eps: F64, whole: int) -> bool {
    &&& a.is_finite() && 1real <= val(a) <= 1000000000real
    &&& 2 <= whole <= 1000000 && b == count(whole)
    &&& x.is_finite() && 1real <= val(x) * 1000000000real && val(x) <= 1real
    &&& y.is_finite() && 0real <= val(y) <= 1real
    &&& lambda.is_finite() && 0real <= val(lambda) <= 1000000000real
    &&& val(lit(ONE) + lambda) >= 1real && val(y + lit(ONE)) >= 1real
    &&& eps.is_finite() && 60real * ulp() <= val(eps) <= 1real / 1000real
    &&& (4real * (whole as real) + 8real) * per_round(whole) <= 1real / 1000real
    &&& ({
        let c = lit(ONE) + lambda;
        let c1 = lit(ONE) + lit(ONE) / a;
        calm(
            a,
            b,
            x,
            c,
            b / a,
            c1,
            y + lit(ONE),
            eps,
            1,
            lit(ONE),
            a + lit(ONE),
            lit(ZERO),
            lit(ONE),
            lit(ONE),
            c / c1,
            c1 / c,
            whole,
        )
    })
}

/// A number between 1 and 2^30, or so, stands for itself.
proof fn lemma_plain(v: F64, i: nat)
    requires
        v.is_finite(),
        0real < val(v) <= power(i),
        1real <= val(v) * power(i),
    ensures
        rel(v, val(v), 0real, i),
{
    assert(0real * ulp() * val(v) == 0real);
}

/// Where the rounds start from.
proof fn lemma_start(a: F64, b: F64, x: F64, y: F64, lambda: F64, eps: F64, whole: int)
    requires
        fraction_arguments(a, b, x, y, lambda, eps, whole),
    ensures
        ({
            let c = lit(ONE) + lambda;
            let c1 = lit(ONE) + lit(ONE) / a;
            &&& at_place(a, b, x, c, b / a, c1, y + lit(ONE), lit(ONE), a + lit(ONE), 1)
            &&& sized(c / c1) && sized(c1 / c)
            &&& rel(c / c1, val(c) / (1real + 1real / val(a)), 22real, 62)
            &&& abs(1real - val(c1 / c) * val(c / c1)) <= (40real * ulp()) * (val(c1 / c) * val(c / c1))
        }),
{
    let c = lit(ONE) + lambda;
    let c1 = lit(ONE) + lit(ONE) / a;
    let av = val(a);
    lemma_one();
    lemma2_to64();
    lemma2_to64_rest();
    assert(power(30) == 1073741824real && power(31) == 2147483648real && power(33) == 8589934592real);
    lemma_mul_le(1real, av, power(30));
    lemma_plain(a, 30);
    lemma_count_rel(whole);
    lemma_count(whole);
    lemma_mul_le(1000000000real, power(30), val(x));
    lemma_plain(x, 30);
    // c
    lemma_power_adds(31, 1000);
    lemma_sum_stays_finite(lit(ONE), lambda);
    law_sum_value(lit(ONE), lambda);
    lemma_mul_le(ulp(), 1real / 100real, 1real + val(lambda));
    lemma_mul_le(1real, val(c), power(31));
    lemma_plain(c, 31);
    // y + 1
    let yp1 = y + lit(ONE);
    lemma_sum_stays_finite(y, lit(ONE));
    law_sum_value(y, lit(ONE));
    lemma_mul_le(ulp(), 1real / 100real, val(y) + 1real);
    lemma_mul_le(1real, val(yp1), power(31));
    lemma_plain(yp1, 31);
    // the others
    lemma_rel_quotient(b, val(b), 0real, 30, a, av, 0real, 30);
    lemma_rel_quotient(lit(ONE), 1real, 0real, 0, a, av, 0real, 30);
    lemma_rel_sum(lit(ONE), 1real, 0real, 0, lit(ONE) / a, 1real / av, 6real, 30);
    let q = 1real / av;
    lemma_power_adds(0, 61);
    assert(0real / av == 0real) by (nonlinear_arith)
        requires
            av > 0real,
    ;
    assert(1real + (1int as real - 1real) / av == 1real);
    lemma_rel_wider(lit(ONE), 1real, 0real, 0, 8real, 61);
    lemma_rel_sum(a, av, 0real, 30, lit(ONE), 1real, 0real, 0);
    lemma_rel_wider(a + lit(ONE), av + 1real, 2real, 31, 2real, 33);
    assert(av + 2real * (1int as real) - 1real == av + 1real);
    // the first convergent
    let e1 = 1real + q;
    lemma_rel_quotient(c, val(c), 0real, 31, c1, e1, 8real, 31);
    lemma_rel_quotient(c1, e1, 8real, 31, c, val(c), 0real, 31);
    lemma_rel_sized(c / c1, val(c) / e1, 22real, 62);
    lemma_rel_sized(c1 / c, e1 / val(c), 22real, 62);
    // by the number itself
    lemma_rel_bounds(c1, e1, 8real, 31);
    lemma_over(1real, av);
    let f1 = val(c1);
    assert(f1 >= 1real / 2real && f1 <= 4real) by {
        lemma_mul_le(1real, av, q);
        assert(q <= 1real);
    }
    lemma_mul_le(1real / 2real, f1, power(31));
    lemma_plain(c1, 31);
    lemma_rel_quotient(c, val(c), 0real, 31, c1, f1, 0real, 31);
    lemma_rel_quotient(c1, f1, 0real, 31, c, val(c), 0real, 31);
    let g = val(c) / f1;
    let h = f1 / val(c);
    assert(g * h == 1real) by {
        lemma_over(val(c), f1);
        lemma_over(f1, val(c));
        // g f1 = C, h C = f1
        lemma_assoc(g, h, val(c));
        assert((g * h) * val(c) == val(c)) by {
            lemma_assoc(g, h, val(c));
        }
        lemma_cancel(g * h, 1real, val(c));
    }
    lemma_product_of_inverses(val(c1 / c), h, val(c / c1), g);
}

proof fn lemma_cancel(a: real, b: real, c: real)
    requires
        a * c == b * c,
        c > 0real,
    ensures
        a == b,
{
    if a < b {
        lemma_strictly(a, b, c);
    }
    if b < a {
        lemma_strictly(b, a, c);
    }
}

/// Numbers near two whose product is one.
proof fn lemma_product_of_inverses(x: real, h: real, y: real, g: real)
    requires
        h > 0real,
        g > 0real,
        g * h == 1real,
        abs(x - h) <= 6real * ulp() * h,
        abs(y - g) <= 6real * ulp() * g,
    ensures
        abs(1real - x * y) <= (40real * ulp()) * (x * y),
{
    let u = 6real * ulp();
    lemma_mul_le(u, 1real / 1000real, h);
    lemma_mul_le(u, 1real / 1000real, g);
    // x y - h g = (x - h) y + h (y - g)
    lemma_abs_product(x - h, y, u * h, 2real * g);
    lemma_abs_product(h, y - g, h, u * g);
    lemma_distrib(y, x - h, h);
    lemma_distrib(h, y - g, g);
    assert((u * h) * (2real * g) == 2real * u) by {
        lemma_assoc(u, h, 2real * g);
        lemma_assoc(h, 2real, g);
        lemma_assoc(2real, h, g);
        lemma_assoc(g, h, 1real);
        lemma_assoc(h, g, 1real);
        assert(h * (2real * g) == 2real * (h * g));
        assert(2real * (h * g) == 2real);
        lemma_assoc(u, 2real, 1real);
    }
    assert(h * (u * g) == u) by {
        lemma_assoc(h, u, g);
        lemma_assoc(u, h, g);
        lemma_assoc(g, h, 1real);
        assert(u * 1real == u);
    }
    assert(h * g == 1real) by {
        lemma_assoc(g, h, 1real);
    }
    let p = x * y;
    assert(abs(p - 1real) <= 3real * u);
    assert(p >= 1real / 2real);
    lemma_mul_le(1real / 2real, p, 40real * ulp());
}

proof fn lemma_rel_sized(v: F64, e: real, k: real, i: nat)
    requires
        rel(v, e, k, i),
        k <= 1000000real,
        i <= 290,
    ensures
        sized(v),
{
    lemma_rel_bounds(v, e, k, i);
    lemma_power_adds(i, 290);
    lemma_power_adds(10, 290);
    lemma2_to64();
    assert(power(10) == 1024real);
    assert(power(300) == 1024real * power(290));
    lemma_mul_le(power(i), power(290), e);
    let p = power(290);
    assert(1real <= e * p);
    lemma_mul_le(e, 2real * val(v), p);
    lemma_assoc(2real, val(v), p);
    lemma_assoc(val(v), 1024real, p);
    lemma_assoc(1024real, val(v), p);
    lemma_mul_nonneg(val(v), p);
}

/// The lower ratio by its continued fraction is what stands in front of the fraction times the
/// value of the whole fraction, to within the tolerance and rounding, for a whole second
/// parameter.
pub proof fn law_beta_fraction<M: Fn(Elementary) -> F64>(
    m: &M,
    a: F64,
    b: F64,
    x: F64,
    y: F64,
    lambda: F64,
    eps: F64,
    whole: int,
)
    requires
        fraction_arguments(a, b, x, y, lambda, eps, whole),
        sized(beta_rcomp(m, a, b, x, y)),
    ensures
        ({
            let front = val(beta_rcomp(m, a, b, x, y));
            let z = whole_fraction(
                val(a),
                whole,
                val(x),
                val(y + lit(ONE)) - 1real,
                val(lit(ONE) + lambda) - 1real,
            );
            let g = 6real * val(eps) + (8real * (whole as real) + 20real) * per_round(whole);
            &&& z > 0real
            &&& beta_frac(m, a, b, x, y, lambda, eps).is_finite()
            &&& abs(val(beta_frac(m, a, b, x, y, lambda, eps)) - front * z) <= g * (front * z)
        }),
{
    reveal(beta_frac_spec);
    let c = lit(ONE) + lambda;
    let c1 = lit(ONE) + lit(ONE) / a;
    let yp1 = y + lit(ONE);
    let front = beta_rcomp(m, a, b, x, y);
    let av = val(a);
    let xv = val(x);
    let yv = val(yp1) - 1real;
    let lv = val(c) - 1real;
    lemma_start(a, b, x, y, lambda, eps, whole);
    lemma_one();
    lemma_sized_one();
    lemma_sized(front);
    lemma_next_count(0);
    lemma_count(0);
    lemma_count(whole);
    // the exact value
    let ea = numerator(av, whole as real, xv, 1real);
    let v = fraction(av, whole, xv, yv, lv, 1);
    lemma_terms_positive(av, whole as real, xv, yv, lv, 1real);
    lemma_fraction_positive(av, whole, xv, yv, lv, 1);
    let e1 = 1real + 1real / av;
    lemma_over(1real, av);
    lemma_over(val(c), e1);
    let b0 = val(c) / e1;
    let q = ea / v;
    assert(q * v == ea && q >= 0real) by (nonlinear_arith)
        requires
            q == ea / v,
            v > 0real,
            ea >= 0real,
    ;
    lemma_over(1real, b0 + q);
    let z = 1real / (b0 + q);
    assert(z == whole_fraction(av, whole, xv, yv, lv));
    // z times the denominator is v
    let d0 = ea + v * b0;
    assert((b0 + q) * v == d0) by {
        lemma_distrib(v, b0, q);
        lemma_assoc(b0, v, 1real);
    }
    assert(z * d0 == v) by {
        lemma_assoc(z, b0 + q, v);
        assert(1real * v == v);
    }
    let f = 30real * ulp();
    let bn = c / c1;
    lemma_rel_bounds(bn, b0, 22real, 62);
    let n1 = ea * val(lit(ZERO)) + v * val(lit(ONE));
    let d1 = ea * val(lit(ONE)) + v * val(bn);
    assert(ea * 0real == 0real && v * 1real == v && ea * 1real == ea);
    assert(abs(d1 - d0) <= (22real * ulp()) * (v * b0)) by {
        lemma_abs_product(v, val(bn) - b0, v, 22real * ulp() * b0);
        lemma_distrib(v, val(bn) - b0, b0);
        lemma_assoc(v, 22real * ulp(), b0);
        lemma_assoc(22real * ulp(), v, b0);
    }
    lemma_mul_nonneg(v, b0);
    lemma_mul_le(v * b0, d0, 22real * ulp());
    assert(d0 > 0real) by {
        lemma_strictly(0real, v, b0);
        assert(0real * b0 == 0real);
    }
    let g0 = 22real * ulp();
    lemma_mul_nonneg(g0, v);
    assert(0real * (z * d0) == 0real);
    lemma_carried_start(v, d0, z, d1);
    assert(stands_for(ea, v, lit(ZERO), lit(ONE), lit(ONE), bn, z, f));
    let d = per_round(whole);
    let wr = whole as real;
    assert(f <= d) by {
        lemma_mul_le(30real, 2200real + 200real * wr, ulp());
    }
    lemma_mul_nonneg(2200real + 200real * wr, ulp());
    assert((whole - 1 + 1) as real == wr);
    assert((4real * wr + 8real) * d == 4real * wr * d + 8real * d) by {
        lemma_distrib(d, 4real * wr, 8real);
    }
    lemma_rounds(
        a,
        b,
        x,
        c,
        b / a,
        c1,
        yp1,
        eps,
        1,
        lit(ONE),
        a + lit(ONE),
        lit(ZERO),
        lit(ONE),
        lit(ONE),
        bn,
        c1 / c,
        PATIENCE,
        whole,
        z,
        f,
    );
    let r = frac_convergents(
        a,
        b,
        x,
        c,
        b / a,
        c1,
        yp1,
        eps,
        lit(ZERO),
        lit(ONE),
        a + lit(ONE),
        lit(ZERO),
        lit(ONE),
        lit(ONE),
        bn,
        c1 / c,
        PATIENCE,
    );
    assert(count(1 - 1) == lit(ZERO)) by {
        lemma_order(count(0).enc() as int, 0);
        crate::float::model::lemma_mag_zero(0);
    }
    let h = 2real * (f + 4real * wr * d + (3real * val(eps) + 4real * d));
    assert(abs(val(r) - z) <= h * z);
    // and the front
    let fv = val(front);
    lemma_sized(r);
    lemma_power_adds(300, 300);
    lemma_rel_product(front, fv, 0real, 300, r, val(r), 0real, 300);
    let k = 2real * (0real + 2real * 0real + 4real);
    let y1 = fv * val(r);
    let y0 = fv * z;
    lemma_mul_nonneg(fv, z);
    lemma_abs_product(fv, val(r) - z, fv, h * z);
    lemma_distrib(fv, val(r) - z, z);
    lemma_assoc(fv, h, z);
    lemma_assoc(h, fv, z);
    assert(abs(y1 - y0) <= h * y0);
    lemma_mul_le(h, 1real, y0);
    lemma_mul_nonneg(k, ulp());
    lemma_mul_le(y1, 2real * y0, k * ulp());
    lemma_assoc(k * ulp(), 2real, y0);
    lemma_assoc(2real, k * ulp(), y0);
    let g = 6real * val(eps) + (8real * wr + 20real) * d;
    assert((8real * wr + 20real) * d == 8real * wr * d + 20real * d) by {
        lemma_distrib(d, 8real * wr, 20real);
    }
    assert(2real * (4real * wr * d) == 8real * wr * d) by {
        lemma_assoc(2real, 4real * wr, d);
    }
    lemma_distrib(y0, h, 16real * ulp());
    lemma_mul_le(h + 16real * ulp(), g, y0);
    lemma_front_not_zero(front);
}

proof fn lemma_front_not_zero(v: F64)
    requires
        sized(v),
    ensures
        !v.equals(lit(ZERO)),
{
    broadcast use crate::float::number::lemma_equals_units;
    lemma_sized(v);
    crate::float::model::lemma_mag_zero(0);
    lemma_order(v.enc() as int, 0);
}

proof fn lemma_carried_start(v: real, d0: real, z: real, d1: real)
    requires
        v > 0real,
        d0 > 0real,
        z > 0real,
        z * d0 == v,
        abs(d1 - d0) <= (22real * ulp()) * d0,
    ensures
        d1 > 0real,
        abs(v - z * d1) <= (30real * ulp()) * (z * d1),
{
    let u = 22real * ulp();
    lemma_mul_le(u, 1real / 1000real, d0);
    lemma_abs_product(z, d1 - d0, z, u * d0);
    lemma_distrib(z, d1 - d0, d0);
    lemma_assoc(z, u, d0);
    lemma_assoc(u, z, d0);
    let w = z * d1;
    assert(abs(w - v) <= u * v);
    lemma_mul_le(u, 1real / 1000real, v);
    assert(v <= w + w / 500real);
    lemma_mul_nonneg(z, d1);
    lemma_mul_le(v, w + w / 500real, u);
    let uw = ulp() * w;
    lemma_mul_nonneg(ulp(), w);
    assert(u * (w + w / 500real) == 22real * uw + (22real * uw) / 500real) by {
        lemma_distrib(u, w, w / 500real);
        lemma_assoc(22real, ulp(), w);
        lemma_assoc(u, w, 1real / 500real);
        assert(w * (1real / 500real) == w / 500real);
        assert((u * w) * (1real / 500real) == (u * w) / 500real);
    }
    lemma_assoc(30real, ulp(), w);
}

} // verus!
