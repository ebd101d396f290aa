//! Positive numbers that stand for real ones in proportion to their size.
use super::number::{lemma_order, F64};
use super::value::{
    abs, approx, law_quotient_value, least, lemma_abs_product, lemma_approx_product, lemma_approx_self,
    lemma_approx_size, lemma_approx_sum, lemma_assoc, lemma_distrib, lemma_few_roundings, lemma_mul_le,
    lemma_mul_nonneg, lemma_power_adds, lemma_product_stays_finite, lemma_quotient_stays_finite,
    lemma_scale, lemma_sum_stays_finite, power, scale_of_units, ulp, val,
};
use vstd::arithmetic::power2::{lemma2_to64, pow2};
use vstd::prelude::*;

verus! {

/// The number stands for the positive `e`, between 2^-i and 2^i, to within `k` roundings of
/// it.
pub open spec fn rel(v: F64, e: real, k: real, i: nat) -> bool {
    &&& v.is_finite()
    &&& e > 0real
    &&& e <= power(i)
    &&& 1real <= e * power(i)
    &&& k >= 0real
    &&& abs(val(v) - e) <= k * ulp() * e
}

pub proof fn lemma_rel_wider(v: F64, e: real, k: real, i: nat, k2: real, i2: nat)
    requires
        rel(v, e, k, i),
        k <= k2,
        i <= i2,
    ensures
        rel(v, e, k2, i2),
{
    lemma_power_adds(i, i2);
    lemma_mul_le(power(i), power(i2), e);
    lemma_mul_le(k, k2, ulp());
    lemma_mul_le(k * ulp(), k2 * ulp(), e);
}

/// The least number is nothing beside what is at least 2^-900.
proof fn lemma_least_beside(e: real, i: nat)
    requires
        e > 0real,
        1real <= e * power(i),
        i <= 900,
    ensures
        least() <= e,
{
    lemma_scale();
    lemma_power_adds(i, (1022 - i) as nat);
    let q = power(1022);
    let j = least();
    assert(q * j == 1real) by (nonlinear_arith)
        requires
            j == 1real / q,
            q > 0real,
    ;
    lemma_power_adds(i, 1022);
    lemma_mul_le(power(i), q, e);
    assert(e * q >= 1real);
    lemma_mul_le(1real, e * q, j);
    lemma_assoc(e, q, j);
    assert(e * 1real == e);
}

pub proof fn lemma_rel_bounds(v: F64, e: real, k: real, i: nat)
    requires
        rel(v, e, k, i),
        k <= 1000000000000real,
    ensures
        approx(v, e, e, k),
        0real < val(v) <= 2real * e,
        val(v) * 2real >= e,
{
    lemma_few_roundings(k);
    lemma_mul_le(k * ulp(), 1real / 4000real, e);
}

pub proof fn lemma_rel_sum(v1: F64, e1: real, k1: real, i1: nat, v2: F64, e2: real, k2: real, i2: nat)
    requires
        rel(v1, e1, k1, i1),
        rel(v2, e2, k2, i2),
        k1 <= 1000000000000real,
        k2 <= 1000000000000real,
        i1 <= 900,
        i2 <= 900,
    ensures
        rel(
            v1 + v2,
            e1 + e2,
            if k1 >= k2 {
                k1 + 2real
            } else {
                k2 + 2real
            },
            if i1 >= i2 {
                i1 + 1
            } else {
                i2 + 1
            },
        ),
{
    lemma_rel_bounds(v1, e1, k1, i1);
    lemma_rel_bounds(v2, e2, k2, i2);
    let i = if i1 >= i2 {
        i1
    } else {
        i2
    };
    lemma_power_adds(i1, i);
    lemma_power_adds(i2, i);
    lemma_power_adds(i, 900);
    lemma_power_adds(2, 900);
    lemma_power_adds(902, 1000);
    lemma2_to64();
    assert(power(2) == 4real);
    assert(power(902) == 4real * power(900));
    lemma_sum_stays_finite(v1, v2);
    lemma_approx_sum(v1, e1, e1, k1, v2, e2, e2, k2);
    lemma_power_adds(i, 1);
    lemma_mul_le(power(i1), power(i + 1), e1);
    lemma_mul_nonneg(e2, power(i + 1));
    lemma_distrib(power(i + 1), e1, e2);
}

pub proof fn lemma_rel_product(v1: F64, e1: real, k1: real, i1: nat, v2: F64, e2: real, k2: real, i2: nat)
    requires
        rel(v1, e1, k1, i1),
        rel(v2, e2, k2, i2),
        k1 <= 100000000000real,
        k2 <= 100000000000real,
        i1 + i2 <= 900,
    ensures
        rel(v1 * v2, e1 * e2, 2real * (k1 + 2real * k2 + 4real), i1 + i2),
{
    lemma_rel_bounds(v1, e1, k1, i1);
    lemma_rel_bounds(v2, e2, k2, i2);
    let e = e1 * e2;
    let p = power(i1);
    let q = power(i2);
    lemma_power_adds(i1, i2);
    lemma_mul_le(e1, p, e2);
    lemma_mul_le(e2, q, p);
    assert(e <= power(i1 + i2)) by {
        lemma_assoc(p, e2, 1real);
    }
    // one is at most the product
    lemma_mul_le(1real, e1 * p, e2 * q);
    assert((e1 * p) * (e2 * q) == (e1 * e2) * (p * q)) by {
        lemma_assoc(e1, p, e2 * q);
        lemma_assoc(p, e2, q);
        lemma_assoc(e2, p, q);
        lemma_assoc(e1, e2, p * q);
    }
    assert(1real <= e * power(i1 + i2));
    assert(e > 0real) by {
        if e <= 0real {
            lemma_mul_le(e, 0real, power(i1 + i2));
            assert(0real * power(i1 + i2) == 0real);
        }
    }
    lemma_abs_product(val(v1), val(v2), 2real * e1, 2real * e2);
    assert((2real * e1) * (2real * e2) == 4real * e) by {
        lemma_assoc(2real, e1, 2real * e2);
        lemma_assoc(e1, 2real, e2);
        lemma_assoc(2real, e1, e2);
        lemma_assoc(2real, e2, e1);
    }
    lemma_power_adds(i1 + i2, 900);
    lemma_power_adds(2, 900);
    lemma_power_adds(902, 1000);
    lemma2_to64();
    assert(power(2) == 4real);
    assert(power(902) == 4real * power(900));
    lemma_product_stays_finite(v1, v2);
    lemma_approx_product(v1, e1, e1, k1, v2, e2, e2, k2);
    lemma_least_beside(e, i1 + i2);
    let k = k1 + 2real * k2 + 4real;
    lemma_mul_nonneg(k, ulp());
    lemma_mul_le(e + least(), 2real * e, k * ulp());
    lemma_assoc(k * ulp(), 2real, e);
    lemma_assoc(2real, k, ulp());
    assert((k * ulp()) * (2real * e) == (2real * k) * ulp() * e) by {
        lemma_assoc(k * ulp(), 2real, e);
    }
}

pub proof fn lemma_rel_quotient(v1: F64, e1: real, k1: real, i1: nat, v2: F64, e2: real, k2: real, i2: nat)
    requires
        rel(v1, e1, k1, i1),
        rel(v2, e2, k2, i2),
        k1 <= 100000000000real,
        k2 <= 100000000000real,
        i1 + i2 <= 900,
    ensures
        rel(v1 / v2, e1 / e2, 2real * (k1 + k2) + 6real, i1 + i2),
        (e1 / e2) * e2 == e1,
{
    lemma_rel_bounds(v1, e1, k1, i1);
    lemma_rel_bounds(v2, e2, k2, i2);
    let x = val(v1);
    let y = val(v2);
    let u = ulp();
    let e = e1 / e2;
    lemma_over(e1, e2);
    let p = power(i1);
    let q = power(i2);
    lemma_power_adds(i1, i2);
    // e <= 2^i1 2^i2, since 1 <= e2 q
    lemma_mul_le(1real, e2 * q, e);
    assert(e * (e2 * q) == e1 * q) by {
        lemma_assoc(e, e2, q);
    }
    lemma_mul_le(e1, p, q);
    assert(e <= power(i1 + i2));
    // and 1 <= e1 p = e e2 p <= e q p
    lemma_mul_nonneg(e, p);
    lemma_mul_le(e2, q, e * p);
    assert((e * p) * e2 == e1 * p) by {
        lemma_assoc(e, p, e2);
        assert((e * p) * e2 == (e * e2) * p);
    }
    assert((e * p) * q == e * power(i1 + i2)) by {
        lemma_assoc(e, p, q);
    }
    assert(1real <= e * power(i1 + i2));
    // the quotient of the values
    lemma_nonzero_value(v2);
    let t = x / y;
    lemma_over(x, y);
    lemma_power_adds(i1 + i2, 900);
    lemma_power_adds(2, 900);
    lemma_power_adds(902, 1000);
    lemma2_to64();
    assert(power(2) == 4real);
    assert(power(902) == 4real * power(900));
    // t y = x <= 2 e e2 <= 4 e y
    lemma_mul_le(e2, 2real * y, e);
    assert(e * (2real * y) == 2real * (e * y)) by {
        lemma_assoc(e, 2real, y);
        lemma_assoc(2real, e, y);
    }
    assert(x <= 4real * (e * y));
    lemma_mul_le(4real * e, power(1000), y);
    lemma_assoc(4real, e, y);
    lemma_quotient_stays_finite(v1, v2);
    law_quotient_value(v1, v2);
    // t against e: (t - e) y = (x - e1) + e (e2 - y)
    lemma_distrib(y, t, -e);
    assert((t + (-e)) * y == t * y + (-e) * y);
    assert((-e) * y == -(e * y)) by {
        lemma_distrib(y, e, -e);
        assert(0real * y == 0real);
    }
    lemma_distrib(e, e2 - y, y);
    assert(e * (e2 - y) == e1 - e * y);
    let d = (t - e) * y;
    assert(d == (x - e1) + e * (e2 - y));
    lemma_abs_product(e, e2 - y, e, k2 * u * e2);
    assert(e * (k2 * u * e2) == k2 * u * e1) by {
        lemma_assoc(k2 * u, e2, e);
        lemma_assoc(e, k2 * u * e2, 1real);
        lemma_assoc(e2, e, 1real);
    }
    lemma_distrib(u * e1, k1, k2);
    assert(abs(d) <= (k1 + k2) * u * e1) by {
        lemma_assoc(k1, u, e1);
        lemma_assoc(k2, u, e1);
        lemma_assoc(k1 + k2, u, e1);
    }
    // (k1 + k2) u e1 = (k1 + k2) u e e2 <= 2 (k1 + k2) u e y
    let w = (k1 + k2) * u;
    lemma_mul_nonneg(k1 + k2, u);
    lemma_mul_nonneg(w, e);
    lemma_mul_le(e2, 2real * y, w * e);
    assert((w * e) * e2 == w * e1) by {
        lemma_assoc(w, e, e2);
    }
    assert((w * e) * (2real * y) == (2real * (w * e)) * y) by {
        lemma_assoc(w * e, 2real, y);
        lemma_assoc(2real, w * e, y);
    }
    assert(abs(t - e) <= 2real * (w * e)) by {
        let g = 2real * (w * e);
        if t - e > g {
            lemma_mul_strict(g, t - e, y);
        }
        if e - t > g {
            lemma_mul_strict(g, e - t, y);
            lemma_distrib(y, t - e, e - t);
            assert(0real * y == 0real);
        }
    }
    // rounding
    lemma_few_roundings(k1 + k2);
    lemma_mul_le(w, 1real / 4000real, e);
    lemma_least_beside(e, i1 + i2);
    assert(abs(t) + least() <= 3real * e);
    lemma_mul_le(abs(t) + least(), 3real * e, u);
    assert(u * (3real * e) == 3real * (u * e)) by {
        lemma_assoc(u, 3real, e);
        lemma_assoc(3real, u, e);
    }
    let k = 2real * (k1 + k2) + 6real;
    assert(k * u * e == 2real * (w * e) + 6real * (u * e)) by {
        lemma_distrib(u, 2real * (k1 + k2), 6real);
        lemma_distrib(e, 2real * (k1 + k2) * u, 6real * u);
        lemma_assoc(2real, k1 + k2, u);
        lemma_assoc(2real, w, e);
        lemma_assoc(6real, u, e);
    }
}

proof fn lemma_mul_strict(a: real, b: real, c: real)
    requires
        a < b,
        c > 0real,
    ensures
        a * c < b * c,
{
    assert(a * c < b * c) by (nonlinear_arith)
        requires
            a < b,
            c > 0real,
    ;
}

/// A quotient of positive numbers.
pub proof fn lemma_over(x: real, y: real)
    requires
        x > 0real,
        y > 0real,
    ensures
        x / y > 0real,
        (x / y) * y == x,
{
    let r = x / y;
    assert(r * y == x) by (nonlinear_arith)
        requires
            r == x / y,
            y > 0real,
    ;
    assert(r > 0real) by (nonlinear_arith)
        requires
            r * y == x,
            x > 0real,
            y > 0real,
    ;
}

/// A number that stands for something else than zero is not zero.
proof fn lemma_nonzero_value(v: F64)
    requires
        val(v) > 0real,
    ensures
        v.enc() != 0,
{
    lemma_scale();
    super::model::lemma_mag_zero(0);
    if v.enc() == 0 {
        assert(v.units() == 0);
        let d = scale_of_units();
        assert(0real / d == 0real) by (nonlinear_arith)
            requires
                d > 0real,
        ;
    }
}

} // verus!
