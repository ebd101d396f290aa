//! Laws of the number type.
use crate::float::number::{lemma_equals_units, lemma_le_units, lemma_lt_units};
use super::model::{
    lemma_mag_cell, lemma_mag_increasing, lemma_mag_zero, lemma_round_exact, lemma_round_ratio_is,
    lemma_round_root_is, mag, nearest, nearest_root, round_ratio, CELL, INF_ENC,
};
use super::number::{lemma_order, lit, F64, NAN, ONE, ZERO};
use super::round::lemma_powers;
use vstd::arithmetic::power2::{lemma_pow2_adds, lemma_pow2_pos, lemma_pow2_unfold, pow2};
use vstd::prelude::*;

verus! {

/// Every ratio has a nearest encoding, at or above `low` where it is not below the
/// magnitude of `low`.
proof fn lemma_nearest_from(num: int, den: int, low: u64) -> (enc: u64)
    requires
        den > 0,
        low <= INF_ENC,
        mag(low as int) * den <= num,
    ensures
        nearest(num, den, enc as int),
    decreases INF_ENC - low,
{
    let e = low as int;
    if e > 0 {
        lemma_mag_increasing(e - 1, e);
        let h = mag(e - 1) + mag(e);
        assert(2 * num > h * den) by (nonlinear_arith)
            requires mag(e) * den <= num, 2 * mag(e) > h, den > 0;
    }
    if e == INF_ENC {
        low
    } else if mag(e + 1) * den <= num {
        lemma_nearest_from(num, den, (low + 1) as u64)
    } else {
        lemma_mag_increasing(e, e + 1);
        let h = mag(e) + mag(e + 1);
        let next = (low + 1) as u64;
        if 2 * num < h * den || (2 * num == h * den && low % 2 == 0) {
            low
        } else {
            if next < INF_ENC {
                lemma_mag_increasing(e + 1, e + 2);
                let k = mag(e + 1) + mag(e + 2);
                assert(2 * num < k * den) by (nonlinear_arith)
                    requires num < mag(e + 1) * den, 2 * mag(e + 1) < k, den > 0;
            }
            next
        }
    }
}

/// Rounding finds an encoding that the ratio is nearest to.
pub proof fn law_rounding_is_nearest(num: int, den: int)
    requires
        num >= 0,
        den > 0,
    ensures
        nearest(num, den, round_ratio(num, den) as int),
        round_ratio(num, den) <= INF_ENC,
{
    lemma_mag_zero(0);
    let enc = lemma_nearest_from(num, den, 0);
    lemma_round_ratio_is(num, den, enc);
}

/// Rounding keeps the order.
pub proof fn law_rounding_is_monotone(num1: int, num2: int, den: int)
    requires
        0 <= num1 <= num2,
        den > 0,
    ensures
        round_ratio(num1, den) <= round_ratio(num2, den),
{
    law_rounding_is_nearest(num1, den);
    law_rounding_is_nearest(num2, den);
    let a = round_ratio(num1, den) as int;
    let b = round_ratio(num2, den) as int;
    if b < a {
        let lo = mag(b) + mag(b + 1);
        let hi = mag(a - 1) + mag(a);
        if b + 1 < a {
            lemma_mag_increasing(b, a - 1);
            lemma_mag_increasing(b + 1, a);
            assert(lo * den < hi * den) by (nonlinear_arith)
                requires lo < hi, den > 0;
        } else {
            assert(lo == hi);
        }
    }
}

/// Equal ratios round alike.
pub proof fn law_rounding_of_equal_ratios(num1: int, den1: int, num2: int, den2: int)
    requires
        num1 >= 0,
        den1 > 0,
        den2 > 0,
        num1 * den2 == num2 * den1,
    ensures
        round_ratio(num1, den1) == round_ratio(num2, den2),
{
    law_rounding_is_nearest(num1, den1);
    let enc = round_ratio(num1, den1);
    let e = enc as int;
    if e > 0 {
        lemma_scaled_sign(num1, den1, num2, den2, mag(e - 1) + mag(e));
    }
    if e < INF_ENC {
        lemma_scaled_sign(num1, den1, num2, den2, mag(e) + mag(e + 1));
    }
    lemma_round_ratio_is(num2, den2, enc);
}

proof fn lemma_scaled_sign(num1: int, den1: int, num2: int, den2: int, h: int)
    requires
        den1 > 0,
        den2 > 0,
        num1 * den2 == num2 * den1,
    ensures
        2 * num1 > h * den1 ==> 2 * num2 > h * den2,
        2 * num1 == h * den1 ==> 2 * num2 == h * den2,
        2 * num1 < h * den1 ==> 2 * num2 < h * den2,
{
    let x = 2 * num1 - h * den1;
    let y = 2 * num2 - h * den2;
    assert(x * den2 == y * den1) by (nonlinear_arith)
        requires x == 2 * num1 - h * den1, y == 2 * num2 - h * den2, num1 * den2 == num2 * den1;
    if x > 0 {
        assert(y > 0) by (nonlinear_arith)
            requires x * den2 == y * den1, x > 0, den1 > 0, den2 > 0;
    } else if x == 0 {
        assert(y == 0) by (nonlinear_arith)
            requires x * den2 == y * den1, x == 0, den1 > 0;
    } else {
        assert(y < 0) by (nonlinear_arith)
            requires x * den2 == y * den1, x < 0, den1 > 0, den2 > 0;
    }
}

/// A sum of finite numbers is the number nearest to the exact sum, with its sign.
pub proof fn law_sum_is_nearest(a: F64, b: F64)
    requires
        a.is_finite(),
        b.is_finite(),
    ensures
        !(a + b).is_nan(),
        nearest(
            if a.units() + b.units() < 0 {
                -(a.units() + b.units())
            } else {
                a.units() + b.units()
            },
            1,
            (a + b).enc() as int,
        ),
        a.units() + b.units() > 0 ==> !(a + b).sign(),
        a.units() + b.units() < 0 ==> (a + b).sign(),
{
    reveal(F64::spec_add);
    let s = a.units() + b.units();
    if s == 0 {
        lemma_mag_zero(0);
    } else if s > 0 {
        law_rounding_is_nearest(s, 1);
    } else {
        law_rounding_is_nearest(-s, 1);
    }
}

/// A product of finite numbers is the number nearest to the exact product, with its
/// sign.
pub proof fn law_product_is_nearest(a: F64, b: F64)
    requires
        a.is_finite(),
        b.is_finite(),
    ensures
        !(a * b).is_nan(),
        nearest(mag(a.enc() as int) * mag(b.enc() as int), pow2(1074) as int, (a * b).enc() as int),
        (a * b).sign() == (a.sign() != b.sign()),
{
    reveal(F64::spec_mul);
    lemma_pow2_pos(1074);
    lemma_order(a.enc() as int, b.enc() as int);
    assert(mag(a.enc() as int) * mag(b.enc() as int) >= 0) by (nonlinear_arith)
        requires mag(a.enc() as int) >= 0, mag(b.enc() as int) >= 0;
    law_rounding_is_nearest(mag(a.enc() as int) * mag(b.enc() as int), pow2(1074) as int);
}

/// A quotient of finite numbers, the divisor not zero, is the number nearest to the
/// exact quotient, with its sign.
pub proof fn law_quotient_is_nearest(a: F64, b: F64)
    requires
        a.is_finite(),
        b.is_finite(),
        b.enc() != 0,
    ensures
        !(a / b).is_nan(),
        nearest(mag(a.enc() as int) * pow2(1074), mag(b.enc() as int), (a / b).enc() as int),
        (a / b).sign() == (a.sign() != b.sign()),
{
    reveal(F64::spec_euclidean_or_real_div);
    lemma_order(a.enc() as int, b.enc() as int);
    assert(mag(a.enc() as int) * pow2(1074) >= 0) by (nonlinear_arith)
        requires mag(a.enc() as int) >= 0, pow2(1074) >= 0;
    law_rounding_is_nearest(mag(a.enc() as int) * pow2(1074), mag(b.enc() as int));
}

/// Turning the sign over twice gives the number back, and changes no magnitude.
pub proof fn law_negation(a: F64)
    ensures
        a.negated().negated() == a,
        a.negated().enc() == a.enc(),
        a.negated().sign() == !a.sign(),
        a.negated().units() == -a.units(),
        a.negated().abs() == a.abs(),
{
}

/// Addition commutes.
pub proof fn law_sum_commutes(a: F64, b: F64)
    ensures
        a + b == b + a,
{
    reveal(F64::spec_add);
}

/// Multiplication commutes.
pub proof fn law_product_commutes(a: F64, b: F64)
    ensures
        a * b == b * a,
{
    reveal(F64::spec_mul);
    assert(mag(a.enc() as int) * mag(b.enc() as int) == mag(b.enc() as int) * mag(a.enc() as int))
        by (nonlinear_arith);
}

/// The sign comes out of a product; two of them cancel.
pub proof fn law_product_of_negated(a: F64, b: F64)
    ensures
        a.negated() * b.negated() == a * b,
        !(a * b).is_nan() ==> a.negated() * b == (a * b).negated(),
        !(a * b).is_nan() ==> a * b.negated() == (a * b).negated(),
        (a * b).is_nan() ==> a.negated() * b == a * b && a * b.negated() == a * b,
{
    reveal(F64::spec_mul);
    law_negation(a);
    law_negation(b);
    if a.is_finite() && b.is_finite() {
        lemma_pow2_pos(1074);
        lemma_order(a.enc() as int, b.enc() as int);
        assert(mag(a.enc() as int) * mag(b.enc() as int) >= 0) by (nonlinear_arith)
            requires mag(a.enc() as int) >= 0, mag(b.enc() as int) >= 0;
        law_rounding_is_nearest(mag(a.enc() as int) * mag(b.enc() as int), pow2(1074) as int);
    }
}

/// The sign comes out of a quotient; two of them cancel.
pub proof fn law_quotient_of_negated(a: F64, b: F64)
    ensures
        a.negated() / b.negated() == a / b,
        !(a / b).is_nan() ==> a.negated() / b == (a / b).negated(),
        (a / b).is_nan() ==> a.negated() / b == a / b,
{
    reveal(F64::spec_euclidean_or_real_div);
    law_negation(a);
    law_negation(b);
    if a.is_finite() && b.is_finite() && b.enc() != 0 {
        lemma_order(a.enc() as int, b.enc() as int);
        assert(mag(a.enc() as int) * pow2(1074) >= 0) by (nonlinear_arith)
            requires mag(a.enc() as int) >= 0, pow2(1074) >= 0;
        law_rounding_is_nearest(mag(a.enc() as int) * pow2(1074), mag(b.enc() as int));
    }
}

/// The sign comes out of a sum that is not zero.
pub proof fn law_sum_of_negated(a: F64, b: F64)
    ensures
        (a + b).is_nan() ==> a.negated() + b.negated() == a + b,
        !(a + b).is_nan() && (a + b).enc() != 0 ==> a.negated() + b.negated() == (a + b).negated(),
        (a + b).enc() == 0 ==> (a.negated() + b.negated()).enc() == 0,
{
    reveal(F64::spec_add);
    law_negation(a);
    law_negation(b);
    if a.is_finite() && b.is_finite() {
        law_sum_is_nearest(a, b);
        law_sum_is_nearest(a.negated(), b.negated());
    }
}

/// The order is irreflexive and transitive, and total but for NaN.
pub proof fn law_order(a: F64, b: F64, c: F64)
    ensures
        !a.lt(a),
        a.lt(b) && b.lt(c) ==> a.lt(c),
        a.le(b) && b.le(c) ==> a.le(c),
        a.lt(b) ==> !b.lt(a),
        !a.is_nan() && !b.is_nan() ==> a.lt(b) || a.equals(b) || b.lt(a),
        a.le(b) <==> a.lt(b) || a.equals(b),
        a.is_nan() ==> !a.lt(b) && !b.lt(a) && !a.le(b) && !b.le(a) && !a.equals(b),
        a.equals(b) && b.le(c) ==> a.le(c),
{
    broadcast use lemma_lt_units;
    broadcast use lemma_le_units;
    broadcast use lemma_equals_units;
}

/// The lesser and the greater of two numbers lie on the right sides of both.
pub proof fn law_min_max(a: F64, b: F64)
    requires
        !a.is_nan(),
        !b.is_nan(),
    ensures
        a.min(b).le(a),
        a.min(b).le(b),
        a.le(a.max(b)),
        b.le(a.max(b)),
        a.min(b) == a || a.min(b) == b,
        a.max(b) == a || a.max(b) == b,
{
    broadcast use lemma_lt_units;
    broadcast use lemma_le_units;
}

/// Adding a number that is not negative does not make a number smaller, and taking
/// it away does not make it larger.
pub proof fn law_sum_is_monotone(a: F64, d: F64)
    requires
        a.is_finite(),
        d.is_finite(),
        lit(ZERO).le(d),
    ensures
        a.le(a + d),
        (a - d).le(a),
{
    lemma_sum_grows(a, d);
    law_negation(a);
    law_negation(d);
    // a - d is the negative of (-a) + d
    lemma_sum_grows(a.negated(), d);
    reveal(F64::spec_add);
    broadcast use lemma_le_units;
    law_sum_is_nearest(a, d.negated());
    law_sum_is_nearest(a.negated(), d);
    let s = a.units() - d.units();
    assert(a.units() + d.negated().units() == s);
    assert(a.negated().units() + d.units() == -s);
    lemma_mag_zero(0);
}

/// A difference has the sign that the order of its terms gives it: it does not vanish
/// between numbers that differ.
pub proof fn law_difference_sign(a: F64, b: F64)
    requires
        !(a - b).is_nan(),
    ensures
        (a - b).lt(lit(ZERO)) <==> a.lt(b),
        (a - b).gt(lit(ZERO)) <==> a.gt(b),
        (a - b).equals(lit(ZERO)) <==> a.equals(b),
        (a - b).le(lit(ZERO)) <==> a.le(b),
        (a - b).ge(lit(ZERO)) <==> a.ge(b),
{
    reveal(F64::spec_add);
    law_negation(b);
    let d = a - b;
    assert(!a.is_nan() && !b.is_nan());
    law_sign_and_zero(d);
    if a.is_finite() && b.is_finite() {
        broadcast use lemma_lt_units;
        broadcast use lemma_le_units;
        broadcast use lemma_equals_units;
        let s = a.units() - b.units();
        lemma_mag_cell(0, 1);
        lemma_powers();
        assert(mag(1) == 1);
        lemma_round_exact(1, 1);
        assert(s != 0 ==> d.enc() >= 1) by {
            if s > 0 {
                law_rounding_is_monotone(1, s, 1);
                law_rounding_is_nearest(s, 1);
            } else if s < 0 {
                law_rounding_is_monotone(1, -s, 1);
                law_rounding_is_nearest(-s, 1);
            }
        }
        assert(a.lt(b) <==> s < 0);
        assert(a.gt(b) <==> s > 0);
        law_sum_is_nearest(a, b.negated());
    }
}

proof fn lemma_sum_grows(a: F64, d: F64)
    requires
        a.is_finite(),
        d.is_finite(),
        lit(ZERO).le(d),
    ensures
        a.le(a + d),
{
    reveal(F64::spec_add);
    broadcast use lemma_le_units;
    lemma_mag_zero(a.enc() as int);
    lemma_mag_zero(d.enc() as int);
    lemma_order(a.enc() as int, d.enc() as int);
    let s = a.units() + d.units();
    assert(lit(ZERO).units() == 0);
    assert(d.units() >= 0);
    law_sum_is_nearest(a, d);
    lemma_round_exact(a.enc(), 1);
    assert(mag(a.enc() as int) * 1 == mag(a.enc() as int));
    let r = a + d;
    lemma_order(a.enc() as int, r.enc() as int);
    if s > 0 {
        if a.units() >= 0 {
            law_rounding_is_monotone(a.units(), s, 1);
        }
    } else if s < 0 {
        law_rounding_is_monotone(-s, -a.units(), 1);
    }
}

/// Multiplying by one changes nothing.
pub proof fn law_product_with_one(a: F64)
    requires
        !a.is_nan(),
    ensures
        a * lit(ONE) == a,
        lit(ONE) * a == a,
{
    reveal(F64::spec_mul);
    lemma_one();
    lemma_pow2_pos(1074);
    law_product_commutes(a, lit(ONE));
    if a.is_finite() {
        lemma_round_exact(a.enc(), pow2(1074) as int);
    }
}

/// The magnitude of one.
pub proof fn lemma_one()
    ensures
        mag(ONE as int) == pow2(1074),
{
    lemma_powers();
    lemma_mag_cell(1022, CELL as int);
    lemma_pow2_adds(52, 1022);
}

/// Adding zero changes nothing but the sign of zero.
pub proof fn law_sum_with_zero(a: F64)
    requires
        !a.is_nan(),
        a.enc() != 0,
    ensures
        a + lit(ZERO) == a,
        lit(ZERO) + a == a,
        a - lit(ZERO) == a,
{
    reveal(F64::spec_add);
    law_sum_commutes(a, lit(ZERO));
    lemma_mag_zero(a.enc() as int);
    if a.is_finite() {
        lemma_round_exact(a.enc(), 1);
        assert(mag(a.enc() as int) * 1 == mag(a.enc() as int));
    }
}

/// A finite number minus itself is positive zero.
pub proof fn law_difference_with_itself(a: F64)
    requires
        a.is_finite(),
    ensures
        a - a == lit(ZERO),
{
    reveal(F64::spec_add);
    law_negation(a);
}

/// A number other than NaN is below zero where it has the sign and is not zero, and
/// above zero where it has neither.
pub proof fn law_sign_and_zero(a: F64)
    requires
        !a.is_nan(),
    ensures
        a.lt(lit(ZERO)) <==> a.sign() && a.enc() != 0,
        a.gt(lit(ZERO)) <==> !a.sign() && a.enc() != 0,
        a.equals(lit(ZERO)) <==> a.enc() == 0,
{
    broadcast use lemma_lt_units;
    broadcast use lemma_equals_units;
    lemma_mag_zero(a.enc() as int);
}

/// A NaN stays one through the arithmetic.
pub proof fn law_nan_propagates(a: F64, b: F64)
    requires
        a.is_nan(),
    ensures
        a + b == lit(NAN),
        b + a == lit(NAN),
        a - b == lit(NAN),
        b - a == lit(NAN),
        a * b == lit(NAN),
        b * a == lit(NAN),
        a / b == lit(NAN),
        b / a == lit(NAN),
{
    reveal(F64::spec_add);
    reveal(F64::spec_mul);
    reveal(F64::spec_euclidean_or_real_div);
    law_negation(a);
    law_negation(b);
}

/// The whole part of the negative is the negative of the whole part.
pub proof fn law_trunc_is_odd(a: F64)
    requires
        !a.is_nan(),
    ensures
        a.negated().trunc() == a.trunc().negated(),
        !a.trunc().is_nan(),
{
    reveal(F64::trunc_spec);
    law_negation(a);
    if a.is_finite() {
        lemma_order(a.enc() as int, 0);
        lemma_pow2_pos(1074);
        let w = super::whole::whole(a.enc() as int);
        assert(w >= 0) by (nonlinear_arith)
            requires
                w == mag(a.enc() as int) / (pow2(1074) as int),
                mag(a.enc() as int) >= 0,
                pow2(1074) > 0,
        ;
        assert(w * pow2(1074) >= 0) by (nonlinear_arith)
            requires w >= 0, pow2(1074) > 0;
        law_rounding_is_nearest(w * pow2(1074), 1);
    }
}

proof fn lemma_root_from(num: int, low: u64) -> (enc: u64)
    requires
        low <= INF_ENC,
        mag(low as int) * mag(low as int) <= num,
    ensures
        nearest_root(num, enc as int),
    decreases INF_ENC - low,
{
    let e = low as int;
    let m = mag(e);
    lemma_mag_zero(e);
    lemma_mag_zero(e + 1);
    if e > 0 {
        lemma_mag_increasing(e - 1, e);
        lemma_mag_zero(e - 1);
        let h = mag(e - 1) + m;
        assert(4 * num > h * h) by (nonlinear_arith)
            requires m * m <= num, 0 <= h < 2 * m;
    }
    if e == INF_ENC {
        low
    } else {
        let n = mag(e + 1);
        lemma_mag_increasing(e, e + 1);
        if n * n <= num {
            lemma_root_from(num, (low + 1) as u64)
        } else {
            let h = m + n;
            let next = (low + 1) as u64;
            if 4 * num < h * h || (4 * num == h * h && low % 2 == 0) {
                low
            } else {
                if next < INF_ENC {
                    lemma_mag_increasing(e + 1, e + 2);
                    let k = n + mag(e + 2);
                    assert(4 * num < k * k) by (nonlinear_arith)
                        requires num < n * n, 0 <= 2 * n < k;
                }
                next
            }
        }
    }
}

/// A square root of a positive finite number is the number nearest to the exact root.
pub proof fn law_root_is_nearest(a: F64)
    requires
        a.is_finite(),
        a.gt(lit(ZERO)),
    ensures
        !a.sqrt().is_nan(),
        !a.sqrt().sign(),
        nearest_root(mag(a.enc() as int) * pow2(1074), a.sqrt().enc() as int),
{
    reveal(F64::sqrt_spec);
    law_sign_and_zero(a);
    lemma_mag_zero(a.enc() as int);
    lemma_mag_zero(0);
    let num = mag(a.enc() as int) * pow2(1074);
    assert(num >= 0) by (nonlinear_arith)
        requires num == mag(a.enc() as int) * pow2(1074), mag(a.enc() as int) >= 0, pow2(1074) >= 0;
    let enc = lemma_root_from(num, 0);
    lemma_round_root_is(num, enc);
}

/// An integer of at most 53 binary digits survives the way to a number and back.
pub proof fn law_integers_round_trip(n: u64)
    requires
        n < 2 * CELL,
    ensures
        F64::from_u64(n).to_u64() == n,
        F64::from_u64(n).is_finite(),
        F64::from_u64(n).units() == n * pow2(1074),
{
    reveal(F64::from_u64_spec);
    reveal(F64::to_u64_spec);
    lemma_pow2_pos(1074);
    let e = lemma_whole_encoding(n as int, 1074);
    lemma_round_exact(e, 1);
    assert(mag(e as int) * 1 == mag(e as int));
    let d = pow2(1074) as int;
    vstd::arithmetic::div_mod::lemma_div_multiples_vanish(n as int, d);
    assert((n * d) / d == n);
}

proof fn lemma_whole_encoding(k: int, t: nat) -> (enc: u64)
    requires
        0 <= k < 2 * CELL,
        t <= 1074,
    ensures
        mag(enc as int) == k * pow2(t),
        enc < INF_ENC,
    decreases t,
{
    lemma_pow2_pos(t);
    if t == 0 || k >= CELL {
        lemma_mag_cell(t, k);
        let e = t * CELL + k;
        assert(0 <= e < INF_ENC) by (nonlinear_arith)
            requires e == t * CELL + k, t <= 1074, 0 <= k < 2 * CELL, CELL == 0x0010_0000_0000_0000,
                INF_ENC == 2047 * CELL;
        e as u64
    } else {
        lemma_pow2_unfold(t);
        assert((2 * k) * pow2((t - 1) as nat) == k * pow2(t)) by (nonlinear_arith)
            requires pow2(t) == 2 * pow2((t - 1) as nat);
        lemma_whole_encoding(2 * k, (t - 1) as nat)
    }
}

} // verus!
