//! What a lesser accuracy costs, where the lower ratio of the incomplete gamma function comes
//! of its series or of a finite sum.
use crate::consts::{EPSILON, HALF, ONE, PATIENCE, TEN, ZERO};
use crate::float::{lit, F64};
use crate::float::bounds::{
    at_least, at_most, lemma_literal, lemma_part, lemma_product, lemma_product_at_least,
    lemma_product_at_most, lemma_quotient, lemma_ratio_ge, lemma_ratio_le, part,
};
use crate::float::model::{mag, CELL, INF_ENC};
use crate::float::number::{lemma_equals_units, lemma_le_units, lemma_lt_units, lemma_order};
use crate::float::relative::{
    lemma_both_rounded, lemma_near_apart, lemma_near_wider, lemma_round_near, near, SPAN,
};
use crate::float::signed::{lemma_rounded, lemma_sum_units};
use crate::functions::{exp, ln, Elementary};
use crate::special::gamma::{gamma_value, rlog};
use crate::special::gamma_inc::{
    below_one_spec, complement, from_scale_spec, gamma_inc_core, gamma_inc_core_spec, large_spec,
    moderate_spec, rising_sum, rising_sum_spec, rising_tail, taylor_p_over_r, taylor_p_over_r_spec,
    try_gamma_inc_with_acc, GammaIncAcc, ALOG10,
};
use crate::special::normal_laws::{lemma_fine_grid, lemma_looser, lemma_small_powers, lemma_unit};
use crate::special::normal_smooth_laws::{lemma_fine_product, lemma_fractions, size};
use crate::special::ratio_laws::lemma_complement;
use vstd::arithmetic::power2::{
    lemma2_to64, lemma_pow2_adds, lemma_pow2_pos, lemma_pow2_strictly_increases, pow2,
};
use vstd::prelude::*;

verus! {

/// The state of the series at the term with the number `j`: the divisors grow by one with
/// each term, and the terms do not fall below `2^-(j+1)` before a divisor has reached twice
/// the argument.
spec fn rising(x: F64, apn: F64, t: F64, j: int) -> bool {
    let g = part(1, 45);
    &&& x.is_finite() && 0 < x.units() <= part(10, 0)
    &&& apn.is_finite() && x.units() + part(2 * j - 1, 1) - j * g <= apn.units() <= part(12 + j, 0) + j
        * g
    &&& apn.units() >= part(1, 0)
    &&& t.is_finite() && 0 <= t.units() <= part(2, 0)
    &&& 2 * x.units() > apn.units() ==> t.units() >= part(1, j + 1)
    &&& 0 <= j <= 100
}

proof fn lemma_scales(j: int)
    requires
        0 <= j <= 101,
    ensures
        ({
            let d = pow2(1074) as int;
            let u = pow2(1014) as int;
            &&& d == SPAN * u && u > 0
            &&& part(1, 45) == 0x8000 * u
            &&& 2 * part(2 * j - 1, 1) == (2 * j - 1) * d
            &&& 2 * part(1, 1) == d
            &&& part(1, 0) == d
            &&& part(2, 0) == 2 * d
            &&& part(10, 0) == 10 * d
            &&& part(128, 0) == 128 * d
            &&& part(12 + j, 0) == (12 + j) * d
        }),
{
    lemma_fractions();
    lemma_small_powers();
    lemma_pow2_adds(1, 1073);
    let h = pow2(1073) as int;
    assert(2 * ((2 * j - 1) * h) == (2 * j - 1) * (2 * h)) by (nonlinear_arith);
}

/// The next term.
proof fn lemma_next(x: F64, apn: F64, t: F64, j: int, i: int)
    requires
        rising(x, apn, t, j),
        j < 100,
        0 <= i <= 60,
        t.units() <= part(2, i),
        i > 0 ==> 2 * x.units() <= apn.units(),
    ensures
        ({
            let apn1 = apn + lit(ONE);
            let t1 = t * (x / apn1);
            &&& rising(x, apn1, t1, j + 1)
            &&& apn.units() <= apn1.units()
            &&& t1.units() <= part(2, 0)
            &&& 2 * x.units() <= apn.units() ==> t1.units() <= part(2, i + 1)
            &&& 2 * x.units() <= apn.units() ==> 2 * t1.units() <= t.units() + 2 * part(1, 45)
        }),
{
    lemma_scales(j);
    lemma_scales(j + 1);
    lemma_small_powers();
    let d = pow2(1074) as int;
    let g = part(1, 45);
    lemma_pow2_pos(1074);
    lemma_literal(ONE, 1022, 0x10_0000_0000_0000, 52, 1, 1, 0);
    lemma_part(128, 0);
    lemma_part(1, 1);
    lemma_part(1, 0);
    lemma_part(2, 0);
    let apn1 = apn + lit(ONE);
    assert(0 <= j * g <= 100 * g) by (nonlinear_arith)
        requires 0 <= j <= 100, g >= 0;
    assert((j + 1) * g == j * g + g) by (nonlinear_arith);
    assert((12 + j + 1) * d == (12 + j) * d + d) by (nonlinear_arith);
    assert((2 * (j + 1) - 1) * d == (2 * j - 1) * d + 2 * d) by (nonlinear_arith);
    assert((12 + j) * d <= 112 * d) by (nonlinear_arith)
        requires j <= 100, d > 0;
    assert((2 * j - 1) * d >= -d) by (nonlinear_arith)
        requires j >= 0, d > 0;
    let n = apn.units() + d;
    lemma_sum_units(apn, lit(ONE));
    lemma_fine_grid(n);
    assert(apn1.units() >= n - g);
    // the quotient
    let y = x / apn1;
    lemma_quotient(x, apn1);
    let num = x.units() * d;
    let den = apn1.units();
    assert(x.units() <= den);
    assert(num <= part(1, 0) * den) by (nonlinear_arith)
        requires num == x.units() * d, x.units() <= den, part(1, 0) == d, d > 0;
    lemma_ratio_le(num, den, part(1, 0));
    lemma_order(y.enc() as int, INF_ENC as int);
    assert(at_most(y, 1, 0) && y.units() >= 0);
    if 2 * x.units() > den {
        assert(part(1, 1) * den <= num) by (nonlinear_arith)
            requires num == x.units() * d, 2 * x.units() > den, 2 * part(1, 1) == d, d > 0;
        lemma_ratio_ge(num, den, part(1, 1));
        assert(at_least(y, 1, 1));
    }
    // the term
    let t1 = t * y;
    lemma_product_at_most(t, y, 2, 0, 1, 0);
    if 2 * x.units() > den {
        lemma_product_at_least(t, y, 1, j + 1, 1, 1);
    }
    if 2 * x.units() <= apn.units() {
        assert(num <= part(1, 1) * den) by (nonlinear_arith)
            requires num == x.units() * d, 2 * x.units() <= den, 2 * part(1, 1) == d, d > 0;
        lemma_ratio_le(num, den, part(1, 1));
        assert(at_most(y, 1, 1));
        lemma_product_at_most(t, y, 2, i, 1, 1);
        let tu = t.units();
        let yu = y.units();
        assert(tu * yu <= part(128, 0) * d) by (nonlinear_arith)
            requires 0 <= tu <= 2 * d, 0 <= yu <= d, part(128, 0) == 128 * d, d > 0;
        lemma_fine_product(t, y);
        assert(2 * (tu * yu) <= tu * d) by (nonlinear_arith)
            requires 2 * yu <= d, tu >= 0;
        let v = t1.units();
        assert(2 * v <= tu + 2 * g) by (nonlinear_arith)
            requires v * d - tu * yu <= g * d, 2 * (tu * yu) <= tu * d, d > 0;
    }
}

/// A term is added.
proof fn lemma_added(sum: F64, t: F64)
    requires
        at_most(sum, 120, 0) && sum.units() >= 0,
        t.is_finite() && 0 <= t.units() <= part(2, 0),
    ensures
        (sum + t).is_finite(),
        sum.units() <= (sum + t).units() <= sum.units() + t.units() + part(1, 45),
        (sum + t).units() >= sum.units() + t.units() - part(1, 45),
{
    lemma_scales(0);
    let d = pow2(1074) as int;
    lemma_pow2_pos(1074);
    lemma_part(128, 0);
    let n = sum.units() + t.units();
    lemma_sum_units(sum, t);
    lemma_fine_grid(n);
    lemma_rounded(sum.units(), n);
    crate::float::signed::lemma_units_representable(sum);
}

/// Room for what is still to be added.
spec fn room(sum: F64, t: F64, i: int, steps: int) -> bool {
    &&& sum.is_finite() && sum.units() >= 0
    &&& sum.units() + t.units() + 3 * (52 - i) * part(1, 45) + 5 * steps * pow2(1074) <= part(66, 0)
}

proof fn lemma_room(sum: F64, t: F64, i: int, steps: int)
    requires
        room(sum, t, i, steps),
        0 <= i <= 52,
        0 <= steps,
        t.units() >= 0,
    ensures
        at_most(sum, 66, 0),
        at_most(sum, 120, 0),
        3 * (52 - i) * part(1, 45) >= 0,
        i < 52 ==> 3 * (52 - i) * part(1, 45) == 3 * (52 - (i + 1)) * part(1, 45) + 3 * part(1, 45),
        steps > 0 ==> 5 * steps * pow2(1074) == 5 * (steps - 1) * pow2(1074) + 5 * pow2(1074),
        part(1, 45) >= 0,
        5 * steps * pow2(1074) >= 0,
        2 * part(1, 45) <= pow2(1074),
{
    lemma_scales(0);
    let d = pow2(1074) as int;
    let g = part(1, 45);
    lemma_part(1, 45);
    assert(3 * (52 - i) * g >= 0) by (nonlinear_arith)
        requires i <= 52, g >= 0;
    assert(3 * (52 - i) * g == 3 * (52 - (i + 1)) * g + 3 * g) by (nonlinear_arith);
    assert(5 * steps * d >= 0) by (nonlinear_arith)
        requires steps >= 0, d > 0;
    assert(5 * steps * d == 5 * (steps - 1) * d + 5 * d) by (nonlinear_arith);
    lemma_looser(sum, 66, 120, 0);
}

/// Once the divisors have passed twice the argument, the terms at least halve: all that are
/// left add up to no more than the one before them.
proof fn lemma_tail_after(x: F64, tol: F64, apn: F64, t: F64, sum: F64, n: u64, j: int, i: int)
    requires
        rising(x, apn, t, j),
        2 * x.units() <= apn.units(),
        0 <= i <= 51,
        t.units() <= part(2, i),
        n >= 52 - i,
        j + 52 - i <= 99,
        room(sum, t, i, 0),
        at_least(tol, 1, 50),
    ensures
        ({
            let r = rising_tail(x, tol, apn, t, sum, n);
            &&& at_most(r, 66, 0)
            &&& sum.units() <= r.units() <= sum.units() + t.units() + 3 * (52 - i) * part(1, 45)
        }),
    decreases 52 - i,
{
    broadcast use lemma_lt_units;
    lemma_room(sum, t, i, 0);
    if t.gt(tol) {
        assert(i < 51) by {
            if i == 51 {
                lemma_pow2_adds(1, 1023);
                lemma2_to64();
                assert(part(2, 51) == part(1, 50));
            }
        }
        lemma_next(x, apn, t, j, i);
        let apn1 = apn + lit(ONE);
        let t1 = t * (x / apn1);
        lemma_added(sum, t1);
        lemma_tail_after(x, tol, apn1, t1, sum + t1, (n - 1) as u64, j + 1, i + 1);
    }
}

/// How many terms there can be before the divisors pass twice the argument.
spec fn ahead(j: int) -> int {
    if j < 12 {
        12 - j
    } else {
        0
    }
}

/// With a wider tolerance the series ends sooner, and what it leaves out is at most the
/// tolerance, but for rounding.
proof fn lemma_tail_both(
    x: F64,
    wide: F64,
    fine: F64,
    apn: F64,
    t: F64,
    sum: F64,
    n: u64,
    j: int,
    i: int,
)
    requires
        rising(x, apn, t, j),
        0 <= i <= 51,
        t.units() <= part(2, i),
        i > 0 ==> 2 * x.units() <= apn.units(),
        j + ahead(j) + 52 - i <= 99,
        n >= ahead(j) + 52 - i,
        room(sum, t, i, ahead(j)),
        at_least(fine, 1, 50),
        fine.units() <= wide.units(),
        wide.is_finite() && wide.units() < part(1, 11),
    ensures
        ({
            let a = rising_tail(x, wide, apn, t, sum, n);
            let b = rising_tail(x, fine, apn, t, sum, n);
            &&& at_most(a, 66, 0) && a.units() >= 0
            &&& at_most(b, 66, 0)
            &&& a.units() <= b.units() <= a.units() + wide.units() + 160 * part(1, 45)
        }),
    decreases ahead(j) + 52 - i,
{
    broadcast use lemma_lt_units;
    lemma_room(sum, t, i, ahead(j));
    lemma_scales(j);
    let d = pow2(1074) as int;
    let g = part(1, 45);
    assert(0 <= j * g <= 100 * g) by (nonlinear_arith)
        requires 0 <= j <= 100, g >= 0;
    if 2 * x.units() > apn.units() {
        assert(j <= 10) by (nonlinear_arith)
            requires 2 * (j * g) <= 200 * g, 400 * g <= d, (2 * j - 1) * d - 200 * g <= 20 * d, d > 0, g >= 0;
    }
    if t.gt(wide) {
        assert(i < 51) by {
            if i == 51 {
                lemma_pow2_adds(1, 1023);
                lemma2_to64();
                assert(part(2, 51) == part(1, 50));
            }
        }
        lemma_next(x, apn, t, j, i);
        let apn1 = apn + lit(ONE);
        let t1 = t * (x / apn1);
        lemma_added(sum, t1);
        if 2 * x.units() <= apn.units() {
            lemma_tail_both(x, wide, fine, apn1, t1, sum + t1, (n - 1) as u64, j + 1, i + 1);
        } else {
            assert(i == 0);
            lemma_tail_both(x, wide, fine, apn1, t1, sum + t1, (n - 1) as u64, j + 1, 0);
        }
    } else {
        if 2 * x.units() > apn.units() {
            if j + 1 < 11 {
                lemma_pow2_strictly_increases(1063, (1074 - (j + 1)) as nat);
            }
        }
        assert(5 * 0 * d == 0) by (nonlinear_arith);
        assert(room(sum, t, i, 0));
        lemma_tail_after(x, fine, apn, t, sum, n, j, i);
        assert(3 * (52 - i) * g <= 160 * g) by (nonlinear_arith)
            requires 0 <= i <= 52, g >= 0;
    }
}

/// The two tolerances, over the whole series.
proof fn lemma_sums_close(x: F64, wide: F64, fine: F64, apn: F64, t: F64, n: u64)
    requires
        1 <= n <= 19,
        rising(x, apn, t, n - 1),
        at_least(fine, 1, 50),
        fine.units() <= wide.units(),
        wide.is_finite() && wide.units() < part(1, 11),
    ensures
        ({
            let a = rising_sum(x, wide, apn, t, n);
            let b = rising_sum(x, fine, apn, t, n);
            let e = wide.units() + (160 + 2 * (20 - n)) * part(1, 45);
            &&& at_most(a, 66 + 2 * (20 - n) + 1, 0) && a.units() >= 0
            &&& at_most(b, 66 + 2 * (20 - n) + 1, 0) && b.units() >= 0
            &&& -e <= b.units() - a.units() <= e
            &&& e <= wide.units() + 198 * part(1, 45)
        }),
    decreases 20 - n,
{
    reveal(rising_sum_spec);
    lemma_scales(0);
    let d = pow2(1074) as int;
    let g = part(1, 45);
    lemma_pow2_pos(1074);
    lemma_next(x, apn, t, n - 1, 0);
    let apn1 = apn + lit(ONE);
    let t1 = t * (x / apn1);
    let ends = n >= 19 || t1.le(lit(0x3F50_624D_D2F1_A9FC /* 1e-3 */));
    let a = if ends {
        rising_tail(x, wide, apn1, t1, t1, PATIENCE)
    } else {
        rising_sum(x, wide, apn1, t1, (n + 1) as u64)
    };
    let b = if ends {
        rising_tail(x, fine, apn1, t1, t1, PATIENCE)
    } else {
        rising_sum(x, fine, apn1, t1, (n + 1) as u64)
    };
    if ends {
        assert(room(t1, t1, 0, ahead(n as int))) by {
            assert(3 * (52 - 0) * g == 156 * g);
            assert(5 * ahead(n as int) * d <= 60 * d) by (nonlinear_arith)
                requires ahead(n as int) <= 12, d > 0;
            assert(part(66, 0) == 66 * d);
        }
        lemma_tail_both(x, wide, fine, apn1, t1, t1, PATIENCE, n as int, 0);
        lemma_looser(a, 66, 66 + 2 * (19 - n) + 1, 0);
        lemma_looser(b, 66, 66 + 2 * (19 - n) + 1, 0);
        assert(160 * g <= (160 + 2 * (19 - n)) * g) by (nonlinear_arith)
            requires n <= 19, g >= 0;
    } else {
        lemma_sums_close(x, wide, fine, apn1, t1, (n + 1) as u64);
    }
    let k = 66 + 2 * (19 - n) + 1;
    lemma_looser(a, k, 120, 0);
    lemma_looser(b, k, 120, 0);
    lemma_added(a, t);
    lemma_added(b, t);
    assert((160 + 2 * (20 - n)) * g == (160 + 2 * (19 - n)) * g + 2 * g) by (nonlinear_arith);
    assert((160 + 2 * (20 - n)) * g <= 198 * g) by (nonlinear_arith)
        requires n >= 1, g >= 0;
    lemma_part(k + 2, 0);
    assert((k + 2) * d == k * d + 2 * d) by (nonlinear_arith);
    lemma_part(128, 0);
    lemma_sum_units(a, t);
    lemma_sum_units(b, t);
    lemma_rounded(a.units() + t.units(), part(k + 2, 0));
    lemma_rounded(b.units() + t.units(), part(k + 2, 0));
    lemma_rounded(part(k + 2, 0), 0);
}

/// The factor that the series gives hardly depends on the tolerance.
proof fn lemma_factors_close(x: F64, wide: F64, fine: F64, a: F64, k: int)
    requires
        a.is_finite() && lit(ONE).le(a) && a.units() <= part(10, 0),
        x.is_finite() && 0 < x.units(),
        x.units() <= a.units() || x.units() <= part(19, 3),
        at_least(fine, 1, 50),
        fine.units() <= wide.units(),
        wide.is_finite() && wide.units() < part(1, 11),
        wide.units() <= k * pow2(1014),
        0 <= k,
    ensures
        ({
            let apn = a + lit(ONE);
            let v = lit(ONE) + rising_sum(x, wide, apn, x / apn, 1);
            let w = lit(ONE) + rising_sum(x, fine, apn, x / apn, 1);
            &&& v.is_finite() && part(1, 0) <= v.units() <= part(128, 0)
            &&& w.is_finite() && part(1, 0) <= w.units() <= part(128, 0)
            &&& near(v.units(), w.units(), k + 6553600)
        }),
{
    broadcast use lemma_le_units;
    lemma_small_powers();
    lemma_scales(0);
    let d = pow2(1074) as int;
    let u = pow2(1014) as int;
    let g = part(1, 45);
    lemma_pow2_pos(1074);
    lemma_literal(ONE, 1022, 0x10_0000_0000_0000, 52, 1, 1, 0);
    lemma_part(128, 0);
    lemma_part(1, 0);
    lemma_part(2, 0);
    lemma_part(1, 1);
    let h = pow2(1073) as int;
    lemma_pow2_adds(2, 1071);
    lemma2_to64();
    assert(8 * part(19, 3) == 38 * h && part(1, 1) == h && d == 2 * h);
    let one = lit(ONE);
    let apn = a + one;
    lemma_sum_units(a, one);
    lemma_fine_grid(a.units() + d);
    let t = x / apn;
    lemma_quotient(x, apn);
    let num = x.units() * d;
    let den = apn.units();
    assert(num <= part(2, 0) * den) by (nonlinear_arith)
        requires num == x.units() * d, x.units() <= 2 * den, part(2, 0) == 2 * d, d > 0;
    lemma_ratio_le(num, den, part(2, 0));
    lemma_order(t.enc() as int, INF_ENC as int);
    if 2 * x.units() > den {
        assert(part(1, 1) * den <= num) by (nonlinear_arith)
            requires num == x.units() * d, 2 * x.units() > den, 2 * part(1, 1) == d, d > 0;
        lemma_ratio_ge(num, den, part(1, 1));
    }
    assert(0 * g == 0);
    assert((-1) * h == -h) by (nonlinear_arith);
    assert(part(2 * 0 - 1, 1) == -h);
    assert(x.units() - h <= den);
    assert(rising(x, apn, t, 0));
    lemma_sums_close(x, wide, fine, apn, t, 1);
    let s = rising_sum(x, wide, apn, t, 1);
    let s2 = rising_sum(x, fine, apn, t, 1);
    lemma_looser(s, 105, 127, 0);
    lemma_looser(s2, 105, 127, 0);
    lemma_sum_units(one, s);
    lemma_sum_units(one, s2);
    let v = one + s;
    let w = one + s2;
    lemma_fine_grid(d + s.units());
    lemma_fine_grid(d + s2.units());
    lemma_rounded(part(1, 0), d + s.units());
    lemma_rounded(part(1, 0), d + s2.units());
    lemma_rounded(d + s.units(), part(128, 0));
    lemma_rounded(d + s2.units(), part(128, 0));
    lemma_rounded(part(128, 0), 0);
    let c = v.units();
    let b = w.units();
    let kk = k + 6553600;
    assert(kk * u == k * u + 6553600 * u) by (nonlinear_arith)
        requires kk == k + 6553600;
    assert(s2.units() - s.units() <= wide.units() + 198 * g);
    assert(c - d - s.units() <= g && b - d - s2.units() <= g);
    assert(g == 0x8000 * u);
    assert(-(kk * u) <= c - b <= kk * u);
    let e = SPAN as int;
    assert(c * (e + kk) == c * e + c * kk && b * (e + kk) == b * e + b * kk) by (nonlinear_arith);
    assert((kk * u) * e == d * kk) by (nonlinear_arith)
        requires d == e * u;
    assert(d * kk <= c * kk && d * kk <= b * kk) by (nonlinear_arith)
        requires d <= c, d <= b, kk >= 0;
    assert(c * e - b * e <= (kk * u) * e) by (nonlinear_arith)
        requires c - b <= kk * u, e > 0;
    assert(b * e - c * e <= (kk * u) * e) by (nonlinear_arith)
        requires b - c <= kk * u, e > 0;
}

/// The lower ratio from the series hardly depends on the tolerance.
proof fn lemma_series_close(a: F64, x: F64, r: F64, wide: F64, fine: F64, k: int)
    requires
        a.is_finite() && lit(ONE).le(a) && a.units() <= part(10, 0),
        x.is_finite() && 0 < x.units(),
        x.units() <= a.units() || x.units() <= part(19, 3),
        at_least(lit(HALF) * fine, 1, 50),
        (lit(HALF) * fine).units() <= (lit(HALF) * wide).units(),
        (lit(HALF) * wide).is_finite() && (lit(HALF) * wide).units() < part(1, 11),
        (lit(HALF) * wide).units() <= k * pow2(1014),
        0 <= k <= 0x8_0000_0000_0000,
        at_least(r / a, 1, 1000),
        at_most(r / a, 1, 0),
    ensures
        near(
            taylor_p_over_r(a, x, r, wide).0.units(),
            taylor_p_over_r(a, x, r, fine).0.units(),
            k + 6553864,
        ),
        taylor_p_over_r(a, x, r, wide).0.is_finite(),
        taylor_p_over_r(a, x, r, fine).0.is_finite(),
{
    reveal(taylor_p_over_r_spec);
    lemma_factors_close(x, lit(HALF) * wide, lit(HALF) * fine, a, k);
    let apn = a + lit(ONE);
    let v = lit(ONE) + rising_sum(x, lit(HALF) * wide, apn, x / apn, 1);
    let w = lit(ONE) + rising_sum(x, lit(HALF) * fine, apn, x / apn, 1);
    let q = r / a;
    lemma_part(1, 1000);
    lemma_part(1, 0);
    lemma_scaled_normal(q, v);
    lemma_scaled_normal(q, w);
    let d = pow2(1074) as int;
    lemma_pow2_pos(1074);
    let kk = k + 6553600;
    crate::special::normal_smooth_laws::lemma_near_times(v.units(), w.units(), q.units(), kk);
    assert(v.units() * q.units() == q.units() * v.units()) by (nonlinear_arith);
    assert(w.units() * q.units() == q.units() * w.units()) by (nonlinear_arith);
    let n1 = q.units() * v.units();
    let n2 = q.units() * w.units();
    lemma_product(q, v);
    lemma_product(q, w);
    lemma_round_near(n1, d);
    lemma_round_near(n2, d);
    lemma_both_rounded(n1, n2, (q * v).units() * d, (q * w).units() * d, kk);
    lemma_order((q * v).enc() as int, 0);
    lemma_order((q * w).enc() as int, 0);
    crate::float::relative::lemma_near_cancel((q * v).units(), (q * w).units(), d, kk + 264);
}

/// A number between 2^-1000 and one, times one between one and 128, is normal.
proof fn lemma_scaled_normal(q: F64, v: F64)
    requires
        at_least(q, 1, 1000),
        at_most(q, 1, 0),
        v.is_finite() && part(1, 0) <= v.units() <= part(128, 0),
    ensures
        (q * v).is_finite(),
        q.units() * v.units() >= CELL * pow2(1074),
{
    lemma_part(1, 1000);
    lemma_part(1, 0);
    lemma_product_at_most(q, v, 1, 0, 128, 0);
    lemma2_to64();
    vstd::arithmetic::power2::lemma2_to64_rest();
    lemma_pow2_adds(22, 52);
    lemma_pow2_pos(1074);
    assert(q.units() * v.units() >= CELL * pow2(1074)) by (nonlinear_arith)
        requires q.units() >= CELL, v.units() >= pow2(1074), CELL > 0;
}

/// The tolerances of the three accuracies.
pub proof fn lemma_tolerances()
    ensures
        ({
            let f = lit(HALF) * lit(MAX_ACC);
            let s = lit(HALF) * lit(SIX_ACC);
            let t = lit(HALF) * lit(THREE_ACC);
            let u = pow2(1014) as int;
            &&& at_least(f, 1, 50)
            &&& s.is_finite() && f.units() <= s.units() <= 288230376152 * u
            &&& t.is_finite() && f.units() <= t.units() <= 288230376151712 * u
            &&& s.units() < part(1, 11) && t.units() < part(1, 11)
        }),
        lit(MAX_ACC).max(lit(EPSILON)) == lit(MAX_ACC),
        lit(SIX_ACC).max(lit(EPSILON)) == lit(SIX_ACC),
        lit(THREE_ACC).max(lit(EPSILON)) == lit(THREE_ACC),
{
    broadcast use lemma_lt_units;
    lemma_small_powers();
    lemma2_to64();
    vstd::arithmetic::power2::lemma2_to64_rest();
    lemma_literal(HALF, 1021, 0x10_0000_0000_0000, 52, 1, 1, 1);
    lemma_literal(MAX_ACC, 974, 0x16849b86a12b9b, 51, 1, 4, 49);
    lemma_literal(SIX_ACC, 1001, 0x10c6f7a0b5ed8d, 14, 288230376151, 288230376152, 59);
    lemma_literal(THREE_ACC, 1011, 0x10624dd2f1a9fc, 4, 288230376151711, 288230376151712, 59);
    lemma_order(MAX_ACC as int, EPSILON as int);
    lemma_order(SIX_ACC as int, EPSILON as int);
    lemma_order(THREE_ACC as int, EPSILON as int);
    let h = lit(HALF);
    lemma_product_at_most(h, lit(MAX_ACC), 1, 1, 4, 49);
    lemma_product_at_least(h, lit(MAX_ACC), 1, 1, 1, 49);
    lemma_product_at_most(h, lit(SIX_ACC), 1, 1, 288230376152, 59);
    lemma_product_at_least(h, lit(SIX_ACC), 1, 1, 288230376151, 59);
    lemma_product_at_most(h, lit(THREE_ACC), 1, 1, 288230376151712, 59);
    lemma_product_at_least(h, lit(THREE_ACC), 1, 1, 288230376151711, 59);
    lemma_pow2_adds(10, 1014);
    lemma_pow2_adds(49, 1014);
    lemma_pow2_pos(1014);
}

/// The bits of 5e-15.
pub const MAX_ACC: u64 = 0x3CF6_849B_86A1_2B9B;

/// The bits of 5e-7.
pub const SIX_ACC: u64 = 0x3EA0_C6F7_A0B5_ED8D;

/// The bits of 5e-4.
pub const THREE_ACC: u64 = 0x3F40_624D_D2F1_A9FC;

/// The bits of 9.7.
pub const NEAR_TEN: u64 = 0x4023_6666_6666_6666;

/// Twice the parameter is a whole number, and the argument is not below it.
pub open spec fn is_finite_sum(a: F64, x: F64) -> bool {
    a.le(x) && (a + a).equals(F64::from_u64((a + a).to_u64()))
}

/// What the lower ratio is a multiple of, in its series.
pub open spec fn series_scale<M: Fn(Elementary) -> F64>(m: &M, a: F64, x: F64) -> F64 {
    exp(m, a * ln(m, x) - x) / gamma_value(m, a) / a
}

/// For a parameter from 1 up to 9.7 the ratios do not depend on the accuracy where they come
/// of a finite sum. Where they come of the series of the lower ratio, this is within 1e-6 of
/// itself at six digits, and within 1e-3 at three; so is the upper one, as a part of one.
/// The series is that for an argument of at most the parameter or the logarithm of ten.
pub proof fn law_accuracy_of_series<M: Fn(Elementary) -> F64>(m: &M, a: F64, x: F64)
    requires
        lit(ONE).le(a) && a.lt(lit(NEAR_TEN)),
        x.gt(lit(ZERO)) && x.lt(lit(NEAR_TEN)),
        is_finite_sum(a, x) || x.le(a.max(lit(ALOG10))),
        is_finite_sum(a, x) || at_least(series_scale(m, a, x), 1, 1000) && at_most(
            series_scale(m, a, x),
            1,
            0,
        ),
    ensures
        ({
            let f = gamma_inc_core(m, a, x, GammaIncAcc::Max);
            let s = gamma_inc_core(m, a, x, GammaIncAcc::Digits6);
            let t = gamma_inc_core(m, a, x, GammaIncAcc::Digits3);
            if is_finite_sum(a, x) {
                s == f && t == f
            } else {
                &&& near(s.0.units(), f.0.units(), SPAN as int / 1_000_000)
                &&& near(t.0.units(), f.0.units(), SPAN as int / 1_000)
                &&& s.1 == complement(s.0) && t.1 == complement(t.0) && f.1 == complement(f.0)
                &&& at_most(f.0, 1, 0) && at_most(s.0, 1, 0) ==> 1_000_000 * size(s.1.units() - f.1.units())
                    <= part(1, 0)
                &&& at_most(f.0, 1, 0) && at_most(t.0, 1, 0) ==> 1_000 * size(t.1.units() - f.1.units())
                    <= part(1, 0)
            }
        }),
{
    broadcast use lemma_le_units;
    broadcast use lemma_lt_units;
    broadcast use lemma_equals_units;
    lemma_tolerances();
    reveal(gamma_inc_core_spec);
    reveal(moderate_spec);
    reveal(from_scale_spec);
    lemma_branches(a, x);
    if !is_finite_sum(a, x) {
        let r = exp(m, a * ln(m, x) - x) / gamma_value(m, a);
        assert(!r.equals(lit(ZERO))) by {
            if r.equals(lit(ZERO)) {
                lemma_zero_over(r, a);
            }
        }
        lemma_series_close(a, x, r, lit(SIX_ACC), lit(MAX_ACC), 288230376152);
        lemma_series_close(a, x, r, lit(THREE_ACC), lit(MAX_ACC), 288230376151712);
        let f = gamma_inc_core(m, a, x, GammaIncAcc::Max);
        let s = gamma_inc_core(m, a, x, GammaIncAcc::Digits6);
        let t = gamma_inc_core(m, a, x, GammaIncAcc::Digits3);
        reveal(taylor_p_over_r_spec);
        lemma_uppers_close(s.0, f.0, 288236930016);
        lemma_uppers_close(t.0, f.0, 288230382705576);
        lemma_near_wider(s.0.units(), f.0.units(), 288236930016, SPAN as int / 1_000_000);
        lemma_near_wider(t.0.units(), f.0.units(), 288230382705576, SPAN as int / 1_000);
    }
}

/// The complements of two near ratios.
pub proof fn lemma_uppers_close(s: F64, f: F64, k: int)
    requires
        s.is_finite() && f.is_finite(),
        near(s.units(), f.units(), k),
    ensures
        at_most(s, 1, 0) && at_most(f, 1, 0) ==> size(complement(s).units() - complement(f).units()) <= (k
            + 512) * pow2(1014),
        part(1, 0) == SPAN * pow2(1014),
{
    lemma_fractions();
    let u = pow2(1014) as int;
    if at_most(s, 1, 0) && at_most(f, 1, 0) {
        lemma_unit(s);
        lemma_unit(f);
        lemma_near_apart(s.units(), f.units(), k);
        lemma_complement(s);
        lemma_complement(f);
        lemma_pow2_adds(8, 1014);
        lemma2_to64();
        assert((k + 512) * u == k * u + 512 * u) by (nonlinear_arith);
    }
}

/// The ratios do not depend on the accuracy where one parameter vanishes beside the other, for
/// a parameter of one half, and for a parameter from 20 on far from the mean.
pub proof fn law_accuracy_of_the_rest<M: Fn(Elementary) -> F64>(m: &M, a: F64, x: F64, acc: GammaIncAcc)
    requires
        ({
            ||| (a * x).equals(lit(ZERO))
            ||| a.equals(lit(HALF))
            ||| {
                &&& a.ge(lit(TWENTY))
                &&& (x / a).equals(lit(ZERO)) || rlog(m, x / a).ge(lit(0x4085_E000_0000_0000 /* 700.0 */) / a)
            }
        }),
    ensures
        try_gamma_inc_with_acc(m, a, x, acc) == try_gamma_inc_with_acc(m, a, x, GammaIncAcc::Max),
{
    broadcast use lemma_le_units;
    broadcast use lemma_lt_units;
    broadcast use lemma_equals_units;
    reveal(gamma_inc_core_spec);
    reveal(below_one_spec);
    reveal(large_spec);
    lemma_order(HALF as int, ONE as int);
    lemma_order(TWENTY as int, ONE as int);
    lemma_order(TWENTY as int, 0x402C_0000_0000_0000);
    lemma_order(TWENTY as int, TEN as int);
}

/// The bits of twenty.
pub const TWENTY: u64 = 0x4034_0000_0000_0000;

/// Nothing divided by a number is nothing.
proof fn lemma_zero_over(r: F64, a: F64)
    requires
        r.equals(lit(ZERO)),
        a.is_finite() && a.units() > 0,
    ensures
        !at_least(r / a, 1, 1000),
{
    broadcast use lemma_equals_units;
    lemma_order(r.enc() as int, 0);
    lemma_order(a.enc() as int, 0);
    crate::float::laws::law_quotient_is_nearest(r, a);
    lemma_pow2_pos(1074);
    assert(0 * pow2(1074) == 0);
    crate::float::arith::lemma_round_zero(mag(a.enc() as int));
    crate::float::model::lemma_round_ratio_is(0, mag(a.enc() as int), (r / a).enc());
    lemma_order((r / a).enc() as int, 0);
    lemma_part(1, 1000);
}

/// Where the branches for a moderate parameter are taken.
proof fn lemma_branches(a: F64, x: F64)
    requires
        lit(ONE).le(a) && a.lt(lit(NEAR_TEN)),
        x.gt(lit(ZERO)) && x.lt(lit(NEAR_TEN)),
    ensures
        !(a * x).equals(lit(ZERO)),
        !a.lt(lit(ONE)),
        a.is_finite() && 0 < a.units() <= part(10, 0),
        x.is_finite() && 0 < x.units(),
        a.lt(lit(0x4034_0000_0000_0000)) && a.lt(lit(0x402C_0000_0000_0000)) && a.lt(lit(TEN)),
        x.lt(lit(0x403F_0000_0000_0000)) && x.lt(lit(0x4031_0000_0000_0000)),
        x.le(a.max(lit(ALOG10))) ==> x.units() <= a.units() || x.units() <= part(19, 3),
{
    broadcast use lemma_le_units;
    broadcast use lemma_lt_units;
    broadcast use lemma_equals_units;
    lemma_small_powers();
    crate::float::model::lemma_mag_zero(0);
    lemma_literal(ONE, 1022, 0x10_0000_0000_0000, 52, 1, 1, 0);
    lemma_literal(TEN, 1025, 0x14_0000_0000_0000, 49, 10, 10, 0);
    lemma_literal(ALOG10, 1023, 0x12_6BB1_BBB5_551F, 48, 18, 19, 3);
    lemma_order(NEAR_TEN as int, TEN as int);
    lemma_order(NEAR_TEN as int, 0x4034_0000_0000_0000);
    lemma_order(NEAR_TEN as int, 0x402C_0000_0000_0000);
    lemma_order(NEAR_TEN as int, 0x403F_0000_0000_0000);
    lemma_order(NEAR_TEN as int, 0x4031_0000_0000_0000);
    lemma_order(a.enc() as int, NEAR_TEN as int);
    lemma_order(x.enc() as int, NEAR_TEN as int);
    lemma_order(x.enc() as int, 0);
    lemma_pow2_pos(1074);
    lemma_product(a, x);
    let d = pow2(1074) as int;
    assert(x.units() * d <= a.units() * x.units()) by (nonlinear_arith)
        requires a.units() >= d, x.units() > 0;
    crate::float::signed::lemma_units_representable(x);
    lemma_ratio_ge(a.units() * x.units(), d, x.units());
}

} // verus!
