//! What a lesser accuracy costs, where the ratios of the incomplete gamma function come of the
//! alternating series for a parameter below one.
use crate::consts::{HALF, ONE, PATIENCE, QUARTER, THREE, TWO, ZERO};
use crate::float::{lit, F64};
use crate::float::bounds::{
    at_least, at_most, lemma_literal, lemma_part, lemma_product, lemma_product_at_least,
    lemma_product_at_most, lemma_quotient, lemma_quotient_at_least, lemma_ratio_le, part,
};
use crate::float::laws::{
    law_negation, law_product_commutes, law_product_is_nearest, law_quotient_is_nearest,
};
use crate::float::model::{lemma_mag_zero, lemma_round_ratio_is, mag, INF_ENC};
use crate::float::number::{lemma_equals_units, lemma_le_units, lemma_lt_units, lemma_order};
use crate::float::relative::SPAN;
use crate::float::signed::{lemma_rounded, lemma_sum_units, lemma_units_representable};
use crate::functions::{exp, ln, Elementary};
use crate::special::accuracy_laws::{lemma_tolerances, MAX_ACC, SIX_ACC, THREE_ACC};
use crate::special::gamma::{gam1, rexp};
use crate::special::gamma_inc::{
    below_one_spec, complement, complement_spec, gamma_inc_core, gamma_inc_core_spec, taylor_finish,
    taylor_finish_spec, taylor_p_over_xa_spec, taylor_series, GammaIncAcc,
};
use crate::special::normal_laws::{lemma_fine_grid, lemma_small_powers};
use crate::special::normal_smooth_laws::{lemma_fine_ratio, lemma_fractions, size};
use vstd::arithmetic::div_mod::{lemma_fundamental_div_mod, lemma_mod_bound};
use vstd::arithmetic::power2::{
    lemma2_to64, lemma2_to64_rest, lemma_pow2_adds, lemma_pow2_pos, pow2,
};
use vstd::prelude::*;

verus! {

/// The number is finite, and its magnitude is at most the whole number `b`.
pub open spec fn sized(x: F64, b: int) -> bool {
    x.is_finite() && size(x.units()) <= b * pow2(1074)
}

proof fn lemma_units_size(x: F64)
    ensures
        size(x.units()) == mag(x.enc() as int),
{
    lemma_order(x.enc() as int, 0);
}

/// A sum of numbers that are not large, by its distance from the exact one.
pub proof fn lemma_sum_off(x: F64, y: F64, b: int, c: int)
    requires
        sized(x, b),
        sized(y, c),
        0 <= b,
        0 <= c,
        b + c <= 120,
    ensures
        sized(x + y, b + c),
        size((x + y).units() - (x.units() + y.units())) <= part(1, 45),
{
    let d = pow2(1074) as int;
    lemma_pow2_pos(1074);
    lemma_part(128, 0);
    lemma_part(b + c, 0);
    assert((b + c) * d == b * d + c * d) by (nonlinear_arith);
    assert((b + c) * d <= 120 * d) by (nonlinear_arith)
        requires b + c <= 120, d > 0;
    let n = x.units() + y.units();
    lemma_sum_units(x, y);
    lemma_fine_grid(n);
    lemma_rounded(n, part(b + c, 0));
    lemma_rounded(-part(b + c, 0), n);
    lemma_rounded(part(b + c, 0), 0);
}

/// The same for a difference.
pub proof fn lemma_difference_off(x: F64, y: F64, b: int, c: int)
    requires
        sized(x, b),
        sized(y, c),
        0 <= b,
        0 <= c,
        b + c <= 120,
    ensures
        sized(x - y, b + c),
        size((x - y).units() - (x.units() - y.units())) <= part(1, 45),
{
    law_negation(y);
    lemma_sum_off(x, y.negated(), b, c);
}

/// The same for a product.
pub proof fn lemma_product_off(x: F64, y: F64, b: int, c: int)
    requires
        sized(x, b),
        sized(y, c),
        0 <= b,
        0 <= c,
        b * c <= 120,
    ensures
        sized(x * y, b * c),
        size((x * y).units() * pow2(1074) - x.units() * y.units()) <= part(1, 45) * pow2(1074),
{
    let d = pow2(1074) as int;
    lemma_pow2_pos(1074);
    lemma_units_size(x);
    lemma_units_size(y);
    lemma_units_size(x * y);
    law_product_is_nearest(x, y);
    let xm = mag(x.enc() as int);
    let ym = mag(y.enc() as int);
    let n = xm * ym;
    assert(0 <= n <= ((b * c) * d) * d) by (nonlinear_arith)
        requires n == xm * ym, 0 <= xm <= b * d, 0 <= ym <= c * d;
    assert(((b * c) * d) * d <= (128 * d) * d) by (nonlinear_arith)
        requires b * c <= 120, d > 0;
    assert(b * c >= 0) by (nonlinear_arith)
        requires b >= 0, c >= 0;
    lemma_round_ratio_is(n, d, (x * y).enc());
    lemma_part(b * c, 0);
    lemma_ratio_le(n, d, part(b * c, 0));
    lemma_order((x * y).enc() as int, INF_ENC as int);
    lemma_fine_ratio(n, d);
    let rm = mag((x * y).enc() as int);
    assert((-rm) * d == -(rm * d)) by (nonlinear_arith);
    assert((-xm) * ym == -n && xm * (-ym) == -n && (-xm) * (-ym) == n) by (nonlinear_arith)
        requires n == xm * ym;
}

/// The same for a quotient by a number of at least one.
pub proof fn lemma_quotient_off(x: F64, y: F64, b: int)
    requires
        sized(x, b),
        y.is_finite() && y.units() >= pow2(1074),
        0 <= b <= 120,
    ensures
        sized(x / y, b),
        size((x / y).units() * y.units() - x.units() * pow2(1074)) <= part(1, 45) * y.units(),
        mag((x / y).enc() as int) <= mag(x.enc() as int),
        (x / y).sign() == (x.sign() != y.sign()),
{
    let d = pow2(1074) as int;
    lemma_pow2_pos(1074);
    lemma_units_size(x);
    lemma_units_size(y);
    lemma_units_size(x / y);
    lemma_order(y.enc() as int, 0);
    law_quotient_is_nearest(x, y);
    let xm = mag(x.enc() as int);
    let yu = y.units();
    let n = xm * d;
    assert(0 <= n <= xm * yu) by (nonlinear_arith)
        requires n == xm * d, xm >= 0, yu >= d, d > 0;
    lemma_round_ratio_is(n, yu, (x / y).enc());
    lemma_units_representable(x.abs());
    law_negation(x);
    assert(crate::float::signed::representable(xm)) by {
        assert(x.abs().units() == xm);
    }
    lemma_ratio_le(n, yu, xm);
    lemma_order((x / y).enc() as int, x.enc() as int);
    assert(xm * yu <= (128 * d) * yu) by (nonlinear_arith)
        requires xm <= b * d, b <= 120, d > 0, yu > 0;
    lemma_fine_ratio(n, yu);
    let rm = mag((x / y).enc() as int);
    assert((-rm) * yu == -(rm * yu)) by (nonlinear_arith);
    assert((-xm) * d == -(xm * d)) by (nonlinear_arith);
}

/// The state of the alternating series.
spec fn alternating(a: F64, x: F64, an: F64, c: F64, i: int) -> bool {
    let d = pow2(1074) as int;
    &&& a.is_finite() && 0 < a.units() <= d
    &&& x.is_finite() && 0 < x.units() && 8 * x.units() <= 9 * d
    &&& an.is_finite() && 3 * d <= an.units() <= (4 + i) * d
    &&& c.is_finite() && mag(c.enc() as int) <= part(2, i)
    &&& 0 <= i <= 60
}

/// The next coefficient, divisor and term.
proof fn lemma_alternate(a: F64, x: F64, an: F64, c: F64, i: int)
    requires
        alternating(a, x, an, c, i),
        i < 60,
    ensures
        ({
            let an1 = an + lit(ONE);
            let c1 = (c * (x / an1)).negated();
            let den = a + an1;
            let t = c1 / den;
            let d = pow2(1074) as int;
            &&& alternating(a, x, an1, c1, i + 1)
            &&& den.is_finite() && (a + an).is_finite() && den.units() >= (a + an).units()
            &&& (a + an).units() >= d
            &&& 2 * mag(c1.enc() as int) <= mag(c.enc() as int) + 2 * part(1, 45)
            &&& t.is_finite() && mag(t.enc() as int) <= mag(c1.enc() as int)
            &&& size(mag(t.enc() as int) * den.units() - mag(c1.enc() as int) * d) <= part(1, 45)
                * den.units()
        }),
{
    let d = pow2(1074) as int;
    let g = part(1, 45);
    lemma_pow2_pos(1074);
    lemma_fractions();
    lemma_small_powers();
    lemma_literal(ONE, 1022, 0x10_0000_0000_0000, 52, 1, 1, 0);
    lemma_part(4 + (i + 1), 0);
    lemma_part(4, 0);
    lemma_part(128, 0);
    assert((4 + i) * d + d == (4 + (i + 1)) * d) by (nonlinear_arith);
    assert((4 + i) * d <= 64 * d) by (nonlinear_arith)
        requires i <= 60, d > 0;
    let an1 = an + lit(ONE);
    let n = an.units() + d;
    lemma_sum_units(an, lit(ONE));
    lemma_rounded(part(4, 0), n);
    lemma_rounded(n, part(4 + (i + 1), 0));
    lemma_rounded(part(4 + (i + 1), 0), 0);
    lemma_rounded(an.units(), n);
    lemma_units_representable(an);
    assert(an1.units() >= 4 * d);
    lemma_order(an1.enc() as int, 0);
    assert(sized(a, 1) && sized(an1, 66) && sized(an, 65)) by {
        assert((4 + (i + 1)) * d <= 66 * d) by (nonlinear_arith)
            requires i <= 60, d > 0;
    }
    lemma_sum_off(a, an1, 1, 66);
    lemma_sum_off(a, an, 1, 65);
    lemma_sum_units(a, an1);
    lemma_sum_units(a, an);
    lemma_rounded(a.units() + an.units(), a.units() + an1.units());
    lemma_rounded(an.units(), a.units() + an.units());
    // the factor is at most one half
    let y = x / an1;
    lemma_quotient_off(x, an1, 2);
    let num = x.units() * d;
    lemma_part(1, 1);
    lemma_pow2_adds(1, 1073);
    lemma_units_size(x);
    law_quotient_is_nearest(x, an1);
    lemma_units_size(an1);
    lemma_round_ratio_is(num, an1.units(), y.enc());
    assert(0 <= num <= part(1, 1) * an1.units()) by (nonlinear_arith)
        requires num == x.units() * d, 0 < 8 * x.units() <= 9 * d, an1.units() >= 4 * d, 2 * part(1, 1) == d, d
            > 0;
    lemma_ratio_le(num, an1.units(), part(1, 1));
    let ym = mag(y.enc() as int);
    // the coefficient
    let v = c * y;
    let cm = mag(c.enc() as int);
    lemma_order(c.enc() as int, y.enc() as int);
    law_product_is_nearest(c, y);
    let m = cm * ym;
    assert(m >= 0) by (nonlinear_arith)
        requires m == cm * ym, cm >= 0, ym >= 0;
    lemma_round_ratio_is(m, d, v.enc());
    lemma_part(2, i + 1);
    lemma_pow2_adds(1, (1074 - (i + 1)) as nat);
    assert(part(2, i) == 2 * part(2, i + 1)) by (nonlinear_arith)
        requires part(2, i) == 2 * pow2((1074 - i) as nat), part(2, i + 1) == 2 * pow2((1074 - (i + 1)) as nat),
            pow2((1074 - i) as nat) == 2 * pow2((1074 - (i + 1)) as nat);
    assert(m <= part(2, i + 1) * d) by (nonlinear_arith)
        requires m == cm * ym, 0 <= cm <= 2 * part(2, i + 1), 0 <= ym, 2 * ym <= d;
    lemma_ratio_le(m, d, part(2, i + 1));
    lemma_order(v.enc() as int, INF_ENC as int);
    law_negation(v);
    let c1 = v.negated();
    assert(part(2, i + 1) <= 2 * d) by {
        lemma_pow2_adds((i + 1) as nat, (1074 - (i + 1)) as nat);
        lemma_pow2_pos((i + 1) as nat);
        lemma_pow2_pos((1074 - (i + 1)) as nat);
        assert(pow2((1074 - (i + 1)) as nat) <= d) by (nonlinear_arith)
            requires d == pow2((i + 1) as nat) * pow2((1074 - (i + 1)) as nat), pow2((i + 1) as nat) >= 1,
                pow2((1074 - (i + 1)) as nat) > 0;
    }
    assert(m <= part(128, 0) * d) by (nonlinear_arith)
        requires m <= part(2, i + 1) * d, part(2, i + 1) <= 2 * d, part(128, 0) == 128 * d, d > 0;
    lemma_fine_ratio(m, d);
    let vm = mag(v.enc() as int);
    assert(2 * m <= cm * d) by (nonlinear_arith)
        requires m == cm * ym, 2 * ym <= d, cm >= 0;
    assert(2 * vm <= cm + 2 * g) by (nonlinear_arith)
        requires vm * d - m <= g * d, 2 * m <= cm * d, d > 0;
    // the term
    lemma_units_size(c1);
    assert(sized(c1, 2));
    let den = a + an1;
    lemma_quotient_off(c1, den, 2);
    let t = c1 / den;
    lemma_units_size(t);
    lemma_units_size(den);
    assert((-mag(t.enc() as int)) * den.units() == -(mag(t.enc() as int) * den.units())) by (nonlinear_arith);
    assert((-vm) * d == -(vm * d)) by (nonlinear_arith);
    lemma_order(t.enc() as int, 0);
}

/// Whatever the tolerance, from here on the series adds up to no more than what the last
/// term was bounded by.
proof fn lemma_alternate_after(
    a: F64,
    x: F64,
    tol: F64,
    an: F64,
    c: F64,
    sum: F64,
    n: u64,
    i: int,
    tau: int,
)
    requires
        alternating(a, x, an, c, i),
        0 <= i <= 48,
        n >= 49 - i,
        at_least(tol, 1, 48),
        0 <= tau,
        mag(c.enc() as int) * pow2(1074) <= tau * (a + an).units(),
        sum.is_finite() && size(sum.units()) + tau + 6 * (52 - i) * part(1, 45) <= 4 * pow2(1074),
    ensures
        ({
            let r = taylor_series(a, x, tol, an, c, sum, n);
            sized(r, 4) && size(r.units() - sum.units()) <= tau + 6 * (52 - i) * part(1, 45)
        }),
    decreases 49 - i,
{
    broadcast use lemma_le_units;
    let d = pow2(1074) as int;
    let g = part(1, 45);
    lemma_pow2_pos(1074);
    lemma_fractions();
    lemma_alternate(a, x, an, c, i);
    let an1 = an + lit(ONE);
    let c1 = (c * (x / an1)).negated();
    let den = (a + an1).units();
    let t = c1 / (a + an1);
    let tm = mag(t.enc() as int);
    let cm = mag(c1.enc() as int);
    let old_den = (a + an).units();
    let old_cm = mag(c.enc() as int);
    assert(6 * (52 - i) * g == 6 * (52 - (i + 1)) * g + 6 * g) by (nonlinear_arith);
    assert(6 * (52 - (i + 1)) * g >= 0) by (nonlinear_arith)
        requires i <= 48, g >= 0;
    assert((2 * cm) * d <= (tau + 2 * g) * den) by (nonlinear_arith)
        requires 2 * cm <= old_cm + 2 * g, old_cm * d <= tau * old_den, old_den <= den, d <= old_den, tau >= 0,
            g >= 0, d > 0;
    assert(2 * tm <= tau + 4 * g) by (nonlinear_arith)
        requires tm * den - cm * d <= g * den, (2 * cm) * d <= (tau + 2 * g) * den, den > 0;
    lemma_units_size(t);
    assert(sized(t, 4)) by {
        assert(2 * tm <= 4 * d + 4 * g);
    }
    assert(sized(sum, 4));
    lemma_sum_off(sum, t, 4, 4);
    let sum1 = sum + t;
    law_negation(t);
    if t.abs().le(tol) {
    } else {
        assert(t.abs().units() == tm);
        assert(i < 48) by {
            if i == 48 {
                lemma_pow2_adds(1, 1025);
                lemma2_to64();
                assert(part(2, 49) == part(1, 48));
            }
        }
        let tau1 = (tau + 2 * g + 1) / 2;
        assert(cm * d <= tau1 * den) by (nonlinear_arith)
            requires (2 * cm) * d <= (tau + 2 * g) * den, tau + 2 * g <= 2 * tau1, den > 0;
        lemma_alternate_after(a, x, tol, an1, c1, sum1, (n - 1) as u64, i + 1, tau1);
    }
}

/// With a wider tolerance the series ends sooner, and what it leaves out is at most the
/// tolerance, but for rounding.
proof fn lemma_alternate_both(
    a: F64,
    x: F64,
    wide: F64,
    fine: F64,
    an: F64,
    c: F64,
    sum: F64,
    n: u64,
    i: int,
)
    requires
        alternating(a, x, an, c, i),
        0 <= i <= 48,
        n >= 110 - i,
        at_least(fine, 1, 48),
        wide.is_finite() && fine.units() <= wide.units(),
        sum.is_finite() && size(sum.units()) + mag(c.enc() as int) + 8 * (52 - i) * part(1, 45) <= 3
            * pow2(1074),
    ensures
        ({
            let r = taylor_series(a, x, wide, an, c, sum, n);
            let s = taylor_series(a, x, fine, an, c, sum, n);
            &&& sized(r, 4) && sized(s, 4)
            &&& size(r.units() - s.units()) <= wide.units() + 330 * part(1, 45)
        }),
    decreases 49 - i,
{
    broadcast use lemma_le_units;
    let d = pow2(1074) as int;
    let g = part(1, 45);
    lemma_pow2_pos(1074);
    lemma_fractions();
    lemma_part(1, 48);
    lemma_alternate(a, x, an, c, i);
    let an1 = an + lit(ONE);
    let c1 = (c * (x / an1)).negated();
    let den = (a + an1).units();
    let t = c1 / (a + an1);
    let tm = mag(t.enc() as int);
    let cm = mag(c1.enc() as int);
    assert(8 * (52 - i) * g == 8 * (52 - (i + 1)) * g + 8 * g) by (nonlinear_arith);
    assert(8 * (52 - (i + 1)) * g >= 0) by (nonlinear_arith)
        requires i <= 48, g >= 0;
    lemma_units_size(t);
    lemma_units_size(c1);
    lemma_order(c1.enc() as int, c.enc() as int);
    assert(sized(t, 4) && sized(sum, 4));
    lemma_sum_off(sum, t, 4, 4);
    let sum1 = sum + t;
    law_negation(t);
    assert(t.abs().units() == tm);
    if t.abs().le(wide) {
        if !t.abs().le(fine) {
            assert(i < 48) by {
                if i == 48 {
                    lemma_pow2_adds(1, 1025);
                    lemma2_to64();
                    assert(part(2, 49) == part(1, 48));
                }
            }
            let tau = tm + g;
            assert(cm * d <= tau * den) by (nonlinear_arith)
                requires cm * d - tm * den <= g * den, tau == tm + g;
            assert(6 * (52 - (i + 1)) * g <= 312 * g) by (nonlinear_arith)
                requires 0 <= i, g >= 0;
            lemma_alternate_after(a, x, fine, an1, c1, sum1, (n - 1) as u64, i + 1, tau);
        }
    } else {
        assert(i < 48) by {
            if i == 48 {
                lemma_pow2_adds(1, 1025);
                lemma2_to64();
                assert(part(2, 49) == part(1, 48));
            }
        }
        lemma_alternate_both(a, x, wide, fine, an1, c1, sum1, (n - 1) as u64, i + 1);
    }
}

/// The whole series, with two tolerances.
proof fn lemma_series_pair(a: F64, x: F64, wide: F64, fine: F64)
    requires
        a.is_finite() && 0 < a.units() <= pow2(1074),
        x.is_finite() && 0 < x.units() && 8 * x.units() <= 9 * pow2(1074),
        at_least(fine, 1, 48),
        wide.is_finite() && fine.units() <= wide.units(),
    ensures
        ({
            let r = taylor_series(a, x, wide, lit(THREE), x, x / (a + lit(THREE)), PATIENCE);
            let s = taylor_series(a, x, fine, lit(THREE), x, x / (a + lit(THREE)), PATIENCE);
            &&& sized(r, 4) && sized(s, 4)
            &&& size(r.units() - s.units()) <= wide.units() + 330 * part(1, 45)
        }),
{
    lemma_small_powers();
    lemma_fractions();
    lemma_pow2_pos(1074);
    let d = pow2(1074) as int;
    lemma_literal(THREE, 1023, 0x18_0000_0000_0000, 51, 3, 3, 0);
    lemma_units_size(x);
    let q = a + lit(THREE);
    lemma_sum_off(a, lit(THREE), 1, 3);
    lemma_quotient_off(x, q, 2);
    lemma_units_size(x / q);
    assert(8 * (52 - 0) * part(1, 45) == 416 * part(1, 45));
    lemma_alternate_both(a, x, wide, fine, lit(THREE), x, x / q, PATIENCE, 0);
}

/// Two finite numbers differ by at most `k / 2^60`.
pub open spec fn off_by(x: F64, y: F64, k: int) -> bool {
    x.is_finite() && y.is_finite() && size(x.units() - y.units()) <= k * pow2(1014)
}

/// Sums and differences with the same number.
pub proof fn lemma_sums_off(x: F64, x2: F64, y: F64, b: int, c: int, k: int)
    requires
        sized(x, b),
        sized(x2, b),
        sized(y, c),
        0 <= b,
        0 <= c,
        b + c <= 120,
        off_by(x, x2, k),
    ensures
        sized(x + y, b + c) && sized(x2 + y, b + c) && off_by(x + y, x2 + y, k + 0x1_0000),
        sized(y + x, b + c) && sized(y + x2, b + c) && off_by(y + x, y + x2, k + 0x1_0000),
        sized(x - y, b + c) && sized(x2 - y, b + c) && off_by(x - y, x2 - y, k + 0x1_0000),
        sized(y - x, b + c) && sized(y - x2, b + c) && off_by(y - x, y - x2, k + 0x1_0000),
{
    lemma_fractions();
    let u = pow2(1014) as int;
    lemma_sum_off(x, y, b, c);
    lemma_sum_off(x2, y, b, c);
    lemma_sum_off(y, x, c, b);
    lemma_sum_off(y, x2, c, b);
    lemma_difference_off(x, y, b, c);
    lemma_difference_off(x2, y, b, c);
    lemma_difference_off(y, x, c, b);
    lemma_difference_off(y, x2, c, b);
    assert((k + 0x1_0000) * u == k * u + 0x1_0000 * u) by (nonlinear_arith);
}

/// Products with the same number, of a magnitude of at most `p / q`.
pub proof fn lemma_products_off(x: F64, x2: F64, y: F64, b: int, c: int, k: int, p: int, q: int)
    requires
        sized(x, b),
        sized(x2, b),
        sized(y, c),
        0 <= b,
        0 <= c,
        b * c <= 120,
        off_by(x, x2, k),
        k >= 0,
        p >= 0,
        q > 0,
        q * size(y.units()) <= p * pow2(1074),
    ensures
        sized(x * y, b * c) && sized(x2 * y, b * c) && off_by(x * y, x2 * y, (p * k) / q + 0x1_0001),
        sized(y * x, b * c) && sized(y * x2, b * c) && off_by(y * x, y * x2, (p * k) / q + 0x1_0001),
{
    lemma_fractions();
    let u = pow2(1014) as int;
    let d = pow2(1074) as int;
    lemma_pow2_pos(1074);
    law_product_commutes(x, y);
    law_product_commutes(x2, y);
    lemma_product_off(x, y, b, c);
    lemma_product_off(x2, y, b, c);
    let r = (x * y).units();
    let r2 = (x2 * y).units();
    let xu = x.units();
    let xu2 = x2.units();
    let yu = y.units();
    let e = xu - xu2;
    let v = r - r2;
    assert(xu * yu - xu2 * yu == e * yu) by (nonlinear_arith)
        requires e == xu - xu2;
    assert(v * d == r * d - r2 * d) by (nonlinear_arith)
        requires v == r - r2;
    let w = 0x1_0000 * u;
    assert(2 * ((0x8000 * u) * d) == w * d) by (nonlinear_arith)
        requires w == 0x1_0000 * u;
    assert(size(v * d) <= size(e * yu) + w * d);
    assert(size(v * d) == size(v) * d) by (nonlinear_arith)
        requires d > 0;
    assert(size(e * yu) == size(e) * size(yu)) by (nonlinear_arith);
    let pk = p * k;
    assert(q * (size(e) * size(yu)) <= (pk * u) * d) by (nonlinear_arith)
        requires 0 <= size(e) <= k * u, 0 <= size(yu), q * size(yu) <= p * d, pk == p * k, q > 0, k >= 0, u > 0,
            p >= 0;
    assert(q * (size(v) * d) <= (pk * u + q * w) * d) by (nonlinear_arith)
        requires size(v) * d <= size(e) * size(yu) + w * d, q * (size(e) * size(yu)) <= (pk * u) * d, q > 0;
    assert(q * size(v) <= pk * u + q * w) by (nonlinear_arith)
        requires q * (size(v) * d) <= (pk * u + q * w) * d, d > 0;
    let f = pk / q;
    lemma_fundamental_div_mod(pk, q);
    lemma_mod_bound(pk, q);
    assert(pk <= q * (f + 1)) by (nonlinear_arith)
        requires pk == q * f + pk % q, pk % q < q;
    assert(size(v) <= (f + 0x1_0001) * u) by (nonlinear_arith)
        requires q * size(v) <= pk * u + q * w, pk <= q * (f + 1), w == 0x1_0000 * u, q > 0, u > 0;
}

/// What the series needs of the other functions: a power of the argument of at most 9/8, by
/// both ways to it, and a reciprocal gamma function within a quarter of one.
pub open spec fn ordinary<M: Fn(Elementary) -> F64>(m: &M, a: F64, x: F64) -> bool {
    let z = a * ln(m, x);
    let w = exp(m, z);
    let l = rexp(m, z);
    let h = gam1(a);
    &&& at_most(w, 9, 3) && w.units() >= 0
    &&& at_most(l, 1, 3) && at_least(l, -1, 0)
    &&& at_most(h, 1, 2) && at_least(h, -1, 2)
}

/// The polynomial in the series.
spec fn joined_sum(a: F64, x: F64, s: F64) -> F64 {
    a * x * ((s / lit(0x4018_0000_0000_0000 /* 6.0 */) - lit(HALF) / (a + lit(TWO))) * x + lit(ONE) / (a
        + lit(ONE)))
}

/// How much of a difference between two sums is left in the polynomial.
spec fn after_join(k: int) -> int {
    (9 * ((9 * (k / 6 + 0x2_0001)) / 8 + 0x2_0001)) / 8 + 0x1_0001
}

proof fn lemma_join(a: F64, x: F64, s: F64, s2: F64, k: int)
    requires
        a.is_finite() && 0 < a.units() <= pow2(1074),
        x.is_finite() && 0 < x.units() && 8 * x.units() <= 9 * pow2(1074),
        sized(s, 4),
        sized(s2, 4),
        off_by(s, s2, k),
        k >= 0,
    ensures
        sized(joined_sum(a, x, s), 22),
        sized(joined_sum(a, x, s2), 22),
        off_by(joined_sum(a, x, s), joined_sum(a, x, s2), after_join(k)),
{
    lemma_small_powers();
    lemma_fractions();
    let d = pow2(1074) as int;
    let u = pow2(1014) as int;
    lemma_pow2_pos(1074);
    lemma_literal(ONE, 1022, 0x10_0000_0000_0000, 52, 1, 1, 0);
    lemma_literal(TWO, 1023, 0x10_0000_0000_0000, 51, 2, 2, 0);
    lemma_literal(HALF, 1021, 0x10_0000_0000_0000, 52, 1, 1, 1);
    lemma_literal(0x4018_0000_0000_0000, 1024, 0x18_0000_0000_0000, 50, 6, 6, 0);
    lemma_pow2_adds(1, 1073);
    let six = lit(0x4018_0000_0000_0000 /* 6.0 */);
    // a sixth
    let t = s / six;
    let t2 = s2 / six;
    lemma_quotient_off(s, six, 4);
    lemma_quotient_off(s2, six, 4);
    let k1 = k / 6 + 0x1_0001;
    assert(off_by(t, t2, k1)) by {
        let g = part(1, 45);
        let tu = t.units();
        let tu2 = t2.units();
        assert(size(6 * tu - s.units()) <= 6 * g) by (nonlinear_arith)
            requires size(tu * (6 * d) - s.units() * d) <= g * (6 * d), d > 0;
        assert(size(6 * tu2 - s2.units()) <= 6 * g) by (nonlinear_arith)
            requires size(tu2 * (6 * d) - s2.units() * d) <= g * (6 * d), d > 0;
        let v = size(tu - tu2);
        assert(6 * v <= k * u + 12 * (0x8000 * u));
        assert(v <= k1 * u) by (nonlinear_arith)
            requires 6 * v <= k * u + 12 * (0x8000 * u), k < 6 * (k / 6 + 1), k1 == k / 6 + 0x1_0001, u > 0;
    }
    let y = a + lit(TWO);
    lemma_sum_off(a, lit(TWO), 1, 2);
    let e = lit(HALF) / y;
    lemma_quotient_off(lit(HALF), y, 1);
    lemma_sums_off(t, t2, e, 4, 1, k1);
    lemma_products_off(t - e, t2 - e, x, 5, 2, k1 + 0x1_0000, 9, 8);
    let z = a + lit(ONE);
    lemma_sum_off(a, lit(ONE), 1, 1);
    lemma_part(1, 0);
    lemma_sum_units(a, lit(ONE));
    lemma_rounded(d, a.units() + d);
    let f = lit(ONE) / z;
    lemma_quotient_off(lit(ONE), z, 1);
    let k3 = (9 * (k1 + 0x1_0000)) / 8 + 0x1_0001;
    lemma_sums_off((t - e) * x, (t2 - e) * x, f, 10, 1, k3);
    // the product of both arguments
    let ax = a * x;
    lemma_product_off(a, x, 1, 2);
    lemma_product(a, x);
    lemma_units_representable(x);
    assert(a.units() * x.units() <= x.units() * d) by (nonlinear_arith)
        requires a.units() <= d, x.units() > 0;
    lemma_ratio_le(a.units() * x.units(), d, x.units());
    lemma_order(ax.enc() as int, 0);
    lemma_products_off((t - e) * x + f, (t2 - e) * x + f, ax, 11, 2, k3 + 0x1_0000, 9, 8);
}

/// How much of a difference in the polynomial is left in the ratios.
spec fn after_finish(k: int) -> int {
    (45 * (k + 0x2_0000)) / 32 + 0x9_0000
}

pub proof fn lemma_complements_off(p: F64, p2: F64, b: int, k: int)
    requires
        sized(p, b),
        sized(p2, b),
        0 <= b <= 96,
        off_by(p, p2, k),
    ensures
        off_by(complement(p), complement(p2), k + 0x2_0000),
{
    reveal(complement_spec);
    lemma_small_powers();
    lemma_pow2_adds(1, 1073);
    lemma_pow2_pos(1074);
    lemma_literal(HALF, 1021, 0x10_0000_0000_0000, 52, 1, 1, 1);
    lemma_sums_off(p, p2, lit(HALF), b, 1, k);
    lemma_sums_off(lit(HALF) - p, lit(HALF) - p2, lit(HALF), b + 1, 1, k + 0x1_0000);
}

/// Ratios that both differ by at most `k / 2^60`.
pub open spec fn ratios_off_by(r: (F64, F64), s: (F64, F64), k: int) -> bool {
    &&& size(r.0.units() - s.0.units()) <= k * pow2(1014)
    &&& size(r.1.units() - s.1.units()) <= k * pow2(1014)
}

proof fn lemma_finish<M: Fn(Elementary) -> F64>(m: &M, a: F64, x: F64, s: F64, s2: F64, k: int)
    requires
        a.is_finite() && 0 < a.units() <= pow2(1074),
        x.is_finite() && 0 < x.units() && 8 * x.units() <= 9 * pow2(1074),
        sized(s, 4),
        sized(s2, 4),
        off_by(s, s2, k),
        k >= 0,
        ordinary(m, a, x),
    ensures
        ratios_off_by(taylor_finish(m, a, x, s), taylor_finish(m, a, x, s2), after_finish(after_join(k))),
{
    broadcast use lemma_lt_units;
    reveal(taylor_finish_spec);
    lemma_small_powers();
    lemma_fractions();
    lemma_mag_zero(0);
    let d = pow2(1074) as int;
    let u = pow2(1014) as int;
    lemma_pow2_pos(1074);
    lemma_join(a, x, s, s2, k);
    let j = joined_sum(a, x, s);
    let j2 = joined_sum(a, x, s2);
    let kj = after_join(k);
    lemma_literal(ONE, 1022, 0x10_0000_0000_0000, 52, 1, 1, 0);
    lemma_literal(HALF, 1021, 0x10_0000_0000_0000, 52, 1, 1, 1);
    let z = a * ln(m, x);
    let h = gam1(a);
    let g = lit(ONE) + h;
    lemma_pow2_adds(3, 1071);
    lemma_pow2_adds(2, 1072);
    lemma_pow2_adds(1, 1073);
    lemma2_to64();
    let e = pow2(1071) as int;
    lemma_pow2_pos(1071);
    assert(d == 8 * e);
    lemma_pow2_adds(1, 1071);
    lemma_pow2_adds(2, 1071);
    assert((-1) * pow2(1072) == -(2 * e)) by (nonlinear_arith)
        requires pow2(1072) == 2 * e;
    assert((-1) * pow2(1074) == -(8 * e)) by (nonlinear_arith)
        requires pow2(1074) == 8 * e;
    assert(size(h.units()) <= 2 * e);
    lemma_part(5, 2);
    lemma_part(3, 2);
    assert(part(5, 2) == 10 * e && part(3, 2) == 6 * e);
    lemma_sum_units(lit(ONE), h);
    lemma_rounded(d + h.units(), part(5, 2));
    lemma_rounded(part(3, 2), d + h.units());
    lemma_rounded(part(5, 2), 0);
    assert(6 * e <= g.units() <= 10 * e);
    let hf = lit(HALF);
    let upper: bool = if x.lt(lit(QUARTER)) {
        z.gt(lit(0xBFC1_24F2_27D0_28A2 /* -0.13394 */))
    } else {
        a.lt(x / lit(0x4004_B851_EB85_1EB8 /* 2.59 */))
    };
    if upper {
        let l = rexp(m, z);
        assert(-(8 * e) <= l.units() <= e);
        lemma_sum_units(hf, l);
        lemma_part(5, 3);
        lemma_part(-1, 1);
        lemma_part(9, 3);
        assert(hf.units() == 4 * e);
        assert((-1) * pow2(1073) == -(4 * e)) by (nonlinear_arith)
            requires pow2(1073) == 4 * e;
        lemma_rounded(4 * e + l.units(), part(5, 3));
        lemma_rounded(part(5, 3), 0);
        lemma_rounded(part(-1, 1), 4 * e + l.units());
        let v = hf + l;
        assert(-(4 * e) <= v.units() <= 5 * e);
        lemma_sum_units(hf, v);
        let n = 4 * e + v.units();
        lemma_rounded(0, n);
        lemma_rounded(n, part(9, 3));
        lemma_rounded(part(9, 3), 0);
        let w = hf + v;
        assert(0 <= w.units() <= 9 * e);
        lemma_products_off(j, j2, w, 22, 2, kj, 9, 8);
        let k6 = (9 * kj) / 8 + 0x1_0001;
        lemma_sums_off(w * j, w * j2, l, 44, 1, k6);
        lemma_products_off(w * j - l, w * j2 - l, g, 45, 2, k6 + 0x1_0000, 5, 4);
        let k7 = (5 * (k6 + 0x1_0000)) / 4 + 0x1_0001;
        lemma_sums_off((w * j - l) * g, (w * j2 - l) * g, h, 90, 1, k7);
        let q = (w * j - l) * g - h;
        let q2 = (w * j2 - l) * g - h;
        let k8 = k7 + 0x1_0000;
        lemma_complements_off(q, q2, 91, k8);
        lemma_one_and_zero();
        let zero = lit(ZERO);
        if q.lt(zero) && !q2.lt(zero) {
            lemma_near_zero(q2, k8);
        }
        if q2.lt(zero) && !q.lt(zero) {
            lemma_near_zero(q, k8);
        }
        assert((k8 + 0x2_0000) * u <= after_finish(kj) * u) by (nonlinear_arith)
            requires k8 + 0x2_0000 <= after_finish(kj), u > 0;
        assert(k8 * u <= after_finish(kj) * u) by (nonlinear_arith)
            requires k8 <= after_finish(kj), u > 0;
    } else {
        let w = exp(m, z);
        lemma_product_at_most(w, g, 9, 3, 5, 2);
        let wg = w * g;
        lemma_pow2_adds(5, 1069);
        lemma_sums_off(j, j2, hf, 22, 1, kj);
        lemma_sums_off(hf - j, hf - j2, hf, 23, 1, kj + 0x1_0000);
        lemma_products_off(
            hf + (hf - j),
            hf + (hf - j2),
            wg,
            24,
            4,
            kj + 0x2_0000,
            45,
            32,
        );
        let p = wg * (hf + (hf - j));
        let p2 = wg * (hf + (hf - j2));
        let k8 = (45 * (kj + 0x2_0000)) / 32 + 0x1_0001;
        lemma_complements_off(p, p2, 96, k8);
        assert((k8 + 0x2_0000) * u <= after_finish(kj) * u) by (nonlinear_arith)
            requires k8 + 0x2_0000 <= after_finish(kj), u > 0;
        assert(k8 * u <= after_finish(kj) * u) by (nonlinear_arith)
            requires k8 <= after_finish(kj), u > 0;
    }
}

/// The complement of next to nothing is next to one.
proof fn lemma_near_zero(q: F64, k: int)
    requires
        sized(q, 91),
        off_by(q, lit(ZERO), k),
    ensures
        off_by(complement(q), lit(ONE), k + 0x2_0000),
{
    reveal(complement_spec);
    lemma_fractions();
    lemma_one_and_zero();
    lemma_small_powers();
    lemma_pow2_adds(1, 1073);
    lemma_pow2_pos(1074);
    lemma_literal(HALF, 1021, 0x10_0000_0000_0000, 52, 1, 1, 1);
    let u = pow2(1014) as int;
    let h = lit(HALF);
    lemma_difference_off(h, q, 1, 91);
    lemma_sum_off(h, h - q, 1, 92);
    assert((k + 0x2_0000) * u == k * u + 0x2_0000 * u) by (nonlinear_arith);
}

/// One and zero, in units.
proof fn lemma_one_and_zero()
    ensures
        lit(ONE).units() == pow2(1074),
        lit(ZERO).units() == 0,
{
    lemma_small_powers();
    lemma_mag_zero(0);
    lemma_literal(ONE, 1022, 0x10_0000_0000_0000, 52, 1, 1, 0);
}

/// The tolerance on the terms for an accuracy.
proof fn lemma_term_tolerance(acc: F64, a: F64, h: int, low: int)
    requires
        a.is_finite() && 0 < a.units() <= pow2(1074),
        at_most(acc, h, 59),
        at_least(acc, 1, low),
        0 < h <= 0x2_0000_0000_0000,
        10 <= low <= 48,
    ensures
        ({
            let t = lit(THREE) * acc / (a + lit(ONE));
            at_least(t, 1, low) && t.units() <= (6 * h) * pow2(1014)
        }),
{
    lemma_small_powers();
    lemma2_to64();
    lemma2_to64_rest();
    lemma_literal(THREE, 1023, 0x18_0000_0000_0000, 51, 3, 3, 0);
    lemma_literal(ONE, 1022, 0x10_0000_0000_0000, 52, 1, 1, 0);
    lemma_part(1, low);
    lemma_part(1, 0);
    lemma_pow2_pos(1074);
    lemma_product_at_most(lit(THREE), acc, 3, 0, h, 59);
    lemma_product_at_least(lit(THREE), acc, 3, 0, 1, low);
    let n = lit(THREE) * acc;
    let z = a + lit(ONE);
    lemma_sum_off(a, lit(ONE), 1, 1);
    lemma_sum_units(a, lit(ONE));
    lemma_rounded(pow2(1074) as int, a.units() + pow2(1074));
    lemma_part(3, low);
    lemma_quotient_off_positive(n, z);
    let t = n / z;
    lemma_pow2_adds(low as nat, (1074 - low) as nat);
    let p = pow2(low as nat) as int;
    lemma_pow2_pos(low as nat);
    lemma_pow2_pos((1074 - low) as nat);
    // z is at most two
    assert(at_most(z, 2 * p, low)) by {
        let g = pow2((1074 - low) as nat) as int;
        assert((2 * p) * g == 2 * (p * g)) by (nonlinear_arith);
    }
    assert(1 * (2 * p) <= 3 * p);
    lemma_quotient_at_least(n, z, 3, 2 * p, low, 1, low);
    lemma_pow2_adds(1, 1014);
    assert(part(3 * h, 59) == (6 * h) * pow2(1014)) by (nonlinear_arith)
        requires part(3 * h, 59) == (3 * h) * pow2(1015), pow2(1015) == 2 * pow2(1014);
}

/// Dividing by a number of at least one makes nothing larger.
proof fn lemma_quotient_off_positive(n: F64, z: F64)
    requires
        n.is_finite() && n.units() >= 0,
        z.is_finite() && z.units() >= pow2(1074),
    ensures
        (n / z).is_finite(),
        (n / z).units() <= n.units(),
{
    lemma_pow2_pos(1074);
    lemma_quotient(n, z);
    lemma_units_representable(n);
    let nu = n.units();
    assert(nu * pow2(1074) <= nu * z.units()) by (nonlinear_arith)
        requires nu >= 0, z.units() >= pow2(1074);
    lemma_ratio_le(nu * pow2(1074), z.units(), nu);
    lemma_order((n / z).enc() as int, INF_ENC as int);
    lemma_order((n / z).enc() as int, n.enc() as int);
}

/// The bits of 1.1.
pub const ELEVEN_TENTHS: u64 = 0x3FF1_9999_9999_999A;

/// For a parameter below one and an argument below 1.1 the ratios at six digits are within
/// 1e-6 of those at full accuracy, and at three digits within 1e-3.
pub proof fn law_accuracy_of_small_series<M: Fn(Elementary) -> F64>(m: &M, a: F64, x: F64)
    requires
        a.gt(lit(ZERO)) && a.lt(lit(ONE)),
        x.gt(lit(ZERO)) && x.lt(lit(ELEVEN_TENTHS)),
        ordinary(m, a, x),
    ensures
        ({
            let f = gamma_inc_core(m, a, x, GammaIncAcc::Max);
            let s = gamma_inc_core(m, a, x, GammaIncAcc::Digits6);
            let t = gamma_inc_core(m, a, x, GammaIncAcc::Digits3);
            &&& ratios_off_by(s, f, SPAN as int / 1_000_000)
            &&& ratios_off_by(t, f, SPAN as int / 1_000)
        }),
{
    broadcast use lemma_lt_units;
    broadcast use lemma_equals_units;
    lemma_mag_zero(0);
    lemma_small_powers();
    lemma2_to64();
    lemma2_to64_rest();
    lemma_fractions();
    lemma_tolerances();
    let u = pow2(1014) as int;
    let d = pow2(1074) as int;
    lemma_literal(ONE, 1022, 0x10_0000_0000_0000, 52, 1, 1, 0);
    lemma_literal(ELEVEN_TENTHS, 1022, 0x11_9999_9999_999A, 49, 8, 9, 3);
    lemma_pow2_adds(3, 1071);
    lemma_order(a.enc() as int, ONE as int);
    lemma_order(x.enc() as int, ELEVEN_TENTHS as int);
    lemma_order(ELEVEN_TENTHS as int, INF_ENC as int);
    lemma_order(ONE as int, INF_ENC as int);
    assert(8 * x.units() <= 9 * d);
    reveal(gamma_inc_core_spec);
    reveal(below_one_spec);
    reveal(taylor_p_over_xa_spec);
    let fine = lit(THREE) * lit(MAX_ACC) / (a + lit(ONE));
    let six = lit(THREE) * lit(SIX_ACC) / (a + lit(ONE));
    let three = lit(THREE) * lit(THREE_ACC) / (a + lit(ONE));
    lemma_literal(MAX_ACC, 974, 0x16849b86a12b9b, 41, 0x800, 0x1000, 59);
    lemma_literal(MAX_ACC, 974, 0x16849b86a12b9b, 52, 1, 2, 48);
    lemma_literal(SIX_ACC, 1001, 0x10c6f7a0b5ed8d, 14, 288230376151, 288230376152, 59);
    lemma_literal(SIX_ACC, 1001, 0x10c6f7a0b5ed8d, 52, 1, 2, 21);
    lemma_literal(THREE_ACC, 1011, 0x10624dd2f1a9fc, 4, 288230376151711, 288230376151712, 59);
    lemma_literal(THREE_ACC, 1011, 0x10624dd2f1a9fc, 52, 1, 2, 11);
    lemma_term_tolerance(lit(MAX_ACC), a, 0x1000, 48);
    lemma_term_tolerance(lit(SIX_ACC), a, 288230376152, 21);
    lemma_term_tolerance(lit(THREE_ACC), a, 288230376151712, 11);
    lemma_pow2_adds(39, 1014);
    lemma_pow2_adds(49, 1014);
    lemma_series_pair(a, x, six, fine);
    lemma_series_pair(a, x, three, fine);
    let s0 = x / (a + lit(THREE));
    let sf = taylor_series(a, x, fine, lit(THREE), x, s0, PATIENCE);
    let s6 = taylor_series(a, x, six, lit(THREE), x, s0, PATIENCE);
    let s3 = taylor_series(a, x, three, lit(THREE), x, s0, PATIENCE);
    lemma_finish(m, a, x, s6, sf, 1729393070352);
    lemma_finish(m, a, x, s3, sf, 1729382267723712);
    let f = gamma_inc_core(m, a, x, GammaIncAcc::Max);
    if (a * x).equals(lit(ZERO)) || a.equals(lit(HALF)) {
        assert(0 <= (SPAN as int / 1_000_000) * u && 0 <= (SPAN as int / 1_000) * u) by (nonlinear_arith)
            requires u > 0;
    } else {
        assert(512992659603 * u <= (SPAN as int / 1_000_000) * u) by (nonlinear_arith)
            requires u > 0;
        assert(512988149569718 * u <= (SPAN as int / 1_000) * u) by (nonlinear_arith)
            requires u > 0;
        assert(after_finish(after_join(1729393070352)) == 512992659603);
        assert(after_finish(after_join(1729382267723712)) == 512988149569718);
    }
}

} // verus!
