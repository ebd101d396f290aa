//! The inverse of the incomplete gamma function ratios undoes them.
use crate::consts::{ONE, ZERO};
use crate::float::{lit, F64};
use crate::float::bounds::{
    at_least, lemma_literal, lemma_part, lemma_ratio_ge, lemma_ratio_le, part,
};
use crate::float::laws::{law_negation, law_product_is_nearest};
use crate::float::model::{lemma_round_ratio_is, mag, round_ratio, CELL, INF_ENC};
use crate::float::number::{lemma_le_units, lemma_order};
use crate::float::relative::{
    lemma_near_cancel, lemma_near_chain, lemma_near_wider, lemma_round_near, near, SPAN,
};
use crate::float::signed::{lemma_rounded, lemma_sum_units};
use crate::functions::Elementary;
use crate::search::drive::SEARCH_BOUND;
use crate::special::gamma::rcomp;
use crate::special::gamma_inc::try_gamma_inc;
use crate::special::gamma_inv::try_gamma_inc_inv;
use crate::special::inverse_laws::{
    curvature, ends_at, is_small, law_inverse_ends, relative_step, share, COARSE, FINE, TENTH,
};
use crate::special::normal_laws::{lemma_quotient_below, lemma_small_powers, lemma_unit};
use crate::special::normal_smooth_laws::{lemma_fractions, lemma_signed_near, size};
use vstd::arithmetic::power2::{
    lemma2_to64, lemma2_to64_rest, lemma_pow2_adds, lemma_pow2_pos, lemma_pow2_strictly_increases,
    pow2,
};
use vstd::prelude::*;

verus! {

/// The magnitude of a product is what the magnitudes round to.
proof fn lemma_product_size(a: F64, b: F64)
    requires
        a.is_finite(),
        b.is_finite(),
    ensures
        ({
            let n = mag(a.enc() as int) * mag(b.enc() as int);
            &&& n >= 0
            &&& (a * b).enc() == round_ratio(n, pow2(1074) as int)
            &&& size((a * b).units()) == mag((a * b).enc() as int)
            &&& (a * b).sign() == (a.sign() != b.sign())
            &&& !(a * b).is_nan()
        }),
{
    law_product_is_nearest(a, b);
    lemma_order(a.enc() as int, b.enc() as int);
    lemma_order((a * b).enc() as int, 0);
    let n = mag(a.enc() as int) * mag(b.enc() as int);
    assert(n >= 0) by (nonlinear_arith)
        requires n == mag(a.enc() as int) * mag(b.enc() as int), mag(a.enc() as int) >= 0,
            mag(b.enc() as int) >= 0;
    lemma_pow2_pos(1074);
    lemma_round_ratio_is(n, pow2(1074) as int, (a * b).enc());
}

/// A magnitude that a comparison bounds.
proof fn lemma_bounded(x: F64, bits: u64)
    requires
        x.abs().le(lit(bits)),
        bits < INF_ENC,
    ensures
        x.is_finite(),
        mag(x.enc() as int) <= lit(bits).units(),
        size(x.units()) == mag(x.enc() as int),
{
    broadcast use lemma_le_units;
    law_negation(x);
    lemma_order(x.enc() as int, bits as int);
    lemma_order(x.enc() as int, 0);
    lemma_order(bits as int, INF_ENC as int);
    lemma_order(x.enc() as int, INF_ENC as int);
    assert(x.abs().units() == mag(x.enc() as int));
}

/// Where the square of a step, scaled up, is at most 1e-10, the step is below 2^-16.
proof fn lemma_square_small(w: F64, t: F64)
    requires
        t.abs().le(lit(TENTH)),
        (w * t).abs().le(lit(TENTH)),
        w.abs().ge(lit(ONE)),
        (w.abs() * t * t).le(lit(FINE)),
    ensures
        mag(t.enc() as int) < part(1, 16),
{
    broadcast use lemma_le_units;
    lemma_small_powers();
    lemma_literal(ONE, 1022, 0x10_0000_0000_0000, 52, 1, 1, 0);
    lemma_literal(FINE, 988, 0x1B_7CDF_D9D7_BDBB, 53, 0, 1, 33);
    lemma_bounded(t, TENTH);
    let d = pow2(1074) as int;
    lemma_pow2_pos(1074);
    let tm = mag(t.enc() as int);
    let wa = w.abs();
    law_negation(w);
    lemma_part(1, 16);
    if tm >= part(1, 16) {
        lemma_order(t.enc() as int, 0);
        if !wa.is_finite() {
            // an infinite factor leaves an infinite product
            reveal(F64::spec_mul);
            lemma_order(TENTH as int, INF_ENC as int);
            lemma_bounded(w * t, TENTH);
        } else {
            lemma_order(w.enc() as int, 0);
            let wm = mag(wa.enc() as int);
            let v = wa * t;
            lemma_product_size(wa, t);
            lemma_product_size(w, t);
            lemma_bounded(w * t, TENTH);
            assert(wa.enc() == w.enc());
            assert(v.enc() == (w * t).enc());
            let low = part(1, 16);
            assert(wm >= d);
            assert(low * d <= wm * tm) by (nonlinear_arith)
                requires tm >= low, wm >= d, low >= 0, d > 0;
            lemma_ratio_ge(wm * tm, d, part(1, 16));
            let vm = mag(v.enc() as int);
            lemma_product_size(v, t);
            lemma_pow2_adds(1058, 1058);
            lemma_pow2_adds(1042, 1074);
            lemma_part(1, 32);
            assert(part(1, 32) * d <= vm * tm) by (nonlinear_arith)
                requires tm >= part(1, 16), vm >= part(1, 16), part(1, 16) * part(1, 16) == part(1, 32) * d,
                    part(1, 16) >= 0;
            lemma_ratio_ge(vm * tm, d, part(1, 32));
            let s = v * t;
            assert(!s.sign());
            lemma_pow2_strictly_increases(1041, 1042);
        }
    }
}

/// Where the share is at most 1e-5, the step is below 2^-16.
proof fn lemma_share_small(w: F64, t: F64)
    requires
        share(t, w).abs().le(lit(COARSE)),
    ensures
        mag(t.enc() as int) < part(1, 16),
        t.is_finite(),
{
    broadcast use lemma_le_units;
    lemma_small_powers();
    lemma_fractions();
    let u = pow2(1014) as int;
    lemma_pow2_adds(44, 1014);
    lemma2_to64();
    lemma2_to64_rest();
    lemma_part(1, 16);
    // 1e-5 is below 11 / 2^20
    lemma_literal(COARSE, 1005, 0x14_F8B5_88E3_68F1, 49, 10, 11, 20);
    lemma_pow2_adds(40, 1014);
    let h = share(t, w);
    lemma_bounded(h, COARSE);
    if is_small(t, w) {
        lemma_bounded(t, TENTH);
        lemma_one_plus(w, t);
        let f = lit(ONE) + w * t;
        if mag(t.enc() as int) >= part(1, 16) {
            lemma_product_size(t, f);
            let d = pow2(1074) as int;
            lemma_pow2_pos(1074);
            let tm = mag(t.enc() as int);
            let fm = mag(f.enc() as int);
            lemma_part(3, 18);
            lemma_pow2_adds(2, 1056);
            lemma_pow2_adds(2, 1072);
            assert(part(3, 18) * d <= tm * fm) by (nonlinear_arith)
                requires tm >= part(1, 16), fm >= part(3, 2), part(1, 16) == 4 * pow2(1056), part(3, 18) == 3
                    * pow2(1056), part(3, 2) == 3 * pow2(1072), d == 4 * pow2(1072), part(1, 16) > 0;
            lemma_ratio_ge(tm * fm, d, part(3, 18));
            lemma_pow2_adds(42, 1014);
            assert(part(3, 18) == 0xC00_0000_0000 * u);
            assert(part(11, 20) == 0xB00_0000_0000 * u);
        }
    } else {
        assert(part(1, 16) == 0x1000_0000_0000 * u);
        assert(part(11, 20) == 0xB00_0000_0000 * u);
    }
}

/// The second-order factor lies between 3/4 and 5/4.
proof fn lemma_one_plus(w: F64, t: F64)
    requires
        (w * t).abs().le(lit(TENTH)),
    ensures
        ({
            let f = lit(ONE) + w * t;
            f.is_finite() && part(3, 2) <= f.units() <= part(5, 2) && mag(f.enc() as int) == f.units()
        }),
{
    lemma_small_powers();
    lemma_bounded(w * t, TENTH);
    lemma_literal(TENTH, 1018, 0x19_9999_9999_999A, 52, 1, 2, 4);
    lemma_literal(ONE, 1022, 0x10_0000_0000_0000, 52, 1, 1, 0);
    lemma_part(3, 2);
    lemma_part(5, 2);
    lemma_pow2_adds(2, 1070);
    lemma_pow2_adds(4, 1070);
    lemma2_to64();
    let g = pow2(1070) as int;
    assert(part(3, 2) == 12 * g && part(5, 2) == 20 * g && part(1, 0) == 16 * g && part(2, 4) == 2 * g);
    lemma_pow2_pos(1070);
    lemma_part(1, 0);
    lemma_sum_units(lit(ONE), w * t);
    let n = lit(ONE).units() + (w * t).units();
    lemma_rounded(part(3, 2), n);
    lemma_rounded(n, part(5, 2));
    lemma_rounded(part(5, 2), 0);
    let f = lit(ONE) + w * t;
    lemma_order(f.enc() as int, 0);
}

/// A little over 2^-15, in units of 2^-60: how far the last step can move.
pub const MOVE: u64 = 0x2000_0000_0100;

/// The last step is below 2^-16, and moves by little over 2^-15 of the answer.
pub proof fn law_inverse_step_is_small<M: Fn(Elementary) -> F64>(
    m: &M,
    a: F64,
    use_q: bool,
    target: F64,
    xn: F64,
    x: F64,
)
    requires
        ends_at(m, a, use_q, target, xn, x),
        at_least(x, 1, 900) && x.le(lit(SEARCH_BOUND)),
    ensures
        ({
            let ratios = try_gamma_inc(m, a, xn)->Ok_0;
            let t = relative_step(m, a, use_q, target, xn, ratios);
            &&& t.is_finite()
            &&& mag(t.enc() as int) < part(1, 16)
        }),
        xn.is_finite(),
        near(xn.units(), x.units(), MOVE as int),
{
    let ratios = try_gamma_inc(m, a, xn)->Ok_0;
    let t = relative_step(m, a, use_q, target, xn, ratios);
    let w = curvature(a, xn);
    let h = share(t, w);
    if is_small(t, w) && w.abs().ge(lit(ONE)) && (w.abs() * t * t).le(lit(FINE)) {
        lemma_square_small(w, t);
        lemma_bounded(t, TENTH);
    } else {
        lemma_share_small(w, t);
    }
    lemma_small_powers();
    let d = pow2(1074) as int;
    let u = pow2(1014) as int;
    lemma_pow2_pos(1074);
    lemma_fractions();
    lemma2_to64();
    lemma2_to64_rest();
    lemma_pow2_adds(42, 1014);
    lemma_pow2_adds(44, 1014);
    lemma_part(5, 18);
    lemma_part(1, 16);
    let tm = mag(t.enc() as int);
    lemma_order(t.enc() as int, 0);
    assert(h.is_finite() && size(h.units()) <= part(5, 18)) by {
        if is_small(t, w) {
            lemma_one_plus(w, t);
            let f = lit(ONE) + w * t;
            lemma_product_size(t, f);
            let fm = mag(f.enc() as int);
            lemma_pow2_adds(2, 1056);
            lemma_pow2_adds(2, 1072);
            assert(tm * fm <= part(5, 18) * d) by (nonlinear_arith)
                requires 0 <= tm <= part(1, 16), 0 <= fm <= part(5, 2), part(1, 16) == 4 * pow2(1056),
                    part(5, 18) == 5 * pow2(1056), part(5, 2) == 5 * pow2(1072), d == 4 * pow2(1072);
            lemma_ratio_le(tm * fm, d, part(5, 18));
            lemma_order(h.enc() as int, INF_ENC as int);
        } else {
            law_negation(t);
        }
    }
    lemma_literal(ONE, 1022, 0x10_0000_0000_0000, 52, 1, 1, 0);
    lemma_part(1, 0);
    lemma_part(0x3_FFFB, 18);
    lemma_part(0x4_0005, 18);
    lemma_pow2_adds(18, 1056);
    let g = pow2(1056) as int;
    lemma_pow2_adds(42, 1014);
    assert(part(0x3_FFFB, 18) == d - 5 * g && part(0x4_0005, 18) == d + 5 * g && part(5, 18) == 5 * g);
    law_negation(h);
    let f = lit(ONE) - h;
    lemma_sum_units(lit(ONE), h.negated());
    let n = d - h.units();
    lemma_rounded(part(0x3_FFFB, 18), n);
    lemma_rounded(n, part(0x4_0005, 18));
    lemma_rounded(part(0x4_0005, 18), 0);
    lemma_order(f.enc() as int, 0);
    let fu = f.units();
    assert(d - 5 * g <= fu <= d + 5 * g);
    lemma_step_size(xn, f, x, g);
}

/// A product with a number next to one.
proof fn lemma_step_size(xn: F64, f: F64, x: F64, g: int)
    requires
        x == xn * f,
        f.is_finite(),
        g == pow2(1056),
        pow2(1074) - 5 * g <= f.units() <= pow2(1074) + 5 * g,
        at_least(x, 1, 900) && x.le(lit(SEARCH_BOUND)),
    ensures
        xn.is_finite(),
        near(xn.units(), x.units(), MOVE as int),
{
    broadcast use lemma_le_units;
    lemma_small_powers();
    lemma_fractions();
    lemma2_to64();
    lemma2_to64_rest();
    let d = pow2(1074) as int;
    let u = pow2(1014) as int;
    lemma_pow2_adds(42, 1014);
    lemma_pow2_adds(18, 1056);
    lemma_pow2_pos(1074);
    lemma_pow2_pos(1056);
    lemma_part(1, 900);
    lemma_order(x.enc() as int, 0);
    lemma_order(f.enc() as int, 0);
    lemma_order(xn.enc() as int, 0);
    assert(xn.is_finite()) by {
        reveal(F64::spec_mul);
    }
    lemma_product_size(xn, f);
    let a = mag(xn.enc() as int);
    let fm = f.units();
    let num = a * fm;
    let xm = x.units();
    assert(!xn.sign());
    assert(xn.units() == a);
    let c = CELL as int;
    assert(pow2(174) > c) by {
        lemma_pow2_adds(64, 110);
        lemma_pow2_adds(64, 46);
        lemma_pow2_pos(46);
        assert(pow2(174) == pow2(64) * (pow2(64) * pow2(46)));
        assert(pow2(174) > c) by (nonlinear_arith)
            requires pow2(174) == 0x1_0000_0000_0000_0000 * (0x1_0000_0000_0000_0000 * pow2(46)),
                pow2(46) > 0, c == 0x0010_0000_0000_0000;
    }
    assert(num >= c * d) by {
        if num < c * d {
            crate::float::signed::lemma_representable(c, 0);
            assert(c * pow2(0) == c);
            lemma_ratio_le(num, d, c);
        }
    }
    lemma_round_near(num, d);
    // xn d against xn f
    let e = SPAN as int;
    let k: int = 0x2000_0000_0000;
    assert(d == e * u && g == 0x400_0000_0000 * u);
    assert(d * e <= fm * (e + k)) by (nonlinear_arith)
        requires fm >= d - 5 * g, d == e * u, g == 0x400_0000_0000 * u, e == 0x1000_0000_0000_0000, k
            == 0x2000_0000_0000, u > 0;
    assert(fm * e <= d * (e + k)) by (nonlinear_arith)
        requires fm <= d + 5 * g, d == e * u, g == 0x400_0000_0000 * u, e == 0x1000_0000_0000_0000, k
            == 0x2000_0000_0000, u > 0;
    assert(near(d, fm, k));
    crate::special::normal_smooth_laws::lemma_near_times(d, fm, a, k);
    assert(d * a == a * d && fm * a == num) by (nonlinear_arith)
        requires num == a * fm;
    assert(k * 129 <= e);
    lemma_near_chain(a * d, num, xm * d, k, 129);
    lemma_near_cancel(a, xm, d, k + 130);
    lemma_near_wider(a, xm, k + 130, MOVE as int);
}

/// Between an argument and one that is off it by at most the last step, both ratios are known
/// and move by at most 2^-14 of the derivative with respect to the argument's logarithm, and
/// 2^-40.
pub open spec fn gentle_between<M: Fn(Elementary) -> F64>(m: &M, a: F64, y: F64, x: F64) -> bool {
    let scale = mag(rcomp(m, a, y).enc() as int);
    match (try_gamma_inc(m, a, y), try_gamma_inc(m, a, x)) {
        (Ok(r), Ok(s)) => {
            &&& size(s.0.units() - r.0.units()) * pow2(1074) <= part(1, 14) * scale + part(1, 40)
                * pow2(1074)
            &&& size(s.1.units() - r.1.units()) * pow2(1074) <= part(1, 14) * scale + part(1, 40)
                * pow2(1074)
        },
        _ => false,
    }
}

/// The ratios at `y` lie between zero and one, and the derivative there with respect to the
/// argument's logarithm, for which the scale of the ratios stands, is at most `c`.
pub open spec fn bounded_at<M: Fn(Elementary) -> F64>(m: &M, a: F64, y: F64, c: int) -> bool {
    let rc = rcomp(m, a, y);
    &&& rc.is_finite() && size(rc.units()) <= part(c, 0)
    &&& try_gamma_inc(m, a, y) matches Ok(r) ==> {
        &&& lit(ZERO).le(r.0) && r.0.le(lit(ONE))
        &&& lit(ZERO).le(r.1) && r.1.le(lit(ONE))
    }
}

/// At positive arguments the ratios for the parameter `a` lie between zero and one, and follow
/// their derivative, which is at most `c`.
pub open spec fn gentle<M: Fn(Elementary) -> F64>(m: &M, a: F64, c: int) -> bool {
    &&& forall|y: F64, x: F64|
        y.is_finite() && x.is_finite() && y.units() > 0 && near(y.units(), x.units(), MOVE as int) && (
        try_gamma_inc(m, a, y) is Ok) ==> #[trigger] gentle_between(m, a, y, x)
    &&& forall|y: F64| y.is_finite() && y.units() > 0 ==> #[trigger] bounded_at(m, a, y, c)
}

/// The ratio that the inverse was taken of, at `x`, is within `c` times 1e-4 of what was asked
/// for.
pub open spec fn undone<M: Fn(Elementary) -> F64>(
    m: &M,
    a: F64,
    use_q: bool,
    target: F64,
    x: F64,
    c: int,
) -> bool {
    match try_gamma_inc(m, a, x) {
        Ok(r) => size(
            (if use_q {
                r.1
            } else {
                r.0
            }).units() - target.units(),
        ) <= c * part(3, 15) + part(1, 40),
        Err(_) => false,
    }
}

/// Where the steps end, the ratio is what was asked for, to within `c` times 1e-4.
pub proof fn law_steps_undo<M: Fn(Elementary) -> F64>(
    m: &M,
    a: F64,
    use_q: bool,
    target: F64,
    xn: F64,
    x: F64,
    c: int,
)
    requires
        c >= 1,
        gentle(m, a, c),
        lit(ZERO).le(target) && target.le(lit(ONE)),
        ends_at(m, a, use_q, target, xn, x),
        at_least(x, 1, 900) && x.le(lit(SEARCH_BOUND)),
    ensures
        undone(m, a, use_q, target, x, c),
{
    law_inverse_step_is_small(m, a, use_q, target, xn, x);
    let e = SPAN as int;
    let xu = xn.units();
    lemma_part(1, 900);
    assert(xu > 0) by {
        let k = MOVE as int;
        assert(xu > 0) by (nonlinear_arith)
            requires x.units() * e <= xu * (e + k), x.units() > 0, e > 0, xu >= 0;
    }
    assert(bounded_at(m, a, xn, c));
    lemma_small_powers();
    lemma_part(1, 0);
    lemma_part(1, 15);
    lemma_part(1, 16);
    lemma_part(3, 15);
    lemma_unit(target);
    let ratios = try_gamma_inc(m, a, xn)->Ok_0;
    lemma_unit(ratios.0);
    lemma_unit(ratios.1);
    let t = relative_step(m, a, use_q, target, xn, ratios);
    let rc = rcomp(m, a, xn);
    let (big, small) = if use_q {
        (target, ratios.1)
    } else {
        (ratios.0, target)
    };
    let off = big - small;
    law_negation(small);
    lemma_sum_units(big, small.negated());
    let n = big.units() - small.units();
    lemma_signed_near(off, n);
    assert(rc.enc() != 0) by {
        if rc.enc() == 0 {
            reveal(F64::spec_euclidean_or_real_div);
        }
    }
    assert(t == off / rc);
    lemma_quotient_below(off, rc, 1, 16);
    let d = pow2(1074) as int;
    lemma_pow2_pos(1074);
    lemma_order(rc.enc() as int, 0);
    lemma_order(off.enc() as int, 0);
    let cm = mag(off.enc() as int);
    let scale = mag(rc.enc() as int);
    assert(scale <= c * d) by {
        assert(size(rc.units()) == scale);
    }
    let nn = size(n);
    assert(nn <= 2 * cm) by (nonlinear_arith)
        requires nn * e <= cm * (e + 129), e > 129, cm >= 0;
    lemma_pow2_adds(1, 1058);
    lemma_pow2_adds(1, 1059);
    assert(part(1, 15) == 2 * part(1, 16) && part(1, 14) == 2 * part(1, 15));
    assert(nn * d <= part(1, 15) * scale) by (nonlinear_arith)
        requires nn <= 2 * cm, cm * d < part(1, 16) * scale, part(1, 15) == 2 * part(1, 16), d > 0;
    // and the move to the answer
    assert(gentle_between(m, a, xn, x));
    let after = try_gamma_inc(m, a, x)->Ok_0;
    let (got, before) = if use_q {
        (after.1, ratios.1)
    } else {
        (after.0, ratios.0)
    };
    let v = size(got.units() - target.units());
    let w = size(got.units() - before.units());
    assert(v <= w + nn);
    assert(part(3, 15) == 3 * part(1, 15));
    let h = part(1, 15);
    assert((w + nn) * d <= (3 * h) * scale + part(1, 40) * d) by (nonlinear_arith)
        requires w * d <= (2 * h) * scale + part(1, 40) * d, nn * d <= h * scale;
    assert((3 * h) * scale <= (c * (3 * h)) * d) by (nonlinear_arith)
        requires scale <= c * d, h >= 0;
    let bound = c * (3 * h) + part(1, 40);
    assert(v <= bound) by (nonlinear_arith)
        requires v <= w + nn, (w + nn) * d <= (c * (3 * h)) * d + part(1, 40) * d, d > 0, bound == c * (3
            * h) + part(1, 40);
}

/// The inverse undoes the ratios: a value that took steps gives back the lower ratio or the
/// upper one that it was asked for, to within 1e-4 times the bound `c` on their derivative
/// with respect to the argument's logarithm.
pub proof fn law_inverse_undoes<M: Fn(Elementary) -> F64>(
    m: &M,
    a: F64,
    x0: F64,
    p: F64,
    q: F64,
    c: int,
)
    requires
        c >= 1,
        gentle(m, a, c),
        lit(ZERO).le(p) && p.le(lit(ONE)),
        lit(ZERO).le(q) && q.le(lit(ONE)),
    ensures
        try_gamma_inc_inv(m, a, x0, p, q) matches Ok((x, k)) ==> k > 0 && at_least(x, 1, 900) && x.le(
            lit(SEARCH_BOUND),
        ) ==> undone(m, a, true, q, x, c) || undone(m, a, false, p, x, c),
{
    law_inverse_ends(m, a, x0, p, q);
    match try_gamma_inc_inv(m, a, x0, p, q) {
        Ok((x, k)) => {
            if k > 0 && at_least(x, 1, 900) && x.le(lit(SEARCH_BOUND)) {
                if exists|y: F64| #[trigger] ends_at(m, a, true, q, y, x) {
                    let y = choose|y: F64| #[trigger] ends_at(m, a, true, q, y, x);
                    law_steps_undo(m, a, true, q, y, x, c);
                } else {
                    let y = choose|y: F64| #[trigger] ends_at(m, a, false, p, y, x);
                    law_steps_undo(m, a, false, p, y, x, c);
                }
            }
        },
        Err(_) => {},
    }
}

} // verus!
