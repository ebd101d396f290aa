//! A refinement does not leave its bracket.
use crate::float::number::{lemma_le_units, lemma_lt_units};
use super::dinvr::{InvrAction, InvrConfig, InvrStage, InvrState};
use super::drive::{invr_config, SEARCH_BOUND};
use super::dzror::{ZrorAction, ZrorConfig, ZrorStage, ZrorState, HALF};
use super::laws::{in_range, law_probes_stay_in_range, nonnegative, searching, sound};
use crate::float::laws::{
    law_min_max, law_negation, law_order, law_product_is_nearest, law_quotient_is_nearest,
    law_rounding_is_monotone, law_sign_and_zero,
};
use crate::float::model::{lemma_mag_increasing, lemma_mag_zero, lemma_round_exact, mag, INF_ENC};
use crate::float::number::{lemma_order, ZERO};
use crate::float::signed::{
    lemma_close_difference, lemma_half_units, lemma_round_error, lemma_rounded, lemma_sum_units,
    lemma_units_representable, representable, rounded,
};
use crate::float::{lit, F64};
use vstd::arithmetic::power2::{lemma_pow2_pos, pow2};
use vstd::prelude::*;

verus! {

/// Finite, and so far from overflow that two of them can be added.
pub open spec fn tame(x: F64) -> bool {
    x.is_finite() && -mag(INF_ENC as int) < 8 * x.units() < mag(INF_ENC as int)
}

/// Half of the rounded sum, minus the lower end, rounds to at most the width: for
/// representable ends `b <= c`, and `h` next to half of the rounded sum.
proof fn lemma_half_step(b: F64, c: F64, h: int)
    requires
        tame(b),
        tame(c),
        b.units() <= c.units(),
        ({
            let s = rounded(b.units() + c.units());
            2 * h - 1 <= s <= 2 * h + 1 && (s % 2 == 0 ==> 2 * h == s)
        }),
    ensures
        0 <= rounded(h - b.units()) <= c.units() - b.units(),
        b.units() <= h <= c.units(),
{
    let bu = b.units();
    let cu = c.units();
    let n = bu + cu;
    let s = rounded(n);
    lemma_units_representable(b);
    lemma_units_representable(c);
    // 2 b <= s <= 2 c
    lemma_double_representable(b);
    lemma_double_representable(c);
    lemma_rounded(2 * bu, n);
    lemma_rounded(n, 2 * cu);
    lemma_rounded(2 * cu, 2 * cu);
    assert(2 * bu <= s <= 2 * cu);
    let x = cu - bu;
    let y = h - bu;
    assert(0 <= y <= x);
    lemma_rounded(y, x);
    lemma_rounded(0, y);
    lemma_round_error(y);
    if y >= 1 && 2 * y - 1 > x {
        // s lies above n, so the sum was rounded up
        let eta = 2 * y - x;
        assert(eta <= s - n + 1);
        let an = if n >= 0 {
            n
        } else {
            -n
        };
        lemma_round_error(an);
        lemma_rounded(n, n);
        lemma_rounded(an, an);
        assert(16 * (s - n) <= an);
        if same_side(b, c) {
            lemma_close_ends(b, c);
            lemma_rounded(x, x);
        } else {
            // the width is at least half of the larger end
            assert(an <= 4 * x) by {
                lemma_wide(b, c);
            }
            assert(4 * (s - n) <= x);
            assert(2 * y <= x + s - n + 1);
            assert(rounded(y) <= x);
        }
    }
}

/// The ends have the same sign and lie within a factor of two of each other.
spec fn same_side(b: F64, c: F64) -> bool {
    let bu = b.units();
    let cu = c.units();
    (0 <= bu <= cu && cu <= 2 * bu) || (bu <= cu <= 0 && -bu <= 2 * -cu)
}

proof fn lemma_wide(b: F64, c: F64)
    requires
        b.units() <= c.units(),
        !same_side(b, c),
    ensures
        b.units() + c.units() <= 4 * (c.units() - b.units()),
        -(b.units() + c.units()) <= 4 * (c.units() - b.units()),
{
}

proof fn lemma_close_ends(b: F64, c: F64)
    requires
        b.is_finite(),
        c.is_finite(),
        b.units() <= c.units(),
        same_side(b, c),
    ensures
        representable(c.units() - b.units()),
{
    let be = b.enc();
    let ce = c.enc();
    lemma_order(be as int, ce as int);
    if 0 <= b.units() {
        assert(mag(be as int) == b.units() && mag(ce as int) == c.units());
        lemma_close_difference(be, ce);
    } else {
        assert(mag(be as int) == -b.units() && mag(ce as int) == -c.units());
        lemma_close_difference(ce, be);
    }
}

proof fn lemma_double_representable(b: F64)
    requires
        tame(b),
    ensures
        representable(2 * b.units()),
{
    let e = b.enc();
    crate::float::model::lemma_cell_of(e as int);
    let t = crate::float::model::scale(e as int);
    let k = crate::float::model::significand(e as int);
    vstd::arithmetic::power2::lemma_pow2_unfold(t + 1);
    lemma_pow2_pos(t);
    let m = mag(e as int);
    assert(k * pow2(t + 1) == 2 * m) by (nonlinear_arith)
        requires m == k * pow2(t), pow2(t + 1) == 2 * pow2(t);
    if t < 2045 {
        crate::float::signed::lemma_representable(k, t + 1);
    } else {
        // such a number is not tame
        lemma_order(e as int, INF_ENC as int);
        crate::float::model::lemma_cell_of(INF_ENC - 1);
        crate::float::round::lemma_powers();
        crate::float::model::lemma_mag_cell(2046, crate::float::model::CELL as int);
        vstd::arithmetic::power2::lemma_pow2_unfold(2046);
        let g = pow2(2045) as int;
        lemma_pow2_pos(2045);
        assert(8 * m >= mag(INF_ENC as int)) by (nonlinear_arith)
            requires
                m == k * g,
                k >= crate::float::model::CELL,
                mag(INF_ENC as int) == crate::float::model::CELL * (2 * g),
                g > 0,
        ;
    }
}

/// The step to the middle leads from `b` towards `c`, and not past it.
proof fn lemma_to_middle(b: F64, c: F64, mb: F64)
    requires
        tame(b),
        tame(c),
        mb == lit(HALF) * (c + b) - b,
    ensures
        mb.is_finite(),
        b.units() <= c.units() ==> 0 <= mb.units() <= c.units() - b.units(),
        c.units() <= b.units() ==> c.units() - b.units() <= mb.units() <= 0,
{
    let s = c + b;
    lemma_sum_units(c, b);
    lemma_half_units(s);
    let h = lit(HALF) * s;
    law_negation(b);
    law_negation(c);
    lemma_sum_bounds(b, c, s, h);
    lemma_sum_units(h, b.negated());
    if b.units() <= c.units() {
        lemma_half_step(b, c, h.units());
    } else {
        // the mirror image
        let n = b.units() + c.units();
        lemma_rounded(n, n);
        lemma_half_step(b.negated(), c.negated(), -h.units());
        lemma_rounded(h.units() - b.units(), 0);
    }
}

proof fn lemma_sum_bounds(b: F64, c: F64, s: F64, h: F64)
    requires
        tame(b),
        tame(c),
        s.is_finite(),
        s.units() == rounded(b.units() + c.units()),
        h.is_finite(),
        2 * h.units() - 1 <= s.units() <= 2 * h.units() + 1,
    ensures
        -mag(INF_ENC as int) < 2 * (h.units() - b.units()) < mag(INF_ENC as int),
{
    let n = b.units() + c.units();
    let an = if n >= 0 {
        n
    } else {
        -n
    };
    lemma_round_error(an);
    lemma_rounded(n, n);
    lemma_mag_zero(INF_ENC as int);
    lemma_big_inf();
}

proof fn lemma_big_inf()
    ensures
        mag(INF_ENC as int) >= 1000,
{
    crate::float::round::lemma_powers();
    crate::float::model::lemma_mag_cell(2046, crate::float::model::CELL as int);
    lemma_pow2_pos(2046);
    let g = pow2(2046) as int;
    let c = crate::float::model::CELL as int;
    assert(c * g >= c) by (nonlinear_arith)
        requires g >= 1, c > 0;
}

/// A quotient whose numerator is below the rounded product of `mb` and `q` is at most
/// `mb`, all of them positive.
proof fn lemma_quotient_below(p: F64, q: F64, mb: F64)
    requires
        p.is_finite(),
        p.enc() != 0,
        !p.sign(),
        mb.is_finite(),
        mb.enc() != 0,
        !q.is_nan(),
        p.lt(mb * q),
    ensures
        (p / q).is_finite(),
        (p / q).enc() <= mb.enc(),
        (p / q).enc() != 0 ==> (p / q).sign() == mb.sign(),
{
    reveal(F64::spec_mul);
    reveal(F64::spec_euclidean_or_real_div);
    broadcast use lemma_lt_units;
    let r = mb * q;
    lemma_mag_zero(p.enc() as int);
    lemma_mag_zero(r.enc() as int);
    assert(!r.sign() && r.enc() != 0);
    if q.is_finite() {
        assert(q.enc() != 0) by {
            if q.enc() == 0 {
                lemma_mag_zero(0);
                assert(mag(mb.enc() as int) * 0 == 0);
                lemma_pow2_pos(1074);
                crate::float::arith::lemma_round_zero(pow2(1074) as int);
            }
        }
        lemma_mag_zero(q.enc() as int);
        law_product_is_nearest(mb, q);
        law_quotient_is_nearest(p, q);
        assert(q.sign() == mb.sign());
        let pu = mag(p.enc() as int);
        let qu = mag(q.enc() as int);
        let mu = mag(mb.enc() as int);
        let den = pow2(1074) as int;
        lemma_pow2_pos(1074);
        let num = mu * qu;
        let re = r.enc() as int;
        lemma_order(p.enc() as int, re);
        // p lies below the exact product, too
        assert(pu * den < num) by {
            if pu * den >= num {
                let lo = mag(re - 1);
                lemma_order(p.enc() as int, re - 1);
                assert(lo >= pu);
                lemma_mag_increasing(re - 1, re);
                let h = lo + mag(re);
                assert(2 * num < h * den) by (nonlinear_arith)
                    requires num <= pu * den, pu <= lo, h > 2 * lo, den > 0;
            }
        }
        assert(pu * den >= 0) by (nonlinear_arith)
            requires pu >= 0, den >= 0;
        law_rounding_is_monotone(pu * den, num, qu);
        lemma_round_exact(mb.enc(), qu);
    }
}

/// The tolerances are finite and not negative.
pub open spec fn tolerant(c: ZrorConfig) -> bool {
    &&& c.abstol.is_finite() && nonnegative(c.abstol)
    &&& c.reltol.is_finite() && nonnegative(c.reltol)
}

proof fn lemma_tolerance(z: ZrorState)
    requires
        tolerant(z.cfg),
        z.xlo.is_finite(),
    ensures
        !z.tolerance().is_nan(),
        nonnegative(z.tolerance()),
{
    let x = z.xlo.abs();
    broadcast use lemma_le_units;
    lemma_mag_zero(x.enc() as int);
    lemma_mag_zero(z.cfg.reltol.enc() as int);
    lemma_mag_zero(z.cfg.abstol.enc() as int);
    lemma_mag_zero(HALF as int);
    law_product_is_nearest(z.cfg.reltol, x);
    let r = z.cfg.reltol * x;
    let t = z.cfg.abstol.max(r);
    lemma_product_sign(z.cfg.reltol, x);
    law_min_max(z.cfg.abstol, r);
    assert(nonnegative(t));
    lemma_product_sign(lit(HALF), t);
}

/// The product of two numbers that are not negative, one of them positive and finite or
/// both finite, is not negative.
proof fn lemma_product_sign(a: F64, b: F64)
    requires
        nonnegative(a),
        nonnegative(b),
        a.is_finite(),
        b.is_finite() || a.enc() != 0,
    ensures
        nonnegative(a * b),
        !(a * b).is_nan(),
{
    broadcast use lemma_le_units;
    reveal(F64::spec_mul);
    lemma_mag_zero(a.enc() as int);
    lemma_mag_zero(b.enc() as int);
    lemma_pow2_pos(1074);
    if b.is_finite() {
        law_product_is_nearest(a, b);
        let r = a * b;
        lemma_mag_zero(r.enc() as int);
        if a.enc() == 0 || b.enc() == 0 {
            assert(mag(a.enc() as int) * mag(b.enc() as int) == 0) by (nonlinear_arith)
                requires mag(a.enc() as int) == 0 || mag(b.enc() as int) == 0;
            crate::float::arith::lemma_round_zero(pow2(1074) as int);
        }
    } else {
        lemma_mag_zero(INF_ENC as int);
    }
}

/// The step that is taken has the direction of the step to the middle, and is no longer.
proof fn lemma_width(z: ZrorState)
    requires
        tame(z.b),
        tame(z.c),
        z.xlo.is_finite(),
        tolerant(z.cfg),
        !z.to_middle().abs().le(z.tolerance()),
    ensures
        z.width().is_finite(),
        z.width().enc() <= z.to_middle().enc(),
        z.width().enc() != 0 ==> z.width().sign() == z.to_middle().sign(),
{
    let mb = z.to_middle();
    lemma_to_middle(z.b, z.c, mb);
    lemma_tolerance(z);
    let tol = z.tolerance();
    law_order(mb.abs(), tol, tol);
    assert(tol.lt(mb.abs())) by {
        law_order(mb.abs(), tol, mb.abs());
    }
    assert(tol.is_finite() && tol.enc() < mb.enc() && mb.enc() != 0) by {
        broadcast use lemma_lt_units;
        broadcast use lemma_le_units;
        lemma_order(tol.enc() as int, mb.enc() as int);
        lemma_mag_zero(tol.enc() as int);
    }
    if z.ext <= 3 {
        let ts = tol.copysign(mb);
        let (p0, q0) = z.interpolated();
        law_negation(p0);
        law_negation(q0);
        let (p1, q) = if p0.lt(lit(ZERO)) {
            (p0.negated(), q0.negated())
        } else {
            (p0, q0)
        };
        let p = if z.ext == 3 {
            p1 * lit(super::dzror::TWO)
        } else {
            p1
        };
        if !(p.equals(lit(ZERO)) || p.le(q * ts)) && p.lt(mb * q) {
            lemma_numerator(p0, p1, p, z.ext == 3, mb * q);
            assert(!q.is_nan()) by {
                if q.is_nan() {
                    crate::float::laws::law_nan_propagates(q, mb);
                    broadcast use lemma_lt_units;
                }
            }
            lemma_quotient_below(p, q, mb);
        }
    }
}

/// The numerator of an interpolated step that is taken is positive and finite.
proof fn lemma_numerator(p0: F64, p1: F64, p: F64, doubled: bool, limit: F64)
    requires
        p1 == if p0.lt(lit(ZERO)) {
            p0.negated()
        } else {
            p0
        },
        p == if doubled {
            p1 * lit(super::dzror::TWO)
        } else {
            p1
        },
        !p.equals(lit(ZERO)),
        p.lt(limit),
    ensures
        p.is_finite(),
        p.enc() != 0,
        !p.sign(),
{
    broadcast use lemma_lt_units;
    law_negation(p0);
    lemma_order(p.enc() as int, limit.enc() as int);
    law_sign_and_zero(p);
    assert(!p1.is_nan()) by {
        if p1.is_nan() {
            crate::float::laws::law_nan_propagates(p1, lit(super::dzror::TWO));
        }
    }
    assert(!p0.is_nan());
    law_sign_and_zero(p0);
    assert(!p1.sign() || p1.enc() == 0);
    if doubled {
        reveal(F64::spec_mul);
        if p1.is_finite() {
            law_product_is_nearest(p1, lit(super::dzror::TWO));
            lemma_mag_zero(p1.enc() as int);
            if p1.enc() == 0 {
                assert(0 * mag(super::dzror::TWO as int) == 0);
                lemma_pow2_pos(1074);
                crate::float::arith::lemma_round_zero(pow2(1074) as int);
            }
        }
    }
    lemma_mag_zero(p.enc() as int);
}

/// The point lies between the two, in either order.
pub open spec fn between(x: F64, b: F64, c: F64) -> bool {
    (b.le(x) && x.le(c)) || (c.le(x) && x.le(b))
}

/// The point that a round asks for lies between the two ends of its bracket.
pub proof fn law_round_stays_in_bracket(z: ZrorState)
    requires
        tame(z.b),
        tame(z.c),
        z.xlo.is_finite(),
        tolerant(z.cfg),
    ensures
        z.refined().1 matches ZrorAction::NeedEval(x) ==> between(x, z.b, z.c) && x.is_finite(),
{
    let s0 = z.swapped();
    let s = ZrorState { mb: s0.to_middle(), ..s0 };
    assert(s.to_middle() == s0.to_middle() && s.tolerance() == s0.tolerance());
    if !s.mb.abs().le(s.tolerance()) {
        lemma_width(s);
        let w = s.width();
        let mb = s.to_middle();
        lemma_to_middle(s.b, s.c, mb);
        lemma_move(s.b, s.c, mb, w);
    }
}

proof fn lemma_move(b: F64, c: F64, mb: F64, w: F64)
    requires
        tame(b),
        tame(c),
        mb.is_finite(),
        w.is_finite(),
        b.units() <= c.units() ==> 0 <= mb.units() <= c.units() - b.units(),
        c.units() <= b.units() ==> c.units() - b.units() <= mb.units() <= 0,
        w.enc() <= mb.enc(),
        w.enc() != 0 ==> w.sign() == mb.sign(),
    ensures
        between(b + w, b, c),
        (b + w).is_finite(),
{
    broadcast use lemma_le_units;
    lemma_order(w.enc() as int, mb.enc() as int);
    lemma_mag_zero(w.enc() as int);
    lemma_units_representable(b);
    lemma_units_representable(c);
    let wu = w.units();
    let bu = b.units();
    let cu = c.units();
    if bu <= cu {
        assert(0 <= wu <= cu - bu);
    } else {
        assert(cu - bu <= wu <= 0);
    }
    lemma_sum_units(b, w);
    lemma_rounded(bu, bu + wu);
    lemma_rounded(bu + wu, cu);
    lemma_rounded(cu, bu + wu);
    lemma_rounded(bu + wu, bu);
    lemma_rounded(cu, cu);
}

/// Every point that the machine keeps lies in the range, and it has the ends.
pub open spec fn enclosed(c: InvrConfig, z: ZrorState) -> bool {
    &&& tolerant(z.cfg)
    &&& in_range(c, z.cfg.xlo)
    &&& in_range(c, z.cfg.xhi)
    &&& !(z.stage is Start) ==> in_range(c, z.b) && in_range(c, z.xlo) && in_range(c, z.xhi)
    &&& z.stage is AwaitFa || z.stage is AwaitFbStep ==> in_range(c, z.a)
    &&& z.stage is AwaitFbStep ==> in_range(c, z.c)
}

/// Numbers in the range can be added two by two.
pub open spec fn tame_range(c: InvrConfig) -> bool {
    tame(c.small) && tame(c.big) && c.small.le(c.big)
}

proof fn lemma_in_range_tame(c: InvrConfig, x: F64)
    requires
        tame_range(c),
        in_range(c, x),
    ensures
        tame(x),
{
    broadcast use lemma_le_units;
    lemma_order(x.enc() as int, INF_ENC as int);
    lemma_mag_zero(INF_ENC as int);
}

proof fn lemma_between_in_range(c: InvrConfig, x: F64, a: F64, b: F64)
    requires
        in_range(c, a),
        in_range(c, b),
        between(x, a, b),
    ensures
        in_range(c, x),
{
    broadcast use lemma_le_units;
}

proof fn lemma_round_enclosed(c: InvrConfig, z: ZrorState)
    requires
        tame_range(c),
        tolerant(z.cfg),
        in_range(c, z.cfg.xlo),
        in_range(c, z.cfg.xhi),
        in_range(c, z.a),
        in_range(c, z.b),
        in_range(c, z.c),
        in_range(c, z.xlo),
        in_range(c, z.xhi),
    ensures
        z.refined().1 matches ZrorAction::NeedEval(x) ==> in_range(c, x) && enclosed(c, z.refined().0),
        z.refined().1 matches ZrorAction::Converged { x, xlo, xhi } ==> in_range(c, xlo) && in_range(c, xhi),
        z.refined().1 matches ZrorAction::Failed { xlo, qleft, qhi } ==> in_range(c, xlo),
{
    lemma_in_range_tame(c, z.b);
    lemma_in_range_tame(c, z.c);
    lemma_in_range_tame(c, z.xlo);
    law_round_stays_in_bracket(z);
    match z.refined().1 {
        ZrorAction::NeedEval(x) => {
            lemma_between_in_range(c, x, z.b, z.c);
        },
        _ => {},
    }
}

/// Every point that a refinement asks for lies in the range that its ends lie in, and so
/// does every end that it reports, whatever values come back.
pub proof fn law_refinement_stays_in_range(c: InvrConfig, z: ZrorState, fx: F64)
    requires
        tame_range(c),
        enclosed(c, z),
    ensures
        z.stepped(fx).1 matches ZrorAction::NeedEval(x) ==> in_range(c, x) && enclosed(c, z.stepped(fx).0),
        z.stepped(fx).1 matches ZrorAction::Converged { x, xlo, xhi } ==> in_range(c, xlo) && in_range(c, xhi),
        z.stepped(fx).1 matches ZrorAction::Failed { xlo, qleft, qhi } ==> in_range(c, xlo),
{
    match z.stage {
        ZrorStage::AwaitFa => {
            let s = (ZrorState { fa: fx, first: true, ..z }).restarted();
            lemma_round_enclosed(c, s);
        },
        ZrorStage::AwaitFbStep => {
            let s = ZrorState { fb: fx, ..z };
            if (s.fc * s.fb).ge(lit(ZERO)) {
                lemma_round_enclosed(c, s.restarted());
            } else if s.w.equals(s.mb) {
                lemma_round_enclosed(c, ZrorState { ext: 0, ..s });
            } else {
                lemma_round_enclosed(
                    c,
                    ZrorState {
                        ext: if s.ext == i32::MAX {
                            s.ext
                        } else {
                            (s.ext + 1) as i32
                        },
                        ..s
                    },
                );
            }
        },
        _ => {},
    }
}

/// A search with all of its points in its range, before or after it begins to refine.
pub open spec fn contained(s: InvrState) -> bool {
    &&& sound(s.cfg)
    &&& tame_range(s.cfg)
    &&& s.cfg.abs_tol.is_finite() && nonnegative(s.cfg.abs_tol)
    &&& s.cfg.rel_tol.is_finite() && nonnegative(s.cfg.rel_tol)
    &&& match s.stage {
        InvrStage::InZror(z) => enclosed(s.cfg, z),
        _ => searching(s),
    }
}

/// A search that starts in its range starts with every point there.
pub proof fn law_search_starts_contained(c: InvrConfig, start: F64)
    requires
        sound(c),
        tame_range(c),
        c.abs_tol.is_finite() && nonnegative(c.abs_tol),
        c.rel_tol.is_finite() && nonnegative(c.rel_tol),
        in_range(c, start),
    ensures
        contained(InvrState::new(c, start)),
{
}

/// Every point that a search asks for, and every answer that it reports, lies in its
/// range, whatever values come back. A failure reports the lower end exactly where the
/// answer lies to the left.
pub proof fn law_search_stays_in_range(s: InvrState, fx: F64)
    requires
        contained(s),
    ensures
        s.stepped(fx).1 matches InvrAction::NeedEval(x) ==> in_range(s.cfg, x) && contained(s.stepped(fx).0),
        s.stepped(fx).1 matches InvrAction::Converged(x) ==> in_range(s.cfg, x),
        s.stepped(fx).1 matches InvrAction::Failed { qleft, qhi, x } ==> x == if qleft {
            s.cfg.small
        } else {
            s.cfg.big
        },
{
    match s.stage {
        InvrStage::InZror(z) => {
            law_refinement_stays_in_range(s.cfg, z, fx);
        },
        _ => {
            law_probes_stay_in_range(s, fx);
        },
    }
}

/// The bound of every search is far from overflow.
pub proof fn lemma_bound_is_tame()
    ensures
        tame(lit(SEARCH_BOUND)),
        tame(lit(SEARCH_BOUND).negated()),
        lit(SEARCH_BOUND).negated().le(lit(SEARCH_BOUND)),
{
    let e = SEARCH_BOUND as int;
    law_negation(lit(SEARCH_BOUND));
    crate::float::model::lemma_cell_of(e);
    crate::float::round::lemma_powers();
    let t = crate::float::model::scale(e);
    let k = crate::float::model::significand(e);
    assert(t == 2018);
    crate::float::model::lemma_mag_cell(2046, crate::float::model::CELL as int);
    vstd::arithmetic::power2::lemma_pow2_adds(2018, 28);
    vstd::arithmetic::power2::lemma2_to64();
    lemma_pow2_pos(2018);
    let g = pow2(2018) as int;
    let c = crate::float::model::CELL as int;
    assert(pow2(28) == 0x1000_0000);
    assert(mag(INF_ENC as int) == c * (g * 0x1000_0000));
    assert(8 * mag(e) < c * (g * 0x1000_0000)) by (nonlinear_arith)
        requires mag(e) == k * g, k < 2 * c, g > 0, c > 0;
    broadcast use lemma_le_units;
    lemma_mag_zero(e);
}

/// Every search for a parameter or a quantile that does not refuse its starting point
/// keeps to its range: its first state has every point there.
pub proof fn law_every_search_is_contained(small: F64, big: F64, start: F64, abs_tol: F64)
    requires
        !small.is_nan(),
        !big.is_nan(),
        abs_tol.is_finite() && nonnegative(abs_tol),
        ({
            let hi = big.min(lit(SEARCH_BOUND));
            let lo = small.max(lit(SEARCH_BOUND).negated());
            lo.le(start) && start.le(hi)
        }),
    ensures
        ({
            let hi = big.min(lit(SEARCH_BOUND));
            let lo = small.max(lit(SEARCH_BOUND).negated());
            contained(InvrState::new(invr_config(lo, hi, abs_tol), start))
        }),
{
    let top = lit(SEARCH_BOUND);
    let bottom = top.negated();
    let hi = big.min(top);
    let lo = small.max(bottom);
    lemma_bound_is_tame();
    law_min_max(big, top);
    law_min_max(small, bottom);
    law_order(lo, start, hi);
    // lo is between the bounds, and so is hi
    assert(lo.le(top) && bottom.le(hi)) by {
        law_order(lo, hi, top);
        law_order(bottom, lo, hi);
    }
    let wide = InvrConfig { small: bottom, big: top, ..invr_config(lo, hi, abs_tol) };
    lemma_in_range_tame(wide, lo);
    lemma_in_range_tame(wide, hi);
    lemma_mag_zero(HALF as int);
    lemma_mag_zero(super::drive::STP_MUL as int);
    lemma_mag_zero(super::drive::REL_TOL as int);
    broadcast use lemma_le_units;
    broadcast use lemma_lt_units;
}

} // verus!
