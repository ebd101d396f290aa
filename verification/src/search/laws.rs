//! Laws of the searches.
use crate::float::number::{lemma_le_units, lemma_lt_units};
use super::dinvr::{invr_run, InvrAction, InvrConfig, InvrStage, InvrState};
use super::drive::{
    invr_config, search_bounded_zero_with_tol_spec, search_monotone_with_atol_spec, PATIENCE, SEARCH_BOUND,
};
use super::dzror::{zror_run, ZrorAction, ZrorConfig, ZrorState, HALF};
use crate::error::SearchError;
use crate::float::laws::{
    law_min_max, law_negation, law_order, law_product_is_nearest, law_sum_is_monotone,
};
use crate::float::model::lemma_mag_zero;
use crate::float::number::{lemma_order, ZERO};
use crate::float::{lit, F64};
use vstd::prelude::*;

verus! {

/// The point lies in the range of a search.
pub open spec fn in_range(c: InvrConfig, x: F64) -> bool {
    c.small.le(x) && x.le(c.big)
}

/// Not negative, and no NaN.
pub open spec fn nonnegative(x: F64) -> bool {
    lit(ZERO).le(x)
}

/// A range with finite ends, and steps that lead onwards.
pub open spec fn sound(c: InvrConfig) -> bool {
    &&& c.small.is_finite()
    &&& c.big.is_finite()
    &&& c.small.le(c.big)
    &&& c.abs_step.is_finite() && nonnegative(c.abs_step)
    &&& c.rel_step.is_finite() && nonnegative(c.rel_step)
    &&& c.stp_mul.is_finite() && lit(ZERO).lt(c.stp_mul)
}

/// A machine that has not begun to refine, with its points in the range.
pub open spec fn searching(s: InvrState) -> bool {
    &&& sound(s.cfg)
    &&& in_range(s.cfg, s.xsave)
    &&& !(s.stage is InZror)
    &&& s.stage is AwaitInitial || s.stage is AwaitUpper || s.stage is AwaitLower ==> nonnegative(s.step)
    &&& s.stage is AwaitUpper || s.stage is AwaitLower ==> in_range(s.cfg, s.xlb) && in_range(
        s.cfg,
        s.xub,
    )
}

proof fn lemma_in_range_finite(c: InvrConfig, x: F64)
    requires
        sound(c),
        in_range(c, x),
    ensures
        x.is_finite(),
{
    broadcast use lemma_le_units;
    lemma_order(x.enc() as int, c.big.enc() as int);
    lemma_order(x.enc() as int, c.small.enc() as int);
}

proof fn lemma_step_up(c: InvrConfig, x: F64, step: F64)
    requires
        sound(c),
        in_range(c, x),
        nonnegative(step),
    ensures
        in_range(c, (x + step).min(c.big)),
        in_range(c, (x - step).max(c.small)),
{
    lemma_in_range_finite(c, x);
    law_negation(step);
    if step.is_finite() {
        law_sum_is_monotone(x, step);
    } else {
        reveal(F64::spec_add);
        broadcast use lemma_le_units;
        lemma_mag_zero(step.enc() as int);
        lemma_order(x.enc() as int, step.enc() as int);
    }
    let u = x + step;
    let d = x - step;
    assert(x.le(u) && d.le(x)) by {
        broadcast use lemma_le_units;
        lemma_order(x.enc() as int, u.enc() as int);
        lemma_order(x.enc() as int, d.enc() as int);
    }
    assert(!u.is_nan() && !d.is_nan()) by {
        broadcast use lemma_le_units;
    }
    law_min_max(u, c.big);
    law_min_max(d, c.small);
    law_order(c.small, x, u);
    law_order(d, x, c.big);
    law_order(c.small, c.big, c.big);
    broadcast use lemma_le_units;
}

proof fn lemma_product_nonnegative(a: F64, b: F64)
    requires
        nonnegative(a),
        nonnegative(b),
        b.is_finite(),
        a.is_finite() || b.enc() != 0,
    ensures
        nonnegative(a * b),
{
    broadcast use lemma_le_units;
    reveal(F64::spec_mul);
    lemma_mag_zero(a.enc() as int);
    lemma_mag_zero(b.enc() as int);
    if a.is_finite() {
        law_product_is_nearest(a, b);
    }
    let r = a * b;
    lemma_mag_zero(r.enc() as int);
    if r.sign() && r.enc() != 0 {
        // one factor is negative zero, so the product is zero
        assert(a.sign() != b.sign());
        assert(a.enc() == 0 || b.enc() == 0);
        assert(crate::float::model::mag(a.enc() as int) * crate::float::model::mag(b.enc() as int) == 0)
            by (nonlinear_arith)
            requires
                crate::float::model::mag(a.enc() as int) == 0 || crate::float::model::mag(b.enc() as int) == 0,
        ;
        vstd::arithmetic::power2::lemma_pow2_pos(1074);
        crate::float::arith::lemma_round_zero(vstd::arithmetic::power2::pow2(1074) as int);
    }
}

/// A search that starts in its range starts with every point there.
pub proof fn law_search_starts_in_range(c: InvrConfig, start: F64)
    requires
        sound(c),
        in_range(c, start),
    ensures
        searching(InvrState::new(c, start)),
{
}

/// Every point that a search asks for before it refines, and the first point of the
/// refinement, lies in its range, whatever values come back.
pub proof fn law_probes_stay_in_range(s: InvrState, fx: F64)
    requires
        searching(s),
    ensures
        s.stepped(fx).1 matches InvrAction::NeedEval(x) ==> in_range(s.cfg, x),
        searching(s.stepped(fx).0) || s.stepped(fx).0.stage is InZror,
        s.stepped(fx).0.cfg == s.cfg,
        s.stepped(fx).0.stage matches InvrStage::InZror(z) ==> in_range(s.cfg, z.cfg.xlo) && in_range(
            s.cfg,
            z.cfg.xhi,
        ),
{
    let c = s.cfg;
    assert(in_range(c, c.small) && in_range(c, c.big)) by {
        broadcast use lemma_le_units;
    }
    match s.stage {
        InvrStage::AwaitFbig => {
            lemma_in_range_finite(c, s.xsave);
            let x = s.xsave.abs();
            assert(nonnegative(x) && x.is_finite()) by {
                broadcast use lemma_le_units;
                lemma_mag_zero(x.enc() as int);
            }
            lemma_product_nonnegative(c.rel_step, x);
            assert(!(c.rel_step * x).is_nan()) by {
                broadcast use lemma_le_units;
            }
            law_min_max(c.abs_step, c.rel_step * x);
        },
        InvrStage::AwaitInitial => {
            lemma_step_up(c, s.xsave, s.step);
        },
        InvrStage::AwaitUpper | InvrStage::AwaitLower => {
            assert(nonnegative(c.stp_mul) && c.stp_mul.enc() != 0) by {
                broadcast use lemma_le_units;
                broadcast use lemma_lt_units;
                lemma_mag_zero(c.stp_mul.enc() as int);
            }
            lemma_product_nonnegative(s.step, c.stp_mul);
            lemma_step_up(c, s.xub, s.step * c.stp_mul);
            lemma_step_up(c, s.xlb, s.step * c.stp_mul);
        },
        _ => {},
    }
}

/// A search fails at the end of its range that the values there rule out: a function
/// that rises from a positive value, or falls from a negative one, has its zero below
/// the range; one that rises to a negative value, or falls to a positive one, above
/// it. The bound in the error is the one given for that end.
pub proof fn law_ends_decide(
    small: F64,
    big: F64,
    start: F64,
    qleft_bound: F64,
    qhi_bound: F64,
    abs_tol: F64,
    g: spec_fn(F64) -> F64,
)
    ensures
        ({
            let hi = big.min(lit(SEARCH_BOUND));
            let lo = small.max(lit(SEARCH_BOUND).negated());
            let o = lit(ZERO);
            let r = search_monotone_with_atol_spec(small, big, start, qleft_bound, qhi_bound, abs_tol, g);
            let rises = g(lo).le(g(hi));
            &&& !(lo.le(start) && start.le(hi)) <==> r == Err::<F64, SearchError>(
                SearchError::StartOutOfRange { start, small: lo, big: hi },
            )
            &&& lo.le(start) && start.le(hi) ==> {
                &&& rises && g(lo).gt(o) ==> r == Err::<F64, SearchError>(
                    SearchError::AnswerBelowLowerBound { bound: qleft_bound },
                )
                &&& rises && !g(lo).gt(o) && g(hi).lt(o) ==> r == Err::<F64, SearchError>(
                    SearchError::AnswerAboveUpperBound { bound: qhi_bound },
                )
                &&& !rises && g(lo).lt(o) ==> r == Err::<F64, SearchError>(
                    SearchError::AnswerBelowLowerBound { bound: qleft_bound },
                )
                &&& !rises && !g(lo).lt(o) && g(hi).gt(o) ==> r == Err::<F64, SearchError>(
                    SearchError::AnswerAboveUpperBound { bound: qhi_bound },
                )
            }
        }),
{
    let hi = big.min(lit(SEARCH_BOUND));
    let lo = small.max(lit(SEARCH_BOUND).negated());
    let s0 = InvrState::new(invr_config(lo, hi, abs_tol), start);
    let n = PATIENCE as nat;
    let s1 = s0.stepped(lit(ZERO)).0;
    let s2 = s1.stepped(g(lo)).0;
    assert(invr_run(s0, lit(ZERO), g, n) == invr_run(s1, g(lo), g, (n - 1) as nat));
    assert(invr_run(s1, g(lo), g, (n - 1) as nat) == invr_run(s2, g(hi), g, (n - 2) as nat));
}

/// A search whose ends rule nothing out, and whose starting point is a zero, returns
/// the starting point.
pub proof fn law_zero_at_start(
    small: F64,
    big: F64,
    start: F64,
    qleft_bound: F64,
    qhi_bound: F64,
    abs_tol: F64,
    g: spec_fn(F64) -> F64,
)
    requires
        ({
            let hi = big.min(lit(SEARCH_BOUND));
            let lo = small.max(lit(SEARCH_BOUND).negated());
            let o = lit(ZERO);
            &&& lo.le(start) && start.le(hi)
            &&& g(start).equals(o)
            &&& g(lo).le(g(hi)) ==> !g(lo).gt(o) && !g(hi).lt(o)
            &&& !g(lo).le(g(hi)) ==> !g(lo).lt(o) && !g(hi).gt(o)
        }),
    ensures
        search_monotone_with_atol_spec(small, big, start, qleft_bound, qhi_bound, abs_tol, g) == Ok::<
            F64,
            SearchError,
        >(start),
{
    let hi = big.min(lit(SEARCH_BOUND));
    let lo = small.max(lit(SEARCH_BOUND).negated());
    let s0 = InvrState::new(invr_config(lo, hi, abs_tol), start);
    let n = PATIENCE as nat;
    let s1 = s0.stepped(lit(ZERO)).0;
    let s2 = s1.stepped(g(lo)).0;
    let s3 = s2.stepped(g(hi)).0;
    assert(invr_run(s0, lit(ZERO), g, n) == invr_run(s1, g(lo), g, (n - 1) as nat));
    assert(invr_run(s1, g(lo), g, (n - 1) as nat) == invr_run(s2, g(hi), g, (n - 2) as nat));
    assert(invr_run(s2, g(hi), g, (n - 2) as nat) == invr_run(s3, g(start), g, (n - 3) as nat));
}

/// A refinement asks for the lower end first and for the upper end next.
pub proof fn law_refinement_asks_both_ends(c: ZrorConfig, fx: F64, flo: F64)
    ensures
        ZrorState::new(c).stepped(fx).1 == ZrorAction::NeedEval(c.xlo),
        ZrorState::new(c).stepped(fx).0.stepped(flo).1 == ZrorAction::NeedEval(c.xhi),
{
}

/// Both ends with values of the same strict sign are refused: `qhi` tells the sign, and
/// `qleft` whether the value at the upper end is the one farther from zero.
pub proof fn law_refinement_needs_a_change_of_sign(c: ZrorConfig, fx: F64, flo: F64, fhi: F64)
    ensures
        ({
            let o = lit(ZERO);
            let a = ZrorState::new(c).stepped(fx).0.stepped(flo).0.stepped(fhi).1;
            &&& flo.lt(o) && fhi.lt(o) ==> a == (ZrorAction::Failed {
                xlo: c.xhi,
                qleft: fhi.lt(flo),
                qhi: false,
            })
            &&& flo.gt(o) && fhi.gt(o) ==> a == (ZrorAction::Failed {
                xlo: c.xhi,
                qleft: fhi.gt(flo),
                qhi: true,
            })
        }),
{
    law_order(flo, lit(ZERO), flo);
}

/// The values on both sides of a bracket: one at most zero, the other at least zero.
pub open spec fn opposite(fb: F64, fc: F64) -> bool {
    let o = lit(ZERO);
    (fc.ge(o) && fb.le(o)) || (fc.lt(o) && fb.ge(o))
}

/// The ends lie within the tolerance of each other.
pub open spec fn narrow(c: ZrorConfig, xlo: F64, b: F64, xhi: F64) -> bool {
    (lit(HALF) * (xhi + b) - b).abs().le(lit(HALF) * c.abstol.max(c.reltol * xlo.abs()))
}

/// The values kept at `a` and `c` are those of `g`, and `xlo` is the best point.
pub open spec fn remembers(z: ZrorState, g: spec_fn(F64) -> F64) -> bool {
    z.stage is AwaitFbStep && z.fa == g(z.a) && z.fc == g(z.c) && z.fd == g(z.d) && z.xlo == z.b
}

/// What a report of convergence says of `g`.
pub open spec fn encloses(c: ZrorConfig, g: spec_fn(F64) -> F64, xlo: F64, xhi: F64) -> bool {
    exists|b: F64|
        (b == xlo || b == c.xlo) && opposite(#[trigger] g(b), g(xhi)) && narrow(c, xlo, b, xhi)
}

proof fn lemma_round_remembers(z: ZrorState, g: spec_fn(F64) -> F64)
    requires
        z.fa == g(z.a),
        z.fb == g(z.b),
        z.fc == g(z.c),
        z.xlo == z.b || z.b == z.cfg.xlo,
    ensures
        z.refined().0.cfg == z.cfg,
        z.refined().1 is NeedEval ==> remembers(z.refined().0, g) && z.refined().1 == ZrorAction::NeedEval(
            z.refined().0.b,
        ),
        z.refined().1 matches ZrorAction::Converged { x, xlo, xhi } ==> encloses(z.cfg, g, xlo, xhi),
{
    let s0 = z.swapped();
    let s = ZrorState { mb: s0.to_middle(), ..s0 };
    if s.mb.abs().le(s.tolerance()) && s.straddles() {
        let b = s.b;
        assert(opposite(g(b), g(s.c)));
        assert(narrow(z.cfg, s.xlo, b, s.c));
    }
}

proof fn lemma_run_encloses(z: ZrorState, g: spec_fn(F64) -> F64, n: nat)
    requires
        remembers(z, g),
    ensures
        zror_run(z, g(z.b), g, n) matches Some(ZrorAction::Converged { x, xlo, xhi }) ==> encloses(
            z.cfg,
            g,
            xlo,
            xhi,
        ),
    decreases n,
{
    let s = ZrorState { fb: g(z.b), ..z };
    let t = if (s.fc * s.fb).ge(lit(ZERO)) {
        s.restarted()
    } else if s.w.equals(s.mb) {
        ZrorState { ext: 0, ..s }
    } else {
        ZrorState {
            ext: if s.ext == i32::MAX {
                s.ext
            } else {
                (s.ext + 1) as i32
            },
            ..s
        }
    };
    assert(z.stepped(g(z.b)) == t.refined());
    lemma_round_remembers(t, g);
    if t.refined().1 is NeedEval && n > 0 {
        lemma_run_encloses(t.refined().0, g, (n - 1) as nat);
    }
}

/// Where a refinement converges, the function does not have the same strict sign at
/// both ends reported, and these lie within the tolerance of each other. (The end
/// reported as the lower one stands for the lower end given where the bracket was
/// narrow enough from the beginning.)
pub proof fn law_refinement_encloses_a_zero(c: ZrorConfig, g: spec_fn(F64) -> F64, n: nat)
    ensures
        zror_run(ZrorState::new(c), lit(ZERO), g, n) matches Some(
            ZrorAction::Converged { x, xlo, xhi },
        ) ==> encloses(c, g, xlo, xhi),
{
    let z0 = ZrorState::new(c);
    let z1 = z0.stepped(lit(ZERO)).0;
    let z2 = z1.stepped(g(c.xlo)).0;
    if n >= 2 {
        assert(zror_run(z0, lit(ZERO), g, n) == zror_run(z1, g(c.xlo), g, (n - 1) as nat));
        assert(zror_run(z1, g(c.xlo), g, (n - 1) as nat) == zror_run(z2, g(c.xhi), g, (n - 2) as nat));
        let fx = g(c.xhi);
        let t = (ZrorState { fa: fx, first: true, ..z2 }).restarted();
        lemma_round_remembers(t, g);
        if z2.stepped(fx) == t.refined() {
            if t.refined().1 is NeedEval && n > 2 {
                lemma_run_encloses(t.refined().0, g, (n - 3) as nat);
            }
        }
    } else if n == 1 {
        assert(zror_run(z0, lit(ZERO), g, n) == zror_run(z1, g(c.xlo), g, 0));
        assert(zror_run(z1, g(c.xlo), g, 0) is None);
    }
}

/// The point reported with convergence is the last one asked for.
pub proof fn law_converged_point_is_the_last(z: ZrorState, fx: F64)
    ensures
        z.stepped(fx).1 matches ZrorAction::NeedEval(p) ==> z.stepped(fx).0.x == p,
        z.stepped(fx).1 matches ZrorAction::Converged { x, xlo, xhi } ==> x == z.x,
{
}

/// A bounded search whose function has the same strict sign at both ends fails at the
/// end towards which the function comes nearer to zero.
pub proof fn law_bounded_search_needs_a_change_of_sign(
    xlo: F64,
    xhi: F64,
    abs_tol: F64,
    rel_tol: F64,
    g: spec_fn(F64) -> F64,
)
    requires
        (g(xlo).lt(lit(ZERO)) && g(xhi).lt(lit(ZERO))) || (g(xlo).gt(lit(ZERO)) && g(xhi).gt(lit(ZERO))),
    ensures
        ({
            let away = if g(xlo).lt(lit(ZERO)) {
                g(xhi).lt(g(xlo))
            } else {
                g(xhi).gt(g(xlo))
            };
            search_bounded_zero_with_tol_spec(xlo, xhi, abs_tol, rel_tol, g) == if away {
                Err::<F64, SearchError>(SearchError::AnswerBelowLowerBound { bound: xlo })
            } else {
                Err::<F64, SearchError>(SearchError::AnswerAboveUpperBound { bound: xhi })
            }
        }),
{
    let c = ZrorConfig { xlo, xhi, abstol: abs_tol, reltol: rel_tol };
    let z0 = ZrorState::new(c);
    let z1 = z0.stepped(lit(ZERO)).0;
    let z2 = z1.stepped(g(xlo)).0;
    let n = PATIENCE as nat;
    law_order(g(xlo), lit(ZERO), g(xlo));
    law_order(lit(ZERO), g(xlo), lit(ZERO));
    assert(zror_run(z0, lit(ZERO), g, n) == zror_run(z1, g(xlo), g, (n - 1) as nat));
    assert(zror_run(z1, g(xlo), g, (n - 1) as nat) == zror_run(z2, g(xhi), g, (n - 2) as nat));
}

} // verus!
