//! What the answer of a search is worth.
use super::bracket_laws::{
    contained, enclosed, law_every_search_is_contained, law_refinement_stays_in_range, law_search_stays_in_range,
    tame, tame_range,
};
use super::dinvr::{invr_run, InvrAction, InvrConfig, InvrStage, InvrState};
use super::drive::{
    invr_config, search_bounded_zero_with_tol_spec, search_monotone_with_atol_spec, PATIENCE, REL_TOL, SEARCH_BOUND,
};
use super::dzror::{zror_run, ZrorAction, ZrorConfig, ZrorStage, ZrorState, HALF};
use super::laws::{in_range, law_converged_point_is_the_last, law_ends_decide, nonnegative};
use crate::float::laws::{law_product_is_nearest, law_sign_and_zero};
use crate::float::model::{lemma_mag_cell, lemma_mag_zero, mag, CELL};
use crate::float::number::{lemma_order, ZERO};
use crate::float::round::lemma_powers;
use crate::float::{lit, F64};
use vstd::arithmetic::power2::{lemma_pow2_adds, lemma_pow2_pos, pow2};
use vstd::prelude::*;

verus! {

/// One of the values is at most zero, the other at least zero.
pub open spec fn straddle(u: F64, v: F64) -> bool {
    ||| u.le(lit(ZERO)) && v.ge(lit(ZERO))
    ||| u.ge(lit(ZERO)) && v.le(lit(ZERO))
}

/// No value in the range is a NaN.
pub open spec fn defined_on(lo: F64, hi: F64, g: spec_fn(F64) -> F64) -> bool {
    forall|x: F64| lo.le(x) && x.le(hi) ==> !(#[trigger] g(x)).is_nan()
}

/// The bits of 2^-537: a product of two smaller numbers vanishes.
pub const TINY: u64 = 0x1E60_0000_0000_0000;

/// The value is within 2^-537 of zero.
pub open spec fn tiny(v: F64) -> bool {
    v.abs().le(lit(TINY))
}

/// Half of the distance from `b` to `c`, as computed, is at most half of the tolerance
/// at `x`.
pub open spec fn near(abs_tol: F64, rel_tol: F64, x: F64, b: F64, c: F64) -> bool {
    (lit(HALF) * (c + b) - b).abs().le(lit(HALF) * abs_tol.max(rel_tol * x.abs()))
}

/// The two points lie within the tolerance of each other, which is measured from one of
/// them and taken at one of them.
pub open spec fn close(abs_tol: F64, rel_tol: F64, x: F64, y: F64) -> bool {
    ||| near(abs_tol, rel_tol, x, x, y)
    ||| near(abs_tol, rel_tol, x, y, x)
    ||| near(abs_tol, rel_tol, y, x, y)
    ||| near(abs_tol, rel_tol, y, y, x)
}

/// The function is zero at `x`, to within 2^-537, or it passes through zero between `x`
/// and a point of the range within the tolerance of it, or is zero there to within 2^-537.
pub open spec fn settled(
    lo: F64,
    hi: F64,
    abs_tol: F64,
    rel_tol: F64,
    g: spec_fn(F64) -> F64,
    x: F64,
) -> bool {
    ||| tiny(g(x))
    ||| exists|y: F64|
        lo.le(y) && y.le(hi) && (straddle(g(x), #[trigger] g(y)) || tiny(g(y))) && close(
            abs_tol,
            rel_tol,
            x,
            y,
        )
}

/// A product that is not at least zero comes of values on both sides of zero.
proof fn lemma_product_sign(a: F64, b: F64)
    requires
        !a.is_nan(),
        !b.is_nan(),
    ensures
        !(a * b).ge(lit(ZERO)) ==> straddle(a, b),
{
    reveal(F64::spec_mul);
    law_sign_and_zero(a);
    law_sign_and_zero(b);
    if a.is_finite() && b.is_finite() {
        law_product_is_nearest(a, b);
    }
    if !(a * b).is_nan() {
        law_sign_and_zero(a * b);
    }
}

/// Where a product is at least zero though its factors lie strictly on both sides of zero,
/// one of them is tiny.
proof fn lemma_vanishing(a: F64, b: F64)
    requires
        !a.is_nan(),
        !b.is_nan(),
        (a * b).ge(lit(ZERO)),
        (a.lt(lit(ZERO)) && b.gt(lit(ZERO))) || (a.gt(lit(ZERO)) && b.lt(lit(ZERO))),
    ensures
        tiny(a) || tiny(b),
{
    reveal(F64::spec_mul);
    law_sign_and_zero(a);
    law_sign_and_zero(b);
    let ma = mag(a.enc() as int);
    let mb = mag(b.enc() as int);
    lemma_order(a.enc() as int, b.enc() as int);
    if a.is_finite() && b.is_finite() {
        law_product_is_nearest(a, b);
        law_sign_and_zero(a * b);
        assert((a * b).enc() == 0);
        let d = pow2(1074) as int;
        lemma_pow2_pos(1074);
        lemma_mag_cell(0, 1);
        lemma_powers();
        lemma_mag_zero(0);
        assert(mag(1) == 1);
        assert(2 * (ma * mb) <= d);
        lemma_mag_cell(485, CELL as int);
        assert(485 * CELL + CELL == TINY);
        lemma_pow2_adds(52, 485);
        lemma_pow2_adds(537, 537);
        let h = pow2(537) as int;
        lemma_pow2_pos(537);
        assert(mag(TINY as int) == h) by (nonlinear_arith)
            requires mag(TINY as int) == CELL * pow2(485), h == pow2(52) * pow2(485), pow2(52) == CELL;
        if ma > h && mb > h {
            assert(ma * mb > h * h) by (nonlinear_arith)
                requires ma > h, mb > h, h > 0;
            assert(d == h * h);
        }
        lemma_order(a.enc() as int, TINY as int);
        lemma_order(b.enc() as int, TINY as int);
    }
}

/// The values hold a zero between them, or one of them is a zero to within 2^-537.
pub open spec fn holding(u: F64, v: F64) -> bool {
    straddle(u, v) || tiny(u) || tiny(v)
}

/// The machine knows the values at its points, its bracket holds a zero, and the value
/// at the previous point is not the larger one.
pub open spec fn holds(z: ZrorState, g: spec_fn(F64) -> F64) -> bool {
    match z.stage {
        ZrorStage::Start => straddle(g(z.cfg.xlo), g(z.cfg.xhi)),
        ZrorStage::AwaitFb => {
            &&& z.b == z.cfg.xlo
            &&& z.xhi == z.cfg.xhi
            &&& z.x == z.b
            &&& straddle(g(z.b), g(z.xhi))
        },
        ZrorStage::AwaitFa => {
            &&& z.fb == g(z.b)
            &&& z.xlo == z.a
            &&& z.x == z.a
            &&& straddle(g(z.b), g(z.a))
        },
        ZrorStage::AwaitFbStep => {
            &&& z.fa == g(z.a)
            &&& z.fc == g(z.c)
            &&& z.xlo == z.b
            &&& z.x == z.b
            &&& holding(g(z.a), g(z.c))
            &&& z.fa.abs().le(z.fc.abs())
        },
    }
}

/// The point whose value the refinement waits for.
pub open spec fn zror_awaits(z: ZrorState) -> F64 {
    match z.stage {
        ZrorStage::AwaitFa => z.a,
        _ => z.b,
    }
}

proof fn lemma_round_holds(c: InvrConfig, z: ZrorState, g: spec_fn(F64) -> F64)
    requires
        defined_on(c.small, c.big, g),
        in_range(c, z.a),
        in_range(c, z.b),
        in_range(c, z.c),
        z.fa == g(z.a),
        z.fb == g(z.b),
        z.fc == g(z.c),
        holding(z.fb, z.fc),
        z.xlo == z.b || (z.xlo == z.c && straddle(z.fb, z.fc)),
        z.x == z.b || z.x == z.c,
    ensures
        z.refined().1 matches ZrorAction::NeedEval(x) ==> holds(z.refined().0, g) && x == zror_awaits(
            z.refined().0,
        ),
        z.refined().1 matches ZrorAction::Converged { x, xlo, xhi } ==> {
            &&& settled(c.small, c.big, z.cfg.abstol, z.cfg.reltol, g, xlo)
            &&& settled(c.small, c.big, z.cfg.abstol, z.cfg.reltol, g, x)
        },
        z.refined().1 matches ZrorAction::Failed { xlo, qleft, qhi } ==> tiny(g(xlo)),
{
    let s0 = z.swapped();
    let s = ZrorState { mb: s0.to_middle(), ..s0 };
    assert(s.fb == g(s.b) && s.fc == g(s.c) && holding(s.fb, s.fc));
    assert(!s.fb.is_nan() && !s.fc.is_nan());
    assert(s.fb.abs().le(s.fc.abs()));
    assert(straddle(s.fb, s.fc) || tiny(s.fb));
    if s.mb.abs().le(s.tolerance()) {
        assert(near(z.cfg.abstol, z.cfg.reltol, s.xlo, s.b, s.c));
        assert(straddle(s.fb, s.fc) ==> straddle(g(s.c), g(s.b)) && straddle(g(s.b), g(s.c)));
        assert(close(z.cfg.abstol, z.cfg.reltol, s.b, s.c) && close(z.cfg.abstol, z.cfg.reltol, s.c, s.b));
        assert(straddle(s.fb, s.fc) ==> s.straddles());
    }
}

proof fn lemma_zror_step_holds(c: InvrConfig, z: ZrorState, g: spec_fn(F64) -> F64)
    requires
        defined_on(c.small, c.big, g),
        enclosed(c, z),
        holds(z, g),
        !(z.stage is Start),
    ensures
        ({
            let (t, a) = z.stepped(g(zror_awaits(z)));
            &&& a matches ZrorAction::NeedEval(x) ==> holds(t, g) && x == zror_awaits(t) && !(t.stage is Start)
            &&& a matches ZrorAction::Converged { x, xlo, xhi } ==> {
                &&& settled(c.small, c.big, z.cfg.abstol, z.cfg.reltol, g, xlo)
                &&& settled(c.small, c.big, z.cfg.abstol, z.cfg.reltol, g, x)
            }
            &&& a matches ZrorAction::Failed { xlo, qleft, qhi } ==> tiny(g(xlo))
            &&& t.cfg == z.cfg
        }),
{
    let fx = g(zror_awaits(z));
    match z.stage {
        ZrorStage::AwaitFa => {
            let s = (ZrorState { fa: fx, first: true, ..z }).restarted();
            lemma_round_holds(c, s, g);
        },
        ZrorStage::AwaitFbStep => {
            let s = ZrorState { fb: fx, ..z };
            let t = if (s.fc * s.fb).ge(lit(ZERO)) {
                s.restarted()
            } else if s.w.equals(s.mb) {
                ZrorState { ext: 0, ..s }
            } else {
                ZrorState {
                    ext: if s.ext == i32::MAX {
                        s.ext
                    } else {
                        (s.ext + 1) as i32
                    },
                    ..s
                }
            };
            lemma_product_sign(s.fc, s.fb);
            assert(g(z.b) == s.fb && g(z.c) == s.fc);
            assert(!s.fb.is_nan() && !s.fc.is_nan() && !s.fa.is_nan());
            if (s.fc * s.fb).ge(lit(ZERO)) {
                if (s.fc.lt(lit(ZERO)) && s.fb.gt(lit(ZERO))) || (s.fc.gt(lit(ZERO)) && s.fb.lt(lit(ZERO))) {
                    lemma_vanishing(s.fc, s.fb);
                }
                assert(holding(s.fb, s.fa));
            }
            lemma_round_holds(c, t, g);
        },
        _ => {},
    }
}

/// The search has found no zero yet, and looks towards one.
pub open spec fn looks(s: InvrState, g: spec_fn(F64) -> F64) -> bool {
    match s.stage {
        InvrStage::AwaitUpper => s.short_of(g(s.xlb)),
        InvrStage::AwaitLower => !s.short_of(g(s.xub)),
        InvrStage::InZror(z) => holds(z, g) && !(z.stage is Start) && z.cfg.abstol == s.cfg.abs_tol
            && z.cfg.reltol == s.cfg.rel_tol,
        _ => true,
    }
}

/// The point whose value the search waits for.
pub open spec fn invr_awaits(s: InvrState) -> F64 {
    match s.stage {
        InvrStage::Start => s.cfg.small,
        InvrStage::AwaitFsmall => s.cfg.small,
        InvrStage::AwaitFbig => s.cfg.big,
        InvrStage::AwaitInitial => s.xsave,
        InvrStage::AwaitUpper => s.xub,
        InvrStage::AwaitLower => s.xlb,
        InvrStage::InZror(z) => zror_awaits(z),
    }
}

proof fn lemma_invr_step_looks(s: InvrState, g: spec_fn(F64) -> F64)
    requires
        contained(s),
        defined_on(s.cfg.small, s.cfg.big, g),
        looks(s, g),
    ensures
        ({
            let (t, a) = s.stepped(g(invr_awaits(s)));
            &&& a matches InvrAction::NeedEval(x) ==> looks(t, g) && x == invr_awaits(t)
            &&& a matches InvrAction::Converged(x) ==> settled(
                s.cfg.small,
                s.cfg.big,
                s.cfg.abs_tol,
                s.cfg.rel_tol,
                g,
                x,
            )
            &&& t.cfg == s.cfg
        }),
{
    match s.stage {
        InvrStage::InZror(z) => {
            lemma_zror_step_holds(s.cfg, z, g);
        },
        InvrStage::AwaitInitial => {
            assert(!g(s.xsave).is_nan());
        },
        InvrStage::AwaitUpper => {
            assert(!g(s.xub).is_nan() && !g(s.xlb).is_nan());
        },
        InvrStage::AwaitLower => {
            assert(!g(s.xub).is_nan() && !g(s.xlb).is_nan());
        },
        _ => {},
    }
}

/// What a run of the search reports lies in its range.
pub proof fn lemma_run_answers(s: InvrState, fx: F64, g: spec_fn(F64) -> F64, n: nat)
    requires
        contained(s),
    ensures
        invr_run(s, fx, g, n) matches Some(InvrAction::Converged(x)) ==> in_range(s.cfg, x),
    decreases n,
{
    law_search_stays_in_range(s, fx);
    law_config_stays(s, fx);
    match s.stepped(fx).1 {
        InvrAction::NeedEval(x) => {
            if n > 0 {
                lemma_run_answers(s.stepped(fx).0, g(x), g, (n - 1) as nat);
            }
        },
        _ => {},
    }
}

/// A search keeps its range, its steps and its tolerances.
pub proof fn law_config_stays(s: InvrState, fx: F64)
    ensures
        s.stepped(fx).0.cfg == s.cfg,
{
}

/// What a run of the search reports is a zero, or close to a change of sign.
pub proof fn lemma_run_settles(s: InvrState, g: spec_fn(F64) -> F64, n: nat)
    requires
        contained(s),
        defined_on(s.cfg.small, s.cfg.big, g),
        looks(s, g),
    ensures
        invr_run(s, g(invr_awaits(s)), g, n) matches Some(InvrAction::Converged(x)) ==> settled(
            s.cfg.small,
            s.cfg.big,
            s.cfg.abs_tol,
            s.cfg.rel_tol,
            g,
            x,
        ),
    decreases n,
{
    let fx = g(invr_awaits(s));
    law_search_stays_in_range(s, fx);
    lemma_invr_step_looks(s, g);
    match s.stepped(fx).1 {
        InvrAction::NeedEval(x) => {
            if n > 0 {
                lemma_run_settles(s.stepped(fx).0, g, (n - 1) as nat);
            }
        },
        _ => {},
    }
}

/// The search asks for more values of the function than it may have.
pub open spec fn used_up(small: F64, big: F64, start: F64, abs_tol: F64, g: spec_fn(F64) -> F64) -> bool {
    let hi = big.min(lit(SEARCH_BOUND));
    let lo = small.max(lit(SEARCH_BOUND).negated());
    invr_run(InvrState::new(invr_config(lo, hi, abs_tol), start), lit(ZERO), g, PATIENCE as nat) is None
}

/// The refinement asks for more values of the function than it may have.
pub open spec fn bounded_used_up(
    xlo: F64,
    xhi: F64,
    abs_tol: F64,
    rel_tol: F64,
    g: spec_fn(F64) -> F64,
) -> bool {
    zror_run(
        ZrorState::new(ZrorConfig { xlo, xhi, abstol: abs_tol, reltol: rel_tol }),
        lit(ZERO),
        g,
        PATIENCE as nat,
    ) is None
}

/// A search gives a NaN only where it has used up its evaluations.
pub proof fn law_answer_is_a_number(
    small: F64,
    big: F64,
    start: F64,
    qleft_bound: F64,
    qhi_bound: F64,
    abs_tol: F64,
    g: spec_fn(F64) -> F64,
)
    requires
        !small.is_nan(),
        !big.is_nan(),
        abs_tol.is_finite() && nonnegative(abs_tol),
    ensures
        search_monotone_with_atol_spec(small, big, start, qleft_bound, qhi_bound, abs_tol, g) matches Ok(x)
            ==> (x.is_nan() <==> used_up(small, big, start, abs_tol, g)),
{
    let hi = big.min(lit(SEARCH_BOUND));
    let lo = small.max(lit(SEARCH_BOUND).negated());
    if lo.le(start) && start.le(hi) {
        law_every_search_is_contained(small, big, start, abs_tol);
        let s = InvrState::new(invr_config(lo, hi, abs_tol), start);
        lemma_run_answers(s, lit(ZERO), g, PATIENCE as nat);
        lemma_run_ends(s, lit(ZERO), g, PATIENCE as nat);
    }
}

pub proof fn lemma_run_ends(s: InvrState, fx: F64, g: spec_fn(F64) -> F64, n: nat)
    ensures
        !(invr_run(s, fx, g, n) matches Some(InvrAction::NeedEval(_))),
    decreases n,
{
    match s.stepped(fx).1 {
        InvrAction::NeedEval(x) => {
            if n > 0 {
                lemma_run_ends(s.stepped(fx).0, g(x), g, (n - 1) as nat);
            }
        },
        _ => {},
    }
}

proof fn lemma_refinement_ends(z: ZrorState, fx: F64, g: spec_fn(F64) -> F64, n: nat)
    ensures
        !(zror_run(z, fx, g, n) matches Some(ZrorAction::NeedEval(_))),
    decreases n,
{
    match z.stepped(fx).1 {
        ZrorAction::NeedEval(x) => {
            if n > 0 {
                lemma_refinement_ends(z.stepped(fx).0, g(x), g, (n - 1) as nat);
            }
        },
        _ => {},
    }
}

/// A bounded search gives a NaN only where it has used up its evaluations.
pub proof fn law_bounded_answer_is_a_number(
    xlo: F64,
    xhi: F64,
    abs_tol: F64,
    rel_tol: F64,
    g: spec_fn(F64) -> F64,
)
    requires
        tame(xlo) && tame(xhi) && xlo.le(xhi),
        abs_tol.is_finite() && nonnegative(abs_tol),
        rel_tol.is_finite() && nonnegative(rel_tol),
    ensures
        search_bounded_zero_with_tol_spec(xlo, xhi, abs_tol, rel_tol, g) matches Ok(x) ==> (x.is_nan()
            <==> bounded_used_up(xlo, xhi, abs_tol, rel_tol, g)),
{
    let c = invr_config(xlo, xhi, abs_tol);
    let z = ZrorState::new(ZrorConfig { xlo, xhi, abstol: abs_tol, reltol: rel_tol });
    lemma_bounded_points(c, z, lit(ZERO), g, PATIENCE as nat);
    lemma_refinement_ends(z, lit(ZERO), g, PATIENCE as nat);
}

/// An answer of a search lies in its range. (The NaN stands for a search that has not
/// ended within its evaluations.)
pub proof fn law_answer_in_range(
    small: F64,
    big: F64,
    start: F64,
    qleft_bound: F64,
    qhi_bound: F64,
    abs_tol: F64,
    g: spec_fn(F64) -> F64,
)
    requires
        !small.is_nan(),
        !big.is_nan(),
        abs_tol.is_finite() && nonnegative(abs_tol),
    ensures
        search_monotone_with_atol_spec(small, big, start, qleft_bound, qhi_bound, abs_tol, g) matches Ok(x)
            ==> x.is_nan() || (small.max(lit(SEARCH_BOUND).negated()).le(x) && x.le(big.min(lit(SEARCH_BOUND)))),
{
    let hi = big.min(lit(SEARCH_BOUND));
    let lo = small.max(lit(SEARCH_BOUND).negated());
    if lo.le(start) && start.le(hi) {
        law_every_search_is_contained(small, big, start, abs_tol);
        lemma_run_answers(InvrState::new(invr_config(lo, hi, abs_tol), start), lit(ZERO), g, PATIENCE as nat);
    }
}

/// An answer of a search is a zero of the function, or within the tolerance of a point
/// on the other side of zero.
pub proof fn law_answer_is_a_zero(
    small: F64,
    big: F64,
    start: F64,
    qleft_bound: F64,
    qhi_bound: F64,
    abs_tol: F64,
    g: spec_fn(F64) -> F64,
)
    requires
        !small.is_nan(),
        !big.is_nan(),
        abs_tol.is_finite() && nonnegative(abs_tol),
        defined_on(small.max(lit(SEARCH_BOUND).negated()), big.min(lit(SEARCH_BOUND)), g),
    ensures
        search_monotone_with_atol_spec(small, big, start, qleft_bound, qhi_bound, abs_tol, g) matches Ok(x)
            ==> x.is_nan() || settled(
            small.max(lit(SEARCH_BOUND).negated()),
            big.min(lit(SEARCH_BOUND)),
            abs_tol,
            lit(REL_TOL),
            g,
            x,
        ),
{
    let hi = big.min(lit(SEARCH_BOUND));
    let lo = small.max(lit(SEARCH_BOUND).negated());
    if lo.le(start) && start.le(hi) {
        law_every_search_is_contained(small, big, start, abs_tol);
        let s = InvrState::new(invr_config(lo, hi, abs_tol), start);
        let n = PATIENCE as nat;
        let t = s.stepped(lit(ZERO)).0;
        law_search_stays_in_range(s, lit(ZERO));
        assert(invr_run(s, lit(ZERO), g, n) == invr_run(t, g(lo), g, (n - 1) as nat));
        lemma_run_settles(t, g, (n - 1) as nat);
    }
}

/// The function takes the same value at numbers that are equal: at both zeros.
pub open spec fn even_at_zero(g: spec_fn(F64) -> F64) -> bool {
    forall|x: F64, y: F64| #![trigger g(x), g(y)] x.equals(y) ==> g(x) == g(y)
}

/// The search knows which way the function goes.
pub open spec fn aims(s: InvrState, g: spec_fn(F64) -> F64) -> bool {
    match s.stage {
        InvrStage::Start => true,
        InvrStage::AwaitFsmall => true,
        InvrStage::AwaitFbig => s.fsmall == g(s.cfg.small),
        _ => s.qincr == g(s.cfg.big).gt(g(s.cfg.small)),
    }
}

/// A run of the search between ends on both sides of zero does not fail.
pub proof fn lemma_run_succeeds(s: InvrState, g: spec_fn(F64) -> F64, n: nat)
    requires
        contained(s),
        defined_on(s.cfg.small, s.cfg.big, g),
        even_at_zero(g),
        straddle(g(s.cfg.small), g(s.cfg.big)),
        looks(s, g),
        aims(s, g),
    ensures
        !(invr_run(s, g(invr_awaits(s)), g, n) matches Some(InvrAction::Failed { .. })),
    decreases n,
{
    let fx = g(invr_awaits(s));
    law_search_stays_in_range(s, fx);
    lemma_invr_step_looks(s, g);
    match s.stage {
        InvrStage::InZror(z) => {
            lemma_zror_step_holds(s.cfg, z, g);
        },
        InvrStage::AwaitUpper => {
            if s.xub.ge(s.cfg.big) {
                assert(s.xub.equals(s.cfg.big));
                assert(g(s.xub) == g(s.cfg.big));
            }
        },
        InvrStage::AwaitLower => {
            if s.xlb.le(s.cfg.small) {
                assert(s.xlb.equals(s.cfg.small));
                assert(g(s.xlb) == g(s.cfg.small));
            }
        },
        _ => {},
    }
    match s.stepped(fx).1 {
        InvrAction::NeedEval(x) => {
            if n > 0 {
                lemma_run_succeeds(s.stepped(fx).0, g, (n - 1) as nat);
            }
        },
        _ => {},
    }
}

/// A search has an answer exactly where it starts in its range and the function is not
/// on the same side of zero at both ends.
pub proof fn law_search_succeeds(
    small: F64,
    big: F64,
    start: F64,
    qleft_bound: F64,
    qhi_bound: F64,
    abs_tol: F64,
    g: spec_fn(F64) -> F64,
)
    requires
        !small.is_nan(),
        !big.is_nan(),
        abs_tol.is_finite() && nonnegative(abs_tol),
        defined_on(small.max(lit(SEARCH_BOUND).negated()), big.min(lit(SEARCH_BOUND)), g),
        even_at_zero(g),
    ensures
        ({
            let hi = big.min(lit(SEARCH_BOUND));
            let lo = small.max(lit(SEARCH_BOUND).negated());
            search_monotone_with_atol_spec(small, big, start, qleft_bound, qhi_bound, abs_tol, g) is Ok <==> lo.le(
                start,
            ) && start.le(hi) && straddle(g(lo), g(hi))
        }),
{
    let hi = big.min(lit(SEARCH_BOUND));
    let lo = small.max(lit(SEARCH_BOUND).negated());
    if lo.le(start) && start.le(hi) {
        law_every_search_is_contained(small, big, start, abs_tol);
        let s = InvrState::new(invr_config(lo, hi, abs_tol), start);
        let n = PATIENCE as nat;
        let t = s.stepped(lit(ZERO)).0;
        law_search_stays_in_range(s, lit(ZERO));
        assert(invr_run(s, lit(ZERO), g, n) == invr_run(t, g(lo), g, (n - 1) as nat));
        assert(in_range(t.cfg, lo) && in_range(t.cfg, hi));
        assert(!g(lo).is_nan() && !g(hi).is_nan());
        if straddle(g(lo), g(hi)) {
            lemma_run_succeeds(t, g, (n - 1) as nat);
        } else {
            law_ends_decide(small, big, start, qleft_bound, qhi_bound, abs_tol, g);
        }
    }
}

proof fn lemma_bounded_run(c: InvrConfig, z: ZrorState, g: spec_fn(F64) -> F64, n: nat)
    requires
        tame_range(c),
        enclosed(c, z),
        defined_on(c.small, c.big, g),
        holds(z, g),
        !(z.stage is Start),
    ensures
        zror_run(z, g(zror_awaits(z)), g, n) matches Some(ZrorAction::Converged { x, xlo, xhi }) ==> settled(
            c.small,
            c.big,
            z.cfg.abstol,
            z.cfg.reltol,
            g,
            x,
        ),
        zror_run(z, g(zror_awaits(z)), g, n) matches Some(ZrorAction::Failed { xlo, qleft, qhi }) ==> in_range(
            c,
            xlo,
        ) && tiny(g(xlo)),
    decreases n,
{
    let fx = g(zror_awaits(z));
    law_refinement_stays_in_range(c, z, fx);
    lemma_zror_step_holds(c, z, g);
    match z.stepped(fx).1 {
        ZrorAction::NeedEval(x) => {
            if n > 0 {
                lemma_bounded_run(c, z.stepped(fx).0, g, (n - 1) as nat);
            }
        },
        _ => {},
    }
}

proof fn lemma_bounded_points(c: InvrConfig, z: ZrorState, fx: F64, g: spec_fn(F64) -> F64, n: nat)
    requires
        tame_range(c),
        enclosed(c, z),
        z.stage is Start || in_range(c, z.x),
    ensures
        zror_run(z, fx, g, n) matches Some(ZrorAction::Converged { x, xlo, xhi }) ==> in_range(c, x),
    decreases n,
{
    law_refinement_stays_in_range(c, z, fx);
    law_converged_point_is_the_last(z, fx);
    match z.stepped(fx).1 {
        ZrorAction::NeedEval(x) => {
            if n > 0 {
                lemma_bounded_points(c, z.stepped(fx).0, g(x), g, (n - 1) as nat);
            }
        },
        _ => {},
    }
}

/// An answer of a bounded search lies between its ends. (The NaN stands for a search that
/// has not ended within its evaluations.)
pub proof fn law_bounded_answer_in_range(
    xlo: F64,
    xhi: F64,
    abs_tol: F64,
    rel_tol: F64,
    g: spec_fn(F64) -> F64,
)
    requires
        tame(xlo) && tame(xhi) && xlo.le(xhi),
        abs_tol.is_finite() && nonnegative(abs_tol),
        rel_tol.is_finite() && nonnegative(rel_tol),
    ensures
        search_bounded_zero_with_tol_spec(xlo, xhi, abs_tol, rel_tol, g) matches Ok(x) ==> x.is_nan() || (xlo.le(
            x,
        ) && x.le(xhi)),
{
    let c = invr_config(xlo, xhi, abs_tol);
    let z = ZrorState::new(ZrorConfig { xlo, xhi, abstol: abs_tol, reltol: rel_tol });
    lemma_bounded_points(c, z, lit(ZERO), g, PATIENCE as nat);
}

/// An answer of a bounded search is a zero of the function, or within the tolerance of a
/// point on the other side of zero. There is none between ends on the same side of zero;
/// between ends on both sides there is one, unless the function comes so close to zero
/// somewhere that products of its values vanish.
pub proof fn law_bounded_answer_is_a_zero(
    xlo: F64,
    xhi: F64,
    abs_tol: F64,
    rel_tol: F64,
    g: spec_fn(F64) -> F64,
)
    requires
        tame(xlo) && tame(xhi) && xlo.le(xhi),
        abs_tol.is_finite() && nonnegative(abs_tol),
        rel_tol.is_finite() && nonnegative(rel_tol),
        defined_on(xlo, xhi, g),
    ensures
        search_bounded_zero_with_tol_spec(xlo, xhi, abs_tol, rel_tol, g) matches Ok(x) ==> x.is_nan() || settled(
            xlo,
            xhi,
            abs_tol,
            rel_tol,
            g,
            x,
        ),
        search_bounded_zero_with_tol_spec(xlo, xhi, abs_tol, rel_tol, g) is Ok ==> straddle(g(xlo), g(xhi)),
        straddle(g(xlo), g(xhi)) ==> search_bounded_zero_with_tol_spec(xlo, xhi, abs_tol, rel_tol, g) is Ok || exists|
            y: F64,
        |
            xlo.le(y) && y.le(xhi) && tiny(#[trigger] g(y)),
{
    let c = invr_config(xlo, xhi, abs_tol);
    let z = ZrorState::new(ZrorConfig { xlo, xhi, abstol: abs_tol, reltol: rel_tol });
    let n = PATIENCE as nat;
    let z1 = z.stepped(lit(ZERO)).0;
    let z2 = z1.stepped(g(xlo)).0;
    assert(zror_run(z, lit(ZERO), g, n) == zror_run(z1, g(xlo), g, (n - 1) as nat));
    assert(zror_run(z1, g(xlo), g, (n - 1) as nat) == zror_run(z2, g(xhi), g, (n - 2) as nat));
    assert(!g(xlo).is_nan() && !g(xhi).is_nan());
    law_refinement_stays_in_range(c, z, lit(ZERO));
    law_refinement_stays_in_range(c, z1, g(xlo));
    if straddle(g(xlo), g(xhi)) {
        lemma_bounded_run(c, z2, g, (n - 2) as nat);
    }
}

} // verus!
