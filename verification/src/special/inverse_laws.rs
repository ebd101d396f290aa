//! What the inverse of the incomplete gamma function ratios is worth.
use crate::consts::{EPSILON, HALF, ONE, ZERO};
use crate::dist::gamma;
use crate::float::bounds::{lemma_literal, lemma_part, part};
use crate::float::laws::law_negation;
use crate::float::model::CELL;
use crate::float::number::{lemma_lt_units, lemma_order};
use crate::float::signed::{lemma_rounded, lemma_sum_units};
use crate::float::{lit, F64};
use crate::functions::Elementary;
use crate::special::gamma::rcomp;
use crate::special::gamma_inc::try_gamma_inc;
use crate::special::gamma_inv::{
    schroder, start_above_one, start_above_one_spec, start_below_one, start_below_one_spec,
    try_gamma_inc_inv, GammaIncInvError, InverseStart,
};
use crate::special::normal_laws::{lemma_grid, lemma_small_powers, lemma_unit};
use crate::special::poly::within;
use vstd::arithmetic::power2::{lemma_pow2_adds, pow2};
use vstd::prelude::*;

verus! {

/// The bits of 0.1.
pub const TENTH: u64 = 0x3FB9_9999_9999_999A;

/// The bits of 1e-10.
pub const FINE: u64 = 0x3DDB_7CDF_D9D7_BDBB;

/// The bits of 1e-5.
pub const COARSE: u64 = 0x3EE4_F8B5_88E3_68F1;

/// How far the ratio at `xn` is off the target, over the derivative of the ratio with
/// respect to the logarithm of the argument.
pub open spec fn relative_step<M: Fn(Elementary) -> F64>(
    m: &M,
    a: F64,
    use_q: bool,
    target: F64,
    xn: F64,
    ratios: (F64, F64),
) -> F64 {
    (if use_q {
        target - ratios.1
    } else {
        ratios.0 - target
    }) / rcomp(m, a, xn)
}

/// Half of the second-order factor at `xn`.
pub open spec fn curvature(a: F64, xn: F64) -> F64 {
    lit(HALF) * (a - lit(HALF) - lit(HALF) - xn)
}

/// The step and its second-order term are small.
pub open spec fn is_small(t: F64, w: F64) -> bool {
    t.abs().le(lit(TENTH)) && (w * t).abs().le(lit(TENTH))
}

/// The share of `xn` that one step takes off.
pub open spec fn share(t: F64, w: F64) -> F64 {
    if is_small(t, w) {
        t * (lit(ONE) + w * t)
    } else {
        t
    }
}

/// `x` is the step from `xn` with which the search ends: the ratios are known at `xn`, and
/// the second-order term is below 1e-10, or the step is at most 1e-10 of `xn`, or it is at
/// most 1e-5 of it and the ratio at `xn` is within 1e-5 of the target.
pub open spec fn ends_at<M: Fn(Elementary) -> F64>(
    m: &M,
    a: F64,
    use_q: bool,
    target: F64,
    xn: F64,
    x: F64,
) -> bool {
    match try_gamma_inc(m, a, xn) {
        Err(_) => false,
        Ok(ratios) => {
            let t = relative_step(m, a, use_q, target, xn, ratios);
            let w = curvature(a, xn);
            let h = share(t, w);
            let got = if use_q {
                ratios.1
            } else {
                ratios.0
            };
            &&& x == xn * (lit(ONE) - h)
            &&& !x.le(lit(ZERO))
            &&& !ratios.0.equals(lit(ZERO)) && !ratios.1.equals(lit(ZERO))
            &&& {
                ||| is_small(t, w) && w.abs().ge(lit(ONE)) && (w.abs() * t * t).le(lit(FINE))
                ||| h.abs().le(lit(COARSE)) && (h.abs().le(lit(FINE)) || (target - got).abs().le(
                    lit(COARSE) * target,
                ))
            }
        },
    }
}

/// The steps end as they say.
pub proof fn law_steps_end<M: Fn(Elementary) -> F64>(
    m: &M,
    a: F64,
    use_q: bool,
    target: F64,
    xn: F64,
    n: u64,
)
    requires
        n <= 20,
    ensures
        schroder(m, a, use_q, target, xn, n) matches Ok((x, k)) ==> {
            &&& 1 <= k <= 20
            &&& exists|y: F64| #[trigger] ends_at(m, a, use_q, target, y, x)
        },
    decreases n,
{
    if n > 0 {
        match try_gamma_inc(m, a, xn) {
            Err(_) => {},
            Ok(ratios) => {
                let t = relative_step(m, a, use_q, target, xn, ratios);
                let w = curvature(a, xn);
                let h = share(t, w);
                let x = xn * (lit(ONE) - h);
                if ends_at(m, a, use_q, target, xn, x) {
                    assert(schroder(m, a, use_q, target, xn, n) matches Ok((y, k)) ==> y == x && k == 21 - n);
                } else {
                    law_steps_end(m, a, use_q, target, x, (n - 1) as u64);
                    assert(schroder(m, a, use_q, target, xn, n) matches Ok(_) ==> schroder(
                        m,
                        a,
                        use_q,
                        target,
                        xn,
                        n,
                    ) == schroder(m, a, use_q, target, x, (n - 1) as u64));
                }
            },
        }
    }
}

/// The inverse undoes the ratios within its rule for stopping: a value that took steps
/// comes of the one that ends the search for the smaller ratio, or for the one that the
/// start chose. It took at most twenty of them. Steps that do not end are a failure of
/// convergence only for a starting point of the caller's.
pub proof fn law_inverse_ends<M: Fn(Elementary) -> F64>(m: &M, a: F64, x0: F64, p: F64, q: F64)
    ensures
        try_gamma_inc_inv(m, a, x0, p, q) matches Ok((x, k)) ==> {
            &&& k <= 20
            &&& k > 0 ==> {
                ||| exists|y: F64| #[trigger] ends_at(m, a, true, q, y, x)
                ||| exists|y: F64| #[trigger] ends_at(m, a, false, p, y, x)
            }
        },
        !x0.gt(lit(ZERO)) ==> !(try_gamma_inc_inv(m, a, x0, p, q) matches Err(
            GammaIncInvError::NotConverged { .. },
        )),
{
    let start = if x0.gt(lit(ZERO)) {
        InverseStart::Refine { xn: x0, use_q: p.gt(lit(HALF)) }
    } else if a.lt(lit(ONE)) {
        start_below_one(m, a, p, q)
    } else {
        start_above_one(m, a, p, q)
    };
    match start {
        InverseStart::Refine { xn, use_q } => {
            law_steps_end(m, a, true, q, xn, 20);
            law_steps_end(m, a, false, p, xn, 20);
        },
        _ => {},
    }
}

/// A probability and its complement add up to one within the tolerance of the inverse.
pub proof fn lemma_pair(p: F64)
    requires
        within(p, lit(ZERO), lit(ONE)),
    ensures
        !(p + (lit(ONE) - p) - lit(ONE)).abs().gt(lit(EPSILON)),
        !((lit(ONE) - p) + p - lit(ONE)).abs().gt(lit(EPSILON)),
{
    broadcast use lemma_lt_units;
    lemma_small_powers();
    lemma_unit(p);
    lemma_literal(ONE, 1022, 0x10_0000_0000_0000, 52, 1, 1, 0);
    lemma_literal(EPSILON, 970, 0x10_0000_0000_0000, 52, 1, 1, 52);
    lemma_part(1, 0);
    lemma_part(1, 52);
    lemma_part(1, 53);
    lemma_part(-1, 52);
    lemma_part(2 * CELL - 1, 53);
    lemma_part(CELL + 1, 52);
    lemma_pow2_adds(53, 1021);
    lemma_pow2_adds(52, 1022);
    lemma_pow2_adds(1, 1021);
    law_negation(p);
    let u = lit(ONE) - p;
    lemma_sum_units(lit(ONE), p.negated());
    lemma_grid(lit(ONE).units() - p.units());
    let n = p.units() + u.units();
    let g = pow2(1021) as int;
    let d = pow2(1074) as int;
    assert(d == (2 * CELL) * g && part(1, 53) == g && part(1, 52) == 2 * g);
    assert((2 * CELL - 1) * g == d - g) by (nonlinear_arith)
        requires d == (2 * CELL) * g;
    assert((CELL + 1) * pow2(1022) == d + 2 * g) by (nonlinear_arith)
        requires d == CELL * pow2(1022), pow2(1022) == 2 * g;
    assert(d - g <= n <= d + g);
    lemma_sum_units(p, u);
    lemma_sum_units(u, p);
    lemma_rounded(part(2 * CELL - 1, 53), n);
    lemma_rounded(n, part(CELL + 1, 52));
    lemma_rounded(part(CELL + 1, 52), 0);
    let s = p + u;
    law_negation(lit(ONE));
    lemma_sum_units(s, lit(ONE).negated());
    lemma_sum_units(u + p, lit(ONE).negated());
    let k = s.units() - d;
    assert(-g <= k <= 2 * g);
    assert((-1) * pow2(1022) == -(2 * g));
    lemma_rounded(part(-1, 52), k);
    lemma_rounded(k, part(1, 52));
    lemma_rounded(part(1, 52), 0);
    law_negation(s - lit(ONE));
    law_negation(u + p - lit(ONE));
    lemma_order((s - lit(ONE)).enc() as int, (u + p - lit(ONE)).enc() as int);
}

/// The pair that a rate is solved for is never refused for its sum once it is within the
/// tolerance on it.
pub proof fn law_rate_pair_is_consistent<M: Fn(Elementary) -> F64>(
    m: &M,
    p: F64,
    q: F64,
    x: F64,
    shape: F64,
)
    ensures
        gamma::solve_rate_spec(m, p, q, x, shape) != Err::<F64, gamma::GammaError>(
            gamma::GammaError::IncompleteGammaInverse(GammaIncInvError::InconsistentPq),
        ),
{
    if within(p, lit(ZERO), lit(ONE)) && within(q, lit(ZERO), lit(ONE)) {
        lemma_pair(p);
        lemma_pair(q);
        let (lower, upper) = gamma::complementary(p, q);
        assert(!(lower + upper - lit(ONE)).abs().gt(lit(EPSILON)));
        lemma_start_errors(m, shape, lower, upper);
    }
}

/// The first approximation does not find fault with the sum.
proof fn lemma_start_errors<M: Fn(Elementary) -> F64>(m: &M, a: F64, p: F64, q: F64)
    ensures
        !(start_below_one(m, a, p, q) matches InverseStart::Settled(
            Err(GammaIncInvError::InconsistentPq),
        )),
        !(start_above_one(m, a, p, q) matches InverseStart::Settled(
            Err(GammaIncInvError::InconsistentPq),
        )),
        forall|use_q: bool, target: F64, xn: F64|
            #![trigger schroder(m, a, use_q, target, xn, 20)]
            !(schroder(m, a, use_q, target, xn, 20) matches Err(GammaIncInvError::InconsistentPq)),
{
    reveal(start_below_one_spec);
    reveal(start_above_one_spec);
    assert forall|use_q: bool, target: F64, xn: F64|
        #![trigger schroder(m, a, use_q, target, xn, 20)]
        !(schroder(m, a, use_q, target, xn, 20) matches Err(GammaIncInvError::InconsistentPq)) by {
        lemma_steps_errors(m, a, use_q, target, xn, 20);
    }
}

proof fn lemma_steps_errors<M: Fn(Elementary) -> F64>(
    m: &M,
    a: F64,
    use_q: bool,
    target: F64,
    xn: F64,
    n: u64,
)
    ensures
        !(schroder(m, a, use_q, target, xn, n) matches Err(GammaIncInvError::InconsistentPq)),
    decreases n,
{
    if n > 0 {
        match try_gamma_inc(m, a, xn) {
            Err(_) => {},
            Ok(ratios) => {
                let h = share(
                    relative_step(m, a, use_q, target, xn, ratios),
                    curvature(a, xn),
                );
                lemma_steps_errors(m, a, use_q, target, xn * (lit(ONE) - h), (n - 1) as u64);
            },
        }
    }
}

} // verus!
