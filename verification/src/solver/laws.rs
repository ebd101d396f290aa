//! Laws of the solvers.
use crate::float::number::{lemma_le_units, lemma_lt_units};
use super::bracket::{clamp, BracketStrategy};
use super::bracket_laws::numbered;
use super::monotone::{
    below, expand_down_spec, expand_up_spec, refine_spec, solve_monotone_spec, Bracket, Refinement, MAX_ITER,
};
use crate::error::SolverError;
use crate::float::laws::{law_nan_propagates, law_negation, law_sum_is_nearest};
use crate::float::number::{NAN, ONE, ZERO};
use crate::float::{lit, F64};
use crate::search::answer_laws::straddle;
use vstd::prelude::*;

verus! {

/// The lower end lies below the zero and the upper end does not, by the values there.
pub open spec fn brackets(g: spec_fn(F64) -> F64, rising: bool, k: Bracket) -> bool {
    &&& k.flo == g(k.xlo)
    &&& k.fhi == g(k.xhi)
    &&& below(rising, k.flo)
    &&& !below(rising, k.fhi)
}

/// Where an expansion upwards ends with a bracket, its values enclose a zero; where it
/// runs into the upper end, the function is still short of zero there.
pub proof fn law_expansion_up_brackets(
    g: spec_fn(F64) -> F64,
    rising: bool,
    big: F64,
    xlo: F64,
    x: F64,
    step: F64,
    iter: u32,
)
    requires
        below(rising, g(xlo)),
    ensures
        expand_up_spec(g, rising, big, xlo, g(xlo), x, step, iter) matches Ok(k) ==> brackets(g, rising, k),
        expand_up_spec(g, rising, big, xlo, g(xlo), x, step, iter) matches Err(
            SolverError::AnswerAboveUpperBound { bound },
        ) ==> bound == big && below(rising, g(big)),
    decreases MAX_ITER - iter,
{
    if iter < MAX_ITER && !x.ge(big) && below(rising, g(x)) {
        law_expansion_up_brackets(
            g,
            rising,
            big,
            x,
            x + step * lit(super::monotone::TWO),
            step * lit(super::monotone::TWO),
            (iter + 1) as u32,
        );
    }
}

/// Where an expansion downwards ends with a bracket, its values enclose a zero; where it
/// runs into the lower end, the function is already past zero there.
pub proof fn law_expansion_down_brackets(
    g: spec_fn(F64) -> F64,
    rising: bool,
    small: F64,
    xhi: F64,
    x: F64,
    step: F64,
    iter: u32,
)
    requires
        !below(rising, g(xhi)),
    ensures
        expand_down_spec(g, rising, small, xhi, g(xhi), x, step, iter) matches Ok(k) ==> brackets(g, rising, k),
        expand_down_spec(g, rising, small, xhi, g(xhi), x, step, iter) matches Err(
            SolverError::AnswerBelowLowerBound { bound },
        ) ==> bound == small && !below(rising, g(small)),
    decreases MAX_ITER - iter,
{
    if iter < MAX_ITER && !x.le(small) && !below(rising, g(x)) {
        law_expansion_down_brackets(
            g,
            rising,
            small,
            x,
            x - step * lit(super::monotone::TWO),
            step * lit(super::monotone::TWO),
            (iter + 1) as u32,
        );
    }
}

/// A starting point that is a zero is the answer.
pub proof fn law_zero_at_start(strategy: BracketStrategy, g: spec_fn(F64) -> F64)
    requires
        g(strategy.parts().2).equals(lit(ZERO)),
    ensures
        solve_monotone_spec(strategy, g) == Ok::<F64, SolverError>(strategy.parts().2),
{
}

/// No number has a NaN for its value.
pub open spec fn defined(g: spec_fn(F64) -> F64) -> bool {
    forall|x: F64| !x.is_nan() ==> !(#[trigger] g(x)).is_nan()
}

/// A number, or the one NaN that the arithmetic gives.
pub open spec fn canonical(x: F64) -> bool {
    x.is_nan() ==> x == lit(NAN)
}

/// Half of the width at which a refinement ends at `x`.
pub open spec fn tolerance(x: F64) -> F64 {
    lit(super::monotone::TWO) * lit(super::monotone::EPSILON) * x.abs() + lit(super::monotone::HALF) * lit(
        super::monotone::REL_TOL,
    )
}

/// The function is zero at `x`, or on the other side of zero at a point within the
/// tolerance of it.
pub open spec fn settled(g: spec_fn(F64) -> F64, x: F64) -> bool {
    ||| g(x).equals(lit(ZERO))
    ||| exists|c: F64|
        straddle(g(x), #[trigger] g(c)) && (lit(super::monotone::HALF) * (c - x)).abs().le(tolerance(x))
}

/// The values kept by a refinement are those of the function.
pub open spec fn remembers(s: Refinement, g: spec_fn(F64) -> F64) -> bool {
    s.fa == g(s.a) && s.fb == g(s.b) && s.fc == g(s.c)
}

/// The values lie strictly on both sides of zero.
pub open spec fn opposed(u: F64, v: F64) -> bool {
    ||| u.lt(lit(ZERO)) && v.gt(lit(ZERO))
    ||| u.gt(lit(ZERO)) && v.lt(lit(ZERO))
}

/// The refinement has a zero between its points, or it has left the numbers for good.
pub open spec fn encloses(s: Refinement, g: spec_fn(F64) -> F64) -> bool {
    &&& remembers(s, g)
    &&& {
        ||| s.a == s.c && straddle(s.fb, s.fc)
        ||| opposed(s.fa, s.fc) && !s.fb.is_nan()
        ||| s.b == lit(NAN) && s.fb.is_nan()
    }
}

proof fn lemma_sum_is_canonical(a: F64, b: F64)
    ensures
        canonical(a + b),
        canonical(a - b),
        a.is_nan() ==> a + b == lit(NAN) && b - a == lit(NAN),
{
    reveal(F64::spec_add);
    law_negation(b);
    law_negation(a);
    if a.is_finite() && b.is_finite() {
        law_sum_is_nearest(a, b);
        law_sum_is_nearest(a, b.negated());
    }
}

proof fn lemma_ordered_encloses(s: Refinement, g: spec_fn(F64) -> F64)
    requires
        encloses(s, g),
    ensures
        remembers(s.ordered(), g),
        s.b == lit(NAN) && s.fb.is_nan() ==> s.ordered() == s,
        !(s.b == lit(NAN) && s.fb.is_nan()) ==> straddle(s.ordered().fb, s.ordered().fc)
            && s.ordered().fb.abs().le(s.ordered().fc.abs()),
{
}

/// An answer of a refinement that has a zero between its points is a zero of the
/// function, or within the tolerance of a point on the other side of zero.
pub proof fn law_refinement_settles(g: spec_fn(F64) -> F64, s: Refinement, iter: u32)
    requires
        defined(g),
        encloses(s, g),
    ensures
        refine_spec(g, s, iter) matches Ok(x) ==> settled(g, x),
    decreases MAX_ITER - iter,
{
    if iter < MAX_ITER {
        let o = s.ordered();
        lemma_ordered_encloses(s, g);
        let tol = o.tol();
        let xm = lit(super::monotone::HALF) * (o.c - o.b);
        if s.b == lit(NAN) && s.fb.is_nan() {
            lemma_sum_is_canonical(o.b, o.c);
            law_nan_propagates(o.c - o.b, lit(super::monotone::HALF));
        }
        if !(xm.abs().le(tol) || o.fb.equals(lit(ZERO))) {
            let (d, e) = o.steps(xm, tol);
            let b = o.target(xm, tol, d);
            lemma_sum_is_canonical(o.b, d);
            lemma_sum_is_canonical(o.b, tol);
            lemma_sum_is_canonical(o.b, tol.negated());
            let t = Refinement { a: o.b, fa: o.fb, b, fb: g(b), d, e, ..o };
            assert(canonical(b));
            assert(encloses(t, g));
            law_refinement_settles(g, t, (iter + 1) as u32);
        } else if !o.fb.equals(lit(ZERO)) {
            assert(straddle(g(o.b), g(o.c)));
        }
    }
}

proof fn lemma_up_is_canonical(
    g: spec_fn(F64) -> F64,
    rising: bool,
    big: F64,
    xlo: F64,
    x: F64,
    step: F64,
    iter: u32,
)
    requires
        canonical(big),
        canonical(x),
    ensures
        expand_up_spec(g, rising, big, xlo, g(xlo), x, step, iter) matches Ok(k) ==> canonical(k.xhi),
    decreases MAX_ITER - iter,
{
    if iter < MAX_ITER && !x.ge(big) && below(rising, g(x)) {
        lemma_sum_is_canonical(x, step * lit(super::monotone::TWO));
        lemma_up_is_canonical(
            g,
            rising,
            big,
            x,
            x + step * lit(super::monotone::TWO),
            step * lit(super::monotone::TWO),
            (iter + 1) as u32,
        );
    }
}

proof fn lemma_down_is_canonical(
    g: spec_fn(F64) -> F64,
    rising: bool,
    small: F64,
    xhi: F64,
    x: F64,
    step: F64,
    iter: u32,
)
    requires
        canonical(xhi),
        canonical(x),
    ensures
        expand_down_spec(g, rising, small, xhi, g(xhi), x, step, iter) matches Ok(k) ==> canonical(k.xhi),
    decreases MAX_ITER - iter,
{
    if iter < MAX_ITER && !x.le(small) && !below(rising, g(x)) {
        lemma_sum_is_canonical(x, step * lit(super::monotone::TWO));
        lemma_down_is_canonical(
            g,
            rising,
            small,
            x,
            x - step * lit(super::monotone::TWO),
            step * lit(super::monotone::TWO),
            (iter + 1) as u32,
        );
    }
}

/// A solution is a zero of the function, or within the tolerance of a point on the other
/// side of zero.
pub proof fn law_solution_is_a_zero(strategy: BracketStrategy, g: spec_fn(F64) -> F64)
    requires
        numbered(strategy),
        defined(g),
    ensures
        solve_monotone_spec(strategy, g) matches Ok(x) ==> settled(g, x),
{
    let (small, big, start, rising) = strategy.parts();
    let step = start.abs().max(lit(ONE)).max(lit(ONE));
    if !g(start).equals(lit(ZERO)) {
        lemma_sum_is_canonical(start, step);
        let found = if below(rising, g(start)) {
            law_expansion_up_brackets(g, rising, big, start, start + step, step, 1);
            lemma_up_is_canonical(g, rising, big, start, start + step, step, 1);
            expand_up_spec(g, rising, big, start, g(start), start + step, step, 1)
        } else {
            law_expansion_down_brackets(g, rising, small, start, start - step, step, 1);
            lemma_down_is_canonical(g, rising, small, start, start - step, step, 1);
            expand_down_spec(g, rising, small, start, g(start), start - step, step, 1)
        };
        match found {
            Ok(k) => {
                let s = Refinement::of(k);
                assert(encloses(s, g));
                law_refinement_settles(g, s, k.iter);
            },
            Err(_) => {},
        }
    }
}

/// The starting point is held in a bracket that is not empty.
pub proof fn law_clamp(x: F64, lo: F64, hi: F64)
    requires
        lo.le(hi),
        !x.is_nan(),
    ensures
        lo.le(clamp(x, lo, hi)),
        clamp(x, lo, hi).le(hi),
        lo.le(x) && x.le(hi) ==> clamp(x, lo, hi) == x,
{
    broadcast use lemma_le_units;
    broadcast use lemma_lt_units;
}

} // verus!
