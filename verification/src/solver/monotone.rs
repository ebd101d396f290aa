//! Bracket expansion from the starting point, then inverse quadratic interpolation
//! safeguarded by bisection.
use super::bracket::BracketStrategy;
use crate::error::SolverError;
use crate::float::number::{ONE, ZERO};
use crate::float::{lit, F64};
use crate::functions::{agrees, total};
use vstd::prelude::*;

verus! {

/// How many evaluations one solution may take.
pub const MAX_ITER: u32 = 200;

/// The bits of 1e-13.
pub const REL_TOL: u64 = 0x3D3C_25C2_6849_7682;

/// The bits of 2^-52.
pub const EPSILON: u64 = 0x3CB0_0000_0000_0000;

/// The bits of one half.
pub const HALF: u64 = 0x3FE0_0000_0000_0000;

/// The bits of two.
pub const TWO: u64 = 0x4000_0000_0000_0000;

/// The bits of three.
pub const THREE: u64 = 0x4008_0000_0000_0000;

pub open spec fn below_spec(rising: bool, fx: F64) -> bool {
    if rising {
        fx.lt(lit(ZERO))
    } else {
        fx.gt(lit(ZERO))
    }
}

/// A point with this value lies below the zero.
#[verifier::when_used_as_spec(below_spec)]
pub fn below(rising: bool, fx: F64) -> (r: bool)
    ensures
        r == below(rising, fx),
{
    if rising {
        fx.lt(lit(ZERO))
    } else {
        fx.gt(lit(ZERO))
    }
}

/// Both ends of a bracket with the values there, and the evaluations made.
#[derive(Clone, Copy, Debug, PartialEq, Eq, Structural)]
pub struct Bracket {
    pub xlo: F64,
    pub flo: F64,
    pub xhi: F64,
    pub fhi: F64,
    pub iter: u32,
}

/// Steps up from `xlo`, twice as far each time, to a point that is not below the
/// zero.
pub open spec fn expand_up_spec(
    g: spec_fn(F64) -> F64,
    rising: bool,
    big: F64,
    xlo: F64,
    flo: F64,
    x: F64,
    step: F64,
    iter: u32,
) -> Result<Bracket, SolverError>
    decreases MAX_ITER - iter,
{
    if iter >= MAX_ITER {
        Err(SolverError::NotConverged { iterations: iter })
    } else {
        let next = (iter + 1) as u32;
        if x.ge(big) {
            if below(rising, g(big)) {
                Err(SolverError::AnswerAboveUpperBound { bound: big })
            } else {
                Ok(Bracket { xlo, flo, xhi: big, fhi: g(big), iter: next })
            }
        } else if !below(rising, g(x)) {
            Ok(Bracket { xlo, flo, xhi: x, fhi: g(x), iter: next })
        } else {
            expand_up_spec(g, rising, big, x, g(x), x + step * lit(TWO), step * lit(TWO), next)
        }
    }
}

/// Steps down from `xhi`, twice as far each time, to a point below the zero.
pub open spec fn expand_down_spec(
    g: spec_fn(F64) -> F64,
    rising: bool,
    small: F64,
    xhi: F64,
    fhi: F64,
    x: F64,
    step: F64,
    iter: u32,
) -> Result<Bracket, SolverError>
    decreases MAX_ITER - iter,
{
    if iter >= MAX_ITER {
        Err(SolverError::NotConverged { iterations: iter })
    } else {
        let next = (iter + 1) as u32;
        if x.le(small) {
            if !below(rising, g(small)) {
                Err(SolverError::AnswerBelowLowerBound { bound: small })
            } else {
                Ok(Bracket { xlo: small, flo: g(small), xhi, fhi, iter: next })
            }
        } else if below(rising, g(x)) {
            Ok(Bracket { xlo: x, flo: g(x), xhi, fhi, iter: next })
        } else {
            expand_down_spec(g, rising, small, x, g(x), x - step * lit(TWO), step * lit(TWO), next)
        }
    }
}

fn expand_up<F: Fn(F64) -> F64>(
    f: &F,
    rising: bool,
    big: F64,
    start: F64,
    f_start: F64,
    step0: F64,
) -> (r: Result<Bracket, SolverError>)
    requires
        total(f),
    ensures
        forall|g: spec_fn(F64) -> F64| #[trigger]
            agrees(f, g) ==> r == expand_up_spec(g, rising, big, start, f_start, start + step0, step0, 1),
        r matches Ok(k) ==> k.iter <= MAX_ITER,
{
    let mut xlo = start;
    let mut flo = f_start;
    let mut step = step0;
    let mut x = start + step;
    let mut iter: u32 = 1;
    while iter < MAX_ITER
        invariant
            total(f),
            iter <= MAX_ITER,
            forall|g: spec_fn(F64) -> F64| #[trigger]
                agrees(f, g) ==> expand_up_spec(g, rising, big, start, f_start, start + step0, step0, 1)
                    == expand_up_spec(g, rising, big, xlo, flo, x, step, iter),
        decreases MAX_ITER - iter,
    {
        if x.ge(big) {
            let fx = f(big);
            if below(rising, fx) {
                return Err(SolverError::AnswerAboveUpperBound { bound: big });
            }
            return Ok(Bracket { xlo, flo, xhi: big, fhi: fx, iter: iter + 1 });
        }
        let fx = f(x);
        if !below(rising, fx) {
            return Ok(Bracket { xlo, flo, xhi: x, fhi: fx, iter: iter + 1 });
        }
        iter = iter + 1;
        xlo = x;
        flo = fx;
        step = step * lit(TWO);
        x = x + step;
    }
    Err(SolverError::NotConverged { iterations: iter })
}

fn expand_down<F: Fn(F64) -> F64>(
    f: &F,
    rising: bool,
    small: F64,
    start: F64,
    f_start: F64,
    step0: F64,
) -> (r: Result<Bracket, SolverError>)
    requires
        total(f),
    ensures
        forall|g: spec_fn(F64) -> F64| #[trigger]
            agrees(f, g) ==> r == expand_down_spec(g, rising, small, start, f_start, start - step0, step0, 1),
        r matches Ok(k) ==> k.iter <= MAX_ITER,
{
    let mut xhi = start;
    let mut fhi = f_start;
    let mut step = step0;
    let mut x = start - step;
    let mut iter: u32 = 1;
    while iter < MAX_ITER
        invariant
            total(f),
            iter <= MAX_ITER,
            forall|g: spec_fn(F64) -> F64| #[trigger]
                agrees(f, g) ==> expand_down_spec(g, rising, small, start, f_start, start - step0, step0, 1)
                    == expand_down_spec(g, rising, small, xhi, fhi, x, step, iter),
        decreases MAX_ITER - iter,
    {
        if x.le(small) {
            let fx = f(small);
            if !below(rising, fx) {
                return Err(SolverError::AnswerBelowLowerBound { bound: small });
            }
            return Ok(Bracket { xlo: small, flo: fx, xhi, fhi, iter: iter + 1 });
        }
        let fx = f(x);
        if below(rising, fx) {
            return Ok(Bracket { xlo: x, flo: fx, xhi, fhi, iter: iter + 1 });
        }
        iter = iter + 1;
        xhi = x;
        fhi = fx;
        step = step * lit(TWO);
        x = x - step;
    }
    Err(SolverError::NotConverged { iterations: iter })
}

/// The refinement: `b` is the best point, `a` the one before it, `c` the other end of
/// the bracket, `d` and `e` the last two steps.
#[derive(Clone, Copy, Debug, PartialEq, Eq, Structural)]
pub struct Refinement {
    pub a: F64,
    pub b: F64,
    pub c: F64,
    pub fa: F64,
    pub fb: F64,
    pub fc: F64,
    pub d: F64,
    pub e: F64,
}

impl Refinement {
    /// The bracket as it was found.
    pub open spec fn of(k: Bracket) -> Refinement {
        Refinement {
            a: k.xlo,
            b: k.xhi,
            c: k.xlo,
            fa: k.flo,
            fb: k.fhi,
            fc: k.flo,
            d: k.xhi - k.xlo,
            e: k.xhi - k.xlo,
        }
    }

    /// Brings the ends in order: `b` and `c` on either side of the zero, and `b` the
    /// better one.
    pub open spec fn ordered_spec(self) -> Refinement {
        let s = if self.fb.signum().equals(self.fc.signum()) {
            Refinement { c: self.a, fc: self.fa, d: self.b - self.a, e: self.b - self.a, ..self }
        } else {
            self
        };
        if s.fc.abs().lt(s.fb.abs()) {
            Refinement { a: s.b, b: s.c, c: s.b, fa: s.fb, fb: s.fc, fc: s.fb, ..s }
        } else {
            s
        }
    }

    #[verifier::when_used_as_spec(ordered_spec)]
    pub fn ordered(self) -> (r: Refinement)
        ensures
            r == self.ordered(),
    {
        let s = if self.fb.signum().equals(self.fc.signum()) {
            Refinement { c: self.a, fc: self.fa, d: self.b - self.a, e: self.b - self.a, ..self }
        } else {
            self
        };
        if s.fc.abs().lt(s.fb.abs()) {
            Refinement { a: s.b, b: s.c, c: s.b, fa: s.fb, fb: s.fc, fc: s.fb, ..s }
        } else {
            s
        }
    }

    pub open spec fn tol_spec(self) -> F64 {
        lit(TWO) * lit(EPSILON) * self.b.abs() + lit(HALF) * lit(REL_TOL)
    }

    /// Half of the width at which the refinement ends.
    #[verifier::when_used_as_spec(tol_spec)]
    pub fn tol(self) -> (r: F64)
        ensures
            r == self.tol(),
    {
        lit(TWO) * lit(EPSILON) * self.b.abs() + lit(HALF) * lit(REL_TOL)
    }

    pub open spec fn interpolated_spec(self, xm: F64) -> (F64, F64) {
        let s = self.fb / self.fa;
        let (p, q) = if self.a.equals(self.c) {
            (lit(TWO) * xm * s, lit(ONE) - s)
        } else {
            let qa = self.fa / self.fc;
            let r = self.fb / self.fc;
            (
                s * (lit(TWO) * xm * qa * (qa - r) - (self.b - self.a) * (r - lit(ONE))),
                (qa - lit(ONE)) * (r - lit(ONE)) * (s - lit(ONE)),
            )
        };
        if p.gt(lit(ZERO)) {
            (p, q.negated())
        } else {
            (p.negated(), q)
        }
    }

    /// Numerator and denominator of the interpolated step.
    #[verifier::when_used_as_spec(interpolated_spec)]
    pub fn interpolated(self, xm: F64) -> (r: (F64, F64))
        ensures
            r == self.interpolated(xm),
    {
        let s = self.fb / self.fa;
        let (p, q) = if self.a.equals(self.c) {
            (lit(TWO) * xm * s, lit(ONE) - s)
        } else {
            let qa = self.fa / self.fc;
            let r = self.fb / self.fc;
            (
                s * (lit(TWO) * xm * qa * (qa - r) - (self.b - self.a) * (r - lit(ONE))),
                (qa - lit(ONE)) * (r - lit(ONE)) * (s - lit(ONE)),
            )
        };
        if p.gt(lit(ZERO)) {
            (p, q.negated())
        } else {
            (p.negated(), q)
        }
    }

    pub open spec fn steps_spec(self, xm: F64, tol: F64) -> (F64, F64) {
        if self.e.abs().ge(tol) && self.fa.abs().gt(self.fb.abs()) {
            let (p, q) = self.interpolated(xm);
            if (lit(TWO) * p).lt(
                (lit(THREE) * xm * q - (tol * q).abs()).min((self.e * q).abs()),
            ) {
                (p / q, self.d)
            } else {
                (xm, xm)
            }
        } else {
            (xm, xm)
        }
    }

    /// The next step and the one to measure the following one by.
    #[verifier::when_used_as_spec(steps_spec)]
    pub fn steps(self, xm: F64, tol: F64) -> (r: (F64, F64))
        ensures
            r == self.steps(xm, tol),
    {
        if self.e.abs().ge(tol) && self.fa.abs().gt(self.fb.abs()) {
            let (p, q) = self.interpolated(xm);
            if (lit(TWO) * p).lt(
                (lit(THREE) * xm * q - (tol * q).abs()).min((self.e * q).abs()),
            ) {
                (p / q, self.d)
            } else {
                (xm, xm)
            }
        } else {
            (xm, xm)
        }
    }

    pub open spec fn target_spec(self, xm: F64, tol: F64, d: F64) -> F64 {
        if d.abs().gt(tol) {
            self.b + d
        } else {
            self.b + (if xm.ge(lit(ZERO)) {
                tol
            } else {
                tol.negated()
            })
        }
    }

    /// The point to evaluate next.
    #[verifier::when_used_as_spec(target_spec)]
    pub fn target(self, xm: F64, tol: F64, d: F64) -> (r: F64)
        ensures
            r == self.target(xm, tol, d),
    {
        if d.abs().gt(tol) {
            self.b + d
        } else {
            self.b + (if xm.ge(lit(ZERO)) {
                tol
            } else {
                tol.negated()
            })
        }
    }
}

/// Refines until the bracket is narrow enough or a zero is met.
pub open spec fn refine_spec(g: spec_fn(F64) -> F64, s0: Refinement, iter: u32) -> Result<F64, SolverError>
    decreases MAX_ITER - iter,
{
    if iter >= MAX_ITER {
        Err(SolverError::NotConverged { iterations: iter })
    } else {
        let s = s0.ordered();
        let tol = s.tol();
        let xm = lit(HALF) * (s.c - s.b);
        if xm.abs().le(tol) || s.fb.equals(lit(ZERO)) {
            Ok(s.b)
        } else {
            let (d, e) = s.steps(xm, tol);
            let b = s.target(xm, tol, d);
            refine_spec(
                g,
                Refinement { a: s.b, fa: s.fb, b, fb: g(b), d, e, ..s },
                (iter + 1) as u32,
            )
        }
    }
}

fn refine<F: Fn(F64) -> F64>(f: &F, s0: Refinement, iter0: u32) -> (r: Result<F64, SolverError>)
    requires
        total(f),
        iter0 <= MAX_ITER,
    ensures
        forall|g: spec_fn(F64) -> F64| #[trigger] agrees(f, g) ==> r == refine_spec(g, s0, iter0),
{
    let mut cur = s0;
    let mut iter: u32 = iter0;
    while iter < MAX_ITER
        invariant
            total(f),
            iter <= MAX_ITER,
            forall|g: spec_fn(F64) -> F64| #[trigger]
                agrees(f, g) ==> refine_spec(g, s0, iter0) == refine_spec(g, cur, iter),
        decreases MAX_ITER - iter,
    {
        let s = cur.ordered();
        let tol = s.tol();
        let xm = lit(HALF) * (s.c - s.b);
        if xm.abs().le(tol) || s.fb.equals(lit(ZERO)) {
            return Ok(s.b);
        }
        let (d, e) = s.steps(xm, tol);
        let b = s.target(xm, tol, d);
        let fb = f(b);
        iter = iter + 1;
        cur = Refinement { a: s.b, fa: s.fb, b, fb, d, e, ..s };
    }
    Err(SolverError::NotConverged { iterations: iter })
}

/// The zero of `g`: expands from the starting point, then refines.
pub open spec fn solve_monotone_spec(strategy: BracketStrategy, g: spec_fn(F64) -> F64) -> Result<
    F64,
    SolverError,
> {
    let (small, big, start, rising) = strategy.parts();
    let step = start.abs().max(lit(ONE)).max(lit(ONE));
    if g(start).equals(lit(ZERO)) {
        Ok(start)
    } else {
        match if below(rising, g(start)) {
            expand_up_spec(g, rising, big, start, g(start), start + step, step, 1)
        } else {
            expand_down_spec(g, rising, small, start, g(start), start - step, step, 1)
        } {
            Err(e) => Err(e),
            Ok(k) => refine_spec(g, Refinement::of(k), k.iter),
        }
    }
}

/// Solves `f(x) = 0` for a monotone function.
pub fn solve_monotone<F: Fn(F64) -> F64>(strategy: BracketStrategy, f: &F) -> (r: Result<F64, SolverError>)
    requires
        total(f),
    ensures
        forall|g: spec_fn(F64) -> F64| #[trigger]
            agrees(f, g) ==> r == solve_monotone_spec(strategy, g),
{
    let (small, big, start, rising) = strategy.parts();
    let f_start = f(start);
    if f_start.equals(lit(ZERO)) {
        return Ok(start);
    }
    let step = start.abs().max(lit(ONE)).max(lit(ONE));
    let found = if below(rising, f_start) {
        expand_up(f, rising, big, start, f_start, step)
    } else {
        expand_down(f, rising, small, start, f_start, step)
    };
    match found {
        Err(e) => Err(e),
        Ok(k) => {
            let d = k.xhi - k.xlo;
            let s = Refinement {
                a: k.xlo,
                b: k.xhi,
                c: k.xlo,
                fa: k.flo,
                fb: k.fhi,
                fc: k.flo,
                d,
                e: d,
            };
            refine(f, s, k.iter)
        },
    }
}

} // verus!
