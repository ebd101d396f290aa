//! Refinement of a bracket to a zero, one evaluation at a time.
use crate::float::number::{ONE, ZERO};
use crate::float::{lit, F64};
use vstd::prelude::*;

verus! {

/// The bits of one half.
pub const HALF: u64 = 0x3FE0_0000_0000_0000;

/// The bits of two.
pub const TWO: u64 = 0x4000_0000_0000_0000;

/// The bracket and the tolerances.
#[derive(Clone, Copy, Debug, PartialEq, Eq, Structural)]
pub struct ZrorConfig {
    pub xlo: F64,
    pub xhi: F64,
    pub abstol: F64,
    pub reltol: F64,
}

/// What the next value handed in is the value of.
#[derive(Clone, Copy, Debug, PartialEq, Eq, Structural)]
pub enum ZrorStage {
    Start,
    AwaitFb,
    AwaitFa,
    AwaitFbStep,
}

/// What the machine asks for or reports.
#[derive(Clone, Copy, Debug, PartialEq, Eq, Structural)]
pub enum ZrorAction {
    /// Evaluate the function here and hand the value in.
    NeedEval(F64),
    /// A zero was enclosed: the last point evaluated, and both ends.
    Converged { x: F64, xlo: F64, xhi: F64 },
    /// No zero was enclosed.
    Failed { xlo: F64, qleft: bool, qhi: bool },
}

/// The machine. `b` is the best point so far, `a` the one before it, `d` the one
/// before that, and `c` the other end of the bracket.
#[derive(Clone, Copy, Debug, PartialEq, Eq, Structural)]
pub struct ZrorState {
    pub cfg: ZrorConfig,
    pub stage: ZrorStage,
    pub xlo: F64,
    pub xhi: F64,
    pub x: F64,
    pub a: F64,
    pub b: F64,
    pub c: F64,
    pub d: F64,
    pub fa: F64,
    pub fb: F64,
    pub fc: F64,
    pub fd: F64,
    pub w: F64,
    pub mb: F64,
    pub ext: i32,
    pub first: bool,
}

impl ZrorState {
    /// A machine that has asked for nothing yet.
    pub open spec fn new_spec(cfg: ZrorConfig) -> ZrorState {
        let o = lit(ZERO);
        ZrorState {
            cfg,
            stage: ZrorStage::Start,
            xlo: o,
            xhi: o,
            x: o,
            a: o,
            b: o,
            c: o,
            d: o,
            fa: o,
            fb: o,
            fc: o,
            fd: o,
            w: o,
            mb: o,
            ext: 0,
            first: true,
        }
    }

    /// A machine that has asked for nothing yet.
    #[verifier::when_used_as_spec(new_spec)]
    pub fn new(cfg: ZrorConfig) -> (r: ZrorState)
        ensures
            r == ZrorState::new(cfg),
    {
        let o = lit(ZERO);
        ZrorState {
            cfg,
            stage: ZrorStage::Start,
            xlo: o,
            xhi: o,
            x: o,
            a: o,
            b: o,
            c: o,
            d: o,
            fa: o,
            fb: o,
            fc: o,
            fd: o,
            w: o,
            mb: o,
            ext: 0,
            first: true,
        }
    }

    /// The previous point becomes the other end of the bracket.
    pub open spec fn restarted(self) -> ZrorState {
        ZrorState { c: self.a, fc: self.fa, ext: 0, ..self }
    }

    /// The other end becomes the best point where the function is smaller there.
    pub open spec fn swapped(self) -> ZrorState {
        if self.fc.abs().lt(self.fb.abs()) {
            ZrorState {
                d: if self.c.equals(self.a) {
                    self.a
                } else {
                    self.d
                },
                fd: if self.c.equals(self.a) {
                    self.fa
                } else {
                    self.fd
                },
                a: self.b,
                fa: self.fb,
                xlo: self.c,
                b: self.c,
                fb: self.fc,
                c: self.b,
                fc: self.fb,
                ..self
            }
        } else {
            self
        }
    }

    /// Half of the width at which the search ends.
    pub open spec fn tolerance(self) -> F64 {
        lit(HALF) * self.cfg.abstol.max(self.cfg.reltol * self.xlo.abs())
    }

    /// The signed distance from the best point to the middle of the bracket.
    pub open spec fn to_middle(self) -> F64 {
        lit(HALF) * (self.c + self.b) - self.b
    }

    /// The values at the two ends do not have the same sign.
    pub open spec fn straddles(self) -> bool {
        ||| self.fc.ge(lit(ZERO)) && self.fb.le(lit(ZERO))
        ||| self.fc.lt(lit(ZERO)) && self.fb.ge(lit(ZERO))
    }

    /// Numerator and denominator of the interpolated step.
    pub open spec fn interpolated(self) -> (F64, F64) {
        let p = (self.b - self.a) * self.fb;
        if self.first {
            (p, self.fa - self.fb)
        } else {
            let fdb = if self.d.equals(self.b) {
                lit(ONE)
            } else {
                (self.fd - self.fb) / (self.d - self.b)
            };
            let fda = if self.d.equals(self.a) {
                lit(ONE)
            } else {
                (self.fd - self.fa) / (self.d - self.a)
            };
            (p * fda, fdb * self.fa - fda * self.fb)
        }
    }

    /// The step to take: the interpolated one where it lies between the tolerance
    /// and the middle of the bracket, else the nearer of these two; the middle where
    /// the bracket has shrunk too slowly.
    pub open spec fn width(self) -> F64 {
        let mb = self.to_middle();
        if self.ext > 3 {
            mb
        } else {
            let tol = self.tolerance().copysign(mb);
            let (p0, q0) = self.interpolated();
            let (p1, q) = if p0.lt(lit(ZERO)) {
                (p0.negated(), q0.negated())
            } else {
                (p0, q0)
            };
            let p = if self.ext == 3 {
                p1 * lit(TWO)
            } else {
                p1
            };
            if p.equals(lit(ZERO)) || p.le(q * tol) {
                tol
            } else if p.lt(mb * q) {
                p / q
            } else {
                mb
            }
        }
    }

    /// Moves the best point by the given step.
    pub open spec fn moved(self, w: F64) -> ZrorState {
        ZrorState {
            w,
            d: self.a,
            fd: self.fa,
            a: self.b,
            fa: self.fb,
            b: self.b + w,
            xlo: self.b + w,
            x: self.b + w,
            stage: ZrorStage::AwaitFbStep,
            first: self.first && self.ext > 3,
            ..self
        }
    }

    /// One round: reports where the bracket is narrow enough, else asks for the next
    /// point.
    pub open spec fn refined(self) -> (ZrorState, ZrorAction) {
        let s0 = self.swapped();
        let s = ZrorState { mb: s0.to_middle(), ..s0 };
        if s.mb.abs().le(s.tolerance()) {
            let t = ZrorState { xhi: s.c, ..s };
            if s.straddles() {
                (t, ZrorAction::Converged { x: t.x, xlo: t.xlo, xhi: t.xhi })
            } else {
                (t, ZrorAction::Failed { xlo: t.xlo, qleft: false, qhi: false })
            }
        } else {
            let t = s.moved(s.width());
            (t, ZrorAction::NeedEval(t.b))
        }
    }

    /// What the machine does with a value.
    pub open spec fn stepped(self, fx: F64) -> (ZrorState, ZrorAction) {
        match self.stage {
            ZrorStage::Start => {
                let lo = self.cfg.xlo;
                (
                    ZrorState {
                        xlo: lo,
                        xhi: self.cfg.xhi,
                        b: lo,
                        x: lo,
                        stage: ZrorStage::AwaitFb,
                        ..self
                    },
                    ZrorAction::NeedEval(lo),
                )
            },
            ZrorStage::AwaitFb => {
                let hi = self.xhi;
                (
                    ZrorState { fb: fx, xlo: hi, a: hi, x: hi, stage: ZrorStage::AwaitFa, ..self },
                    ZrorAction::NeedEval(hi),
                )
            },
            ZrorStage::AwaitFa => {
                if self.fb.lt(lit(ZERO)) && fx.lt(lit(ZERO)) {
                    (self, ZrorAction::Failed { xlo: self.xlo, qleft: fx.lt(self.fb), qhi: false })
                } else if self.fb.gt(lit(ZERO)) && fx.gt(lit(ZERO)) {
                    (self, ZrorAction::Failed { xlo: self.xlo, qleft: fx.gt(self.fb), qhi: true })
                } else {
                    (ZrorState { fa: fx, first: true, ..self }).restarted().refined()
                }
            },
            ZrorStage::AwaitFbStep => {
                let s = ZrorState { fb: fx, ..self };
                if (s.fc * s.fb).ge(lit(ZERO)) {
                    s.restarted().refined()
                } else if s.w.equals(s.mb) {
                    (ZrorState { ext: 0, ..s }).refined()
                } else {
                    (ZrorState {
                        ext: if s.ext == i32::MAX {
                            s.ext
                        } else {
                            (s.ext + 1) as i32
                        },
                        ..s
                    }).refined()
                }
            },
        }
    }

    /// Hands a value in. The first call ignores it.
    pub fn step(&mut self, fx: F64) -> (r: ZrorAction)
        ensures
            (*final(self), r) == old(self).stepped(fx),
    {
        match self.stage {
            ZrorStage::Start => {
                self.xlo = self.cfg.xlo;
                self.xhi = self.cfg.xhi;
                self.b = self.xlo;
                self.x = self.xlo;
                self.stage = ZrorStage::AwaitFb;
                ZrorAction::NeedEval(self.b)
            },
            ZrorStage::AwaitFb => {
                self.fb = fx;
                self.xlo = self.xhi;
                self.a = self.xlo;
                self.x = self.xlo;
                self.stage = ZrorStage::AwaitFa;
                ZrorAction::NeedEval(self.a)
            },
            ZrorStage::AwaitFa => {
                if self.fb.lt(lit(ZERO)) && fx.lt(lit(ZERO)) {
                    return ZrorAction::Failed { xlo: self.xlo, qleft: fx.lt(self.fb), qhi: false };
                }
                if self.fb.gt(lit(ZERO)) && fx.gt(lit(ZERO)) {
                    return ZrorAction::Failed { xlo: self.xlo, qleft: fx.gt(self.fb), qhi: true };
                }
                self.fa = fx;
                self.first = true;
                self.restart_c_from_a();
                self.refine()
            },
            ZrorStage::AwaitFbStep => {
                self.fb = fx;
                if (self.fc * self.fb).ge(lit(ZERO)) {
                    self.restart_c_from_a();
                } else if self.w.equals(self.mb) {
                    self.ext = 0;
                } else if self.ext < i32::MAX {
                    self.ext = self.ext + 1;
                }
                self.refine()
            },
        }
    }

    fn restart_c_from_a(&mut self)
        ensures
            *final(self) == old(self).restarted(),
    {
        self.c = self.a;
        self.fc = self.fa;
        self.ext = 0;
    }

    /// One round; there is always an action to report.
    pub fn refine_iteration(&mut self) -> (r: Option<ZrorAction>)
        ensures
            *final(self) == old(self).refined().0,
            r == Some(old(self).refined().1),
    {
        Some(self.refine())
    }

    fn refine(&mut self) -> (r: ZrorAction)
        ensures
            (*final(self), r) == old(self).refined(),
    {
        if self.fc.abs().lt(self.fb.abs()) {
            if self.c.equals(self.a) {
                self.d = self.a;
                self.fd = self.fa;
            }
            self.a = self.b;
            self.fa = self.fb;
            self.xlo = self.c;
            self.b = self.xlo;
            self.fb = self.fc;
            self.c = self.a;
            self.fc = self.fa;
        }
        let tol = lit(HALF) * self.cfg.abstol.max(self.cfg.reltol * self.xlo.abs());
        let mb = lit(HALF) * (self.c + self.b) - self.b;
        self.mb = mb;
        if mb.abs().le(tol) {
            self.xhi = self.c;
            if (self.fc.ge(lit(ZERO)) && self.fb.le(lit(ZERO))) || (self.fc.lt(lit(ZERO)) && self.fb.ge(
                lit(ZERO),
            )) {
                return ZrorAction::Converged { x: self.x, xlo: self.xlo, xhi: self.xhi };
            }
            return ZrorAction::Failed { xlo: self.xlo, qleft: false, qhi: false };
        }
        let w = if self.ext > 3 {
            mb
        } else {
            let (p0, q0) = self.interpolation();
            let ts = tol.copysign(mb);
            let (p1, q) = if p0.lt(lit(ZERO)) {
                (p0.negated(), q0.negated())
            } else {
                (p0, q0)
            };
            let p = if self.ext == 3 {
                p1 * lit(TWO)
            } else {
                p1
            };
            self.first = false;
            if p.equals(lit(ZERO)) || p.le(q * ts) {
                ts
            } else if p.lt(mb * q) {
                p / q
            } else {
                mb
            }
        };
        self.w = w;
        self.d = self.a;
        self.fd = self.fa;
        self.a = self.b;
        self.fa = self.fb;
        self.b = self.b + w;
        self.xlo = self.b;
        self.x = self.xlo;
        self.stage = ZrorStage::AwaitFbStep;
        ZrorAction::NeedEval(self.b)
    }

    fn interpolation(&self) -> (r: (F64, F64))
        ensures
            r == self.interpolated(),
    {
        let p = (self.b - self.a) * self.fb;
        if self.first {
            (p, self.fa - self.fb)
        } else {
            let fdb = if self.d.equals(self.b) {
                lit(ONE)
            } else {
                (self.fd - self.fb) / (self.d - self.b)
            };
            let fda = if self.d.equals(self.a) {
                lit(ONE)
            } else {
                (self.fd - self.fa) / (self.d - self.a)
            };
            (p * fda, fdb * self.fa - fda * self.fb)
        }
    }
}

/// What the machine reports once `g` has answered up to `n` questions; nothing
/// where it asks for more.
pub open spec fn zror_run(s: ZrorState, fx: F64, g: spec_fn(F64) -> F64, n: nat) -> Option<ZrorAction>
    decreases n,
{
    match s.stepped(fx).1 {
        ZrorAction::NeedEval(x) => if n == 0 {
            None
        } else {
            zror_run(s.stepped(fx).0, g(x), g, (n - 1) as nat)
        },
        other => Some(other),
    }
}

} // verus!
