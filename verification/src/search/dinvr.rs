//! Search for a bracket from a starting point, then refinement, one evaluation at a
//! time.
use super::dzror::{ZrorAction, ZrorConfig, ZrorState};
use crate::float::number::ZERO;
use crate::float::{lit, F64};
use vstd::prelude::*;

verus! {

/// The range, the steps and the tolerances.
#[derive(Clone, Copy, Debug, PartialEq, Eq, Structural)]
pub struct InvrConfig {
    pub small: F64,
    pub big: F64,
    pub abs_step: F64,
    pub rel_step: F64,
    pub stp_mul: F64,
    pub abs_tol: F64,
    pub rel_tol: F64,
}

/// What the next value handed in is the value of.
#[derive(Clone, Copy, Debug, PartialEq, Eq, Structural)]
pub enum InvrStage {
    Start,
    AwaitFsmall,
    AwaitFbig,
    AwaitInitial,
    AwaitUpper,
    AwaitLower,
    InZror(ZrorState),
}

/// What the machine asks for or reports.
#[derive(Clone, Copy, Debug, PartialEq, Eq, Structural)]
pub enum InvrAction {
    /// Evaluate the function here and hand the value in.
    NeedEval(F64),
    /// The answer.
    Converged(F64),
    /// The answer lies outside the range: below it where `qleft`, and `qhi` is
    /// whether the function is too high there. `x` is the end of the range.
    Failed { qleft: bool, qhi: bool, x: F64 },
}

/// The machine.
#[derive(Clone, Copy, Debug, PartialEq, Eq, Structural)]
pub struct InvrState {
    pub cfg: InvrConfig,
    pub stage: InvrStage,
    pub xsave: F64,
    pub fsmall: F64,
    pub fbig: F64,
    pub qincr: bool,
    pub step: F64,
    pub xlb: F64,
    pub xub: F64,
}

/// What the refinement reports, for the search: a failed refinement ends at its
/// last end, too.
pub open spec fn from_zror_spec(a: ZrorAction) -> InvrAction {
    match a {
        ZrorAction::NeedEval(x) => InvrAction::NeedEval(x),
        ZrorAction::Converged { x, xlo, xhi } => InvrAction::Converged(xlo),
        ZrorAction::Failed { xlo, qleft, qhi } => InvrAction::Converged(xlo),
    }
}

#[verifier::when_used_as_spec(from_zror_spec)]
pub fn from_zror(a: ZrorAction) -> (r: InvrAction)
    ensures
        r == from_zror_spec(a),
{
    match a {
        ZrorAction::NeedEval(x) => InvrAction::NeedEval(x),
        ZrorAction::Converged { xlo, .. } => InvrAction::Converged(xlo),
        ZrorAction::Failed { xlo, .. } => InvrAction::Converged(xlo),
    }
}

impl InvrState {
    /// A machine that has asked for nothing yet.
    pub open spec fn new_spec(cfg: InvrConfig, x_initial: F64) -> InvrState {
        let o = lit(ZERO);
        InvrState {
            cfg,
            stage: InvrStage::Start,
            xsave: x_initial,
            fsmall: o,
            fbig: o,
            qincr: false,
            step: o,
            xlb: o,
            xub: o,
        }
    }

    /// A machine that has asked for nothing yet.
    #[verifier::when_used_as_spec(new_spec)]
    pub fn new(cfg: InvrConfig, x_initial: F64) -> (r: InvrState)
        ensures
            r == InvrState::new(cfg, x_initial),
    {
        let o = lit(ZERO);
        InvrState {
            cfg,
            stage: InvrStage::Start,
            xsave: x_initial,
            fsmall: o,
            fbig: o,
            qincr: false,
            step: o,
            xlb: o,
            xub: o,
        }
    }

    /// The function, at a point with value `y`, has not yet reached zero on its way
    /// up the range.
    pub open spec fn short_of(self, y: F64) -> bool {
        ||| self.qincr && y.lt(lit(ZERO))
        ||| !self.qincr && y.gt(lit(ZERO))
    }

    /// What the values at both ends of the range rule out.
    pub open spec fn range_failure(self) -> Option<InvrAction> {
        let o = lit(ZERO);
        if self.fsmall.le(self.fbig) {
            if self.fsmall.gt(o) {
                Some(InvrAction::Failed { qleft: true, qhi: true, x: self.cfg.small })
            } else if self.fbig.lt(o) {
                Some(InvrAction::Failed { qleft: false, qhi: false, x: self.cfg.big })
            } else {
                None
            }
        } else {
            if self.fsmall.lt(o) {
                Some(InvrAction::Failed { qleft: true, qhi: false, x: self.cfg.small })
            } else if self.fbig.gt(o) {
                Some(InvrAction::Failed { qleft: false, qhi: true, x: self.cfg.big })
            } else {
                None
            }
        }
    }

    /// The refinement of the bracket found, after its first question.
    pub open spec fn refining(self) -> (InvrState, InvrAction) {
        let z = ZrorState::new(
            ZrorConfig { xlo: self.xlb, xhi: self.xub, abstol: self.cfg.abs_tol, reltol: self.cfg.rel_tol },
        );
        let (z2, a) = z.stepped(lit(ZERO));
        (InvrState { stage: InvrStage::InZror(z2), ..self }, from_zror(a))
    }

    /// What the machine does with a value.
    pub open spec fn stepped(self, fx: F64) -> (InvrState, InvrAction) {
        let o = lit(ZERO);
        match self.stage {
            InvrStage::Start => (
                InvrState { stage: InvrStage::AwaitFsmall, ..self },
                InvrAction::NeedEval(self.cfg.small),
            ),
            InvrStage::AwaitFsmall => (
                InvrState { fsmall: fx, stage: InvrStage::AwaitFbig, ..self },
                InvrAction::NeedEval(self.cfg.big),
            ),
            InvrStage::AwaitFbig => {
                let s = InvrState { fbig: fx, qincr: fx.gt(self.fsmall), ..self };
                match s.range_failure() {
                    Some(a) => (s, a),
                    None => (
                        InvrState {
                            step: self.cfg.abs_step.max(self.cfg.rel_step * self.xsave.abs()),
                            stage: InvrStage::AwaitInitial,
                            ..s
                        },
                        InvrAction::NeedEval(self.xsave),
                    ),
                }
            },
            InvrStage::AwaitInitial => {
                if fx.equals(o) {
                    (self, InvrAction::Converged(self.xsave))
                } else if self.short_of(fx) {
                    let xub = (self.xsave + self.step).min(self.cfg.big);
                    (
                        InvrState { xlb: self.xsave, xub, stage: InvrStage::AwaitUpper, ..self },
                        InvrAction::NeedEval(xub),
                    )
                } else {
                    let xlb = (self.xsave - self.step).max(self.cfg.small);
                    (
                        InvrState { xub: self.xsave, xlb, stage: InvrStage::AwaitLower, ..self },
                        InvrAction::NeedEval(xlb),
                    )
                }
            },
            InvrStage::AwaitUpper => {
                if (self.qincr && fx.ge(o)) || (!self.qincr && fx.le(o)) {
                    self.refining()
                } else if self.xub.ge(self.cfg.big) {
                    (self, InvrAction::Failed { qleft: false, qhi: !self.qincr, x: self.cfg.big })
                } else {
                    let step = self.step * self.cfg.stp_mul;
                    let xub = (self.xub + step).min(self.cfg.big);
                    (InvrState { step, xlb: self.xub, xub, ..self }, InvrAction::NeedEval(xub))
                }
            },
            InvrStage::AwaitLower => {
                if (self.qincr && fx.le(o)) || (!self.qincr && fx.ge(o)) {
                    self.refining()
                } else if self.xlb.le(self.cfg.small) {
                    (self, InvrAction::Failed { qleft: true, qhi: self.qincr, x: self.cfg.small })
                } else {
                    let step = self.step * self.cfg.stp_mul;
                    let xlb = (self.xlb - step).max(self.cfg.small);
                    (InvrState { step, xub: self.xlb, xlb, ..self }, InvrAction::NeedEval(xlb))
                }
            },
            InvrStage::InZror(z) => {
                let (z2, a) = z.stepped(fx);
                (InvrState { stage: InvrStage::InZror(z2), ..self }, from_zror(a))
            },
        }
    }

    /// Hands a value in. The first call ignores it.
    pub fn step(&mut self, fx: F64) -> (r: InvrAction)
        ensures
            (*final(self), r) == old(self).stepped(fx),
    {
        let o = lit(ZERO);
        match self.stage {
            InvrStage::Start => {
                self.stage = InvrStage::AwaitFsmall;
                InvrAction::NeedEval(self.cfg.small)
            },
            InvrStage::AwaitFsmall => {
                self.fsmall = fx;
                self.stage = InvrStage::AwaitFbig;
                InvrAction::NeedEval(self.cfg.big)
            },
            InvrStage::AwaitFbig => {
                self.fbig = fx;
                self.qincr = self.fbig.gt(self.fsmall);
                if self.fsmall.le(self.fbig) {
                    if self.fsmall.gt(o) {
                        return InvrAction::Failed { qleft: true, qhi: true, x: self.cfg.small };
                    }
                    if self.fbig.lt(o) {
                        return InvrAction::Failed { qleft: false, qhi: false, x: self.cfg.big };
                    }
                } else {
                    if self.fsmall.lt(o) {
                        return InvrAction::Failed { qleft: true, qhi: false, x: self.cfg.small };
                    }
                    if self.fbig.gt(o) {
                        return InvrAction::Failed { qleft: false, qhi: true, x: self.cfg.big };
                    }
                }
                let x = self.xsave;
                self.step = self.cfg.abs_step.max(self.cfg.rel_step * x.abs());
                self.stage = InvrStage::AwaitInitial;
                InvrAction::NeedEval(x)
            },
            InvrStage::AwaitInitial => {
                if fx.equals(o) {
                    return InvrAction::Converged(self.xsave);
                }
                if (self.qincr && fx.lt(o)) || (!self.qincr && fx.gt(o)) {
                    self.xlb = self.xsave;
                    self.xub = (self.xlb + self.step).min(self.cfg.big);
                    self.stage = InvrStage::AwaitUpper;
                    InvrAction::NeedEval(self.xub)
                } else {
                    self.xub = self.xsave;
                    self.xlb = (self.xub - self.step).max(self.cfg.small);
                    self.stage = InvrStage::AwaitLower;
                    InvrAction::NeedEval(self.xlb)
                }
            },
            InvrStage::AwaitUpper => {
                if (self.qincr && fx.ge(o)) || (!self.qincr && fx.le(o)) {
                    return self.start_zror();
                }
                if self.xub.ge(self.cfg.big) {
                    return InvrAction::Failed { qleft: false, qhi: !self.qincr, x: self.cfg.big };
                }
                self.step = self.step * self.cfg.stp_mul;
                self.xlb = self.xub;
                self.xub = (self.xlb + self.step).min(self.cfg.big);
                InvrAction::NeedEval(self.xub)
            },
            InvrStage::AwaitLower => {
                if (self.qincr && fx.le(o)) || (!self.qincr && fx.ge(o)) {
                    return self.start_zror();
                }
                if self.xlb.le(self.cfg.small) {
                    return InvrAction::Failed { qleft: true, qhi: self.qincr, x: self.cfg.small };
                }
                self.step = self.step * self.cfg.stp_mul;
                self.xub = self.xlb;
                self.xlb = (self.xub - self.step).max(self.cfg.small);
                InvrAction::NeedEval(self.xlb)
            },
            InvrStage::InZror(z) => {
                let mut next = z;
                let a = next.step(fx);
                self.stage = InvrStage::InZror(next);
                from_zror(a)
            },
        }
    }

    fn start_zror(&mut self) -> (r: InvrAction)
        ensures
            (*final(self), r) == old(self).refining(),
    {
        let mut z = ZrorState::new(
            ZrorConfig { xlo: self.xlb, xhi: self.xub, abstol: self.cfg.abs_tol, reltol: self.cfg.rel_tol },
        );
        let first = z.step(lit(ZERO));
        self.stage = InvrStage::InZror(z);
        from_zror(first)
    }
}

/// What the machine reports once `g` has answered up to `n` questions; nothing
/// where it asks for more.
pub open spec fn invr_run(s: InvrState, fx: F64, g: spec_fn(F64) -> F64, n: nat) -> Option<InvrAction>
    decreases n,
{
    match s.stepped(fx).1 {
        InvrAction::NeedEval(x) => if n == 0 {
            None
        } else {
            invr_run(s.stepped(fx).0, g(x), g, (n - 1) as nat)
        },
        other => Some(other),
    }
}

} // verus!
