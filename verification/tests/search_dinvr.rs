//! The bracketing machine.
use cdflib::float::F64;
use cdflib::functions::Elementary;

#[allow(dead_code)]
fn fl(x: f64) -> F64 {
    F64 { bits: x.to_bits() }
}

#[allow(dead_code)]
fn num(x: F64) -> f64 {
    f64::from_bits(x.bits)
}

#[allow(dead_code)]
fn pair(p: (F64, F64)) -> (f64, f64) {
    (num(p.0), num(p.1))
}

#[allow(dead_code)]
fn libm(q: Elementary) -> F64 {
    match q {
        Elementary::Exp(x) => fl(num(x).exp()),
        Elementary::Ln(x) => fl(num(x).ln()),
        Elementary::Sin(x) => fl(num(x).sin()),
        Elementary::Cos(x) => fl(num(x).cos()),
        Elementary::Pow(x, y) => fl(num(x).powf(num(y))),
    }
}

use cdflib::search::dinvr::{InvrAction, InvrConfig, InvrState};

fn cfg() -> InvrConfig {
    InvrConfig {
        small: fl(0.0),
        big: fl(1.0),
        abs_step: fl(0.5),
        rel_step: fl(0.5),
        stp_mul: fl(5.0),
        abs_tol: fl(1.0e-50),
        rel_tol: fl(1.0e-8),
    }
}

#[test]
fn rejects_increasing_bracket_when_small_is_already_positive() {
    let mut state = InvrState::new(cfg(), fl(0.5));
    assert!(matches!(state.step(fl(0.0)), InvrAction::NeedEval(v) if num(v) == 0.0));
    assert!(matches!(state.step(fl(1.0)), InvrAction::NeedEval(v) if num(v) == 1.0));
    assert!(matches!(
        state.step(fl(2.0)),
        InvrAction::Failed {
            qleft: true,
            qhi: true,
            x
        } if num(x) == 0.0
    ));
}

#[test]
fn rejects_increasing_bracket_when_big_is_still_negative() {
    let mut state = InvrState::new(cfg(), fl(0.5));
    assert!(matches!(state.step(fl(0.0)), InvrAction::NeedEval(v) if num(v) == 0.0));
    assert!(matches!(state.step(fl(-2.0)), InvrAction::NeedEval(v) if num(v) == 1.0));
    assert!(matches!(
        state.step(fl(-1.0)),
        InvrAction::Failed {
            qleft: false,
            qhi: false,
            x
        } if num(x) == 1.0
    ));
}

#[test]
fn rejects_decreasing_bracket_when_small_is_already_negative() {
    let mut state = InvrState::new(cfg(), fl(0.5));
    assert!(matches!(state.step(fl(0.0)), InvrAction::NeedEval(v) if num(v) == 0.0));
    assert!(matches!(state.step(fl(-1.0)), InvrAction::NeedEval(v) if num(v) == 1.0));
    assert!(matches!(
        state.step(fl(-2.0)),
        InvrAction::Failed {
            qleft: true,
            qhi: false,
            x
        } if num(x) == 0.0
    ));
}

#[test]
fn rejects_decreasing_bracket_when_big_is_still_positive() {
    let mut state = InvrState::new(cfg(), fl(0.5));
    assert!(matches!(state.step(fl(0.0)), InvrAction::NeedEval(v) if num(v) == 0.0));
    assert!(matches!(state.step(fl(2.0)), InvrAction::NeedEval(v) if num(v) == 1.0));
    assert!(matches!(
        state.step(fl(1.0)),
        InvrAction::Failed {
            qleft: false,
            qhi: true,
            x
        } if num(x) == 1.0
    ));
}

#[test]
fn reports_upper_bound_failure_when_search_runs_out_of_room() {
    let mut state = InvrState::new(cfg(), fl(0.9));
    assert!(matches!(state.step(fl(0.0)), InvrAction::NeedEval(v) if num(v) == 0.0));
    assert!(matches!(state.step(fl(-1.0)), InvrAction::NeedEval(v) if num(v) == 1.0));
    assert!(matches!(state.step(fl(1.0)), InvrAction::NeedEval(v) if num(v) == 0.9));
    assert!(matches!(state.step(fl(-0.1)), InvrAction::NeedEval(v) if num(v) == 1.0));
    assert!(matches!(
        state.step(fl(-0.05)),
        InvrAction::Failed {
            qleft: false,
            qhi: false,
            x
        } if num(x) == 1.0
    ));
}

#[test]
fn reports_lower_bound_failure_when_search_runs_out_of_room() {
    let mut state = InvrState::new(cfg(), fl(0.1));
    assert!(matches!(state.step(fl(0.0)), InvrAction::NeedEval(v) if num(v) == 0.0));
    assert!(matches!(state.step(fl(-1.0)), InvrAction::NeedEval(v) if num(v) == 1.0));
    assert!(matches!(state.step(fl(1.0)), InvrAction::NeedEval(v) if num(v) == 0.1));
    assert!(matches!(state.step(fl(0.1)), InvrAction::NeedEval(v) if num(v) == 0.0));
    assert!(matches!(
        state.step(fl(0.05)),
        InvrAction::Failed {
            qleft: true,
            qhi: true,
            x
        } if num(x) == 0.0
    ));
}
