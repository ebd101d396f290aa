//! The refining machine.
use cdflib::float::F64;
use cdflib::functions::Elementary;

#[allow(dead_code)]
fn fl(x: f64) -> F64 {
    F64 { bits: x.to_bits() }
}

#[allow(dead_code)]
fn num(x: F64) -> f64 {
    f64::from_bits(x.bits)
}

#[allow(dead_code)]
fn pair(p: (F64, F64)) -> (f64, f64) {
    (num(p.0), num(p.1))
}

#[allow(dead_code)]
fn libm(q: Elementary) -> F64 {
    match q {
        Elementary::Exp(x) => fl(num(x).exp()),
        Elementary::Ln(x) => fl(num(x).ln()),
        Elementary::Sin(x) => fl(num(x).sin()),
        Elementary::Cos(x) => fl(num(x).cos()),
        Elementary::Pow(x, y) => fl(num(x).powf(num(y))),
    }
}

use cdflib::search::dzror::{ZrorAction, ZrorConfig, ZrorStage, ZrorState};

fn cfg() -> ZrorConfig {
    ZrorConfig { xlo: fl(0.0), xhi: fl(1.0), abstol: fl(1.0e-50), reltol: fl(1.0e-8) }
}

#[test]
fn swap_branch_preserves_history_when_c_equals_a() {
    let mut z = ZrorState {
        cfg: cfg(),
        stage: ZrorStage::AwaitFbStep,
        xlo: fl(0.0),
        xhi: fl(0.0),
        x: fl(0.0),
        a: fl(1.0),
        b: fl(2.0),
        c: fl(1.0),
        d: fl(99.0),
        fa: fl(3.0),
        fb: fl(2.0),
        fc: fl(1.0),
        fd: fl(77.0),
        w: fl(0.0),
        mb: fl(0.0),
        ext: 0,
        first: false,
    };

    let action = z.refine_iteration();
    match action {
        Some(ZrorAction::NeedEval(x)) => assert!((num(x) - 4.0 / 3.0).abs() < 1e-15),
        other => panic!("unexpected action: {other:?}"),
    }
}

#[test]
fn guarded_divided_difference_when_d_equals_a() {
    let mut z = ZrorState {
        cfg: cfg(),
        stage: ZrorStage::AwaitFbStep,
        xlo: fl(2.0),
        xhi: fl(4.0),
        x: fl(0.0),
        a: fl(1.0),
        b: fl(2.0),
        c: fl(4.0),
        d: fl(1.0),
        fa: fl(4.0),
        fb: fl(-1.0),
        fc: fl(5.0),
        fd: fl(5.0),
        w: fl(0.0),
        mb: fl(0.0),
        ext: 0,
        first: false,
    };

    let action = z.refine_iteration();
    match action {
        Some(ZrorAction::NeedEval(x)) => assert!((num(x) - (2.0 + 1.0 / 23.0)).abs() < 1e-15),
        other => panic!("unexpected action: {other:?}"),
    }
}

#[test]
fn guarded_divided_difference_when_d_equals_b() {
    let mut z = ZrorState {
        cfg: cfg(),
        stage: ZrorStage::AwaitFbStep,
        xlo: fl(2.0),
        xhi: fl(4.0),
        x: fl(0.0),
        a: fl(1.0),
        b: fl(2.0),
        c: fl(4.0),
        d: fl(2.0),
        fa: fl(4.0),
        fb: fl(-1.0),
        fc: fl(5.0),
        fd: fl(5.0),
        w: fl(0.0),
        mb: fl(0.0),
        ext: 0,
        first: false,
    };

    let action = z.refine_iteration();
    match action {
        Some(ZrorAction::NeedEval(x)) => assert_eq!(num(x), 3.0),
        other => panic!("unexpected action: {other:?}"),
    }
}

#[test]
fn fails_when_both_initial_values_are_negative() {
    let mut z = ZrorState::new(cfg());
    assert!(matches!(z.step(fl(0.0)), ZrorAction::NeedEval(v) if num(v) == 0.0));
    assert!(matches!(z.step(fl(-2.0)), ZrorAction::NeedEval(v) if num(v) == 1.0));
    assert!(matches!(
        z.step(fl(-1.0)),
        ZrorAction::Failed {
            qleft: false,
            qhi: false,
            ..
        }
    ));
}

#[test]
fn fails_when_both_initial_values_are_positive() {
    let mut z = ZrorState::new(cfg());
    assert!(matches!(z.step(fl(0.0)), ZrorAction::NeedEval(v) if num(v) == 0.0));
    assert!(matches!(z.step(fl(1.0)), ZrorAction::NeedEval(v) if num(v) == 1.0));
    assert!(matches!(
        z.step(fl(2.0)),
        ZrorAction::Failed {
            qleft: true,
            qhi: true,
            ..
        }
    ));
}

#[test]
fn reports_failed_convergence_if_interval_no_longer_straddles_zero() {
    let mut z = ZrorState {
        cfg: cfg(),
        stage: ZrorStage::AwaitFbStep,
        xlo: fl(1.0),
        xhi: fl(1.0),
        x: fl(0.0),
        a: fl(1.0),
        b: fl(1.0),
        c: fl(1.0),
        d: fl(0.0),
        fa: fl(1.0),
        fb: fl(1.0),
        fc: fl(1.0),
        fd: fl(0.0),
        w: fl(0.0),
        mb: fl(0.0),
        ext: 0,
        first: false,
    };

    assert!(matches!(
        z.refine_iteration(),
        Some(ZrorAction::Failed {
            qleft: false,
            qhi: false,
            ..
        })
    ));
}

#[test]
fn converged_x_is_last_eval_point_not_xlo_after_final_swap() {
    let f = |x: f64| if x < 0.7 { -1.0 } else { 2.0 };
    let mut z = ZrorState::new(ZrorConfig {
        xlo: fl(0.0),
        xhi: fl(1.0),
        abstol: fl(1.0e-10),
        reltol: fl(1.0e-8),
    });
    let mut fx = 0.0;
    let mut last = f64::NAN;
    loop {
        match z.step(fl(fx)) {
            ZrorAction::NeedEval(x) => {
                last = num(x);
                fx = f(num(x));
            }
            ZrorAction::Converged { x, xlo, xhi } => {
                assert_eq!(num(x), last, "x must be the last evaluation point");
                assert_ne!(x, xlo, "the final swap must have moved xlo off x");
                assert!((num(xlo) - 0.7).abs() < 1e-7 && (num(xhi) - 0.7).abs() < 1e-7);
                return;
            }
            ZrorAction::Failed { .. } => panic!("no sign change reported"),
        }
    }
}
