//! The interpolating solver.
use cdflib::float::F64;
use cdflib::functions::Elementary;
use cdflib::error::SolverError;

#[allow(dead_code)]
fn fl(x: f64) -> F64 {
    F64 { bits: x.to_bits() }
}

#[allow(dead_code)]
fn num(x: F64) -> f64 {
    f64::from_bits(x.bits)
}

#[allow(dead_code)]
fn pair(p: (F64, F64)) -> (f64, f64) {
    (num(p.0), num(p.1))
}

#[allow(dead_code)]
fn libm(q: Elementary) -> F64 {
    match q {
        Elementary::Exp(x) => fl(num(x).exp()),
        Elementary::Ln(x) => fl(num(x).ln()),
        Elementary::Sin(x) => fl(num(x).sin()),
        Elementary::Cos(x) => fl(num(x).cos()),
        Elementary::Pow(x, y) => fl(num(x).powf(num(y))),
    }
}

use cdflib::solver::BracketStrategy;

#[allow(dead_code)]
fn solve_monotone(strategy: BracketStrategy, f: impl Fn(f64) -> f64) -> Result<f64, SolverError> {
    let g = |x: F64| fl(f(num(x)));
    cdflib::solver::monotone::solve_monotone(strategy, &g).map(num)
}

#[test]
fn monotone_solves_increasing_function() {
    let r = solve_monotone(
        BracketStrategy::Increasing {
            small: fl(0.0),
            big: fl(100.0),
            start: fl(1.0),
        },
        |x| x.powi(3) - 8.0,
    )
    .unwrap();
    assert!((r - 2.0).abs() < 1e-10, "r = {r}");
}

#[test]
fn monotone_solves_decreasing_function() {
    let r = solve_monotone(
        BracketStrategy::Decreasing {
            small: fl(0.01),
            big: fl(1000.0),
            start: fl(10.0),
        },
        |x| 1.0 / x - 0.25,
    )
    .unwrap();
    assert!((r - 4.0).abs() < 1e-10, "r = {r}");
}

#[test]
fn monotone_solves_root_at_moderate_value() {
    let r = solve_monotone(
        BracketStrategy::Increasing {
            small: fl(1e-10),
            big: fl(1000.0),
            start: fl(1.0),
        },
        |x| x.ln() - 1.0,
    )
    .unwrap();
    let e = std::f64::consts::E;
    assert!((r - e).abs() / e < 1e-12, "r = {r}, e = {e}");
}
