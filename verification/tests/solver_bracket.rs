//! The bracketing solver.
use cdflib::float::F64;
use cdflib::functions::Elementary;
use cdflib::error::SolverError;

#[allow(dead_code)]
fn fl(x: f64) -> F64 {
    F64 { bits: x.to_bits() }
}

#[allow(dead_code)]
fn num(x: F64) -> f64 {
    f64::from_bits(x.bits)
}

#[allow(dead_code)]
fn pair(p: (F64, F64)) -> (f64, f64) {
    (num(p.0), num(p.1))
}

#[allow(dead_code)]
fn libm(q: Elementary) -> F64 {
    match q {
        Elementary::Exp(x) => fl(num(x).exp()),
        Elementary::Ln(x) => fl(num(x).ln()),
        Elementary::Sin(x) => fl(num(x).sin()),
        Elementary::Cos(x) => fl(num(x).cos()),
        Elementary::Pow(x, y) => fl(num(x).powf(num(y))),
    }
}

use cdflib::solver::BracketStrategy;

#[allow(dead_code)]
fn solve_monotone(strategy: BracketStrategy, f: impl Fn(f64) -> f64) -> Result<f64, SolverError> {
    let g = |x: F64| fl(f(num(x)));
    cdflib::solver::solve_monotone(strategy, &g).map(num)
}
