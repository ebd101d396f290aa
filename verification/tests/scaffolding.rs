//! The comparison that the other tests use.
use cdflib::float::F64;
use cdflib::functions::Elementary;
use std::f64::consts::{PI};

#[allow(dead_code)]
fn fl(x: f64) -> F64 {
    F64 { bits: x.to_bits() }
}

#[allow(dead_code)]
fn num(x: F64) -> f64 {
    f64::from_bits(x.bits)
}

#[allow(dead_code)]
fn pair(p: (F64, F64)) -> (f64, f64) {
    (num(p.0), num(p.1))
}

#[allow(dead_code)]
fn libm(q: Elementary) -> F64 {
    match q {
        Elementary::Exp(x) => fl(num(x).exp()),
        Elementary::Ln(x) => fl(num(x).ln()),
        Elementary::Sin(x) => fl(num(x).sin()),
        Elementary::Cos(x) => fl(num(x).cos()),
        Elementary::Pow(x, y) => fl(num(x).powf(num(y))),
    }
}

#[allow(dead_code)]
const DEFAULT_REL_TOL: f64 = 1e-14;
#[allow(dead_code)]
const DEFAULT_ABS_TOL: f64 = 1e-300;
#[allow(dead_code)]
const INVERSE_REL_TOL: f64 = 5e-8;
#[allow(dead_code)]
const CHAINED_INVERSE_REL_TOL: f64 = 5e-7;

#[allow(dead_code)]
fn assert_close(got: f64, expected: f64) {
    assert_close_eps(got, expected, DEFAULT_REL_TOL, DEFAULT_ABS_TOL);
}

#[allow(dead_code)]
fn assert_close_eps(got: f64, expected: f64, rel_tol: f64, abs_tol: f64) {
    if got.is_nan() || expected.is_nan() {
        assert!(got.is_nan() && expected.is_nan(), "NaN mismatch: got {got}, expected {expected}");
        return;
    }
    if got.is_infinite() || expected.is_infinite() {
        assert_eq!(got, expected, "infinity mismatch: got {got}, expected {expected}");
        return;
    }
    let diff = (got - expected).abs();
    if diff <= abs_tol {
        return;
    }
    let scale = got.abs().max(expected.abs());
    let rel = if scale == 0.0 { 0.0 } else { diff / scale };
    assert!(rel <= rel_tol, "got {got}, expected {expected}, rel diff {rel}");
}

#[test]
fn assert_close_passes_when_within_default_tol() {
    assert_close(1.0 + 1e-15, 1.0);
    assert_close(-PI, -PI);
}

#[test]
fn assert_close_handles_boundary_values() {
    assert_close_eps(1e-310, 0.0, 1e-14, 1e-300);
    assert_close_eps(1.0, 1.0, 1e-14, 1e-300);
}

#[test]
#[should_panic(expected = "rel diff")]
fn assert_close_fails_outside_tol() {
    assert_close_eps(1.0, 2.0, 1e-14, 1e-300);
}

#[test]
#[should_panic(expected = "NaN mismatch")]
fn assert_close_fails_on_nan_mismatch() {
    assert_close_eps(f64::NAN, 0.0, 1e-14, 1e-300);
}

#[test]
fn assert_close_accepts_both_nan() {
    assert_close_eps(f64::NAN, f64::NAN, 1e-14, 1e-300);
}

#[test]
#[should_panic(expected = "infinity mismatch")]
fn assert_close_fails_on_infinity_mismatch() {
    assert_close_eps(f64::INFINITY, 1e308, 1e-14, 1e-300);
}
