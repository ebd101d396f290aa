//! The error function.
use cdflib::float::F64;
use cdflib::functions::Elementary;

#[allow(dead_code)]
fn fl(x: f64) -> F64 {
    F64 { bits: x.to_bits() }
}

#[allow(dead_code)]
fn num(x: F64) -> f64 {
    f64::from_bits(x.bits)
}

#[allow(dead_code)]
fn pair(p: (F64, F64)) -> (f64, f64) {
    (num(p.0), num(p.1))
}

#[allow(dead_code)]
fn libm(q: Elementary) -> F64 {
    match q {
        Elementary::Exp(x) => fl(num(x).exp()),
        Elementary::Ln(x) => fl(num(x).ln()),
        Elementary::Sin(x) => fl(num(x).sin()),
        Elementary::Cos(x) => fl(num(x).cos()),
        Elementary::Pow(x, y) => fl(num(x).powf(num(y))),
    }
}

#[allow(dead_code)]
fn error_f(x: f64) -> f64 {
    num(cdflib::special::erf::error_f(&libm, fl(x)))
}

#[allow(dead_code)]
fn error_fc(x: f64) -> f64 {
    num(cdflib::special::erf::error_fc(&libm, fl(x)))
}

#[test]
fn erf_zero() {
    assert_eq!(error_f(0.0), 0.0);
    assert_eq!(error_fc(0.0), 1.0);
}

#[test]
fn erf_is_odd() {
    for &x in &[0.1, 0.7, 2.0, 4.5] {
        let a = error_f(x);
        let b = error_f(-x);
        assert!((a + b).abs() < 1e-15, "erf({x}) = {a}, erf(-{x}) = {b}");
    }
}

#[test]
fn erf_saturates() {
    assert_eq!(error_f(10.0), 1.0);
    assert_eq!(error_f(-10.0), -1.0);
}

#[test]
fn erfc_complement_relation() {
    for &x in &[-2.0, -0.5, 0.0, 0.3, 1.5, 3.7] {
        let s = error_f(x) + error_fc(x);
        assert!((s - 1.0).abs() < 1e-14, "erf({x}) + erfc({x}) = {s}");
    }
}
