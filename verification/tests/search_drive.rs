//! The searches.
use cdflib::float::F64;
use cdflib::functions::Elementary;
use cdflib::error::SearchError;

#[allow(dead_code)]
fn fl(x: f64) -> F64 {
    F64 { bits: x.to_bits() }
}

#[allow(dead_code)]
fn num(x: F64) -> f64 {
    f64::from_bits(x.bits)
}

#[allow(dead_code)]
fn pair(p: (F64, F64)) -> (f64, f64) {
    (num(p.0), num(p.1))
}

#[allow(dead_code)]
fn libm(q: Elementary) -> F64 {
    match q {
        Elementary::Exp(x) => fl(num(x).exp()),
        Elementary::Ln(x) => fl(num(x).ln()),
        Elementary::Sin(x) => fl(num(x).sin()),
        Elementary::Cos(x) => fl(num(x).cos()),
        Elementary::Pow(x, y) => fl(num(x).powf(num(y))),
    }
}

#[allow(dead_code)]
fn search_monotone(
    small: f64,
    big: f64,
    start: f64,
    qleft_bound: f64,
    qhi_bound: f64,
    f: impl Fn(f64) -> f64,
) -> Result<f64, SearchError> {
    let g = |x: F64| fl(f(num(x)));
    cdflib::search::search_monotone(fl(small), fl(big), fl(start), fl(qleft_bound), fl(qhi_bound), &g).map(num)
}

#[test]
fn mod_solves_increasing_function() {
    let r = search_monotone(0.0, 100.0, 1.0, 0.0, 100.0, |x| x.powi(3) - 8.0).unwrap();
    assert!((r - 2.0).abs() < 1e-10, "r = {r}");
}

#[test]
fn mod_solves_decreasing_function() {
    let r = search_monotone(0.01, 1000.0, 10.0, 0.01, 1000.0, |x| 1.0 / x - 0.25).unwrap();
    assert!((r - 4.0).abs() < 1e-10, "r = {r}");
}

#[test]
fn mod_solves_root_at_moderate_value() {
    let r = search_monotone(1e-10, 1000.0, 1.0, 1e-10, 1000.0, |x| x.ln() - 1.0).unwrap();
    let e = std::f64::consts::E;
    assert!((r - e).abs() / e < 1e-8, "r = {r}, e = {e}");
}

#[test]
fn increasing_fsmall_positive_fails_at_small() {
    let r = search_monotone(1.0, 10.0, 5.0, 1.0, 10.0, |x| x + 1.0);
    assert!(matches!(
        r,
        Err(SearchError::AnswerBelowLowerBound { bound }) if num(bound) == 1.0
    ));
}

#[test]
fn increasing_fbig_negative_fails_at_big() {
    let r = search_monotone(1.0, 10.0, 5.0, 1.0, 10.0, |x| x - 100.0);
    assert!(matches!(
        r,
        Err(SearchError::AnswerAboveUpperBound { bound }) if num(bound) == 10.0
    ));
}

#[test]
fn decreasing_fsmall_negative_fails_at_small() {
    let r = search_monotone(1.0, 10.0, 5.0, 1.0, 10.0, |x| -x - 1.0);
    assert!(matches!(
        r,
        Err(SearchError::AnswerBelowLowerBound { bound }) if num(bound) == 1.0
    ));
}

#[test]
fn decreasing_fbig_positive_fails_at_big() {
    let r = search_monotone(1.0, 10.0, 5.0, 1.0, 10.0, |x| 100.0 - x);
    assert!(matches!(
        r,
        Err(SearchError::AnswerAboveUpperBound { bound }) if num(bound) == 10.0
    ));
}

#[test]
fn converges_immediately_when_fstart_zero() {
    let r = search_monotone(0.0, 10.0, 3.0, 0.0, 10.0, |x| x - 3.0).unwrap();
    assert!((r - 3.0).abs() < 1e-15);
}

#[test]
fn qleft_qhi_bounds_are_passed_through_distinctly() {
    let err = search_monotone(1.0, 10.0, 5.0, 99.0, 999.0, |x| x + 1.0).unwrap_err();
    assert!(
        matches!(err, SearchError::AnswerBelowLowerBound { bound } if num(bound) == 99.0),
        "expected AnswerBelowLowerBound {{ bound: 99.0 }}, got {err:?}"
    );
    let err = search_monotone(1.0, 10.0, 5.0, 99.0, 999.0, |x| x - 100.0).unwrap_err();
    assert!(
        matches!(err, SearchError::AnswerAboveUpperBound { bound } if num(bound) == 999.0),
        "expected AnswerAboveUpperBound {{ bound: 999.0 }}, got {err:?}"
    );
}

#[test]
fn nan_objective_surfaces_as_search_failure() {
    let err = search_monotone(0.0, 1.0, 0.5, 0.0, 1.0, |_| f64::NAN).unwrap_err();
    assert!(matches!(
        err,
        SearchError::AnswerBelowLowerBound { bound } if num(bound) == 0.0
    ));
}
