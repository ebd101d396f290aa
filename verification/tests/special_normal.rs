//! The normal distribution function and its inverse.
use cdflib::float::F64;
use cdflib::functions::Elementary;

#[allow(dead_code)]
fn fl(x: f64) -> F64 {
    F64 { bits: x.to_bits() }
}

#[allow(dead_code)]
fn num(x: F64) -> f64 {
    f64::from_bits(x.bits)
}

#[allow(dead_code)]
fn pair(p: (F64, F64)) -> (f64, f64) {
    (num(p.0), num(p.1))
}

#[allow(dead_code)]
fn libm(q: Elementary) -> F64 {
    match q {
        Elementary::Exp(x) => fl(num(x).exp()),
        Elementary::Ln(x) => fl(num(x).ln()),
        Elementary::Sin(x) => fl(num(x).sin()),
        Elementary::Cos(x) => fl(num(x).cos()),
        Elementary::Pow(x, y) => fl(num(x).powf(num(y))),
    }
}

#[allow(dead_code)]
fn cumnor(x: f64) -> (f64, f64) {
    pair(cdflib::special::normal::cumnor(&libm, fl(x)))
}

#[allow(dead_code)]
fn dinvnr(p: f64, q: f64) -> f64 {
    num(cdflib::special::normal::dinvnr(&libm, fl(p), fl(q)))
}

#[allow(dead_code)]
fn dlanor(x: f64) -> f64 {
    if x.abs() < 5.0 {
        panic!("dlanor: argument |x| must be ≥ 5 (got {x})");
    }
    num(cdflib::special::normal::dlanor(&libm, fl(x)))
}

#[allow(dead_code)]
fn dt1(p: f64, q: f64, df: f64) -> f64 {
    num(cdflib::special::students_t::dt1(&libm, fl(p), fl(q), fl(df)))
}

#[test]
fn dlanor_matches_log_cumnor_tail() {
    for &x in &[5.0_f64, 6.0, 7.0, 8.0, 10.0, 15.0] {
        let log_q = dlanor(x);
        let (_, q) = cumnor(x);
        let rel = (log_q.exp() - q).abs() / q;
        assert!(
            rel < 1e-5,
            "x={x}: dlanor.exp={}, ccum={q}, rel={rel}",
            log_q.exp()
        );
    }
}

#[test]
fn dlanor_symmetric_in_magnitude() {
    for &x in &[5.5_f64, 8.0, 12.0] {
        assert_eq!(dlanor(x), dlanor(-x));
    }
}

#[test]
fn dlanor_decreasing_in_x() {
    let a = dlanor(5.0);
    let b = dlanor(10.0);
    let c = dlanor(20.0);
    assert!(a > b && b > c);
}

#[test]
#[should_panic(expected = "argument |x| must be ≥ 5")]
fn dlanor_panics_below_threshold() {
    let _ = dlanor(4.99);
}

#[test]
fn cumnor_at_zero() {
    let (p, q) = cumnor(0.0);
    assert!((p - 0.5).abs() < 1e-15, "p = {p}");
    assert!((q - 0.5).abs() < 1e-15, "q = {q}");
}

#[test]
fn cumnor_at_one_sigma() {
    let (p, q) = cumnor(1.0);
    assert!((p - 0.8413447460685429).abs() < 1e-14, "p = {p}");
    assert!((p + q - 1.0).abs() < 1e-15);
}

#[test]
fn cumnor_symmetry() {
    for &x in &[0.1, 1.0, 2.5, 4.0, 8.0] {
        let (p_pos, q_pos) = cumnor(x);
        let (p_neg, q_neg) = cumnor(-x);
        assert!((p_pos - q_neg).abs() < 1e-15, "x = {x}");
        assert!((q_pos - p_neg).abs() < 1e-15, "x = {x}");
    }
}

#[test]
fn cumnor_tail_accuracy() {
    let (_p, q) = cumnor(10.0);
    assert!(q > 0.0 && q < 1e-22, "q = {q}");
}

#[test]
fn dinvnr_roundtrip() {
    for &x in &[-3.0, -1.0, -0.1, 0.5, 2.0, 4.0] {
        let (p, q) = cumnor(x);
        let back = dinvnr(p, q);
        assert!((back - x).abs() < 1e-12, "x = {x}, back = {back}");
    }
}

#[test]
fn dinvnr_tail_accuracy() {
    let (_p, q) = cumnor(5.0);
    let back = dinvnr(1.0 - q, q);
    assert!((back - 5.0).abs() < 1e-9, "back = {back}");
}

#[test]
fn dt1_at_median_is_essentially_zero() {
    for &df in &[1.0_f64, 5.0, 50.0, 1.0e6] {
        let r = dt1(0.5, 0.5, df);
        assert!(r.abs() < 1e-15, "df = {df}: dt1(0.5, 0.5) = {r}");
    }
}

#[test]
fn dt1_symmetric_around_median() {
    for &df in &[1.0_f64, 5.0, 50.0] {
        for &p in &[0.1_f64, 0.3, 0.7, 0.9, 0.99] {
            let a = dt1(p, 1.0 - p, df);
            let b = dt1(1.0 - p, p, df);
            assert!(
                (a + b).abs() < 1e-13,
                "p={p}, df={df}: dt1(p,1-p)={a}, dt1(1-p,p)={b}, sum={}",
                a + b
            );
        }
    }
}

#[test]
fn dt1_approaches_normal_quantile_for_large_df() {
    for &(p, q) in &[(0.7_f64, 0.3), (0.9, 0.1), (0.975, 0.025), (0.999, 0.001)] {
        let z = dinvnr(p, q);
        let t = dt1(p, q, 1.0e6);
        assert!((t - z).abs() < 1e-4, "p={p}: t = {t}, z = {z}");
    }
}

#[test]
fn dt1_known_value_at_df_10() {
    let r = dt1(0.975, 0.025, 10.0);
    assert!((r - 2.228138851).abs() < 5e-3, "r = {r}");
}

#[test]
fn dt1_known_value_at_df_5() {
    let r = dt1(0.975, 0.025, 5.0);
    assert!((r - 2.5705818356).abs() < 5e-2, "r = {r}");
}

#[test]
fn dt1_sign_follows_p() {
    assert!(dt1(0.3, 0.7, 5.0) < 0.0);
    assert!(dt1(0.7, 0.3, 5.0) > 0.0);
    assert!(dt1(0.001, 0.999, 5.0) < -1.0);
    assert!(dt1(0.999, 0.001, 5.0) > 1.0);
}
