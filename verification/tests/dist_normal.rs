//! The distribution in dist/normal.rs.
use cdflib::float::F64;
use cdflib::functions::Elementary;
use cdflib::dist::NormalError;
use std::f64::consts::{E, PI};

#[allow(dead_code)]
fn fl(x: f64) -> F64 {
    F64 { bits: x.to_bits() }
}

#[allow(dead_code)]
fn num(x: F64) -> f64 {
    f64::from_bits(x.bits)
}

#[allow(dead_code)]
fn pair(p: (F64, F64)) -> (f64, f64) {
    (num(p.0), num(p.1))
}

#[allow(dead_code)]
fn libm(q: Elementary) -> F64 {
    match q {
        Elementary::Exp(x) => fl(num(x).exp()),
        Elementary::Ln(x) => fl(num(x).ln()),
        Elementary::Sin(x) => fl(num(x).sin()),
        Elementary::Cos(x) => fl(num(x).cos()),
        Elementary::Pow(x, y) => fl(num(x).powf(num(y))),
    }
}

#[derive(Debug, Clone, Copy, PartialEq)]
struct Normal(cdflib::dist::Normal);

#[allow(dead_code)]
impl Normal {
    fn new(mean: f64, sd: f64) -> Self {
        Self::try_new(mean, sd).unwrap()
    }
    fn try_new(mean: f64, sd: f64) -> Result<Self, NormalError> {
        let dist = cdflib::dist::Normal::try_new(fl(mean), fl(sd))?;
        assert_eq!(dist, cdflib::dist::Normal::new(fl(mean), fl(sd)));
        Ok(Self(dist))
    }
    fn mean(&self) -> f64 {
        num(self.0.mean())
    }
    fn sd(&self) -> f64 {
        num(self.0.sd())
    }
    fn solve_mean(p: f64, q: f64, x: f64, sd: f64) -> Result<f64, NormalError> {
        cdflib::dist::Normal::solve_mean(&libm, fl(p), fl(q), fl(x), fl(sd)).map(num)
    }
    fn solve_sd(p: f64, q: f64, x: f64, mean: f64) -> Result<f64, NormalError> {
        cdflib::dist::Normal::solve_sd(&libm, fl(p), fl(q), fl(x), fl(mean)).map(num)
    }
    fn cdf(&self, x: f64) -> f64 {
        num(cdflib::traits::ContinuousCdf::cdf(&self.0, &libm, fl(x)))
    }
    fn ccdf(&self, x: f64) -> f64 {
        num(cdflib::traits::ContinuousCdf::ccdf(&self.0, &libm, fl(x)))
    }
    fn sf(&self, x: f64) -> f64 {
        num(cdflib::traits::ContinuousCdf::sf(&self.0, &libm, fl(x)))
    }
    fn inverse_cdf(&self, p: f64) -> Result<f64, NormalError> {
        cdflib::traits::ContinuousCdf::inverse_cdf(&self.0, &libm, fl(p)).map(num)
    }
    fn inverse_sf(&self, q: f64) -> Result<f64, NormalError> {
        self.0.inverse_sf(&libm, fl(q)).map(num)
    }
    fn pdf(&self, x: f64) -> f64 {
        num(cdflib::traits::Continuous::pdf(&self.0, &libm, fl(x)))
    }
    fn ln_pdf(&self, x: f64) -> f64 {
        num(cdflib::traits::Continuous::ln_pdf(&self.0, &libm, fl(x)))
    }
    fn variance(&self) -> f64 {
        num(cdflib::traits::Variance::variance(&self.0))
    }
    fn std_dev(&self) -> f64 {
        num(cdflib::traits::Variance::std_dev(&self.0))
    }
    fn entropy(&self) -> f64 {
        num(cdflib::traits::Entropy::entropy(&self.0, &libm))
    }
    fn standard() -> Self {
        Self(cdflib::dist::Normal::standard())
    }
}

#[test]
fn normal_new_rejects_bad_sd() {
    assert!(matches!(
        Normal::try_new(0.0, -1.0),
        Err(NormalError::SdNotPositive(_))
    ));
    assert!(matches!(
        Normal::try_new(0.0, 0.0),
        Err(NormalError::SdNotPositive(_))
    ));
    assert!(matches!(
        Normal::try_new(0.0, f64::NAN),
        Err(NormalError::SdNotFinite(_))
    ));
    assert!(matches!(
        Normal::try_new(f64::INFINITY, 1.0),
        Err(NormalError::MeanNotFinite(_))
    ));
}

#[test]
fn normal_standard_normal_at_one_sigma() {
    let n = Normal::standard();
    let p = n.cdf(1.0);
    assert!((p - 0.8413447460685429).abs() < 1e-14, "p = {p}");
}

#[test]
fn normal_sf_matches_1_minus_cdf_at_moderate_x() {
    let n = Normal::new(2.0, 3.0);
    for &x in &[-1.0, 0.0, 2.0, 4.0] {
        let s = (n.sf(x) + n.cdf(x) - 1.0).abs();
        assert!(s < 1e-14, "x = {x}: sum - 1 = {s}");
    }
}

#[test]
fn normal_sf_stays_accurate_in_deep_right_tail() {
    let n = Normal::new(0.0, 1.0);
    let s = n.sf(10.0);
    assert!(s > 0.0 && s < 1e-22, "sf(10) = {s}");
}

#[test]
fn normal_inverse_cdf_round_trip() {
    let n = Normal::new(-1.0, 2.5);
    for &x in &[-5.0, -1.0, 0.0, 3.0] {
        let p = n.cdf(x);
        let back = n.inverse_cdf(p).unwrap();
        assert!((back - x).abs() < 1e-10, "x={x}, back={back}");
    }
}

#[test]
fn normal_inverse_sf_handles_tiny_tails() {
    let n = Normal::standard();
    let q = n.sf(7.0);
    let back = n.inverse_sf(q).unwrap();
    assert!((back - 7.0).abs() < 1e-9, "back = {back}");
}

#[test]
fn normal_solve_mean_inverts_cdf_relation() {
    let mean = Normal::solve_mean(0.975, 0.025, 2.0, 1.0).unwrap();
    let expected = 2.0 - 1.9599639845400545;
    assert!((mean - expected).abs() < 1e-10, "mean = {mean}");
}

#[test]
fn normal_solve_sd_inverts_cdf_relation() {
    let sd = Normal::solve_sd(0.975, 0.025, 2.0, 0.0).unwrap();
    let expected = 2.0 / 1.9599639845400545;
    assert!((sd - expected).abs() < 1e-10, "sd = {sd}");
}

#[test]
fn solve_sd_underdetermined_no_longer_typed_error() {
    let r = Normal::solve_sd(0.5, 0.5, 3.0, 3.0).unwrap();
    assert_eq!(r, 0.0, "expected the F90 underdetermined value 0; got {r}");
}

#[test]
fn solve_mean_rejects_bad_inputs() {
    assert!(matches!(
        Normal::solve_mean(-0.1, 1.1, 0.0, 1.0),
        Err(NormalError::PNotInRange(_))
    ));
    assert!(matches!(
        Normal::solve_mean(1.1, -0.1, 0.0, 1.0),
        Err(NormalError::PNotInRange(_))
    ));
    assert!(matches!(
        Normal::solve_mean(0.3, 0.3, 0.0, 1.0),
        Err(NormalError::PQSumNotOne { .. })
    ));
    assert!(matches!(
        Normal::solve_mean(0.5, 0.5, 0.0, f64::NAN),
        Err(NormalError::SdNotFinite(_))
    ));
    assert!(matches!(
        Normal::solve_mean(0.5, 0.5, 0.0, -1.0),
        Err(NormalError::SdNotPositive(_))
    ));
    assert!(matches!(
        Normal::solve_mean(0.5, 0.5, 0.0, 0.0),
        Err(NormalError::SdNotPositive(_))
    ));
}

#[test]
fn solve_sd_rejects_bad_inputs() {
    assert!(matches!(
        Normal::solve_sd(-0.1, 1.1, 0.0, 0.0),
        Err(NormalError::PNotInRange(_))
    ));
    assert!(matches!(
        Normal::solve_sd(1.5, -0.5, 0.0, 0.0),
        Err(NormalError::PNotInRange(_))
    ));
    assert!(matches!(
        Normal::solve_sd(0.5, 0.5, 0.0, f64::NAN),
        Err(NormalError::MeanNotFinite(_))
    ));
    assert!(matches!(
        Normal::solve_sd(0.5, 0.5, 0.0, f64::INFINITY),
        Err(NormalError::MeanNotFinite(_))
    ));
}

#[test]
fn solve_mean_tail_precision_with_independent_q() {
    let q = 1.0e-15;
    let p = 1.0 - q;
    let mean_independent = Normal::solve_mean(p, q, 2.0, 1.0).unwrap();
    assert!(mean_independent < 0.0);
}

#[test]
fn normal_pdf_at_mean_is_1_over_sd_sqrt_2pi() {
    for sd in [0.5, 1.0, 3.7] {
        let n = Normal::new(0.0, sd);
        let expected = 1.0 / (sd * (2.0 * PI).sqrt());
        let got = n.pdf(0.0);
        assert!((got - expected).abs() < 1e-15, "sd = {sd}");
    }
}

#[test]
fn normal_moments() {
    let n = Normal::new(-2.0, 3.0);
    assert_eq!(n.mean(), -2.0);
    assert_eq!(n.variance(), 9.0);
    assert_eq!(n.std_dev(), 3.0);
    let expected_entropy = 0.5 * (2.0 * PI * E * 9.0).ln();
    assert!((n.entropy() - expected_entropy).abs() < 1e-15);
}
