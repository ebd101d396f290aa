//! The distribution in dist/beta.rs.
use cdflib::float::F64;
use cdflib::functions::Elementary;
use cdflib::dist::BetaError;

#[allow(dead_code)]
fn fl(x: f64) -> F64 {
    F64 { bits: x.to_bits() }
}

#[allow(dead_code)]
fn num(x: F64) -> f64 {
    f64::from_bits(x.bits)
}

#[allow(dead_code)]
fn pair(p: (F64, F64)) -> (f64, f64) {
    (num(p.0), num(p.1))
}

#[allow(dead_code)]
fn libm(q: Elementary) -> F64 {
    match q {
        Elementary::Exp(x) => fl(num(x).exp()),
        Elementary::Ln(x) => fl(num(x).ln()),
        Elementary::Sin(x) => fl(num(x).sin()),
        Elementary::Cos(x) => fl(num(x).cos()),
        Elementary::Pow(x, y) => fl(num(x).powf(num(y))),
    }
}

#[derive(Debug, Clone, Copy, PartialEq)]
struct Beta(cdflib::dist::Beta);

#[allow(dead_code)]
impl Beta {
    fn new(a: f64, b: f64) -> Self {
        Self::try_new(a, b).unwrap()
    }
    fn try_new(a: f64, b: f64) -> Result<Self, BetaError> {
        let dist = cdflib::dist::Beta::try_new(fl(a), fl(b))?;
        assert_eq!(dist, cdflib::dist::Beta::new(fl(a), fl(b)));
        Ok(Self(dist))
    }
    fn a(&self) -> f64 {
        num(self.0.a())
    }
    fn b(&self) -> f64 {
        num(self.0.b())
    }
    fn search_a(p: f64, q: f64, x: f64, b: f64) -> Result<f64, BetaError> {
        cdflib::dist::Beta::search_a(&libm, fl(p), fl(q), fl(x), fl(b)).map(num)
    }
    fn search_b(p: f64, q: f64, x: f64, a: f64) -> Result<f64, BetaError> {
        cdflib::dist::Beta::search_b(&libm, fl(p), fl(q), fl(x), fl(a)).map(num)
    }
    fn solve_a(p: f64, x: f64, b: f64) -> Result<f64, BetaError> {
        cdflib::dist::Beta::solve_a(&libm, fl(p), fl(x), fl(b)).map(num)
    }
    fn solve_b(p: f64, x: f64, a: f64) -> Result<f64, BetaError> {
        cdflib::dist::Beta::solve_b(&libm, fl(p), fl(x), fl(a)).map(num)
    }
    fn cdf(&self, x: f64) -> f64 {
        num(cdflib::traits::ContinuousCdf::cdf(&self.0, &libm, fl(x)))
    }
    fn ccdf(&self, x: f64) -> f64 {
        num(cdflib::traits::ContinuousCdf::ccdf(&self.0, &libm, fl(x)))
    }
    fn sf(&self, x: f64) -> f64 {
        num(cdflib::traits::ContinuousCdf::sf(&self.0, &libm, fl(x)))
    }
    fn inverse_cdf(&self, p: f64) -> Result<f64, BetaError> {
        cdflib::traits::ContinuousCdf::inverse_cdf(&self.0, &libm, fl(p)).map(num)
    }
    fn inverse_ccdf(&self, q: f64) -> Result<f64, BetaError> {
        self.0.inverse_ccdf(&libm, fl(q)).map(num)
    }
    fn inverse_sf(&self, q: f64) -> Result<f64, BetaError> {
        self.0.inverse_sf(&libm, fl(q)).map(num)
    }
    fn pdf(&self, x: f64) -> f64 {
        num(cdflib::traits::Continuous::pdf(&self.0, &libm, fl(x)))
    }
    fn ln_pdf(&self, x: f64) -> f64 {
        num(cdflib::traits::Continuous::ln_pdf(&self.0, &libm, fl(x)))
    }
    fn mean(&self) -> f64 {
        num(cdflib::traits::Mean::mean(&self.0))
    }
    fn variance(&self) -> f64 {
        num(cdflib::traits::Variance::variance(&self.0))
    }
    fn std_dev(&self) -> f64 {
        num(cdflib::traits::Variance::std_dev(&self.0))
    }
    fn entropy(&self) -> f64 {
        num(cdflib::traits::Entropy::entropy(&self.0, &libm))
    }
}

#[test]
fn beta_rejects_invalid_parameters() {
    assert!(matches!(
        Beta::try_new(0.0, 1.0),
        Err(BetaError::ANotPositive(v)) if num(v) == 0.0));
    assert!(matches!(
        Beta::try_new(1.0, 0.0),
        Err(BetaError::BNotPositive(v)) if num(v) == 0.0));
    assert!(matches!(
        Beta::try_new(f64::NAN, 1.0),
        Err(BetaError::ANotFinite(_))
    ));
    assert!(matches!(
        Beta::try_new(1.0, f64::INFINITY),
        Err(BetaError::BNotFinite(_))
    ));
}

#[test]
fn beta_inverse_boundaries_and_density_edges() {
    let d = Beta::new(2.0, 3.0);
    assert_eq!(d.cdf(0.0), 0.0);
    assert_eq!(d.cdf(1.0), 1.0);
    assert_eq!(d.ccdf(0.0), 1.0);
    assert_eq!(d.ccdf(1.0), 0.0);
    assert_eq!(d.inverse_cdf(0.0).unwrap(), 0.0);
    assert_eq!(d.inverse_cdf(1.0).unwrap(), 1.0);
    assert_eq!(d.inverse_ccdf(1.0).unwrap(), 0.0);
    assert_eq!(d.inverse_ccdf(0.0).unwrap(), 1.0);
    assert_eq!(d.pdf(0.0), 0.0);
    assert_eq!(d.pdf(1.0), 0.0);
    assert_eq!(d.ln_pdf(0.0), f64::NEG_INFINITY);
    assert_eq!(d.ln_pdf(1.0), f64::NEG_INFINITY);
    assert!(d.pdf(0.4).is_finite());
    assert!(d.ln_pdf(0.4).is_finite());
    assert!(d.inverse_ccdf(0.4).unwrap().is_finite());
    assert!(d.mean().is_finite());
    assert!(d.variance().is_finite());
    assert!(d.entropy().is_finite());
}

#[test]
fn search_parameter_rejects_invalid_inputs() {
    assert!(matches!(
        Beta::search_a(-0.1, 1.1, 0.5, 2.0),
        Err(BetaError::PNotInRange(v)) if num(v) == -0.1));
    assert!(matches!(
        Beta::search_a(0.5, 0.5, 0.5, 0.0),
        Err(BetaError::BNotPositive(v)) if num(v) == 0.0));
    assert!(matches!(
        Beta::search_b(0.5, 0.5, 0.5, 0.0),
        Err(BetaError::ANotPositive(v)) if num(v) == 0.0));
    assert!(matches!(
        Beta::search_a(0.5, 0.5, 1.5, 2.0),
        Err(BetaError::XOutOfRange(v)) if num(v) == 1.5));
    assert!(matches!(
        Beta::search_b(0.5, 0.5, -0.1, 2.0),
        Err(BetaError::XOutOfRange(x)) if num(x) == -0.1
    ));
}
