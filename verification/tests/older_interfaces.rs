//! More of the distributions.
use cdflib::float::F64;
use cdflib::functions::Elementary;
use cdflib::dist::BetaError;
use cdflib::dist::PoissonError;

#[allow(dead_code)]
fn fl(x: f64) -> F64 {
    F64 { bits: x.to_bits() }
}

#[allow(dead_code)]
fn num(x: F64) -> f64 {
    f64::from_bits(x.bits)
}

#[allow(dead_code)]
fn pair(p: (F64, F64)) -> (f64, f64) {
    (num(p.0), num(p.1))
}

#[allow(dead_code)]
fn libm(q: Elementary) -> F64 {
    match q {
        Elementary::Exp(x) => fl(num(x).exp()),
        Elementary::Ln(x) => fl(num(x).ln()),
        Elementary::Sin(x) => fl(num(x).sin()),
        Elementary::Cos(x) => fl(num(x).cos()),
        Elementary::Pow(x, y) => fl(num(x).powf(num(y))),
    }
}

#[derive(Debug, Clone, Copy, PartialEq)]
struct Beta(cdflib::dist::Beta);

#[allow(dead_code)]
impl Beta {
    fn new(a: f64, b: f64) -> Self {
        Self::try_new(a, b).unwrap()
    }
    fn try_new(a: f64, b: f64) -> Result<Self, BetaError> {
        let dist = cdflib::dist::Beta::try_new(fl(a), fl(b))?;
        assert_eq!(dist, cdflib::dist::Beta::new(fl(a), fl(b)));
        Ok(Self(dist))
    }
    fn a(&self) -> f64 {
        num(self.0.a())
    }
    fn b(&self) -> f64 {
        num(self.0.b())
    }
    fn search_a(p: f64, q: f64, x: f64, b: f64) -> Result<f64, BetaError> {
        cdflib::dist::Beta::search_a(&libm, fl(p), fl(q), fl(x), fl(b)).map(num)
    }
    fn search_b(p: f64, q: f64, x: f64, a: f64) -> Result<f64, BetaError> {
        cdflib::dist::Beta::search_b(&libm, fl(p), fl(q), fl(x), fl(a)).map(num)
    }
    fn solve_a(p: f64, x: f64, b: f64) -> Result<f64, BetaError> {
        cdflib::dist::Beta::solve_a(&libm, fl(p), fl(x), fl(b)).map(num)
    }
    fn solve_b(p: f64, x: f64, a: f64) -> Result<f64, BetaError> {
        cdflib::dist::Beta::solve_b(&libm, fl(p), fl(x), fl(a)).map(num)
    }
    fn cdf(&self, x: f64) -> f64 {
        num(cdflib::traits::ContinuousCdf::cdf(&self.0, &libm, fl(x)))
    }
    fn ccdf(&self, x: f64) -> f64 {
        num(cdflib::traits::ContinuousCdf::ccdf(&self.0, &libm, fl(x)))
    }
    fn sf(&self, x: f64) -> f64 {
        num(cdflib::traits::ContinuousCdf::sf(&self.0, &libm, fl(x)))
    }
    fn inverse_cdf(&self, p: f64) -> Result<f64, BetaError> {
        cdflib::traits::ContinuousCdf::inverse_cdf(&self.0, &libm, fl(p)).map(num)
    }
    fn inverse_ccdf(&self, q: f64) -> Result<f64, BetaError> {
        self.0.inverse_ccdf(&libm, fl(q)).map(num)
    }
    fn inverse_sf(&self, q: f64) -> Result<f64, BetaError> {
        self.0.inverse_sf(&libm, fl(q)).map(num)
    }
    fn pdf(&self, x: f64) -> f64 {
        num(cdflib::traits::Continuous::pdf(&self.0, &libm, fl(x)))
    }
    fn ln_pdf(&self, x: f64) -> f64 {
        num(cdflib::traits::Continuous::ln_pdf(&self.0, &libm, fl(x)))
    }
    fn mean(&self) -> f64 {
        num(cdflib::traits::Mean::mean(&self.0))
    }
    fn variance(&self) -> f64 {
        num(cdflib::traits::Variance::variance(&self.0))
    }
    fn std_dev(&self) -> f64 {
        num(cdflib::traits::Variance::std_dev(&self.0))
    }
    fn entropy(&self) -> f64 {
        num(cdflib::traits::Entropy::entropy(&self.0, &libm))
    }
}

#[derive(Debug, Clone, Copy, PartialEq)]
struct Poisson(cdflib::dist::Poisson);

#[allow(dead_code)]
impl Poisson {
    fn new(lambda: f64) -> Self {
        Self::try_new(lambda).unwrap()
    }
    fn try_new(lambda: f64) -> Result<Self, PoissonError> {
        let dist = cdflib::dist::Poisson::try_new(fl(lambda))?;
        assert_eq!(dist, cdflib::dist::Poisson::new(fl(lambda)));
        Ok(Self(dist))
    }
    fn lambda(&self) -> f64 {
        num(self.0.lambda())
    }
    fn search_lambda(p: f64, q: f64, s: u64) -> Result<f64, PoissonError> {
        cdflib::dist::Poisson::search_lambda(&libm, fl(p), fl(q), s).map(num)
    }
    fn solve_lambda(p: f64, s: u64) -> Result<f64, PoissonError> {
        cdflib::dist::Poisson::solve_lambda(&libm, fl(p), s).map(num)
    }
    fn cdf(&self, x: u64) -> f64 {
        num(cdflib::traits::DiscreteCdf::cdf(&self.0, &libm, x))
    }
    fn ccdf(&self, x: u64) -> f64 {
        num(cdflib::traits::DiscreteCdf::ccdf(&self.0, &libm, x))
    }
    fn sf(&self, x: u64) -> f64 {
        num(cdflib::traits::DiscreteCdf::sf(&self.0, &libm, x))
    }
    fn inverse_cdf(&self, p: f64) -> Result<u64, PoissonError> {
        cdflib::traits::DiscreteCdf::inverse_cdf(&self.0, &libm, fl(p))
    }
    fn inverse_sf(&self, q: f64) -> Result<u64, PoissonError> {
        self.0.inverse_sf(&libm, fl(q))
    }
    fn inverse_ccdf(&self, q: f64) -> Result<f64, PoissonError> {
        self.0.inverse_ccdf(&libm, fl(q)).map(num)
    }
    fn pmf(&self, x: u64) -> f64 {
        num(cdflib::traits::Discrete::pmf(&self.0, &libm, x))
    }
    fn ln_pmf(&self, x: u64) -> f64 {
        num(cdflib::traits::Discrete::ln_pmf(&self.0, &libm, x))
    }
    fn mean(&self) -> f64 {
        num(cdflib::traits::Mean::mean(&self.0))
    }
    fn variance(&self) -> f64 {
        num(cdflib::traits::Variance::variance(&self.0))
    }
    fn std_dev(&self) -> f64 {
        num(cdflib::traits::Variance::std_dev(&self.0))
    }
}

#[test]
fn solve_parameter_rejects_invalid_inputs() {
    assert!(matches!(
        Beta::solve_a(-0.1, 0.5, 2.0),
        Err(BetaError::PNotInRange(v)) if num(v) == -0.1));
    assert!(matches!(
        Beta::solve_a(0.5, 0.5, 0.0),
        Err(BetaError::BNotPositive(v)) if num(v) == 0.0));
    assert!(matches!(
        Beta::solve_b(0.5, 0.5, 0.0),
        Err(BetaError::ANotPositive(v)) if num(v) == 0.0));
    assert!(matches!(
        Beta::solve_a(0.5, 1.5, 2.0),
        Err(BetaError::XOutOfRange(v)) if num(v) == 1.5));
    assert!(matches!(
        Beta::solve_b(0.5, -0.1, 2.0),
        Err(BetaError::XOutOfRange(x)) if num(x) == -0.1
    ));
}

#[test]
fn poisson_inverse_zero_and_moments() {
    let p = Poisson::new(4.0);
    assert_eq!(p.inverse_cdf(0.0).unwrap(), 0);
    assert_eq!(p.mean(), 4.0);
    assert_eq!(p.variance(), 4.0);
    assert!(p.ln_pmf(3).is_finite());
}
