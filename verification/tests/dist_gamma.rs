//! The distribution in dist/gamma.rs.
use cdflib::float::F64;
use cdflib::functions::Elementary;
use cdflib::dist::GammaError;

#[allow(dead_code)]
fn fl(x: f64) -> F64 {
    F64 { bits: x.to_bits() }
}

#[allow(dead_code)]
fn num(x: F64) -> f64 {
    f64::from_bits(x.bits)
}

#[allow(dead_code)]
fn pair(p: (F64, F64)) -> (f64, f64) {
    (num(p.0), num(p.1))
}

#[allow(dead_code)]
fn libm(q: Elementary) -> F64 {
    match q {
        Elementary::Exp(x) => fl(num(x).exp()),
        Elementary::Ln(x) => fl(num(x).ln()),
        Elementary::Sin(x) => fl(num(x).sin()),
        Elementary::Cos(x) => fl(num(x).cos()),
        Elementary::Pow(x, y) => fl(num(x).powf(num(y))),
    }
}

#[derive(Debug, Clone, Copy, PartialEq)]
struct Gamma(cdflib::dist::Gamma);

#[allow(dead_code)]
impl Gamma {
    fn new(shape: f64, rate: f64) -> Self {
        Self::try_new(shape, rate).unwrap()
    }
    fn try_new(shape: f64, rate: f64) -> Result<Self, GammaError> {
        let dist = cdflib::dist::Gamma::try_new(fl(shape), fl(rate))?;
        assert_eq!(dist, cdflib::dist::Gamma::new(fl(shape), fl(rate)));
        Ok(Self(dist))
    }
    fn shape(&self) -> f64 {
        num(self.0.shape())
    }
    fn rate(&self) -> f64 {
        num(self.0.rate())
    }
    fn solve_shape(p: f64, q: f64, x: f64, rate: f64) -> Result<f64, GammaError> {
        cdflib::dist::Gamma::solve_shape(&libm, fl(p), fl(q), fl(x), fl(rate)).map(num)
    }
    fn solve_rate(p: f64, q: f64, x: f64, shape: f64) -> Result<f64, GammaError> {
        cdflib::dist::Gamma::solve_rate(&libm, fl(p), fl(q), fl(x), fl(shape)).map(num)
    }
    fn cdf(&self, x: f64) -> f64 {
        num(cdflib::traits::ContinuousCdf::cdf(&self.0, &libm, fl(x)))
    }
    fn ccdf(&self, x: f64) -> f64 {
        num(cdflib::traits::ContinuousCdf::ccdf(&self.0, &libm, fl(x)))
    }
    fn sf(&self, x: f64) -> f64 {
        num(cdflib::traits::ContinuousCdf::sf(&self.0, &libm, fl(x)))
    }
    fn inverse_cdf(&self, p: f64) -> Result<f64, GammaError> {
        cdflib::traits::ContinuousCdf::inverse_cdf(&self.0, &libm, fl(p)).map(num)
    }
    fn inverse_sf(&self, q: f64) -> Result<f64, GammaError> {
        self.0.inverse_sf(&libm, fl(q)).map(num)
    }
    fn pdf(&self, x: f64) -> f64 {
        num(cdflib::traits::Continuous::pdf(&self.0, &libm, fl(x)))
    }
    fn ln_pdf(&self, x: f64) -> f64 {
        num(cdflib::traits::Continuous::ln_pdf(&self.0, &libm, fl(x)))
    }
    fn mean(&self) -> f64 {
        num(cdflib::traits::Mean::mean(&self.0))
    }
    fn variance(&self) -> f64 {
        num(cdflib::traits::Variance::variance(&self.0))
    }
    fn std_dev(&self) -> f64 {
        num(cdflib::traits::Variance::std_dev(&self.0))
    }
    fn entropy(&self) -> f64 {
        num(cdflib::traits::Entropy::entropy(&self.0, &libm))
    }
}

#[test]
fn gamma_cdf_reduces_to_exponential_for_shape_1() {
    let g = Gamma::new(1.0, 2.0);
    for &x in &[0.5_f64, 1.0, 4.0, 10.0] {
        let expected = 1.0 - (-x * 2.0).exp();
        assert!((g.cdf(x) - expected).abs() < 1e-13, "x={x}");
    }
}

#[test]
fn gamma_moments() {
    let g = Gamma::new(3.0, 2.0);
    assert_eq!(g.mean(), 1.5);
    assert_eq!(g.variance(), 0.75);
}

#[test]
fn gamma_pdf_at_mode() {
    let g = Gamma::new(3.0, 2.0);
    let mode = (3.0 - 1.0) / 2.0;
    let pm = g.pdf(mode);
    assert!(pm > g.pdf(mode * 0.5));
    assert!(pm > g.pdf(mode * 2.0));
}

#[test]
fn rejects_invalid_parameters_and_probabilities() {
    assert!(matches!(
        Gamma::try_new(0.0, 1.0),
        Err(GammaError::ShapeNotPositive(v)) if num(v) == 0.0));
    assert!(matches!(
        Gamma::try_new(1.0, 0.0),
        Err(GammaError::RateNotPositive(v)) if num(v) == 0.0));
    assert!(matches!(
        Gamma::try_new(f64::INFINITY, 1.0),
        Err(GammaError::ShapeNotFinite(x)) if num(x).is_infinite()
    ));
    assert!(matches!(
        Gamma::try_new(1.0, f64::INFINITY),
        Err(GammaError::RateNotFinite(x)) if num(x).is_infinite()
    ));
    assert!(matches!(
        Gamma::solve_shape(-0.1, 1.1, 1.0, 1.0),
        Err(GammaError::ProbabilityOutOfRange(v)) if num(v) == -0.1));
}

#[test]
fn gamma_inverse_and_density_edges() {
    let g = Gamma::new(2.0, 3.0);
    assert_eq!(g.inverse_cdf(0.0).unwrap(), 0.0);
    assert_eq!(g.inverse_sf(1.0).unwrap(), 0.0);
    assert_eq!(g.pdf(0.0), 0.0);
    assert_eq!(g.ln_pdf(0.0), f64::NEG_INFINITY);
    assert_eq!(g.cdf(-1.0), 0.0);
    assert_eq!(g.sf(-1.0), 1.0);
    assert!(g.sf(1.0).is_finite());
    assert!(g.inverse_sf(0.25).unwrap().is_finite());
    assert!(g.entropy().is_finite());
}

#[test]
fn solve_parameter_rejects_nonpositive_inputs() {
    assert!(matches!(
        Gamma::solve_shape(0.5, 0.5, 0.0, 1.0),
        Err(GammaError::XNotPositive(v)) if num(v) == 0.0));
    assert!(matches!(
        Gamma::solve_shape(0.5, 0.5, 1.0, 0.0),
        Err(GammaError::RateNotPositive(v)) if num(v) == 0.0));
    assert!(matches!(
        Gamma::solve_rate(0.5, 0.5, 1.0, 0.0),
        Err(GammaError::ShapeNotPositive(v)) if num(v) == 0.0));
    assert!(matches!(
        Gamma::solve_rate(0.5, 0.5, -0.1, 2.0),
        Err(GammaError::XNotPositive(x)) if num(x) == -0.1
    ));
}
