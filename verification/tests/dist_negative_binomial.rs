//! The distribution in dist/negative_binomial.rs.
use cdflib::float::F64;
use cdflib::functions::Elementary;
use cdflib::dist::NegativeBinomialError;

#[allow(dead_code)]
fn fl(x: f64) -> F64 {
    F64 { bits: x.to_bits() }
}

#[allow(dead_code)]
fn num(x: F64) -> f64 {
    f64::from_bits(x.bits)
}

#[allow(dead_code)]
fn pair(p: (F64, F64)) -> (f64, f64) {
    (num(p.0), num(p.1))
}

#[allow(dead_code)]
fn libm(q: Elementary) -> F64 {
    match q {
        Elementary::Exp(x) => fl(num(x).exp()),
        Elementary::Ln(x) => fl(num(x).ln()),
        Elementary::Sin(x) => fl(num(x).sin()),
        Elementary::Cos(x) => fl(num(x).cos()),
        Elementary::Pow(x, y) => fl(num(x).powf(num(y))),
    }
}

#[derive(Debug, Clone, Copy, PartialEq)]
struct NegativeBinomial(cdflib::dist::NegativeBinomial);

#[allow(dead_code)]
impl NegativeBinomial {
    fn new(r: u64, pr: f64) -> Self {
        Self::try_new(r, pr).unwrap()
    }
    fn try_new(r: u64, pr: f64) -> Result<Self, NegativeBinomialError> {
        let dist = cdflib::dist::NegativeBinomial::try_new(r, fl(pr))?;
        assert_eq!(dist, cdflib::dist::NegativeBinomial::new(r, fl(pr)));
        Ok(Self(dist))
    }
    fn r(&self) -> u64 {
        self.0.r()
    }
    fn pr(&self) -> f64 {
        num(self.0.pr())
    }
    fn solve_r(p: f64, pr: f64, s: u64) -> Result<f64, NegativeBinomialError> {
        cdflib::dist::NegativeBinomial::solve_r(&libm, fl(p), fl(pr), s).map(num)
    }
    fn solve_trials(p: f64, pr: f64, s: u64) -> Result<f64, NegativeBinomialError> {
        cdflib::dist::NegativeBinomial::solve_trials(&libm, fl(p), fl(pr), s).map(num)
    }
    fn solve_pr(p: f64, r: u64, s: u64) -> Result<f64, NegativeBinomialError> {
        cdflib::dist::NegativeBinomial::solve_pr(&libm, fl(p), r, s).map(num)
    }
    fn cdf(&self, x: u64) -> f64 {
        num(cdflib::traits::DiscreteCdf::cdf(&self.0, &libm, x))
    }
    fn ccdf(&self, x: u64) -> f64 {
        num(cdflib::traits::DiscreteCdf::ccdf(&self.0, &libm, x))
    }
    fn sf(&self, x: u64) -> f64 {
        num(cdflib::traits::DiscreteCdf::sf(&self.0, &libm, x))
    }
    fn inverse_cdf(&self, p: f64) -> Result<u64, NegativeBinomialError> {
        cdflib::traits::DiscreteCdf::inverse_cdf(&self.0, &libm, fl(p))
    }
    fn inverse_sf(&self, q: f64) -> Result<u64, NegativeBinomialError> {
        self.0.inverse_sf(&libm, fl(q))
    }
    fn pmf(&self, x: u64) -> f64 {
        num(cdflib::traits::Discrete::pmf(&self.0, &libm, x))
    }
    fn ln_pmf(&self, x: u64) -> f64 {
        num(cdflib::traits::Discrete::ln_pmf(&self.0, &libm, x))
    }
    fn mean(&self) -> f64 {
        num(cdflib::traits::Mean::mean(&self.0))
    }
    fn variance(&self) -> f64 {
        num(cdflib::traits::Variance::variance(&self.0))
    }
    fn std_dev(&self) -> f64 {
        num(cdflib::traits::Variance::std_dev(&self.0))
    }
}

#[test]
fn negative_binomial_rejects_invalid_parameters() {
    assert!(matches!(
        NegativeBinomial::try_new(0, 0.5),
        Err(NegativeBinomialError::RNotPositive)
    ));
    assert!(matches!(
        NegativeBinomial::try_new(1, 0.0),
        Err(NegativeBinomialError::PrOutOfRange(v)) if num(v) == 0.0));
}

#[test]
fn negative_binomial_inverse_zero_and_moments() {
    let d = NegativeBinomial::new(5, 0.4);
    assert_eq!(d.inverse_cdf(0.0).unwrap(), 0);
    assert!(d.ln_pmf(3).is_finite());
    assert!(d.mean().is_finite());
    assert!(d.variance().is_finite());
}

#[test]
fn solve_helpers_reject_invalid_inputs() {
    assert!(matches!(
        NegativeBinomial::solve_r(-0.1, 0.5, 3),
        Err(NegativeBinomialError::ProbabilityOutOfRange(v)) if num(v) == -0.1));
    assert!(matches!(
        NegativeBinomial::solve_r(0.5, 0.0, 3),
        Err(NegativeBinomialError::PrOutOfRange(v)) if num(v) == 0.0));
}
