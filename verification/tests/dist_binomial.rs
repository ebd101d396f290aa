//! The distribution in dist/binomial.rs.
use cdflib::float::F64;
use cdflib::functions::Elementary;
use cdflib::dist::BinomialError;

#[allow(dead_code)]
fn fl(x: f64) -> F64 {
    F64 { bits: x.to_bits() }
}

#[allow(dead_code)]
fn num(x: F64) -> f64 {
    f64::from_bits(x.bits)
}

#[allow(dead_code)]
fn pair(p: (F64, F64)) -> (f64, f64) {
    (num(p.0), num(p.1))
}

#[allow(dead_code)]
fn libm(q: Elementary) -> F64 {
    match q {
        Elementary::Exp(x) => fl(num(x).exp()),
        Elementary::Ln(x) => fl(num(x).ln()),
        Elementary::Sin(x) => fl(num(x).sin()),
        Elementary::Cos(x) => fl(num(x).cos()),
        Elementary::Pow(x, y) => fl(num(x).powf(num(y))),
    }
}

#[derive(Debug, Clone, Copy, PartialEq)]
struct Binomial(cdflib::dist::Binomial);

#[allow(dead_code)]
impl Binomial {
    fn new(n: u64, pr: f64) -> Self {
        Self::try_new(n, pr).unwrap()
    }
    fn try_new(n: u64, pr: f64) -> Result<Self, BinomialError> {
        let dist = cdflib::dist::Binomial::try_new(n, fl(pr))?;
        assert_eq!(dist, cdflib::dist::Binomial::new(n, fl(pr)));
        Ok(Self(dist))
    }
    fn n(&self) -> u64 {
        self.0.n()
    }
    fn pr(&self) -> f64 {
        num(self.0.pr())
    }
    fn solve_trials(p: f64, pr: f64, s: u64) -> Result<f64, BinomialError> {
        cdflib::dist::Binomial::solve_trials(&libm, fl(p), fl(pr), s).map(num)
    }
    fn solve_pr(p: f64, n: u64, s: u64) -> Result<f64, BinomialError> {
        cdflib::dist::Binomial::solve_pr(&libm, fl(p), n, s).map(num)
    }
    fn cdf(&self, x: u64) -> f64 {
        num(cdflib::traits::DiscreteCdf::cdf(&self.0, &libm, x))
    }
    fn ccdf(&self, x: u64) -> f64 {
        num(cdflib::traits::DiscreteCdf::ccdf(&self.0, &libm, x))
    }
    fn sf(&self, x: u64) -> f64 {
        num(cdflib::traits::DiscreteCdf::sf(&self.0, &libm, x))
    }
    fn inverse_cdf(&self, p: f64) -> Result<u64, BinomialError> {
        cdflib::traits::DiscreteCdf::inverse_cdf(&self.0, &libm, fl(p))
    }
    fn inverse_sf(&self, q: f64) -> Result<u64, BinomialError> {
        self.0.inverse_sf(&libm, fl(q))
    }
    fn pmf(&self, x: u64) -> f64 {
        num(cdflib::traits::Discrete::pmf(&self.0, &libm, x))
    }
    fn ln_pmf(&self, x: u64) -> f64 {
        num(cdflib::traits::Discrete::ln_pmf(&self.0, &libm, x))
    }
    fn mean(&self) -> f64 {
        num(cdflib::traits::Mean::mean(&self.0))
    }
    fn variance(&self) -> f64 {
        num(cdflib::traits::Variance::variance(&self.0))
    }
    fn std_dev(&self) -> f64 {
        num(cdflib::traits::Variance::std_dev(&self.0))
    }
}

#[test]
fn binomial_rejects_invalid_inputs() {
    assert!(matches!(
        Binomial::try_new(10, -0.1),
        Err(BinomialError::PrOutOfRange(v)) if num(v) == -0.1));
    assert!(matches!(
        Binomial::solve_trials(-0.1, 0.5, 3),
        Err(BinomialError::ProbabilityOutOfRange(v)) if num(v) == -0.1));
    assert!(matches!(
        Binomial::solve_trials(0.5, f64::NAN, 3),
        Err(BinomialError::PrOutOfRange(x)) if num(x).is_nan()
    ));
    assert!(matches!(
        Binomial::solve_pr(0.5, 3, 4),
        Err(BinomialError::SuccessesExceedTrials { s: 4, n: 3 })
    ));
}

#[test]
fn edge_and_moment_cases() {
    let b = Binomial::new(10, 0.3);
    assert_eq!(b.inverse_cdf(0.0).unwrap(), 0);
    assert_eq!(b.pmf(11), 0.0);
    assert_eq!(b.ln_pmf(11), f64::NEG_INFINITY);
    assert_eq!(Binomial::new(10, 0.0).ln_pmf(0), 0.0);
    assert_eq!(Binomial::new(10, 1.0).ln_pmf(10), 0.0);
    assert_eq!(b.mean(), 3.0);
    assert!((b.variance() - 2.1).abs() < 1e-15);
}
