//! The distribution in dist/poisson.rs.
use cdflib::float::F64;
use cdflib::functions::Elementary;
use cdflib::dist::PoissonError;

#[allow(dead_code)]
fn fl(x: f64) -> F64 {
    F64 { bits: x.to_bits() }
}

#[allow(dead_code)]
fn num(x: F64) -> f64 {
    f64::from_bits(x.bits)
}

#[allow(dead_code)]
fn pair(p: (F64, F64)) -> (f64, f64) {
    (num(p.0), num(p.1))
}

#[allow(dead_code)]
fn libm(q: Elementary) -> F64 {
    match q {
        Elementary::Exp(x) => fl(num(x).exp()),
        Elementary::Ln(x) => fl(num(x).ln()),
        Elementary::Sin(x) => fl(num(x).sin()),
        Elementary::Cos(x) => fl(num(x).cos()),
        Elementary::Pow(x, y) => fl(num(x).powf(num(y))),
    }
}

#[derive(Debug, Clone, Copy, PartialEq)]
struct Poisson(cdflib::dist::Poisson);

#[allow(dead_code)]
impl Poisson {
    fn new(lambda: f64) -> Self {
        Self::try_new(lambda).unwrap()
    }
    fn try_new(lambda: f64) -> Result<Self, PoissonError> {
        let dist = cdflib::dist::Poisson::try_new(fl(lambda))?;
        assert_eq!(dist, cdflib::dist::Poisson::new(fl(lambda)));
        Ok(Self(dist))
    }
    fn lambda(&self) -> f64 {
        num(self.0.lambda())
    }
    fn search_lambda(p: f64, q: f64, s: u64) -> Result<f64, PoissonError> {
        cdflib::dist::Poisson::search_lambda(&libm, fl(p), fl(q), s).map(num)
    }
    fn solve_lambda(p: f64, s: u64) -> Result<f64, PoissonError> {
        cdflib::dist::Poisson::solve_lambda(&libm, fl(p), s).map(num)
    }
    fn cdf(&self, x: u64) -> f64 {
        num(cdflib::traits::DiscreteCdf::cdf(&self.0, &libm, x))
    }
    fn ccdf(&self, x: u64) -> f64 {
        num(cdflib::traits::DiscreteCdf::ccdf(&self.0, &libm, x))
    }
    fn sf(&self, x: u64) -> f64 {
        num(cdflib::traits::DiscreteCdf::sf(&self.0, &libm, x))
    }
    fn inverse_cdf(&self, p: f64) -> Result<u64, PoissonError> {
        cdflib::traits::DiscreteCdf::inverse_cdf(&self.0, &libm, fl(p))
    }
    fn inverse_sf(&self, q: f64) -> Result<u64, PoissonError> {
        self.0.inverse_sf(&libm, fl(q))
    }
    fn inverse_ccdf(&self, q: f64) -> Result<f64, PoissonError> {
        self.0.inverse_ccdf(&libm, fl(q)).map(num)
    }
    fn pmf(&self, x: u64) -> f64 {
        num(cdflib::traits::Discrete::pmf(&self.0, &libm, x))
    }
    fn ln_pmf(&self, x: u64) -> f64 {
        num(cdflib::traits::Discrete::ln_pmf(&self.0, &libm, x))
    }
    fn mean(&self) -> f64 {
        num(cdflib::traits::Mean::mean(&self.0))
    }
    fn variance(&self) -> f64 {
        num(cdflib::traits::Variance::variance(&self.0))
    }
    fn std_dev(&self) -> f64 {
        num(cdflib::traits::Variance::std_dev(&self.0))
    }
}

#[test]
fn new_rejects_bad_lambda() {
    assert!(matches!(
        Poisson::try_new(-1.0),
        Err(PoissonError::LambdaNegative(_))
    ));
    assert!(Poisson::try_new(0.0).is_ok());
    assert!(matches!(
        Poisson::try_new(f64::NAN),
        Err(PoissonError::LambdaNotFinite(_))
    ));
    assert!(matches!(
        Poisson::try_new(f64::INFINITY),
        Err(PoissonError::LambdaNotFinite(_))
    ));
}

#[test]
fn inverse_ccdf_matches_integer_quantile_at_integer_boundary() {
    let p = Poisson::new(3.0);
    let q_target = p.ccdf(2);
    let s = p.inverse_ccdf(q_target).unwrap();
    assert!((s - 2.0).abs() < 1e-6, "got s = {s}");
}

#[test]
fn inverse_ccdf_between_integers() {
    let p = Poisson::new(3.0);
    let hi_sf = p.ccdf(2);
    let lo_sf = p.ccdf(3);
    let q_target = 0.5 * (lo_sf + hi_sf);
    let s = p.inverse_ccdf(q_target).unwrap();
    assert!(s > 2.0 && s < 3.0, "got s = {s}");
}

#[test]
fn search_lambda_rejects_bad_p() {
    assert!(matches!(
        Poisson::search_lambda(-0.1, 1.1, 3),
        Err(PoissonError::PNotInRange(_))
    ));
    assert!(matches!(
        Poisson::search_lambda(1.5, -0.5, 3),
        Err(PoissonError::PNotInRange(_))
    ));
    assert!(matches!(
        Poisson::search_lambda(f64::NAN, 0.5, 3),
        Err(PoissonError::PNotInRange(_))
    ));
}

#[test]
fn poisson_inverse_cdf_p_zero_returns_zero() {
    let p = Poisson::new(5.0);
    assert_eq!(p.inverse_cdf(0.0).unwrap(), 0);
}

#[test]
fn poisson_inverse_cdf_rejects_bad_p() {
    let p = Poisson::new(5.0);
    assert!(matches!(
        p.inverse_cdf(-0.1),
        Err(PoissonError::PNotInRange(_))
    ));
    assert!(matches!(
        p.inverse_cdf(1.1),
        Err(PoissonError::PNotInRange(_))
    ));
}

#[test]
fn search_lambda_uses_precision_pivot_at_both_tails() {
    let lambda = 5.0_f64;
    let s = 10u64;
    let dist = Poisson::new(lambda);
    let p_target = dist.cdf(s);
    let q_target = dist.ccdf(s);
    let recovered = Poisson::search_lambda(p_target, q_target, s).unwrap();
    assert!(
        (recovered - lambda).abs() < 1e-5,
        "p_target={p_target}, recovered={recovered}"
    );
}

#[test]
fn extreme_right_tail_matches_high_precision_reference() {
    let p = Poisson::new(200.0);
    let expected_cdf = 0.999_999_993_591_493_9;
    let expected_sf = 6.408_506_071_899_014e-9;
    assert!((p.cdf(285) - expected_cdf).abs() < 1e-15);
    assert!((p.ccdf(285) - expected_sf).abs() < 1e-22);
}

#[test]
fn moments_match_lambda() {
    let p = Poisson::new(4.0);
    assert_eq!(p.mean(), 4.0);
    assert_eq!(p.variance(), 4.0);
    assert!(p.ln_pmf(3).is_finite());
}
