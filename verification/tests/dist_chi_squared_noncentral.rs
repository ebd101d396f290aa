//! The distribution in dist/chi_squared_noncentral.rs.
use cdflib::float::F64;
use cdflib::functions::Elementary;
use cdflib::dist::ChiSquaredNoncentralError;

#[allow(dead_code)]
fn fl(x: f64) -> F64 {
    F64 { bits: x.to_bits() }
}

#[allow(dead_code)]
fn num(x: F64) -> f64 {
    f64::from_bits(x.bits)
}

#[allow(dead_code)]
fn pair(p: (F64, F64)) -> (f64, f64) {
    (num(p.0), num(p.1))
}

#[allow(dead_code)]
fn libm(q: Elementary) -> F64 {
    match q {
        Elementary::Exp(x) => fl(num(x).exp()),
        Elementary::Ln(x) => fl(num(x).ln()),
        Elementary::Sin(x) => fl(num(x).sin()),
        Elementary::Cos(x) => fl(num(x).cos()),
        Elementary::Pow(x, y) => fl(num(x).powf(num(y))),
    }
}

#[derive(Debug, Clone, Copy, PartialEq)]
struct ChiSquaredNoncentral(cdflib::dist::ChiSquaredNoncentral);

#[allow(dead_code)]
impl ChiSquaredNoncentral {
    fn new(df: f64, ncp: f64) -> Self {
        Self::try_new(df, ncp).unwrap()
    }
    fn try_new(df: f64, ncp: f64) -> Result<Self, ChiSquaredNoncentralError> {
        let dist = cdflib::dist::ChiSquaredNoncentral::try_new(fl(df), fl(ncp))?;
        assert_eq!(dist, cdflib::dist::ChiSquaredNoncentral::new(fl(df), fl(ncp)));
        Ok(Self(dist))
    }
    fn df(&self) -> f64 {
        num(self.0.df())
    }
    fn ncp(&self) -> f64 {
        num(self.0.ncp())
    }
    fn search_df(p: f64, x: f64, ncp: f64) -> Result<f64, ChiSquaredNoncentralError> {
        cdflib::dist::ChiSquaredNoncentral::search_df(&libm, fl(p), fl(x), fl(ncp)).map(num)
    }
    fn search_ncp(p: f64, x: f64, df: f64) -> Result<f64, ChiSquaredNoncentralError> {
        cdflib::dist::ChiSquaredNoncentral::search_ncp(&libm, fl(p), fl(x), fl(df)).map(num)
    }
    fn solve_df(p: f64, x: f64, ncp: f64) -> Result<f64, ChiSquaredNoncentralError> {
        cdflib::dist::ChiSquaredNoncentral::solve_df(&libm, fl(p), fl(x), fl(ncp)).map(num)
    }
    fn solve_ncp(p: f64, x: f64, df: f64) -> Result<f64, ChiSquaredNoncentralError> {
        cdflib::dist::ChiSquaredNoncentral::solve_ncp(&libm, fl(p), fl(x), fl(df)).map(num)
    }
    fn cdf(&self, x: f64) -> f64 {
        num(cdflib::traits::ContinuousCdf::cdf(&self.0, &libm, fl(x)))
    }
    fn ccdf(&self, x: f64) -> f64 {
        num(cdflib::traits::ContinuousCdf::ccdf(&self.0, &libm, fl(x)))
    }
    fn sf(&self, x: f64) -> f64 {
        num(cdflib::traits::ContinuousCdf::sf(&self.0, &libm, fl(x)))
    }
    fn inverse_cdf(&self, p: f64) -> Result<f64, ChiSquaredNoncentralError> {
        cdflib::traits::ContinuousCdf::inverse_cdf(&self.0, &libm, fl(p)).map(num)
    }
    fn inverse_sf(&self, q: f64) -> Result<f64, ChiSquaredNoncentralError> {
        self.0.inverse_sf(&libm, fl(q)).map(num)
    }
    fn mean(&self) -> f64 {
        num(cdflib::traits::Mean::mean(&self.0))
    }
    fn variance(&self) -> f64 {
        num(cdflib::traits::Variance::variance(&self.0))
    }
    fn std_dev(&self) -> f64 {
        num(cdflib::traits::Variance::std_dev(&self.0))
    }
}

#[test]
fn chi_squared_noncentral_rejects_invalid_inputs() {
    assert!(matches!(
        ChiSquaredNoncentral::try_new(0.0, 1.0),
        Err(ChiSquaredNoncentralError::DfNotPositive(v)) if num(v) == 0.0));
    assert!(matches!(
        ChiSquaredNoncentral::try_new(1.0, -1.0),
        Err(ChiSquaredNoncentralError::NcpNegative(v)) if num(v) == -1.0));
    assert!(matches!(
        ChiSquaredNoncentral::search_df(-0.1, 1.0, 2.0),
        Err(ChiSquaredNoncentralError::PNotInRange(v)) if num(v) == -0.1));
}

#[test]
fn chi_squared_noncentral_inverse_and_moment_edges() {
    let d = ChiSquaredNoncentral::new(5.0, 2.0);
    assert_eq!(d.inverse_cdf(0.0).unwrap(), 0.0);
    assert!(d.inverse_cdf(0.25).unwrap().is_finite());
    assert!(d.mean().is_finite());
    assert!(d.variance().is_finite());
}

#[test]
fn central_limit_path_is_consistent() {
    let d = ChiSquaredNoncentral::new(4.0, 0.0);
    let x = 3.0;
    let cdf = d.cdf(x);
    let ccdf = d.ccdf(x);
    assert!((cdf + ccdf - 1.0).abs() < 1e-12);
}
