//! The noncentral distributions.
use cdflib::float::F64;
use cdflib::functions::Elementary;
use cdflib::dist::ChiSquaredError;
use cdflib::dist::ChiSquaredNoncentralError;
use cdflib::dist::FisherSnedecorError;
use cdflib::dist::FisherSnedecorNoncentralError;

#[allow(dead_code)]
fn fl(x: f64) -> F64 {
    F64 { bits: x.to_bits() }
}

#[allow(dead_code)]
fn num(x: F64) -> f64 {
    f64::from_bits(x.bits)
}

#[allow(dead_code)]
fn pair(p: (F64, F64)) -> (f64, f64) {
    (num(p.0), num(p.1))
}

#[allow(dead_code)]
fn libm(q: Elementary) -> F64 {
    match q {
        Elementary::Exp(x) => fl(num(x).exp()),
        Elementary::Ln(x) => fl(num(x).ln()),
        Elementary::Sin(x) => fl(num(x).sin()),
        Elementary::Cos(x) => fl(num(x).cos()),
        Elementary::Pow(x, y) => fl(num(x).powf(num(y))),
    }
}

#[derive(Debug, Clone, Copy, PartialEq)]
struct ChiSquared(cdflib::dist::ChiSquared);

#[allow(dead_code)]
impl ChiSquared {
    fn new(df: f64) -> Self {
        Self::try_new(df).unwrap()
    }
    fn try_new(df: f64) -> Result<Self, ChiSquaredError> {
        let dist = cdflib::dist::ChiSquared::try_new(fl(df))?;
        assert_eq!(dist, cdflib::dist::ChiSquared::new(fl(df)));
        Ok(Self(dist))
    }
    fn df(&self) -> f64 {
        num(self.0.df())
    }
    fn solve_df(p: f64, x: f64) -> Result<f64, ChiSquaredError> {
        cdflib::dist::ChiSquared::solve_df(&libm, fl(p), fl(x)).map(num)
    }
    fn cdf(&self, x: f64) -> f64 {
        num(cdflib::traits::ContinuousCdf::cdf(&self.0, &libm, fl(x)))
    }
    fn ccdf(&self, x: f64) -> f64 {
        num(cdflib::traits::ContinuousCdf::ccdf(&self.0, &libm, fl(x)))
    }
    fn sf(&self, x: f64) -> f64 {
        num(cdflib::traits::ContinuousCdf::sf(&self.0, &libm, fl(x)))
    }
    fn inverse_cdf(&self, p: f64) -> Result<f64, ChiSquaredError> {
        cdflib::traits::ContinuousCdf::inverse_cdf(&self.0, &libm, fl(p)).map(num)
    }
    fn inverse_sf(&self, q: f64) -> Result<f64, ChiSquaredError> {
        self.0.inverse_sf(&libm, fl(q)).map(num)
    }
    fn pdf(&self, x: f64) -> f64 {
        num(cdflib::traits::Continuous::pdf(&self.0, &libm, fl(x)))
    }
    fn ln_pdf(&self, x: f64) -> f64 {
        num(cdflib::traits::Continuous::ln_pdf(&self.0, &libm, fl(x)))
    }
    fn mean(&self) -> f64 {
        num(cdflib::traits::Mean::mean(&self.0))
    }
    fn variance(&self) -> f64 {
        num(cdflib::traits::Variance::variance(&self.0))
    }
    fn std_dev(&self) -> f64 {
        num(cdflib::traits::Variance::std_dev(&self.0))
    }
    fn entropy(&self) -> f64 {
        num(cdflib::traits::Entropy::entropy(&self.0, &libm))
    }
}

#[derive(Debug, Clone, Copy, PartialEq)]
struct ChiSquaredNoncentral(cdflib::dist::ChiSquaredNoncentral);

#[allow(dead_code)]
impl ChiSquaredNoncentral {
    fn new(df: f64, ncp: f64) -> Self {
        Self::try_new(df, ncp).unwrap()
    }
    fn try_new(df: f64, ncp: f64) -> Result<Self, ChiSquaredNoncentralError> {
        let dist = cdflib::dist::ChiSquaredNoncentral::try_new(fl(df), fl(ncp))?;
        assert_eq!(dist, cdflib::dist::ChiSquaredNoncentral::new(fl(df), fl(ncp)));
        Ok(Self(dist))
    }
    fn df(&self) -> f64 {
        num(self.0.df())
    }
    fn ncp(&self) -> f64 {
        num(self.0.ncp())
    }
    fn search_df(p: f64, x: f64, ncp: f64) -> Result<f64, ChiSquaredNoncentralError> {
        cdflib::dist::ChiSquaredNoncentral::search_df(&libm, fl(p), fl(x), fl(ncp)).map(num)
    }
    fn search_ncp(p: f64, x: f64, df: f64) -> Result<f64, ChiSquaredNoncentralError> {
        cdflib::dist::ChiSquaredNoncentral::search_ncp(&libm, fl(p), fl(x), fl(df)).map(num)
    }
    fn solve_df(p: f64, x: f64, ncp: f64) -> Result<f64, ChiSquaredNoncentralError> {
        cdflib::dist::ChiSquaredNoncentral::solve_df(&libm, fl(p), fl(x), fl(ncp)).map(num)
    }
    fn solve_ncp(p: f64, x: f64, df: f64) -> Result<f64, ChiSquaredNoncentralError> {
        cdflib::dist::ChiSquaredNoncentral::solve_ncp(&libm, fl(p), fl(x), fl(df)).map(num)
    }
    fn cdf(&self, x: f64) -> f64 {
        num(cdflib::traits::ContinuousCdf::cdf(&self.0, &libm, fl(x)))
    }
    fn ccdf(&self, x: f64) -> f64 {
        num(cdflib::traits::ContinuousCdf::ccdf(&self.0, &libm, fl(x)))
    }
    fn sf(&self, x: f64) -> f64 {
        num(cdflib::traits::ContinuousCdf::sf(&self.0, &libm, fl(x)))
    }
    fn inverse_cdf(&self, p: f64) -> Result<f64, ChiSquaredNoncentralError> {
        cdflib::traits::ContinuousCdf::inverse_cdf(&self.0, &libm, fl(p)).map(num)
    }
    fn inverse_sf(&self, q: f64) -> Result<f64, ChiSquaredNoncentralError> {
        self.0.inverse_sf(&libm, fl(q)).map(num)
    }
    fn mean(&self) -> f64 {
        num(cdflib::traits::Mean::mean(&self.0))
    }
    fn variance(&self) -> f64 {
        num(cdflib::traits::Variance::variance(&self.0))
    }
    fn std_dev(&self) -> f64 {
        num(cdflib::traits::Variance::std_dev(&self.0))
    }
}

#[derive(Debug, Clone, Copy, PartialEq)]
struct FisherSnedecor(cdflib::dist::FisherSnedecor);

#[allow(dead_code)]
impl FisherSnedecor {
    fn new(dfn: f64, dfd: f64) -> Self {
        Self::try_new(dfn, dfd).unwrap()
    }
    fn try_new(dfn: f64, dfd: f64) -> Result<Self, FisherSnedecorError> {
        let dist = cdflib::dist::FisherSnedecor::try_new(fl(dfn), fl(dfd))?;
        assert_eq!(dist, cdflib::dist::FisherSnedecor::new(fl(dfn), fl(dfd)));
        Ok(Self(dist))
    }
    fn dfn(&self) -> f64 {
        num(self.0.dfn())
    }
    fn dfd(&self) -> f64 {
        num(self.0.dfd())
    }
    fn solve_dfn(p: f64, q: f64, f: f64, dfd: f64) -> Result<f64, FisherSnedecorError> {
        cdflib::dist::FisherSnedecor::solve_dfn(&libm, fl(p), fl(q), fl(f), fl(dfd)).map(num)
    }
    fn solve_dfd(p: f64, q: f64, f: f64, dfn: f64) -> Result<f64, FisherSnedecorError> {
        cdflib::dist::FisherSnedecor::solve_dfd(&libm, fl(p), fl(q), fl(f), fl(dfn)).map(num)
    }
    fn cdf(&self, x: f64) -> f64 {
        num(cdflib::traits::ContinuousCdf::cdf(&self.0, &libm, fl(x)))
    }
    fn ccdf(&self, x: f64) -> f64 {
        num(cdflib::traits::ContinuousCdf::ccdf(&self.0, &libm, fl(x)))
    }
    fn sf(&self, x: f64) -> f64 {
        num(cdflib::traits::ContinuousCdf::sf(&self.0, &libm, fl(x)))
    }
    fn inverse_cdf(&self, p: f64) -> Result<f64, FisherSnedecorError> {
        cdflib::traits::ContinuousCdf::inverse_cdf(&self.0, &libm, fl(p)).map(num)
    }
    fn inverse_sf(&self, q: f64) -> Result<f64, FisherSnedecorError> {
        self.0.inverse_sf(&libm, fl(q)).map(num)
    }
    fn pdf(&self, x: f64) -> f64 {
        num(cdflib::traits::Continuous::pdf(&self.0, &libm, fl(x)))
    }
    fn ln_pdf(&self, x: f64) -> f64 {
        num(cdflib::traits::Continuous::ln_pdf(&self.0, &libm, fl(x)))
    }
    fn mean(&self) -> f64 {
        num(cdflib::traits::Mean::mean(&self.0))
    }
    fn variance(&self) -> f64 {
        num(cdflib::traits::Variance::variance(&self.0))
    }
    fn std_dev(&self) -> f64 {
        num(cdflib::traits::Variance::std_dev(&self.0))
    }
    fn entropy(&self) -> f64 {
        num(cdflib::traits::Entropy::entropy(&self.0, &libm))
    }
}

#[derive(Debug, Clone, Copy, PartialEq)]
struct FisherSnedecorNoncentral(cdflib::dist::FisherSnedecorNoncentral);

#[allow(dead_code)]
impl FisherSnedecorNoncentral {
    fn new(dfn: f64, dfd: f64, ncp: f64) -> Self {
        Self::try_new(dfn, dfd, ncp).unwrap()
    }
    fn try_new(dfn: f64, dfd: f64, ncp: f64) -> Result<Self, FisherSnedecorNoncentralError> {
        let dist = cdflib::dist::FisherSnedecorNoncentral::try_new(fl(dfn), fl(dfd), fl(ncp))?;
        assert_eq!(dist, cdflib::dist::FisherSnedecorNoncentral::new(fl(dfn), fl(dfd), fl(ncp)));
        Ok(Self(dist))
    }
    fn dfn(&self) -> f64 {
        num(self.0.dfn())
    }
    fn dfd(&self) -> f64 {
        num(self.0.dfd())
    }
    fn ncp(&self) -> f64 {
        num(self.0.ncp())
    }
    fn search_dfn(p: f64, f: f64, dfd: f64, ncp: f64) -> Result<f64, FisherSnedecorNoncentralError> {
        cdflib::dist::FisherSnedecorNoncentral::search_dfn(&libm, fl(p), fl(f), fl(dfd), fl(ncp)).map(num)
    }
    fn search_dfd(p: f64, f: f64, dfn: f64, ncp: f64) -> Result<f64, FisherSnedecorNoncentralError> {
        cdflib::dist::FisherSnedecorNoncentral::search_dfd(&libm, fl(p), fl(f), fl(dfn), fl(ncp)).map(num)
    }
    fn search_ncp(p: f64, f: f64, dfn: f64, dfd: f64) -> Result<f64, FisherSnedecorNoncentralError> {
        cdflib::dist::FisherSnedecorNoncentral::search_ncp(&libm, fl(p), fl(f), fl(dfn), fl(dfd)).map(num)
    }
    fn solve_dfn(p: f64, f: f64, dfd: f64, ncp: f64) -> Result<f64, FisherSnedecorNoncentralError> {
        cdflib::dist::FisherSnedecorNoncentral::solve_dfn(&libm, fl(p), fl(f), fl(dfd), fl(ncp)).map(num)
    }
    fn solve_dfd(p: f64, f: f64, dfn: f64, ncp: f64) -> Result<f64, FisherSnedecorNoncentralError> {
        cdflib::dist::FisherSnedecorNoncentral::solve_dfd(&libm, fl(p), fl(f), fl(dfn), fl(ncp)).map(num)
    }
    fn solve_ncp(p: f64, f: f64, dfn: f64, dfd: f64) -> Result<f64, FisherSnedecorNoncentralError> {
        cdflib::dist::FisherSnedecorNoncentral::solve_ncp(&libm, fl(p), fl(f), fl(dfn), fl(dfd)).map(num)
    }
    fn cdf(&self, x: f64) -> f64 {
        num(cdflib::traits::ContinuousCdf::cdf(&self.0, &libm, fl(x)))
    }
    fn ccdf(&self, x: f64) -> f64 {
        num(cdflib::traits::ContinuousCdf::ccdf(&self.0, &libm, fl(x)))
    }
    fn sf(&self, x: f64) -> f64 {
        num(cdflib::traits::ContinuousCdf::sf(&self.0, &libm, fl(x)))
    }
    fn inverse_cdf(&self, p: f64) -> Result<f64, FisherSnedecorNoncentralError> {
        cdflib::traits::ContinuousCdf::inverse_cdf(&self.0, &libm, fl(p)).map(num)
    }
    fn inverse_sf(&self, q: f64) -> Result<f64, FisherSnedecorNoncentralError> {
        self.0.inverse_sf(&libm, fl(q)).map(num)
    }
    fn mean(&self) -> f64 {
        num(cdflib::traits::Mean::mean(&self.0))
    }
    fn variance(&self) -> f64 {
        num(cdflib::traits::Variance::variance(&self.0))
    }
    fn std_dev(&self) -> f64 {
        num(cdflib::traits::Variance::std_dev(&self.0))
    }
}

#[allow(dead_code)]
const DEFAULT_REL_TOL: f64 = 1e-14;
#[allow(dead_code)]
const DEFAULT_ABS_TOL: f64 = 1e-300;
#[allow(dead_code)]
const INVERSE_REL_TOL: f64 = 5e-8;
#[allow(dead_code)]
const CHAINED_INVERSE_REL_TOL: f64 = 5e-7;

#[allow(dead_code)]
fn assert_close(got: f64, expected: f64) {
    assert_close_eps(got, expected, DEFAULT_REL_TOL, DEFAULT_ABS_TOL);
}

#[allow(dead_code)]
fn assert_close_eps(got: f64, expected: f64, rel_tol: f64, abs_tol: f64) {
    if got.is_nan() || expected.is_nan() {
        assert!(got.is_nan() && expected.is_nan(), "NaN mismatch: got {got}, expected {expected}");
        return;
    }
    if got.is_infinite() || expected.is_infinite() {
        assert_eq!(got, expected, "infinity mismatch: got {got}, expected {expected}");
        return;
    }
    let diff = (got - expected).abs();
    if diff <= abs_tol {
        return;
    }
    let scale = got.abs().max(expected.abs());
    let rel = if scale == 0.0 { 0.0 } else { diff / scale };
    assert!(rel <= rel_tol, "got {got}, expected {expected}, rel diff {rel}");
}

#[test]
fn noncentral_chi_squared_reduces_to_central_at_ncp_zero() {
    let nc = ChiSquaredNoncentral::new(5.0, 0.0);
    let c = ChiSquared::new(5.0);
    for &x in &[0.5_f64, 2.0, 5.0, 10.0, 20.0] {
        assert_close_eps(nc.cdf(x), c.cdf(x), DEFAULT_REL_TOL, DEFAULT_REL_TOL);
    }
}

#[test]
fn noncentral_chi_squared_mean_shifts_with_ncp() {
    let a = ChiSquaredNoncentral::new(5.0, 0.0);
    let b = ChiSquaredNoncentral::new(5.0, 4.0);
    assert!(b.cdf(5.0) < a.cdf(5.0));
    assert_eq!(b.mean(), 9.0);
    assert_eq!(b.variance(), 26.0);
}

#[test]
fn noncentral_chi_squared_round_trip() {
    let d = ChiSquaredNoncentral::new(10.0, 5.0);
    for &p in &[0.1, 0.5, 0.9] {
        let x = d.inverse_cdf(p).unwrap();
        assert_close_eps(d.cdf(x), p, INVERSE_REL_TOL, INVERSE_REL_TOL);
    }
}

#[test]
fn noncentral_f_reduces_to_central_at_ncp_zero() {
    let nc = FisherSnedecorNoncentral::new(5.0, 10.0, 0.0);
    let c = FisherSnedecor::new(5.0, 10.0);
    for &x in &[0.5_f64, 1.0, 2.0, 5.0] {
        assert_close_eps(nc.cdf(x), c.cdf(x), DEFAULT_REL_TOL, DEFAULT_REL_TOL);
    }
}

#[test]
fn noncentral_f_round_trip() {
    let d = FisherSnedecorNoncentral::new(5.0, 10.0, 3.0);
    for &p in &[0.1, 0.5, 0.9] {
        let x = d.inverse_cdf(p).unwrap();
        assert_close_eps(d.cdf(x), p, INVERSE_REL_TOL, INVERSE_REL_TOL);
    }
}
