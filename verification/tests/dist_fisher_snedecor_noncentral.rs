//! The distribution in dist/fisher_snedecor_noncentral.rs.
use cdflib::float::F64;
use cdflib::functions::Elementary;
use cdflib::dist::FisherSnedecorNoncentralError;

#[allow(dead_code)]
fn fl(x: f64) -> F64 {
    F64 { bits: x.to_bits() }
}

#[allow(dead_code)]
fn num(x: F64) -> f64 {
    f64::from_bits(x.bits)
}

#[allow(dead_code)]
fn pair(p: (F64, F64)) -> (f64, f64) {
    (num(p.0), num(p.1))
}

#[allow(dead_code)]
fn libm(q: Elementary) -> F64 {
    match q {
        Elementary::Exp(x) => fl(num(x).exp()),
        Elementary::Ln(x) => fl(num(x).ln()),
        Elementary::Sin(x) => fl(num(x).sin()),
        Elementary::Cos(x) => fl(num(x).cos()),
        Elementary::Pow(x, y) => fl(num(x).powf(num(y))),
    }
}

#[derive(Debug, Clone, Copy, PartialEq)]
struct FisherSnedecorNoncentral(cdflib::dist::FisherSnedecorNoncentral);

#[allow(dead_code)]
impl FisherSnedecorNoncentral {
    fn new(dfn: f64, dfd: f64, ncp: f64) -> Self {
        Self::try_new(dfn, dfd, ncp).unwrap()
    }
    fn try_new(dfn: f64, dfd: f64, ncp: f64) -> Result<Self, FisherSnedecorNoncentralError> {
        let dist = cdflib::dist::FisherSnedecorNoncentral::try_new(fl(dfn), fl(dfd), fl(ncp))?;
        assert_eq!(dist, cdflib::dist::FisherSnedecorNoncentral::new(fl(dfn), fl(dfd), fl(ncp)));
        Ok(Self(dist))
    }
    fn dfn(&self) -> f64 {
        num(self.0.dfn())
    }
    fn dfd(&self) -> f64 {
        num(self.0.dfd())
    }
    fn ncp(&self) -> f64 {
        num(self.0.ncp())
    }
    fn search_dfn(p: f64, f: f64, dfd: f64, ncp: f64) -> Result<f64, FisherSnedecorNoncentralError> {
        cdflib::dist::FisherSnedecorNoncentral::search_dfn(&libm, fl(p), fl(f), fl(dfd), fl(ncp)).map(num)
    }
    fn search_dfd(p: f64, f: f64, dfn: f64, ncp: f64) -> Result<f64, FisherSnedecorNoncentralError> {
        cdflib::dist::FisherSnedecorNoncentral::search_dfd(&libm, fl(p), fl(f), fl(dfn), fl(ncp)).map(num)
    }
    fn search_ncp(p: f64, f: f64, dfn: f64, dfd: f64) -> Result<f64, FisherSnedecorNoncentralError> {
        cdflib::dist::FisherSnedecorNoncentral::search_ncp(&libm, fl(p), fl(f), fl(dfn), fl(dfd)).map(num)
    }
    fn solve_dfn(p: f64, f: f64, dfd: f64, ncp: f64) -> Result<f64, FisherSnedecorNoncentralError> {
        cdflib::dist::FisherSnedecorNoncentral::solve_dfn(&libm, fl(p), fl(f), fl(dfd), fl(ncp)).map(num)
    }
    fn solve_dfd(p: f64, f: f64, dfn: f64, ncp: f64) -> Result<f64, FisherSnedecorNoncentralError> {
        cdflib::dist::FisherSnedecorNoncentral::solve_dfd(&libm, fl(p), fl(f), fl(dfn), fl(ncp)).map(num)
    }
    fn solve_ncp(p: f64, f: f64, dfn: f64, dfd: f64) -> Result<f64, FisherSnedecorNoncentralError> {
        cdflib::dist::FisherSnedecorNoncentral::solve_ncp(&libm, fl(p), fl(f), fl(dfn), fl(dfd)).map(num)
    }
    fn cdf(&self, x: f64) -> f64 {
        num(cdflib::traits::ContinuousCdf::cdf(&self.0, &libm, fl(x)))
    }
    fn ccdf(&self, x: f64) -> f64 {
        num(cdflib::traits::ContinuousCdf::ccdf(&self.0, &libm, fl(x)))
    }
    fn sf(&self, x: f64) -> f64 {
        num(cdflib::traits::ContinuousCdf::sf(&self.0, &libm, fl(x)))
    }
    fn inverse_cdf(&self, p: f64) -> Result<f64, FisherSnedecorNoncentralError> {
        cdflib::traits::ContinuousCdf::inverse_cdf(&self.0, &libm, fl(p)).map(num)
    }
    fn inverse_sf(&self, q: f64) -> Result<f64, FisherSnedecorNoncentralError> {
        self.0.inverse_sf(&libm, fl(q)).map(num)
    }
    fn mean(&self) -> f64 {
        num(cdflib::traits::Mean::mean(&self.0))
    }
    fn variance(&self) -> f64 {
        num(cdflib::traits::Variance::variance(&self.0))
    }
    fn std_dev(&self) -> f64 {
        num(cdflib::traits::Variance::std_dev(&self.0))
    }
}

#[test]
fn fisher_snedecor_noncentral_rejects_invalid_inputs() {
    assert!(matches!(
        FisherSnedecorNoncentral::try_new(0.0, 5.0, 1.0),
        Err(FisherSnedecorNoncentralError::DfnNotPositive(v)) if num(v) == 0.0));
    assert!(matches!(
        FisherSnedecorNoncentral::try_new(0.5, 5.0, 1.0),
        Err(FisherSnedecorNoncentralError::DfnTooSmall(v)) if num(v) == 0.5));
    assert!(matches!(
        FisherSnedecorNoncentral::try_new(5.0, 0.0, 1.0),
        Err(FisherSnedecorNoncentralError::DfdNotPositive(v)) if num(v) == 0.0));
    assert!(matches!(
        FisherSnedecorNoncentral::try_new(5.0, 0.5, 1.0),
        Err(FisherSnedecorNoncentralError::DfdTooSmall(v)) if num(v) == 0.5));
    assert!(matches!(
        FisherSnedecorNoncentral::try_new(5.0, 5.0, -1.0),
        Err(FisherSnedecorNoncentralError::NcpNegative(v)) if num(v) == -1.0));
    assert!(matches!(
        FisherSnedecorNoncentral::search_ncp(-0.1, 1.0, 5.0, 10.0),
        Err(FisherSnedecorNoncentralError::PNotInRange(v)) if num(v) == -0.1));
    assert!(matches!(
        FisherSnedecorNoncentral::search_dfd(0.5, 1.0, 0.5, 1.0),
        Err(FisherSnedecorNoncentralError::DfnTooSmall(v)) if num(v) == 0.5));
    assert!(matches!(
        FisherSnedecorNoncentral::search_ncp(0.5, 1.0, 5.0, 0.5),
        Err(FisherSnedecorNoncentralError::DfdTooSmall(v)) if num(v) == 0.5));
}

#[test]
fn fisher_snedecor_noncentral_inverse_and_moment_edges() {
    let d = FisherSnedecorNoncentral::new(5.0, 10.0, 2.0);
    assert_eq!(d.inverse_cdf(0.0).unwrap(), 0.0);
    assert!(d.inverse_cdf(0.25).unwrap().is_finite());
    assert!(d.mean().is_finite());
    assert!(d.variance().is_finite());
    assert!(FisherSnedecorNoncentral::new(5.0, 2.0, 2.0).mean().is_nan());
    assert!(FisherSnedecorNoncentral::new(5.0, 4.0, 2.0)
        .variance()
        .is_nan());
}

#[test]
fn central_reduction_path_is_consistent() {
    let d = FisherSnedecorNoncentral::new(5.0, 10.0, 0.0);
    let x = 1.5;
    let cdf = d.cdf(x);
    let ccdf = d.ccdf(x);
    assert!((cdf + ccdf - 1.0).abs() < 1e-12);
}
