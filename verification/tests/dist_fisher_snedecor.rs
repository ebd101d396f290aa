//! The distribution in dist/fisher_snedecor.rs.
use cdflib::float::F64;
use cdflib::functions::Elementary;
use cdflib::dist::FisherSnedecorError;

#[allow(dead_code)]
fn fl(x: f64) -> F64 {
    F64 { bits: x.to_bits() }
}

#[allow(dead_code)]
fn num(x: F64) -> f64 {
    f64::from_bits(x.bits)
}

#[allow(dead_code)]
fn pair(p: (F64, F64)) -> (f64, f64) {
    (num(p.0), num(p.1))
}

#[allow(dead_code)]
fn libm(q: Elementary) -> F64 {
    match q {
        Elementary::Exp(x) => fl(num(x).exp()),
        Elementary::Ln(x) => fl(num(x).ln()),
        Elementary::Sin(x) => fl(num(x).sin()),
        Elementary::Cos(x) => fl(num(x).cos()),
        Elementary::Pow(x, y) => fl(num(x).powf(num(y))),
    }
}

#[derive(Debug, Clone, Copy, PartialEq)]
struct FisherSnedecor(cdflib::dist::FisherSnedecor);

#[allow(dead_code)]
impl FisherSnedecor {
    fn new(dfn: f64, dfd: f64) -> Self {
        Self::try_new(dfn, dfd).unwrap()
    }
    fn try_new(dfn: f64, dfd: f64) -> Result<Self, FisherSnedecorError> {
        let dist = cdflib::dist::FisherSnedecor::try_new(fl(dfn), fl(dfd))?;
        assert_eq!(dist, cdflib::dist::FisherSnedecor::new(fl(dfn), fl(dfd)));
        Ok(Self(dist))
    }
    fn dfn(&self) -> f64 {
        num(self.0.dfn())
    }
    fn dfd(&self) -> f64 {
        num(self.0.dfd())
    }
    fn solve_dfn(p: f64, q: f64, f: f64, dfd: f64) -> Result<f64, FisherSnedecorError> {
        cdflib::dist::FisherSnedecor::solve_dfn(&libm, fl(p), fl(q), fl(f), fl(dfd)).map(num)
    }
    fn solve_dfd(p: f64, q: f64, f: f64, dfn: f64) -> Result<f64, FisherSnedecorError> {
        cdflib::dist::FisherSnedecor::solve_dfd(&libm, fl(p), fl(q), fl(f), fl(dfn)).map(num)
    }
    fn cdf(&self, x: f64) -> f64 {
        num(cdflib::traits::ContinuousCdf::cdf(&self.0, &libm, fl(x)))
    }
    fn ccdf(&self, x: f64) -> f64 {
        num(cdflib::traits::ContinuousCdf::ccdf(&self.0, &libm, fl(x)))
    }
    fn sf(&self, x: f64) -> f64 {
        num(cdflib::traits::ContinuousCdf::sf(&self.0, &libm, fl(x)))
    }
    fn inverse_cdf(&self, p: f64) -> Result<f64, FisherSnedecorError> {
        cdflib::traits::ContinuousCdf::inverse_cdf(&self.0, &libm, fl(p)).map(num)
    }
    fn inverse_sf(&self, q: f64) -> Result<f64, FisherSnedecorError> {
        self.0.inverse_sf(&libm, fl(q)).map(num)
    }
    fn pdf(&self, x: f64) -> f64 {
        num(cdflib::traits::Continuous::pdf(&self.0, &libm, fl(x)))
    }
    fn ln_pdf(&self, x: f64) -> f64 {
        num(cdflib::traits::Continuous::ln_pdf(&self.0, &libm, fl(x)))
    }
    fn mean(&self) -> f64 {
        num(cdflib::traits::Mean::mean(&self.0))
    }
    fn variance(&self) -> f64 {
        num(cdflib::traits::Variance::variance(&self.0))
    }
    fn std_dev(&self) -> f64 {
        num(cdflib::traits::Variance::std_dev(&self.0))
    }
    fn entropy(&self) -> f64 {
        num(cdflib::traits::Entropy::entropy(&self.0, &libm))
    }
}

#[test]
fn fisher_snedecor_rejects_invalid_parameters() {
    assert!(matches!(
        FisherSnedecor::try_new(0.0, 1.0),
        Err(FisherSnedecorError::DfnNotPositive(v)) if num(v) == 0.0));
    assert!(matches!(
        FisherSnedecor::try_new(1.0, 0.0),
        Err(FisherSnedecorError::DfdNotPositive(v)) if num(v) == 0.0));
}

#[test]
fn fisher_snedecor_inverse_and_density_edges() {
    let d = FisherSnedecor::new(5.0, 10.0);
    assert_eq!(d.inverse_cdf(0.0).unwrap(), 0.0);
    assert_eq!(d.inverse_sf(1.0).unwrap(), 0.0);
    assert_eq!(d.pdf(0.0), 0.0);
    assert_eq!(d.ln_pdf(0.0), f64::NEG_INFINITY);
    assert!(d.inverse_sf(0.25).unwrap().is_finite());
    assert!(d.pdf(1.5).is_finite());
    assert!(d.ln_pdf(1.5).is_finite());
    assert!(d.entropy().is_finite());
}

#[test]
fn fisher_snedecor_moment_thresholds_and_invalid_solves() {
    assert!(FisherSnedecor::new(5.0, 2.0).mean().is_nan());
    assert!(FisherSnedecor::new(5.0, 4.0).variance().is_nan());
    assert!(FisherSnedecor::new(5.0, 10.0).mean().is_finite());
    assert!(FisherSnedecor::new(5.0, 10.0).variance().is_finite());
    assert!(matches!(
        FisherSnedecor::solve_dfn(-0.1, 1.1, 1.0, 5.0),
        Err(FisherSnedecorError::PNotInRange(v)) if num(v) == -0.1));
    assert!(matches!(
        FisherSnedecor::solve_dfn(0.5, 0.5, 0.0, 5.0),
        Err(FisherSnedecorError::FNotPositive(v)) if num(v) == 0.0));
    assert!(matches!(
        FisherSnedecor::solve_dfn(0.5, 0.5, 1.0, 0.0),
        Err(FisherSnedecorError::DfdNotPositive(v)) if num(v) == 0.0));
    assert!(matches!(
        FisherSnedecor::solve_dfd(0.5, 0.5, 0.0, 5.0),
        Err(FisherSnedecorError::FNotPositive(v)) if num(v) == 0.0));
    assert!(matches!(
        FisherSnedecor::solve_dfd(0.5, 0.5, 1.0, 0.0),
        Err(FisherSnedecorError::DfnNotPositive(v)) if num(v) == 0.0));
}
