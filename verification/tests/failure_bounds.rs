//! The bounds that failed searches report.
use cdflib::float::F64;
use cdflib::functions::Elementary;
use cdflib::error::SearchError;
use cdflib::dist::FisherSnedecorNoncentralError;
use cdflib::dist::StudentsTError;

#[allow(dead_code)]
fn fl(x: f64) -> F64 {
    F64 { bits: x.to_bits() }
}

#[allow(dead_code)]
fn num(x: F64) -> f64 {
    f64::from_bits(x.bits)
}

#[allow(dead_code)]
fn pair(p: (F64, F64)) -> (f64, f64) {
    (num(p.0), num(p.1))
}

#[allow(dead_code)]
fn libm(q: Elementary) -> F64 {
    match q {
        Elementary::Exp(x) => fl(num(x).exp()),
        Elementary::Ln(x) => fl(num(x).ln()),
        Elementary::Sin(x) => fl(num(x).sin()),
        Elementary::Cos(x) => fl(num(x).cos()),
        Elementary::Pow(x, y) => fl(num(x).powf(num(y))),
    }
}

#[derive(Debug, Clone, Copy, PartialEq)]
struct FisherSnedecorNoncentral(cdflib::dist::FisherSnedecorNoncentral);

#[allow(dead_code)]
impl FisherSnedecorNoncentral {
    fn new(dfn: f64, dfd: f64, ncp: f64) -> Self {
        Self::try_new(dfn, dfd, ncp).unwrap()
    }
    fn try_new(dfn: f64, dfd: f64, ncp: f64) -> Result<Self, FisherSnedecorNoncentralError> {
        let dist = cdflib::dist::FisherSnedecorNoncentral::try_new(fl(dfn), fl(dfd), fl(ncp))?;
        assert_eq!(dist, cdflib::dist::FisherSnedecorNoncentral::new(fl(dfn), fl(dfd), fl(ncp)));
        Ok(Self(dist))
    }
    fn dfn(&self) -> f64 {
        num(self.0.dfn())
    }
    fn dfd(&self) -> f64 {
        num(self.0.dfd())
    }
    fn ncp(&self) -> f64 {
        num(self.0.ncp())
    }
    fn search_dfn(p: f64, f: f64, dfd: f64, ncp: f64) -> Result<f64, FisherSnedecorNoncentralError> {
        cdflib::dist::FisherSnedecorNoncentral::search_dfn(&libm, fl(p), fl(f), fl(dfd), fl(ncp)).map(num)
    }
    fn search_dfd(p: f64, f: f64, dfn: f64, ncp: f64) -> Result<f64, FisherSnedecorNoncentralError> {
        cdflib::dist::FisherSnedecorNoncentral::search_dfd(&libm, fl(p), fl(f), fl(dfn), fl(ncp)).map(num)
    }
    fn search_ncp(p: f64, f: f64, dfn: f64, dfd: f64) -> Result<f64, FisherSnedecorNoncentralError> {
        cdflib::dist::FisherSnedecorNoncentral::search_ncp(&libm, fl(p), fl(f), fl(dfn), fl(dfd)).map(num)
    }
    fn solve_dfn(p: f64, f: f64, dfd: f64, ncp: f64) -> Result<f64, FisherSnedecorNoncentralError> {
        cdflib::dist::FisherSnedecorNoncentral::solve_dfn(&libm, fl(p), fl(f), fl(dfd), fl(ncp)).map(num)
    }
    fn solve_dfd(p: f64, f: f64, dfn: f64, ncp: f64) -> Result<f64, FisherSnedecorNoncentralError> {
        cdflib::dist::FisherSnedecorNoncentral::solve_dfd(&libm, fl(p), fl(f), fl(dfn), fl(ncp)).map(num)
    }
    fn solve_ncp(p: f64, f: f64, dfn: f64, dfd: f64) -> Result<f64, FisherSnedecorNoncentralError> {
        cdflib::dist::FisherSnedecorNoncentral::solve_ncp(&libm, fl(p), fl(f), fl(dfn), fl(dfd)).map(num)
    }
    fn cdf(&self, x: f64) -> f64 {
        num(cdflib::traits::ContinuousCdf::cdf(&self.0, &libm, fl(x)))
    }
    fn ccdf(&self, x: f64) -> f64 {
        num(cdflib::traits::ContinuousCdf::ccdf(&self.0, &libm, fl(x)))
    }
    fn sf(&self, x: f64) -> f64 {
        num(cdflib::traits::ContinuousCdf::sf(&self.0, &libm, fl(x)))
    }
    fn inverse_cdf(&self, p: f64) -> Result<f64, FisherSnedecorNoncentralError> {
        cdflib::traits::ContinuousCdf::inverse_cdf(&self.0, &libm, fl(p)).map(num)
    }
    fn inverse_sf(&self, q: f64) -> Result<f64, FisherSnedecorNoncentralError> {
        self.0.inverse_sf(&libm, fl(q)).map(num)
    }
    fn mean(&self) -> f64 {
        num(cdflib::traits::Mean::mean(&self.0))
    }
    fn variance(&self) -> f64 {
        num(cdflib::traits::Variance::variance(&self.0))
    }
    fn std_dev(&self) -> f64 {
        num(cdflib::traits::Variance::std_dev(&self.0))
    }
}

#[derive(Debug, Clone, Copy, PartialEq)]
struct StudentsT(cdflib::dist::StudentsT);

#[allow(dead_code)]
impl StudentsT {
    fn new(df: f64) -> Self {
        Self::try_new(df).unwrap()
    }
    fn try_new(df: f64) -> Result<Self, StudentsTError> {
        let dist = cdflib::dist::StudentsT::try_new(fl(df))?;
        assert_eq!(dist, cdflib::dist::StudentsT::new(fl(df)));
        Ok(Self(dist))
    }
    fn df(&self) -> f64 {
        num(self.0.df())
    }
    fn search_df(p: f64, q: f64, t: f64) -> Result<f64, StudentsTError> {
        cdflib::dist::StudentsT::search_df(&libm, fl(p), fl(q), fl(t)).map(num)
    }
    fn solve_df(p: f64, q: f64, t: f64) -> Result<f64, StudentsTError> {
        cdflib::dist::StudentsT::solve_df(&libm, fl(p), fl(q), fl(t)).map(num)
    }
    fn cdf(&self, x: f64) -> f64 {
        num(cdflib::traits::ContinuousCdf::cdf(&self.0, &libm, fl(x)))
    }
    fn ccdf(&self, x: f64) -> f64 {
        num(cdflib::traits::ContinuousCdf::ccdf(&self.0, &libm, fl(x)))
    }
    fn sf(&self, x: f64) -> f64 {
        num(cdflib::traits::ContinuousCdf::sf(&self.0, &libm, fl(x)))
    }
    fn inverse_cdf(&self, p: f64) -> Result<f64, StudentsTError> {
        cdflib::traits::ContinuousCdf::inverse_cdf(&self.0, &libm, fl(p)).map(num)
    }
    fn inverse_sf(&self, q: f64) -> Result<f64, StudentsTError> {
        self.0.inverse_sf(&libm, fl(q)).map(num)
    }
    fn pdf(&self, x: f64) -> f64 {
        num(cdflib::traits::Continuous::pdf(&self.0, &libm, fl(x)))
    }
    fn ln_pdf(&self, x: f64) -> f64 {
        num(cdflib::traits::Continuous::ln_pdf(&self.0, &libm, fl(x)))
    }
    fn mean(&self) -> f64 {
        num(cdflib::traits::Mean::mean(&self.0))
    }
    fn variance(&self) -> f64 {
        num(cdflib::traits::Variance::variance(&self.0))
    }
    fn std_dev(&self) -> f64 {
        num(cdflib::traits::Variance::std_dev(&self.0))
    }
    fn entropy(&self) -> f64 {
        num(cdflib::traits::Entropy::entropy(&self.0, &libm))
    }
}

#[test]
fn students_t_search_df_qleft_bound_is_f90_zero_not_small() {
    let err = StudentsT::search_df(0.5, 0.5, -2.0).unwrap_err();
    assert!(
        matches!(
            err,
            StudentsTError::Search(SearchError::AnswerBelowLowerBound { bound }) if num(bound) == 0.0
        ),
        "expected AnswerBelowLowerBound {{ bound: 0.0 }} per cdflib.f90:6276, got {err:?}"
    );
}

#[test]
fn students_t_search_df_qhi_bound_is_f90_maxdf() {
    let err = StudentsT::search_df(0.001, 0.999, -2.0).unwrap_err();
    assert!(
        matches!(
            err,
            StudentsTError::Search(SearchError::AnswerAboveUpperBound { bound }) if num(bound) == 1.0e10
        ),
        "expected AnswerAboveUpperBound {{ bound: 1.0e10 }} per cdflib.f90:6283, got {err:?}"
    );
}

#[test]
fn fisher_snedecor_noncentral_search_dfn_qleft_bound_is_f90_zero_not_small() {
    let err = FisherSnedecorNoncentral::search_dfn(0.5, 2.0, 10.0, 0.0).unwrap_err();
    assert!(
        matches!(
            err,
            FisherSnedecorNoncentralError::Search(SearchError::AnswerBelowLowerBound { bound })
                if num(bound) == 0.0
        ),
        "expected AnswerBelowLowerBound {{ bound: 0.0 }} per cdflib.f90:4639, got {err:?}"
    );
}

#[test]
fn fisher_snedecor_noncentral_search_dfd_qleft_bound_is_f90_zero_not_small() {
    let err = FisherSnedecorNoncentral::search_dfd(0.99, 0.5, 10.0, 0.0).unwrap_err();
    assert!(
        matches!(
            err,
            FisherSnedecorNoncentralError::Search(SearchError::AnswerBelowLowerBound { bound })
                if num(bound) == 0.0
        ),
        "expected AnswerBelowLowerBound {{ bound: 0.0 }} per cdflib.f90:4677, got {err:?}"
    );
}
