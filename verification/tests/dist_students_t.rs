//! The distribution in dist/students_t.rs.
use cdflib::float::F64;
use cdflib::functions::Elementary;
use cdflib::dist::StudentsTError;

#[allow(dead_code)]
fn fl(x: f64) -> F64 {
    F64 { bits: x.to_bits() }
}

#[allow(dead_code)]
fn num(x: F64) -> f64 {
    f64::from_bits(x.bits)
}

#[allow(dead_code)]
fn pair(p: (F64, F64)) -> (f64, f64) {
    (num(p.0), num(p.1))
}

#[allow(dead_code)]
fn libm(q: Elementary) -> F64 {
    match q {
        Elementary::Exp(x) => fl(num(x).exp()),
        Elementary::Ln(x) => fl(num(x).ln()),
        Elementary::Sin(x) => fl(num(x).sin()),
        Elementary::Cos(x) => fl(num(x).cos()),
        Elementary::Pow(x, y) => fl(num(x).powf(num(y))),
    }
}

#[derive(Debug, Clone, Copy, PartialEq)]
struct StudentsT(cdflib::dist::StudentsT);

#[allow(dead_code)]
impl StudentsT {
    fn new(df: f64) -> Self {
        Self::try_new(df).unwrap()
    }
    fn try_new(df: f64) -> Result<Self, StudentsTError> {
        let dist = cdflib::dist::StudentsT::try_new(fl(df))?;
        assert_eq!(dist, cdflib::dist::StudentsT::new(fl(df)));
        Ok(Self(dist))
    }
    fn df(&self) -> f64 {
        num(self.0.df())
    }
    fn search_df(p: f64, q: f64, t: f64) -> Result<f64, StudentsTError> {
        cdflib::dist::StudentsT::search_df(&libm, fl(p), fl(q), fl(t)).map(num)
    }
    fn solve_df(p: f64, q: f64, t: f64) -> Result<f64, StudentsTError> {
        cdflib::dist::StudentsT::solve_df(&libm, fl(p), fl(q), fl(t)).map(num)
    }
    fn cdf(&self, x: f64) -> f64 {
        num(cdflib::traits::ContinuousCdf::cdf(&self.0, &libm, fl(x)))
    }
    fn ccdf(&self, x: f64) -> f64 {
        num(cdflib::traits::ContinuousCdf::ccdf(&self.0, &libm, fl(x)))
    }
    fn sf(&self, x: f64) -> f64 {
        num(cdflib::traits::ContinuousCdf::sf(&self.0, &libm, fl(x)))
    }
    fn inverse_cdf(&self, p: f64) -> Result<f64, StudentsTError> {
        cdflib::traits::ContinuousCdf::inverse_cdf(&self.0, &libm, fl(p)).map(num)
    }
    fn inverse_sf(&self, q: f64) -> Result<f64, StudentsTError> {
        self.0.inverse_sf(&libm, fl(q)).map(num)
    }
    fn pdf(&self, x: f64) -> f64 {
        num(cdflib::traits::Continuous::pdf(&self.0, &libm, fl(x)))
    }
    fn ln_pdf(&self, x: f64) -> f64 {
        num(cdflib::traits::Continuous::ln_pdf(&self.0, &libm, fl(x)))
    }
    fn mean(&self) -> f64 {
        num(cdflib::traits::Mean::mean(&self.0))
    }
    fn variance(&self) -> f64 {
        num(cdflib::traits::Variance::variance(&self.0))
    }
    fn std_dev(&self) -> f64 {
        num(cdflib::traits::Variance::std_dev(&self.0))
    }
    fn entropy(&self) -> f64 {
        num(cdflib::traits::Entropy::entropy(&self.0, &libm))
    }
}

#[test]
fn new_rejects_nonpositive_or_nonfinite_df() {
    assert!(matches!(
        StudentsT::try_new(0.0),
        Err(StudentsTError::DfNotPositive(v)) if num(v) == 0.0));
    assert!(matches!(
        StudentsT::try_new(-1.0),
        Err(StudentsTError::DfNotPositive(v)) if num(v) == -1.0));
    assert!(matches!(
        StudentsT::try_new(f64::INFINITY),
        Err(StudentsTError::DfNotFinite(x)) if num(x).is_infinite()
    ));
    assert!(matches!(
        StudentsT::try_new(f64::NAN),
        Err(StudentsTError::DfNotFinite(_))
    ));
}

#[test]
fn rejects_probability_out_of_range() {
    let d = StudentsT::new(10.0);
    assert!(matches!(
        d.inverse_cdf(-1.0),
        Err(StudentsTError::PNotInRange(v)) if num(v) == -1.0));
    assert!(matches!(
        d.inverse_sf(2.0),
        Err(StudentsTError::QNotInRange(v)) if num(v) == 2.0));
}

#[test]
fn inverse_sf_is_zero_at_median() {
    let d = StudentsT::new(7.0);
    assert!(d.inverse_sf(0.5).unwrap().abs() < 1e-10);
    let t = d.inverse_sf(0.25).unwrap();
    assert!(t.is_finite());
    assert!((d.sf(t) - 0.25).abs() < 1e-8);
}

#[test]
fn extreme_left_tail_matches_high_precision_reference() {
    let d = StudentsT::new(100.0);
    let t = -6.5;
    let expected_cdf = 1.589_507_013_117_725_5e-9;
    let expected_sf = 0.999_999_998_410_493;
    assert!((d.cdf(t) - expected_cdf).abs() < 1e-23);
    assert!((d.sf(t) - expected_sf).abs() < 1e-15);
}

#[test]
fn pdf_ln_pdf_and_entropy_are_finite() {
    let d = StudentsT::new(5.0);
    let x = 1.25;
    let ln_pdf = d.ln_pdf(x);
    assert!(ln_pdf.is_finite());
    assert!((d.pdf(x) - ln_pdf.exp()).abs() < 1e-15);
    assert!(d.entropy().is_finite());
}
