//! The chi-squared distribution.
use cdflib::float::F64;
use cdflib::functions::Elementary;
use cdflib::dist::ChiSquaredError;

#[allow(dead_code)]
fn fl(x: f64) -> F64 {
    F64 { bits: x.to_bits() }
}

#[allow(dead_code)]
fn num(x: F64) -> f64 {
    f64::from_bits(x.bits)
}

#[allow(dead_code)]
fn pair(p: (F64, F64)) -> (f64, f64) {
    (num(p.0), num(p.1))
}

#[allow(dead_code)]
fn libm(q: Elementary) -> F64 {
    match q {
        Elementary::Exp(x) => fl(num(x).exp()),
        Elementary::Ln(x) => fl(num(x).ln()),
        Elementary::Sin(x) => fl(num(x).sin()),
        Elementary::Cos(x) => fl(num(x).cos()),
        Elementary::Pow(x, y) => fl(num(x).powf(num(y))),
    }
}

#[derive(Debug, Clone, Copy, PartialEq)]
struct ChiSquared(cdflib::dist::ChiSquared);

#[allow(dead_code)]
impl ChiSquared {
    fn new(df: f64) -> Self {
        Self::try_new(df).unwrap()
    }
    fn try_new(df: f64) -> Result<Self, ChiSquaredError> {
        let dist = cdflib::dist::ChiSquared::try_new(fl(df))?;
        assert_eq!(dist, cdflib::dist::ChiSquared::new(fl(df)));
        Ok(Self(dist))
    }
    fn df(&self) -> f64 {
        num(self.0.df())
    }
    fn solve_df(p: f64, x: f64) -> Result<f64, ChiSquaredError> {
        cdflib::dist::ChiSquared::solve_df(&libm, fl(p), fl(x)).map(num)
    }
    fn cdf(&self, x: f64) -> f64 {
        num(cdflib::traits::ContinuousCdf::cdf(&self.0, &libm, fl(x)))
    }
    fn ccdf(&self, x: f64) -> f64 {
        num(cdflib::traits::ContinuousCdf::ccdf(&self.0, &libm, fl(x)))
    }
    fn sf(&self, x: f64) -> f64 {
        num(cdflib::traits::ContinuousCdf::sf(&self.0, &libm, fl(x)))
    }
    fn inverse_cdf(&self, p: f64) -> Result<f64, ChiSquaredError> {
        cdflib::traits::ContinuousCdf::inverse_cdf(&self.0, &libm, fl(p)).map(num)
    }
    fn inverse_sf(&self, q: f64) -> Result<f64, ChiSquaredError> {
        self.0.inverse_sf(&libm, fl(q)).map(num)
    }
    fn pdf(&self, x: f64) -> f64 {
        num(cdflib::traits::Continuous::pdf(&self.0, &libm, fl(x)))
    }
    fn ln_pdf(&self, x: f64) -> f64 {
        num(cdflib::traits::Continuous::ln_pdf(&self.0, &libm, fl(x)))
    }
    fn mean(&self) -> f64 {
        num(cdflib::traits::Mean::mean(&self.0))
    }
    fn variance(&self) -> f64 {
        num(cdflib::traits::Variance::variance(&self.0))
    }
    fn std_dev(&self) -> f64 {
        num(cdflib::traits::Variance::std_dev(&self.0))
    }
    fn entropy(&self) -> f64 {
        num(cdflib::traits::Entropy::entropy(&self.0, &libm))
    }
}

#[test]
fn cdf_at_simple_points() {
    let c = ChiSquared::new(2.0);
    for &x in &[0.5_f64, 1.0, 3.84, 10.0] {
        let expected = 1.0 - (-x / 2.0).exp();
        assert!((c.cdf(x) - expected).abs() < 1e-13, "x={x}");
    }
}

#[test]
fn cdf_at_3_84_with_df_1() {
    let c = ChiSquared::new(1.0);
    let p = c.cdf(3.841458820694124);
    assert!((p - 0.95).abs() < 1e-10, "p = {p}");
}

#[test]
fn chi_squared_moments() {
    let c = ChiSquared::new(7.0);
    assert_eq!(c.mean(), 7.0);
    assert_eq!(c.variance(), 14.0);
}

#[test]
fn pdf_nonzero_in_body() {
    let c = ChiSquared::new(4.0);
    for &x in &[1.0, 2.0, 4.0, 8.0] {
        let p = c.pdf(x);
        assert!(p > 0.0 && p < 1.0, "x={x}: pdf={p}");
    }
    let m = c.pdf(2.0);
    assert!(m > c.pdf(0.5));
    assert!(m > c.pdf(10.0));
}

#[test]
fn new_rejects_bad_df() {
    assert!(matches!(
        ChiSquared::try_new(f64::NAN),
        Err(ChiSquaredError::DfNotFinite(_))
    ));
    assert!(matches!(
        ChiSquared::try_new(f64::INFINITY),
        Err(ChiSquaredError::DfNotFinite(_))
    ));
    assert!(matches!(
        ChiSquared::try_new(-1.0),
        Err(ChiSquaredError::DfNotPositive(_))
    ));
    assert!(matches!(
        ChiSquared::try_new(0.0),
        Err(ChiSquaredError::DfNotPositive(_))
    ));
}

#[test]
fn solve_df_rejects_bad_inputs() {
    assert!(matches!(
        ChiSquared::solve_df(-0.1, 3.0),
        Err(ChiSquaredError::ProbabilityOutOfRange(_))
    ));
    assert!(matches!(
        ChiSquared::solve_df(1.5, 3.0),
        Err(ChiSquaredError::ProbabilityOutOfRange(_))
    ));
    assert!(matches!(
        ChiSquared::solve_df(0.5, 0.0),
        Err(ChiSquaredError::XNotPositive(v)) if num(v) == 0.0));
    assert!(matches!(
        ChiSquared::solve_df(0.5, -1.0),
        Err(ChiSquaredError::XNotPositive(v)) if num(v) == -1.0));
}

#[test]
fn solve_df_precision_pivot_at_upper_tail() {
    for (p_target, x) in [(0.99, 6.63), (0.999, 10.83), (0.95, 3.84), (0.5, 0.455)] {
        let df = ChiSquared::solve_df(p_target, x).unwrap();
        let cdf_back = ChiSquared::new(df).cdf(x);
        assert!(
            (cdf_back - p_target).abs() < 1e-6,
            "p={p_target}, x={x}, df={df}, cdf_back={cdf_back}"
        );
    }
}

#[test]
fn cdf_at_x_zero_is_zero() {
    let c = ChiSquared::new(5.0);
    assert_eq!(c.cdf(0.0), 0.0);
    assert_eq!(c.cdf(-1.0), 0.0);
}

#[test]
fn sf_at_x_zero_is_one() {
    let c = ChiSquared::new(5.0);
    assert_eq!(c.sf(0.0), 1.0);
    assert_eq!(c.sf(-1.0), 1.0);
}

#[test]
fn chi_squared_inverse_cdf_p_zero_returns_zero() {
    let c = ChiSquared::new(5.0);
    assert_eq!(c.inverse_cdf(0.0).unwrap(), 0.0);
}

#[test]
fn chi_squared_inverse_cdf_rejects_bad_p() {
    let c = ChiSquared::new(5.0);
    assert!(matches!(
        c.inverse_cdf(-0.1),
        Err(ChiSquaredError::ProbabilityOutOfRange(_))
    ));
    assert!(matches!(
        c.inverse_cdf(1.5),
        Err(ChiSquaredError::ProbabilityOutOfRange(_))
    ));
}

#[test]
fn inverse_sf_q_one_returns_zero() {
    let c = ChiSquared::new(5.0);
    assert_eq!(c.inverse_sf(1.0).unwrap(), 0.0);
}

#[test]
fn inverse_sf_rejects_bad_q() {
    let c = ChiSquared::new(5.0);
    assert!(matches!(
        c.inverse_sf(-0.1),
        Err(ChiSquaredError::ProbabilityOutOfRange(_))
    ));
    assert!(matches!(
        c.inverse_sf(1.5),
        Err(ChiSquaredError::ProbabilityOutOfRange(_))
    ));
}

#[test]
fn pdf_at_x_zero_for_df_le_2_handled() {
    let c = ChiSquared::new(3.0);
    assert_eq!(c.pdf(0.0), 0.0);
    assert_eq!(c.pdf(-1.0), 0.0);
    assert_eq!(c.ln_pdf(0.0), f64::NEG_INFINITY);
    assert_eq!(c.ln_pdf(-1.0), f64::NEG_INFINITY);
}

#[test]
fn entropy_finite_for_df_ge_1() {
    for df in [1.0_f64, 2.0, 5.0, 10.0, 30.0] {
        let h = ChiSquared::new(df).entropy();
        assert!(h.is_finite(), "df={df}: entropy={h}");
    }
}
