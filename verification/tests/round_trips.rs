//! Quantiles and solved parameters put back in.
use cdflib::float::F64;
use cdflib::functions::Elementary;
use cdflib::dist::BetaError;
use cdflib::dist::BinomialError;
use cdflib::dist::ChiSquaredError;
use cdflib::dist::FisherSnedecorError;
use cdflib::dist::GammaError;
use cdflib::dist::NegativeBinomialError;
use cdflib::dist::PoissonError;
use cdflib::dist::StudentsTError;

#[allow(dead_code)]
fn fl(x: f64) -> F64 {
    F64 { bits: x.to_bits() }
}

#[allow(dead_code)]
fn num(x: F64) -> f64 {
    f64::from_bits(x.bits)
}

#[allow(dead_code)]
fn pair(p: (F64, F64)) -> (f64, f64) {
    (num(p.0), num(p.1))
}

#[allow(dead_code)]
fn libm(q: Elementary) -> F64 {
    match q {
        Elementary::Exp(x) => fl(num(x).exp()),
        Elementary::Ln(x) => fl(num(x).ln()),
        Elementary::Sin(x) => fl(num(x).sin()),
        Elementary::Cos(x) => fl(num(x).cos()),
        Elementary::Pow(x, y) => fl(num(x).powf(num(y))),
    }
}

#[derive(Debug, Clone, Copy, PartialEq)]
struct Beta(cdflib::dist::Beta);

#[allow(dead_code)]
impl Beta {
    fn new(a: f64, b: f64) -> Self {
        Self::try_new(a, b).unwrap()
    }
    fn try_new(a: f64, b: f64) -> Result<Self, BetaError> {
        let dist = cdflib::dist::Beta::try_new(fl(a), fl(b))?;
        assert_eq!(dist, cdflib::dist::Beta::new(fl(a), fl(b)));
        Ok(Self(dist))
    }
    fn a(&self) -> f64 {
        num(self.0.a())
    }
    fn b(&self) -> f64 {
        num(self.0.b())
    }
    fn search_a(p: f64, q: f64, x: f64, b: f64) -> Result<f64, BetaError> {
        cdflib::dist::Beta::search_a(&libm, fl(p), fl(q), fl(x), fl(b)).map(num)
    }
    fn search_b(p: f64, q: f64, x: f64, a: f64) -> Result<f64, BetaError> {
        cdflib::dist::Beta::search_b(&libm, fl(p), fl(q), fl(x), fl(a)).map(num)
    }
    fn solve_a(p: f64, x: f64, b: f64) -> Result<f64, BetaError> {
        cdflib::dist::Beta::solve_a(&libm, fl(p), fl(x), fl(b)).map(num)
    }
    fn solve_b(p: f64, x: f64, a: f64) -> Result<f64, BetaError> {
        cdflib::dist::Beta::solve_b(&libm, fl(p), fl(x), fl(a)).map(num)
    }
    fn cdf(&self, x: f64) -> f64 {
        num(cdflib::traits::ContinuousCdf::cdf(&self.0, &libm, fl(x)))
    }
    fn ccdf(&self, x: f64) -> f64 {
        num(cdflib::traits::ContinuousCdf::ccdf(&self.0, &libm, fl(x)))
    }
    fn sf(&self, x: f64) -> f64 {
        num(cdflib::traits::ContinuousCdf::sf(&self.0, &libm, fl(x)))
    }
    fn inverse_cdf(&self, p: f64) -> Result<f64, BetaError> {
        cdflib::traits::ContinuousCdf::inverse_cdf(&self.0, &libm, fl(p)).map(num)
    }
    fn inverse_ccdf(&self, q: f64) -> Result<f64, BetaError> {
        self.0.inverse_ccdf(&libm, fl(q)).map(num)
    }
    fn inverse_sf(&self, q: f64) -> Result<f64, BetaError> {
        self.0.inverse_sf(&libm, fl(q)).map(num)
    }
    fn pdf(&self, x: f64) -> f64 {
        num(cdflib::traits::Continuous::pdf(&self.0, &libm, fl(x)))
    }
    fn ln_pdf(&self, x: f64) -> f64 {
        num(cdflib::traits::Continuous::ln_pdf(&self.0, &libm, fl(x)))
    }
    fn mean(&self) -> f64 {
        num(cdflib::traits::Mean::mean(&self.0))
    }
    fn variance(&self) -> f64 {
        num(cdflib::traits::Variance::variance(&self.0))
    }
    fn std_dev(&self) -> f64 {
        num(cdflib::traits::Variance::std_dev(&self.0))
    }
    fn entropy(&self) -> f64 {
        num(cdflib::traits::Entropy::entropy(&self.0, &libm))
    }
}

#[derive(Debug, Clone, Copy, PartialEq)]
struct Binomial(cdflib::dist::Binomial);

#[allow(dead_code)]
impl Binomial {
    fn new(n: u64, pr: f64) -> Self {
        Self::try_new(n, pr).unwrap()
    }
    fn try_new(n: u64, pr: f64) -> Result<Self, BinomialError> {
        let dist = cdflib::dist::Binomial::try_new(n, fl(pr))?;
        assert_eq!(dist, cdflib::dist::Binomial::new(n, fl(pr)));
        Ok(Self(dist))
    }
    fn n(&self) -> u64 {
        self.0.n()
    }
    fn pr(&self) -> f64 {
        num(self.0.pr())
    }
    fn solve_trials(p: f64, pr: f64, s: u64) -> Result<f64, BinomialError> {
        cdflib::dist::Binomial::solve_trials(&libm, fl(p), fl(pr), s).map(num)
    }
    fn solve_pr(p: f64, n: u64, s: u64) -> Result<f64, BinomialError> {
        cdflib::dist::Binomial::solve_pr(&libm, fl(p), n, s).map(num)
    }
    fn cdf(&self, x: u64) -> f64 {
        num(cdflib::traits::DiscreteCdf::cdf(&self.0, &libm, x))
    }
    fn ccdf(&self, x: u64) -> f64 {
        num(cdflib::traits::DiscreteCdf::ccdf(&self.0, &libm, x))
    }
    fn sf(&self, x: u64) -> f64 {
        num(cdflib::traits::DiscreteCdf::sf(&self.0, &libm, x))
    }
    fn inverse_cdf(&self, p: f64) -> Result<u64, BinomialError> {
        cdflib::traits::DiscreteCdf::inverse_cdf(&self.0, &libm, fl(p))
    }
    fn inverse_sf(&self, q: f64) -> Result<u64, BinomialError> {
        self.0.inverse_sf(&libm, fl(q))
    }
    fn pmf(&self, x: u64) -> f64 {
        num(cdflib::traits::Discrete::pmf(&self.0, &libm, x))
    }
    fn ln_pmf(&self, x: u64) -> f64 {
        num(cdflib::traits::Discrete::ln_pmf(&self.0, &libm, x))
    }
    fn mean(&self) -> f64 {
        num(cdflib::traits::Mean::mean(&self.0))
    }
    fn variance(&self) -> f64 {
        num(cdflib::traits::Variance::variance(&self.0))
    }
    fn std_dev(&self) -> f64 {
        num(cdflib::traits::Variance::std_dev(&self.0))
    }
}

#[derive(Debug, Clone, Copy, PartialEq)]
struct ChiSquared(cdflib::dist::ChiSquared);

#[allow(dead_code)]
impl ChiSquared {
    fn new(df: f64) -> Self {
        Self::try_new(df).unwrap()
    }
    fn try_new(df: f64) -> Result<Self, ChiSquaredError> {
        let dist = cdflib::dist::ChiSquared::try_new(fl(df))?;
        assert_eq!(dist, cdflib::dist::ChiSquared::new(fl(df)));
        Ok(Self(dist))
    }
    fn df(&self) -> f64 {
        num(self.0.df())
    }
    fn solve_df(p: f64, x: f64) -> Result<f64, ChiSquaredError> {
        cdflib::dist::ChiSquared::solve_df(&libm, fl(p), fl(x)).map(num)
    }
    fn cdf(&self, x: f64) -> f64 {
        num(cdflib::traits::ContinuousCdf::cdf(&self.0, &libm, fl(x)))
    }
    fn ccdf(&self, x: f64) -> f64 {
        num(cdflib::traits::ContinuousCdf::ccdf(&self.0, &libm, fl(x)))
    }
    fn sf(&self, x: f64) -> f64 {
        num(cdflib::traits::ContinuousCdf::sf(&self.0, &libm, fl(x)))
    }
    fn inverse_cdf(&self, p: f64) -> Result<f64, ChiSquaredError> {
        cdflib::traits::ContinuousCdf::inverse_cdf(&self.0, &libm, fl(p)).map(num)
    }
    fn inverse_sf(&self, q: f64) -> Result<f64, ChiSquaredError> {
        self.0.inverse_sf(&libm, fl(q)).map(num)
    }
    fn pdf(&self, x: f64) -> f64 {
        num(cdflib::traits::Continuous::pdf(&self.0, &libm, fl(x)))
    }
    fn ln_pdf(&self, x: f64) -> f64 {
        num(cdflib::traits::Continuous::ln_pdf(&self.0, &libm, fl(x)))
    }
    fn mean(&self) -> f64 {
        num(cdflib::traits::Mean::mean(&self.0))
    }
    fn variance(&self) -> f64 {
        num(cdflib::traits::Variance::variance(&self.0))
    }
    fn std_dev(&self) -> f64 {
        num(cdflib::traits::Variance::std_dev(&self.0))
    }
    fn entropy(&self) -> f64 {
        num(cdflib::traits::Entropy::entropy(&self.0, &libm))
    }
}

#[derive(Debug, Clone, Copy, PartialEq)]
struct FisherSnedecor(cdflib::dist::FisherSnedecor);

#[allow(dead_code)]
impl FisherSnedecor {
    fn new(dfn: f64, dfd: f64) -> Self {
        Self::try_new(dfn, dfd).unwrap()
    }
    fn try_new(dfn: f64, dfd: f64) -> Result<Self, FisherSnedecorError> {
        let dist = cdflib::dist::FisherSnedecor::try_new(fl(dfn), fl(dfd))?;
        assert_eq!(dist, cdflib::dist::FisherSnedecor::new(fl(dfn), fl(dfd)));
        Ok(Self(dist))
    }
    fn dfn(&self) -> f64 {
        num(self.0.dfn())
    }
    fn dfd(&self) -> f64 {
        num(self.0.dfd())
    }
    fn solve_dfn(p: f64, q: f64, f: f64, dfd: f64) -> Result<f64, FisherSnedecorError> {
        cdflib::dist::FisherSnedecor::solve_dfn(&libm, fl(p), fl(q), fl(f), fl(dfd)).map(num)
    }
    fn solve_dfd(p: f64, q: f64, f: f64, dfn: f64) -> Result<f64, FisherSnedecorError> {
        cdflib::dist::FisherSnedecor::solve_dfd(&libm, fl(p), fl(q), fl(f), fl(dfn)).map(num)
    }
    fn cdf(&self, x: f64) -> f64 {
        num(cdflib::traits::ContinuousCdf::cdf(&self.0, &libm, fl(x)))
    }
    fn ccdf(&self, x: f64) -> f64 {
        num(cdflib::traits::ContinuousCdf::ccdf(&self.0, &libm, fl(x)))
    }
    fn sf(&self, x: f64) -> f64 {
        num(cdflib::traits::ContinuousCdf::sf(&self.0, &libm, fl(x)))
    }
    fn inverse_cdf(&self, p: f64) -> Result<f64, FisherSnedecorError> {
        cdflib::traits::ContinuousCdf::inverse_cdf(&self.0, &libm, fl(p)).map(num)
    }
    fn inverse_sf(&self, q: f64) -> Result<f64, FisherSnedecorError> {
        self.0.inverse_sf(&libm, fl(q)).map(num)
    }
    fn pdf(&self, x: f64) -> f64 {
        num(cdflib::traits::Continuous::pdf(&self.0, &libm, fl(x)))
    }
    fn ln_pdf(&self, x: f64) -> f64 {
        num(cdflib::traits::Continuous::ln_pdf(&self.0, &libm, fl(x)))
    }
    fn mean(&self) -> f64 {
        num(cdflib::traits::Mean::mean(&self.0))
    }
    fn variance(&self) -> f64 {
        num(cdflib::traits::Variance::variance(&self.0))
    }
    fn std_dev(&self) -> f64 {
        num(cdflib::traits::Variance::std_dev(&self.0))
    }
    fn entropy(&self) -> f64 {
        num(cdflib::traits::Entropy::entropy(&self.0, &libm))
    }
}

#[derive(Debug, Clone, Copy, PartialEq)]
struct Gamma(cdflib::dist::Gamma);

#[allow(dead_code)]
impl Gamma {
    fn new(shape: f64, rate: f64) -> Self {
        Self::try_new(shape, rate).unwrap()
    }
    fn try_new(shape: f64, rate: f64) -> Result<Self, GammaError> {
        let dist = cdflib::dist::Gamma::try_new(fl(shape), fl(rate))?;
        assert_eq!(dist, cdflib::dist::Gamma::new(fl(shape), fl(rate)));
        Ok(Self(dist))
    }
    fn shape(&self) -> f64 {
        num(self.0.shape())
    }
    fn rate(&self) -> f64 {
        num(self.0.rate())
    }
    fn solve_shape(p: f64, q: f64, x: f64, rate: f64) -> Result<f64, GammaError> {
        cdflib::dist::Gamma::solve_shape(&libm, fl(p), fl(q), fl(x), fl(rate)).map(num)
    }
    fn solve_rate(p: f64, q: f64, x: f64, shape: f64) -> Result<f64, GammaError> {
        cdflib::dist::Gamma::solve_rate(&libm, fl(p), fl(q), fl(x), fl(shape)).map(num)
    }
    fn cdf(&self, x: f64) -> f64 {
        num(cdflib::traits::ContinuousCdf::cdf(&self.0, &libm, fl(x)))
    }
    fn ccdf(&self, x: f64) -> f64 {
        num(cdflib::traits::ContinuousCdf::ccdf(&self.0, &libm, fl(x)))
    }
    fn sf(&self, x: f64) -> f64 {
        num(cdflib::traits::ContinuousCdf::sf(&self.0, &libm, fl(x)))
    }
    fn inverse_cdf(&self, p: f64) -> Result<f64, GammaError> {
        cdflib::traits::ContinuousCdf::inverse_cdf(&self.0, &libm, fl(p)).map(num)
    }
    fn inverse_sf(&self, q: f64) -> Result<f64, GammaError> {
        self.0.inverse_sf(&libm, fl(q)).map(num)
    }
    fn pdf(&self, x: f64) -> f64 {
        num(cdflib::traits::Continuous::pdf(&self.0, &libm, fl(x)))
    }
    fn ln_pdf(&self, x: f64) -> f64 {
        num(cdflib::traits::Continuous::ln_pdf(&self.0, &libm, fl(x)))
    }
    fn mean(&self) -> f64 {
        num(cdflib::traits::Mean::mean(&self.0))
    }
    fn variance(&self) -> f64 {
        num(cdflib::traits::Variance::variance(&self.0))
    }
    fn std_dev(&self) -> f64 {
        num(cdflib::traits::Variance::std_dev(&self.0))
    }
    fn entropy(&self) -> f64 {
        num(cdflib::traits::Entropy::entropy(&self.0, &libm))
    }
}

#[derive(Debug, Clone, Copy, PartialEq)]
struct NegativeBinomial(cdflib::dist::NegativeBinomial);

#[allow(dead_code)]
impl NegativeBinomial {
    fn new(r: u64, pr: f64) -> Self {
        Self::try_new(r, pr).unwrap()
    }
    fn try_new(r: u64, pr: f64) -> Result<Self, NegativeBinomialError> {
        let dist = cdflib::dist::NegativeBinomial::try_new(r, fl(pr))?;
        assert_eq!(dist, cdflib::dist::NegativeBinomial::new(r, fl(pr)));
        Ok(Self(dist))
    }
    fn r(&self) -> u64 {
        self.0.r()
    }
    fn pr(&self) -> f64 {
        num(self.0.pr())
    }
    fn solve_r(p: f64, pr: f64, s: u64) -> Result<f64, NegativeBinomialError> {
        cdflib::dist::NegativeBinomial::solve_r(&libm, fl(p), fl(pr), s).map(num)
    }
    fn solve_trials(p: f64, pr: f64, s: u64) -> Result<f64, NegativeBinomialError> {
        cdflib::dist::NegativeBinomial::solve_trials(&libm, fl(p), fl(pr), s).map(num)
    }
    fn solve_pr(p: f64, r: u64, s: u64) -> Result<f64, NegativeBinomialError> {
        cdflib::dist::NegativeBinomial::solve_pr(&libm, fl(p), r, s).map(num)
    }
    fn cdf(&self, x: u64) -> f64 {
        num(cdflib::traits::DiscreteCdf::cdf(&self.0, &libm, x))
    }
    fn ccdf(&self, x: u64) -> f64 {
        num(cdflib::traits::DiscreteCdf::ccdf(&self.0, &libm, x))
    }
    fn sf(&self, x: u64) -> f64 {
        num(cdflib::traits::DiscreteCdf::sf(&self.0, &libm, x))
    }
    fn inverse_cdf(&self, p: f64) -> Result<u64, NegativeBinomialError> {
        cdflib::traits::DiscreteCdf::inverse_cdf(&self.0, &libm, fl(p))
    }
    fn inverse_sf(&self, q: f64) -> Result<u64, NegativeBinomialError> {
        self.0.inverse_sf(&libm, fl(q))
    }
    fn pmf(&self, x: u64) -> f64 {
        num(cdflib::traits::Discrete::pmf(&self.0, &libm, x))
    }
    fn ln_pmf(&self, x: u64) -> f64 {
        num(cdflib::traits::Discrete::ln_pmf(&self.0, &libm, x))
    }
    fn mean(&self) -> f64 {
        num(cdflib::traits::Mean::mean(&self.0))
    }
    fn variance(&self) -> f64 {
        num(cdflib::traits::Variance::variance(&self.0))
    }
    fn std_dev(&self) -> f64 {
        num(cdflib::traits::Variance::std_dev(&self.0))
    }
}

#[derive(Debug, Clone, Copy, PartialEq)]
struct Poisson(cdflib::dist::Poisson);

#[allow(dead_code)]
impl Poisson {
    fn new(lambda: f64) -> Self {
        Self::try_new(lambda).unwrap()
    }
    fn try_new(lambda: f64) -> Result<Self, PoissonError> {
        let dist = cdflib::dist::Poisson::try_new(fl(lambda))?;
        assert_eq!(dist, cdflib::dist::Poisson::new(fl(lambda)));
        Ok(Self(dist))
    }
    fn lambda(&self) -> f64 {
        num(self.0.lambda())
    }
    fn search_lambda(p: f64, q: f64, s: u64) -> Result<f64, PoissonError> {
        cdflib::dist::Poisson::search_lambda(&libm, fl(p), fl(q), s).map(num)
    }
    fn solve_lambda(p: f64, s: u64) -> Result<f64, PoissonError> {
        cdflib::dist::Poisson::solve_lambda(&libm, fl(p), s).map(num)
    }
    fn cdf(&self, x: u64) -> f64 {
        num(cdflib::traits::DiscreteCdf::cdf(&self.0, &libm, x))
    }
    fn ccdf(&self, x: u64) -> f64 {
        num(cdflib::traits::DiscreteCdf::ccdf(&self.0, &libm, x))
    }
    fn sf(&self, x: u64) -> f64 {
        num(cdflib::traits::DiscreteCdf::sf(&self.0, &libm, x))
    }
    fn inverse_cdf(&self, p: f64) -> Result<u64, PoissonError> {
        cdflib::traits::DiscreteCdf::inverse_cdf(&self.0, &libm, fl(p))
    }
    fn inverse_sf(&self, q: f64) -> Result<u64, PoissonError> {
        self.0.inverse_sf(&libm, fl(q))
    }
    fn inverse_ccdf(&self, q: f64) -> Result<f64, PoissonError> {
        self.0.inverse_ccdf(&libm, fl(q)).map(num)
    }
    fn pmf(&self, x: u64) -> f64 {
        num(cdflib::traits::Discrete::pmf(&self.0, &libm, x))
    }
    fn ln_pmf(&self, x: u64) -> f64 {
        num(cdflib::traits::Discrete::ln_pmf(&self.0, &libm, x))
    }
    fn mean(&self) -> f64 {
        num(cdflib::traits::Mean::mean(&self.0))
    }
    fn variance(&self) -> f64 {
        num(cdflib::traits::Variance::variance(&self.0))
    }
    fn std_dev(&self) -> f64 {
        num(cdflib::traits::Variance::std_dev(&self.0))
    }
}

#[derive(Debug, Clone, Copy, PartialEq)]
struct StudentsT(cdflib::dist::StudentsT);

#[allow(dead_code)]
impl StudentsT {
    fn new(df: f64) -> Self {
        Self::try_new(df).unwrap()
    }
    fn try_new(df: f64) -> Result<Self, StudentsTError> {
        let dist = cdflib::dist::StudentsT::try_new(fl(df))?;
        assert_eq!(dist, cdflib::dist::StudentsT::new(fl(df)));
        Ok(Self(dist))
    }
    fn df(&self) -> f64 {
        num(self.0.df())
    }
    fn search_df(p: f64, q: f64, t: f64) -> Result<f64, StudentsTError> {
        cdflib::dist::StudentsT::search_df(&libm, fl(p), fl(q), fl(t)).map(num)
    }
    fn solve_df(p: f64, q: f64, t: f64) -> Result<f64, StudentsTError> {
        cdflib::dist::StudentsT::solve_df(&libm, fl(p), fl(q), fl(t)).map(num)
    }
    fn cdf(&self, x: f64) -> f64 {
        num(cdflib::traits::ContinuousCdf::cdf(&self.0, &libm, fl(x)))
    }
    fn ccdf(&self, x: f64) -> f64 {
        num(cdflib::traits::ContinuousCdf::ccdf(&self.0, &libm, fl(x)))
    }
    fn sf(&self, x: f64) -> f64 {
        num(cdflib::traits::ContinuousCdf::sf(&self.0, &libm, fl(x)))
    }
    fn inverse_cdf(&self, p: f64) -> Result<f64, StudentsTError> {
        cdflib::traits::ContinuousCdf::inverse_cdf(&self.0, &libm, fl(p)).map(num)
    }
    fn inverse_sf(&self, q: f64) -> Result<f64, StudentsTError> {
        self.0.inverse_sf(&libm, fl(q)).map(num)
    }
    fn pdf(&self, x: f64) -> f64 {
        num(cdflib::traits::Continuous::pdf(&self.0, &libm, fl(x)))
    }
    fn ln_pdf(&self, x: f64) -> f64 {
        num(cdflib::traits::Continuous::ln_pdf(&self.0, &libm, fl(x)))
    }
    fn mean(&self) -> f64 {
        num(cdflib::traits::Mean::mean(&self.0))
    }
    fn variance(&self) -> f64 {
        num(cdflib::traits::Variance::variance(&self.0))
    }
    fn std_dev(&self) -> f64 {
        num(cdflib::traits::Variance::std_dev(&self.0))
    }
    fn entropy(&self) -> f64 {
        num(cdflib::traits::Entropy::entropy(&self.0, &libm))
    }
}

#[allow(dead_code)]
const DEFAULT_REL_TOL: f64 = 1e-14;
#[allow(dead_code)]
const DEFAULT_ABS_TOL: f64 = 1e-300;
#[allow(dead_code)]
const INVERSE_REL_TOL: f64 = 5e-8;
#[allow(dead_code)]
const CHAINED_INVERSE_REL_TOL: f64 = 5e-7;

#[allow(dead_code)]
fn assert_close(got: f64, expected: f64) {
    assert_close_eps(got, expected, DEFAULT_REL_TOL, DEFAULT_ABS_TOL);
}

#[allow(dead_code)]
fn assert_close_eps(got: f64, expected: f64, rel_tol: f64, abs_tol: f64) {
    if got.is_nan() || expected.is_nan() {
        assert!(got.is_nan() && expected.is_nan(), "NaN mismatch: got {got}, expected {expected}");
        return;
    }
    if got.is_infinite() || expected.is_infinite() {
        assert_eq!(got, expected, "infinity mismatch: got {got}, expected {expected}");
        return;
    }
    let diff = (got - expected).abs();
    if diff <= abs_tol {
        return;
    }
    let scale = got.abs().max(expected.abs());
    let rel = if scale == 0.0 { 0.0 } else { diff / scale };
    assert!(rel <= rel_tol, "got {got}, expected {expected}, rel diff {rel}");
}

#[test]
fn beta_round_trip() {
    for &(a, b) in &[(2.0, 5.0), (0.5, 0.5), (10.0, 3.0)] {
        let d = Beta::new(a, b);
        for &p in &[0.01, 0.1, 0.5, 0.9, 0.99] {
            let x = d.inverse_cdf(p).unwrap();
            assert_close_eps(d.cdf(x), p, INVERSE_REL_TOL, INVERSE_REL_TOL);
        }
    }
}

#[test]
fn students_t_known_quantiles() {
    const T10_INV_975: f64 = 2.2281388519649425;
    let d = StudentsT::new(10.0);
    let x = d.inverse_cdf(0.975).unwrap();
    assert_close_eps(
        x,
        T10_INV_975,
        CHAINED_INVERSE_REL_TOL,
        CHAINED_INVERSE_REL_TOL,
    );
    for &df in &[1.0, 3.0, 30.0] {
        let d = StudentsT::new(df);
        assert!((d.cdf(0.0) - 0.5).abs() < DEFAULT_REL_TOL);
    }
}

#[test]
fn students_t_round_trip() {
    for &df in &[2.0, 5.0, 30.0] {
        let d = StudentsT::new(df);
        for &p in &[0.05, 0.5, 0.95] {
            let t = d.inverse_cdf(p).unwrap();
            assert_close_eps(d.cdf(t), p, INVERSE_REL_TOL, INVERSE_REL_TOL);
        }
    }
}

#[test]
fn students_t_extreme_quantiles_stay_finite() {
    let d = StudentsT::new(10.0);
    for &p in &[1.0e-12, 1.0 - 1.0e-12] {
        let t = d.inverse_cdf(p).unwrap();
        assert!(t.is_finite(), "p={p}, t={t}");
        assert_close_eps(d.cdf(t), p, INVERSE_REL_TOL, INVERSE_REL_TOL);
    }
}

#[test]
fn students_t_moments_switch_at_documented_df_thresholds() {
    assert!(StudentsT::new(1.0).mean().is_nan());
    assert_eq!(StudentsT::new(1.0 + 1.0e-12).mean(), 0.0);

    assert!(StudentsT::new(1.0).variance().is_nan());
    assert!(StudentsT::new(1.5).variance().is_infinite());
    assert_eq!(StudentsT::new(2.0).variance(), f64::INFINITY);
    assert!(StudentsT::new(2.0 + 1.0e-12).variance().is_finite());
}

#[test]
fn f_distribution_round_trip() {
    let d = FisherSnedecor::new(5.0, 10.0);
    for &p in &[0.1, 0.5, 0.95] {
        let x = d.inverse_cdf(p).unwrap();
        assert_close_eps(d.cdf(x), p, INVERSE_REL_TOL, INVERSE_REL_TOL);
    }
}

#[test]
fn binomial_cdf_sums_to_one() {
    let d = Binomial::new(20, 0.3);
    let mut sum = 0.0;
    for s in 0..=20 {
        sum += d.pmf(s);
    }
    assert!((sum - 1.0).abs() < DEFAULT_REL_TOL, "sum = {sum}");
}

#[test]
fn binomial_cdf_matches_cumulative_pmf() {
    let d = Binomial::new(15, 0.4);
    let mut running = 0.0;
    for s in 0..=15 {
        running += d.pmf(s);
        assert!((d.cdf(s) - running).abs() < DEFAULT_REL_TOL, "s={s}");
    }
}

#[test]
fn poisson_cdf_matches_cumulative_pmf() {
    let d = Poisson::new(5.0);
    let mut running = 0.0;
    for s in 0..50 {
        running += d.pmf(s);
        assert!((d.cdf(s) - running).abs() < DEFAULT_REL_TOL, "s={s}");
    }
}

#[test]
fn negative_binomial_cdf_matches_cumulative_pmf() {
    let d = NegativeBinomial::new(5, 0.4);
    let mut running = 0.0;
    for s in 0..100 {
        running += d.pmf(s);
        assert!((d.cdf(s) - running).abs() < DEFAULT_REL_TOL, "s={s}");
    }
}

#[test]
fn discrete_inverse_cdf_contract() {
    let p = Poisson::new(12.0);
    for &target in &[0.1, 0.5, 0.95] {
        let s = p.inverse_cdf(target).unwrap();
        assert!(p.cdf(s) >= target);
        if s > 0 {
            assert!(p.cdf(s - 1) < target);
        }
    }
}

#[test]
fn chi_squared_inverse_cdf_round_trip() {
    for &df in &[1.0, 2.0, 5.0, 10.0, 30.0, 100.0] {
        let c = ChiSquared::new(df);
        for &p in &[0.01, 0.05, 0.5, 0.9, 0.95, 0.99] {
            let x = c.inverse_cdf(p).unwrap();
            assert_close_eps(c.cdf(x), p, INVERSE_REL_TOL, INVERSE_REL_TOL);
        }
    }
}

#[test]
fn chi_squared_inverse_sf_round_trip() {
    for &df in &[1.0, 2.0, 5.0, 10.0, 30.0] {
        let c = ChiSquared::new(df);
        for &q in &[0.01, 0.05, 0.1, 0.5] {
            let x = c.inverse_sf(q).unwrap();
            assert_close_eps(c.sf(x), q, INVERSE_REL_TOL, INVERSE_REL_TOL);
        }
    }
}

#[test]
fn chi_squared_solve_df_round_trip() {
    for &(p_target, x) in &[(0.95, 3.84), (0.99, 6.63), (0.5, 2.0)] {
        let df = ChiSquared::solve_df(p_target, x).unwrap();
        let p_back = ChiSquared::new(df).cdf(x);
        assert_close_eps(p_back, p_target, INVERSE_REL_TOL, INVERSE_REL_TOL);
    }
}

#[test]
fn gamma_inverse_cdf_round_trip() {
    for &(shape, scale) in &[(1.0, 1.0), (2.0, 3.0), (0.5, 2.0), (10.0, 0.5)] {
        let g = Gamma::new(shape, scale);
        for &p in &[0.01, 0.1, 0.5, 0.9, 0.99] {
            let x = g.inverse_cdf(p).unwrap();
            assert_close_eps(g.cdf(x), p, INVERSE_REL_TOL, INVERSE_REL_TOL);
        }
    }
}

#[test]
fn gamma_solve_round_trip() {
    let shape = Gamma::solve_shape(0.95, 0.05, 5.0, 2.0).unwrap();
    let back = Gamma::new(shape, 2.0).cdf(5.0);
    assert_close_eps(back, 0.95, INVERSE_REL_TOL, INVERSE_REL_TOL);

    let scale = Gamma::solve_rate(0.5, 0.5, 4.0, 2.0).unwrap();
    let back = Gamma::new(2.0, scale).cdf(4.0);
    assert_close_eps(back, 0.5, INVERSE_REL_TOL, INVERSE_REL_TOL);
}

#[test]
fn discrete_inverse_sf_contract() {
    let binomial = Binomial::new(20, 0.3);
    for &target in &[0.5, 0.1] {
        let s = binomial.inverse_sf(target).unwrap();
        assert!(binomial.sf(s) >= target, "binomial: s={s}, q={target}");
    }

    let poisson = Poisson::new(2.0);
    for &target in &[0.5, 0.1, 0.05] {
        let s = poisson.inverse_sf(target).unwrap();
        assert!(poisson.sf(s) >= target, "poisson: s={s}, q={target}");
    }

    let negbin = NegativeBinomial::new(5, 0.4);
    for &target in &[0.5, 0.1] {
        let s = negbin.inverse_sf(target).unwrap();
        assert!(negbin.sf(s) >= target, "negbin: s={s}, q={target}");
    }
}
