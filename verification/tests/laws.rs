//! Laws and formulas on concrete values, and an input for each error.
use cdflib::float::F64;
use cdflib::functions::Elementary;
use cdflib::special::beta_inc::BetaGratError;
use cdflib::special::beta_inc::BetaIncError;
use cdflib::special::gamma::GammaDomainError;
use cdflib::special::gamma_inc::GammaIncAcc;
use cdflib::special::gamma_inc::GammaIncError;
use cdflib::special::gamma_inv::GammaIncInvError;
use cdflib::special::gamma::PsiError;
use cdflib::dist::BetaError;
use cdflib::dist::BinomialError;
use cdflib::dist::ChiSquaredError;
use cdflib::dist::ChiSquaredNoncentralError;
use cdflib::dist::FisherSnedecorError;
use cdflib::dist::FisherSnedecorNoncentralError;
use cdflib::dist::GammaError;
use cdflib::dist::NegativeBinomialError;
use cdflib::dist::NormalError;
use cdflib::dist::PoissonError;
use cdflib::dist::StudentsTError;

#[allow(dead_code)]
fn fl(x: f64) -> F64 {
    F64 { bits: x.to_bits() }
}

#[allow(dead_code)]
fn num(x: F64) -> f64 {
    f64::from_bits(x.bits)
}

#[allow(dead_code)]
fn pair(p: (F64, F64)) -> (f64, f64) {
    (num(p.0), num(p.1))
}

#[allow(dead_code)]
fn libm(q: Elementary) -> F64 {
    match q {
        Elementary::Exp(x) => fl(num(x).exp()),
        Elementary::Ln(x) => fl(num(x).ln()),
        Elementary::Sin(x) => fl(num(x).sin()),
        Elementary::Cos(x) => fl(num(x).cos()),
        Elementary::Pow(x, y) => fl(num(x).powf(num(y))),
    }
}

#[derive(Debug, Clone, Copy, PartialEq)]
struct Beta(cdflib::dist::Beta);

#[allow(dead_code)]
impl Beta {
    fn new(a: f64, b: f64) -> Self {
        Self::try_new(a, b).unwrap()
    }
    fn try_new(a: f64, b: f64) -> Result<Self, BetaError> {
        let dist = cdflib::dist::Beta::try_new(fl(a), fl(b))?;
        assert_eq!(dist, cdflib::dist::Beta::new(fl(a), fl(b)));
        Ok(Self(dist))
    }
    fn a(&self) -> f64 {
        num(self.0.a())
    }
    fn b(&self) -> f64 {
        num(self.0.b())
    }
    fn search_a(p: f64, q: f64, x: f64, b: f64) -> Result<f64, BetaError> {
        cdflib::dist::Beta::search_a(&libm, fl(p), fl(q), fl(x), fl(b)).map(num)
    }
    fn search_b(p: f64, q: f64, x: f64, a: f64) -> Result<f64, BetaError> {
        cdflib::dist::Beta::search_b(&libm, fl(p), fl(q), fl(x), fl(a)).map(num)
    }
    fn solve_a(p: f64, x: f64, b: f64) -> Result<f64, BetaError> {
        cdflib::dist::Beta::solve_a(&libm, fl(p), fl(x), fl(b)).map(num)
    }
    fn solve_b(p: f64, x: f64, a: f64) -> Result<f64, BetaError> {
        cdflib::dist::Beta::solve_b(&libm, fl(p), fl(x), fl(a)).map(num)
    }
    fn cdf(&self, x: f64) -> f64 {
        num(cdflib::traits::ContinuousCdf::cdf(&self.0, &libm, fl(x)))
    }
    fn ccdf(&self, x: f64) -> f64 {
        num(cdflib::traits::ContinuousCdf::ccdf(&self.0, &libm, fl(x)))
    }
    fn sf(&self, x: f64) -> f64 {
        num(cdflib::traits::ContinuousCdf::sf(&self.0, &libm, fl(x)))
    }
    fn inverse_cdf(&self, p: f64) -> Result<f64, BetaError> {
        cdflib::traits::ContinuousCdf::inverse_cdf(&self.0, &libm, fl(p)).map(num)
    }
    fn inverse_ccdf(&self, q: f64) -> Result<f64, BetaError> {
        self.0.inverse_ccdf(&libm, fl(q)).map(num)
    }
    fn inverse_sf(&self, q: f64) -> Result<f64, BetaError> {
        self.0.inverse_sf(&libm, fl(q)).map(num)
    }
    fn pdf(&self, x: f64) -> f64 {
        num(cdflib::traits::Continuous::pdf(&self.0, &libm, fl(x)))
    }
    fn ln_pdf(&self, x: f64) -> f64 {
        num(cdflib::traits::Continuous::ln_pdf(&self.0, &libm, fl(x)))
    }
    fn mean(&self) -> f64 {
        num(cdflib::traits::Mean::mean(&self.0))
    }
    fn variance(&self) -> f64 {
        num(cdflib::traits::Variance::variance(&self.0))
    }
    fn std_dev(&self) -> f64 {
        num(cdflib::traits::Variance::std_dev(&self.0))
    }
    fn entropy(&self) -> f64 {
        num(cdflib::traits::Entropy::entropy(&self.0, &libm))
    }
}

#[derive(Debug, Clone, Copy, PartialEq)]
struct Binomial(cdflib::dist::Binomial);

#[allow(dead_code)]
impl Binomial {
    fn new(n: u64, pr: f64) -> Self {
        Self::try_new(n, pr).unwrap()
    }
    fn try_new(n: u64, pr: f64) -> Result<Self, BinomialError> {
        let dist = cdflib::dist::Binomial::try_new(n, fl(pr))?;
        assert_eq!(dist, cdflib::dist::Binomial::new(n, fl(pr)));
        Ok(Self(dist))
    }
    fn n(&self) -> u64 {
        self.0.n()
    }
    fn pr(&self) -> f64 {
        num(self.0.pr())
    }
    fn solve_trials(p: f64, pr: f64, s: u64) -> Result<f64, BinomialError> {
        cdflib::dist::Binomial::solve_trials(&libm, fl(p), fl(pr), s).map(num)
    }
    fn solve_pr(p: f64, n: u64, s: u64) -> Result<f64, BinomialError> {
        cdflib::dist::Binomial::solve_pr(&libm, fl(p), n, s).map(num)
    }
    fn cdf(&self, x: u64) -> f64 {
        num(cdflib::traits::DiscreteCdf::cdf(&self.0, &libm, x))
    }
    fn ccdf(&self, x: u64) -> f64 {
        num(cdflib::traits::DiscreteCdf::ccdf(&self.0, &libm, x))
    }
    fn sf(&self, x: u64) -> f64 {
        num(cdflib::traits::DiscreteCdf::sf(&self.0, &libm, x))
    }
    fn inverse_cdf(&self, p: f64) -> Result<u64, BinomialError> {
        cdflib::traits::DiscreteCdf::inverse_cdf(&self.0, &libm, fl(p))
    }
    fn inverse_sf(&self, q: f64) -> Result<u64, BinomialError> {
        self.0.inverse_sf(&libm, fl(q))
    }
    fn pmf(&self, x: u64) -> f64 {
        num(cdflib::traits::Discrete::pmf(&self.0, &libm, x))
    }
    fn ln_pmf(&self, x: u64) -> f64 {
        num(cdflib::traits::Discrete::ln_pmf(&self.0, &libm, x))
    }
    fn mean(&self) -> f64 {
        num(cdflib::traits::Mean::mean(&self.0))
    }
    fn variance(&self) -> f64 {
        num(cdflib::traits::Variance::variance(&self.0))
    }
    fn std_dev(&self) -> f64 {
        num(cdflib::traits::Variance::std_dev(&self.0))
    }
}

#[derive(Debug, Clone, Copy, PartialEq)]
struct ChiSquared(cdflib::dist::ChiSquared);

#[allow(dead_code)]
impl ChiSquared {
    fn new(df: f64) -> Self {
        Self::try_new(df).unwrap()
    }
    fn try_new(df: f64) -> Result<Self, ChiSquaredError> {
        let dist = cdflib::dist::ChiSquared::try_new(fl(df))?;
        assert_eq!(dist, cdflib::dist::ChiSquared::new(fl(df)));
        Ok(Self(dist))
    }
    fn df(&self) -> f64 {
        num(self.0.df())
    }
    fn solve_df(p: f64, x: f64) -> Result<f64, ChiSquaredError> {
        cdflib::dist::ChiSquared::solve_df(&libm, fl(p), fl(x)).map(num)
    }
    fn cdf(&self, x: f64) -> f64 {
        num(cdflib::traits::ContinuousCdf::cdf(&self.0, &libm, fl(x)))
    }
    fn ccdf(&self, x: f64) -> f64 {
        num(cdflib::traits::ContinuousCdf::ccdf(&self.0, &libm, fl(x)))
    }
    fn sf(&self, x: f64) -> f64 {
        num(cdflib::traits::ContinuousCdf::sf(&self.0, &libm, fl(x)))
    }
    fn inverse_cdf(&self, p: f64) -> Result<f64, ChiSquaredError> {
        cdflib::traits::ContinuousCdf::inverse_cdf(&self.0, &libm, fl(p)).map(num)
    }
    fn inverse_sf(&self, q: f64) -> Result<f64, ChiSquaredError> {
        self.0.inverse_sf(&libm, fl(q)).map(num)
    }
    fn pdf(&self, x: f64) -> f64 {
        num(cdflib::traits::Continuous::pdf(&self.0, &libm, fl(x)))
    }
    fn ln_pdf(&self, x: f64) -> f64 {
        num(cdflib::traits::Continuous::ln_pdf(&self.0, &libm, fl(x)))
    }
    fn mean(&self) -> f64 {
        num(cdflib::traits::Mean::mean(&self.0))
    }
    fn variance(&self) -> f64 {
        num(cdflib::traits::Variance::variance(&self.0))
    }
    fn std_dev(&self) -> f64 {
        num(cdflib::traits::Variance::std_dev(&self.0))
    }
    fn entropy(&self) -> f64 {
        num(cdflib::traits::Entropy::entropy(&self.0, &libm))
    }
}

#[derive(Debug, Clone, Copy, PartialEq)]
struct ChiSquaredNoncentral(cdflib::dist::ChiSquaredNoncentral);

#[allow(dead_code)]
impl ChiSquaredNoncentral {
    fn new(df: f64, ncp: f64) -> Self {
        Self::try_new(df, ncp).unwrap()
    }
    fn try_new(df: f64, ncp: f64) -> Result<Self, ChiSquaredNoncentralError> {
        let dist = cdflib::dist::ChiSquaredNoncentral::try_new(fl(df), fl(ncp))?;
        assert_eq!(dist, cdflib::dist::ChiSquaredNoncentral::new(fl(df), fl(ncp)));
        Ok(Self(dist))
    }
    fn df(&self) -> f64 {
        num(self.0.df())
    }
    fn ncp(&self) -> f64 {
        num(self.0.ncp())
    }
    fn search_df(p: f64, x: f64, ncp: f64) -> Result<f64, ChiSquaredNoncentralError> {
        cdflib::dist::ChiSquaredNoncentral::search_df(&libm, fl(p), fl(x), fl(ncp)).map(num)
    }
    fn search_ncp(p: f64, x: f64, df: f64) -> Result<f64, ChiSquaredNoncentralError> {
        cdflib::dist::ChiSquaredNoncentral::search_ncp(&libm, fl(p), fl(x), fl(df)).map(num)
    }
    fn solve_df(p: f64, x: f64, ncp: f64) -> Result<f64, ChiSquaredNoncentralError> {
        cdflib::dist::ChiSquaredNoncentral::solve_df(&libm, fl(p), fl(x), fl(ncp)).map(num)
    }
    fn solve_ncp(p: f64, x: f64, df: f64) -> Result<f64, ChiSquaredNoncentralError> {
        cdflib::dist::ChiSquaredNoncentral::solve_ncp(&libm, fl(p), fl(x), fl(df)).map(num)
    }
    fn cdf(&self, x: f64) -> f64 {
        num(cdflib::traits::ContinuousCdf::cdf(&self.0, &libm, fl(x)))
    }
    fn ccdf(&self, x: f64) -> f64 {
        num(cdflib::traits::ContinuousCdf::ccdf(&self.0, &libm, fl(x)))
    }
    fn sf(&self, x: f64) -> f64 {
        num(cdflib::traits::ContinuousCdf::sf(&self.0, &libm, fl(x)))
    }
    fn inverse_cdf(&self, p: f64) -> Result<f64, ChiSquaredNoncentralError> {
        cdflib::traits::ContinuousCdf::inverse_cdf(&self.0, &libm, fl(p)).map(num)
    }
    fn inverse_sf(&self, q: f64) -> Result<f64, ChiSquaredNoncentralError> {
        self.0.inverse_sf(&libm, fl(q)).map(num)
    }
    fn mean(&self) -> f64 {
        num(cdflib::traits::Mean::mean(&self.0))
    }
    fn variance(&self) -> f64 {
        num(cdflib::traits::Variance::variance(&self.0))
    }
    fn std_dev(&self) -> f64 {
        num(cdflib::traits::Variance::std_dev(&self.0))
    }
}

#[derive(Debug, Clone, Copy, PartialEq)]
struct FisherSnedecor(cdflib::dist::FisherSnedecor);

#[allow(dead_code)]
impl FisherSnedecor {
    fn new(dfn: f64, dfd: f64) -> Self {
        Self::try_new(dfn, dfd).unwrap()
    }
    fn try_new(dfn: f64, dfd: f64) -> Result<Self, FisherSnedecorError> {
        let dist = cdflib::dist::FisherSnedecor::try_new(fl(dfn), fl(dfd))?;
        assert_eq!(dist, cdflib::dist::FisherSnedecor::new(fl(dfn), fl(dfd)));
        Ok(Self(dist))
    }
    fn dfn(&self) -> f64 {
        num(self.0.dfn())
    }
    fn dfd(&self) -> f64 {
        num(self.0.dfd())
    }
    fn solve_dfn(p: f64, q: f64, f: f64, dfd: f64) -> Result<f64, FisherSnedecorError> {
        cdflib::dist::FisherSnedecor::solve_dfn(&libm, fl(p), fl(q), fl(f), fl(dfd)).map(num)
    }
    fn solve_dfd(p: f64, q: f64, f: f64, dfn: f64) -> Result<f64, FisherSnedecorError> {
        cdflib::dist::FisherSnedecor::solve_dfd(&libm, fl(p), fl(q), fl(f), fl(dfn)).map(num)
    }
    fn cdf(&self, x: f64) -> f64 {
        num(cdflib::traits::ContinuousCdf::cdf(&self.0, &libm, fl(x)))
    }
    fn ccdf(&self, x: f64) -> f64 {
        num(cdflib::traits::ContinuousCdf::ccdf(&self.0, &libm, fl(x)))
    }
    fn sf(&self, x: f64) -> f64 {
        num(cdflib::traits::ContinuousCdf::sf(&self.0, &libm, fl(x)))
    }
    fn inverse_cdf(&self, p: f64) -> Result<f64, FisherSnedecorError> {
        cdflib::traits::ContinuousCdf::inverse_cdf(&self.0, &libm, fl(p)).map(num)
    }
    fn inverse_sf(&self, q: f64) -> Result<f64, FisherSnedecorError> {
        self.0.inverse_sf(&libm, fl(q)).map(num)
    }
    fn pdf(&self, x: f64) -> f64 {
        num(cdflib::traits::Continuous::pdf(&self.0, &libm, fl(x)))
    }
    fn ln_pdf(&self, x: f64) -> f64 {
        num(cdflib::traits::Continuous::ln_pdf(&self.0, &libm, fl(x)))
    }
    fn mean(&self) -> f64 {
        num(cdflib::traits::Mean::mean(&self.0))
    }
    fn variance(&self) -> f64 {
        num(cdflib::traits::Variance::variance(&self.0))
    }
    fn std_dev(&self) -> f64 {
        num(cdflib::traits::Variance::std_dev(&self.0))
    }
    fn entropy(&self) -> f64 {
        num(cdflib::traits::Entropy::entropy(&self.0, &libm))
    }
}

#[derive(Debug, Clone, Copy, PartialEq)]
struct FisherSnedecorNoncentral(cdflib::dist::FisherSnedecorNoncentral);

#[allow(dead_code)]
impl FisherSnedecorNoncentral {
    fn new(dfn: f64, dfd: f64, ncp: f64) -> Self {
        Self::try_new(dfn, dfd, ncp).unwrap()
    }
    fn try_new(dfn: f64, dfd: f64, ncp: f64) -> Result<Self, FisherSnedecorNoncentralError> {
        let dist = cdflib::dist::FisherSnedecorNoncentral::try_new(fl(dfn), fl(dfd), fl(ncp))?;
        assert_eq!(dist, cdflib::dist::FisherSnedecorNoncentral::new(fl(dfn), fl(dfd), fl(ncp)));
        Ok(Self(dist))
    }
    fn dfn(&self) -> f64 {
        num(self.0.dfn())
    }
    fn dfd(&self) -> f64 {
        num(self.0.dfd())
    }
    fn ncp(&self) -> f64 {
        num(self.0.ncp())
    }
    fn search_dfn(p: f64, f: f64, dfd: f64, ncp: f64) -> Result<f64, FisherSnedecorNoncentralError> {
        cdflib::dist::FisherSnedecorNoncentral::search_dfn(&libm, fl(p), fl(f), fl(dfd), fl(ncp)).map(num)
    }
    fn search_dfd(p: f64, f: f64, dfn: f64, ncp: f64) -> Result<f64, FisherSnedecorNoncentralError> {
        cdflib::dist::FisherSnedecorNoncentral::search_dfd(&libm, fl(p), fl(f), fl(dfn), fl(ncp)).map(num)
    }
    fn search_ncp(p: f64, f: f64, dfn: f64, dfd: f64) -> Result<f64, FisherSnedecorNoncentralError> {
        cdflib::dist::FisherSnedecorNoncentral::search_ncp(&libm, fl(p), fl(f), fl(dfn), fl(dfd)).map(num)
    }
    fn solve_dfn(p: f64, f: f64, dfd: f64, ncp: f64) -> Result<f64, FisherSnedecorNoncentralError> {
        cdflib::dist::FisherSnedecorNoncentral::solve_dfn(&libm, fl(p), fl(f), fl(dfd), fl(ncp)).map(num)
    }
    fn solve_dfd(p: f64, f: f64, dfn: f64, ncp: f64) -> Result<f64, FisherSnedecorNoncentralError> {
        cdflib::dist::FisherSnedecorNoncentral::solve_dfd(&libm, fl(p), fl(f), fl(dfn), fl(ncp)).map(num)
    }
    fn solve_ncp(p: f64, f: f64, dfn: f64, dfd: f64) -> Result<f64, FisherSnedecorNoncentralError> {
        cdflib::dist::FisherSnedecorNoncentral::solve_ncp(&libm, fl(p), fl(f), fl(dfn), fl(dfd)).map(num)
    }
    fn cdf(&self, x: f64) -> f64 {
        num(cdflib::traits::ContinuousCdf::cdf(&self.0, &libm, fl(x)))
    }
    fn ccdf(&self, x: f64) -> f64 {
        num(cdflib::traits::ContinuousCdf::ccdf(&self.0, &libm, fl(x)))
    }
    fn sf(&self, x: f64) -> f64 {
        num(cdflib::traits::ContinuousCdf::sf(&self.0, &libm, fl(x)))
    }
    fn inverse_cdf(&self, p: f64) -> Result<f64, FisherSnedecorNoncentralError> {
        cdflib::traits::ContinuousCdf::inverse_cdf(&self.0, &libm, fl(p)).map(num)
    }
    fn inverse_sf(&self, q: f64) -> Result<f64, FisherSnedecorNoncentralError> {
        self.0.inverse_sf(&libm, fl(q)).map(num)
    }
    fn mean(&self) -> f64 {
        num(cdflib::traits::Mean::mean(&self.0))
    }
    fn variance(&self) -> f64 {
        num(cdflib::traits::Variance::variance(&self.0))
    }
    fn std_dev(&self) -> f64 {
        num(cdflib::traits::Variance::std_dev(&self.0))
    }
}

#[derive(Debug, Clone, Copy, PartialEq)]
struct Gamma(cdflib::dist::Gamma);

#[allow(dead_code)]
impl Gamma {
    fn new(shape: f64, rate: f64) -> Self {
        Self::try_new(shape, rate).unwrap()
    }
    fn try_new(shape: f64, rate: f64) -> Result<Self, GammaError> {
        let dist = cdflib::dist::Gamma::try_new(fl(shape), fl(rate))?;
        assert_eq!(dist, cdflib::dist::Gamma::new(fl(shape), fl(rate)));
        Ok(Self(dist))
    }
    fn shape(&self) -> f64 {
        num(self.0.shape())
    }
    fn rate(&self) -> f64 {
        num(self.0.rate())
    }
    fn solve_shape(p: f64, q: f64, x: f64, rate: f64) -> Result<f64, GammaError> {
        cdflib::dist::Gamma::solve_shape(&libm, fl(p), fl(q), fl(x), fl(rate)).map(num)
    }
    fn solve_rate(p: f64, q: f64, x: f64, shape: f64) -> Result<f64, GammaError> {
        cdflib::dist::Gamma::solve_rate(&libm, fl(p), fl(q), fl(x), fl(shape)).map(num)
    }
    fn cdf(&self, x: f64) -> f64 {
        num(cdflib::traits::ContinuousCdf::cdf(&self.0, &libm, fl(x)))
    }
    fn ccdf(&self, x: f64) -> f64 {
        num(cdflib::traits::ContinuousCdf::ccdf(&self.0, &libm, fl(x)))
    }
    fn sf(&self, x: f64) -> f64 {
        num(cdflib::traits::ContinuousCdf::sf(&self.0, &libm, fl(x)))
    }
    fn inverse_cdf(&self, p: f64) -> Result<f64, GammaError> {
        cdflib::traits::ContinuousCdf::inverse_cdf(&self.0, &libm, fl(p)).map(num)
    }
    fn inverse_sf(&self, q: f64) -> Result<f64, GammaError> {
        self.0.inverse_sf(&libm, fl(q)).map(num)
    }
    fn pdf(&self, x: f64) -> f64 {
        num(cdflib::traits::Continuous::pdf(&self.0, &libm, fl(x)))
    }
    fn ln_pdf(&self, x: f64) -> f64 {
        num(cdflib::traits::Continuous::ln_pdf(&self.0, &libm, fl(x)))
    }
    fn mean(&self) -> f64 {
        num(cdflib::traits::Mean::mean(&self.0))
    }
    fn variance(&self) -> f64 {
        num(cdflib::traits::Variance::variance(&self.0))
    }
    fn std_dev(&self) -> f64 {
        num(cdflib::traits::Variance::std_dev(&self.0))
    }
    fn entropy(&self) -> f64 {
        num(cdflib::traits::Entropy::entropy(&self.0, &libm))
    }
}

#[derive(Debug, Clone, Copy, PartialEq)]
struct NegativeBinomial(cdflib::dist::NegativeBinomial);

#[allow(dead_code)]
impl NegativeBinomial {
    fn new(r: u64, pr: f64) -> Self {
        Self::try_new(r, pr).unwrap()
    }
    fn try_new(r: u64, pr: f64) -> Result<Self, NegativeBinomialError> {
        let dist = cdflib::dist::NegativeBinomial::try_new(r, fl(pr))?;
        assert_eq!(dist, cdflib::dist::NegativeBinomial::new(r, fl(pr)));
        Ok(Self(dist))
    }
    fn r(&self) -> u64 {
        self.0.r()
    }
    fn pr(&self) -> f64 {
        num(self.0.pr())
    }
    fn solve_r(p: f64, pr: f64, s: u64) -> Result<f64, NegativeBinomialError> {
        cdflib::dist::NegativeBinomial::solve_r(&libm, fl(p), fl(pr), s).map(num)
    }
    fn solve_trials(p: f64, pr: f64, s: u64) -> Result<f64, NegativeBinomialError> {
        cdflib::dist::NegativeBinomial::solve_trials(&libm, fl(p), fl(pr), s).map(num)
    }
    fn solve_pr(p: f64, r: u64, s: u64) -> Result<f64, NegativeBinomialError> {
        cdflib::dist::NegativeBinomial::solve_pr(&libm, fl(p), r, s).map(num)
    }
    fn cdf(&self, x: u64) -> f64 {
        num(cdflib::traits::DiscreteCdf::cdf(&self.0, &libm, x))
    }
    fn ccdf(&self, x: u64) -> f64 {
        num(cdflib::traits::DiscreteCdf::ccdf(&self.0, &libm, x))
    }
    fn sf(&self, x: u64) -> f64 {
        num(cdflib::traits::DiscreteCdf::sf(&self.0, &libm, x))
    }
    fn inverse_cdf(&self, p: f64) -> Result<u64, NegativeBinomialError> {
        cdflib::traits::DiscreteCdf::inverse_cdf(&self.0, &libm, fl(p))
    }
    fn inverse_sf(&self, q: f64) -> Result<u64, NegativeBinomialError> {
        self.0.inverse_sf(&libm, fl(q))
    }
    fn pmf(&self, x: u64) -> f64 {
        num(cdflib::traits::Discrete::pmf(&self.0, &libm, x))
    }
    fn ln_pmf(&self, x: u64) -> f64 {
        num(cdflib::traits::Discrete::ln_pmf(&self.0, &libm, x))
    }
    fn mean(&self) -> f64 {
        num(cdflib::traits::Mean::mean(&self.0))
    }
    fn variance(&self) -> f64 {
        num(cdflib::traits::Variance::variance(&self.0))
    }
    fn std_dev(&self) -> f64 {
        num(cdflib::traits::Variance::std_dev(&self.0))
    }
}

#[derive(Debug, Clone, Copy, PartialEq)]
struct Normal(cdflib::dist::Normal);

#[allow(dead_code)]
impl Normal {
    fn new(mean: f64, sd: f64) -> Self {
        Self::try_new(mean, sd).unwrap()
    }
    fn try_new(mean: f64, sd: f64) -> Result<Self, NormalError> {
        let dist = cdflib::dist::Normal::try_new(fl(mean), fl(sd))?;
        assert_eq!(dist, cdflib::dist::Normal::new(fl(mean), fl(sd)));
        Ok(Self(dist))
    }
    fn mean(&self) -> f64 {
        num(self.0.mean())
    }
    fn sd(&self) -> f64 {
        num(self.0.sd())
    }
    fn solve_mean(p: f64, q: f64, x: f64, sd: f64) -> Result<f64, NormalError> {
        cdflib::dist::Normal::solve_mean(&libm, fl(p), fl(q), fl(x), fl(sd)).map(num)
    }
    fn solve_sd(p: f64, q: f64, x: f64, mean: f64) -> Result<f64, NormalError> {
        cdflib::dist::Normal::solve_sd(&libm, fl(p), fl(q), fl(x), fl(mean)).map(num)
    }
    fn cdf(&self, x: f64) -> f64 {
        num(cdflib::traits::ContinuousCdf::cdf(&self.0, &libm, fl(x)))
    }
    fn ccdf(&self, x: f64) -> f64 {
        num(cdflib::traits::ContinuousCdf::ccdf(&self.0, &libm, fl(x)))
    }
    fn sf(&self, x: f64) -> f64 {
        num(cdflib::traits::ContinuousCdf::sf(&self.0, &libm, fl(x)))
    }
    fn inverse_cdf(&self, p: f64) -> Result<f64, NormalError> {
        cdflib::traits::ContinuousCdf::inverse_cdf(&self.0, &libm, fl(p)).map(num)
    }
    fn inverse_sf(&self, q: f64) -> Result<f64, NormalError> {
        self.0.inverse_sf(&libm, fl(q)).map(num)
    }
    fn pdf(&self, x: f64) -> f64 {
        num(cdflib::traits::Continuous::pdf(&self.0, &libm, fl(x)))
    }
    fn ln_pdf(&self, x: f64) -> f64 {
        num(cdflib::traits::Continuous::ln_pdf(&self.0, &libm, fl(x)))
    }
    fn variance(&self) -> f64 {
        num(cdflib::traits::Variance::variance(&self.0))
    }
    fn std_dev(&self) -> f64 {
        num(cdflib::traits::Variance::std_dev(&self.0))
    }
    fn entropy(&self) -> f64 {
        num(cdflib::traits::Entropy::entropy(&self.0, &libm))
    }
    fn standard() -> Self {
        Self(cdflib::dist::Normal::standard())
    }
}

#[derive(Debug, Clone, Copy, PartialEq)]
struct Poisson(cdflib::dist::Poisson);

#[allow(dead_code)]
impl Poisson {
    fn new(lambda: f64) -> Self {
        Self::try_new(lambda).unwrap()
    }
    fn try_new(lambda: f64) -> Result<Self, PoissonError> {
        let dist = cdflib::dist::Poisson::try_new(fl(lambda))?;
        assert_eq!(dist, cdflib::dist::Poisson::new(fl(lambda)));
        Ok(Self(dist))
    }
    fn lambda(&self) -> f64 {
        num(self.0.lambda())
    }
    fn search_lambda(p: f64, q: f64, s: u64) -> Result<f64, PoissonError> {
        cdflib::dist::Poisson::search_lambda(&libm, fl(p), fl(q), s).map(num)
    }
    fn solve_lambda(p: f64, s: u64) -> Result<f64, PoissonError> {
        cdflib::dist::Poisson::solve_lambda(&libm, fl(p), s).map(num)
    }
    fn cdf(&self, x: u64) -> f64 {
        num(cdflib::traits::DiscreteCdf::cdf(&self.0, &libm, x))
    }
    fn ccdf(&self, x: u64) -> f64 {
        num(cdflib::traits::DiscreteCdf::ccdf(&self.0, &libm, x))
    }
    fn sf(&self, x: u64) -> f64 {
        num(cdflib::traits::DiscreteCdf::sf(&self.0, &libm, x))
    }
    fn inverse_cdf(&self, p: f64) -> Result<u64, PoissonError> {
        cdflib::traits::DiscreteCdf::inverse_cdf(&self.0, &libm, fl(p))
    }
    fn inverse_sf(&self, q: f64) -> Result<u64, PoissonError> {
        self.0.inverse_sf(&libm, fl(q))
    }
    fn inverse_ccdf(&self, q: f64) -> Result<f64, PoissonError> {
        self.0.inverse_ccdf(&libm, fl(q)).map(num)
    }
    fn pmf(&self, x: u64) -> f64 {
        num(cdflib::traits::Discrete::pmf(&self.0, &libm, x))
    }
    fn ln_pmf(&self, x: u64) -> f64 {
        num(cdflib::traits::Discrete::ln_pmf(&self.0, &libm, x))
    }
    fn mean(&self) -> f64 {
        num(cdflib::traits::Mean::mean(&self.0))
    }
    fn variance(&self) -> f64 {
        num(cdflib::traits::Variance::variance(&self.0))
    }
    fn std_dev(&self) -> f64 {
        num(cdflib::traits::Variance::std_dev(&self.0))
    }
}

#[derive(Debug, Clone, Copy, PartialEq)]
struct StudentsT(cdflib::dist::StudentsT);

#[allow(dead_code)]
impl StudentsT {
    fn new(df: f64) -> Self {
        Self::try_new(df).unwrap()
    }
    fn try_new(df: f64) -> Result<Self, StudentsTError> {
        let dist = cdflib::dist::StudentsT::try_new(fl(df))?;
        assert_eq!(dist, cdflib::dist::StudentsT::new(fl(df)));
        Ok(Self(dist))
    }
    fn df(&self) -> f64 {
        num(self.0.df())
    }
    fn search_df(p: f64, q: f64, t: f64) -> Result<f64, StudentsTError> {
        cdflib::dist::StudentsT::search_df(&libm, fl(p), fl(q), fl(t)).map(num)
    }
    fn solve_df(p: f64, q: f64, t: f64) -> Result<f64, StudentsTError> {
        cdflib::dist::StudentsT::solve_df(&libm, fl(p), fl(q), fl(t)).map(num)
    }
    fn cdf(&self, x: f64) -> f64 {
        num(cdflib::traits::ContinuousCdf::cdf(&self.0, &libm, fl(x)))
    }
    fn ccdf(&self, x: f64) -> f64 {
        num(cdflib::traits::ContinuousCdf::ccdf(&self.0, &libm, fl(x)))
    }
    fn sf(&self, x: f64) -> f64 {
        num(cdflib::traits::ContinuousCdf::sf(&self.0, &libm, fl(x)))
    }
    fn inverse_cdf(&self, p: f64) -> Result<f64, StudentsTError> {
        cdflib::traits::ContinuousCdf::inverse_cdf(&self.0, &libm, fl(p)).map(num)
    }
    fn inverse_sf(&self, q: f64) -> Result<f64, StudentsTError> {
        self.0.inverse_sf(&libm, fl(q)).map(num)
    }
    fn pdf(&self, x: f64) -> f64 {
        num(cdflib::traits::Continuous::pdf(&self.0, &libm, fl(x)))
    }
    fn ln_pdf(&self, x: f64) -> f64 {
        num(cdflib::traits::Continuous::ln_pdf(&self.0, &libm, fl(x)))
    }
    fn mean(&self) -> f64 {
        num(cdflib::traits::Mean::mean(&self.0))
    }
    fn variance(&self) -> f64 {
        num(cdflib::traits::Variance::variance(&self.0))
    }
    fn std_dev(&self) -> f64 {
        num(cdflib::traits::Variance::std_dev(&self.0))
    }
    fn entropy(&self) -> f64 {
        num(cdflib::traits::Entropy::entropy(&self.0, &libm))
    }
}

#[allow(dead_code)]
fn bcorr(a: f64, b: f64) -> f64 {
    num(cdflib::special::beta::bcorr(fl(a), fl(b)))
}

#[allow(dead_code)]
fn beta(a: f64, b: f64) -> f64 {
    num(cdflib::special::beta::beta(&libm, fl(a), fl(b)))
}

#[allow(dead_code)]
fn beta_grat(a: f64, b: f64, x: f64, y: f64, w: f64, eps: f64) -> Result<f64, BetaGratError> {
    cdflib::special::beta_inc::beta_grat(&libm, fl(a), fl(b), fl(x), fl(y), fl(w), fl(eps)).map(num)
}

#[allow(dead_code)]
fn beta_log(a: f64, b: f64) -> f64 {
    num(cdflib::special::beta::beta_log(&libm, fl(a), fl(b)))
}

#[allow(dead_code)]
fn cumnor(x: f64) -> (f64, f64) {
    pair(cdflib::special::normal::cumnor(&libm, fl(x)))
}

#[allow(dead_code)]
fn dbetrm(a: f64, b: f64) -> f64 {
    if a + b <= 0.0 || a.max(b) <= 0.0 || a.min(b) <= 0.0 {
        panic!("dbetrm: arguments must be positive (got {a}, {b})");
    }
    num(cdflib::special::beta::dbetrm(&libm, fl(a), fl(b)))
}

#[allow(dead_code)]
fn dexpm1(x: f64) -> f64 {
    num(cdflib::special::gamma::dexpm1(&libm, fl(x)))
}

#[allow(dead_code)]
fn dinvnr(p: f64, q: f64) -> f64 {
    num(cdflib::special::normal::dinvnr(&libm, fl(p), fl(q)))
}

#[allow(dead_code)]
fn dlanor(x: f64) -> f64 {
    if x.abs() < 5.0 {
        panic!("dlanor: argument |x| must be >= 5 (got {x})");
    }
    num(cdflib::special::normal::dlanor(&libm, fl(x)))
}

#[allow(dead_code)]
fn dt1(p: f64, q: f64, df: f64) -> f64 {
    num(cdflib::special::students_t::dt1(&libm, fl(p), fl(q), fl(df)))
}

#[allow(dead_code)]
fn error_f(x: f64) -> f64 {
    num(cdflib::special::erf::error_f(&libm, fl(x)))
}

#[allow(dead_code)]
fn gamma_inc(a: f64, x: f64) -> (f64, f64) {
    if a.is_nan() || x.is_nan() {
        return (f64::NAN, f64::NAN);
    }
    match try_gamma_inc(a, x) {
        Ok(_) => pair(cdflib::special::gamma_inc::gamma_inc(&libm, fl(a), fl(x))),
        Err(e) => panic!("gamma_inc({a}, {x}): {e:?}"),
    }
}

#[allow(dead_code)]
fn gamma_inc_with_acc(a: f64, x: f64, accuracy: GammaIncAcc) -> (f64, f64) {
    if a.is_nan() || x.is_nan() {
        return (f64::NAN, f64::NAN);
    }
    match try_gamma_inc_with_acc(a, x, accuracy) {
        Ok(_) => pair(cdflib::special::gamma_inc::gamma_inc_with_acc(&libm, fl(a), fl(x), accuracy)),
        Err(e) => panic!("gamma_inc({a}, {x}): {e:?}"),
    }
}

#[allow(dead_code)]
fn rexp(x: f64) -> f64 {
    num(cdflib::special::gamma::rexp(&libm, fl(x)))
}

#[allow(dead_code)]
fn try_beta_inc(a: f64, b: f64, x: f64, y: f64) -> Result<(f64, f64), BetaIncError> {
    cdflib::special::beta_inc::try_beta_inc(&libm, fl(a), fl(b), fl(x), fl(y)).map(pair)
}

#[allow(dead_code)]
fn try_gamma(a: f64) -> Result<f64, GammaDomainError> {
    cdflib::special::gamma::try_gamma(&libm, fl(a)).map(num)
}

#[allow(dead_code)]
fn try_gamma_inc(a: f64, x: f64) -> Result<(f64, f64), GammaIncError> {
    cdflib::special::gamma_inc::try_gamma_inc(&libm, fl(a), fl(x)).map(pair)
}

#[allow(dead_code)]
fn try_gamma_inc_inv(a: f64, x0: f64, p: f64, q: f64) -> Result<(f64, u32), GammaIncInvError> {
    cdflib::special::gamma_inv::try_gamma_inc_inv(&libm, fl(a), fl(x0), fl(p), fl(q)).map(|r| (num(r.0), r.1))
}

#[allow(dead_code)]
fn try_gamma_inc_with_acc(a: f64, x: f64, accuracy: GammaIncAcc) -> Result<(f64, f64), GammaIncError> {
    cdflib::special::gamma_inc::try_gamma_inc_with_acc(&libm, fl(a), fl(x), accuracy).map(pair)
}

#[allow(dead_code)]
fn try_psi(x: f64) -> Result<f64, PsiError> {
    cdflib::special::gamma::try_psi(&libm, fl(x)).map(num)
}

fn lines_up(a: f64, b: f64, tol: f64) -> bool {
    (a - b).abs() <= tol * a.abs().max(b.abs()).max(1.0)
}

fn grid() -> Vec<f64> {
    vec![0.0, 1e-310, 1e-12, 0.1, 0.25, 0.5, 0.6, 0.7, 1.0, 1.5, 2.0, 3.3, 4.5, 5.0, 5.7, 6.0, 7.25, 12.0, 30.0]
}

#[test]
fn error_function_is_odd() {
    for x in grid() {
        assert_eq!(error_f(-x).to_bits(), (-error_f(x)).to_bits(), "x = {x}");
    }
}

#[test]
fn normal_tails_mirror() {
    for x in grid() {
        let (p, q) = cumnor(x);
        assert_eq!(cumnor(-x), (q, p), "x = {x}");
    }
}

#[test]
fn normal_log_tail_is_even() {
    for x in [5.0, 6.5, 20.0] {
        assert_eq!(dlanor(-x), dlanor(x));
    }
}

#[test]
fn normal_quantile_mirrors() {
    for p in [1e-20, 0.01, 0.3, 0.49] {
        assert_eq!(dinvnr(1.0 - p, p), -dinvnr(p, 1.0 - p));
    }
}

#[test]
fn t_start_mirrors() {
    for p in [0.01, 0.3, 0.49] {
        assert_eq!(dt1(p, 1.0 - p, 7.0), -dt1(1.0 - p, p, 7.0));
    }
}

#[test]
fn beta_is_symmetric() {
    for (a, b) in [(0.5, 3.0), (2.0, 9.0), (20.0, 30.0), (1500.0, 3.0), (1.5, 1.75)] {
        assert_eq!(beta_log(a, b), beta_log(b, a));
        assert_eq!(beta(a, b), beta(b, a));
        assert_eq!(bcorr(a, b), bcorr(b, a));
        assert_eq!(dbetrm(a, b), dbetrm(b, a));
    }
}

#[test]
fn exponential_minus_one_has_two_names() {
    for x in [-3.0, -0.15, -0.01, 0.0, 0.1, 0.15, 0.2, 4.0] {
        assert_eq!(dexpm1(x), rexp(x));
    }
}

fn two_tails(p: f64, q: f64) -> bool {
    q == 0.5 + (0.5 - p) || p == 0.5 + (0.5 - q) || (p, q) == (0.0, 1.0) || (p, q) == (1.0, 0.0)
}

#[test]
fn gamma_ratios_are_two_tails() {
    for a in [0.1, 0.5, 0.9, 1.0, 2.5, 7.3, 15.0, 40.0, 1000.0, 1e8] {
        for r in [0.01, 0.5, 0.99, 1.0, 1.01, 2.0, 10.0] {
            for acc in [GammaIncAcc::Max, GammaIncAcc::Digits6, GammaIncAcc::Digits3] {
                let (p, q) = try_gamma_inc_with_acc(a, a * r, acc).unwrap();
                assert!(two_tails(p, q), "a = {a}, r = {r}: {p}, {q}");
            }
        }
    }
}

#[test]
fn gamma_ratios_at_zero() {
    assert_eq!(try_gamma_inc(3.0, 0.0).unwrap(), (0.0, 1.0));
    assert_eq!(try_gamma_inc(0.0, 3.0).unwrap(), (1.0, 0.0));
}

#[test]
fn gamma_ratio_errors_come_in_order() {
    assert_eq!(try_gamma_inc(-1.0, -1.0), Err(GammaIncError::ANegative(fl(-1.0))));
    assert_eq!(try_gamma_inc(1.0, -1.0), Err(GammaIncError::XNegative(fl(-1.0))));
    assert_eq!(try_gamma_inc(0.0, 0.0), Err(GammaIncError::BothZero));
    assert_eq!(try_gamma_inc(1e300, 1e300), Err(GammaIncError::Indeterminate { a: fl(1e300), x: fl(1e300) }));
}

#[test]
fn beta_ratios_are_two_tails_and_reflect() {
    for (a, b) in [(0.3, 0.7), (0.5, 20.0), (3.0, 0.2), (5.0, 7.0), (60.0, 90.0), (300.0, 200.0), (1e4, 3e4)] {
        for x in [0.01, 0.2, 0.45, 0.7, 0.93] {
            let y = 1.0 - x;
            let (p, q) = try_beta_inc(a, b, x, y).unwrap();
            assert!(two_tails(p, q), "a = {a}, b = {b}, x = {x}: {p}, {q}");
            assert_eq!(try_beta_inc(b, a, y, x).unwrap(), (q, p), "a = {a}, b = {b}, x = {x}");
        }
    }
    let (p, q) = try_beta_inc(1e-20, 3e-20, 0.25, 0.75).unwrap();
    assert_eq!((p, q), (3e-20 / (1e-20 + 3e-20), 1e-20 / (1e-20 + 3e-20)));
}

#[test]
fn beta_ratios_at_the_ends() {
    assert_eq!(try_beta_inc(2.0, 3.0, 0.0, 1.0).unwrap(), (0.0, 1.0));
    assert_eq!(try_beta_inc(2.0, 3.0, 1.0, 0.0).unwrap(), (1.0, 0.0));
}

#[test]
fn beta_ratio_errors() {
    assert_eq!(try_beta_inc(-1.0, 1.0, 0.5, 0.5), Err(BetaIncError::NegativeParameter { a: fl(-1.0), b: fl(1.0) }));
    assert_eq!(try_beta_inc(0.0, 0.0, 0.5, 0.5), Err(BetaIncError::BothZero));
    assert_eq!(try_beta_inc(1.0, 1.0, 1.5, 0.5), Err(BetaIncError::XOutOfRange(fl(1.5))));
    assert_eq!(try_beta_inc(1.0, 1.0, 0.5, -0.5), Err(BetaIncError::YOutOfRange(fl(-0.5))));
    assert_eq!(try_beta_inc(1.0, 1.0, 0.5, 0.25), Err(BetaIncError::InconsistentSum { x: fl(0.5), y: fl(0.25) }));
    assert_eq!(try_beta_inc(0.0, 1.0, 0.0, 1.0), Err(BetaIncError::XZeroAndAZero));
    assert_eq!(try_beta_inc(1.0, 0.0, 1.0, 0.0), Err(BetaIncError::YZeroAndBZero));
}

#[test]
fn quantiles_of_zero_and_one_are_the_ends() {
    let inf = f64::INFINITY;
    let b = Beta::new(2.0, 3.0);
    assert_eq!((b.inverse_cdf(0.0).unwrap(), b.inverse_cdf(1.0).unwrap()), (0.0, 1.0));
    let n = Normal::new(1.0, 2.0);
    assert_eq!((n.inverse_cdf(0.0).unwrap(), n.inverse_cdf(1.0).unwrap()), (-inf, inf));
    let g = Gamma::new(2.0, 3.0);
    assert_eq!((g.inverse_cdf(0.0).unwrap(), g.inverse_cdf(1.0).unwrap()), (0.0, inf));
    let c = ChiSquared::new(4.0);
    assert_eq!((c.inverse_cdf(0.0).unwrap(), c.inverse_cdf(1.0).unwrap()), (0.0, inf));
    let t = StudentsT::new(4.0);
    assert_eq!((t.inverse_cdf(0.0).unwrap(), t.inverse_cdf(1.0).unwrap()), (-inf, inf));
    let f = FisherSnedecor::new(4.0, 5.0);
    assert_eq!((f.inverse_cdf(0.0).unwrap(), f.inverse_cdf(1.0).unwrap()), (0.0, inf));
    let k = Binomial::new(9, 0.25);
    assert_eq!((k.inverse_cdf(0.0).unwrap(), k.inverse_cdf(1.0).unwrap()), (0, 9));
}

#[test]
fn t_tails_mirror() {
    let d = StudentsT::new(3.5);
    for t in [1e-5, 0.3, 2.0, 40.0] {
        assert_eq!(d.cdf(-t), d.sf(t));
        assert_eq!(d.sf(-t), d.cdf(t));
    }
}

#[test]
fn noncentral_distributions_reduce() {
    let c = ChiSquared::new(3.0);
    let cn = ChiSquaredNoncentral::new(3.0, 1e-11);
    let f = FisherSnedecor::new(3.0, 7.0);
    let fn_ = FisherSnedecorNoncentral::new(3.0, 7.0, 1e-11);
    for x in [0.1, 1.0, 5.0] {
        assert_eq!((cn.cdf(x), cn.ccdf(x)), (c.cdf(x), c.ccdf(x)));
        assert_eq!((fn_.cdf(x), fn_.ccdf(x)), (f.cdf(x), f.ccdf(x)));
    }
}

#[test]
fn counts_are_the_smallest() {
    let b = Binomial::new(30, 0.3);
    let p = Poisson::new(4.5);
    let n = NegativeBinomial::new(3, 0.4);
    for t in [0.001, 0.2, 0.5, 0.77, 0.999] {
        let s = b.inverse_cdf(t).unwrap();
        assert!(b.cdf(s) >= t && (s == 0 || b.cdf(s - 1) < t));
        let s = p.inverse_cdf(t).unwrap();
        assert!(p.cdf(s) >= t && (s == 0 || p.cdf(s - 1) < t));
        let s = n.inverse_cdf(t).unwrap();
        assert!(n.cdf(s) >= t && (s == 0 || n.cdf(s - 1) < t));
    }
}

#[test]
fn poisson_with_mean_zero_is_a_point() {
    let p = Poisson::new(0.0);
    assert_eq!(p.pmf(0), 1.0);
    assert_eq!(p.pmf(3), 0.0);
    assert_eq!(p.cdf(0), 1.0);
    assert_eq!(p.inverse_cdf(0.5).unwrap(), 0);
}

#[test]
fn poisson_upper_quantile_on_the_continuous_scale() {
    let p = Poisson::new(2.0);
    for q in [0.5, 0.1, 0.05] {
        let s = p.inverse_ccdf(q).unwrap();
        assert!(p.ccdf(s.floor() as u64) >= q);
    }
}

#[test]
fn densities_are_exponentials_of_their_logarithms() {
    let n = Normal::new(1.0, 2.0);
    assert_eq!(n.pdf(0.3), n.ln_pdf(0.3).exp());
    let g = Gamma::new(2.0, 3.0);
    assert_eq!(g.pdf(0.3), g.ln_pdf(0.3).exp());
    let b = Beta::new(2.0, 3.0);
    assert_eq!(b.pdf(0.3), b.ln_pdf(0.3).exp());
    let c = ChiSquared::new(4.0);
    assert_eq!(c.pdf(0.3), c.ln_pdf(0.3).exp());
    let t = StudentsT::new(4.0);
    assert_eq!(t.pdf(0.3), t.ln_pdf(0.3).exp());
    let f = FisherSnedecor::new(4.0, 5.0);
    assert_eq!(f.pdf(0.3), f.ln_pdf(0.3).exp());
}

#[test]
fn outside_the_support() {
    let b = Beta::new(2.0, 3.0);
    assert_eq!((b.cdf(-1.0), b.ccdf(-1.0), b.cdf(2.0), b.ccdf(2.0)), (0.0, 1.0, 1.0, 0.0));
    let f = FisherSnedecorNoncentral::new(2.0, 3.0, 1.0);
    assert_eq!((f.cdf(-1.0), f.ccdf(-1.0)), (0.0, 1.0));
    assert!(f.cdf(f64::NAN).is_nan());
}

#[test]
fn moments_have_closed_forms() {
    let b = Beta::new(2.0, 3.0);
    assert_eq!(b.mean(), 0.4);
    assert_eq!(b.variance(), 0.04);
    assert_eq!(b.std_dev(), 0.2);
    let f = FisherSnedecor::new(4.0, 6.0);
    assert_eq!(f.mean(), 1.5);
    assert_eq!(f.variance(), 2.0 * 36.0 * 8.0 / (4.0 * 16.0 * 2.0));
    let c = ChiSquaredNoncentral::new(3.0, 2.0);
    assert_eq!((c.mean(), c.variance()), (5.0, 14.0));
    let n = NegativeBinomial::new(3, 0.5);
    assert_eq!((n.mean(), n.variance()), (3.0, 6.0));
    let k = Binomial::new(10, 0.25);
    assert_eq!((k.mean(), k.variance()), (2.5, 1.875));
    let g = FisherSnedecorNoncentral::new(2.0, 6.0, 4.0);
    assert_eq!(g.mean(), 6.0 * 6.0 / (2.0 * 4.0));
    assert!(lines_up(g.variance(), 2.0 * 36.0 * (36.0 + 4.0 * 10.0) / (4.0 * 16.0 * 2.0), 1e-15));
}

#[test]
fn solved_parameters_put_the_probability_where_asked() {
    let a = Beta::search_a(0.3, 0.7, 0.4, 2.0).unwrap();
    assert!(lines_up(Beta::new(a, 2.0).cdf(0.4), 0.3, 1e-7));
    let b = Beta::search_b(0.3, 0.7, 0.4, 2.0).unwrap();
    assert!(lines_up(Beta::new(2.0, b).cdf(0.4), 0.3, 1e-7));
    let a = Beta::solve_a(0.3, 0.4, 2.0).unwrap();
    assert!(lines_up(Beta::new(a, 2.0).cdf(0.4), 0.3, 1e-7));
    let b = Beta::solve_b(0.3, 0.4, 2.0).unwrap();
    assert!(lines_up(Beta::new(2.0, b).cdf(0.4), 0.3, 1e-7));
    let df = StudentsT::search_df(0.9, 0.1, 1.4).unwrap();
    assert!(lines_up(StudentsT::new(df).cdf(1.4), 0.9, 1e-7));
    assert_eq!(StudentsT::solve_df(0.9, 0.1, 1.4).unwrap(), df);
    let l = Poisson::search_lambda(0.3, 0.7, 4).unwrap();
    assert!(lines_up(Poisson::new(l).cdf(4), 0.3, 1e-7));
    let l = Poisson::solve_lambda(0.3, 4).unwrap();
    assert!(lines_up(Poisson::new(l).cdf(4), 0.3, 1e-7));
    let nc = ChiSquaredNoncentral::search_ncp(0.3, 6.0, 3.0).unwrap();
    assert!(lines_up(ChiSquaredNoncentral::new(3.0, nc).cdf(6.0), 0.3, 1e-6));
    assert_eq!(ChiSquaredNoncentral::solve_ncp(0.3, 6.0, 3.0).unwrap(), nc);
    let df = ChiSquaredNoncentral::search_df(0.3, 6.0, 2.0).unwrap();
    assert!(lines_up(ChiSquaredNoncentral::new(df, 2.0).cdf(6.0), 0.3, 1e-6));
    let r = NegativeBinomial::solve_r(0.6, 0.4, 5).unwrap();
    let r2 = NegativeBinomial::solve_trials(0.6, 0.4, 5).unwrap();
    assert!(lines_up(r, r2, 1e-6));
    let pr = NegativeBinomial::solve_pr(0.6, 3, 5).unwrap();
    assert!(lines_up(NegativeBinomial::new(3, pr).cdf(5), 0.6, 1e-7));
    let pr = Binomial::solve_pr(0.6, 10, 4).unwrap();
    assert!(lines_up(Binomial::new(10, pr).cdf(4), 0.6, 1e-7));
    let n = Binomial::solve_trials(0.6, 0.3, 4).unwrap();
    assert!(n > 4.0);
    let dfn = FisherSnedecor::solve_dfd(0.6, 0.4, 1.2, 5.0).unwrap();
    assert!(lines_up(FisherSnedecor::new(5.0, dfn).cdf(1.2), 0.6, 1e-6));
    let m = Normal::solve_mean(0.8, 0.2, 1.0, 2.0).unwrap();
    assert!(lines_up(Normal::new(m, 2.0).cdf(1.0), 0.8, 1e-12));
    let sd = Normal::solve_sd(0.8, 0.2, 1.0, 0.0).unwrap();
    assert!(lines_up(Normal::new(0.0, sd).cdf(1.0), 0.8, 1e-12));
    let sh = Gamma::solve_shape(0.3, 0.7, 2.0, 1.5).unwrap();
    assert!(lines_up(Gamma::new(sh, 1.5).cdf(2.0), 0.3, 1e-7));
    let ra = Gamma::solve_rate(0.3, 0.7, 2.0, 1.5).unwrap();
    assert!(lines_up(Gamma::new(1.5, ra).cdf(2.0), 0.3, 1e-9));
}

#[test]
fn every_constructor_error_has_an_input() {
    let (nan, inf) = (f64::NAN, f64::INFINITY);
    assert!(matches!(Normal::try_new(nan, 1.0), Err(NormalError::MeanNotFinite(_))));
    assert!(matches!(Normal::try_new(0.0, inf), Err(NormalError::SdNotFinite(_))));
    assert!(matches!(Normal::try_new(0.0, 0.0), Err(NormalError::SdNotPositive(_))));
    assert!(matches!(Beta::try_new(inf, 1.0), Err(BetaError::ANotFinite(_))));
    assert!(matches!(Beta::try_new(0.0, 1.0), Err(BetaError::ANotPositive(_))));
    assert!(matches!(Beta::try_new(1.0, nan), Err(BetaError::BNotFinite(_))));
    assert!(matches!(Beta::try_new(1.0, -1.0), Err(BetaError::BNotPositive(_))));
    assert!(matches!(Gamma::try_new(inf, 1.0), Err(GammaError::ShapeNotFinite(_))));
    assert!(matches!(Gamma::try_new(0.0, inf), Err(GammaError::RateNotFinite(_))));
    assert!(matches!(Gamma::try_new(0.0, 0.0), Err(GammaError::ShapeNotPositive(_))));
    assert!(matches!(Gamma::try_new(1.0, 0.0), Err(GammaError::RateNotPositive(_))));
    assert!(matches!(ChiSquared::try_new(inf), Err(ChiSquaredError::DfNotFinite(_))));
    assert!(matches!(ChiSquared::try_new(0.0), Err(ChiSquaredError::DfNotPositive(_))));
    assert!(matches!(StudentsT::try_new(inf), Err(StudentsTError::DfNotFinite(_))));
    assert!(matches!(FisherSnedecor::try_new(inf, 1.0), Err(FisherSnedecorError::DfnNotFinite(_))));
    assert!(matches!(FisherSnedecor::try_new(0.0, 1.0), Err(FisherSnedecorError::DfnNotPositive(_))));
    assert!(matches!(FisherSnedecor::try_new(1.0, inf), Err(FisherSnedecorError::DfdNotFinite(_))));
    assert!(matches!(FisherSnedecor::try_new(1.0, 0.0), Err(FisherSnedecorError::DfdNotPositive(_))));
    assert!(matches!(ChiSquaredNoncentral::try_new(inf, 1.0), Err(ChiSquaredNoncentralError::DfNotFinite(_))));
    assert!(matches!(ChiSquaredNoncentral::try_new(0.0, 1.0), Err(ChiSquaredNoncentralError::DfNotPositive(_))));
    assert!(matches!(ChiSquaredNoncentral::try_new(1.0, inf), Err(ChiSquaredNoncentralError::NcpNotFinite(_))));
    assert!(matches!(ChiSquaredNoncentral::try_new(1.0, -1.0), Err(ChiSquaredNoncentralError::NcpNegative(_))));
    assert!(matches!(
        FisherSnedecorNoncentral::try_new(inf, 1.0, 0.0),
        Err(FisherSnedecorNoncentralError::DfnNotFinite(_))
    ));
    assert!(matches!(
        FisherSnedecorNoncentral::try_new(0.0, 1.0, 0.0),
        Err(FisherSnedecorNoncentralError::DfnNotPositive(_))
    ));
    assert!(matches!(
        FisherSnedecorNoncentral::try_new(0.5, 1.0, 0.0),
        Err(FisherSnedecorNoncentralError::DfnTooSmall(_))
    ));
    assert!(matches!(
        FisherSnedecorNoncentral::try_new(1.0, inf, 0.0),
        Err(FisherSnedecorNoncentralError::DfdNotFinite(_))
    ));
    assert!(matches!(
        FisherSnedecorNoncentral::try_new(1.0, 0.0, 0.0),
        Err(FisherSnedecorNoncentralError::DfdNotPositive(_))
    ));
    assert!(matches!(
        FisherSnedecorNoncentral::try_new(1.0, 0.5, 0.0),
        Err(FisherSnedecorNoncentralError::DfdTooSmall(_))
    ));
    assert!(matches!(
        FisherSnedecorNoncentral::try_new(1.0, 1.0, inf),
        Err(FisherSnedecorNoncentralError::NcpNotFinite(_))
    ));
    assert!(matches!(
        FisherSnedecorNoncentral::try_new(1.0, 1.0, -1.0),
        Err(FisherSnedecorNoncentralError::NcpNegative(_))
    ));
    assert!(matches!(Binomial::try_new(3, 1.5), Err(BinomialError::PrOutOfRange(_))));
    assert!(matches!(Poisson::try_new(inf), Err(PoissonError::LambdaNotFinite(_))));
    assert!(matches!(Poisson::try_new(-1.0), Err(PoissonError::LambdaNegative(_))));
    assert!(matches!(NegativeBinomial::try_new(0, 0.5), Err(NegativeBinomialError::RNotPositive)));
    assert!(matches!(NegativeBinomial::try_new(1, 0.0), Err(NegativeBinomialError::PrOutOfRange(_))));
}

#[test]
fn every_search_error_has_an_input() {
    assert!(matches!(Beta::search_a(1.5, 0.5, 0.5, 1.0), Err(BetaError::PNotInRange(_))));
    assert!(matches!(Beta::search_a(0.5, 1.5, 0.5, 1.0), Err(BetaError::QNotInRange(_))));
    assert!(matches!(Beta::search_a(0.5, 0.25, 0.5, 1.0), Err(BetaError::PQSumNotOne { .. })));
    assert!(matches!(Beta::search_a(0.5, 0.5, 1.5, 1.0), Err(BetaError::XOutOfRange(_))));
    assert!(matches!(Normal::solve_mean(0.5, 0.4, 0.0, 1.0), Err(NormalError::PQSumNotOne { .. })));
    assert!(matches!(Normal::solve_mean(-0.5, 0.4, 0.0, 1.0), Err(NormalError::PNotInRange(_))));
    assert!(matches!(Normal::solve_mean(0.5, 1.4, 0.0, 1.0), Err(NormalError::QNotInRange(_))));
    assert!(matches!(Normal::solve_mean(0.5, 0.5, 0.0, 0.0), Err(NormalError::SdNotPositive(_))));
    assert!(matches!(Normal::solve_sd(0.5, 0.5, 0.0, f64::INFINITY), Err(NormalError::MeanNotFinite(_))));
    assert!(matches!(Gamma::solve_shape(0.5, 0.4, 1.0, 1.0), Err(GammaError::ProbabilityPairInconsistent { .. })));
    assert!(matches!(Gamma::solve_shape(1.5, 0.4, 1.0, 1.0), Err(GammaError::ProbabilityOutOfRange(_))));
    assert!(matches!(Gamma::solve_shape(0.5, 0.5, 0.0, 1.0), Err(GammaError::XNotPositive(_))));
    assert!(matches!(Gamma::solve_rate(0.5, 0.5, 1.0, 0.0), Err(GammaError::ShapeNotPositive(_))));
    assert!(matches!(
        Gamma::solve_rate(1.0, 0.0, 1.0, 2.0),
        Err(GammaError::IncompleteGammaInverse(GammaIncInvError::AtInfinity))
    ));
    assert!(matches!(ChiSquared::solve_df(0.5, -1.0), Err(ChiSquaredError::XNotPositive(_))));
    assert!(matches!(StudentsT::search_df(0.5, 0.4, 1.0), Err(StudentsTError::PQSumNotOne { .. })));
    assert!(matches!(FisherSnedecor::solve_dfn(0.5, 0.5, 0.0, 1.0), Err(FisherSnedecorError::FNotPositive(_))));
    assert!(matches!(FisherSnedecor::solve_dfn(0.5, 0.5, f64::NAN, 1.0), Err(FisherSnedecorError::FNotFinite(_))));
    assert!(matches!(FisherSnedecor::solve_dfn(0.5, 0.4, 1.0, 1.0), Err(FisherSnedecorError::PQSumNotOne { .. })));
    assert!(matches!(
        ChiSquaredNoncentral::search_df(0.5, -1.0, 1.0),
        Err(ChiSquaredNoncentralError::XNotPositive(_))
    ));
    assert!(matches!(
        FisherSnedecorNoncentral::search_ncp(0.5, 0.0, 2.0, 2.0),
        Err(FisherSnedecorNoncentralError::FNotPositive(_))
    ));
    assert!(matches!(Binomial::solve_pr(0.5, 3, 4), Err(BinomialError::SuccessesExceedTrials { s: 4, n: 3 })));
    assert!(matches!(Binomial::solve_pr(1.5, 3, 4), Err(BinomialError::ProbabilityOutOfRange(_))));
    assert!(matches!(Poisson::search_lambda(0.5, 0.4, 3), Err(PoissonError::PQSumNotOne { .. })));
    assert!(matches!(NegativeBinomial::solve_r(0.5, 2.0, 3), Err(NegativeBinomialError::PrOutOfRange(_))));
    assert!(matches!(NegativeBinomial::solve_pr(2.0, 1, 3), Err(NegativeBinomialError::ProbabilityOutOfRange(_))));
}

#[test]
fn every_inverse_error_has_an_input() {
    assert_eq!(try_gamma_inc_inv(0.0, -1.0, 0.5, 0.5), Err(GammaIncInvError::ANotPositive(fl(0.0))));
    assert_eq!(try_gamma_inc_inv(2.0, -1.0, 0.5, 0.4), Err(GammaIncInvError::InconsistentPq));
    assert_eq!(try_gamma_inc_inv(2.0, -1.0, 1.0, 0.0), Err(GammaIncInvError::AtInfinity));
    assert_eq!(try_gamma_inc_inv(2.0, -1.0, 0.0, 1.0), Ok((0.0, 0)));
    assert!(matches!(
        try_gamma_inc_inv(2.0, 3.0, 1e-300, 1.0),
        Err(GammaIncInvError::UncertainAccuracy { .. })
    ));
    assert_eq!(try_gamma(0.0), Err(GammaDomainError::Pole(fl(0.0))));
    assert_eq!(try_gamma(2000.0), Err(GammaDomainError::Overflow(fl(2000.0))));
    assert_eq!(try_gamma(-2000.5), Err(GammaDomainError::Underflow(fl(-2000.5))));
    assert_eq!(try_psi(-1.0), Err(PsiError::Pole(fl(-1.0))));
    assert_eq!(try_psi(-1e10), Err(PsiError::Overflow(fl(-1e10))));
    assert_eq!(beta_grat(20.0, 0.0, 0.5, 0.5, 0.25, 1e-15), Err(BetaGratError::BzZero));
}

/// `f` passes through `p` within a relative width of `tol` around `x`.
fn passes(f: &dyn Fn(f64) -> f64, x: f64, p: f64, tol: f64) -> bool {
    let w = tol * x.abs() + 1e-9;
    let (a, b) = (f(x - w), f(x + w));
    (a <= p && p <= b) || (a >= p && p >= b)
}

#[test]
fn quantiles_have_the_probability_on_one_side() {
    let tol = 1e-7;
    for p in [0.001, 0.2, 0.5, 0.8, 0.99] {
        let d = Beta::new(2.0, 3.5);
        assert!(passes(&|x| d.cdf(x), d.inverse_cdf(p).unwrap(), p, tol));
        assert!(passes(&|x| d.ccdf(x), d.inverse_sf(p).unwrap(), p, tol));
        let d = StudentsT::new(6.0);
        assert!(passes(&|x| d.cdf(x), d.inverse_cdf(p).unwrap(), p, tol));
        assert!(passes(&|x| d.ccdf(x), d.inverse_sf(p).unwrap(), p, tol));
        let d = FisherSnedecor::new(6.0, 9.0);
        assert!(passes(&|x| d.cdf(x), d.inverse_cdf(p).unwrap(), p, tol));
        assert!(passes(&|x| d.ccdf(x), d.inverse_sf(p).unwrap(), p, tol));
        let d = ChiSquared::new(6.0);
        assert!(passes(&|x| d.cdf(x), d.inverse_cdf(p).unwrap(), p, tol));
        assert!(passes(&|x| d.ccdf(x), d.inverse_sf(p).unwrap(), p, tol));
        let d = ChiSquaredNoncentral::new(6.0, 2.0);
        assert!(passes(&|x| d.cdf(x), d.inverse_cdf(p).unwrap(), p, tol));
        assert!(passes(&|x| d.ccdf(x), d.inverse_sf(p).unwrap(), p, tol));
        let d = FisherSnedecorNoncentral::new(6.0, 9.0, 2.0);
        assert!(passes(&|x| d.cdf(x), d.inverse_cdf(p).unwrap(), p, tol));
        assert!(passes(&|x| d.ccdf(x), d.inverse_sf(p).unwrap(), p, tol));
    }
}

#[test]
fn accuracy_levels_agree() {
    for a in [0.1, 0.5, 0.9, 1.0, 2.5, 7.3, 15.0, 40.0, 1000.0] {
        for r in [0.01, 0.5, 0.99, 1.0, 1.01, 2.0, 10.0] {
            let (p, _) = gamma_inc(a, a * r);
            let (p6, _) = gamma_inc_with_acc(a, a * r, GammaIncAcc::Digits6);
            let (p3, _) = gamma_inc_with_acc(a, a * r, GammaIncAcc::Digits3);
            assert!((p - p6).abs() <= 1e-6 && (p - p3).abs() <= 1e-3, "a = {a}, r = {r}");
        }
    }
}

#[test]
fn upper_tails_keep_their_digits() {
    let d = ChiSquaredNoncentral::new(5.0, 2.0);
    let q = d.ccdf(200.0);
    assert!(0.0 < q && q < 1e-30, "{q}");
    for x in [0.5, 3.0, 9.0, 20.0] {
        assert!((d.cdf(x) + d.ccdf(x) - 1.0).abs() < 2e-5, "{x}");
    }
    // a tail of the mixture by its first terms
    let mut direct = 0.0;
    let mut wt = (-1.0_f64).exp();
    for i in 0..60 {
        direct += wt * gamma_inc(2.5 + i as f64, 100.0).1;
        wt *= 1.0 / (i as f64 + 1.0);
    }
    assert!((q / direct - 1.0).abs() < 1e-12, "{q} {direct}");
    let d = FisherSnedecorNoncentral::new(5.0, 40.0, 2.0);
    let q = d.ccdf(1e3);
    assert!(0.0 < q && q < 1e-30, "{q}");
    for x in [0.5, 1.0, 3.0] {
        assert!((d.cdf(x) + d.ccdf(x) - 1.0).abs() < 2e-4, "{x}");
    }
    // the weights rise above their centre far out
    let d = ChiSquaredNoncentral::new(3.0, 60.0);
    let q = d.ccdf(1700.0);
    assert!(0.0 < q && q < 1e-200, "{q}");
    assert_eq!(d.ccdf(f64::INFINITY), 0.0);
}

#[test]
fn a_pair_out_by_its_tolerance_has_a_rate() {
    let r = Gamma::solve_rate(0.5, 0.5 + 2.0 * f64::EPSILON, 1.0, 1.0).unwrap();
    assert!((r - 0.6931471805599453).abs() < 1e-12);
    let r = Gamma::solve_rate(0.5 + 2.0 * f64::EPSILON, 0.5, 1.0, 2.5).unwrap();
    assert!((Gamma::new(2.5, r).cdf(1.0) - 0.5).abs() < 1e-10);
    assert!(Gamma::solve_rate(0.5, 0.5 + 4.0 * f64::EPSILON, 1.0, 1.0).is_err());
}

#[test]
fn certain_success_leaves_no_failures() {
    let d = NegativeBinomial::new(5, 1.0);
    assert!((d.pmf(0) - 1.0).abs() < 1e-12);
    assert!(d.ln_pmf(0).abs() < 1e-12);
    for s in [1, 2, 100] {
        assert_eq!(d.pmf(s), 0.0);
        assert_eq!(d.ln_pmf(s), f64::NEG_INFINITY);
    }
}

#[test]
fn upper_counts_are_the_largest() {
    let b = Binomial::new(20, 0.3);
    let p = Poisson::new(2.0);
    let n = NegativeBinomial::new(5, 0.4);
    for q in [0.9999, 0.9, 0.5, 0.1, 0.001] {
        let s = b.inverse_sf(q).unwrap();
        assert!((s == 0 || b.sf(s) >= q) && b.sf(s + 1) < q);
        let s = p.inverse_sf(q).unwrap();
        assert!((s == 0 || p.sf(s) >= q) && p.sf(s + 1) < q);
        let s = n.inverse_sf(q).unwrap();
        assert!((s == 0 || n.sf(s) >= q) && n.sf(s + 1) < q);
    }
    assert_eq!(b.inverse_sf(0.5).unwrap(), 5);
    assert_eq!(p.inverse_sf(0.5).unwrap(), 1);
}

#[test]
fn normal_tails_lie_in_range_and_add_up() {
    let mut xs = grid();
    xs.extend([1e5, 1e100, 1e300]);
    for x in xs {
        for x in [x, -x] {
            let (p, q) = cumnor(x);
            assert!((0.0..=1.0).contains(&p) && (0.0..=1.0).contains(&q), "{x}");
            assert!((p + q - 1.0).abs() <= 4.5e-16, "{x}");
        }
    }
    for x in [9.0, 12.5, 20.0, 30.0, 37.0] {
        let (p, q) = cumnor(x);
        assert!(p == 1.0 && q > 0.0, "{x}");
        assert!(cumnor(-x).0 > 0.0, "{x}");
    }
}

#[test]
fn ratios_add_up() {
    for a in [0.3, 1.0, 4.5, 60.0] {
        for x in [0.1, 1.0, 5.0, 70.0] {
            let (p, q) = gamma_inc(a, x);
            assert!((p + q - 1.0).abs() <= 2.3e-16);
            let y = x / (1.0 + x);
            let (p, q) = try_beta_inc(a, 2.5, y, 1.0 - y).unwrap();
            assert!((p + q - 1.0).abs() <= 2.3e-16);
            // equal parameters, one of them at most one
            let (p, q) = try_beta_inc(0.7, 0.7, y, 1.0 - y).unwrap();
            assert_eq!(try_beta_inc(0.7, 0.7, 1.0 - y, y).unwrap(), (q, p));
        }
    }
}

#[test]
fn normal_quantiles_are_undone() {
    let n = Normal::new(0.0, 1.0);
    for p in [1e-300, 1e-20, 0.001, 0.3, 0.5, 0.77, 0.9999] {
        assert!((n.cdf(n.inverse_cdf(p).unwrap()) - p).abs() <= 1e-10, "{p}");
    }
}

#[test]
fn the_inverse_is_undone() {
    for a in [0.05, 0.4, 0.9, 1.0, 3.5, 40.0, 800.0] {
        for p in [1e-6, 0.1, 0.5, 0.9, 0.999999] {
            let q = 1.0 - p;
            match try_gamma_inc_inv(a, -1.0, p, q) {
                Ok((x, k)) => {
                    let (pn, qn) = gamma_inc(a, x);
                    assert!(k <= 20);
                    assert!(((pn - p).abs() / p).min((qn - q).abs() / q) < 1e-4, "{a} {p}");
                }
                Err(e) => assert!(!matches!(e, GammaIncInvError::NotConverged { .. }), "{a} {p}"),
            }
        }
    }
    // a starting point that leads nowhere
    assert!(matches!(
        try_gamma_inc_inv(5.0, 1e-30, 0.5, 0.5),
        Err(GammaIncInvError::NotConverged { .. })
            | Err(GammaIncInvError::UncertainAccuracy { .. })
            | Err(GammaIncInvError::IterationFailed)
    ));
}

#[test]
fn a_nan_stays_one() {
    let nan = f64::NAN;
    assert!(Normal::new(1.0, 2.0).cdf(nan).is_nan() && Normal::new(1.0, 2.0).ccdf(nan).is_nan());
    assert!(StudentsT::new(3.0).cdf(nan).is_nan() && StudentsT::new(3.0).ccdf(nan).is_nan());
    assert!(Gamma::new(1.0, 2.0).cdf(nan).is_nan() && Gamma::new(1.0, 2.0).ccdf(nan).is_nan());
}

#[test]
fn searches_refuse_what_is_not_finite() {
    for v in [f64::NAN, f64::INFINITY, f64::NEG_INFINITY] {
        assert!(Beta::search_a(v, 0.5, 0.5, 1.0).is_err());
        assert!(Beta::search_a(0.5, v, 0.5, 1.0).is_err());
        assert!(Beta::search_a(0.5, 0.5, v, 1.0).is_err());
        assert!(Beta::search_a(0.5, 0.5, 0.5, v).is_err());
        assert!(Beta::search_b(0.5, 0.5, 0.5, v).is_err());
        assert!(Normal::solve_mean(0.5, 0.5, v, 1.0).is_err());
        assert!(Normal::solve_sd(0.5, 0.5, 1.0, v).is_err());
        assert!(Gamma::solve_shape(0.5, 0.5, v, 1.0).is_err());
        assert!(Gamma::solve_rate(0.5, 0.5, 1.0, v).is_err());
        assert!(ChiSquared::solve_df(0.5, v).is_err());
        assert!(StudentsT::search_df(0.5, 0.5, v).is_err());
        assert!(FisherSnedecor::solve_dfn(0.5, 0.5, v, 1.0).is_err());
        assert!(FisherSnedecor::solve_dfd(0.5, 0.5, 1.0, v).is_err());
        assert!(ChiSquaredNoncentral::search_df(0.5, 1.0, v).is_err());
        assert!(ChiSquaredNoncentral::search_ncp(0.5, 1.0, v).is_err());
        assert!(FisherSnedecorNoncentral::search_ncp(0.5, 1.0, v, 2.0).is_err());
        assert!(Binomial::solve_trials(0.5, v, 3).is_err());
        assert!(Binomial::solve_pr(v, 5, 3).is_err());
        assert!(NegativeBinomial::solve_r(0.5, v, 3).is_err());
        assert!(Poisson::search_lambda(v, 0.5, 3).is_err());
        assert!(Poisson::solve_lambda(v, 3).is_err());
    }
}

#[test]
fn upper_counts_of_zero_and_one_are_the_ends() {
    assert_eq!(Binomial::new(9, 0.25).inverse_sf(0.0).unwrap(), 9);
    assert_eq!(Binomial::new(9, 0.25).inverse_sf(1.0).unwrap(), 0);
    assert_eq!(Poisson::new(2.5).inverse_sf(0.0).unwrap(), u64::MAX);
    assert_eq!(NegativeBinomial::new(2, 0.5).inverse_sf(1.0).unwrap(), 0);
    assert!(Poisson::new(2.5).inverse_sf(1.5).is_err());
}
