//! Worked examples.
use cdflib::float::F64;
use cdflib::functions::Elementary;
use cdflib::special::beta_inc::BetaIncError;
use cdflib::special::gamma::GammaDomainError;
use cdflib::special::gamma_inc::GammaIncError;
use cdflib::special::gamma::PsiError;
use cdflib::dist::BetaError;
use cdflib::dist::BinomialError;
use cdflib::dist::ChiSquaredError;
use cdflib::dist::ChiSquaredNoncentralError;
use cdflib::dist::FisherSnedecorError;
use cdflib::dist::FisherSnedecorNoncentralError;
use cdflib::dist::GammaError;
use cdflib::dist::NegativeBinomialError;
use cdflib::dist::NormalError;
use cdflib::dist::PoissonError;
use cdflib::dist::StudentsTError;

#[allow(dead_code)]
fn fl(x: f64) -> F64 {
    F64 { bits: x.to_bits() }
}

#[allow(dead_code)]
fn num(x: F64) -> f64 {
    f64::from_bits(x.bits)
}

#[allow(dead_code)]
fn pair(p: (F64, F64)) -> (f64, f64) {
    (num(p.0), num(p.1))
}

#[allow(dead_code)]
fn libm(q: Elementary) -> F64 {
    match q {
        Elementary::Exp(x) => fl(num(x).exp()),
        Elementary::Ln(x) => fl(num(x).ln()),
        Elementary::Sin(x) => fl(num(x).sin()),
        Elementary::Cos(x) => fl(num(x).cos()),
        Elementary::Pow(x, y) => fl(num(x).powf(num(y))),
    }
}

#[derive(Debug, Clone, Copy, PartialEq)]
struct Beta(cdflib::dist::Beta);

#[allow(dead_code)]
impl Beta {
    fn new(a: f64, b: f64) -> Self {
        Self::try_new(a, b).unwrap()
    }
    fn try_new(a: f64, b: f64) -> Result<Self, BetaError> {
        let dist = cdflib::dist::Beta::try_new(fl(a), fl(b))?;
        assert_eq!(dist, cdflib::dist::Beta::new(fl(a), fl(b)));
        Ok(Self(dist))
    }
    fn a(&self) -> f64 {
        num(self.0.a())
    }
    fn b(&self) -> f64 {
        num(self.0.b())
    }
    fn search_a(p: f64, q: f64, x: f64, b: f64) -> Result<f64, BetaError> {
        cdflib::dist::Beta::search_a(&libm, fl(p), fl(q), fl(x), fl(b)).map(num)
    }
    fn search_b(p: f64, q: f64, x: f64, a: f64) -> Result<f64, BetaError> {
        cdflib::dist::Beta::search_b(&libm, fl(p), fl(q), fl(x), fl(a)).map(num)
    }
    fn solve_a(p: f64, x: f64, b: f64) -> Result<f64, BetaError> {
        cdflib::dist::Beta::solve_a(&libm, fl(p), fl(x), fl(b)).map(num)
    }
    fn solve_b(p: f64, x: f64, a: f64) -> Result<f64, BetaError> {
        cdflib::dist::Beta::solve_b(&libm, fl(p), fl(x), fl(a)).map(num)
    }
    fn cdf(&self, x: f64) -> f64 {
        num(cdflib::traits::ContinuousCdf::cdf(&self.0, &libm, fl(x)))
    }
    fn ccdf(&self, x: f64) -> f64 {
        num(cdflib::traits::ContinuousCdf::ccdf(&self.0, &libm, fl(x)))
    }
    fn sf(&self, x: f64) -> f64 {
        num(cdflib::traits::ContinuousCdf::sf(&self.0, &libm, fl(x)))
    }
    fn inverse_cdf(&self, p: f64) -> Result<f64, BetaError> {
        cdflib::traits::ContinuousCdf::inverse_cdf(&self.0, &libm, fl(p)).map(num)
    }
    fn inverse_ccdf(&self, q: f64) -> Result<f64, BetaError> {
        self.0.inverse_ccdf(&libm, fl(q)).map(num)
    }
    fn inverse_sf(&self, q: f64) -> Result<f64, BetaError> {
        self.0.inverse_sf(&libm, fl(q)).map(num)
    }
    fn pdf(&self, x: f64) -> f64 {
        num(cdflib::traits::Continuous::pdf(&self.0, &libm, fl(x)))
    }
    fn ln_pdf(&self, x: f64) -> f64 {
        num(cdflib::traits::Continuous::ln_pdf(&self.0, &libm, fl(x)))
    }
    fn mean(&self) -> f64 {
        num(cdflib::traits::Mean::mean(&self.0))
    }
    fn variance(&self) -> f64 {
        num(cdflib::traits::Variance::variance(&self.0))
    }
    fn std_dev(&self) -> f64 {
        num(cdflib::traits::Variance::std_dev(&self.0))
    }
    fn entropy(&self) -> f64 {
        num(cdflib::traits::Entropy::entropy(&self.0, &libm))
    }
}

#[derive(Debug, Clone, Copy, PartialEq)]
struct Binomial(cdflib::dist::Binomial);

#[allow(dead_code)]
impl Binomial {
    fn new(n: u64, pr: f64) -> Self {
        Self::try_new(n, pr).unwrap()
    }
    fn try_new(n: u64, pr: f64) -> Result<Self, BinomialError> {
        let dist = cdflib::dist::Binomial::try_new(n, fl(pr))?;
        assert_eq!(dist, cdflib::dist::Binomial::new(n, fl(pr)));
        Ok(Self(dist))
    }
    fn n(&self) -> u64 {
        self.0.n()
    }
    fn pr(&self) -> f64 {
        num(self.0.pr())
    }
    fn solve_trials(p: f64, pr: f64, s: u64) -> Result<f64, BinomialError> {
        cdflib::dist::Binomial::solve_trials(&libm, fl(p), fl(pr), s).map(num)
    }
    fn solve_pr(p: f64, n: u64, s: u64) -> Result<f64, BinomialError> {
        cdflib::dist::Binomial::solve_pr(&libm, fl(p), n, s).map(num)
    }
    fn cdf(&self, x: u64) -> f64 {
        num(cdflib::traits::DiscreteCdf::cdf(&self.0, &libm, x))
    }
    fn ccdf(&self, x: u64) -> f64 {
        num(cdflib::traits::DiscreteCdf::ccdf(&self.0, &libm, x))
    }
    fn sf(&self, x: u64) -> f64 {
        num(cdflib::traits::DiscreteCdf::sf(&self.0, &libm, x))
    }
    fn inverse_cdf(&self, p: f64) -> Result<u64, BinomialError> {
        cdflib::traits::DiscreteCdf::inverse_cdf(&self.0, &libm, fl(p))
    }
    fn inverse_sf(&self, q: f64) -> Result<u64, BinomialError> {
        self.0.inverse_sf(&libm, fl(q))
    }
    fn pmf(&self, x: u64) -> f64 {
        num(cdflib::traits::Discrete::pmf(&self.0, &libm, x))
    }
    fn ln_pmf(&self, x: u64) -> f64 {
        num(cdflib::traits::Discrete::ln_pmf(&self.0, &libm, x))
    }
    fn mean(&self) -> f64 {
        num(cdflib::traits::Mean::mean(&self.0))
    }
    fn variance(&self) -> f64 {
        num(cdflib::traits::Variance::variance(&self.0))
    }
    fn std_dev(&self) -> f64 {
        num(cdflib::traits::Variance::std_dev(&self.0))
    }
}

#[derive(Debug, Clone, Copy, PartialEq)]
struct ChiSquared(cdflib::dist::ChiSquared);

#[allow(dead_code)]
impl ChiSquared {
    fn new(df: f64) -> Self {
        Self::try_new(df).unwrap()
    }
    fn try_new(df: f64) -> Result<Self, ChiSquaredError> {
        let dist = cdflib::dist::ChiSquared::try_new(fl(df))?;
        assert_eq!(dist, cdflib::dist::ChiSquared::new(fl(df)));
        Ok(Self(dist))
    }
    fn df(&self) -> f64 {
        num(self.0.df())
    }
    fn solve_df(p: f64, x: f64) -> Result<f64, ChiSquaredError> {
        cdflib::dist::ChiSquared::solve_df(&libm, fl(p), fl(x)).map(num)
    }
    fn cdf(&self, x: f64) -> f64 {
        num(cdflib::traits::ContinuousCdf::cdf(&self.0, &libm, fl(x)))
    }
    fn ccdf(&self, x: f64) -> f64 {
        num(cdflib::traits::ContinuousCdf::ccdf(&self.0, &libm, fl(x)))
    }
    fn sf(&self, x: f64) -> f64 {
        num(cdflib::traits::ContinuousCdf::sf(&self.0, &libm, fl(x)))
    }
    fn inverse_cdf(&self, p: f64) -> Result<f64, ChiSquaredError> {
        cdflib::traits::ContinuousCdf::inverse_cdf(&self.0, &libm, fl(p)).map(num)
    }
    fn inverse_sf(&self, q: f64) -> Result<f64, ChiSquaredError> {
        self.0.inverse_sf(&libm, fl(q)).map(num)
    }
    fn pdf(&self, x: f64) -> f64 {
        num(cdflib::traits::Continuous::pdf(&self.0, &libm, fl(x)))
    }
    fn ln_pdf(&self, x: f64) -> f64 {
        num(cdflib::traits::Continuous::ln_pdf(&self.0, &libm, fl(x)))
    }
    fn mean(&self) -> f64 {
        num(cdflib::traits::Mean::mean(&self.0))
    }
    fn variance(&self) -> f64 {
        num(cdflib::traits::Variance::variance(&self.0))
    }
    fn std_dev(&self) -> f64 {
        num(cdflib::traits::Variance::std_dev(&self.0))
    }
    fn entropy(&self) -> f64 {
        num(cdflib::traits::Entropy::entropy(&self.0, &libm))
    }
}

#[derive(Debug, Clone, Copy, PartialEq)]
struct ChiSquaredNoncentral(cdflib::dist::ChiSquaredNoncentral);

#[allow(dead_code)]
impl ChiSquaredNoncentral {
    fn new(df: f64, ncp: f64) -> Self {
        Self::try_new(df, ncp).unwrap()
    }
    fn try_new(df: f64, ncp: f64) -> Result<Self, ChiSquaredNoncentralError> {
        let dist = cdflib::dist::ChiSquaredNoncentral::try_new(fl(df), fl(ncp))?;
        assert_eq!(dist, cdflib::dist::ChiSquaredNoncentral::new(fl(df), fl(ncp)));
        Ok(Self(dist))
    }
    fn df(&self) -> f64 {
        num(self.0.df())
    }
    fn ncp(&self) -> f64 {
        num(self.0.ncp())
    }
    fn search_df(p: f64, x: f64, ncp: f64) -> Result<f64, ChiSquaredNoncentralError> {
        cdflib::dist::ChiSquaredNoncentral::search_df(&libm, fl(p), fl(x), fl(ncp)).map(num)
    }
    fn search_ncp(p: f64, x: f64, df: f64) -> Result<f64, ChiSquaredNoncentralError> {
        cdflib::dist::ChiSquaredNoncentral::search_ncp(&libm, fl(p), fl(x), fl(df)).map(num)
    }
    fn solve_df(p: f64, x: f64, ncp: f64) -> Result<f64, ChiSquaredNoncentralError> {
        cdflib::dist::ChiSquaredNoncentral::solve_df(&libm, fl(p), fl(x), fl(ncp)).map(num)
    }
    fn solve_ncp(p: f64, x: f64, df: f64) -> Result<f64, ChiSquaredNoncentralError> {
        cdflib::dist::ChiSquaredNoncentral::solve_ncp(&libm, fl(p), fl(x), fl(df)).map(num)
    }
    fn cdf(&self, x: f64) -> f64 {
        num(cdflib::traits::ContinuousCdf::cdf(&self.0, &libm, fl(x)))
    }
    fn ccdf(&self, x: f64) -> f64 {
        num(cdflib::traits::ContinuousCdf::ccdf(&self.0, &libm, fl(x)))
    }
    fn sf(&self, x: f64) -> f64 {
        num(cdflib::traits::ContinuousCdf::sf(&self.0, &libm, fl(x)))
    }
    fn inverse_cdf(&self, p: f64) -> Result<f64, ChiSquaredNoncentralError> {
        cdflib::traits::ContinuousCdf::inverse_cdf(&self.0, &libm, fl(p)).map(num)
    }
    fn inverse_sf(&self, q: f64) -> Result<f64, ChiSquaredNoncentralError> {
        self.0.inverse_sf(&libm, fl(q)).map(num)
    }
    fn mean(&self) -> f64 {
        num(cdflib::traits::Mean::mean(&self.0))
    }
    fn variance(&self) -> f64 {
        num(cdflib::traits::Variance::variance(&self.0))
    }
    fn std_dev(&self) -> f64 {
        num(cdflib::traits::Variance::std_dev(&self.0))
    }
}

#[derive(Debug, Clone, Copy, PartialEq)]
struct FisherSnedecor(cdflib::dist::FisherSnedecor);

#[allow(dead_code)]
impl FisherSnedecor {
    fn new(dfn: f64, dfd: f64) -> Self {
        Self::try_new(dfn, dfd).unwrap()
    }
    fn try_new(dfn: f64, dfd: f64) -> Result<Self, FisherSnedecorError> {
        let dist = cdflib::dist::FisherSnedecor::try_new(fl(dfn), fl(dfd))?;
        assert_eq!(dist, cdflib::dist::FisherSnedecor::new(fl(dfn), fl(dfd)));
        Ok(Self(dist))
    }
    fn dfn(&self) -> f64 {
        num(self.0.dfn())
    }
    fn dfd(&self) -> f64 {
        num(self.0.dfd())
    }
    fn solve_dfn(p: f64, q: f64, f: f64, dfd: f64) -> Result<f64, FisherSnedecorError> {
        cdflib::dist::FisherSnedecor::solve_dfn(&libm, fl(p), fl(q), fl(f), fl(dfd)).map(num)
    }
    fn solve_dfd(p: f64, q: f64, f: f64, dfn: f64) -> Result<f64, FisherSnedecorError> {
        cdflib::dist::FisherSnedecor::solve_dfd(&libm, fl(p), fl(q), fl(f), fl(dfn)).map(num)
    }
    fn cdf(&self, x: f64) -> f64 {
        num(cdflib::traits::ContinuousCdf::cdf(&self.0, &libm, fl(x)))
    }
    fn ccdf(&self, x: f64) -> f64 {
        num(cdflib::traits::ContinuousCdf::ccdf(&self.0, &libm, fl(x)))
    }
    fn sf(&self, x: f64) -> f64 {
        num(cdflib::traits::ContinuousCdf::sf(&self.0, &libm, fl(x)))
    }
    fn inverse_cdf(&self, p: f64) -> Result<f64, FisherSnedecorError> {
        cdflib::traits::ContinuousCdf::inverse_cdf(&self.0, &libm, fl(p)).map(num)
    }
    fn inverse_sf(&self, q: f64) -> Result<f64, FisherSnedecorError> {
        self.0.inverse_sf(&libm, fl(q)).map(num)
    }
    fn pdf(&self, x: f64) -> f64 {
        num(cdflib::traits::Continuous::pdf(&self.0, &libm, fl(x)))
    }
    fn ln_pdf(&self, x: f64) -> f64 {
        num(cdflib::traits::Continuous::ln_pdf(&self.0, &libm, fl(x)))
    }
    fn mean(&self) -> f64 {
        num(cdflib::traits::Mean::mean(&self.0))
    }
    fn variance(&self) -> f64 {
        num(cdflib::traits::Variance::variance(&self.0))
    }
    fn std_dev(&self) -> f64 {
        num(cdflib::traits::Variance::std_dev(&self.0))
    }
    fn entropy(&self) -> f64 {
        num(cdflib::traits::Entropy::entropy(&self.0, &libm))
    }
}

#[derive(Debug, Clone, Copy, PartialEq)]
struct FisherSnedecorNoncentral(cdflib::dist::FisherSnedecorNoncentral);

#[allow(dead_code)]
impl FisherSnedecorNoncentral {
    fn new(dfn: f64, dfd: f64, ncp: f64) -> Self {
        Self::try_new(dfn, dfd, ncp).unwrap()
    }
    fn try_new(dfn: f64, dfd: f64, ncp: f64) -> Result<Self, FisherSnedecorNoncentralError> {
        let dist = cdflib::dist::FisherSnedecorNoncentral::try_new(fl(dfn), fl(dfd), fl(ncp))?;
        assert_eq!(dist, cdflib::dist::FisherSnedecorNoncentral::new(fl(dfn), fl(dfd), fl(ncp)));
        Ok(Self(dist))
    }
    fn dfn(&self) -> f64 {
        num(self.0.dfn())
    }
    fn dfd(&self) -> f64 {
        num(self.0.dfd())
    }
    fn ncp(&self) -> f64 {
        num(self.0.ncp())
    }
    fn search_dfn(p: f64, f: f64, dfd: f64, ncp: f64) -> Result<f64, FisherSnedecorNoncentralError> {
        cdflib::dist::FisherSnedecorNoncentral::search_dfn(&libm, fl(p), fl(f), fl(dfd), fl(ncp)).map(num)
    }
    fn search_dfd(p: f64, f: f64, dfn: f64, ncp: f64) -> Result<f64, FisherSnedecorNoncentralError> {
        cdflib::dist::FisherSnedecorNoncentral::search_dfd(&libm, fl(p), fl(f), fl(dfn), fl(ncp)).map(num)
    }
    fn search_ncp(p: f64, f: f64, dfn: f64, dfd: f64) -> Result<f64, FisherSnedecorNoncentralError> {
        cdflib::dist::FisherSnedecorNoncentral::search_ncp(&libm, fl(p), fl(f), fl(dfn), fl(dfd)).map(num)
    }
    fn solve_dfn(p: f64, f: f64, dfd: f64, ncp: f64) -> Result<f64, FisherSnedecorNoncentralError> {
        cdflib::dist::FisherSnedecorNoncentral::solve_dfn(&libm, fl(p), fl(f), fl(dfd), fl(ncp)).map(num)
    }
    fn solve_dfd(p: f64, f: f64, dfn: f64, ncp: f64) -> Result<f64, FisherSnedecorNoncentralError> {
        cdflib::dist::FisherSnedecorNoncentral::solve_dfd(&libm, fl(p), fl(f), fl(dfn), fl(ncp)).map(num)
    }
    fn solve_ncp(p: f64, f: f64, dfn: f64, dfd: f64) -> Result<f64, FisherSnedecorNoncentralError> {
        cdflib::dist::FisherSnedecorNoncentral::solve_ncp(&libm, fl(p), fl(f), fl(dfn), fl(dfd)).map(num)
    }
    fn cdf(&self, x: f64) -> f64 {
        num(cdflib::traits::ContinuousCdf::cdf(&self.0, &libm, fl(x)))
    }
    fn ccdf(&self, x: f64) -> f64 {
        num(cdflib::traits::ContinuousCdf::ccdf(&self.0, &libm, fl(x)))
    }
    fn sf(&self, x: f64) -> f64 {
        num(cdflib::traits::ContinuousCdf::sf(&self.0, &libm, fl(x)))
    }
    fn inverse_cdf(&self, p: f64) -> Result<f64, FisherSnedecorNoncentralError> {
        cdflib::traits::ContinuousCdf::inverse_cdf(&self.0, &libm, fl(p)).map(num)
    }
    fn inverse_sf(&self, q: f64) -> Result<f64, FisherSnedecorNoncentralError> {
        self.0.inverse_sf(&libm, fl(q)).map(num)
    }
    fn mean(&self) -> f64 {
        num(cdflib::traits::Mean::mean(&self.0))
    }
    fn variance(&self) -> f64 {
        num(cdflib::traits::Variance::variance(&self.0))
    }
    fn std_dev(&self) -> f64 {
        num(cdflib::traits::Variance::std_dev(&self.0))
    }
}

#[derive(Debug, Clone, Copy, PartialEq)]
struct Gamma(cdflib::dist::Gamma);

#[allow(dead_code)]
impl Gamma {
    fn new(shape: f64, rate: f64) -> Self {
        Self::try_new(shape, rate).unwrap()
    }
    fn try_new(shape: f64, rate: f64) -> Result<Self, GammaError> {
        let dist = cdflib::dist::Gamma::try_new(fl(shape), fl(rate))?;
        assert_eq!(dist, cdflib::dist::Gamma::new(fl(shape), fl(rate)));
        Ok(Self(dist))
    }
    fn shape(&self) -> f64 {
        num(self.0.shape())
    }
    fn rate(&self) -> f64 {
        num(self.0.rate())
    }
    fn solve_shape(p: f64, q: f64, x: f64, rate: f64) -> Result<f64, GammaError> {
        cdflib::dist::Gamma::solve_shape(&libm, fl(p), fl(q), fl(x), fl(rate)).map(num)
    }
    fn solve_rate(p: f64, q: f64, x: f64, shape: f64) -> Result<f64, GammaError> {
        cdflib::dist::Gamma::solve_rate(&libm, fl(p), fl(q), fl(x), fl(shape)).map(num)
    }
    fn cdf(&self, x: f64) -> f64 {
        num(cdflib::traits::ContinuousCdf::cdf(&self.0, &libm, fl(x)))
    }
    fn ccdf(&self, x: f64) -> f64 {
        num(cdflib::traits::ContinuousCdf::ccdf(&self.0, &libm, fl(x)))
    }
    fn sf(&self, x: f64) -> f64 {
        num(cdflib::traits::ContinuousCdf::sf(&self.0, &libm, fl(x)))
    }
    fn inverse_cdf(&self, p: f64) -> Result<f64, GammaError> {
        cdflib::traits::ContinuousCdf::inverse_cdf(&self.0, &libm, fl(p)).map(num)
    }
    fn inverse_sf(&self, q: f64) -> Result<f64, GammaError> {
        self.0.inverse_sf(&libm, fl(q)).map(num)
    }
    fn pdf(&self, x: f64) -> f64 {
        num(cdflib::traits::Continuous::pdf(&self.0, &libm, fl(x)))
    }
    fn ln_pdf(&self, x: f64) -> f64 {
        num(cdflib::traits::Continuous::ln_pdf(&self.0, &libm, fl(x)))
    }
    fn mean(&self) -> f64 {
        num(cdflib::traits::Mean::mean(&self.0))
    }
    fn variance(&self) -> f64 {
        num(cdflib::traits::Variance::variance(&self.0))
    }
    fn std_dev(&self) -> f64 {
        num(cdflib::traits::Variance::std_dev(&self.0))
    }
    fn entropy(&self) -> f64 {
        num(cdflib::traits::Entropy::entropy(&self.0, &libm))
    }
}

#[derive(Debug, Clone, Copy, PartialEq)]
struct NegativeBinomial(cdflib::dist::NegativeBinomial);

#[allow(dead_code)]
impl NegativeBinomial {
    fn new(r: u64, pr: f64) -> Self {
        Self::try_new(r, pr).unwrap()
    }
    fn try_new(r: u64, pr: f64) -> Result<Self, NegativeBinomialError> {
        let dist = cdflib::dist::NegativeBinomial::try_new(r, fl(pr))?;
        assert_eq!(dist, cdflib::dist::NegativeBinomial::new(r, fl(pr)));
        Ok(Self(dist))
    }
    fn r(&self) -> u64 {
        self.0.r()
    }
    fn pr(&self) -> f64 {
        num(self.0.pr())
    }
    fn solve_r(p: f64, pr: f64, s: u64) -> Result<f64, NegativeBinomialError> {
        cdflib::dist::NegativeBinomial::solve_r(&libm, fl(p), fl(pr), s).map(num)
    }
    fn solve_trials(p: f64, pr: f64, s: u64) -> Result<f64, NegativeBinomialError> {
        cdflib::dist::NegativeBinomial::solve_trials(&libm, fl(p), fl(pr), s).map(num)
    }
    fn solve_pr(p: f64, r: u64, s: u64) -> Result<f64, NegativeBinomialError> {
        cdflib::dist::NegativeBinomial::solve_pr(&libm, fl(p), r, s).map(num)
    }
    fn cdf(&self, x: u64) -> f64 {
        num(cdflib::traits::DiscreteCdf::cdf(&self.0, &libm, x))
    }
    fn ccdf(&self, x: u64) -> f64 {
        num(cdflib::traits::DiscreteCdf::ccdf(&self.0, &libm, x))
    }
    fn sf(&self, x: u64) -> f64 {
        num(cdflib::traits::DiscreteCdf::sf(&self.0, &libm, x))
    }
    fn inverse_cdf(&self, p: f64) -> Result<u64, NegativeBinomialError> {
        cdflib::traits::DiscreteCdf::inverse_cdf(&self.0, &libm, fl(p))
    }
    fn inverse_sf(&self, q: f64) -> Result<u64, NegativeBinomialError> {
        self.0.inverse_sf(&libm, fl(q))
    }
    fn pmf(&self, x: u64) -> f64 {
        num(cdflib::traits::Discrete::pmf(&self.0, &libm, x))
    }
    fn ln_pmf(&self, x: u64) -> f64 {
        num(cdflib::traits::Discrete::ln_pmf(&self.0, &libm, x))
    }
    fn mean(&self) -> f64 {
        num(cdflib::traits::Mean::mean(&self.0))
    }
    fn variance(&self) -> f64 {
        num(cdflib::traits::Variance::variance(&self.0))
    }
    fn std_dev(&self) -> f64 {
        num(cdflib::traits::Variance::std_dev(&self.0))
    }
}

#[derive(Debug, Clone, Copy, PartialEq)]
struct Normal(cdflib::dist::Normal);

#[allow(dead_code)]
impl Normal {
    fn new(mean: f64, sd: f64) -> Self {
        Self::try_new(mean, sd).unwrap()
    }
    fn try_new(mean: f64, sd: f64) -> Result<Self, NormalError> {
        let dist = cdflib::dist::Normal::try_new(fl(mean), fl(sd))?;
        assert_eq!(dist, cdflib::dist::Normal::new(fl(mean), fl(sd)));
        Ok(Self(dist))
    }
    fn mean(&self) -> f64 {
        num(self.0.mean())
    }
    fn sd(&self) -> f64 {
        num(self.0.sd())
    }
    fn solve_mean(p: f64, q: f64, x: f64, sd: f64) -> Result<f64, NormalError> {
        cdflib::dist::Normal::solve_mean(&libm, fl(p), fl(q), fl(x), fl(sd)).map(num)
    }
    fn solve_sd(p: f64, q: f64, x: f64, mean: f64) -> Result<f64, NormalError> {
        cdflib::dist::Normal::solve_sd(&libm, fl(p), fl(q), fl(x), fl(mean)).map(num)
    }
    fn cdf(&self, x: f64) -> f64 {
        num(cdflib::traits::ContinuousCdf::cdf(&self.0, &libm, fl(x)))
    }
    fn ccdf(&self, x: f64) -> f64 {
        num(cdflib::traits::ContinuousCdf::ccdf(&self.0, &libm, fl(x)))
    }
    fn sf(&self, x: f64) -> f64 {
        num(cdflib::traits::ContinuousCdf::sf(&self.0, &libm, fl(x)))
    }
    fn inverse_cdf(&self, p: f64) -> Result<f64, NormalError> {
        cdflib::traits::ContinuousCdf::inverse_cdf(&self.0, &libm, fl(p)).map(num)
    }
    fn inverse_sf(&self, q: f64) -> Result<f64, NormalError> {
        self.0.inverse_sf(&libm, fl(q)).map(num)
    }
    fn pdf(&self, x: f64) -> f64 {
        num(cdflib::traits::Continuous::pdf(&self.0, &libm, fl(x)))
    }
    fn ln_pdf(&self, x: f64) -> f64 {
        num(cdflib::traits::Continuous::ln_pdf(&self.0, &libm, fl(x)))
    }
    fn variance(&self) -> f64 {
        num(cdflib::traits::Variance::variance(&self.0))
    }
    fn std_dev(&self) -> f64 {
        num(cdflib::traits::Variance::std_dev(&self.0))
    }
    fn entropy(&self) -> f64 {
        num(cdflib::traits::Entropy::entropy(&self.0, &libm))
    }
    fn standard() -> Self {
        Self(cdflib::dist::Normal::standard())
    }
}

#[derive(Debug, Clone, Copy, PartialEq)]
struct Poisson(cdflib::dist::Poisson);

#[allow(dead_code)]
impl Poisson {
    fn new(lambda: f64) -> Self {
        Self::try_new(lambda).unwrap()
    }
    fn try_new(lambda: f64) -> Result<Self, PoissonError> {
        let dist = cdflib::dist::Poisson::try_new(fl(lambda))?;
        assert_eq!(dist, cdflib::dist::Poisson::new(fl(lambda)));
        Ok(Self(dist))
    }
    fn lambda(&self) -> f64 {
        num(self.0.lambda())
    }
    fn search_lambda(p: f64, q: f64, s: u64) -> Result<f64, PoissonError> {
        cdflib::dist::Poisson::search_lambda(&libm, fl(p), fl(q), s).map(num)
    }
    fn solve_lambda(p: f64, s: u64) -> Result<f64, PoissonError> {
        cdflib::dist::Poisson::solve_lambda(&libm, fl(p), s).map(num)
    }
    fn cdf(&self, x: u64) -> f64 {
        num(cdflib::traits::DiscreteCdf::cdf(&self.0, &libm, x))
    }
    fn ccdf(&self, x: u64) -> f64 {
        num(cdflib::traits::DiscreteCdf::ccdf(&self.0, &libm, x))
    }
    fn sf(&self, x: u64) -> f64 {
        num(cdflib::traits::DiscreteCdf::sf(&self.0, &libm, x))
    }
    fn inverse_cdf(&self, p: f64) -> Result<u64, PoissonError> {
        cdflib::traits::DiscreteCdf::inverse_cdf(&self.0, &libm, fl(p))
    }
    fn inverse_sf(&self, q: f64) -> Result<u64, PoissonError> {
        self.0.inverse_sf(&libm, fl(q))
    }
    fn inverse_ccdf(&self, q: f64) -> Result<f64, PoissonError> {
        self.0.inverse_ccdf(&libm, fl(q)).map(num)
    }
    fn pmf(&self, x: u64) -> f64 {
        num(cdflib::traits::Discrete::pmf(&self.0, &libm, x))
    }
    fn ln_pmf(&self, x: u64) -> f64 {
        num(cdflib::traits::Discrete::ln_pmf(&self.0, &libm, x))
    }
    fn mean(&self) -> f64 {
        num(cdflib::traits::Mean::mean(&self.0))
    }
    fn variance(&self) -> f64 {
        num(cdflib::traits::Variance::variance(&self.0))
    }
    fn std_dev(&self) -> f64 {
        num(cdflib::traits::Variance::std_dev(&self.0))
    }
}

#[derive(Debug, Clone, Copy, PartialEq)]
struct StudentsT(cdflib::dist::StudentsT);

#[allow(dead_code)]
impl StudentsT {
    fn new(df: f64) -> Self {
        Self::try_new(df).unwrap()
    }
    fn try_new(df: f64) -> Result<Self, StudentsTError> {
        let dist = cdflib::dist::StudentsT::try_new(fl(df))?;
        assert_eq!(dist, cdflib::dist::StudentsT::new(fl(df)));
        Ok(Self(dist))
    }
    fn df(&self) -> f64 {
        num(self.0.df())
    }
    fn search_df(p: f64, q: f64, t: f64) -> Result<f64, StudentsTError> {
        cdflib::dist::StudentsT::search_df(&libm, fl(p), fl(q), fl(t)).map(num)
    }
    fn solve_df(p: f64, q: f64, t: f64) -> Result<f64, StudentsTError> {
        cdflib::dist::StudentsT::solve_df(&libm, fl(p), fl(q), fl(t)).map(num)
    }
    fn cdf(&self, x: f64) -> f64 {
        num(cdflib::traits::ContinuousCdf::cdf(&self.0, &libm, fl(x)))
    }
    fn ccdf(&self, x: f64) -> f64 {
        num(cdflib::traits::ContinuousCdf::ccdf(&self.0, &libm, fl(x)))
    }
    fn sf(&self, x: f64) -> f64 {
        num(cdflib::traits::ContinuousCdf::sf(&self.0, &libm, fl(x)))
    }
    fn inverse_cdf(&self, p: f64) -> Result<f64, StudentsTError> {
        cdflib::traits::ContinuousCdf::inverse_cdf(&self.0, &libm, fl(p)).map(num)
    }
    fn inverse_sf(&self, q: f64) -> Result<f64, StudentsTError> {
        self.0.inverse_sf(&libm, fl(q)).map(num)
    }
    fn pdf(&self, x: f64) -> f64 {
        num(cdflib::traits::Continuous::pdf(&self.0, &libm, fl(x)))
    }
    fn ln_pdf(&self, x: f64) -> f64 {
        num(cdflib::traits::Continuous::ln_pdf(&self.0, &libm, fl(x)))
    }
    fn mean(&self) -> f64 {
        num(cdflib::traits::Mean::mean(&self.0))
    }
    fn variance(&self) -> f64 {
        num(cdflib::traits::Variance::variance(&self.0))
    }
    fn std_dev(&self) -> f64 {
        num(cdflib::traits::Variance::std_dev(&self.0))
    }
    fn entropy(&self) -> f64 {
        num(cdflib::traits::Entropy::entropy(&self.0, &libm))
    }
}

#[allow(dead_code)]
fn beta(a: f64, b: f64) -> f64 {
    num(cdflib::special::beta::beta(&libm, fl(a), fl(b)))
}

#[allow(dead_code)]
fn cumnor(x: f64) -> (f64, f64) {
    pair(cdflib::special::normal::cumnor(&libm, fl(x)))
}

#[allow(dead_code)]
fn dexpm1(x: f64) -> f64 {
    num(cdflib::special::gamma::dexpm1(&libm, fl(x)))
}

#[allow(dead_code)]
fn dinvnr(p: f64, q: f64) -> f64 {
    num(cdflib::special::normal::dinvnr(&libm, fl(p), fl(q)))
}

#[allow(dead_code)]
fn dlanor(x: f64) -> f64 {
    if x.abs() < 5.0 {
        panic!("dlanor: argument |x| must be >= 5 (got {x})");
    }
    num(cdflib::special::normal::dlanor(&libm, fl(x)))
}

#[allow(dead_code)]
fn dstrem(z: f64) -> f64 {
    if z <= 0.0 {
        panic!("dstrem: argument z must be positive (got {z})");
    }
    num(cdflib::special::gamma::dstrem(&libm, fl(z)))
}

#[allow(dead_code)]
fn dt1(p: f64, q: f64, df: f64) -> f64 {
    num(cdflib::special::students_t::dt1(&libm, fl(p), fl(q), fl(df)))
}

#[allow(dead_code)]
fn error_f(x: f64) -> f64 {
    num(cdflib::special::erf::error_f(&libm, fl(x)))
}

#[allow(dead_code)]
fn error_fc(x: f64) -> f64 {
    num(cdflib::special::erf::error_fc(&libm, fl(x)))
}

#[allow(dead_code)]
fn gamma(a: f64) -> f64 {
    if a.is_nan() {
        return f64::NAN;
    }
    match try_gamma(a) {
        Ok(_) => num(cdflib::special::gamma::gamma(&libm, fl(a))),
        Err(e) => panic!("gamma({a}): {e:?}"),
    }
}

#[allow(dead_code)]
fn gamma_inc(a: f64, x: f64) -> (f64, f64) {
    if a.is_nan() || x.is_nan() {
        return (f64::NAN, f64::NAN);
    }
    match try_gamma_inc(a, x) {
        Ok(_) => pair(cdflib::special::gamma_inc::gamma_inc(&libm, fl(a), fl(x))),
        Err(e) => panic!("gamma_inc({a}, {x}): {e:?}"),
    }
}

#[allow(dead_code)]
fn gamma_log(a: f64) -> f64 {
    num(cdflib::special::gamma::gamma_log(&libm, fl(a)))
}

#[allow(dead_code)]
fn psi(x: f64) -> f64 {
    if x.is_nan() {
        return f64::NAN;
    }
    match try_psi(x) {
        Ok(_) => num(cdflib::special::gamma::psi(&libm, fl(x))),
        Err(e) => panic!("psi({x}): {e:?}"),
    }
}

#[allow(dead_code)]
fn try_beta_inc(a: f64, b: f64, x: f64, y: f64) -> Result<(f64, f64), BetaIncError> {
    cdflib::special::beta_inc::try_beta_inc(&libm, fl(a), fl(b), fl(x), fl(y)).map(pair)
}

#[allow(dead_code)]
fn try_gamma(a: f64) -> Result<f64, GammaDomainError> {
    cdflib::special::gamma::try_gamma(&libm, fl(a)).map(num)
}

#[allow(dead_code)]
fn try_gamma_inc(a: f64, x: f64) -> Result<(f64, f64), GammaIncError> {
    cdflib::special::gamma_inc::try_gamma_inc(&libm, fl(a), fl(x)).map(pair)
}

#[allow(dead_code)]
fn try_psi(x: f64) -> Result<f64, PsiError> {
    cdflib::special::gamma::try_psi(&libm, fl(x)).map(num)
}

#[test]
fn normal_by_example() {
    let n = Normal::new(0.0, 1.0);
    assert_eq!(n.cdf(1.96), 0.9750021048517796);
    assert!((n.sf(5.0) - 2.866516e-7).abs() < 1e-12);
    assert!((n.inverse_cdf(0.975).unwrap() - 1.9599639845400538).abs() < 1e-14);
    assert!((n.inverse_sf(1e-12).unwrap() - 7.034484).abs() < 1e-6);
    assert_eq!(n.pdf(0.0), 0.3989422804014327);
    assert_eq!(n.mean(), 0.0);
}

#[test]
fn parameters_by_example() {
    let lambda_hi = Poisson::solve_lambda(0.05, 3).unwrap();
    assert!((lambda_hi - 7.7537).abs() < 1e-4);
    let df = ChiSquared::solve_df(0.95, 3.84).unwrap();
    assert!((df - 0.9994).abs() < 1e-4);
    let sd = Normal::solve_sd(0.975, 0.025, 1.96, 0.0).unwrap();
    assert!((sd - 1.0).abs() < 1e-4);
    let n = Binomial::solve_trials(0.95, 0.3, 10).unwrap();
    assert!(n > 10.0 && n < 25.0);
}

#[test]
fn power_by_example() {
    let crit = ChiSquared::new(5.0).inverse_cdf(0.95).unwrap();
    assert!((crit - 11.0705).abs() < 1e-4);
    let power = ChiSquaredNoncentral::new(5.0, 10.0).sf(crit);
    assert!((power - 0.6774).abs() < 1e-4);
}

#[test]
fn kernels_by_example() {
    let (p, q) = gamma_inc(2.5, 1.7);
    assert!((p - 0.36143008).abs() < 1e-8 && (q - 0.63856992).abs() < 1e-8);
    assert!((error_f(0.8) - 0.74210096).abs() < 1e-8);
    assert!((error_fc(2.0) - 0.00467773).abs() < 1e-8);
    let (p, q) = cumnor(1.96);
    assert!((p - 0.9750).abs() < 1e-4 && (q - 0.0250).abs() < 1e-4);
    assert!((dinvnr(0.975, 0.025) - 1.95996).abs() < 1e-4);
    assert!((dlanor(8.0).exp() / cumnor(8.0).1 - 1.0).abs() < 1e-5);
    assert!((dt1(0.975, 0.025, 10.0) - 2.228138851).abs() < 5e-3);
    assert_eq!(dexpm1(0.0), 0.0);
    assert!((dexpm1(0.5) - (0.5_f64.exp() - 1.0)).abs() < 1e-15);
    assert!((gamma(3.0) - 2.0).abs() < 1e-14);
    assert!((gamma(2.5) - 1.3293).abs() < 1e-4);
    assert!((beta(2.0, 3.0) - 1.0 / 12.0).abs() < 1e-15);
    assert!((psi(1.0) + 0.57721566).abs() < 1e-8);
    assert!((gamma_log(3.0) - 2.0_f64.ln()).abs() < 1e-14);
    assert!((dstrem(100.0) - 1.0 / 1200.0).abs() < 1e-6);
    assert!(matches!(try_gamma_inc(-1.0, 1.0), Err(GammaIncError::ANegative(_))));
}

#[test]
fn large_parameters_by_example() {
    assert!((gamma_inc(1e13, 1e13 + 1.0).0 - 0.5).abs() < 1e-4);
    assert!((gamma_inc(1e15, 1e15 - 1.0).0 - 0.5).abs() < 1e-4);
    assert!((gamma_inc(500.0, 500.0).0 - 0.5059).abs() < 1e-4);
    assert!((gamma_inc(5000.0, 5000.0).0 - 0.5019).abs() < 1e-4);
    assert!((gamma_inc(1e6, 1e6).0 - 0.5001).abs() < 1e-4);
    assert!((gamma_inc(1e9, 1e9).0 - 0.5).abs() < 1e-4);
    assert!((try_beta_inc(1e8, 4e8, 0.2, 0.8).unwrap().0 - 0.500009).abs() < 1e-6);
    assert!((try_beta_inc(1e12, 3e12, 0.25, 0.75).unwrap().0 - 0.5).abs() < 1e-6);
    let p = Poisson::new(1e15);
    assert!((p.sf(1_000_000_063_245_553) - 0.02275).abs() < 1e-5);
}

#[test]
fn distributions_by_example() {
    let b = Binomial::new(10, 0.3);
    assert!((b.cdf(3) - 0.6496107184).abs() < 1e-12);
    let pr = Binomial::solve_pr(0.5, 10, 2).unwrap();
    assert!((Binomial::new(10, pr).cdf(2) - 0.5).abs() < 1e-8);
    let n = Normal::new(0.0, 1.0);
    assert!((n.inverse_cdf(0.95).unwrap() - 1.6448536).abs() < 1e-7);
    let f = FisherSnedecor::new(5.0, 10.0);
    assert!((f.cdf(3.33) - 0.95).abs() < 1e-3);
    let dfn = FisherSnedecor::solve_dfn(0.95, 0.05, 3.33, 10.0).unwrap();
    assert!((FisherSnedecor::new(dfn, 10.0).cdf(3.33) - 0.95).abs() < 1e-7);
    let p = Poisson::new(3.0);
    assert_eq!(p.mean(), 3.0);
    assert!((p.pmf(2) - 4.5 * (-3.0_f64).exp()).abs() < 1e-15);
    assert!((p.cdf(2) - 8.5 * (-3.0_f64).exp()).abs() < 1e-14);
    let ncp = ChiSquaredNoncentral::search_ncp(0.5, 15.0, 5.0).unwrap();
    assert!((ChiSquaredNoncentral::new(5.0, ncp).cdf(15.0) - 0.5).abs() < 1e-6);
    let ncp = FisherSnedecorNoncentral::search_ncp(0.5, 4.0, 5.0, 10.0).unwrap();
    assert!((FisherSnedecorNoncentral::new(5.0, 10.0, ncp).cdf(4.0) - 0.5).abs() < 1e-6);
    let t = StudentsT::new(10.0);
    assert!((t.inverse_cdf(0.975).unwrap() - 2.228).abs() < 1e-3);
    assert!((t.cdf(2.228) - 0.975).abs() < 1e-4);
    let g = Gamma::new(2.0, 1.0);
    assert!((g.cdf(2.0) - (1.0 - 3.0 * (-2.0_f64).exp())).abs() < 1e-14);
    let shape = Gamma::solve_shape(0.9, 0.1, 5.0, 2.0).unwrap();
    assert!((Gamma::new(shape, 2.0).cdf(5.0) - 0.9).abs() < 1e-7);
    let nb = NegativeBinomial::new(5, 0.5);
    assert!((nb.cdf(3) - 93.0 / 256.0).abs() < 1e-14);
    let pr = NegativeBinomial::solve_pr(0.9, 10, 5).unwrap();
    assert!((NegativeBinomial::new(10, pr).cdf(5) - 0.9).abs() < 1e-7);
    let a = Beta::search_a(0.9, 0.1, 0.5, 2.0).unwrap();
    assert!((Beta::new(a, 2.0).cdf(0.5) - 0.9).abs() < 1e-7);
    assert!((Beta::new(2.0, 5.0).cdf(0.3) - 0.579825).abs() < 1e-12);
}
