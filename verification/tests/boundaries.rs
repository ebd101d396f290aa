//! Behaviour at the ends of the ranges.
use cdflib::float::F64;
use cdflib::functions::Elementary;
use cdflib::dist::BetaError;
use cdflib::dist::BinomialError;
use cdflib::dist::ChiSquaredError;
use cdflib::dist::ChiSquaredNoncentralError;
use cdflib::dist::FisherSnedecorError;
use cdflib::dist::FisherSnedecorNoncentralError;
use cdflib::dist::GammaError;
use cdflib::dist::NegativeBinomialError;
use cdflib::dist::NormalError;
use cdflib::dist::PoissonError;
use cdflib::dist::StudentsTError;

#[allow(dead_code)]
fn fl(x: f64) -> F64 {
    F64 { bits: x.to_bits() }
}

#[allow(dead_code)]
fn num(x: F64) -> f64 {
    f64::from_bits(x.bits)
}

#[allow(dead_code)]
fn pair(p: (F64, F64)) -> (f64, f64) {
    (num(p.0), num(p.1))
}

#[allow(dead_code)]
fn libm(q: Elementary) -> F64 {
    match q {
        Elementary::Exp(x) => fl(num(x).exp()),
        Elementary::Ln(x) => fl(num(x).ln()),
        Elementary::Sin(x) => fl(num(x).sin()),
        Elementary::Cos(x) => fl(num(x).cos()),
        Elementary::Pow(x, y) => fl(num(x).powf(num(y))),
    }
}

#[derive(Debug, Clone, Copy, PartialEq)]
struct Beta(cdflib::dist::Beta);

#[allow(dead_code)]
impl Beta {
    fn new(a: f64, b: f64) -> Self {
        Self::try_new(a, b).unwrap()
    }
    fn try_new(a: f64, b: f64) -> Result<Self, BetaError> {
        let dist = cdflib::dist::Beta::try_new(fl(a), fl(b))?;
        assert_eq!(dist, cdflib::dist::Beta::new(fl(a), fl(b)));
        Ok(Self(dist))
    }
    fn a(&self) -> f64 {
        num(self.0.a())
    }
    fn b(&self) -> f64 {
        num(self.0.b())
    }
    fn search_a(p: f64, q: f64, x: f64, b: f64) -> Result<f64, BetaError> {
        cdflib::dist::Beta::search_a(&libm, fl(p), fl(q), fl(x), fl(b)).map(num)
    }
    fn search_b(p: f64, q: f64, x: f64, a: f64) -> Result<f64, BetaError> {
        cdflib::dist::Beta::search_b(&libm, fl(p), fl(q), fl(x), fl(a)).map(num)
    }
    fn solve_a(p: f64, x: f64, b: f64) -> Result<f64, BetaError> {
        cdflib::dist::Beta::solve_a(&libm, fl(p), fl(x), fl(b)).map(num)
    }
    fn solve_b(p: f64, x: f64, a: f64) -> Result<f64, BetaError> {
        cdflib::dist::Beta::solve_b(&libm, fl(p), fl(x), fl(a)).map(num)
    }
    fn cdf(&self, x: f64) -> f64 {
        num(cdflib::traits::ContinuousCdf::cdf(&self.0, &libm, fl(x)))
    }
    fn ccdf(&self, x: f64) -> f64 {
        num(cdflib::traits::ContinuousCdf::ccdf(&self.0, &libm, fl(x)))
    }
    fn sf(&self, x: f64) -> f64 {
        num(cdflib::traits::ContinuousCdf::sf(&self.0, &libm, fl(x)))
    }
    fn inverse_cdf(&self, p: f64) -> Result<f64, BetaError> {
        cdflib::traits::ContinuousCdf::inverse_cdf(&self.0, &libm, fl(p)).map(num)
    }
    fn inverse_ccdf(&self, q: f64) -> Result<f64, BetaError> {
        self.0.inverse_ccdf(&libm, fl(q)).map(num)
    }
    fn inverse_sf(&self, q: f64) -> Result<f64, BetaError> {
        self.0.inverse_sf(&libm, fl(q)).map(num)
    }
    fn pdf(&self, x: f64) -> f64 {
        num(cdflib::traits::Continuous::pdf(&self.0, &libm, fl(x)))
    }
    fn ln_pdf(&self, x: f64) -> f64 {
        num(cdflib::traits::Continuous::ln_pdf(&self.0, &libm, fl(x)))
    }
    fn mean(&self) -> f64 {
        num(cdflib::traits::Mean::mean(&self.0))
    }
    fn variance(&self) -> f64 {
        num(cdflib::traits::Variance::variance(&self.0))
    }
    fn std_dev(&self) -> f64 {
        num(cdflib::traits::Variance::std_dev(&self.0))
    }
    fn entropy(&self) -> f64 {
        num(cdflib::traits::Entropy::entropy(&self.0, &libm))
    }
}

#[derive(Debug, Clone, Copy, PartialEq)]
struct Binomial(cdflib::dist::Binomial);

#[allow(dead_code)]
impl Binomial {
    fn new(n: u64, pr: f64) -> Self {
        Self::try_new(n, pr).unwrap()
    }
    fn try_new(n: u64, pr: f64) -> Result<Self, BinomialError> {
        let dist = cdflib::dist::Binomial::try_new(n, fl(pr))?;
        assert_eq!(dist, cdflib::dist::Binomial::new(n, fl(pr)));
        Ok(Self(dist))
    }
    fn n(&self) -> u64 {
        self.0.n()
    }
    fn pr(&self) -> f64 {
        num(self.0.pr())
    }
    fn solve_trials(p: f64, pr: f64, s: u64) -> Result<f64, BinomialError> {
        cdflib::dist::Binomial::solve_trials(&libm, fl(p), fl(pr), s).map(num)
    }
    fn solve_pr(p: f64, n: u64, s: u64) -> Result<f64, BinomialError> {
        cdflib::dist::Binomial::solve_pr(&libm, fl(p), n, s).map(num)
    }
    fn cdf(&self, x: u64) -> f64 {
        num(cdflib::traits::DiscreteCdf::cdf(&self.0, &libm, x))
    }
    fn ccdf(&self, x: u64) -> f64 {
        num(cdflib::traits::DiscreteCdf::ccdf(&self.0, &libm, x))
    }
    fn sf(&self, x: u64) -> f64 {
        num(cdflib::traits::DiscreteCdf::sf(&self.0, &libm, x))
    }
    fn inverse_cdf(&self, p: f64) -> Result<u64, BinomialError> {
        cdflib::traits::DiscreteCdf::inverse_cdf(&self.0, &libm, fl(p))
    }
    fn inverse_sf(&self, q: f64) -> Result<u64, BinomialError> {
        self.0.inverse_sf(&libm, fl(q))
    }
    fn pmf(&self, x: u64) -> f64 {
        num(cdflib::traits::Discrete::pmf(&self.0, &libm, x))
    }
    fn ln_pmf(&self, x: u64) -> f64 {
        num(cdflib::traits::Discrete::ln_pmf(&self.0, &libm, x))
    }
    fn mean(&self) -> f64 {
        num(cdflib::traits::Mean::mean(&self.0))
    }
    fn variance(&self) -> f64 {
        num(cdflib::traits::Variance::variance(&self.0))
    }
    fn std_dev(&self) -> f64 {
        num(cdflib::traits::Variance::std_dev(&self.0))
    }
}

#[derive(Debug, Clone, Copy, PartialEq)]
struct ChiSquared(cdflib::dist::ChiSquared);

#[allow(dead_code)]
impl ChiSquared {
    fn new(df: f64) -> Self {
        Self::try_new(df).unwrap()
    }
    fn try_new(df: f64) -> Result<Self, ChiSquaredError> {
        let dist = cdflib::dist::ChiSquared::try_new(fl(df))?;
        assert_eq!(dist, cdflib::dist::ChiSquared::new(fl(df)));
        Ok(Self(dist))
    }
    fn df(&self) -> f64 {
        num(self.0.df())
    }
    fn solve_df(p: f64, x: f64) -> Result<f64, ChiSquaredError> {
        cdflib::dist::ChiSquared::solve_df(&libm, fl(p), fl(x)).map(num)
    }
    fn cdf(&self, x: f64) -> f64 {
        num(cdflib::traits::ContinuousCdf::cdf(&self.0, &libm, fl(x)))
    }
    fn ccdf(&self, x: f64) -> f64 {
        num(cdflib::traits::ContinuousCdf::ccdf(&self.0, &libm, fl(x)))
    }
    fn sf(&self, x: f64) -> f64 {
        num(cdflib::traits::ContinuousCdf::sf(&self.0, &libm, fl(x)))
    }
    fn inverse_cdf(&self, p: f64) -> Result<f64, ChiSquaredError> {
        cdflib::traits::ContinuousCdf::inverse_cdf(&self.0, &libm, fl(p)).map(num)
    }
    fn inverse_sf(&self, q: f64) -> Result<f64, ChiSquaredError> {
        self.0.inverse_sf(&libm, fl(q)).map(num)
    }
    fn pdf(&self, x: f64) -> f64 {
        num(cdflib::traits::Continuous::pdf(&self.0, &libm, fl(x)))
    }
    fn ln_pdf(&self, x: f64) -> f64 {
        num(cdflib::traits::Continuous::ln_pdf(&self.0, &libm, fl(x)))
    }
    fn mean(&self) -> f64 {
        num(cdflib::traits::Mean::mean(&self.0))
    }
    fn variance(&self) -> f64 {
        num(cdflib::traits::Variance::variance(&self.0))
    }
    fn std_dev(&self) -> f64 {
        num(cdflib::traits::Variance::std_dev(&self.0))
    }
    fn entropy(&self) -> f64 {
        num(cdflib::traits::Entropy::entropy(&self.0, &libm))
    }
}

#[derive(Debug, Clone, Copy, PartialEq)]
struct ChiSquaredNoncentral(cdflib::dist::ChiSquaredNoncentral);

#[allow(dead_code)]
impl ChiSquaredNoncentral {
    fn new(df: f64, ncp: f64) -> Self {
        Self::try_new(df, ncp).unwrap()
    }
    fn try_new(df: f64, ncp: f64) -> Result<Self, ChiSquaredNoncentralError> {
        let dist = cdflib::dist::ChiSquaredNoncentral::try_new(fl(df), fl(ncp))?;
        assert_eq!(dist, cdflib::dist::ChiSquaredNoncentral::new(fl(df), fl(ncp)));
        Ok(Self(dist))
    }
    fn df(&self) -> f64 {
        num(self.0.df())
    }
    fn ncp(&self) -> f64 {
        num(self.0.ncp())
    }
    fn search_df(p: f64, x: f64, ncp: f64) -> Result<f64, ChiSquaredNoncentralError> {
        cdflib::dist::ChiSquaredNoncentral::search_df(&libm, fl(p), fl(x), fl(ncp)).map(num)
    }
    fn search_ncp(p: f64, x: f64, df: f64) -> Result<f64, ChiSquaredNoncentralError> {
        cdflib::dist::ChiSquaredNoncentral::search_ncp(&libm, fl(p), fl(x), fl(df)).map(num)
    }
    fn solve_df(p: f64, x: f64, ncp: f64) -> Result<f64, ChiSquaredNoncentralError> {
        cdflib::dist::ChiSquaredNoncentral::solve_df(&libm, fl(p), fl(x), fl(ncp)).map(num)
    }
    fn solve_ncp(p: f64, x: f64, df: f64) -> Result<f64, ChiSquaredNoncentralError> {
        cdflib::dist::ChiSquaredNoncentral::solve_ncp(&libm, fl(p), fl(x), fl(df)).map(num)
    }
    fn cdf(&self, x: f64) -> f64 {
        num(cdflib::traits::ContinuousCdf::cdf(&self.0, &libm, fl(x)))
    }
    fn ccdf(&self, x: f64) -> f64 {
        num(cdflib::traits::ContinuousCdf::ccdf(&self.0, &libm, fl(x)))
    }
    fn sf(&self, x: f64) -> f64 {
        num(cdflib::traits::ContinuousCdf::sf(&self.0, &libm, fl(x)))
    }
    fn inverse_cdf(&self, p: f64) -> Result<f64, ChiSquaredNoncentralError> {
        cdflib::traits::ContinuousCdf::inverse_cdf(&self.0, &libm, fl(p)).map(num)
    }
    fn inverse_sf(&self, q: f64) -> Result<f64, ChiSquaredNoncentralError> {
        self.0.inverse_sf(&libm, fl(q)).map(num)
    }
    fn mean(&self) -> f64 {
        num(cdflib::traits::Mean::mean(&self.0))
    }
    fn variance(&self) -> f64 {
        num(cdflib::traits::Variance::variance(&self.0))
    }
    fn std_dev(&self) -> f64 {
        num(cdflib::traits::Variance::std_dev(&self.0))
    }
}

#[derive(Debug, Clone, Copy, PartialEq)]
struct FisherSnedecor(cdflib::dist::FisherSnedecor);

#[allow(dead_code)]
impl FisherSnedecor {
    fn new(dfn: f64, dfd: f64) -> Self {
        Self::try_new(dfn, dfd).unwrap()
    }
    fn try_new(dfn: f64, dfd: f64) -> Result<Self, FisherSnedecorError> {
        let dist = cdflib::dist::FisherSnedecor::try_new(fl(dfn), fl(dfd))?;
        assert_eq!(dist, cdflib::dist::FisherSnedecor::new(fl(dfn), fl(dfd)));
        Ok(Self(dist))
    }
    fn dfn(&self) -> f64 {
        num(self.0.dfn())
    }
    fn dfd(&self) -> f64 {
        num(self.0.dfd())
    }
    fn solve_dfn(p: f64, q: f64, f: f64, dfd: f64) -> Result<f64, FisherSnedecorError> {
        cdflib::dist::FisherSnedecor::solve_dfn(&libm, fl(p), fl(q), fl(f), fl(dfd)).map(num)
    }
    fn solve_dfd(p: f64, q: f64, f: f64, dfn: f64) -> Result<f64, FisherSnedecorError> {
        cdflib::dist::FisherSnedecor::solve_dfd(&libm, fl(p), fl(q), fl(f), fl(dfn)).map(num)
    }
    fn cdf(&self, x: f64) -> f64 {
        num(cdflib::traits::ContinuousCdf::cdf(&self.0, &libm, fl(x)))
    }
    fn ccdf(&self, x: f64) -> f64 {
        num(cdflib::traits::ContinuousCdf::ccdf(&self.0, &libm, fl(x)))
    }
    fn sf(&self, x: f64) -> f64 {
        num(cdflib::traits::ContinuousCdf::sf(&self.0, &libm, fl(x)))
    }
    fn inverse_cdf(&self, p: f64) -> Result<f64, FisherSnedecorError> {
        cdflib::traits::ContinuousCdf::inverse_cdf(&self.0, &libm, fl(p)).map(num)
    }
    fn inverse_sf(&self, q: f64) -> Result<f64, FisherSnedecorError> {
        self.0.inverse_sf(&libm, fl(q)).map(num)
    }
    fn pdf(&self, x: f64) -> f64 {
        num(cdflib::traits::Continuous::pdf(&self.0, &libm, fl(x)))
    }
    fn ln_pdf(&self, x: f64) -> f64 {
        num(cdflib::traits::Continuous::ln_pdf(&self.0, &libm, fl(x)))
    }
    fn mean(&self) -> f64 {
        num(cdflib::traits::Mean::mean(&self.0))
    }
    fn variance(&self) -> f64 {
        num(cdflib::traits::Variance::variance(&self.0))
    }
    fn std_dev(&self) -> f64 {
        num(cdflib::traits::Variance::std_dev(&self.0))
    }
    fn entropy(&self) -> f64 {
        num(cdflib::traits::Entropy::entropy(&self.0, &libm))
    }
}

#[derive(Debug, Clone, Copy, PartialEq)]
struct FisherSnedecorNoncentral(cdflib::dist::FisherSnedecorNoncentral);

#[allow(dead_code)]
impl FisherSnedecorNoncentral {
    fn new(dfn: f64, dfd: f64, ncp: f64) -> Self {
        Self::try_new(dfn, dfd, ncp).unwrap()
    }
    fn try_new(dfn: f64, dfd: f64, ncp: f64) -> Result<Self, FisherSnedecorNoncentralError> {
        let dist = cdflib::dist::FisherSnedecorNoncentral::try_new(fl(dfn), fl(dfd), fl(ncp))?;
        assert_eq!(dist, cdflib::dist::FisherSnedecorNoncentral::new(fl(dfn), fl(dfd), fl(ncp)));
        Ok(Self(dist))
    }
    fn dfn(&self) -> f64 {
        num(self.0.dfn())
    }
    fn dfd(&self) -> f64 {
        num(self.0.dfd())
    }
    fn ncp(&self) -> f64 {
        num(self.0.ncp())
    }
    fn search_dfn(p: f64, f: f64, dfd: f64, ncp: f64) -> Result<f64, FisherSnedecorNoncentralError> {
        cdflib::dist::FisherSnedecorNoncentral::search_dfn(&libm, fl(p), fl(f), fl(dfd), fl(ncp)).map(num)
    }
    fn search_dfd(p: f64, f: f64, dfn: f64, ncp: f64) -> Result<f64, FisherSnedecorNoncentralError> {
        cdflib::dist::FisherSnedecorNoncentral::search_dfd(&libm, fl(p), fl(f), fl(dfn), fl(ncp)).map(num)
    }
    fn search_ncp(p: f64, f: f64, dfn: f64, dfd: f64) -> Result<f64, FisherSnedecorNoncentralError> {
        cdflib::dist::FisherSnedecorNoncentral::search_ncp(&libm, fl(p), fl(f), fl(dfn), fl(dfd)).map(num)
    }
    fn solve_dfn(p: f64, f: f64, dfd: f64, ncp: f64) -> Result<f64, FisherSnedecorNoncentralError> {
        cdflib::dist::FisherSnedecorNoncentral::solve_dfn(&libm, fl(p), fl(f), fl(dfd), fl(ncp)).map(num)
    }
    fn solve_dfd(p: f64, f: f64, dfn: f64, ncp: f64) -> Result<f64, FisherSnedecorNoncentralError> {
        cdflib::dist::FisherSnedecorNoncentral::solve_dfd(&libm, fl(p), fl(f), fl(dfn), fl(ncp)).map(num)
    }
    fn solve_ncp(p: f64, f: f64, dfn: f64, dfd: f64) -> Result<f64, FisherSnedecorNoncentralError> {
        cdflib::dist::FisherSnedecorNoncentral::solve_ncp(&libm, fl(p), fl(f), fl(dfn), fl(dfd)).map(num)
    }
    fn cdf(&self, x: f64) -> f64 {
        num(cdflib::traits::ContinuousCdf::cdf(&self.0, &libm, fl(x)))
    }
    fn ccdf(&self, x: f64) -> f64 {
        num(cdflib::traits::ContinuousCdf::ccdf(&self.0, &libm, fl(x)))
    }
    fn sf(&self, x: f64) -> f64 {
        num(cdflib::traits::ContinuousCdf::sf(&self.0, &libm, fl(x)))
    }
    fn inverse_cdf(&self, p: f64) -> Result<f64, FisherSnedecorNoncentralError> {
        cdflib::traits::ContinuousCdf::inverse_cdf(&self.0, &libm, fl(p)).map(num)
    }
    fn inverse_sf(&self, q: f64) -> Result<f64, FisherSnedecorNoncentralError> {
        self.0.inverse_sf(&libm, fl(q)).map(num)
    }
    fn mean(&self) -> f64 {
        num(cdflib::traits::Mean::mean(&self.0))
    }
    fn variance(&self) -> f64 {
        num(cdflib::traits::Variance::variance(&self.0))
    }
    fn std_dev(&self) -> f64 {
        num(cdflib::traits::Variance::std_dev(&self.0))
    }
}

#[derive(Debug, Clone, Copy, PartialEq)]
struct Gamma(cdflib::dist::Gamma);

#[allow(dead_code)]
impl Gamma {
    fn new(shape: f64, rate: f64) -> Self {
        Self::try_new(shape, rate).unwrap()
    }
    fn try_new(shape: f64, rate: f64) -> Result<Self, GammaError> {
        let dist = cdflib::dist::Gamma::try_new(fl(shape), fl(rate))?;
        assert_eq!(dist, cdflib::dist::Gamma::new(fl(shape), fl(rate)));
        Ok(Self(dist))
    }
    fn shape(&self) -> f64 {
        num(self.0.shape())
    }
    fn rate(&self) -> f64 {
        num(self.0.rate())
    }
    fn solve_shape(p: f64, q: f64, x: f64, rate: f64) -> Result<f64, GammaError> {
        cdflib::dist::Gamma::solve_shape(&libm, fl(p), fl(q), fl(x), fl(rate)).map(num)
    }
    fn solve_rate(p: f64, q: f64, x: f64, shape: f64) -> Result<f64, GammaError> {
        cdflib::dist::Gamma::solve_rate(&libm, fl(p), fl(q), fl(x), fl(shape)).map(num)
    }
    fn cdf(&self, x: f64) -> f64 {
        num(cdflib::traits::ContinuousCdf::cdf(&self.0, &libm, fl(x)))
    }
    fn ccdf(&self, x: f64) -> f64 {
        num(cdflib::traits::ContinuousCdf::ccdf(&self.0, &libm, fl(x)))
    }
    fn sf(&self, x: f64) -> f64 {
        num(cdflib::traits::ContinuousCdf::sf(&self.0, &libm, fl(x)))
    }
    fn inverse_cdf(&self, p: f64) -> Result<f64, GammaError> {
        cdflib::traits::ContinuousCdf::inverse_cdf(&self.0, &libm, fl(p)).map(num)
    }
    fn inverse_sf(&self, q: f64) -> Result<f64, GammaError> {
        self.0.inverse_sf(&libm, fl(q)).map(num)
    }
    fn pdf(&self, x: f64) -> f64 {
        num(cdflib::traits::Continuous::pdf(&self.0, &libm, fl(x)))
    }
    fn ln_pdf(&self, x: f64) -> f64 {
        num(cdflib::traits::Continuous::ln_pdf(&self.0, &libm, fl(x)))
    }
    fn mean(&self) -> f64 {
        num(cdflib::traits::Mean::mean(&self.0))
    }
    fn variance(&self) -> f64 {
        num(cdflib::traits::Variance::variance(&self.0))
    }
    fn std_dev(&self) -> f64 {
        num(cdflib::traits::Variance::std_dev(&self.0))
    }
    fn entropy(&self) -> f64 {
        num(cdflib::traits::Entropy::entropy(&self.0, &libm))
    }
}

#[derive(Debug, Clone, Copy, PartialEq)]
struct NegativeBinomial(cdflib::dist::NegativeBinomial);

#[allow(dead_code)]
impl NegativeBinomial {
    fn new(r: u64, pr: f64) -> Self {
        Self::try_new(r, pr).unwrap()
    }
    fn try_new(r: u64, pr: f64) -> Result<Self, NegativeBinomialError> {
        let dist = cdflib::dist::NegativeBinomial::try_new(r, fl(pr))?;
        assert_eq!(dist, cdflib::dist::NegativeBinomial::new(r, fl(pr)));
        Ok(Self(dist))
    }
    fn r(&self) -> u64 {
        self.0.r()
    }
    fn pr(&self) -> f64 {
        num(self.0.pr())
    }
    fn solve_r(p: f64, pr: f64, s: u64) -> Result<f64, NegativeBinomialError> {
        cdflib::dist::NegativeBinomial::solve_r(&libm, fl(p), fl(pr), s).map(num)
    }
    fn solve_trials(p: f64, pr: f64, s: u64) -> Result<f64, NegativeBinomialError> {
        cdflib::dist::NegativeBinomial::solve_trials(&libm, fl(p), fl(pr), s).map(num)
    }
    fn solve_pr(p: f64, r: u64, s: u64) -> Result<f64, NegativeBinomialError> {
        cdflib::dist::NegativeBinomial::solve_pr(&libm, fl(p), r, s).map(num)
    }
    fn cdf(&self, x: u64) -> f64 {
        num(cdflib::traits::DiscreteCdf::cdf(&self.0, &libm, x))
    }
    fn ccdf(&self, x: u64) -> f64 {
        num(cdflib::traits::DiscreteCdf::ccdf(&self.0, &libm, x))
    }
    fn sf(&self, x: u64) -> f64 {
        num(cdflib::traits::DiscreteCdf::sf(&self.0, &libm, x))
    }
    fn inverse_cdf(&self, p: f64) -> Result<u64, NegativeBinomialError> {
        cdflib::traits::DiscreteCdf::inverse_cdf(&self.0, &libm, fl(p))
    }
    fn inverse_sf(&self, q: f64) -> Result<u64, NegativeBinomialError> {
        self.0.inverse_sf(&libm, fl(q))
    }
    fn pmf(&self, x: u64) -> f64 {
        num(cdflib::traits::Discrete::pmf(&self.0, &libm, x))
    }
    fn ln_pmf(&self, x: u64) -> f64 {
        num(cdflib::traits::Discrete::ln_pmf(&self.0, &libm, x))
    }
    fn mean(&self) -> f64 {
        num(cdflib::traits::Mean::mean(&self.0))
    }
    fn variance(&self) -> f64 {
        num(cdflib::traits::Variance::variance(&self.0))
    }
    fn std_dev(&self) -> f64 {
        num(cdflib::traits::Variance::std_dev(&self.0))
    }
}

#[derive(Debug, Clone, Copy, PartialEq)]
struct Normal(cdflib::dist::Normal);

#[allow(dead_code)]
impl Normal {
    fn new(mean: f64, sd: f64) -> Self {
        Self::try_new(mean, sd).unwrap()
    }
    fn try_new(mean: f64, sd: f64) -> Result<Self, NormalError> {
        let dist = cdflib::dist::Normal::try_new(fl(mean), fl(sd))?;
        assert_eq!(dist, cdflib::dist::Normal::new(fl(mean), fl(sd)));
        Ok(Self(dist))
    }
    fn mean(&self) -> f64 {
        num(self.0.mean())
    }
    fn sd(&self) -> f64 {
        num(self.0.sd())
    }
    fn solve_mean(p: f64, q: f64, x: f64, sd: f64) -> Result<f64, NormalError> {
        cdflib::dist::Normal::solve_mean(&libm, fl(p), fl(q), fl(x), fl(sd)).map(num)
    }
    fn solve_sd(p: f64, q: f64, x: f64, mean: f64) -> Result<f64, NormalError> {
        cdflib::dist::Normal::solve_sd(&libm, fl(p), fl(q), fl(x), fl(mean)).map(num)
    }
    fn cdf(&self, x: f64) -> f64 {
        num(cdflib::traits::ContinuousCdf::cdf(&self.0, &libm, fl(x)))
    }
    fn ccdf(&self, x: f64) -> f64 {
        num(cdflib::traits::ContinuousCdf::ccdf(&self.0, &libm, fl(x)))
    }
    fn sf(&self, x: f64) -> f64 {
        num(cdflib::traits::ContinuousCdf::sf(&self.0, &libm, fl(x)))
    }
    fn inverse_cdf(&self, p: f64) -> Result<f64, NormalError> {
        cdflib::traits::ContinuousCdf::inverse_cdf(&self.0, &libm, fl(p)).map(num)
    }
    fn inverse_sf(&self, q: f64) -> Result<f64, NormalError> {
        self.0.inverse_sf(&libm, fl(q)).map(num)
    }
    fn pdf(&self, x: f64) -> f64 {
        num(cdflib::traits::Continuous::pdf(&self.0, &libm, fl(x)))
    }
    fn ln_pdf(&self, x: f64) -> f64 {
        num(cdflib::traits::Continuous::ln_pdf(&self.0, &libm, fl(x)))
    }
    fn variance(&self) -> f64 {
        num(cdflib::traits::Variance::variance(&self.0))
    }
    fn std_dev(&self) -> f64 {
        num(cdflib::traits::Variance::std_dev(&self.0))
    }
    fn entropy(&self) -> f64 {
        num(cdflib::traits::Entropy::entropy(&self.0, &libm))
    }
    fn standard() -> Self {
        Self(cdflib::dist::Normal::standard())
    }
}

#[derive(Debug, Clone, Copy, PartialEq)]
struct Poisson(cdflib::dist::Poisson);

#[allow(dead_code)]
impl Poisson {
    fn new(lambda: f64) -> Self {
        Self::try_new(lambda).unwrap()
    }
    fn try_new(lambda: f64) -> Result<Self, PoissonError> {
        let dist = cdflib::dist::Poisson::try_new(fl(lambda))?;
        assert_eq!(dist, cdflib::dist::Poisson::new(fl(lambda)));
        Ok(Self(dist))
    }
    fn lambda(&self) -> f64 {
        num(self.0.lambda())
    }
    fn search_lambda(p: f64, q: f64, s: u64) -> Result<f64, PoissonError> {
        cdflib::dist::Poisson::search_lambda(&libm, fl(p), fl(q), s).map(num)
    }
    fn solve_lambda(p: f64, s: u64) -> Result<f64, PoissonError> {
        cdflib::dist::Poisson::solve_lambda(&libm, fl(p), s).map(num)
    }
    fn cdf(&self, x: u64) -> f64 {
        num(cdflib::traits::DiscreteCdf::cdf(&self.0, &libm, x))
    }
    fn ccdf(&self, x: u64) -> f64 {
        num(cdflib::traits::DiscreteCdf::ccdf(&self.0, &libm, x))
    }
    fn sf(&self, x: u64) -> f64 {
        num(cdflib::traits::DiscreteCdf::sf(&self.0, &libm, x))
    }
    fn inverse_cdf(&self, p: f64) -> Result<u64, PoissonError> {
        cdflib::traits::DiscreteCdf::inverse_cdf(&self.0, &libm, fl(p))
    }
    fn inverse_sf(&self, q: f64) -> Result<u64, PoissonError> {
        self.0.inverse_sf(&libm, fl(q))
    }
    fn inverse_ccdf(&self, q: f64) -> Result<f64, PoissonError> {
        self.0.inverse_ccdf(&libm, fl(q)).map(num)
    }
    fn pmf(&self, x: u64) -> f64 {
        num(cdflib::traits::Discrete::pmf(&self.0, &libm, x))
    }
    fn ln_pmf(&self, x: u64) -> f64 {
        num(cdflib::traits::Discrete::ln_pmf(&self.0, &libm, x))
    }
    fn mean(&self) -> f64 {
        num(cdflib::traits::Mean::mean(&self.0))
    }
    fn variance(&self) -> f64 {
        num(cdflib::traits::Variance::variance(&self.0))
    }
    fn std_dev(&self) -> f64 {
        num(cdflib::traits::Variance::std_dev(&self.0))
    }
}

#[derive(Debug, Clone, Copy, PartialEq)]
struct StudentsT(cdflib::dist::StudentsT);

#[allow(dead_code)]
impl StudentsT {
    fn new(df: f64) -> Self {
        Self::try_new(df).unwrap()
    }
    fn try_new(df: f64) -> Result<Self, StudentsTError> {
        let dist = cdflib::dist::StudentsT::try_new(fl(df))?;
        assert_eq!(dist, cdflib::dist::StudentsT::new(fl(df)));
        Ok(Self(dist))
    }
    fn df(&self) -> f64 {
        num(self.0.df())
    }
    fn search_df(p: f64, q: f64, t: f64) -> Result<f64, StudentsTError> {
        cdflib::dist::StudentsT::search_df(&libm, fl(p), fl(q), fl(t)).map(num)
    }
    fn solve_df(p: f64, q: f64, t: f64) -> Result<f64, StudentsTError> {
        cdflib::dist::StudentsT::solve_df(&libm, fl(p), fl(q), fl(t)).map(num)
    }
    fn cdf(&self, x: f64) -> f64 {
        num(cdflib::traits::ContinuousCdf::cdf(&self.0, &libm, fl(x)))
    }
    fn ccdf(&self, x: f64) -> f64 {
        num(cdflib::traits::ContinuousCdf::ccdf(&self.0, &libm, fl(x)))
    }
    fn sf(&self, x: f64) -> f64 {
        num(cdflib::traits::ContinuousCdf::sf(&self.0, &libm, fl(x)))
    }
    fn inverse_cdf(&self, p: f64) -> Result<f64, StudentsTError> {
        cdflib::traits::ContinuousCdf::inverse_cdf(&self.0, &libm, fl(p)).map(num)
    }
    fn inverse_sf(&self, q: f64) -> Result<f64, StudentsTError> {
        self.0.inverse_sf(&libm, fl(q)).map(num)
    }
    fn pdf(&self, x: f64) -> f64 {
        num(cdflib::traits::Continuous::pdf(&self.0, &libm, fl(x)))
    }
    fn ln_pdf(&self, x: f64) -> f64 {
        num(cdflib::traits::Continuous::ln_pdf(&self.0, &libm, fl(x)))
    }
    fn mean(&self) -> f64 {
        num(cdflib::traits::Mean::mean(&self.0))
    }
    fn variance(&self) -> f64 {
        num(cdflib::traits::Variance::variance(&self.0))
    }
    fn std_dev(&self) -> f64 {
        num(cdflib::traits::Variance::std_dev(&self.0))
    }
    fn entropy(&self) -> f64 {
        num(cdflib::traits::Entropy::entropy(&self.0, &libm))
    }
}

#[allow(dead_code)]
const DEFAULT_REL_TOL: f64 = 1e-14;
#[allow(dead_code)]
const DEFAULT_ABS_TOL: f64 = 1e-300;
#[allow(dead_code)]
const INVERSE_REL_TOL: f64 = 5e-8;
#[allow(dead_code)]
const CHAINED_INVERSE_REL_TOL: f64 = 5e-7;

#[allow(dead_code)]
fn assert_close(got: f64, expected: f64) {
    assert_close_eps(got, expected, DEFAULT_REL_TOL, DEFAULT_ABS_TOL);
}

#[allow(dead_code)]
fn assert_close_eps(got: f64, expected: f64, rel_tol: f64, abs_tol: f64) {
    if got.is_nan() || expected.is_nan() {
        assert!(got.is_nan() && expected.is_nan(), "NaN mismatch: got {got}, expected {expected}");
        return;
    }
    if got.is_infinite() || expected.is_infinite() {
        assert_eq!(got, expected, "infinity mismatch: got {got}, expected {expected}");
        return;
    }
    let diff = (got - expected).abs();
    if diff <= abs_tol {
        return;
    }
    let scale = got.abs().max(expected.abs());
    let rel = if scale == 0.0 { 0.0 } else { diff / scale };
    assert!(rel <= rel_tol, "got {got}, expected {expected}, rel diff {rel}");
}

#[test]
fn normal_endpoints() {
    let n = Normal::new(0.0, 1.0);
    assert_eq!(n.inverse_cdf(0.0).unwrap(), f64::NEG_INFINITY);
    assert_eq!(n.inverse_cdf(1.0).unwrap(), f64::INFINITY);
    assert_eq!(n.inverse_sf(0.0).unwrap(), f64::INFINITY);
    assert_eq!(n.inverse_sf(1.0).unwrap(), f64::NEG_INFINITY);
}

#[test]
fn gamma_endpoints() {
    let g = Gamma::new(2.0, 1.5);
    assert_eq!(g.inverse_cdf(0.0).unwrap(), 0.0);
    assert_eq!(g.inverse_cdf(1.0).unwrap(), f64::INFINITY);
    assert_eq!(g.inverse_sf(0.0).unwrap(), f64::INFINITY);
    assert_eq!(g.inverse_sf(1.0).unwrap(), 0.0);
}

#[test]
fn chi_squared_endpoints() {
    let c = ChiSquared::new(5.0);
    assert_eq!(c.inverse_cdf(0.0).unwrap(), 0.0);
    assert_eq!(c.inverse_cdf(1.0).unwrap(), f64::INFINITY);
    assert_eq!(c.inverse_sf(0.0).unwrap(), f64::INFINITY);
    assert_eq!(c.inverse_sf(1.0).unwrap(), 0.0);
}

#[test]
fn chi_squared_noncentral_endpoints() {
    let c = ChiSquaredNoncentral::new(5.0, 2.0);
    assert_eq!(c.inverse_cdf(0.0).unwrap(), 0.0);
    assert_eq!(c.inverse_cdf(1.0).unwrap(), f64::INFINITY);
    assert_eq!(c.inverse_sf(0.0).unwrap(), f64::INFINITY);
    assert_eq!(c.inverse_sf(1.0).unwrap(), 0.0);
}

#[test]
fn beta_endpoints() {
    let b = Beta::new(2.0, 5.0);
    assert_eq!(b.inverse_cdf(0.0).unwrap(), 0.0);
    assert_eq!(b.inverse_cdf(1.0).unwrap(), 1.0);
    assert_eq!(b.inverse_sf(0.0).unwrap(), 1.0);
    assert_eq!(b.inverse_sf(1.0).unwrap(), 0.0);
}

#[test]
fn fisher_snedecor_endpoints() {
    let f = FisherSnedecor::new(5.0, 10.0);
    assert_eq!(f.inverse_cdf(0.0).unwrap(), 0.0);
    assert_eq!(f.inverse_cdf(1.0).unwrap(), f64::INFINITY);
    assert_eq!(f.inverse_sf(0.0).unwrap(), f64::INFINITY);
    assert_eq!(f.inverse_sf(1.0).unwrap(), 0.0);
}

#[test]
fn fisher_snedecor_noncentral_endpoints() {
    let f = FisherSnedecorNoncentral::new(5.0, 10.0, 2.0);
    assert_eq!(f.inverse_cdf(0.0).unwrap(), 0.0);
    assert_eq!(f.inverse_cdf(1.0).unwrap(), f64::INFINITY);
    assert_eq!(f.inverse_sf(0.0).unwrap(), f64::INFINITY);
    assert_eq!(f.inverse_sf(1.0).unwrap(), 0.0);
}

#[test]
fn students_t_endpoints() {
    let t = StudentsT::new(10.0);
    assert_eq!(t.inverse_cdf(0.0).unwrap(), f64::NEG_INFINITY);
    assert_eq!(t.inverse_cdf(1.0).unwrap(), f64::INFINITY);
    assert_eq!(t.inverse_sf(0.0).unwrap(), f64::INFINITY);
    assert_eq!(t.inverse_sf(1.0).unwrap(), f64::NEG_INFINITY);
}

#[test]
fn binomial_endpoints() {
    let b = Binomial::new(10, 0.3);
    assert_eq!(b.inverse_cdf(0.0).unwrap(), 0);
    assert_eq!(b.inverse_cdf(1.0).unwrap(), 10);
    assert_eq!(b.inverse_sf(0.0).unwrap(), 10);
    assert_eq!(b.inverse_sf(1.0).unwrap(), 0);
}

#[test]
fn poisson_endpoints() {
    let p = Poisson::new(3.0);
    assert_eq!(p.inverse_cdf(0.0).unwrap(), 0);
    assert_eq!(p.inverse_cdf(1.0).unwrap(), u64::MAX);
    assert_eq!(p.inverse_sf(0.0).unwrap(), u64::MAX);
    assert_eq!(p.inverse_sf(1.0).unwrap(), 0);
}

#[test]
fn negative_binomial_endpoints() {
    let nb = NegativeBinomial::new(5, 0.5);
    assert_eq!(nb.inverse_cdf(0.0).unwrap(), 0);
    assert_eq!(nb.inverse_cdf(1.0).unwrap(), u64::MAX);
    assert_eq!(nb.inverse_sf(0.0).unwrap(), u64::MAX);
    assert_eq!(nb.inverse_sf(1.0).unwrap(), 0);
}

#[test]
fn normal_solve_rejects_nan_x() {
    assert!(matches!(
        Normal::solve_mean(0.5, 0.5, f64::NAN, 1.0),
        Err(NormalError::XNotFinite(_))
    ));
    assert!(matches!(
        Normal::solve_sd(0.5, 0.5, f64::NAN, 0.0),
        Err(NormalError::XNotFinite(_))
    ));
}

#[test]
fn gamma_solve_rejects_nan_x() {
    assert!(matches!(
        Gamma::solve_shape(0.5, 0.5, f64::NAN, 2.0),
        Err(GammaError::XNotFinite(_))
    ));
    assert!(matches!(
        Gamma::solve_rate(0.5, 0.5, f64::NAN, 2.0),
        Err(GammaError::XNotFinite(_))
    ));
    assert!(matches!(
        Gamma::solve_shape(0.5, 0.5, 1.0, f64::NAN),
        Err(GammaError::RateNotFinite(_))
    ));
}

#[test]
fn chi_squared_solve_rejects_nan_x() {
    assert!(matches!(
        ChiSquared::solve_df(0.5, f64::NAN),
        Err(ChiSquaredError::XNotFinite(_))
    ));
}

#[test]
fn chi_squared_noncentral_solve_rejects_nan() {
    assert!(matches!(
        ChiSquaredNoncentral::solve_df(0.5, f64::NAN, 2.0),
        Err(ChiSquaredNoncentralError::XNotFinite(_))
    ));
    assert!(matches!(
        ChiSquaredNoncentral::solve_ncp(0.5, f64::NAN, 5.0),
        Err(ChiSquaredNoncentralError::XNotFinite(_))
    ));
    assert!(matches!(
        ChiSquaredNoncentral::solve_df(0.5, 1.0, f64::NAN),
        Err(ChiSquaredNoncentralError::NcpNotFinite(_))
    ));
}

#[test]
fn students_t_solve_rejects_nan_t() {
    assert!(matches!(
        StudentsT::solve_df(0.5, 0.5, f64::NAN),
        Err(StudentsTError::TNotFinite(_))
    ));
}

#[test]
fn fisher_snedecor_noncentral_solve_rejects_nan() {
    assert!(matches!(
        FisherSnedecorNoncentral::solve_dfn(0.5, f64::NAN, 5.0, 1.0),
        Err(FisherSnedecorNoncentralError::FNotFinite(_))
    ));
    assert!(matches!(
        FisherSnedecorNoncentral::solve_dfd(0.5, 1.0, f64::NAN, 1.0),
        Err(FisherSnedecorNoncentralError::DfnNotFinite(_))
    ));
    assert!(matches!(
        FisherSnedecorNoncentral::solve_ncp(0.5, 1.0, 5.0, f64::NAN),
        Err(FisherSnedecorNoncentralError::DfdNotFinite(_))
    ));
}

#[test]
fn continuous_cdf_nan_returns_nan() {
    assert!(Normal::new(0.0, 1.0).cdf(f64::NAN).is_nan());
    assert!(Gamma::new(2.0, 1.0).cdf(f64::NAN).is_nan());
    assert!(ChiSquared::new(5.0).cdf(f64::NAN).is_nan());
    assert!(ChiSquaredNoncentral::new(5.0, 2.0).cdf(f64::NAN).is_nan());
    assert!(Beta::new(2.0, 5.0).cdf(f64::NAN).is_nan());
    assert!(FisherSnedecor::new(5.0, 10.0).cdf(f64::NAN).is_nan());
    assert!(
        FisherSnedecorNoncentral::new(5.0, 10.0, 2.0)
            .cdf(f64::NAN)
            .is_nan()
    );
    assert!(StudentsT::new(10.0).cdf(f64::NAN).is_nan());
}

#[test]
fn continuous_sf_nan_returns_nan() {
    assert!(Normal::new(0.0, 1.0).sf(f64::NAN).is_nan());
    assert!(Gamma::new(2.0, 1.0).sf(f64::NAN).is_nan());
    assert!(ChiSquared::new(5.0).sf(f64::NAN).is_nan());
    assert!(Beta::new(2.0, 5.0).sf(f64::NAN).is_nan());
    assert!(StudentsT::new(10.0).sf(f64::NAN).is_nan());
}
