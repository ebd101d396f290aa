//! Branches that the other tests do not take.
use cdflib::float::F64;
use cdflib::functions::Elementary;
use cdflib::special::beta_inc::BetaGratError;
use cdflib::special::beta_inc::BetaIncError;
use cdflib::special::gamma::GammaDomainError;
use cdflib::special::gamma_inc::GammaIncError;
use cdflib::special::gamma_inv::GammaIncInvError;
use cdflib::special::gamma::PsiError;
use cdflib::dist::FisherSnedecorNoncentralError;
use cdflib::dist::NegativeBinomialError;
use cdflib::dist::PoissonError;

#[allow(dead_code)]
fn fl(x: f64) -> F64 {
    F64 { bits: x.to_bits() }
}

#[allow(dead_code)]
fn num(x: F64) -> f64 {
    f64::from_bits(x.bits)
}

#[allow(dead_code)]
fn pair(p: (F64, F64)) -> (f64, f64) {
    (num(p.0), num(p.1))
}

#[allow(dead_code)]
fn libm(q: Elementary) -> F64 {
    match q {
        Elementary::Exp(x) => fl(num(x).exp()),
        Elementary::Ln(x) => fl(num(x).ln()),
        Elementary::Sin(x) => fl(num(x).sin()),
        Elementary::Cos(x) => fl(num(x).cos()),
        Elementary::Pow(x, y) => fl(num(x).powf(num(y))),
    }
}

#[derive(Debug, Clone, Copy, PartialEq)]
struct FisherSnedecorNoncentral(cdflib::dist::FisherSnedecorNoncentral);

#[allow(dead_code)]
impl FisherSnedecorNoncentral {
    fn new(dfn: f64, dfd: f64, ncp: f64) -> Self {
        Self::try_new(dfn, dfd, ncp).unwrap()
    }
    fn try_new(dfn: f64, dfd: f64, ncp: f64) -> Result<Self, FisherSnedecorNoncentralError> {
        let dist = cdflib::dist::FisherSnedecorNoncentral::try_new(fl(dfn), fl(dfd), fl(ncp))?;
        assert_eq!(dist, cdflib::dist::FisherSnedecorNoncentral::new(fl(dfn), fl(dfd), fl(ncp)));
        Ok(Self(dist))
    }
    fn dfn(&self) -> f64 {
        num(self.0.dfn())
    }
    fn dfd(&self) -> f64 {
        num(self.0.dfd())
    }
    fn ncp(&self) -> f64 {
        num(self.0.ncp())
    }
    fn search_dfn(p: f64, f: f64, dfd: f64, ncp: f64) -> Result<f64, FisherSnedecorNoncentralError> {
        cdflib::dist::FisherSnedecorNoncentral::search_dfn(&libm, fl(p), fl(f), fl(dfd), fl(ncp)).map(num)
    }
    fn search_dfd(p: f64, f: f64, dfn: f64, ncp: f64) -> Result<f64, FisherSnedecorNoncentralError> {
        cdflib::dist::FisherSnedecorNoncentral::search_dfd(&libm, fl(p), fl(f), fl(dfn), fl(ncp)).map(num)
    }
    fn search_ncp(p: f64, f: f64, dfn: f64, dfd: f64) -> Result<f64, FisherSnedecorNoncentralError> {
        cdflib::dist::FisherSnedecorNoncentral::search_ncp(&libm, fl(p), fl(f), fl(dfn), fl(dfd)).map(num)
    }
    fn solve_dfn(p: f64, f: f64, dfd: f64, ncp: f64) -> Result<f64, FisherSnedecorNoncentralError> {
        cdflib::dist::FisherSnedecorNoncentral::solve_dfn(&libm, fl(p), fl(f), fl(dfd), fl(ncp)).map(num)
    }
    fn solve_dfd(p: f64, f: f64, dfn: f64, ncp: f64) -> Result<f64, FisherSnedecorNoncentralError> {
        cdflib::dist::FisherSnedecorNoncentral::solve_dfd(&libm, fl(p), fl(f), fl(dfn), fl(ncp)).map(num)
    }
    fn solve_ncp(p: f64, f: f64, dfn: f64, dfd: f64) -> Result<f64, FisherSnedecorNoncentralError> {
        cdflib::dist::FisherSnedecorNoncentral::solve_ncp(&libm, fl(p), fl(f), fl(dfn), fl(dfd)).map(num)
    }
    fn cdf(&self, x: f64) -> f64 {
        num(cdflib::traits::ContinuousCdf::cdf(&self.0, &libm, fl(x)))
    }
    fn ccdf(&self, x: f64) -> f64 {
        num(cdflib::traits::ContinuousCdf::ccdf(&self.0, &libm, fl(x)))
    }
    fn sf(&self, x: f64) -> f64 {
        num(cdflib::traits::ContinuousCdf::sf(&self.0, &libm, fl(x)))
    }
    fn inverse_cdf(&self, p: f64) -> Result<f64, FisherSnedecorNoncentralError> {
        cdflib::traits::ContinuousCdf::inverse_cdf(&self.0, &libm, fl(p)).map(num)
    }
    fn inverse_sf(&self, q: f64) -> Result<f64, FisherSnedecorNoncentralError> {
        self.0.inverse_sf(&libm, fl(q)).map(num)
    }
    fn mean(&self) -> f64 {
        num(cdflib::traits::Mean::mean(&self.0))
    }
    fn variance(&self) -> f64 {
        num(cdflib::traits::Variance::variance(&self.0))
    }
    fn std_dev(&self) -> f64 {
        num(cdflib::traits::Variance::std_dev(&self.0))
    }
}

#[derive(Debug, Clone, Copy, PartialEq)]
struct NegativeBinomial(cdflib::dist::NegativeBinomial);

#[allow(dead_code)]
impl NegativeBinomial {
    fn new(r: u64, pr: f64) -> Self {
        Self::try_new(r, pr).unwrap()
    }
    fn try_new(r: u64, pr: f64) -> Result<Self, NegativeBinomialError> {
        let dist = cdflib::dist::NegativeBinomial::try_new(r, fl(pr))?;
        assert_eq!(dist, cdflib::dist::NegativeBinomial::new(r, fl(pr)));
        Ok(Self(dist))
    }
    fn r(&self) -> u64 {
        self.0.r()
    }
    fn pr(&self) -> f64 {
        num(self.0.pr())
    }
    fn solve_r(p: f64, pr: f64, s: u64) -> Result<f64, NegativeBinomialError> {
        cdflib::dist::NegativeBinomial::solve_r(&libm, fl(p), fl(pr), s).map(num)
    }
    fn solve_trials(p: f64, pr: f64, s: u64) -> Result<f64, NegativeBinomialError> {
        cdflib::dist::NegativeBinomial::solve_trials(&libm, fl(p), fl(pr), s).map(num)
    }
    fn solve_pr(p: f64, r: u64, s: u64) -> Result<f64, NegativeBinomialError> {
        cdflib::dist::NegativeBinomial::solve_pr(&libm, fl(p), r, s).map(num)
    }
    fn cdf(&self, x: u64) -> f64 {
        num(cdflib::traits::DiscreteCdf::cdf(&self.0, &libm, x))
    }
    fn ccdf(&self, x: u64) -> f64 {
        num(cdflib::traits::DiscreteCdf::ccdf(&self.0, &libm, x))
    }
    fn sf(&self, x: u64) -> f64 {
        num(cdflib::traits::DiscreteCdf::sf(&self.0, &libm, x))
    }
    fn inverse_cdf(&self, p: f64) -> Result<u64, NegativeBinomialError> {
        cdflib::traits::DiscreteCdf::inverse_cdf(&self.0, &libm, fl(p))
    }
    fn inverse_sf(&self, q: f64) -> Result<u64, NegativeBinomialError> {
        self.0.inverse_sf(&libm, fl(q))
    }
    fn pmf(&self, x: u64) -> f64 {
        num(cdflib::traits::Discrete::pmf(&self.0, &libm, x))
    }
    fn ln_pmf(&self, x: u64) -> f64 {
        num(cdflib::traits::Discrete::ln_pmf(&self.0, &libm, x))
    }
    fn mean(&self) -> f64 {
        num(cdflib::traits::Mean::mean(&self.0))
    }
    fn variance(&self) -> f64 {
        num(cdflib::traits::Variance::variance(&self.0))
    }
    fn std_dev(&self) -> f64 {
        num(cdflib::traits::Variance::std_dev(&self.0))
    }
}

#[derive(Debug, Clone, Copy, PartialEq)]
struct Poisson(cdflib::dist::Poisson);

#[allow(dead_code)]
impl Poisson {
    fn new(lambda: f64) -> Self {
        Self::try_new(lambda).unwrap()
    }
    fn try_new(lambda: f64) -> Result<Self, PoissonError> {
        let dist = cdflib::dist::Poisson::try_new(fl(lambda))?;
        assert_eq!(dist, cdflib::dist::Poisson::new(fl(lambda)));
        Ok(Self(dist))
    }
    fn lambda(&self) -> f64 {
        num(self.0.lambda())
    }
    fn search_lambda(p: f64, q: f64, s: u64) -> Result<f64, PoissonError> {
        cdflib::dist::Poisson::search_lambda(&libm, fl(p), fl(q), s).map(num)
    }
    fn solve_lambda(p: f64, s: u64) -> Result<f64, PoissonError> {
        cdflib::dist::Poisson::solve_lambda(&libm, fl(p), s).map(num)
    }
    fn cdf(&self, x: u64) -> f64 {
        num(cdflib::traits::DiscreteCdf::cdf(&self.0, &libm, x))
    }
    fn ccdf(&self, x: u64) -> f64 {
        num(cdflib::traits::DiscreteCdf::ccdf(&self.0, &libm, x))
    }
    fn sf(&self, x: u64) -> f64 {
        num(cdflib::traits::DiscreteCdf::sf(&self.0, &libm, x))
    }
    fn inverse_cdf(&self, p: f64) -> Result<u64, PoissonError> {
        cdflib::traits::DiscreteCdf::inverse_cdf(&self.0, &libm, fl(p))
    }
    fn inverse_sf(&self, q: f64) -> Result<u64, PoissonError> {
        self.0.inverse_sf(&libm, fl(q))
    }
    fn inverse_ccdf(&self, q: f64) -> Result<f64, PoissonError> {
        self.0.inverse_ccdf(&libm, fl(q)).map(num)
    }
    fn pmf(&self, x: u64) -> f64 {
        num(cdflib::traits::Discrete::pmf(&self.0, &libm, x))
    }
    fn ln_pmf(&self, x: u64) -> f64 {
        num(cdflib::traits::Discrete::ln_pmf(&self.0, &libm, x))
    }
    fn mean(&self) -> f64 {
        num(cdflib::traits::Mean::mean(&self.0))
    }
    fn variance(&self) -> f64 {
        num(cdflib::traits::Variance::variance(&self.0))
    }
    fn std_dev(&self) -> f64 {
        num(cdflib::traits::Variance::std_dev(&self.0))
    }
}

#[allow(dead_code)]
fn apser(a: f64, b: f64, x: f64, eps: f64) -> f64 {
    num(cdflib::special::beta_inc::apser(&libm, fl(a), fl(b), fl(x), fl(eps)))
}

#[allow(dead_code)]
fn beta_grat(a: f64, b: f64, x: f64, y: f64, w: f64, eps: f64) -> Result<f64, BetaGratError> {
    cdflib::special::beta_inc::beta_grat(&libm, fl(a), fl(b), fl(x), fl(y), fl(w), fl(eps)).map(num)
}

#[allow(dead_code)]
fn beta_inc(a: f64, b: f64, x: f64, y: f64) -> (f64, f64) {
    if a.is_nan() || b.is_nan() || x.is_nan() || y.is_nan() {
        return (f64::NAN, f64::NAN);
    }
    match try_beta_inc(a, b, x, y) {
        Ok(_) => pair(cdflib::special::beta_inc::beta_inc(&libm, fl(a), fl(b), fl(x), fl(y))),
        Err(e) => panic!("beta_inc({a}, {b}, {x}, {y}): {e:?}"),
    }
}

#[allow(dead_code)]
fn beta_rcomp(a: f64, b: f64, x: f64, y: f64) -> f64 {
    num(cdflib::special::beta::beta_rcomp(&libm, fl(a), fl(b), fl(x), fl(y)))
}

#[allow(dead_code)]
fn beta_rcomp1(mu: i32, a: f64, b: f64, x: f64, y: f64) -> f64 {
    num(cdflib::special::beta::beta_rcomp1(&libm, mu, fl(a), fl(b), fl(x), fl(y)))
}

#[allow(dead_code)]
fn beta_up(a: f64, b: f64, x: f64, y: f64, n: i32, eps: f64) -> f64 {
    num(cdflib::special::beta_inc::beta_up(&libm, fl(a), fl(b), fl(x), fl(y), n, fl(eps)))
}

#[allow(dead_code)]
fn fpser(a: f64, b: f64, x: f64, eps: f64) -> f64 {
    num(cdflib::special::beta_inc::fpser(&libm, fl(a), fl(b), fl(x), fl(eps)))
}

#[allow(dead_code)]
fn gam1(a: f64) -> f64 {
    num(cdflib::special::gamma::gam1(fl(a)))
}

#[allow(dead_code)]
fn gamma(a: f64) -> f64 {
    if a.is_nan() {
        return f64::NAN;
    }
    match try_gamma(a) {
        Ok(_) => num(cdflib::special::gamma::gamma(&libm, fl(a))),
        Err(e) => panic!("gamma({a}): {e:?}"),
    }
}

#[allow(dead_code)]
fn gamma_inc(a: f64, x: f64) -> (f64, f64) {
    if a.is_nan() || x.is_nan() {
        return (f64::NAN, f64::NAN);
    }
    match try_gamma_inc(a, x) {
        Ok(_) => pair(cdflib::special::gamma_inc::gamma_inc(&libm, fl(a), fl(x))),
        Err(e) => panic!("gamma_inc({a}, {x}): {e:?}"),
    }
}

#[allow(dead_code)]
fn gamma_inc_inv(a: f64, x0: f64, p: f64, q: f64) -> (f64, u32) {
    if a.is_nan() || x0.is_nan() || p.is_nan() || q.is_nan() {
        return (f64::NAN, 0);
    }
    match try_gamma_inc_inv(a, x0, p, q) {
        Ok(_) => {
            let r = cdflib::special::gamma_inv::gamma_inc_inv(&libm, fl(a), fl(x0), fl(p), fl(q));
            (num(r.0), r.1)
        }
        Err(e) => panic!("gamma_inc_inv({a}, {x0}, {p}, {q}): {e:?}"),
    }
}

#[allow(dead_code)]
fn gamma_log(a: f64) -> f64 {
    num(cdflib::special::gamma::gamma_log(&libm, fl(a)))
}

#[allow(dead_code)]
fn gamma_rat1(a: f64, x: f64, r: f64, eps: f64) -> (f64, f64) {
    pair(cdflib::special::beta_inc::gamma_rat1(&libm, fl(a), fl(x), fl(r), fl(eps)))
}

#[allow(dead_code)]
fn psi(x: f64) -> f64 {
    if x.is_nan() {
        return f64::NAN;
    }
    match try_psi(x) {
        Ok(_) => num(cdflib::special::gamma::psi(&libm, fl(x))),
        Err(PsiError::Pole(v)) => panic!("psi({x}): ψ has a pole at {}", num(v)),
        Err(e) => panic!("psi({x}): {e:?}"),
    }
}

#[allow(dead_code)]
fn rcomp(a: f64, x: f64) -> f64 {
    num(cdflib::special::gamma::rcomp(&libm, fl(a), fl(x)))
}

#[allow(dead_code)]
fn rexp(x: f64) -> f64 {
    num(cdflib::special::gamma::rexp(&libm, fl(x)))
}

#[allow(dead_code)]
fn try_beta_inc(a: f64, b: f64, x: f64, y: f64) -> Result<(f64, f64), BetaIncError> {
    cdflib::special::beta_inc::try_beta_inc(&libm, fl(a), fl(b), fl(x), fl(y)).map(pair)
}

#[allow(dead_code)]
fn try_gamma(a: f64) -> Result<f64, GammaDomainError> {
    cdflib::special::gamma::try_gamma(&libm, fl(a)).map(num)
}

#[allow(dead_code)]
fn try_gamma_inc(a: f64, x: f64) -> Result<(f64, f64), GammaIncError> {
    cdflib::special::gamma_inc::try_gamma_inc(&libm, fl(a), fl(x)).map(pair)
}

#[allow(dead_code)]
fn try_gamma_inc_inv(a: f64, x0: f64, p: f64, q: f64) -> Result<(f64, u32), GammaIncInvError> {
    cdflib::special::gamma_inv::try_gamma_inc_inv(&libm, fl(a), fl(x0), fl(p), fl(q)).map(|r| (num(r.0), r.1))
}

#[allow(dead_code)]
fn try_psi(x: f64) -> Result<f64, PsiError> {
    cdflib::special::gamma::try_psi(&libm, fl(x)).map(num)
}

#[allow(dead_code)]
const DEFAULT_REL_TOL: f64 = 1e-14;
#[allow(dead_code)]
const DEFAULT_ABS_TOL: f64 = 1e-300;
#[allow(dead_code)]
const INVERSE_REL_TOL: f64 = 5e-8;
#[allow(dead_code)]
const CHAINED_INVERSE_REL_TOL: f64 = 5e-7;

#[allow(dead_code)]
fn assert_close(got: f64, expected: f64) {
    assert_close_eps(got, expected, DEFAULT_REL_TOL, DEFAULT_ABS_TOL);
}

#[allow(dead_code)]
fn assert_close_eps(got: f64, expected: f64, rel_tol: f64, abs_tol: f64) {
    if got.is_nan() || expected.is_nan() {
        assert!(got.is_nan() && expected.is_nan(), "NaN mismatch: got {got}, expected {expected}");
        return;
    }
    if got.is_infinite() || expected.is_infinite() {
        assert_eq!(got, expected, "infinity mismatch: got {got}, expected {expected}");
        return;
    }
    let diff = (got - expected).abs();
    if diff <= abs_tol {
        return;
    }
    let scale = got.abs().max(expected.abs());
    let rel = if scale == 0.0 { 0.0 } else { diff / scale };
    assert!(rel <= rel_tol, "got {got}, expected {expected}, rel diff {rel}");
}

#[test]
fn rexp_large_positive_and_negative() {
    let pos = rexp(0.5);
    assert!((pos - (0.5_f64.exp() - 1.0)).abs() < 1e-13);

    let neg = rexp(-0.5);
    assert!((neg - ((-0.5_f64).exp() - 1.0)).abs() < 1e-13);
}

#[test]
fn gam1_above_one_and_negative() {
    let g_big = gam1(1.2);
    let expected_big = 1.0 / gamma(2.2) - 1.0;
    assert!((g_big - expected_big).abs() < 1e-12, "gam1(1.2) = {g_big}");
    let g_neg = gam1(-0.3);
    let expected_neg = 1.0 / gamma(0.7) - 1.0;
    assert!(
        (g_neg - expected_neg).abs() < 1e-12,
        "gam1(-0.3) = {g_neg}, want {expected_neg}"
    );
}

#[test]
fn gamma_negative_argument_and_overflow_paths() {
    let g_307 = gamma(-15.95);
    assert!(g_307.is_finite() && g_307 != 0.0, "g_307 = {g_307}");
    assert_eq!(try_gamma(-20.0), Err(GammaDomainError::Pole(fl(-20.0))));
    assert_eq!(try_gamma(-25.0), Err(GammaDomainError::Pole(fl(-25.0))));
    assert_eq!(try_gamma(-2.0), Err(GammaDomainError::Pole(fl(-2.0))));
    assert_eq!(try_gamma(-5.0), Err(GammaDomainError::Pole(fl(-5.0))));
    assert_eq!(try_gamma(-200.7), Err(GammaDomainError::Overflow(fl(-200.7))));
    assert_eq!(try_gamma(200.0), Err(GammaDomainError::Overflow(fl(200.0))));
}

#[test]
fn psi_reflection_and_overflow_branches() {
    assert_eq!(try_psi(0.0), Err(PsiError::Pole(fl(0.0))));
    let small = 1e-12;
    let p_small = psi(small);
    assert!(
        (p_small + 1.0 / small).abs() < 1.0,
        "psi(1e-12) = {p_small}"
    );
    let p462 = psi(-0.6);
    assert!(p462.is_finite());
    assert_eq!(try_psi(-2.0), Err(PsiError::Pole(fl(-2.0))));
    assert_eq!(try_psi(-3.0), Err(PsiError::Pole(fl(-3.0))));
    assert_eq!(try_psi(-1e20), Err(PsiError::Overflow(fl(-1e20))));
    let big = 1e20_f64;
    let p_big = psi(big);
    assert!((p_big - big.ln()).abs() < 1.0, "psi(1e20) = {p_big}");
}

#[test]
#[should_panic(expected = "psi(0): ψ has a pole at 0")]
fn psi_panics_on_pole() {
    let _ = psi(0.0);
}

#[test]
fn rcomp_branches() {
    let r1 = rcomp(0.5, 1.0);
    assert!(r1.is_finite() && r1 > 0.0);
    let r2 = rcomp(5.0, 3.0);
    assert!(r2.is_finite() && r2 > 0.0);
    let r3 = rcomp(50.0, 50.0);
    assert!(r3.is_finite() && r3 > 0.0);
    let r4 = rcomp(1e20, f64::MIN_POSITIVE);
    assert_eq!(r4, 0.0);
}

#[test]
fn gamma_inc_taylor_qans_negative_branch() {
    let (p, q) = gamma_inc(0.99, 1.0e-8);
    assert!(p.is_finite() && q.is_finite());
    assert!((p + q - 1.0).abs() < 1e-10);
}

#[test]
fn gamma_inc_temme_indeterminate_sentinel() {
    assert!(matches!(
        try_gamma_inc(1e30, 1e30),
        Err(GammaIncError::Indeterminate { .. })
    ));
}

#[test]
fn fpser_full_body() {
    let eps = f64::EPSILON.max(1e-15);
    let r = fpser(2.0, 0.1, 0.1, eps);
    assert!(r.is_finite() && r > 0.0, "fpser(2, 0.1, 0.1) = {r}");
    let r2 = fpser(1e-20, 1.0, 0.5, eps);
    assert!(r2.is_finite());
}

#[test]
fn apser_large_b_eps_else_branch() {
    let r = apser(1e-15, 5.0, 0.05, 0.1);
    assert!(r.is_finite());
}

#[test]
fn beta_rcomp_degenerate_and_small_branches() {
    assert_eq!(beta_rcomp(2.0, 3.0, 0.0, 1.0), 0.0);
    assert_eq!(beta_rcomp(2.0, 3.0, 1.0, 0.0), 0.0);
    let r1 = beta_rcomp(2.0, 5.0, 0.8, 0.2);
    assert!(r1.is_finite() && r1 > 0.0);
    let r2 = beta_rcomp(2.0, 3.0, 0.4, 0.6);
    assert!(r2.is_finite() && r2 > 0.0);
    let r3 = beta_rcomp(0.5, 3.5, 0.3, 0.7);
    assert!(r3.is_finite() && r3 > 0.0);
    let r4 = beta_rcomp(0.4, 0.8, 0.3, 0.7);
    assert!(r4.is_finite() && r4 > 0.0);
}

#[test]
fn gamma_rat1_branches() {
    let eps = f64::EPSILON.max(1e-15);
    let (p, q) = gamma_rat1(0.0, 1.0, 1.0, eps);
    assert_eq!((p, q), (1.0, 0.0));
    let (p, q) = gamma_rat1(1.0, 0.0, 1.0, eps);
    assert_eq!((p, q), (0.0, 1.0));
    let (p, q) = gamma_rat1(0.5, 0.1, 0.0, eps);
    assert!(p.is_finite() && q.is_finite() && (p + q - 1.0).abs() < 1e-12);
    let (p, q) = gamma_rat1(0.5, 0.5, 0.0, eps);
    assert!((p + q - 1.0).abs() < 1e-12);
    let (p, q) = gamma_rat1(0.05, 0.3, 0.0, eps);
    assert!((p + q - 1.0).abs() < 1e-10);
    let (p, q) = gamma_rat1(0.7, 2.0, 1.0, eps);
    assert!((p + q - 1.0).abs() < 1e-10);
}

#[test]
fn beta_rcomp1_branches() {
    let r1 = beta_rcomp1(0, 10.0, 12.0, 0.45, 0.55);
    let r1_ref = beta_rcomp(10.0, 12.0, 0.45, 0.55);
    assert!(r1.is_finite() && (r1 - r1_ref).abs() / r1_ref.abs() < 1e-12);
    let r2 = beta_rcomp1(0, 15.0, 10.0, 0.6, 0.4);
    let r2_ref = beta_rcomp(15.0, 10.0, 0.6, 0.4);
    assert!(r2.is_finite() && (r2 - r2_ref).abs() / r2_ref.abs() < 1e-12);
    let r_467 = beta_rcomp1(0, 10.0, 12.0, 0.1, 0.9);
    assert!(r_467.is_finite() && r_467 > 0.0);
    let r_474 = beta_rcomp1(0, 15.0, 8.0, 0.95, 0.05);
    assert!(r_474.is_finite() && r_474 > 0.0);
    let r3 = beta_rcomp1(0, 0.5, 12.0, 0.3, 0.7);
    let r3_ref = beta_rcomp(0.5, 12.0, 0.3, 0.7);
    assert!(r3.is_finite() && (r3 - r3_ref).abs() / r3_ref.abs() < 1e-12);
    let r_528 = beta_rcomp1(0, 0.5, 0.7, 0.4, 0.6);
    assert!(r_528.is_finite() && r_528 > 0.0);
    let r_underflow = beta_rcomp1(-800, 0.5, 0.5, 0.4, 0.6);
    assert_eq!(r_underflow, 0.0);
}

#[test]
fn beta_up_b_gt_1_branches() {
    let eps = f64::EPSILON.max(1e-15);
    let r = beta_up(2.0, 3.0, 0.4, 0.6, 10, eps);
    assert!(r.is_finite() && r > 0.0);
    let r2 = beta_up(2.0, 3.0, 0.99999, 1e-5, 5, eps);
    assert!(r2.is_finite());
}

#[test]
fn beta_grat_overflow_sentinel() {
    let eps = f64::EPSILON.max(1e-15);
    assert_eq!(
        beta_grat(20.0, 0.0, 0.5, 0.5, 0.0, eps),
        Err(BetaGratError::BzZero)
    );
    let w2 = beta_grat(100.0, 0.5, 0.5, 0.5, 0.0, eps).unwrap();
    assert!(w2.is_finite());
}

#[test]
fn beta_inc_fpser_apser_dispatch() {
    let (w, w1) = beta_inc(5.0, 1e-17, 0.5, 0.5);
    assert!((w + w1 - 1.0).abs() < 1e-10);
    let (w, w1) = beta_inc(1e-17, 5.0, 0.05, 0.95);
    assert!((w + w1 - 1.0).abs() < 1e-10);
}

#[test]
fn poisson_inverse_cdf_high_quantile() {
    let d = Poisson::new(4.0);
    let p = 1.0 - 1e-12;
    let s = d.inverse_cdf(p).unwrap();
    assert!(d.cdf(s) >= p);
    assert!(s > 0 && s < 100);
}

#[test]
fn negative_binomial_inverse_cdf_high_quantile() {
    let d = NegativeBinomial::new(5, 0.05);
    let p = 1.0 - 1e-10;
    let s = d.inverse_cdf(p).unwrap();
    assert!(d.cdf(s) >= p);
}

#[test]
fn fisher_snedecor_noncentral_pdf_basic() {
    let d = FisherSnedecorNoncentral::new(4.0, 8.0, 2.5);
    let x = 1.0;
    let c = d.cdf(x);
    assert!(c.is_finite() && (0.0..=1.0).contains(&c));
}

#[test]
fn gamma_log_does_not_regress() {
    let v = gamma_log(50.0);
    assert!((v - 144.56574394634488).abs() < 1e-10);
}

#[test]
fn gamma_inc_inv_small_a_label_30_early_return() {
    let q = 1.0e-29;
    let p = 1.0 - q;
    let (r, _) = gamma_inc_inv(0.5, -1.0, p, q);
    assert!(r.is_finite() && r > 0.0);
}

#[test]
fn gamma_inc_inv_amin_early_return() {
    let (r, _) = gamma_inc_inv(1.0e7, -1.0, 0.5, 0.5);
    assert!(r.is_finite() && r > 0.0);
    assert!((r - 1.0e7).abs() < 1.0);
}

#[test]
fn gamma_inc_inv_initial_approx_small_b_bq_branch() {
    let r = try_gamma_inc_inv(1.0e-9, -1.0, 1.0 - 1.0e-9, 1.0e-9);
    match r {
        Ok((x, _iters)) => assert!(x.is_finite() && x > 0.0),
        Err(GammaIncInvError::NoSolution)
        | Err(GammaIncInvError::IterationFailed)
        | Err(GammaIncInvError::UncertainAccuracy { .. }) => {}
        Err(e) => panic!("unexpected error {e:?}"),
    }
}

#[test]
fn gamma_inc_inv_schroder_p_subnormal_p() {
    let p = 1.0e-300;
    let q = 1.0;
    let r = try_gamma_inc_inv(2.0, 1.0, p, q);
    assert!(matches!(r, Err(GammaIncInvError::UncertainAccuracy { .. })));
}

#[test]
fn gamma_inc_inv_schroder_q_subnormal_q() {
    let q = 1.0e-300;
    let p = 1.0;
    let r = try_gamma_inc_inv(2.0, 1.0, p, q);
    assert!(matches!(r, Err(GammaIncInvError::UncertainAccuracy { .. })));
}

#[test]
fn gamma_inc_inv_schroder_p_amax_certify_fail() {
    let a = 1.0e25;
    let r = try_gamma_inc_inv(a, a, 0.5, 0.5);
    assert!(matches!(r, Err(GammaIncInvError::UncertainAccuracy { .. })));
}

#[test]
fn gamma_inc_inv_schroder_q_amax_certify_fail() {
    let a = 1.0e25;
    let r = try_gamma_inc_inv(a, a, 0.7, 0.3);
    assert!(matches!(r, Err(GammaIncInvError::UncertainAccuracy { .. })));
}

#[test]
fn gamma_inc_inv_schroder_p_saturates_to_zero() {
    let r = try_gamma_inc_inv(10.0, 1.0e-100, 0.1, 0.9);
    assert!(matches!(r, Err(GammaIncInvError::UncertainAccuracy { .. })));
}

#[test]
fn gamma_inc_inv_schroder_q_saturates_to_zero() {
    let r = try_gamma_inc_inv(10.0, 1.0e10, 0.9, 0.1);
    assert!(matches!(r, Err(GammaIncInvError::UncertainAccuracy { .. })));
}

#[test]
fn gamma_inc_inv_schroder_p_first_order_negative() {
    let r = try_gamma_inc_inv(2.0, 10.0, 0.01, 0.99);
    assert!(matches!(r, Err(GammaIncInvError::IterationFailed)));
}

#[test]
fn gamma_inc_inv_schroder_q_first_order_negative() {
    let r = try_gamma_inc_inv(2.0, 0.01, 0.99, 0.01);
    assert!(matches!(r, Err(GammaIncInvError::IterationFailed)));
}
