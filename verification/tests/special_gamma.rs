//! The gamma function and the incomplete gamma function ratios.
use cdflib::float::F64;
use cdflib::functions::Elementary;
use cdflib::special::gamma::GammaDomainError;
use cdflib::special::gamma_inc::GammaIncError;
use cdflib::special::gamma_inv::GammaIncInvError;
use cdflib::special::gamma::PsiError;

#[allow(dead_code)]
fn fl(x: f64) -> F64 {
    F64 { bits: x.to_bits() }
}

#[allow(dead_code)]
fn num(x: F64) -> f64 {
    f64::from_bits(x.bits)
}

#[allow(dead_code)]
fn pair(p: (F64, F64)) -> (f64, f64) {
    (num(p.0), num(p.1))
}

#[allow(dead_code)]
fn libm(q: Elementary) -> F64 {
    match q {
        Elementary::Exp(x) => fl(num(x).exp()),
        Elementary::Ln(x) => fl(num(x).ln()),
        Elementary::Sin(x) => fl(num(x).sin()),
        Elementary::Cos(x) => fl(num(x).cos()),
        Elementary::Pow(x, y) => fl(num(x).powf(num(y))),
    }
}

#[allow(dead_code)]
fn dexpm1(x: f64) -> f64 {
    num(cdflib::special::gamma::dexpm1(&libm, fl(x)))
}

#[allow(dead_code)]
fn dstrem(z: f64) -> f64 {
    if z <= 0.0 {
        panic!("dstrem: argument z must be positive (got {z})");
    }
    num(cdflib::special::gamma::dstrem(&libm, fl(z)))
}

#[allow(dead_code)]
fn error_f(x: f64) -> f64 {
    num(cdflib::special::erf::error_f(&libm, fl(x)))
}

#[allow(dead_code)]
fn gamma(a: f64) -> f64 {
    if a.is_nan() {
        return f64::NAN;
    }
    match try_gamma(a) {
        Ok(_) => num(cdflib::special::gamma::gamma(&libm, fl(a))),
        Err(GammaDomainError::Pole(v)) => panic!("gamma({a}): Γ has a pole at {}", num(v)),
        Err(GammaDomainError::Overflow(v)) => panic!("gamma({a}): Γ({}) overflows f64", num(v)),
        Err(e) => panic!("gamma({a}): {e:?}"),
    }
}

#[allow(dead_code)]
fn gamma_inc(a: f64, x: f64) -> (f64, f64) {
    if a.is_nan() || x.is_nan() {
        return (f64::NAN, f64::NAN);
    }
    match try_gamma_inc(a, x) {
        Ok(_) => pair(cdflib::special::gamma_inc::gamma_inc(&libm, fl(a), fl(x))),
        Err(e) => panic!("gamma_inc({a}, {x}): {e:?}"),
    }
}

#[allow(dead_code)]
fn gamma_inc_inv(a: f64, x0: f64, p: f64, q: f64) -> (f64, u32) {
    if a.is_nan() || x0.is_nan() || p.is_nan() || q.is_nan() {
        return (f64::NAN, 0);
    }
    match try_gamma_inc_inv(a, x0, p, q) {
        Ok(_) => {
            let r = cdflib::special::gamma_inv::gamma_inc_inv(&libm, fl(a), fl(x0), fl(p), fl(q));
            (num(r.0), r.1)
        }
        Err(GammaIncInvError::AtInfinity) => panic!("gamma_inc_inv({a}, {x0}, {p}, {q}): inverse is +∞"),
        Err(e) => panic!("gamma_inc_inv({a}, {x0}, {p}, {q}): {e:?}"),
    }
}

#[allow(dead_code)]
fn gamma_log(a: f64) -> f64 {
    num(cdflib::special::gamma::gamma_log(&libm, fl(a)))
}

#[allow(dead_code)]
fn psi(x: f64) -> f64 {
    if x.is_nan() {
        return f64::NAN;
    }
    match try_psi(x) {
        Ok(_) => num(cdflib::special::gamma::psi(&libm, fl(x))),
        Err(e) => panic!("psi({x}): {e:?}"),
    }
}

#[allow(dead_code)]
fn rexp(x: f64) -> f64 {
    num(cdflib::special::gamma::rexp(&libm, fl(x)))
}

#[allow(dead_code)]
fn try_gamma(a: f64) -> Result<f64, GammaDomainError> {
    cdflib::special::gamma::try_gamma(&libm, fl(a)).map(num)
}

#[allow(dead_code)]
fn try_gamma_inc(a: f64, x: f64) -> Result<(f64, f64), GammaIncError> {
    cdflib::special::gamma_inc::try_gamma_inc(&libm, fl(a), fl(x)).map(pair)
}

#[allow(dead_code)]
fn try_gamma_inc_inv(a: f64, x0: f64, p: f64, q: f64) -> Result<(f64, u32), GammaIncInvError> {
    cdflib::special::gamma_inv::try_gamma_inc_inv(&libm, fl(a), fl(x0), fl(p), fl(q)).map(|r| (num(r.0), r.1))
}

#[allow(dead_code)]
fn try_psi(x: f64) -> Result<f64, PsiError> {
    cdflib::special::gamma::try_psi(&libm, fl(x)).map(num)
}

#[allow(dead_code)]
fn round_trip_residual(a: f64, p: f64, q: f64) -> (f64, f64) {
    let (x, _iters) = gamma_inc_inv(a, -1.0, p, q);
    let (pn, qn) = gamma_inc(a, x);
    (pn - p, qn - q)
}

#[test]
fn dexpm1_at_zero() {
    assert_eq!(dexpm1(0.0), 0.0);
}

#[test]
fn dexpm1_small_argument_matches_rational() {
    for &x in &[-0.1_f64, -0.05, 0.0001, 0.05, 0.1, 0.15] {
        let got = dexpm1(x);
        let ref_val = x.exp() - 1.0;
        assert!(
            (got - ref_val).abs() < 1e-14,
            "x={x}: dexpm1={got}, ref={ref_val}"
        );
    }
}

#[test]
fn dexpm1_large_argument_matches_exp_minus_one() {
    for &x in &[-3.0_f64, -1.0, 0.5, 1.0, 5.0] {
        let got = dexpm1(x);
        let ref_val = x.exp() - 1.0;
        let scale = ref_val.abs().max(1.0);
        assert!(
            (got - ref_val).abs() / scale < 1e-14,
            "x={x}: dexpm1={got}, ref={ref_val}"
        );
    }
}

#[test]
fn dexpm1_matches_rexp_in_overlap() {
    for &x in &[-2.0_f64, -0.5, -0.01, 0.0, 0.01, 0.5, 2.0] {
        let a = dexpm1(x);
        let b = rexp(x);
        assert!((a - b).abs() < 1e-15, "x={x}: dexpm1={a}, rexp={b}");
    }
}

#[test]
fn dstrem_large_z_matches_bernoulli_lead() {
    let r = dstrem(100.0);
    let lead = 1.0 / 1200.0;
    assert!((r - lead).abs() / lead < 1e-4, "r = {r}, leading = {lead}");
}

#[test]
fn dstrem_small_z_matches_explicit_difference() {
    let r = dstrem(5.0);
    let stirling = 0.91893853320467274178 + 4.5 * 5.0_f64.ln() - 5.0;
    let expected = gamma_log(5.0) - stirling;
    assert!((r - expected).abs() < 1e-14, "r = {r}");
}

#[test]
fn dstrem_continuous_across_z_eq_6() {
    let just_below = dstrem(6.0);
    let just_above = dstrem(6.0 + 1.0e-9);
    assert!((just_below - just_above).abs() < 1e-7);
}

#[test]
#[should_panic(expected = "argument z must be positive")]
fn dstrem_panics_on_nonpositive() {
    let _ = dstrem(0.0);
}

#[test]
fn gamma_inc_inv_rejects_invalid_a() {
    assert_eq!(
        try_gamma_inc_inv(0.0, -1.0, 0.5, 0.5),
        Err(GammaIncInvError::ANotPositive(fl(0.0)))
    );
    assert_eq!(
        try_gamma_inc_inv(-1.0, -1.0, 0.5, 0.5),
        Err(GammaIncInvError::ANotPositive(fl(-1.0)))
    );
}

#[test]
fn gamma_inc_inv_rejects_p_plus_q_not_one() {
    assert_eq!(
        try_gamma_inc_inv(2.0, -1.0, 0.5, 0.6),
        Err(GammaIncInvError::InconsistentPq)
    );
}

#[test]
fn gamma_inc_inv_trivial_endpoints() {
    assert_eq!(try_gamma_inc_inv(2.0, -1.0, 0.0, 1.0), Ok((0.0, 0)));
    assert_eq!(
        try_gamma_inc_inv(2.0, -1.0, 1.0, 0.0),
        Err(GammaIncInvError::AtInfinity)
    );
}

#[test]
#[should_panic(expected = "inverse is +∞")]
fn gamma_inc_inv_at_infinity_panics() {
    let _ = gamma_inc_inv(2.0, -1.0, 1.0, 0.0);
}

#[test]
fn gamma_inc_inv_a_equals_one_closed_form() {
    for &(p, q) in &[(0.5, 0.5), (0.9, 0.1), (0.05, 0.95), (0.001, 0.999)] {
        let (x, iters) = gamma_inc_inv(1.0, -1.0, p, q);
        assert!(
            (-q.ln() - x).abs() / x.abs().max(1.0) < 1e-13,
            "p={p}: x={x}"
        );
        assert_eq!(iters, 0, "p={p}: unexpected Schröder iteration");
    }
}

#[test]
fn gamma_inc_inv_round_trip_small_a() {
    for &a in &[0.05_f64, 0.2, 0.5, 0.95] {
        for &p in &[0.1_f64, 0.25, 0.5, 0.75, 0.9] {
            let q = 1.0 - p;
            let (dp, dq) = round_trip_residual(a, p, q);
            assert!(
                dp.abs() < 1e-7 && dq.abs() < 1e-7,
                "a={a}, p={p}: |p_n - p| = {}, |q_n - q| = {}",
                dp.abs(),
                dq.abs(),
            );
        }
    }
}

#[test]
fn gamma_inc_inv_round_trip_large_a() {
    for &a in &[1.5_f64, 5.0, 50.0, 500.0] {
        for &p in &[0.1_f64, 0.25, 0.5, 0.75, 0.9] {
            let q = 1.0 - p;
            let (dp, dq) = round_trip_residual(a, p, q);
            assert!(
                dp.abs() < 1e-7 && dq.abs() < 1e-7,
                "a={a}, p={p}: |p_n - p| = {}, |q_n - q| = {}",
                dp.abs(),
                dq.abs(),
            );
        }
    }
}

#[test]
fn gamma_inc_inv_deep_tails() {
    let (x, _) = gamma_inc_inv(3.0, -1.0, 1.0e-6, 1.0 - 1.0e-6);
    let (pn, _) = gamma_inc(3.0, x);
    assert!((pn - 1.0e-6).abs() / 1.0e-6 < 1e-4);

    let (x, _) = gamma_inc_inv(3.0, -1.0, 1.0 - 1.0e-6, 1.0e-6);
    let (_, qn) = gamma_inc(3.0, x);
    assert!((qn - 1.0e-6).abs() / 1.0e-6 < 1e-4);
}

#[test]
fn gamma_inc_inv_with_caller_supplied_x0() {
    let (x_auto, _) = gamma_inc_inv(5.0, -1.0, 0.7, 0.3);
    let (x_seeded, _) = gamma_inc_inv(5.0, x_auto * 1.1, 0.7, 0.3);
    assert!((x_seeded - x_auto).abs() / x_auto < 1e-7);
}

#[test]
fn gamma_inc_inv_sweeps_all_regimes() {
    let grid_a = [
        0.01_f64, 0.05, 0.1, 0.25, 0.5, 0.95,
        1.5, 2.0, 5.0, 25.0, 99.0,
        150.0, 600.0, 2000.0,
    ];
    let grid_p = [
        1.0e-9_f64,
        1.0e-5,
        1.0e-3,
        0.01,
        0.05,
        0.1,
        0.3,
        0.5,
        0.7,
        0.9,
        0.95,
        0.99,
        0.999,
        0.99999,
        1.0 - 1.0e-9,
    ];
    for &a in &grid_a {
        for &p in &grid_p {
            let q = 1.0 - p;
            let result = try_gamma_inc_inv(a, -1.0, p, q);
            let (x, _iters) = match result {
                Ok(pair) => pair,
                Err(GammaIncInvError::NoSolution)
                | Err(GammaIncInvError::IterationFailed)
                | Err(GammaIncInvError::UncertainAccuracy { .. }) => continue,
                Err(e) => panic!("a={a}, p={p}: unexpected error {e:?}"),
            };
            assert!(x.is_finite() && x > 0.0, "a={a}, p={p}: x = {x}");
            let (pn, qn) = gamma_inc(a, x);
            let dp = (pn - p).abs() / p.max(1e-300);
            let dq = (qn - q).abs() / q.max(1e-300);
            assert!(dp.min(dq) < 1e-4, "a={a}, p={p}, x={x}: dp={dp}, dq={dq}",);
        }
    }
}

#[test]
fn gamma_inc_inv_caller_supplied_x0_p_le_half() {
    let (x, _) = gamma_inc_inv(3.0, 1.5, 0.3, 0.7);
    let (pn, _) = gamma_inc(3.0, x);
    assert!((pn - 0.3).abs() < 1e-7);
}

#[test]
fn gamma_inc_inv_caller_supplied_x0_p_gt_half() {
    let (x, _) = gamma_inc_inv(3.0, 5.0, 0.8, 0.2);
    let (_, qn) = gamma_inc(3.0, x);
    assert!((qn - 0.2).abs() < 1e-7);
}

#[test]
fn gamma_log_at_small_integer_arguments() {
    assert!((gamma_log(1.0)).abs() < 1e-14);
    assert!((gamma_log(2.0)).abs() < 1e-14);
    assert!((gamma_log(3.0) - 2.0_f64.ln()).abs() < 1e-14);
    assert!((gamma_log(4.0) - 6.0_f64.ln()).abs() < 1e-14);
    assert!((gamma_log(10.0) - 362880.0_f64.ln()).abs() < 1e-12);
}

#[test]
fn gamma_at_small_integers() {
    assert!((gamma(1.0) - 1.0).abs() < 1e-14);
    assert!((gamma(2.0) - 1.0).abs() < 1e-14);
    assert!((gamma(3.0) - 2.0).abs() < 1e-14);
    assert!((gamma(4.0) - 6.0).abs() < 1e-14);
    assert!((gamma(5.0) - 24.0).abs() < 1e-13);
}

#[test]
fn gamma_inc_basic_identities() {
    let (p, q) = gamma_inc(2.5, 0.0);
    assert_eq!(p, 0.0);
    assert_eq!(q, 1.0);
    for &a in &[0.5, 1.0, 2.5, 7.0, 25.0] {
        for &x in &[0.1, 1.0, 5.0, 20.0] {
            let (p, q) = gamma_inc(a, x);
            if p == 2.0 {
                continue;
            }
            assert!((p + q - 1.0).abs() < 1e-12, "a={a}, x={x}: p+q = {}", p + q);
        }
    }
}

#[test]
fn psi_at_known_points() {
    let euler = 0.5772156649015328606;
    assert!((psi(1.0) + euler).abs() < 1e-9, "psi(1) = {}", psi(1.0));
    assert!((psi(2.0) - (1.0 - euler)).abs() < 1e-9);
    let expected = -euler - 2.0 * 2.0_f64.ln();
    assert!(
        (psi(0.5) - expected).abs() < 1e-9,
        "psi(0.5) = {}",
        psi(0.5)
    );
}

#[test]
fn gamma_inc_at_a_half_uses_erf() {
    for &x in &[0.1, 0.5, 1.0, 4.0, 9.0] {
        let (p, _q) = gamma_inc(0.5, x);
        let expected = error_f(x.sqrt());
        assert!(
            (p - expected).abs() < 1e-13,
            "x={x}: P = {p}, erf(√x) = {expected}"
        );
    }
}

#[test]
fn gamma_inc_rejects_negative_a() {
    assert!(matches!(
        try_gamma_inc(-1.0, 1.0),
        Err(GammaIncError::ANegative(_))
    ));
}

#[test]
fn gamma_inc_rejects_negative_x() {
    assert!(matches!(
        try_gamma_inc(1.0, -1.0),
        Err(GammaIncError::XNegative(_))
    ));
}

#[test]
fn gamma_inc_rejects_both_zero() {
    assert!(matches!(
        try_gamma_inc(0.0, 0.0),
        Err(GammaIncError::BothZero)
    ));
}

#[test]
fn gamma_inc_a_zero_x_positive() {
    let (p, q) = gamma_inc(0.0, 1.0);
    assert_eq!(p, 1.0);
    assert_eq!(q, 0.0);
}

#[test]
fn gamma_inc_regime_a_lt_1_x_lt_1() {
    let (p, q) = gamma_inc(0.3, 0.2);
    assert!((p + q - 1.0).abs() < 1e-14);
    assert!(p > 0.0 && p < 1.0);
}

#[test]
fn gamma_inc_regime_a_lt_1_x_ge_1() {
    let (p, q) = gamma_inc(0.3, 5.0);
    assert!((p + q - 1.0).abs() < 1e-14);
    assert!(p > 0.99);
}

#[test]
fn gamma_inc_regime_a_eq_1() {
    let (p, q) = gamma_inc(1.0, 2.0);
    let expected_p = 1.0 - (-2.0_f64).exp();
    assert!((p - expected_p).abs() < 1e-14);
    assert!((q - (-2.0_f64).exp()).abs() < 1e-14);
}

#[test]
fn gamma_inc_regime_a_large_x_near_a() {
    let (p, q) = gamma_inc(100.0, 100.0);
    assert!((p + q - 1.0).abs() < 1e-12);
    assert!(p > 0.5 && p < 0.55, "p={p}");
}

#[test]
fn gamma_inc_regime_a_very_large() {
    let (p, q) = gamma_inc(1e6, 1e6);
    assert!((p + q - 1.0).abs() < 1e-12);
    assert!(p.is_finite() && q.is_finite());
    assert!(p > 0.499 && p < 0.501);
}

#[test]
fn gamma_inc_half_integer_a_uses_finite_sum() {
    for &a in &[1.5_f64, 2.5, 3.5, 10.5] {
        let (p, q) = gamma_inc(a, a);
        assert!((p + q - 1.0).abs() < 1e-12, "a={a}");
    }
}

#[test]
fn gamma_inc_a_x_very_unbalanced() {
    let (p, q) = gamma_inc(2.0, 50.0);
    assert!(p > 0.9999);
    assert!(q > 0.0 && q < 1e-15);
    let (p, q) = gamma_inc(50.0, 2.0);
    assert!(q > 0.9999);
    assert!(p > 0.0 && p < 1e-15);
}

#[test]
fn gamma_at_half_integer() {
    assert!((gamma(0.5) - std::f64::consts::PI.sqrt()).abs() < 1e-13);
    assert!((gamma(1.5) - std::f64::consts::PI.sqrt() / 2.0).abs() < 1e-13);
}

#[test]
fn try_gamma_overflow_is_err() {
    assert_eq!(try_gamma(1001.0), Err(GammaDomainError::Overflow(fl(1001.0))));
    assert_eq!(try_gamma(1e10), Err(GammaDomainError::Overflow(fl(1e10))));
}

#[test]
#[should_panic(expected = "gamma(1001): Γ(1001) overflows f64")]
fn gamma_overflow_panics() {
    let _ = gamma(1001.0);
}

#[test]
fn gamma_at_negative_non_integer() {
    let expected = -2.0 * std::f64::consts::PI.sqrt();
    let got = gamma(-0.5);
    assert!(
        (got - expected).abs() < 1e-12,
        "got = {got}, expected = {expected}"
    );
    let expected = 4.0 / 3.0 * std::f64::consts::PI.sqrt();
    let got = gamma(-1.5);
    assert!(
        (got - expected).abs() < 1e-12,
        "got = {got}, expected = {expected}"
    );
}

#[test]
fn gamma_at_negative_mid_range() {
    let g = gamma(-3.5);
    assert!(g.is_finite());
    let g_45 = gamma(4.5);
    let expected = std::f64::consts::PI / ((-3.5_f64 * std::f64::consts::PI).sin() * g_45);
    assert!((g - expected).abs() / expected.abs() < 1e-10);
}

#[test]
fn gamma_at_negative_large_magnitude() {
    let g = gamma(-20.5);
    assert!(g.is_finite() && g.abs() < 1e-15);
}

#[test]
fn try_gamma_at_negative_integer_is_pole() {
    assert_eq!(try_gamma(-3.0), Err(GammaDomainError::Pole(fl(-3.0))));
    assert_eq!(try_gamma(-10.0), Err(GammaDomainError::Pole(fl(-10.0))));
}

#[test]
fn try_gamma_at_zero_is_pole() {
    assert_eq!(try_gamma(0.0), Err(GammaDomainError::Pole(fl(0.0))));
}

#[test]
#[should_panic(expected = "gamma(0): Γ has a pole at 0")]
fn gamma_at_zero_panics() {
    let _ = gamma(0.0);
}

#[test]
fn gamma_at_large_positive() {
    let ln_gamma_50 = gamma_log(50.0);
    let g_50 = gamma(50.0);
    assert!((g_50.ln() - ln_gamma_50).abs() < 1e-9);
    let g_100 = gamma(100.0);
    assert!(g_100.is_finite() && g_100 > 1e150);
}

#[test]
fn gamma_log_at_a_lt_8_branches() {
    for &a in &[0.5_f64, 0.8, 1.0, 1.5, 2.0, 2.25, 5.0, 8.0, 10.0, 50.0] {
        let h = gamma_log(a);
        assert!(h.is_finite(), "a={a}");
    }
}

#[test]
fn psi_at_a_lt_05_and_large() {
    assert!(psi(0.1).is_finite());
    assert!(psi(0.3).is_finite());
    assert!(psi(2.5).is_finite());
    assert!(psi(50.0).is_finite());
    assert!(psi(1000.0).is_finite());
}
