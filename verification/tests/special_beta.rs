//! The beta function and the incomplete beta function ratios.
use cdflib::float::F64;
use cdflib::functions::Elementary;
use cdflib::special::beta_inc::BetaGratError;
use cdflib::special::beta_inc::BetaIncError;

#[allow(dead_code)]
fn fl(x: f64) -> F64 {
    F64 { bits: x.to_bits() }
}

#[allow(dead_code)]
fn num(x: F64) -> f64 {
    f64::from_bits(x.bits)
}

#[allow(dead_code)]
fn pair(p: (F64, F64)) -> (f64, f64) {
    (num(p.0), num(p.1))
}

#[allow(dead_code)]
fn libm(q: Elementary) -> F64 {
    match q {
        Elementary::Exp(x) => fl(num(x).exp()),
        Elementary::Ln(x) => fl(num(x).ln()),
        Elementary::Sin(x) => fl(num(x).sin()),
        Elementary::Cos(x) => fl(num(x).cos()),
        Elementary::Pow(x, y) => fl(num(x).powf(num(y))),
    }
}

#[allow(dead_code)]
fn algdiv(a: f64, b: f64) -> f64 {
    num(cdflib::special::beta::algdiv(&libm, fl(a), fl(b)))
}

#[allow(dead_code)]
fn apser(a: f64, b: f64, x: f64, eps: f64) -> f64 {
    num(cdflib::special::beta_inc::apser(&libm, fl(a), fl(b), fl(x), fl(eps)))
}

#[allow(dead_code)]
fn beta(a: f64, b: f64) -> f64 {
    num(cdflib::special::beta::beta(&libm, fl(a), fl(b)))
}

#[allow(dead_code)]
fn beta_grat(a: f64, b: f64, x: f64, y: f64, w: f64, eps: f64) -> Result<f64, BetaGratError> {
    cdflib::special::beta_inc::beta_grat(&libm, fl(a), fl(b), fl(x), fl(y), fl(w), fl(eps)).map(num)
}

#[allow(dead_code)]
fn beta_inc(a: f64, b: f64, x: f64, y: f64) -> (f64, f64) {
    if a.is_nan() || b.is_nan() || x.is_nan() || y.is_nan() {
        return (f64::NAN, f64::NAN);
    }
    match try_beta_inc(a, b, x, y) {
        Ok(_) => pair(cdflib::special::beta_inc::beta_inc(&libm, fl(a), fl(b), fl(x), fl(y))),
        Err(e) => panic!("beta_inc({a}, {b}, {x}, {y}): {e:?}"),
    }
}

#[allow(dead_code)]
fn beta_log(a: f64, b: f64) -> f64 {
    num(cdflib::special::beta::beta_log(&libm, fl(a), fl(b)))
}

#[allow(dead_code)]
fn beta_pser(a: f64, b: f64, x: f64, eps: f64) -> f64 {
    num(cdflib::special::beta_inc::beta_pser(&libm, fl(a), fl(b), fl(x), fl(eps)))
}

#[allow(dead_code)]
fn beta_rcomp(a: f64, b: f64, x: f64, y: f64) -> f64 {
    num(cdflib::special::beta::beta_rcomp(&libm, fl(a), fl(b), fl(x), fl(y)))
}

#[allow(dead_code)]
fn dbetrm(a: f64, b: f64) -> f64 {
    if a + b <= 0.0 || a.max(b) <= 0.0 || a.min(b) <= 0.0 {
        panic!("dbetrm: arguments must be positive (got {a}, {b})");
    }
    num(cdflib::special::beta::dbetrm(&libm, fl(a), fl(b)))
}

#[allow(dead_code)]
fn esum(mu: i32, x: f64) -> f64 {
    num(cdflib::special::beta::esum(&libm, mu, fl(x)))
}

#[allow(dead_code)]
fn fpser(a: f64, b: f64, x: f64, eps: f64) -> f64 {
    num(cdflib::special::beta_inc::fpser(&libm, fl(a), fl(b), fl(x), fl(eps)))
}

#[allow(dead_code)]
fn gamma_log(a: f64) -> f64 {
    num(cdflib::special::gamma::gamma_log(&libm, fl(a)))
}

#[allow(dead_code)]
fn try_beta_inc(a: f64, b: f64, x: f64, y: f64) -> Result<(f64, f64), BetaIncError> {
    cdflib::special::beta_inc::try_beta_inc(&libm, fl(a), fl(b), fl(x), fl(y)).map(pair)
}

#[test]
fn dbetrm_matches_beta_log_minus_stirling() {
    const HLN2PI: f64 = 0.91893853320467274178;
    fn stirling(z: f64) -> f64 {
        HLN2PI + (z - 0.5) * z.ln() - z
    }
    for &(a, b) in &[(2.5_f64, 3.5), (10.0, 20.0), (50.0, 60.0), (100.0, 100.0)] {
        let r = dbetrm(a, b);
        let lnb = beta_log(a, b);
        let stirling_sum = stirling(a) + stirling(b) - stirling(a + b);
        let expected = lnb - stirling_sum;
        assert!(
            (r - expected).abs() < 1e-12,
            "a={a}, b={b}: dbetrm={r}, expected={expected}"
        );
    }
}

#[test]
fn dbetrm_decreases_for_large_args() {
    let r10 = dbetrm(10.0, 10.0);
    let r100 = dbetrm(100.0, 100.0);
    assert!(r100.abs() < r10.abs());
    assert!(r100.abs() < 0.01);
}

#[test]
fn beta_log_at_integer_arguments() {
    assert!(beta_log(1.0, 1.0).abs() < 1e-14);
    assert!((beta_log(2.0, 2.0) - (-6.0_f64.ln())).abs() < 1e-13);
    assert!((beta_log(3.0, 4.0) - (-60.0_f64.ln())).abs() < 1e-13);
}

#[test]
fn beta_inc_at_x_half_with_a_b_equal() {
    for &a in &[0.5, 1.0, 2.0, 5.0, 30.0] {
        let (w, w1) = beta_inc(a, a, 0.5, 0.5);
        assert!((w - 0.5).abs() < 1e-10, "a={a}: w={w}");
        assert!((w1 - 0.5).abs() < 1e-10);
    }
}

#[test]
fn beta_inc_at_boundaries() {
    assert_eq!(try_beta_inc(2.0, 3.0, 0.0, 1.0), Ok((0.0, 1.0)));
    assert_eq!(try_beta_inc(2.0, 3.0, 1.0, 0.0), Ok((1.0, 0.0)));
}

#[test]
fn beta_inc_p_plus_q_equals_one() {
    for &(a, b) in &[(1.0, 1.0), (2.0, 5.0), (10.0, 20.0), (0.5, 3.0)] {
        for x in [0.1, 0.3, 0.5, 0.7, 0.9] {
            let (w, w1) = beta_inc(a, b, x, 1.0 - x);
            assert!((w + w1 - 1.0).abs() < 1e-12, "a={a}, b={b}, x={x}");
        }
    }
}

#[test]
fn beta_inc_negative_parameter() {
    assert!(matches!(
        try_beta_inc(-1.0, 2.0, 0.5, 0.5),
        Err(BetaIncError::NegativeParameter { .. })
    ));
    assert!(matches!(
        try_beta_inc(2.0, -1.0, 0.5, 0.5),
        Err(BetaIncError::NegativeParameter { .. })
    ));
}

#[test]
fn beta_inc_both_zero() {
    assert_eq!(
        try_beta_inc(0.0, 0.0, 0.5, 0.5),
        Err(BetaIncError::BothZero)
    );
}

#[test]
fn beta_inc_x_out_of_range() {
    assert!(matches!(
        try_beta_inc(2.0, 3.0, -0.1, 1.1),
        Err(BetaIncError::XOutOfRange(v)) if num(v) == -0.1));
    assert!(matches!(
        try_beta_inc(2.0, 3.0, 1.1, -0.1),
        Err(BetaIncError::XOutOfRange(_))
    ));
}

#[test]
fn beta_inc_y_out_of_range() {
    assert!(matches!(
        try_beta_inc(2.0, 3.0, 0.5, -0.1),
        Err(BetaIncError::YOutOfRange(_))
    ));
    assert!(matches!(
        try_beta_inc(2.0, 3.0, 0.5, 1.1),
        Err(BetaIncError::YOutOfRange(_))
    ));
}

#[test]
fn beta_inc_x_plus_y_not_one() {
    assert!(matches!(
        try_beta_inc(2.0, 3.0, 0.3, 0.5),
        Err(BetaIncError::InconsistentSum { .. })
    ));
}

#[test]
fn beta_inc_x_zero_and_a_zero() {
    assert_eq!(
        try_beta_inc(0.0, 3.0, 0.0, 1.0),
        Err(BetaIncError::XZeroAndAZero)
    );
}

#[test]
fn beta_inc_y_zero_and_b_zero() {
    assert_eq!(
        try_beta_inc(3.0, 0.0, 1.0, 0.0),
        Err(BetaIncError::YZeroAndBZero)
    );
}

#[test]
fn beta_inc_a_zero_with_b_positive() {
    assert_eq!(try_beta_inc(0.0, 3.0, 0.5, 0.5), Ok((1.0, 0.0)));
}

#[test]
fn beta_inc_b_zero_with_a_positive() {
    assert_eq!(try_beta_inc(3.0, 0.0, 0.5, 0.5), Ok((0.0, 1.0)));
}

#[test]
fn beta_inc_both_tiny_a_b() {
    let tiny = 1e-20;
    let (w, w1) = beta_inc(tiny, tiny, 0.5, 0.5);
    assert!((w - 0.5).abs() < 1e-10);
    assert!((w1 - 0.5).abs() < 1e-10);
}

#[test]
fn beta_inc_small_a_large_b_uses_grat_path() {
    let (w, w1) = beta_inc(0.5, 30.0, 0.05, 0.95);
    assert!(w > 0.0 && w < 1.0 && (w + w1 - 1.0).abs() < 1e-10);
}

#[test]
fn beta_inc_both_moderate_uses_frac_path() {
    let (w, w1) = beta_inc(10.0, 60.0, 0.15, 0.85);
    assert!((w + w1 - 1.0).abs() < 1e-10);
}

#[test]
fn beta_inc_extreme_skew_matches_high_precision_reference() {
    let (w, w1) = beta_inc(0.5, 100.0, 0.15, 0.85);
    assert!((w - 0.999_999_987_603_646_8).abs() < 1e-15);
    assert!((w1 - 1.239_635_319_310_601_4e-8).abs() < 1e-22);
}

#[test]
fn beta_inc_a_large_b_moderate() {
    let (w, w1) = beta_inc(60.0, 10.0, 0.85, 0.15);
    assert!((w + w1 - 1.0).abs() < 1e-10);
    let (w2, _) = beta_inc(10.0, 60.0, 0.15, 0.85);
    assert!((w - (1.0 - w2)).abs() < 1e-10);
}

#[test]
fn beta_inc_extreme_lambda_asym_path() {
    let (w, w1) = beta_inc(150.0, 200.0, 150.0 / 350.0 + 0.001, 200.0 / 350.0 - 0.001);
    assert!((w + w1 - 1.0).abs() < 1e-8);
    let (w, w1) = beta_inc(150.0, 400.0, 0.272, 0.728);
    assert!((w + w1 - 1.0).abs() < 1e-8);
}

#[test]
fn beta_inc_a_below_eps_uses_apser() {
    let a = 1e-15;
    let b = 5.0;
    let (w, w1) = beta_inc(a, b, 0.05, 0.95);
    assert!(w > 0.99 && (w + w1 - 1.0).abs() < 1e-10);
}

#[test]
fn beta_inc_b_below_eps_uses_fpser() {
    let a = 5.0;
    let b = 1e-15;
    let (w, w1) = beta_inc(a, b, 0.5, 0.5);
    assert!(w < 0.01 && (w + w1 - 1.0).abs() < 1e-10);
}

#[test]
fn esum_at_all_branches() {
    let r1 = esum(1, 2.0);
    assert!((r1 - (3.0_f64).exp()).abs() < 1e-12);
    let r2 = esum(-5, 1.0);
    assert!((r2 - (-4.0_f64).exp()).abs() < 1e-14);
    let r3 = esum(-1, 2.0);
    assert!((r3 - (1.0_f64).exp()).abs() < 1e-14);
    let r4 = esum(2, -1.0);
    assert!((r4 - (1.0_f64).exp()).abs() < 1e-14);
    let r5 = esum(-1, -1.0);
    assert!((r5 - (-2.0_f64).exp()).abs() < 1e-14);
}

#[test]
fn algdiv_in_b_le_a_branch() {
    let a = 10.0;
    let b = 8.0;
    let direct = gamma_log(b) - gamma_log(a + b);
    let via_algdiv = algdiv(a, b);
    assert!((via_algdiv - direct).abs() < 1e-12);
}

#[test]
fn beta_wrapper() {
    assert!((beta(1.0, 1.0) - 1.0).abs() < 1e-14);
    assert!((beta(2.0, 2.0) - 1.0 / 6.0).abs() < 1e-14);
    assert!((beta(3.0, 4.0) - 1.0 / 60.0).abs() < 1e-14);
}

#[test]
fn beta_rcomp_at_extreme_b() {
    let r = beta_rcomp(41.0, 1e300, 0.8, 0.2);
    assert!(r.is_finite(), "beta_rcomp returned non-finite: {r}");
}

#[test]
fn beta_inc_very_small_a_small_branch_corners() {
    for &(a, b, x) in &[
        (0.1, 0.5, 0.3),
        (0.1, 0.5, 0.5),
        (0.01, 0.5, 0.1),
    ] {
        let (w, w1) = beta_inc(a, b, x, 1.0 - x);
        assert!((w + w1 - 1.0).abs() < 1e-10, "a={a}, b={b}, x={x}");
    }
}

#[test]
fn beta_inc_large_branch_b_moderate_x_above_0_7() {
    let (w, w1) = beta_inc(5.0, 10.0, 0.85, 0.15);
    assert!((w + w1 - 1.0).abs() < 1e-10);
}

#[test]
fn fpser_apser_beta_pser_edge_cases() {
    let eps = f64::EPSILON.max(1e-15);
    assert_eq!(fpser(1.0, 1e-20, 1e-308, eps), 0.0);
    assert_eq!(beta_pser(2.0, 3.0, 0.0, eps), 0.0);
    let r = apser(1e-15, 5.0, 0.05, eps);
    assert!(r.is_finite() && r >= 0.0);
}

#[test]
fn beta_grat_returns_ok_on_happy_path() {
    let eps = f64::EPSILON.max(1e-15);
    let w = beta_grat(20.0, 0.5, 0.2, 0.8, 0.0, 15.0 * eps).unwrap();
    assert!(w.is_finite() && (0.0..=1.0).contains(&w));
}

#[test]
fn beta_rcomp_a0_lt_1_unreached_via_beta_inc_but_safe() {
    let r = beta_rcomp(0.5, 30.0, 0.05, 0.95);
    assert!(r.is_finite() && r >= 0.0);
    let r = beta_rcomp(0.5, 5.0, 0.3, 0.7);
    assert!(r.is_finite() && r >= 0.0);
    let r = beta_rcomp(0.5, 0.7, 0.5, 0.5);
    assert!(r.is_finite() && r >= 0.0);
}
