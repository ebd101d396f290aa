//! How near the functions come to each other, and where they have no value.
use cdflib::dist::GammaError;
use cdflib::error::SearchError;
use cdflib::float::F64;
use cdflib::functions::Elementary;
use cdflib::special::gamma_inc::GammaIncAcc;
use cdflib::special::gamma_inc::GammaIncError;
use cdflib::traits::ContinuousCdf;

fn fl(x: f64) -> F64 {
    F64 { bits: x.to_bits() }
}

fn num(x: F64) -> f64 {
    f64::from_bits(x.bits)
}

fn libm(q: Elementary) -> F64 {
    match q {
        Elementary::Exp(x) => fl(num(x).exp()),
        Elementary::Ln(x) => fl(num(x).ln()),
        Elementary::Sin(x) => fl(num(x).sin()),
        Elementary::Cos(x) => fl(num(x).cos()),
        Elementary::Pow(x, y) => fl(num(x).powf(num(y))),
    }
}

fn cumnor(x: f64) -> (f64, f64) {
    let (p, q) = cdflib::special::cumnor(&libm, fl(x));
    (num(p), num(q))
}

fn gamma_inc(a: f64, x: f64, acc: GammaIncAcc) -> (f64, f64) {
    let (p, q) = cdflib::special::try_gamma_inc_with_acc(&libm, fl(a), fl(x), acc).unwrap();
    (num(p), num(q))
}

fn beta_inc(a: f64, b: f64, x: f64, y: f64) -> (f64, f64) {
    let (p, q) = cdflib::special::try_beta_inc(&libm, fl(a), fl(b), fl(x), fl(y)).unwrap();
    (num(p), num(q))
}

fn next(x: f64) -> f64 {
    f64::from_bits(x.to_bits() + 1)
}

#[test]
fn normal_quantiles_give_the_probability_back() {
    for (mean, sd) in [(0.0, 1.0), (-3.0, 0.5), (10.0, 4.0), (1e3, 200.0), (0.0, 1e-3)] {
        let dist = cdflib::dist::Normal::try_new(fl(mean), fl(sd)).unwrap();
        for p in [1e-300, 1e-20, 1e-6, 0.02, 0.25, 0.4999, 0.75, 0.9, 0.999, 1.0 - 1e-12] {
            let x = dist.inverse_cdf(&libm, fl(p)).unwrap();
            let got = num(dist.cdf(&libm, x));
            assert!((got - p).abs() <= 1e-10, "mean {mean}, sd {sd}, p {p}: {got}");
        }
    }
}

#[test]
fn normal_tails_move_with_their_argument() {
    for x in [1e-12, 0.3, 0.66, 1.0, 2.5, 5.6, 7.0, 20.0, 38.0] {
        let y = x * (1.0 + 1e-13);
        let (p, q) = cumnor(x);
        let (s, t) = cumnor(y);
        assert!((p - s).abs() <= 81.0 / 2f64.powi(40) && (q - t).abs() <= 81.0 / 2f64.powi(40), "x = {x}");
    }
}

#[test]
fn normal_pieces_meet() {
    for seam in [0.66291, 5.656854248] {
        let (p, q) = cumnor(seam);
        let (s, t) = cumnor(next(seam));
        assert!((p - s).abs() <= 2f64.powi(-40) && (q - t).abs() <= 2f64.powi(-40), "seam {seam}");
    }
}

#[test]
fn exponential_turns_sums_into_products() {
    let zs: [f64; 7] = [0.0, -1e-9, -0.3, -1.0, -4.75, -30.0, -700.0];
    for z1 in zs {
        for z2 in zs {
            for w1 in zs {
                for w2 in zs {
                    let moved = (z1.exp() * z2.exp() - w1.exp() * w2.exp()).abs();
                    assert!(moved <= (z1 + z2 - w1 - w2).abs() + 2f64.powi(-48));
                }
            }
        }
    }
}

#[test]
fn gamma_inverse_gives_a_ratio_back() {
    for a in [0.3, 0.9, 1.5, 2.0, 5.5, 12.0, 40.0] {
        for p in [1e-8, 0.01, 0.3, 0.5, 0.8, 0.999] {
            let q = 1.0 - p;
            let (x, steps) =
                cdflib::special::try_gamma_inc_inv(&libm, fl(a), fl(-1.0), fl(p), fl(q)).unwrap();
            let (r, s) = gamma_inc(a, num(x), GammaIncAcc::Max);
            if steps > 0 {
                let scale = (a / 6.0).sqrt().max(1.0);
                let off = (r - p).abs().min((s - q).abs());
                assert!(off <= 1e-4 * scale, "a {a}, p {p}: {off}");
            }
        }
    }
}

#[test]
fn series_keeps_the_accuracy_asked_for() {
    for (a, x) in [(1.0, 0.25), (1.25, 2.3), (2.2, 1.0), (4.3, 4.2), (7.75, 7.5), (9.6, 9.6), (9.6, 0.01)] {
        let (p, q) = gamma_inc(a, x, GammaIncAcc::Max);
        let (p6, q6) = gamma_inc(a, x, GammaIncAcc::Digits6);
        let (p3, q3) = gamma_inc(a, x, GammaIncAcc::Digits3);
        assert!((p6 - p).abs() <= 1e-6 * p && (q6 - q).abs() <= 1e-6, "a {a}, x {x}");
        assert!((p3 - p).abs() <= 1e-3 * p && (q3 - q).abs() <= 1e-3, "a {a}, x {x}");
    }
    let (p, _) = gamma_inc(4.3, 4.2, GammaIncAcc::Max);
    let (p3, _) = gamma_inc(4.3, 4.2, GammaIncAcc::Digits3);
    assert!(p3 != p);
}

#[test]
fn small_series_keeps_the_accuracy_asked_for() {
    for (a, x) in [(0.3, 0.5), (0.9, 1.05), (0.01, 0.2), (0.6, 1e-8), (0.99, 0.9)] {
        let (p, q) = gamma_inc(a, x, GammaIncAcc::Max);
        let (p6, q6) = gamma_inc(a, x, GammaIncAcc::Digits6);
        let (p3, q3) = gamma_inc(a, x, GammaIncAcc::Digits3);
        assert!((p6 - p).abs() <= 1e-6 && (q6 - q).abs() <= 1e-6, "a {a}, x {x}");
        assert!((p3 - p).abs() <= 1e-3 && (q3 - q).abs() <= 1e-3, "a {a}, x {x}");
    }
}

#[test]
fn fraction_keeps_the_accuracy_asked_for() {
    for (a, x) in [(0.3, 1.1), (0.3, 2.0), (0.9, 30.0), (0.05, 600.0), (1.25, 4.0), (1.9, 9.0), (5.3, 7.0), (9.6, 9.65), (3.3, 3.5)] {
        let (p, q) = gamma_inc(a, x, GammaIncAcc::Max);
        let (p6, q6) = gamma_inc(a, x, GammaIncAcc::Digits6);
        let (p3, q3) = gamma_inc(a, x, GammaIncAcc::Digits3);
        assert!((q6 - q).abs() <= 1e-6 * q && (p6 - p).abs() <= 1e-6, "a {a}, x {x}");
        assert!((q3 - q).abs() <= 1e-3 * q && (p3 - p).abs() <= 1e-3, "a {a}, x {x}");
    }
}

#[test]
fn uniform_expansion_keeps_the_accuracy_asked_for() {
    for (a, x) in [(20.0, 14.0), (25.5, 30.0), (100.0, 120.0), (1e3, 990.0), (1e6, 999_500.0), (50.0, 69.0)] {
        let (p, q) = gamma_inc(a, x, GammaIncAcc::Max);
        let (p6, q6) = gamma_inc(a, x, GammaIncAcc::Digits6);
        let (p3, q3) = gamma_inc(a, x, GammaIncAcc::Digits3);
        assert!((p6 - p).abs() <= 1e-6 && (q6 - q).abs() <= 1e-6, "a {a}, x {x}");
        assert!((p3 - p).abs() <= 1e-3 && (q3 - q).abs() <= 1e-3, "a {a}, x {x}");
    }
}

#[test]
fn finite_sums_have_one_accuracy() {
    for (a, x) in [(1.0, 1.0), (1.5, 9.5), (4.0, 6.25), (9.5, 9.5), (0.5, 0.2), (0.5, 3.0), (3.0, 0.0), (30.0, 1e6), (1e3, 1.0)] {
        let full = gamma_inc(a, x, GammaIncAcc::Max);
        assert_eq!(gamma_inc(a, x, GammaIncAcc::Digits6), full, "a {a}, x {x}");
        assert_eq!(gamma_inc(a, x, GammaIncAcc::Digits3), full, "a {a}, x {x}");
    }
}

#[test]
fn beta_ratios_reflect_for_equal_parameters() {
    for (a, x) in [(2.0, 0.25), (8.0, 0.75), (4.0, 0.0), (16.0, 1.0), (0.75, 0.125)] {
        let (p, q) = beta_inc(a, a, x, 1.0 - x);
        assert_eq!(beta_inc(a, a, 1.0 - x, x), (q, p), "a {a}, x {x}");
    }
}

#[test]
fn beta_ratios_reflect_nearly_at_one_half() {
    for (a, b) in [(0.5, 3.0), (0.75, 0.75), (2.0, 2.0), (30.0, 30.0)] {
        let (p, q) = beta_inc(a, b, 0.5, 0.5);
        let (r, s) = beta_inc(b, a, 0.5, 0.5);
        assert!((r - q).abs() <= 1e-10 && (s - p).abs() <= 1e-10, "a {a}, b {b}");
    }
}

#[test]
fn beta_ratios_add_up() {
    for (a, b, x) in [(1e-20, 3e-20, 0.3), (0.5, 3.0, 0.2), (20.0, 30.0, 0.4), (1e-300, 1e-310, 0.5)] {
        let (p, q) = beta_inc(a, b, x, 1.0 - x);
        assert!((p + q - 1.0).abs() <= 2f64.powi(-51), "a {a}, b {b}, x {x}");
    }
    let tiny = 2f64.powi(-70);
    assert_eq!(beta_inc(tiny, 3.0 * tiny, 0.3, 0.7), (0.75, 0.25));
}

#[test]
fn distribution_functions_without_a_value() {
    let shape = 1e300;
    assert_eq!(
        cdflib::special::try_gamma_inc(&libm, fl(shape), fl(shape)),
        Err(GammaIncError::Indeterminate { a: fl(shape), x: fl(shape) })
    );
    let gamma = cdflib::dist::Gamma::try_new(fl(shape), fl(1.0)).unwrap();
    assert!(num(gamma.cdf(&libm, fl(shape))).is_nan());
    assert!(num(gamma.ccdf(&libm, fl(shape))).is_nan());
    assert_eq!(num(gamma.cdf(&libm, fl(2e300))), 1.0);
    let chi = cdflib::dist::ChiSquared::try_new(fl(2.0 * shape)).unwrap();
    assert!(num(chi.cdf(&libm, fl(2.0 * shape))).is_nan());
    assert!(num(chi.ccdf(&libm, fl(2.0 * shape))).is_nan());
    let far = cdflib::dist::ChiSquaredNoncentral::try_new(fl(2.0 * shape), fl(4.0)).unwrap();
    assert!(num(far.cdf(&libm, fl(2.0 * shape))).is_nan());
}

#[test]
fn a_consistent_pair_is_taken_as_it_is() {
    let q = 0.75 + 2f64.powi(-53);
    let rate = cdflib::dist::Gamma::solve_rate(&libm, fl(0.25), fl(q), fl(1.0), fl(1.0)).unwrap();
    assert_eq!(num(rate), -q.ln());
    let off = cdflib::dist::Gamma::solve_rate(&libm, fl(0.25), fl(0.75 + 2f64.powi(-51)), fl(1.0), fl(1.0));
    let exact = cdflib::dist::Gamma::solve_rate(&libm, fl(0.25), fl(0.75), fl(1.0), fl(1.0));
    assert_eq!(off, exact);
    let far = cdflib::dist::Gamma::solve_rate(&libm, fl(0.25), fl(0.8), fl(1.0), fl(1.0));
    assert!(matches!(far, Err(GammaError::ProbabilityPairInconsistent { .. })));
}

#[test]
fn a_start_outside_the_range_is_refused_for_any_objective() {
    let calls = std::cell::Cell::new(0u32);
    let fickle = |_x: F64| {
        calls.set(calls.get() + 1);
        fl(if calls.get() % 2 == 0 { 1.0 } else { -1.0 })
    };
    let r = cdflib::search::search_monotone(fl(0.0), fl(10.0), fl(11.0), fl(0.0), fl(10.0), &fickle);
    assert!(matches!(r, Err(SearchError::StartOutOfRange { .. })));
    let s = cdflib::search::search_monotone(fl(0.0), fl(10.0), fl(5.0), fl(0.0), fl(10.0), &fickle);
    assert!(!matches!(s, Err(SearchError::StartOutOfRange { .. })));
}
