//! Laws of the searches on concrete functions.
use cdflib::error::{SearchError, SolverError};
use cdflib::float::F64;
use cdflib::search::dinvr::{InvrAction, InvrConfig, InvrState};
use cdflib::search::dzror::{ZrorAction, ZrorConfig, ZrorState};
use cdflib::search::{search_bounded_zero, search_bounded_zero_with_tol, search_monotone, search_monotone_with_atol};
use cdflib::solver::{solve_monotone, BracketStrategy};
use std::cell::RefCell;

fn fl(x: f64) -> F64 {
    F64 { bits: x.to_bits() }
}

fn num(x: F64) -> f64 {
    f64::from_bits(x.bits)
}

fn functions() -> Vec<fn(f64) -> f64> {
    vec![
        |x| x * x * x - 8.0,
        |x| 2.0 - x,
        |x| (x - 7.3).atan(),
        |x| if x < 3.25 { -1.0 } else { 5.0 },
        |x| -(x - 0.001) * 1e-100,
        |x| x.exp() - 1000.0,
    ]
}

#[test]
fn probes_stay_in_the_range() {
    for f in functions() {
        let seen = RefCell::new(Vec::new());
        let g = |x: F64| {
            seen.borrow_mut().push(num(x));
            fl(f(num(x)))
        };
        let r = search_monotone(fl(-2.0), fl(20.0), fl(1.5), fl(-2.0), fl(20.0), &g);
        for x in seen.borrow().iter() {
            assert!(-2.0 <= *x && *x <= 20.0, "{x}");
        }
        let x = num(r.unwrap());
        assert!(-2.0 <= x && x <= 20.0);
    }
}

#[test]
fn ends_are_asked_for_first() {
    let seen = RefCell::new(Vec::new());
    let g = |x: F64| {
        seen.borrow_mut().push(num(x));
        fl(num(x) - 1.0)
    };
    search_monotone(fl(0.0), fl(9.0), fl(4.0), fl(0.0), fl(9.0), &g).unwrap();
    assert_eq!(seen.borrow()[..3], [0.0, 9.0, 4.0]);
    seen.borrow_mut().clear();
    search_bounded_zero(fl(0.0), fl(9.0), &g).unwrap();
    assert_eq!(seen.borrow()[..2], [0.0, 9.0]);
}

#[test]
fn start_out_of_range_is_refused() {
    let g = |x: F64| x;
    assert_eq!(
        search_monotone(fl(0.0), fl(1.0), fl(2.0), fl(0.0), fl(1.0), &g),
        Err(SearchError::StartOutOfRange { start: fl(2.0), small: fl(0.0), big: fl(1.0) })
    );
    assert!(search_monotone(fl(0.0), fl(1.0), fl(f64::NAN), fl(0.0), fl(1.0), &g).is_err());
}

#[test]
fn ends_are_held_within_the_bound() {
    let g = |x: F64| x;
    assert_eq!(
        search_monotone(fl(f64::NEG_INFINITY), fl(f64::INFINITY), fl(1e301), fl(0.0), fl(1.0), &g),
        Err(SearchError::StartOutOfRange { start: fl(1e301), small: fl(-1e300), big: fl(1e300) })
    );
}

#[test]
fn refinement_encloses_a_zero() {
    for f in functions() {
        let cfg = ZrorConfig { xlo: fl(-2.0), xhi: fl(20.0), abstol: fl(1e-10), reltol: fl(1e-8) };
        let mut z = ZrorState::new(cfg);
        let mut fx = fl(0.0);
        loop {
            match z.step(fx) {
                ZrorAction::NeedEval(x) => fx = fl(f(num(x))),
                ZrorAction::Converged { x, xlo, xhi } => {
                    let (a, b) = (f(num(xlo)), f(num(xhi)));
                    assert!((a <= 0.0 && b >= 0.0) || (a >= 0.0 && b <= 0.0), "{a} {b}");
                    assert!((num(xlo) - num(xhi)).abs() <= 1e-6);
                    assert!((num(x) - num(xhi)).abs() <= 1e-6);
                    break;
                }
                ZrorAction::Failed { .. } => panic!("no zero"),
            }
        }
    }
}

#[test]
fn bounded_search_returns_the_last_point_evaluated() {
    for f in functions() {
        let last = RefCell::new(0.0);
        let g = |x: F64| {
            *last.borrow_mut() = num(x);
            fl(f(num(x)))
        };
        let r = search_bounded_zero_with_tol(fl(-2.0), fl(20.0), fl(1e-10), fl(1e-8), &g).unwrap();
        assert_eq!(num(r), *last.borrow());
    }
}

#[test]
fn bounded_search_needs_a_change_of_sign() {
    let up = |x: F64| x + fl(1.0);
    assert_eq!(
        search_bounded_zero(fl(0.0), fl(1.0), &up),
        Err(SearchError::AnswerBelowLowerBound { bound: fl(0.0) })
    );
    let down = |x: F64| fl(5.0) - x;
    assert_eq!(
        search_bounded_zero(fl(0.0), fl(1.0), &down),
        Err(SearchError::AnswerAboveUpperBound { bound: fl(1.0) })
    );
}

#[test]
fn absolute_tolerance_is_taken() {
    let g = |x: F64| x - fl(1e-20);
    let r = search_monotone_with_atol(fl(0.0), fl(1.0), fl(0.5), fl(0.0), fl(1.0), fl(1e-50), &g).unwrap();
    assert!((num(r) - 1e-20).abs() < 1e-26);
    let r = search_monotone(fl(0.0), fl(1.0), fl(0.5), fl(0.0), fl(1.0), &g).unwrap();
    assert!(num(r).abs() < 1e-9);
}

#[test]
fn a_constant_function_fails_at_an_end() {
    let cfg = InvrConfig {
        small: fl(0.0),
        big: fl(1.0),
        abs_step: fl(0.5),
        rel_step: fl(0.5),
        stp_mul: fl(5.0),
        abs_tol: fl(1e-10),
        rel_tol: fl(1e-8),
    };
    let mut s = InvrState::new(cfg, fl(0.5));
    s.step(fl(0.0));
    s.step(fl(2.0));
    assert_eq!(s.step(fl(2.0)), InvrAction::Failed { qleft: true, qhi: true, x: fl(0.0) });
}

#[test]
fn solver_errors_have_inputs() {
    let up = |x: F64| x + fl(1.0);
    let inc = |small: f64, big: f64, start: f64| BracketStrategy::Increasing {
        small: fl(small),
        big: fl(big),
        start: fl(start),
    };
    assert_eq!(solve_monotone(inc(0.0, 9.0, 1.0), &up), Err(SolverError::AnswerBelowLowerBound { bound: fl(0.0) }));
    let low = |x: F64| x - fl(100.0);
    assert_eq!(solve_monotone(inc(0.0, 9.0, 1.0), &low), Err(SolverError::AnswerAboveUpperBound { bound: fl(9.0) }));
    assert_eq!(
        solve_monotone(inc(9.0, 0.0, 1.0), &up),
        Err(SolverError::StartOutOfBracket { start: fl(1.0), small: fl(9.0), big: fl(0.0) })
    );
    // a start outside is brought inside
    let mid = |x: F64| x - fl(2.0);
    assert!((num(solve_monotone(inc(0.0, 9.0, 50.0), &mid).unwrap()) - 2.0).abs() < 1e-7);
    assert_eq!(
        cdflib::solver::monotone::solve_monotone(inc(0.0, 9.0, 1.0), &low),
        Err(SolverError::AnswerAboveUpperBound { bound: fl(9.0) })
    );
    assert_eq!(
        cdflib::solver::monotone::solve_monotone(inc(0.0, 9.0, 1.0), &up),
        Err(SolverError::AnswerBelowLowerBound { bound: fl(0.0) })
    );
    // a function that is never a number never converges
    let nan = |_x: F64| fl(f64::NAN);
    assert!(matches!(
        cdflib::solver::monotone::solve_monotone(inc(-1e300, 1e300, 1.0), &nan),
        Err(SolverError::NotConverged { .. }) | Err(SolverError::AnswerBelowLowerBound { .. })
    ));
}

#[test]
fn a_search_succeeds_where_the_ends_lie_on_both_sides() {
    for shift in [-30.0, -3.0, -2.0, 0.0, 5.5, 20.0, 21.0] {
        for sign in [1.0, -1.0] {
            let f = |x: f64| sign * (x - shift);
            let g = |x: F64| fl(f(num(x)));
            let both = f(-2.0) * f(20.0) <= 0.0;
            let r = search_monotone(fl(-2.0), fl(20.0), fl(1.5), fl(-2.0), fl(20.0), &g);
            assert_eq!(r.is_ok(), both, "{shift}");
            assert_eq!(search_bounded_zero(fl(-2.0), fl(20.0), &g).is_ok(), both, "{shift}");
            let strategy = if sign > 0.0 {
                BracketStrategy::Increasing { small: fl(-2.0), big: fl(20.0), start: fl(1.5) }
            } else {
                BracketStrategy::Decreasing { small: fl(-2.0), big: fl(20.0), start: fl(1.5) }
            };
            assert_eq!(solve_monotone(strategy, &g).is_ok(), both, "{shift}");
            if both {
                assert!((num(r.unwrap()) - shift).abs() <= 1e-7);
                assert!((num(solve_monotone(strategy, &g).unwrap()) - shift).abs() <= 1e-7);
            }
            // this one takes a zero at the lower end for one below it
            let r = cdflib::solver::monotone::solve_monotone(strategy, &g);
            assert_eq!(r.is_ok(), both && shift != -2.0, "{shift}");
            if let Ok(x) = r {
                assert!((num(x) - shift).abs() <= 1e-12);
            }
        }
    }
}

#[test]
fn values_too_small_to_multiply_lose_the_zero() {
    let g = |x: F64| fl((num(x) - 0.3) * 1e-200);
    assert!(search_bounded_zero(fl(-2.0), fl(20.0), &g).is_err());
}
