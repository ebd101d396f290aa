//! The arithmetic against that of the machine.
use cdflib::float::F64;

fn fl(x: f64) -> F64 {
    F64 { bits: x.to_bits() }
}

fn num(x: F64) -> f64 {
    f64::from_bits(x.bits)
}

fn same(a: F64, b: f64) -> bool {
    if b.is_nan() {
        num(a).is_nan()
    } else {
        a.bits == b.to_bits()
    }
}

fn special_values() -> Vec<f64> {
    vec![
        0.0,
        -0.0,
        1.0,
        -1.0,
        0.5,
        1.5,
        2.0,
        3.0,
        -7.25,
        0.1,
        0.3,
        1e-300,
        -1e-300,
        1e300,
        -1e300,
        1e308,
        5e-324,
        -5e-324,
        1e-310,
        2.5e-308,
        f64::MIN_POSITIVE,
        f64::MAX,
        f64::MIN,
        f64::EPSILON,
        1.0 + f64::EPSILON,
        1.0 - f64::EPSILON / 2.0,
        9007199254740991.0,
        9007199254740992.0,
        9007199254740993.0,
        18446744073709551615.0,
        9223372036854775807.0,
        -9223372036854775808.0,
        2147483647.5,
        -2147483648.5,
        f64::INFINITY,
        f64::NEG_INFINITY,
        f64::NAN,
    ]
}

fn next(state: &mut u64) -> u64 {
    *state = state.wrapping_mul(6364136223846793005).wrapping_add(1442695040888963407);
    let x = *state;
    (x ^ (x >> 29)).wrapping_mul(0xBF58476D1CE4E5B9) ^ (x >> 17)
}

fn random_values(n: usize) -> Vec<f64> {
    let mut state = 0x1234_5678_9ABC_DEF0u64;
    let mut out = Vec::new();
    for i in 0..n {
        let r = next(&mut state);
        let v = match i % 4 {
            0 => f64::from_bits(r),
            1 => f64::from_bits((r & 0x800F_FFFF_FFFF_FFFF) | (0x3F0 + (r >> 7) % 32) << 52),
            2 => f64::from_bits(r & 0x801F_FFFF_FFFF_FFFF),
            _ => ((r % 2000) as f64 - 1000.0) / 8.0,
        };
        out.push(v);
    }
    out
}

fn check_pair(a: f64, b: f64) {
    let (x, y) = (fl(a), fl(b));
    assert!(same(x + y, a + b), "{a:e} + {b:e}");
    assert!(same(x - y, a - b), "{a:e} - {b:e}");
    assert!(same(x * y, a * b), "{a:e} * {b:e}");
    assert!(same(x / y, a / b), "{a:e} / {b:e}");
    assert_eq!(x.lt(y), a < b, "{a:e} < {b:e}");
    assert_eq!(x.le(y), a <= b, "{a:e} <= {b:e}");
    assert_eq!(x.gt(y), a > b, "{a:e} > {b:e}");
    assert_eq!(x.ge(y), a >= b, "{a:e} >= {b:e}");
    assert_eq!(x.equals(y), a == b, "{a:e} == {b:e}");
    if a != b {
        assert!(same(x.min(y), a.min(b)), "min({a:e}, {b:e})");
        assert!(same(x.max(y), a.max(b)), "max({a:e}, {b:e})");
    }
    if !a.is_nan() {
        assert!(same(x.copysign(y), a.copysign(b)) || b.is_nan(), "copysign({a:e}, {b:e})");
    }
}

fn check_one(a: f64) {
    let x = fl(a);
    assert!(same(x.sqrt(), a.sqrt()), "sqrt({a:e})");
    assert!(same(x.trunc(), a.trunc()), "trunc({a:e})");
    assert!(same(x.ceil(), a.ceil()), "ceil({a:e})");
    assert!(same(x.abs(), a.abs()), "abs({a:e})");
    assert!(same(x.negated(), -a), "-({a:e})");
    assert!(same(x.signum(), a.signum()), "signum({a:e})");
    assert!(same(x.squared(), a * a), "square of {a:e}");
    assert_eq!(x.to_u64(), a as u64, "{a:e} as u64");
    assert_eq!(x.to_i64(), a as i64, "{a:e} as i64");
    assert_eq!(x.to_i32(), a as i32, "{a:e} as i32");
    assert_eq!(x.is_nan(), a.is_nan());
    assert_eq!(x.is_finite(), a.is_finite());
}

#[test]
fn special_values_agree_with_the_machine() {
    let v = special_values();
    for &a in &v {
        check_one(a);
        for &b in &v {
            check_pair(a, b);
        }
    }
}

#[test]
fn random_values_agree_with_the_machine() {
    let v = random_values(4000);
    for i in 0..v.len() {
        check_one(v[i]);
        check_pair(v[i], v[(i + 1) % v.len()]);
        check_pair(v[i], v[(i * 7 + 3) % v.len()]);
    }
}

#[test]
fn neighbours_agree_with_the_machine() {
    for &a in &[1.0, 1e-308, 2.2250738585072014e-308, 4.0, 1e300, 0.1] {
        let bits = (a as f64).to_bits();
        for i in 0..40u64 {
            for j in 0..40u64 {
                check_pair(f64::from_bits(bits - 20 + i), f64::from_bits(bits - 20 + j));
                check_pair(f64::from_bits(bits - 20 + i), -f64::from_bits(bits - 20 + j));
            }
        }
    }
}

#[test]
fn integers_agree_with_the_machine() {
    let mut state = 99u64;
    for i in 0..64u32 {
        for _ in 0..40 {
            let n = next(&mut state) >> i;
            assert!(same(F64::from_u64(n), n as f64), "{n}");
            assert!(same(F64::from_i64(n as i64), n as i64 as f64), "{}", n as i64);
        }
    }
    for n in [0i64, 1, -1, i64::MAX, i64::MIN, (1 << 53) + 1, -(1 << 53) - 1, (1 << 54) + 2, (1 << 54) + 6] {
        assert!(same(F64::from_i64(n), n as f64), "{n}");
    }
}

#[test]
fn ties_round_to_even() {
    assert_eq!(num(fl(9007199254740992.0) + fl(1.0)), 9007199254740992.0);
    assert_eq!(num(fl(9007199254740994.0) + fl(1.0)), 9007199254740996.0);
    assert_eq!(num(fl(5e-324) * fl(0.5)), 0.0);
    assert_eq!(num(fl(1.5e-323) * fl(0.5)), 1e-323);
    assert_eq!(num(fl(f64::MAX) + fl(9.9792015476735e291)), f64::MAX);
    assert_eq!(num(fl(f64::MAX) + fl(9.979201547673599e291)), f64::INFINITY);
}

#[test]
fn zeros_keep_their_signs() {
    assert_eq!((fl(0.0) + fl(-0.0)).bits, 0.0f64.to_bits());
    assert_eq!((fl(-0.0) + fl(-0.0)).bits, (-0.0f64).to_bits());
    assert_eq!((fl(1.0) - fl(1.0)).bits, 0.0f64.to_bits());
    assert_eq!((fl(-1.0) * fl(0.0)).bits, (-0.0f64).to_bits());
    assert_eq!((fl(0.0) / fl(-3.0)).bits, (-0.0f64).to_bits());
    assert_eq!(fl(-0.0).sqrt().bits, (-0.0f64).to_bits());
    assert_eq!(fl(-0.5).trunc().bits, (-0.0f64).to_bits());
    assert_eq!(fl(-0.5).ceil().bits, (-0.0f64).to_bits());
}
