//! Rounding of a scaled integer to the nearest encoding.
use super::model::{
    lemma_cell_of, lemma_mag_cell, lemma_mag_increasing, lemma_mag_zero, lemma_round_ratio_is, mag,
    round_ratio, scale, significand, CELL, INF_ENC,
};
use vstd::arithmetic::power2::{
    lemma2_to64, lemma2_to64_rest, lemma_pow2_adds, lemma_pow2_pos, lemma_pow2_strictly_increases, lemma_pow2_unfold,
    pow2,
};
use vstd::bits::lemma_u64_shl_is_mul;
use vstd::prelude::*;

verus! {

/// Exponents are shifted by this much to keep them non-negative.
pub const BIAS: i64 = 1200;

/// The powers of two that the code writes as numbers.
pub proof fn lemma_powers()
    ensures
        pow2(0) == 1,
        pow2(1) == 2,
        pow2(8) == 0x100,
        pow2(20) == 0x10_0000,
        pow2(32) == 0x1_0000_0000,
        pow2(52) == CELL,
        pow2(53) == 2 * CELL,
        pow2(54) == 4 * CELL,
        pow2(63) == 0x8000_0000_0000_0000,
        pow2(64) == 0x1_0000_0000_0000_0000,
        pow2(126) == 0x4000_0000_0000_0000_0000_0000_0000_0000,
        pow2(127) == 0x8000_0000_0000_0000_0000_0000_0000_0000,
{
    lemma2_to64();
    lemma2_to64_rest();
    lemma_pow2_adds(63, 63);
    lemma_pow2_adds(63, 64);
}

/// `2^n` in 64 bits.
pub fn p64(n: u64) -> (r: u64)
    requires
        n < 64,
    ensures
        r == pow2(n as nat),
{
    proof {
        lemma_powers();
        if n < 63 {
            lemma_pow2_strictly_increases(n as nat, 63);
        }
        lemma_u64_shl_is_mul(1, n);
    }
    1u64 << n
}

/// `2^n` in 128 bits.
pub fn p128(n: u64) -> (r: u128)
    requires
        n <= 126,
    ensures
        r == pow2(n as nat),
{
    if n < 64 {
        p64(n) as u128
    } else {
        let a: u64 = p64(63);
        let b: u64 = p64(n - 63);
        proof {
            lemma_powers();
            lemma_pow2_adds(63, (n - 63) as nat);
            assert(a * b <= 0x8000_0000_0000_0000int * 0xFFFF_FFFF_FFFF_FFFFint) by (nonlinear_arith)
                requires 0 <= a <= 0x8000_0000_0000_0000int, 0 <= b <= 0xFFFF_FFFF_FFFF_FFFFint;
        }
        a as u128 * b as u128
    }
}

/// The number of binary digits of a positive integer.
pub fn digits(m: u128) -> (n: u64)
    requires
        m > 0,
    ensures
        1 <= n <= 128,
        pow2((n - 1) as nat) <= m < pow2(n as nat),
{
    let mut rest: u128 = m;
    let mut n: u64 = 0;
    proof {
        lemma_powers();
        assert(pow2(128) == 0x1_0000_0000_0000_0000int * 0x1_0000_0000_0000_0000int) by {
            lemma_pow2_adds(64, 64);
        }
    }
    while rest >= 2
        invariant
            rest >= 1,
            n <= 127,
            rest * pow2(n as nat) <= m < (rest + 1) * pow2(n as nat),
            pow2(128) == 0x1_0000_0000_0000_0000int * 0x1_0000_0000_0000_0000int,
        decreases rest,
    {
        let j: u64 = if rest >= 0x1_0000_0000 {
            32
        } else if rest >= 0x100 {
            8
        } else {
            1
        };
        let d: u128 = p64(j) as u128;
        let ghost old_rest = rest;
        proof {
            lemma_powers();
            lemma_pow2_adds(n as nat, j as nat);
        }
        rest = rest / d;
        proof {
            let p = pow2(n as nat) as int;
            let q = pow2((n + j) as nat) as int;
            let r0 = old_rest as int;
            let r1 = rest as int;
            let dd = d as int;
            assert(r1 * dd <= r0 && r0 + 1 <= (r1 + 1) * dd && r1 >= 1 && r1 < r0) by (nonlinear_arith)
                requires r1 == r0 / dd, 2 <= dd <= r0;
            assert(r1 * q <= r0 * p) by (nonlinear_arith)
                requires r1 * dd <= r0, q == p * dd, p >= 0;
            assert((r0 + 1) * p <= (r1 + 1) * q) by (nonlinear_arith)
                requires r0 + 1 <= (r1 + 1) * dd, q == p * dd, p >= 0;
            if n + j >= 128 {
                if n + j > 128 {
                    lemma_pow2_strictly_increases(128, (n + j) as nat);
                }
                assert(r1 * q >= q) by (nonlinear_arith)
                    requires r1 >= 1, q >= 0;
            }
        }
        n = n + j;
    }
    proof {
        assert(rest == 1);
        lemma_pow2_unfold((n + 1) as nat);
        assert(1 * pow2(n as nat) == pow2(n as nat));
        assert((rest + 1) * pow2(n as nat) == 2 * pow2(n as nat));
    }
    n + 1
}

/// `2 * x` is at least (more than, where `x` is inexact) the double midpoint below
/// `enc`, and at most (less than) the one above, where `x` is `m * 2^k`, or lies
/// strictly between `m * 2^k` and `(m + 1) * 2^k` where `sticky`. All of it in
/// units of 2^-(1074 + BIAS).
pub open spec fn rounded(m: int, sticky: bool, k: int, enc: int) -> bool {
    let p = pow2((k + BIAS) as nat);
    let s = pow2(BIAS as nat);
    &&& 0 <= enc <= INF_ENC
    &&& enc > 0 ==> {
        let h = (mag(enc - 1) + mag(enc)) * s;
        2 * (m * p) > h || 2 * (m * p) == h && (sticky || enc % 2 == 0)
    }
    &&& enc < INF_ENC ==> {
        let h = (mag(enc) + mag(enc + 1)) * s;
        if sticky {
            2 * ((m + 1) * p) <= h
        } else {
            2 * (m * p) < h || 2 * (m * p) == h && enc % 2 == 0
        }
    }
}

/// The ratio `num / den` is `m * 2^k`, or lies strictly between that and
/// `(m + 1) * 2^k` where `sticky`.
pub open spec fn holds_ratio(num: int, den: int, m: int, sticky: bool, k: int) -> bool {
    let p = pow2((k + BIAS) as nat);
    let s = pow2(BIAS as nat);
    if sticky {
        m * p * den < num * s < (m + 1) * p * den
    } else {
        num * s == m * p * den
    }
}

/// Rounding a scaled integer rounds every ratio that it stands for.
pub proof fn lemma_rounded_ratio(num: int, den: int, m: int, sticky: bool, k: int, enc: u64)
    requires
        den > 0,
        holds_ratio(num, den, m, sticky, k),
        rounded(m, sticky, k, enc as int),
    ensures
        round_ratio(num, den) == enc,
{
    let p = pow2((k + BIAS) as nat) as int;
    let s = pow2(BIAS as nat) as int;
    let e = enc as int;
    lemma_pow2_pos(BIAS as nat);
    if e > 0 {
        let l = mag(e - 1) + mag(e);
        if sticky {
            assert(2 * num > l * den) by (nonlinear_arith)
                requires 2 * (m * p) >= l * s, m * p * den < num * s, den > 0, s > 0;
        } else if 2 * (m * p) > l * s {
            assert(2 * num > l * den) by (nonlinear_arith)
                requires 2 * (m * p) > l * s, num * s == m * p * den, den > 0, s > 0;
        } else {
            assert(2 * num == l * den) by (nonlinear_arith)
                requires 2 * (m * p) == l * s, num * s == m * p * den, den > 0, s > 0;
        }
    }
    if e < INF_ENC {
        let h = mag(e) + mag(e + 1);
        if sticky {
            assert(2 * num < h * den) by (nonlinear_arith)
                requires 2 * ((m + 1) * p) <= h * s, num * s < (m + 1) * p * den, den > 0, s > 0;
        } else if 2 * (m * p) < h * s {
            assert(2 * num < h * den) by (nonlinear_arith)
                requires 2 * (m * p) < h * s, num * s == m * p * den, den > 0, s > 0;
        } else {
            assert(2 * num == h * den) by (nonlinear_arith)
                requires 2 * (m * p) == h * s, num * s == m * p * den, den > 0, s > 0;
        }
    }
    lemma_round_ratio_is(num, den, enc);
}

/// The powers of two of one rounding: with `t` the exponent of the last place kept
/// and `d` that of the places dropped.
proof fn lemma_units(k: int, t: nat, d: nat)
    requires
        -BIAS <= k,
        t == k + d,
    ensures
        pow2((k + BIAS) as nat) * pow2(d) == pow2(t) * pow2(BIAS as nat),
        pow2((k + BIAS) as nat) > 0,
        pow2(BIAS as nat) > 0,
        pow2(t) > 0,
        pow2(d) > 0,
{
    lemma_pow2_adds((k + BIAS) as nat, d);
    lemma_pow2_adds(t, BIAS as nat);
    lemma_pow2_pos((k + BIAS) as nat);
    lemma_pow2_pos(BIAS as nat);
    lemma_pow2_pos(t);
    lemma_pow2_pos(d);
}

/// Dropping `d` places: `hi` is kept, `lo` dropped.
proof fn lemma_drop(m: int, sticky: bool, k: int, t: nat, d: nat, hi: int, lo: int, enc: int)
    requires
        -BIAS <= k,
        t == k + d,
        d >= 1,
        t <= 2045,
        0 <= hi < 2 * CELL,
        t == 0 || hi >= CELL,
        m == hi * pow2(d) + lo,
        0 <= lo < pow2(d),
        ({
            let half = pow2((d - 1) as nat);
            let up = lo > half || lo == half && (sticky || hi % 2 == 1);
            enc == t * CELL + hi + (if up { 1int } else { 0int })
        }),
    ensures
        rounded(m, sticky, k, enc),
{
    let p = pow2((k + BIAS) as nat) as int;
    let s = pow2(BIAS as nat) as int;
    let half = pow2((d - 1) as nat) as int;
    let b0 = t * CELL + hi;
    let u = pow2(t) as int;
    let dd = pow2(d) as int;
    lemma_units(k, t, d);
    lemma_pow2_unfold(d);
    lemma_mag_cell(t, hi);
    lemma_mag_cell(2045, 2 * CELL - 1);
    let ulp = u * s;
    assert(m * p == hi * ulp + lo * p) by (nonlinear_arith)
        requires m == hi * dd + lo, p * dd == ulp;
    assert(2 * (half * p) == ulp) by (nonlinear_arith)
        requires dd == 2 * half, p * dd == ulp;
    assert(lo * p + p <= ulp) by (nonlinear_arith)
        requires lo + 1 <= dd, p * dd == ulp, p > 0;
    assert(mag(b0) * s == hi * ulp) by (nonlinear_arith)
        requires mag(b0) == hi * u, ulp == u * s;
    assert(mag(b0 + 1) * s == hi * ulp + ulp) by (nonlinear_arith)
        requires mag(b0 + 1) == (hi + 1) * u, ulp == u * s;
    assert(lo * p >= 0) by (nonlinear_arith)
        requires lo >= 0, p > 0;
    assert((m + 1) * p == m * p + p) by (nonlinear_arith);
    assert((mag(b0) + mag(b0 + 1)) * s == mag(b0) * s + mag(b0 + 1) * s) by (nonlinear_arith);
    assert(b0 % 2 == hi % 2);
    assert(b0 < INF_ENC) by (nonlinear_arith)
        requires b0 == t * CELL + hi, t <= 2045, hi < 2 * CELL, CELL == 0x0010_0000_0000_0000,
            INF_ENC == 2047 * CELL;
    if enc == b0 {
        if b0 > 0 {
            lemma_mag_increasing(b0 - 1, b0);
            assert((mag(b0 - 1) + mag(b0)) * s < 2 * (mag(b0) * s)) by (nonlinear_arith)
                requires mag(b0 - 1) < mag(b0), s > 0;
        }
        if sticky {
            assert(lo * p + p <= half * p) by (nonlinear_arith)
                requires lo + 1 <= half, p > 0;
        } else if lo < half {
            assert(lo * p < half * p) by (nonlinear_arith)
                requires lo < half, p > 0;
        }
    } else {
        if lo > half {
            assert(lo * p > half * p) by (nonlinear_arith)
                requires lo > half, p > 0;
        }
        lemma_mag_increasing(enc, enc + 1);
        assert((mag(enc) + mag(enc + 1)) * s > 2 * (mag(enc) * s)) by (nonlinear_arith)
            requires mag(enc) < mag(enc + 1), s > 0;
    }
}

/// No place is dropped: the value is a magnitude.
proof fn lemma_keep(m: int, k: int, t: nat, up: nat, hi: int)
    requires
        -BIAS <= k,
        k == t + up,
        t <= 2045,
        0 <= hi < 2 * CELL,
        t == 0 || hi >= CELL,
        hi == m * pow2(up),
    ensures
        rounded(m, false, k, t * CELL + hi),
{
    let p = pow2((k + BIAS) as nat) as int;
    let s = pow2(BIAS as nat) as int;
    let b = t * CELL + hi;
    lemma_pow2_adds(up, (t + BIAS) as nat);
    lemma_pow2_adds(t, BIAS as nat);
    lemma_pow2_pos(BIAS as nat);
    lemma_mag_cell(t, hi);
    assert(m * p == mag(b) * s) by (nonlinear_arith)
        requires
            p == pow2(up) * (pow2(t) * s),
            mag(b) == hi * pow2(t),
            hi == m * pow2(up),
    ;
    assert(b < INF_ENC) by (nonlinear_arith)
        requires b == t * CELL + hi, t <= 2045, hi < 2 * CELL, CELL == 0x0010_0000_0000_0000,
            INF_ENC == 2047 * CELL;
    if b > 0 {
        lemma_mag_increasing(b - 1, b);
        assert((mag(b - 1) + mag(b)) * s < 2 * (mag(b) * s)) by (nonlinear_arith)
            requires mag(b - 1) < mag(b), s > 0;
    }
    lemma_mag_increasing(b, b + 1);
    assert((mag(b) + mag(b + 1)) * s > 2 * (mag(b) * s)) by (nonlinear_arith)
        requires mag(b) < mag(b + 1), s > 0;
}

/// A value of at least 2^1024 rounds to infinity.
proof fn lemma_overflow(m: int, sticky: bool, k: int, n: nat)
    requires
        -BIAS <= k,
        n >= 1,
        pow2((n - 1) as nat) <= m,
        n - 1 + k >= 2098,
    ensures
        rounded(m, sticky, k, INF_ENC as int),
{
    let p = pow2((k + BIAS) as nat) as int;
    let s = pow2(BIAS as nat) as int;
    lemma_pow2_pos((k + BIAS) as nat);
    lemma_pow2_pos(BIAS as nat);
    lemma_pow2_adds((n - 1) as nat, (k + BIAS) as nat);
    lemma_pow2_adds(52, 2046);
    lemma_pow2_adds(2098, BIAS as nat);
    if n - 1 + k > 2098 {
        lemma_pow2_strictly_increases((2098 + BIAS) as nat, (n - 1 + k + BIAS) as nat);
    }
    lemma_powers();
    lemma_mag_cell(2046, CELL as int);
    lemma_mag_increasing(INF_ENC - 1, INF_ENC as int);
    let top = mag(INF_ENC as int);
    assert(top == pow2(2098));
    assert(m * p >= top * s) by (nonlinear_arith)
        requires
            m >= pow2((n - 1) as nat),
            p > 0,
            pow2((n - 1) as nat) * p >= top * s,
    ;
    assert((mag(INF_ENC - 1) + top) * s < 2 * (top * s)) by (nonlinear_arith)
        requires mag(INF_ENC - 1) < top, s > 0;
}

/// The encoding nearest to `m * 2^k`, or to anything strictly between that and
/// `(m + 1) * 2^k` where `sticky`.
pub fn round_scaled(m: u128, sticky: bool, k: i64) -> (enc: u64)
    requires
        0 < m < 0x4000_0000_0000_0000_0000_0000_0000_0000,
        sticky ==> m >= 0x40_0000_0000_0000,
        -BIAS <= k <= 4000,
    ensures
        rounded(m as int, sticky, k as int, enc as int),
{
    let n: u64 = digits(m);
    proof {
        lemma_powers();
        if n > 127 {
            lemma_pow2_strictly_increases(126, (n - 1) as nat);
        }
        if sticky && n < 55 {
            lemma_pow2_strictly_increases(n as nat, 55);
        }
    }
    let fit: i64 = n as i64 - 53 + k;
    let t: i64 = if fit > 0 {
        fit
    } else {
        0
    };
    if t > 2045 {
        proof {
            lemma_overflow(m as int, sticky, k as int, n as nat);
        }
        return INF_ENC;
    }
    if k >= t {
        let up: u64 = (k - t) as u64;
        let ghost hi = m * pow2(up as nat);
        proof {
            lemma_pow2_adds(n as nat, up as nat);
            lemma_pow2_adds((n - 1) as nat, up as nat);
            lemma_pow2_pos(up as nat);
            assert(pow2((n - 1) as nat) * pow2(up as nat) <= hi < pow2(n as nat) * pow2(up as nat))
                by (nonlinear_arith)
                requires
                    hi == m * pow2(up as nat),
                    pow2((n - 1) as nat) <= m < pow2(n as nat),
                    pow2(up as nat) > 0,
            ;
            if n + up < 53 {
                lemma_pow2_strictly_increases((n + up) as nat, 53);
            }
            assert(hi < 2 * CELL);
            assert(t == 0 || hi >= CELL);
            lemma_keep(m as int, k as int, t as nat, up as nat, hi as int);
            assert(m <= hi) by (nonlinear_arith)
                requires hi == m * pow2(up as nat), pow2(up as nat) >= 1, m >= 0;
            assert(t * CELL <= 2045 * CELL) by (nonlinear_arith)
                requires 0 <= t <= 2045, CELL == 0x0010_0000_0000_0000;
            if up >= 53 {
                if up > 53 { lemma_pow2_strictly_increases(53, up as nat); }
                assert(hi >= pow2(up as nat)) by (nonlinear_arith)
                    requires hi == m * pow2(up as nat), m >= 1;
            }
        }
        let hi_x: u64 = m as u64 * p64(up);
        return t as u64 * CELL + hi_x;
    }
    let d: u64 = (t - k) as u64;
    if d >= 127 {
        proof {
            assert(t == 0);
            lemma_units(k as int, 0, d as nat);
            lemma_mag_zero(0);
            if d > 127 {
                lemma_pow2_strictly_increases(127, d as nat);
            }
            let p = pow2((k + BIAS) as nat) as int;
            let dd = pow2(d as nat) as int;
            assert(2 * ((m + 1) * p) <= dd * p) by (nonlinear_arith)
                requires 2 * (m + 1) <= dd, p > 0;
            assert((m + 1) * p == m * p + p) by (nonlinear_arith);
            assert(dd * p == p * dd) by (nonlinear_arith);
        }
        return 0;
    }
    proof {
        lemma_units(k as int, t as nat, d as nat);
    }
    let dd: u128 = p128(d);
    let half: u128 = p128(d - 1);
    let hi: u128 = m / dd;
    let lo: u128 = m % dd;
    proof {
        let h = hi as int;
        let x = dd as int;
        let mm = m as int;
        assert(mm == h * x + lo && 0 <= h && 0 <= lo < x) by (nonlinear_arith)
            requires h == mm / x, lo == mm % x, x > 0, mm >= 0;
        // n - d <= 53, with equality where t > 0
        if n >= d + 53 {
            assert(n == d + 53);
            lemma_pow2_adds(53, d as nat);
            lemma_pow2_adds(52, d as nat);
        } else {
            lemma_pow2_strictly_increases(n as nat, (d + 53) as nat);
            lemma_pow2_adds(53, d as nat);
        }
        assert(h < 2 * CELL) by (nonlinear_arith)
            requires h * x <= mm, mm < (2 * CELL) * x, x > 0;
        assert((h + 1) * x == h * x + x) by (nonlinear_arith);
        if t > 0 {
            assert(h >= CELL) by (nonlinear_arith)
                requires mm < (h + 1) * x, mm >= CELL * x, x > 0;
        }
        assert(t * CELL <= 2045 * CELL) by (nonlinear_arith)
            requires 0 <= t <= 2045, CELL == 0x0010_0000_0000_0000;
    }
    let up: bool = lo > half || (lo == half && (sticky || hi % 2 == 1));
    let enc: u64 = t as u64 * CELL + hi as u64 + (if up { 1 } else { 0 });
    proof {
        lemma_drop(m as int, sticky, k as int, t as nat, d as nat, hi as int, lo as int, enc as int);
    }
    enc
}

/// The significand of a finite encoding, and the exponent of its last place.
pub fn split(enc: u64) -> (r: (u64, u64))
    requires
        enc < INF_ENC,
    ensures
        r.0 == significand(enc as int),
        r.1 == scale(enc as int),
        r.0 < 2 * CELL,
        r.1 <= 2045,
        r.1 == 0 || r.0 >= CELL,
        mag(enc as int) == r.0 * pow2(r.1 as nat),
        enc > 0 ==> r.0 > 0,
{
    proof {
        lemma_cell_of(enc as int);
        lemma_mag_zero(enc as int);
    }
    let t: u64 = if enc < CELL {
        0
    } else {
        enc / CELL - 1
    };
    proof {
        assert(0 <= t * CELL <= 2045 * CELL) by (nonlinear_arith)
            requires 0 <= t <= 2045, CELL == 0x0010_0000_0000_0000;
        assert(t == scale(enc as int));
        if enc > 0 && enc - t * CELL == 0 {
            assert(0 * pow2(t as nat) == 0);
        }
    }
    (enc - t * CELL, t)
}

} // verus!
