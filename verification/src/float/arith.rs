//! Correctly rounded arithmetic on the encodings of finite magnitudes.
use super::model::{
    lemma_mag_increasing, lemma_mag_zero, lemma_round_ratio_is, lemma_round_root_is, mag,
    round_ratio, round_root, scale, CELL, INF_ENC,
};
use super::round::{lemma_powers, lemma_rounded_ratio, p128, round_scaled, split, BIAS};
use vstd::arithmetic::power2::{lemma_pow2_adds, lemma_pow2_pos, lemma_pow2_strictly_increases, pow2};
use vstd::prelude::*;

verus! {

/// Zero rounds to zero.
pub proof fn lemma_round_zero(den: int)
    requires
        den > 0,
    ensures
        round_ratio(0, den) == 0,
{
    lemma_mag_zero(1);
    assert(2 * 0 < (mag(0) + mag(1)) * den) by (nonlinear_arith)
        requires mag(0) + mag(1) == 1, den > 0;
    lemma_round_ratio_is(0, den, 0);
}

/// `2^a * 2^b == 2^c * 2^d` where the exponents add up to the same.
proof fn lemma_regroup(a: nat, b: nat, c: nat, d: nat)
    requires
        a + b == c + d,
    ensures
        pow2(a) * pow2(b) == pow2(c) * pow2(d),
{
    lemma_pow2_adds(a, b);
    lemma_pow2_adds(c, d);
}

/// The rounded product of two magnitudes.
pub fn mul_enc(a: u64, b: u64) -> (r: u64)
    requires
        a < INF_ENC,
        b < INF_ENC,
    ensures
        r == round_ratio(mag(a as int) * mag(b as int), pow2(1074) as int),
        r <= INF_ENC,
{
    let (ma, ka) = split(a);
    let (mb, kb) = split(b);
    proof {
        assert(ma * mb < (2 * CELL) * (2 * CELL)) by (nonlinear_arith)
            requires 0 <= ma < 2 * CELL, 0 <= mb < 2 * CELL;
        lemma_pow2_pos(1074);
    }
    let m: u128 = ma as u128 * mb as u128;
    let k: i64 = ka as i64 + kb as i64 - 1074;
    let ghost num = mag(a as int) * mag(b as int);
    let ghost pa = pow2(ka as nat) as int;
    let ghost pb = pow2(kb as nat) as int;
    proof {
        assert(num == m * (pa * pb)) by (nonlinear_arith)
            requires num == (ma * pa) * (mb * pb), m == ma * mb;
    }
    if m == 0 {
        proof {
            assert(num == 0) by (nonlinear_arith)
                requires num == m * (pa * pb), m == 0;
            lemma_round_zero(pow2(1074) as int);
        }
        return 0;
    }
    let r: u64 = round_scaled(m, false, k);
    proof {
        let s = pow2(BIAS as nat) as int;
        let p = pow2((k + BIAS) as nat) as int;
        let den = pow2(1074) as int;
        lemma_pow2_adds(ka as nat, kb as nat);
        lemma_regroup((ka + kb) as nat, BIAS as nat, (k + BIAS) as nat, 1074);
        assert(num * s == m * p * den) by (nonlinear_arith)
            requires num == m * (pa * pb), (pa * pb) * s == p * den;
        lemma_rounded_ratio(num, den, m as int, false, k as int, r);
    }
    r
}

proof fn lemma_scale_order(a: int, b: int)
    requires
        0 <= b <= a,
    ensures
        scale(b) <= scale(a),
{
    let c = CELL as int;
    assert(b / c <= a / c) by (nonlinear_arith)
        requires 0 <= b <= a, c > 0;
    if a < c {
    } else if b >= c {
        assert(b / c >= 1) by (nonlinear_arith)
            requires b >= c, c > 0;
    }
}

/// The rounded sum (`plus`) or difference of two magnitudes, the first of which
/// is not the smaller one.
pub fn add_enc(a: u64, b: u64, plus: bool) -> (r: u64)
    requires
        b <= a < INF_ENC,
        0 < a,
        plus || b < a,
    ensures
        r == round_ratio(
            if plus {
                mag(a as int) + mag(b as int)
            } else {
                mag(a as int) - mag(b as int)
            },
            1,
        ),
        r <= INF_ENC,
{
    let (ma, ka) = split(a);
    let (mb, kb) = split(b);
    let ghost num = if plus {
        mag(a as int) + mag(b as int)
    } else {
        mag(a as int) - mag(b as int)
    };
    let ghost s = pow2(BIAS as nat) as int;
    let ghost pa = pow2(ka as nat) as int;
    let ghost pb = pow2(kb as nat) as int;
    proof {
        lemma_scale_order(a as int, b as int);
        if b < a {
            lemma_mag_increasing(b as int, a as int);
        }
        lemma_mag_zero(a as int);
        lemma_mag_zero(b as int);
        lemma_powers();
        lemma_pow2_pos(ka as nat);
        lemma_pow2_pos(kb as nat);
        lemma_pow2_pos(BIAS as nat);
    }
    let d: u64 = ka - kb;
    if d <= 72 {
        let w: u128 = p128(d);
        proof {
            if d < 72 {
                lemma_pow2_strictly_increases(d as nat, 72);
            }
            lemma_pow2_pos(d as nat);
            lemma_pow2_adds(20, 52);
            lemma_pow2_adds(d as nat, kb as nat);
            assert(0 <= ma * w < (2 * CELL) * 0x100_0000_0000_0000_0000int) by (nonlinear_arith)
                requires 0 <= ma < 2 * CELL, 0 < w <= 0x100_0000_0000_0000_0000int;
            assert(mag(a as int) == (ma * w) * pb) by (nonlinear_arith)
                requires mag(a as int) == ma * pa, pa == w * pb;
            if !plus {
                assert(ma * w > mb) by (nonlinear_arith)
                    requires (ma * w) * pb > mb * pb, pb > 0;
            } else {
                assert(ma * w > 0) by (nonlinear_arith)
                    requires (ma * w) * pb > 0, pb > 0;
            }
        }
        let x: u128 = ma as u128 * w;
        let m: u128 = if plus {
            x + mb as u128
        } else {
            x - mb as u128
        };
        let r: u64 = round_scaled(m, false, kb as i64);
        proof {
            let p = pow2((kb + BIAS) as nat) as int;
            lemma_pow2_adds(kb as nat, BIAS as nat);
            assert(num == m * pb) by (nonlinear_arith)
                requires
                    num == (if plus { x * pb + mb * pb } else { x * pb - mb * pb }),
                    m == (if plus { x + mb } else { x - mb }),
            ;
            assert(num * s == m * p * 1) by (nonlinear_arith)
                requires num == m * pb, p == pb * s;
            lemma_rounded_ratio(num, 1, m as int, false, kb as int, r);
        }
        return r;
    }
    let sticky: bool = mb > 0;
    let x: u128 = ma as u128 * 0x10_0000;
    let m: u128 = if plus || !sticky {
        x
    } else {
        x - 1
    };
    let k: i64 = ka as i64 - 20;
    let r: u64 = round_scaled(m, sticky, k);
    proof {
        let p = pow2((k + BIAS) as nat) as int;
        lemma_regroup(20, (k + BIAS) as nat, ka as nat, BIAS as nat);
        assert(x * p == mag(a as int) * s) by (nonlinear_arith)
            requires
                x == ma * 0x10_0000,
                mag(a as int) == ma * pa,
                0x10_0000 * p == pa * s,
        ;
        if sticky {
            // the smaller magnitude is less than one place of `m`
            lemma_pow2_adds(53, kb as nat);
            if 53 + kb < ka - 20 {
                lemma_pow2_strictly_increases((53 + kb) as nat, (ka - 20) as nat);
            }
            lemma_pow2_adds((ka - 20) as nat, BIAS as nat);
            assert(0 < mag(b as int) < pow2((ka - 20) as nat)) by (nonlinear_arith)
                requires
                    mag(b as int) == mb * pb,
                    0 < mb < 2 * CELL,
                    pb > 0,
                    (2 * CELL) * pb <= pow2((ka - 20) as nat),
            ;
            assert(0 < mag(b as int) * s < p) by (nonlinear_arith)
                requires 0 < mag(b as int) < pow2((ka - 20) as nat), p == pow2((ka - 20) as nat) * s, s > 0;
            assert(m * p * 1 < num * s < (m + 1) * p * 1) by (nonlinear_arith)
                requires
                    x * p == mag(a as int) * s,
                    0 < mag(b as int) * s < p,
                    num == (if plus { mag(a as int) + mag(b as int) } else { mag(a as int) - mag(b as int) }),
                    m == (if plus { x as int } else { x - 1 }),
            ;
        } else {
            assert(mag(b as int) == 0) by (nonlinear_arith)
                requires mag(b as int) == mb * pb, mb == 0;
            assert(num * s == m * p * 1);
        }
        lemma_rounded_ratio(num, 1, m as int, sticky, k as int, r);
    }
    r
}

/// A positive magnitude with all 53 digits of its significand.
fn normal(enc: u64) -> (r: (u64, i64))
    requires
        0 < enc < INF_ENC,
    ensures
        CELL <= r.0 < 2 * CELL,
        -52 <= r.1 <= 2045,
        mag(enc as int) * pow2(60) == r.0 * pow2((r.1 + 60) as nat),
{
    let (m, k) = split(enc);
    let mut m2: u64 = m;
    let mut k2: i64 = k as i64;
    proof {
        lemma_powers();
        lemma_pow2_adds(k as nat, 60);
        assert(mag(enc as int) * pow2(60) == m2 * pow2((k2 + 60) as nat)) by (nonlinear_arith)
            requires
                mag(enc as int) == m * pow2(k as nat),
                pow2((k2 + 60) as nat) == pow2(k as nat) * pow2(60),
                m2 == m,
        ;
        assert(1 * m2 >= m2);
    }
    let ghost mut lost: nat = 0;
    while m2 < CELL
        invariant
            0 < m2 < 2 * CELL,
            k2 == k - lost,
            lost <= 52,
            0 <= k <= 2045,
            lost > 0 ==> k == 0,
            m2 < CELL ==> k == 0,
            m2 >= pow2(lost),
            mag(enc as int) * pow2(60) == m2 * pow2((k2 + 60) as nat),
        decreases 2 * CELL - m2,
    {
        proof {
            lemma_powers();
            if lost >= 52 {
                assert(m2 >= CELL);
            }
            vstd::arithmetic::power2::lemma_pow2_unfold(lost + 1);
            vstd::arithmetic::power2::lemma_pow2_unfold((k2 + 60) as nat);
            let q = pow2((k2 + 59) as nat) as int;
            assert(m2 * (2 * q) == (2 * m2) * q) by (nonlinear_arith);
            lost = lost + 1;
        }
        m2 = 2 * m2;
        k2 = k2 - 1;
    }
    (m2, k2)
}

/// The rounded quotient of two magnitudes.
pub fn div_enc(a: u64, b: u64) -> (r: u64)
    requires
        a < INF_ENC,
        0 < b < INF_ENC,
    ensures
        r == round_ratio(mag(a as int) * pow2(1074), mag(b as int)),
        r <= INF_ENC,
{
    proof {
        lemma_mag_zero(b as int);
        lemma_mag_zero(a as int);
        lemma_powers();
    }
    if a == 0 {
        proof {
            assert(0 * pow2(1074) == 0);
            lemma_round_zero(mag(b as int));
        }
        return 0;
    }
    let (ma, ka) = normal(a);
    let (mb, kb) = normal(b);
    let x: u128 = ma as u128 * 0x1_0000_0000_0000_0000;
    let m: u128 = x / (mb as u128);
    let rest: u128 = x % (mb as u128);
    let sticky: bool = rest > 0;
    let k: i64 = ka - kb + 1010;
    proof {
        let xx = x as int;
        let y = mb as int;
        let q = m as int;
        assert(xx == q * y + rest && 0 <= rest < y) by (nonlinear_arith)
            requires q == xx / y, rest == xx % y, y > 0, xx >= 0;
        assert(q >= 0x40_0000_0000_0000 && q < 0x1_0000_0000_0000_0000int * 2) by (nonlinear_arith)
            requires
                xx == q * y + rest,
                0 <= rest < y,
                CELL <= y < 2 * CELL,
                CELL == 0x0010_0000_0000_0000,
                xx >= CELL * 0x1_0000_0000_0000_0000,
                xx < (2 * CELL) * 0x1_0000_0000_0000_0000,
        ;
    }
    let r: u64 = round_scaled(m, sticky, k);
    proof {
        let s = pow2(BIAS as nat) as int;
        let p = pow2((k + BIAS) as nat) as int;
        let den = mag(b as int);
        let num = mag(a as int) * pow2(1074);
        let f = pow2(60) as int;
        let ea = pow2((ka + 60) as nat) as int;
        let eb = pow2((kb + 60) as nat) as int;
        let g = pow2((ka + 60 + 2210) as nat) as int;
        let y = mb as int;
        let q = m as int;
        lemma_pow2_pos(60);
        lemma_pow2_pos((ka + 60 + 2210) as nat);
        lemma_pow2_adds((k + BIAS) as nat, (kb + 60) as nat);
        assert(p * eb == g);
        lemma_pow2_adds(1074, BIAS as nat);
        lemma_regroup((ka + 60) as nat, 2274, 64, (ka + 60 + 2210) as nat);
        assert((q * p * den) * f == (q * y) * g) by (nonlinear_arith)
            requires den * f == y * eb, p * eb == g;
        assert(((q + 1) * p * den) * f == (q * y + y) * g) by (nonlinear_arith)
            requires den * f == y * eb, p * eb == g;
        assert((num * s) * f == x * g) by (nonlinear_arith)
            requires
                num == mag(a as int) * pow2(1074),
                mag(a as int) * f == ma * ea,
                pow2(2274) == pow2(1074) * s,
                ea * pow2(2274) == 0x1_0000_0000_0000_0000 * g,
                x == ma * 0x1_0000_0000_0000_0000,
        ;
        if sticky {
            assert((q * y) * g < x * g < (q * y + y) * g) by (nonlinear_arith)
                requires q * y < x < q * y + y, g > 0;
            assert(q * p * den < num * s < (q + 1) * p * den) by (nonlinear_arith)
                requires
                    (q * p * den) * f < (num * s) * f < ((q + 1) * p * den) * f,
                    f > 0,
            ;
        } else {
            assert(q * p * den == num * s) by (nonlinear_arith)
                requires (q * p * den) * f == (num * s) * f, f > 0;
        }
        lemma_rounded_ratio(num, den, q, sticky, k as int, r);
    }
    r
}

/// The integer square root.
fn isqrt(n: u128) -> (r: u64)
    requires
        n < 0x4000_0000_0000_0000_0000_0000_0000_0000,
    ensures
        r * r <= n < (r + 1) * (r + 1),
        r < 0x8000_0000_0000_0000,
{
    let mut lo: u64 = 0;
    let mut hi: u64 = 0x8000_0000_0000_0000;
    while hi - lo > 1
        invariant
            lo < hi <= 0x8000_0000_0000_0000,
            lo * lo <= n < hi * hi,
        decreases hi - lo,
    {
        let mid: u64 = lo + (hi - lo) / 2;
        proof {
            assert(mid * mid <= 0x8000_0000_0000_0000int * 0x8000_0000_0000_0000int) by (nonlinear_arith)
                requires 0 <= mid <= 0x8000_0000_0000_0000int;
        }
        if mid as u128 * mid as u128 <= n {
            lo = mid;
        } else {
            hi = mid;
        }
    }
    lo
}

/// The rounded square root of a positive magnitude.
pub fn sqrt_enc(a: u64) -> (r: u64)
    requires
        0 < a < INF_ENC,
    ensures
        r == round_root(mag(a as int) * pow2(1074)),
        r <= INF_ENC,
{
    let (ma, ka) = normal(a);
    let up: u64 = if (ka + 52) % 2 == 0 {
        70
    } else {
        71
    };
    let h: i64 = (ka + 1074 - up as i64) / 2;
    let w: u128 = p128(up);
    proof {
        lemma_powers();
        lemma_pow2_adds(20, 52);
        lemma_pow2_adds(20, 53);
        vstd::arithmetic::power2::lemma_pow2_unfold(73);
        vstd::arithmetic::power2::lemma_pow2_unfold(72);
        vstd::arithmetic::power2::lemma_pow2_unfold(71);
        assert(CELL * 0x40_0000_0000_0000_0000int <= ma * w < (2 * CELL) * 0x80_0000_0000_0000_0000int)
            by (nonlinear_arith)
            requires
                CELL <= ma < 2 * CELL,
                0x40_0000_0000_0000_0000int <= w <= 0x80_0000_0000_0000_0000int,
        ;
    }
    let n: u128 = ma as u128 * w;
    let root: u64 = isqrt(n);
    let sq: u128 = root as u128 * root as u128;
    let sticky: bool = sq < n;
    proof {
        assert(root >= 0x40_0000_0000_0000) by (nonlinear_arith)
            requires n < (root + 1) * (root + 1), n >= CELL * 0x40_0000_0000_0000_0000int,
                CELL == 0x0010_0000_0000_0000;
    }
    let r: u64 = round_scaled(root as u128, sticky, h);
    proof {
        let s = pow2(BIAS as nat) as int;
        let p = pow2((h + BIAS) as nat) as int;
        let u = pow2(h as nat) as int;
        let num = mag(a as int) * pow2(1074);
        let e = r as int;
        let q = root as int;
        lemma_pow2_pos(BIAS as nat);
        lemma_pow2_pos(h as nat);
        lemma_pow2_adds(h as nat, BIAS as nat);
        lemma_pow2_adds(h as nat, h as nat);
        lemma_pow2_pos(60);
        assert(2 * h == ka + 1074 - up);
        lemma_regroup((ka + 60) as nat, 1074, (up + 60) as nat, (2 * h) as nat);
        lemma_pow2_adds(up as nat, 60);
        let f = pow2(60) as int;
        assert(num == n * (u * u)) by {
            let ea = pow2((ka + 60) as nat) as int;
            assert(num * f == (n * (u * u)) * f) by (nonlinear_arith)
                requires
                    num == mag(a as int) * pow2(1074),
                    mag(a as int) * f == ma * ea,
                    ea * pow2(1074) == (w * f) * (u * u),
                    n == ma * w,
            ;
            assert(num == n * (u * u)) by (nonlinear_arith)
                requires num * f == (n * (u * u)) * f, f > 0;
        }
        lemma_mag_zero(e);
        lemma_mag_zero(e + 1);
        // thresholds are integers: compare 2 * root * u with them
        if e > 0 {
            lemma_mag_zero(e - 1);
            let l = mag(e - 1) + mag(e);
            assert(2 * (q * p) == (2 * (q * u)) * s) by (nonlinear_arith)
                requires p == u * s;
            lemma_below(q, u, n as int, num, l, s, sticky, e % 2 == 0);
        }
        if e < INF_ENC {
            let l = mag(e) + mag(e + 1);
            assert(2 * (q * p) == (2 * (q * u)) * s) by (nonlinear_arith)
                requires p == u * s;
            assert(2 * ((q + 1) * p) == (2 * ((q + 1) * u)) * s) by (nonlinear_arith)
                requires p == u * s;
            lemma_above(q, u, n as int, num, l, s, sticky, e % 2 == 0);
        }
        lemma_round_root_is(num, r);
    }
    r
}

proof fn lemma_below(q: int, u: int, n: int, num: int, l: int, s: int, sticky: bool, even: bool)
    requires
        q >= 0,
        u > 0,
        s > 0,
        l >= 0,
        num == n * (u * u),
        q * q <= n,
        sticky == (q * q < n),
        (2 * (q * u)) * s > l * s || (2 * (q * u)) * s == l * s && (sticky || even),
    ensures
        4 * num > l * l || 4 * num == l * l && even,
{
    let v = 2 * (q * u);
    assert(v >= 0) by (nonlinear_arith)
        requires v == 2 * (q * u), q >= 0, u > 0;
    assert(v * v == 4 * ((q * q) * (u * u))) by (nonlinear_arith)
        requires v == 2 * (q * u);
    assert(u * u > 0) by (nonlinear_arith)
        requires u > 0;
    assert((q * q) * (u * u) <= num && (sticky ==> (q * q) * (u * u) < num)) by (nonlinear_arith)
        requires num == n * (u * u), q * q <= n, sticky ==> q * q < n, u * u > 0;
    if v * s > l * s {
        assert(v > l) by (nonlinear_arith)
            requires v * s > l * s, s > 0;
        assert(v * v > l * l) by (nonlinear_arith)
            requires v > l, l >= 0;
    } else {
        assert(v == l) by (nonlinear_arith)
            requires v * s == l * s, s > 0;
    }
}

proof fn lemma_above(q: int, u: int, n: int, num: int, l: int, s: int, sticky: bool, even: bool)
    requires
        q >= 0,
        u > 0,
        s > 0,
        l >= 0,
        num == n * (u * u),
        q * q <= n < (q + 1) * (q + 1),
        sticky == (q * q < n),
        if sticky {
            (2 * ((q + 1) * u)) * s <= l * s
        } else {
            (2 * (q * u)) * s < l * s || (2 * (q * u)) * s == l * s && even
        },
    ensures
        4 * num < l * l || 4 * num == l * l && even,
{
    let g = if sticky {
        q + 1
    } else {
        q
    };
    let v = 2 * (g * u);
    assert(v >= 0) by (nonlinear_arith)
        requires v == 2 * (g * u), g >= 0, u > 0;
    assert(v * v == 4 * ((g * g) * (u * u))) by (nonlinear_arith)
        requires v == 2 * (g * u);
    assert(u * u > 0) by (nonlinear_arith)
        requires u > 0;
    assert((g * g) * (u * u) >= num && (sticky ==> (g * g) * (u * u) > num)) by (nonlinear_arith)
        requires num == n * (u * u), n <= g * g, sticky ==> n < g * g, u * u > 0;
    if v * s < l * s {
        assert(v < l) by (nonlinear_arith)
            requires v * s < l * s, s > 0;
        assert(v * v < l * l) by (nonlinear_arith)
            requires 0 <= v < l;
    } else {
        assert(v == l) by (nonlinear_arith)
            requires v * s == l * s, s > 0;
    }
}

} // verus!
