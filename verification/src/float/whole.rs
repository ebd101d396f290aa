//! The whole part of a magnitude.
use super::arith::lemma_round_zero;
use super::model::{
    lemma_cell_of, lemma_mag_cell, lemma_round_exact, mag, round_ratio, CELL, INF_ENC,
};
use super::round::{lemma_powers, lemma_rounded_ratio, p64, round_scaled, split, BIAS};
use vstd::arithmetic::power2::{lemma_pow2_adds, lemma_pow2_pos, lemma_pow2_strictly_increases, pow2};
use vstd::prelude::*;

verus! {

/// The whole part of a magnitude.
pub open spec fn whole(enc: int) -> int {
    mag(enc) / (pow2(1074) as int)
}

/// The least whole number that is not below a magnitude.
pub open spec fn whole_above(enc: int) -> int {
    if mag(enc) % (pow2(1074) as int) == 0 {
        whole(enc)
    } else {
        whole(enc) + 1
    }
}

/// The encoding of a whole number, rounded.
pub open spec fn round_whole(n: int) -> u64 {
    round_ratio(n * pow2(1074), 1)
}

proof fn lemma_whole_large(m: int, k: nat)
    requires
        k >= 1074,
        m >= 0,
    ensures
        (m * pow2(k)) / (pow2(1074) as int) == m * pow2((k - 1074) as nat),
        (m * pow2(k)) % (pow2(1074) as int) == 0,
{
    let d = pow2(1074) as int;
    let w = m * pow2((k - 1074) as nat);
    lemma_pow2_adds((k - 1074) as nat, 1074);
    lemma_pow2_pos(1074);
    assert(m * pow2(k) == w * d) by (nonlinear_arith)
        requires pow2(k) == pow2((k - 1074) as nat) * d, w == m * pow2((k - 1074) as nat);
    vstd::arithmetic::div_mod::lemma_div_multiples_vanish(w, d);
    vstd::arithmetic::div_mod::lemma_mod_multiples_basic(w, d);
}

proof fn lemma_whole_small(m: int, k: nat)
    requires
        k < 1074,
        m >= 0,
    ensures
        ({
            let d = pow2((1074 - k) as nat) as int;
            &&& d > 0
            &&& (m * pow2(k)) / (pow2(1074) as int) == m / d
            &&& (m * pow2(k)) % (pow2(1074) as int) == 0 <==> m % d == 0
            &&& (m / d) * pow2(1074) == (m - m % d) * pow2(k)
        }),
{
    let d = pow2((1074 - k) as nat) as int;
    let p = pow2(k) as int;
    let f = pow2(1074) as int;
    lemma_pow2_adds((1074 - k) as nat, k);
    lemma_pow2_pos((1074 - k) as nat);
    lemma_pow2_pos(k);
    let w = m / d;
    let r = m % d;
    assert(m == w * d + r && 0 <= r < d) by (nonlinear_arith)
        requires w == m / d, r == m % d, d > 0, m >= 0;
    let x = m * p;
    assert(x == f * w + r * p) by (nonlinear_arith)
        requires x == m * p, m == w * d + r, f == d * p;
    assert(0 <= r * p < f) by (nonlinear_arith)
        requires 0 <= r < d, f == d * p, p > 0;
    vstd::arithmetic::div_mod::lemma_fundamental_div_mod_converse(x, f, w, r * p);
    assert(r * p == 0 <==> r == 0) by (nonlinear_arith)
        requires p > 0;
    assert(w * f == (m - r) * p) by (nonlinear_arith)
        requires m == w * d + r, f == d * p;
}

/// The whole part of a magnitude, or 2^64 where it is no less.
pub fn whole_part(enc: u64) -> (r: u128)
    requires
        enc <= INF_ENC,
    ensures
        r == if whole(enc as int) < 0x1_0000_0000_0000_0000 {
            whole(enc as int)
        } else {
            0x1_0000_0000_0000_0000
        },
{
    proof {
        lemma_powers();
        lemma_cell_of(enc as int);
    }
    if enc >= INF_ENC {
        proof {
            lemma_mag_cell(2046, CELL as int);
            lemma_whole_large(CELL as int, 2046);
            lemma_pow2_strictly_increases(12, 972);
            lemma_pow2_adds(12, 52);
            assert(CELL * pow2(972) >= CELL * pow2(12)) by (nonlinear_arith)
                requires pow2(972) >= pow2(12), CELL > 0;
            assert(CELL * pow2(12) == pow2(12) * CELL) by (nonlinear_arith);
        }
        return 0x1_0000_0000_0000_0000;
    }
    let (m, k) = split(enc);
    if k >= 1074 {
        proof {
            lemma_whole_large(m as int, k as nat);
        }
        let up: u64 = k - 1074;
        proof {
            if up >= 12 {
                if up > 12 {
                    lemma_pow2_strictly_increases(12, up as nat);
                }
                lemma_pow2_adds(12, 52);
                assert(m * pow2(up as nat) >= CELL * pow2(12)) by (nonlinear_arith)
                    requires m >= CELL, pow2(up as nat) >= pow2(12), CELL >= 0, pow2(12) >= 0;
                assert(CELL * pow2(12) == pow2(12) * CELL) by (nonlinear_arith);
            } else {
                lemma_pow2_strictly_increases(up as nat, 12);
                lemma_pow2_adds(12, 52);
                lemma_pow2_strictly_increases(12, 20);
                assert(0 <= m * pow2(up as nat) <= (2 * CELL) * 0x10_0000) by (nonlinear_arith)
                    requires 0 <= m < 2 * CELL, 0 <= pow2(up as nat) <= 0x10_0000;
            }
        }
        if up >= 12 {
            return 0x1_0000_0000_0000_0000;
        }
        let w: u128 = m as u128 * p64(up) as u128;
        if w < 0x1_0000_0000_0000_0000 {
            w
        } else {
            0x1_0000_0000_0000_0000
        }
    } else {
        let e: u64 = 1074 - k;
        proof {
            lemma_whole_small(m as int, k as nat);
        }
        if e >= 53 {
            proof {
                if e > 53 {
                    lemma_pow2_strictly_increases(53, e as nat);
                }
                assert(m as int / pow2(e as nat) as int == 0) by (nonlinear_arith)
                    requires 0 <= m < pow2(e as nat);
            }
            return 0;
        }
        let d: u64 = p64(e);
        proof {
            let mm = m as int;
            let dd = d as int;
            assert(mm / dd <= mm) by (nonlinear_arith)
                requires mm >= 0, dd >= 1;
        }
        (m / d) as u128
    }
}

/// The encoding of a whole number below 2^125.
pub fn whole_enc(n: u128) -> (r: u64)
    requires
        n < 0x2000_0000_0000_0000_0000_0000_0000_0000,
    ensures
        r == round_whole(n as int),
        r <= INF_ENC,
{
    proof {
        assert(0 * pow2(1074) == 0);
    }
    if n == 0 {
        proof {
            lemma_round_zero(1);
        }
        return 0;
    }
    let r: u64 = round_scaled(n, false, 1074);
    proof {
        let s = pow2(BIAS as nat) as int;
        let num = n * pow2(1074);
        lemma_pow2_adds(1074, BIAS as nat);
        let p = pow2((1074 + BIAS) as nat) as int;
        assert(num * s == n * p * 1) by (nonlinear_arith)
            requires num == n * pow2(1074), p == pow2(1074) * s;
        lemma_rounded_ratio(num, 1, n as int, false, 1074, r);
    }
    r
}

/// The encoding of the whole part of a magnitude (`above`: of the least whole number
/// that is not below it).
pub fn whole_enc_of(enc: u64, above: bool) -> (r: u64)
    requires
        enc < INF_ENC,
    ensures
        r == round_whole(
            if above {
                whole_above(enc as int)
            } else {
                whole(enc as int)
            },
        ),
        r <= INF_ENC,
{
    let (m, k) = split(enc);
    proof {
        lemma_powers();
        lemma_cell_of(enc as int);
    }
    if k >= 1074 {
        proof {
            lemma_whole_large(m as int, k as nat);
            lemma_round_exact(enc, 1);
            let w = m * pow2((k - 1074) as nat);
            lemma_pow2_adds((k - 1074) as nat, 1074);
            assert(w * pow2(1074) == mag(enc as int)) by (nonlinear_arith)
                requires
                    w == m * pow2((k - 1074) as nat),
                    mag(enc as int) == m * pow2(k as nat),
                    pow2(k as nat) == pow2((k - 1074) as nat) * pow2(1074),
            ;
        }
        return enc;
    }
    let e: u64 = 1074 - k;
    proof {
        lemma_whole_small(m as int, k as nat);
        if e > 53 {
            lemma_pow2_strictly_increases(53, e as nat);
        }
    }
    if e >= 53 {
        proof {
            let d = pow2(e as nat) as int;
            assert(m as int / d == 0) by (nonlinear_arith)
                requires 0 <= m < d;
            vstd::arithmetic::div_mod::lemma_small_mod(m as nat, d as nat);
        }
        return whole_enc(if above && m > 0 { 1 } else { 0 });
    }
    let d: u64 = p64(e);
    let w: u64 = m / d;
    proof {
        let mm = m as int;
        let dd = d as int;
        assert(mm / dd <= mm) by (nonlinear_arith)
            requires mm >= 0, dd >= 1;
    }
    if above && m % d != 0 {
        whole_enc(w as u128 + 1)
    } else {
        whole_enc(w as u128)
    }
}

} // verus!
