//! Rounding of signed integers, in units of 2^-1074.
use super::laws::{law_rounding_is_monotone, law_rounding_is_nearest, law_rounding_of_equal_ratios};
use super::model::{
    lemma_cell_of, lemma_mag_cell, lemma_mag_increasing, lemma_mag_zero, lemma_round_exact, mag,
    round_ratio, scale, significand, CELL, INF_ENC,
};
use super::number::{lemma_order, lit, F64};
use super::round::lemma_powers;
use vstd::arithmetic::power2::{lemma_pow2_adds, lemma_pow2_pos, lemma_pow2_unfold, pow2};
use vstd::prelude::*;

verus! {

/// The magnitude nearest to an integer, with its sign.
pub open spec fn rounded(n: int) -> int {
    if n >= 0 {
        mag(round_ratio(n, 1) as int)
    } else {
        -mag(round_ratio(-n, 1) as int)
    }
}

/// The integer is the magnitude of an encoding, with a sign.
pub open spec fn representable(n: int) -> bool {
    exists|enc: u64| #[trigger] mag(enc as int) == (if n >= 0 { n } else { -n }) && enc <= INF_ENC
}

/// Rounding keeps the order of signed integers, turns over with them, and leaves the
/// representable ones alone.
pub proof fn lemma_rounded(a: int, b: int)
    ensures
        a <= b ==> rounded(a) <= rounded(b),
        rounded(-a) == -rounded(a),
        representable(a) ==> rounded(a) == a,
        a >= 0 ==> rounded(a) >= 0,
        a <= 0 ==> rounded(a) <= 0,
{
    lemma_mag_zero(0);
    lemma_rounded_one(a);
    lemma_rounded_one(b);
    if a <= b {
        if a >= 0 {
            law_rounding_is_monotone(a, b, 1);
            lemma_order(round_ratio(a, 1) as int, round_ratio(b, 1) as int);
        } else if b < 0 {
            law_rounding_is_monotone(-b, -a, 1);
            lemma_order(round_ratio(-b, 1) as int, round_ratio(-a, 1) as int);
        }
    }
    if a == 0 {
        super::arith::lemma_round_zero(1);
    }
}

proof fn lemma_rounded_one(a: int)
    ensures
        representable(a) ==> rounded(a) == a,
        a >= 0 ==> rounded(a) >= 0,
        a <= 0 ==> rounded(a) <= 0,
{
    let n = if a >= 0 {
        a
    } else {
        -a
    };
    law_rounding_is_nearest(n, 1);
    lemma_mag_zero(round_ratio(n, 1) as int);
    if a == 0 {
        super::arith::lemma_round_zero(1);
        lemma_mag_zero(0);
    }
    if representable(a) {
        let enc = choose|enc: u64| #[trigger] mag(enc as int) == n && enc <= INF_ENC;
        lemma_round_exact(enc, 1);
        assert(n * 1 == n);
    }
}

/// A significand of at most 53 digits at any scale is representable, if it is small
/// enough.
pub proof fn lemma_representable(k: int, t: nat)
    requires
        0 <= k < 2 * CELL,
        t <= 2045,
    ensures
        representable(k * pow2(t)),
        representable(-(k * pow2(t))),
    decreases t,
{
    lemma_pow2_pos(t);
    assert(k * pow2(t) >= 0) by (nonlinear_arith)
        requires k >= 0, pow2(t) > 0;
    if t == 0 || k >= CELL {
        lemma_mag_cell(t, k);
        let e = t * CELL + k;
        assert(0 <= e < INF_ENC) by (nonlinear_arith)
            requires e == t * CELL + k, t <= 2045, 0 <= k < 2 * CELL, CELL == 0x0010_0000_0000_0000,
                INF_ENC == 2047 * CELL;
        let enc = e as u64;
        assert(mag(enc as int) == k * pow2(t));
    } else {
        lemma_pow2_unfold(t);
        lemma_representable(2 * k, (t - 1) as nat);
        assert((2 * k) * pow2((t - 1) as nat) == k * pow2(t)) by (nonlinear_arith)
            requires pow2(t) == 2 * pow2((t - 1) as nat);
    }
}

/// The error of rounding is at most a sixteenth, and the result at most one less than
/// twice the integer.
pub proof fn lemma_round_error(n: int)
    requires
        0 <= n < mag(INF_ENC as int),
    ensures
        16 * (rounded(n) - n) <= n,
        16 * (n - rounded(n)) <= n,
        n >= 1 ==> rounded(n) <= 2 * n - 1,
{
    law_rounding_is_nearest(n, 1);
    let e = round_ratio(n, 1) as int;
    lemma_powers();
    lemma_cell_of(e);
    lemma_mag_zero(e);
    let m = mag(e);
    lemma_pow2_pos(scale(e));
    if e > 0 {
        lemma_cell_of(e - 1);
        lemma_pow2_pos(scale(e - 1));
        // 2 n >= mag(e - 1) + m
        let g = pow2(scale(e - 1)) as int;
        assert(m == mag(e - 1) + g);
        lemma_gap(e - 1);
        assert(2 * (m - n) <= g);
    }
    if e < INF_ENC {
        let g = pow2(scale(e)) as int;
        lemma_gap(e);
        assert(2 * (n - m) <= g);
    } else {
        lemma_mag_increasing(INF_ENC - 1, INF_ENC as int);
    }
}

/// The gap above an encoding is one, or at most a 2^52th of its magnitude.
proof fn lemma_gap(e: int)
    requires
        0 <= e,
    ensures
        pow2(scale(e)) == 1 || 0x10_0000_0000_0000 * pow2(scale(e)) <= mag(e),
{
    lemma_cell_of(e);
    lemma_powers();
    let g = pow2(scale(e)) as int;
    lemma_pow2_pos(scale(e));
    if scale(e) > 0 {
        assert(0x10_0000_0000_0000 * g <= mag(e)) by (nonlinear_arith)
            requires mag(e) == significand(e) * g, significand(e) >= CELL, g > 0, CELL == 0x10_0000_0000_0000;
    }
}

/// A difference of magnitudes within a factor of two of each other is representable.
pub proof fn lemma_close_difference(a: u64, b: u64)
    requires
        a <= b < INF_ENC,
        mag(b as int) <= 2 * mag(a as int),
    ensures
        representable(mag(b as int) - mag(a as int)),
{
    lemma_cell_of(a as int);
    lemma_cell_of(b as int);
    let ta = scale(a as int);
    let tb = scale(b as int);
    let c = CELL as int;
    assert(ta <= tb) by {
        if ta > tb {
            assert(a as int >= ta * CELL + CELL);
            assert(tb * CELL + 2 * CELL <= ta * CELL + CELL) by (nonlinear_arith)
                requires tb + 1 <= ta, CELL > 0;
        }
    }
    let up = (tb - ta) as nat;
    lemma_pow2_adds(ta, up);
    lemma_pow2_pos(ta);
    let g = pow2(ta) as int;
    let w = pow2(up) as int;
    let sa = significand(a as int);
    let sb = significand(b as int);
    let k = sb * w - sa;
    assert(mag(b as int) - mag(a as int) == k * g) by (nonlinear_arith)
        requires mag(b as int) == sb * (g * w), mag(a as int) == sa * g, k == sb * w - sa;
    lemma_order(a as int, b as int);
    assert(0 <= k <= sa) by (nonlinear_arith)
        requires
            0 <= k * g,
            k * g <= sa * g,
            g > 0,
    ;
    lemma_representable(k, ta);
}

/// A sum of finite numbers that does not overflow stands for the rounded sum.
pub proof fn lemma_sum_units(a: F64, b: F64)
    requires
        a.is_finite(),
        b.is_finite(),
        -mag(INF_ENC as int) < 2 * (a.units() + b.units()) < mag(INF_ENC as int),
    ensures
        (a + b).is_finite(),
        (a + b).units() == rounded(a.units() + b.units()),
{
    reveal(F64::spec_add);
    let s = a.units() + b.units();
    lemma_mag_zero(0);
    let n = if s >= 0 {
        s
    } else {
        -s
    };
    law_rounding_is_nearest(n, 1);
    lemma_round_error(n);
    lemma_order(round_ratio(n, 1) as int, INF_ENC as int);
    lemma_rounded(s, s);
    if s == 0 {
        super::arith::lemma_round_zero(1);
    }
}

/// Finite numbers are representable.
pub proof fn lemma_units_representable(a: F64)
    requires
        a.is_finite(),
    ensures
        representable(a.units()),
        -mag(INF_ENC as int) < a.units() < mag(INF_ENC as int),
{
    lemma_order(a.enc() as int, INF_ENC as int);
    let enc = a.enc();
    assert(mag(enc as int) == mag(a.enc() as int));
}

/// Half of a finite number lies between the whole numbers of units next to the exact
/// half.
pub proof fn lemma_half_units(a: F64)
    requires
        a.is_finite(),
    ensures
        (lit(crate::consts::HALF) * a).is_finite(),
        2 * (lit(crate::consts::HALF) * a).units() - 1 <= a.units() <= 2 * (lit(crate::consts::HALF) * a).units() + 1,
        a.units() % 2 == 0 ==> 2 * (lit(crate::consts::HALF) * a).units() == a.units(),
{
    reveal(F64::spec_mul);
    let h = lit(crate::consts::HALF);
    let n = mag(a.enc() as int);
    lemma_order(a.enc() as int, 0);
    lemma_mag_zero(0);
    lemma_powers();
    lemma_mag_cell(1021, CELL as int);
    lemma_pow2_adds(52, 1021);
    lemma_pow2_unfold(1074);
    lemma_pow2_pos(1073);
    let half = mag(crate::consts::HALF as int);
    assert(half == pow2(1073));
    let den = pow2(1074) as int;
    assert((half * n) * 2 == n * den) by (nonlinear_arith)
        requires den == 2 * half;
    assert(half * n >= 0) by (nonlinear_arith)
        requires half >= 0, n >= 0;
    law_rounding_of_equal_ratios(half * n, den, n, 2);
    lemma_half_rounds(a.enc());
    law_rounding_is_nearest(n, 2);
    lemma_order(round_ratio(n, 2) as int, INF_ENC as int);
    lemma_order(a.enc() as int, INF_ENC as int);
    lemma_mag_zero(INF_ENC as int);
}

proof fn lemma_half_rounds(e: u64)
    requires
        e < INF_ENC,
    ensures
        ({
            let n = mag(e as int);
            let r = mag(round_ratio(n, 2) as int);
            2 * r - 1 <= n <= 2 * r + 1 && (n % 2 == 0 ==> 2 * r == n)
        }),
{
    let n = mag(e as int);
    lemma_cell_of(e as int);
    lemma_powers();
    let t = scale(e as int);
    let k = significand(e as int);
    if n % 2 == 0 {
        assert(representable(n / 2)) by {
            if t > 0 {
                lemma_pow2_unfold(t);
                let g = pow2((t - 1) as nat) as int;
                assert(n == 2 * (k * g)) by (nonlinear_arith)
                    requires n == k * (2 * g);
                lemma_representable(k, (t - 1) as nat);
            } else {
                assert(n == k * 1);
                lemma_representable(k / 2, 0);
                assert((k / 2) * pow2(0) == k / 2);
            }
        }
        lemma_half_exact(n / 2);
    } else {
        assert(t == 0) by {
            if t > 0 {
                lemma_pow2_unfold(t);
                let g = pow2((t - 1) as nat) as int;
                assert(n == 2 * (k * g)) by (nonlinear_arith)
                    requires n == k * (2 * g);
            }
        }
        assert(n == k * 1);
        let lo = (n - 1) / 2;
        let hi = (n + 1) / 2;
        assert(representable(lo) && representable(hi)) by {
            lemma_representable(lo, 0);
            lemma_representable(hi, 0);
            assert(lo * pow2(0) == lo && hi * pow2(0) == hi);
        }
        lemma_half_exact(lo);
        lemma_half_exact(hi);
        law_rounding_is_monotone(n - 1, n, 2);
        law_rounding_is_monotone(n, n + 1, 2);
        law_rounding_is_nearest(n, 2);
        law_rounding_is_nearest(n - 1, 2);
        law_rounding_is_nearest(n + 1, 2);
        lemma_order(round_ratio(n - 1, 2) as int, round_ratio(n, 2) as int);
        lemma_order(round_ratio(n, 2) as int, round_ratio(n + 1, 2) as int);
    }
}

proof fn lemma_half_exact(h: int)
    requires
        h >= 0,
        representable(h),
    ensures
        mag(round_ratio(2 * h, 2) as int) == h,
{
    let enc = choose|enc: u64| #[trigger] mag(enc as int) == h && enc <= INF_ENC;
    lemma_round_exact(enc, 2);
    assert(mag(enc as int) * 2 == 2 * h);
}

} // verus!
