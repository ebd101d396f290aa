//! Bounds that are carried through the arithmetic: fractions with a power of two below.
use super::arith::lemma_round_zero;
use super::laws::{
    law_product_is_nearest, law_quotient_is_nearest, law_rounding_is_monotone, law_rounding_is_nearest,
};
use super::model::{lemma_mag_cell, lemma_mag_zero, lemma_round_exact, mag, round_ratio, CELL, INF_ENC};
use super::number::{lemma_order, lit, F64};
use super::round::lemma_powers;
use super::signed::{lemma_representable, lemma_rounded, lemma_sum_units, representable};
use vstd::arithmetic::power2::{
    lemma_pow2_adds, lemma_pow2_pos, lemma_pow2_strictly_increases, pow2,
};
use vstd::prelude::*;

verus! {

/// The fraction `k / 2^e`, in units of 2^-1074.
pub open spec fn part(k: int, e: int) -> int {
    k * pow2((1074 - e) as nat)
}

/// The number is finite and at most `k / 2^e`.
pub open spec fn at_most(x: F64, k: int, e: int) -> bool {
    x.is_finite() && x.units() <= part(k, e)
}

/// The number is finite and at least `k / 2^e`.
pub open spec fn at_least(x: F64, k: int, e: int) -> bool {
    x.is_finite() && x.units() >= part(k, e)
}

/// A fraction of a small denominator, with a numerator of at most 53 digits, is a number.
pub proof fn lemma_part(k: int, e: int)
    requires
        -2 * CELL < k < 2 * CELL,
        0 <= e <= 1074,
    ensures
        representable(part(k, e)),
        -mag(INF_ENC as int) < 8 * part(k, e) < mag(INF_ENC as int),
        k >= 0 ==> part(k, e) >= 0,
        k <= 0 ==> part(k, e) <= 0,
        k > 0 ==> part(k, e) > 0,
{
    let t = (1074 - e) as nat;
    lemma_pow2_pos(t);
    let g = pow2(t) as int;
    let n = if k >= 0 {
        k
    } else {
        -k
    };
    lemma_representable(n, t);
    assert(k * g == if k >= 0 {
        n * g
    } else {
        -(n * g)
    }) by (nonlinear_arith)
        requires n == k || n == -k, k >= 0 ==> n == k, k < 0 ==> n == -k;
    lemma_mag_cell(2046, CELL as int);
    assert(2046 * CELL + CELL == INF_ENC);
    lemma_pow2_adds(t, (2046 - t) as nat);
    lemma_powers();
    lemma_pow2_strictly_increases(8, (2046 - t) as nat);
    let b = pow2((2046 - t) as nat) as int;
    let c = CELL as int;
    assert(8 * (n * g) < c * (g * b)) by (nonlinear_arith)
        requires 0 <= n < 2 * c, g > 0, b > 0x100, c > 0;
    assert(n * g >= 0) by (nonlinear_arith)
        requires n >= 0, g > 0;
    assert(k > 0 ==> k * g > 0) by (nonlinear_arith)
        requires g > 0;
    assert(k <= 0 ==> k * g <= 0) by (nonlinear_arith)
        requires g > 0;
}

/// A ratio that is at most a representable number rounds to at most it.
pub proof fn lemma_ratio_le(num: int, den: int, c: int)
    requires
        den > 0,
        0 <= num <= c * den,
        0 <= c,
        representable(c),
    ensures
        0 <= mag(round_ratio(num, den) as int) <= c,
        round_ratio(num, den) <= INF_ENC,
{
    let enc = choose|enc: u64| #[trigger] mag(enc as int) == c && enc <= INF_ENC;
    lemma_round_exact(enc, den);
    law_rounding_is_monotone(num, c * den, den);
    law_rounding_is_nearest(num, den);
    lemma_order(round_ratio(num, den) as int, enc as int);
}

/// A ratio that is at least a representable number rounds to at least it.
pub proof fn lemma_ratio_ge(num: int, den: int, c: int)
    requires
        den > 0,
        0 <= c,
        c * den <= num,
        representable(c),
    ensures
        mag(round_ratio(num, den) as int) >= c,
        round_ratio(num, den) <= INF_ENC,
{
    let enc = choose|enc: u64| #[trigger] mag(enc as int) == c && enc <= INF_ENC;
    lemma_round_exact(enc, den);
    assert(c * den >= 0) by (nonlinear_arith)
        requires c >= 0, den > 0;
    law_rounding_is_monotone(c * den, num, den);
    law_rounding_is_nearest(num, den);
    lemma_order(round_ratio(num, den) as int, enc as int);
}

/// The product of two numbers that are not negative, by their magnitudes.
pub proof fn lemma_product(x: F64, y: F64)
    requires
        x.is_finite() && x.units() >= 0,
        y.is_finite() && y.units() >= 0,
    ensures
        !(x * y).is_nan(),
        (x * y).units() == mag(round_ratio(x.units() * y.units(), pow2(1074) as int) as int),
        (x * y).enc() == round_ratio(x.units() * y.units(), pow2(1074) as int),
        x.units() * y.units() >= 0,
{
    reveal(F64::spec_mul);
    law_product_is_nearest(x, y);
    lemma_order(x.enc() as int, y.enc() as int);
    lemma_pow2_pos(1074);
    lemma_mag_zero(0);
    assert(x.units() == mag(x.enc() as int) && y.units() == mag(y.enc() as int));
    assert(x.units() * y.units() >= 0) by (nonlinear_arith)
        requires x.units() >= 0, y.units() >= 0;
    law_rounding_is_nearest(x.units() * y.units(), pow2(1074) as int);
    if (x * y).sign() {
        assert(x.units() * y.units() == 0) by (nonlinear_arith)
            requires x.units() == 0 || y.units() == 0;
        lemma_round_zero(pow2(1074) as int);
    }
}

/// A product of numbers that are not negative is at most that of their bounds.
pub proof fn lemma_product_at_most(x: F64, y: F64, k: int, e: int, j: int, f: int)
    requires
        x.units() >= 0,
        y.units() >= 0,
        at_most(x, k, e),
        at_most(y, j, f),
        0 <= k,
        0 <= j,
        k * j < 2 * CELL,
        0 <= e,
        0 <= f,
        e + f <= 1074,
    ensures
        at_most(x * y, k * j, e + f),
        (x * y).units() >= 0,
{
    lemma_product(x, y);
    let d = pow2(1074) as int;
    lemma_pow2_pos(1074);
    lemma_split(k, e, j, f);
    assert(x.units() * y.units() <= part(k, e) * part(j, f)) by (nonlinear_arith)
        requires 0 <= x.units() <= part(k, e), 0 <= y.units() <= part(j, f);
    assert(k * j >= 0) by (nonlinear_arith)
        requires k >= 0, j >= 0;
    lemma_part(k * j, e + f);
    lemma_ratio_le(x.units() * y.units(), d, part(k * j, e + f));
    lemma_order((x * y).enc() as int, INF_ENC as int);
}

/// `k/2^e` times `j/2^f` is `kj/2^(e+f)`.
proof fn lemma_split(k: int, e: int, j: int, f: int)
    requires
        0 <= e,
        0 <= f,
        e + f <= 1074,
    ensures
        part(k, e) * part(j, f) == part(k * j, e + f) * pow2(1074),
{
    lemma_pow2_adds((1074 - e) as nat, (1074 - f) as nat);
    lemma_pow2_adds((1074 - e - f) as nat, 1074);
    let a = pow2((1074 - e) as nat) as int;
    let b = pow2((1074 - f) as nat) as int;
    let c = pow2((1074 - e - f) as nat) as int;
    let d = pow2(1074) as int;
    assert((k * a) * (j * b) == (k * j) * (a * b)) by (nonlinear_arith);
    assert((k * j) * (c * d) == ((k * j) * c) * d) by (nonlinear_arith);
}

/// A product of numbers that are not negative is at least that of their bounds.
pub proof fn lemma_product_at_least(x: F64, y: F64, k: int, e: int, j: int, f: int)
    requires
        at_least(x, k, e),
        at_least(y, j, f),
        (x * y).is_finite(),
        0 <= k,
        0 <= j,
        k * j < 2 * CELL,
        k < 2 * CELL,
        j < 2 * CELL,
        0 <= e,
        0 <= f,
        e + f <= 1074,
    ensures
        at_least(x * y, k * j, e + f),
{
    lemma_part(k, e);
    lemma_part(j, f);
    lemma_product(x, y);
    let d = pow2(1074) as int;
    lemma_pow2_pos(1074);
    lemma_split(k, e, j, f);
    assert(x.units() * y.units() >= part(k, e) * part(j, f)) by (nonlinear_arith)
        requires 0 <= part(k, e) <= x.units(), 0 <= part(j, f) <= y.units();
    assert(k * j >= 0) by (nonlinear_arith)
        requires k >= 0, j >= 0;
    lemma_part(k * j, e + f);
    lemma_ratio_ge(x.units() * y.units(), d, part(k * j, e + f));
}

/// A sum is at most that of bounds with the same denominator.
pub proof fn lemma_sum_at_most(x: F64, y: F64, k: int, j: int, e: int, low: int)
    requires
        at_most(x, k, e),
        at_most(y, j, e),
        at_least(x, low, e),
        at_least(y, low, e),
        -CELL < k < CELL,
        -CELL < j < CELL,
        -CELL < low < CELL,
        0 <= e <= 1074,
    ensures
        at_most(x + y, k + j, e),
        at_least(x + y, 2 * low, e),
{
    lemma_part(k, e);
    lemma_part(j, e);
    lemma_part(low, e);
    lemma_part(k + j, e);
    lemma_part(2 * low, e);
    lemma_sum_units(x, y);
    let g = pow2((1074 - e) as nat) as int;
    assert((k + j) * g == k * g + j * g) by (nonlinear_arith);
    assert((2 * low) * g == low * g + low * g) by (nonlinear_arith);
    lemma_rounded(x.units() + y.units(), part(k + j, e));
    lemma_rounded(part(2 * low, e), x.units() + y.units());
    lemma_rounded(part(k + j, e), part(k + j, e));
}

/// A sum is at least that of bounds with the same denominator.
pub proof fn lemma_sum_at_least(x: F64, y: F64, k: int, j: int, e: int, high: int)
    requires
        at_least(x, k, e),
        at_least(y, j, e),
        at_most(x, high, e),
        at_most(y, high, e),
        -CELL < k < CELL,
        -CELL < j < CELL,
        -CELL < high < CELL,
        0 <= e <= 1074,
    ensures
        at_least(x + y, k + j, e),
        at_most(x + y, 2 * high, e),
{
    lemma_part(k, e);
    lemma_part(j, e);
    lemma_part(high, e);
    lemma_part(k + j, e);
    lemma_part(2 * high, e);
    lemma_sum_units(x, y);
    let g = pow2((1074 - e) as nat) as int;
    assert((k + j) * g == k * g + j * g) by (nonlinear_arith);
    assert((2 * high) * g == high * g + high * g) by (nonlinear_arith);
    lemma_rounded(part(k + j, e), x.units() + y.units());
    lemma_rounded(x.units() + y.units(), part(2 * high, e));
    lemma_rounded(part(2 * high, e), part(2 * high, e));
}

/// The quotient of two numbers that are not negative, by their magnitudes.
pub proof fn lemma_quotient(x: F64, y: F64)
    requires
        x.is_finite() && x.units() >= 0,
        y.is_finite() && y.units() > 0,
    ensures
        !(x / y).is_nan(),
        (x / y).enc() == round_ratio(x.units() * pow2(1074), y.units()),
        (x / y).units() == mag((x / y).enc() as int),
        x.units() * pow2(1074) >= 0,
{
    reveal(F64::spec_euclidean_or_real_div);
    lemma_order(x.enc() as int, y.enc() as int);
    lemma_pow2_pos(1074);
    lemma_mag_zero(0);
    law_quotient_is_nearest(x, y);
    assert(x.units() * pow2(1074) >= 0) by (nonlinear_arith)
        requires x.units() >= 0, pow2(1074) > 0;
    law_rounding_is_nearest(x.units() * pow2(1074), y.units());
    if (x / y).sign() {
        assert(0 * pow2(1074) == 0);
        lemma_round_zero(y.units());
    }
}

/// A quotient of numbers that are not negative is at most what the bounds give.
pub proof fn lemma_quotient_at_most(x: F64, y: F64, k: int, j: int, e: int, c: int, g: int)
    requires
        x.units() >= 0,
        at_most(x, k, e),
        at_least(y, j, e),
        0 <= k,
        0 < j < 2 * CELL,
        0 <= c < 2 * CELL,
        0 <= e <= 1074,
        0 <= g <= 1074,
        k * pow2(g as nat) <= c * j,
    ensures
        at_most(x / y, c, g),
        (x / y).units() >= 0,
{
    lemma_part(j, e);
    lemma_quotient(x, y);
    lemma_part(c, g);
    let d = pow2(1074) as int;
    let s = pow2((1074 - e) as nat) as int;
    let t = pow2((1074 - g) as nat) as int;
    let q = pow2(g as nat) as int;
    lemma_pow2_pos((1074 - e) as nat);
    lemma_pow2_pos((1074 - g) as nat);
    lemma_pow2_pos(g as nat);
    lemma_pow2_pos(1074);
    lemma_pow2_adds(g as nat, (1074 - g) as nat);
    // x d <= k s q t <= c j s t <= (c t) y
    assert(x.units() * d <= (c * t) * y.units()) by {
        assert(x.units() * d <= (k * s) * (q * t)) by (nonlinear_arith)
            requires 0 <= x.units() <= k * s, d == q * t, d > 0;
        assert((k * s) * (q * t) == (k * q) * (s * t)) by (nonlinear_arith);
        assert((k * q) * (s * t) <= (c * j) * (s * t)) by (nonlinear_arith)
            requires k * q <= c * j, s > 0, t > 0;
        assert((c * j) * (s * t) == (c * t) * (j * s)) by (nonlinear_arith);
        assert((c * t) * (j * s) <= (c * t) * y.units()) by (nonlinear_arith)
            requires j * s <= y.units(), c >= 0, t > 0;
    }
    lemma_ratio_le(x.units() * d, y.units(), part(c, g));
    lemma_order((x / y).enc() as int, INF_ENC as int);
}

/// A quotient of numbers that are not negative is at least what the bounds give.
pub proof fn lemma_quotient_at_least(x: F64, y: F64, k: int, j: int, e: int, c: int, g: int)
    requires
        at_least(x, k, e),
        y.units() > 0,
        at_most(y, j, e),
        (x / y).is_finite(),
        0 <= k < 2 * CELL,
        0 < j,
        0 <= c < 2 * CELL,
        0 <= e <= 1074,
        0 <= g <= 1074,
        c * j <= k * pow2(g as nat),
    ensures
        at_least(x / y, c, g),
{
    lemma_part(k, e);
    lemma_quotient(x, y);
    lemma_part(c, g);
    let d = pow2(1074) as int;
    let s = pow2((1074 - e) as nat) as int;
    let t = pow2((1074 - g) as nat) as int;
    let q = pow2(g as nat) as int;
    lemma_pow2_pos((1074 - e) as nat);
    lemma_pow2_pos((1074 - g) as nat);
    lemma_pow2_pos(g as nat);
    lemma_pow2_pos(1074);
    lemma_pow2_adds(g as nat, (1074 - g) as nat);
    assert((c * t) * y.units() <= x.units() * d) by {
        assert((c * t) * y.units() <= (c * t) * (j * s)) by (nonlinear_arith)
            requires y.units() <= j * s, c >= 0, t > 0;
        assert((c * t) * (j * s) == (c * j) * (s * t)) by (nonlinear_arith);
        assert((c * j) * (s * t) <= (k * q) * (s * t)) by (nonlinear_arith)
            requires c * j <= k * q, s > 0, t > 0;
        assert((k * q) * (s * t) == (k * s) * (q * t)) by (nonlinear_arith);
        assert((k * s) * (q * t) <= x.units() * d) by (nonlinear_arith)
            requires k * s <= x.units(), d == q * t, d > 0;
    }
    lemma_ratio_ge(x.units() * d, y.units(), part(c, g));
}

/// A positive literal lies between fractions: with the significand `n` of its bits at the
/// scale `t`, and `2^d` from there to the denominator of the fractions.
pub proof fn lemma_literal(bits: u64, t: nat, n: int, d: nat, low: int, high: int, e: int)
    requires
        bits == t * CELL + n,
        CELL <= n < 2 * CELL,
        t <= 2045,
        0 <= e <= 1074,
        1074 - e == t + d,
        low * pow2(d) <= n <= high * pow2(d),
    ensures
        at_least(lit(bits), low, e),
        at_most(lit(bits), high, e),
        lit(bits).units() > 0,
{
    lemma_mag_cell(t, n);
    lemma_pow2_pos(t);
    lemma_pow2_adds(d, t);
    assert(bits < INF_ENC) by (nonlinear_arith)
        requires bits == t * CELL + n, t <= 2045, n < 2 * CELL, CELL == 0x0010_0000_0000_0000,
            INF_ENC == 2047 * CELL;
    let x = lit(bits);
    assert(x.enc() == bits && !x.sign());
    let a = pow2(d) as int;
    let b = pow2(t) as int;
    assert(low * (a * b) <= n * b) by (nonlinear_arith)
        requires low * a <= n, b > 0;
    assert(n * b <= high * (a * b)) by (nonlinear_arith)
        requires n <= high * a, b > 0;
    assert(n * b > 0) by (nonlinear_arith)
        requires n > 0, b > 0;
}

/// The same bounds over a finer denominator.
pub proof fn lemma_finer(x: F64, k: int, e: int, d: nat)
    requires
        0 <= e,
        e + d <= 1074,
    ensures
        at_most(x, k, e) ==> at_most(x, k * pow2(d), e + d),
        at_least(x, k, e) ==> at_least(x, k * pow2(d), e + d),
{
    lemma_pow2_adds(d, (1074 - e - d) as nat);
    let a = pow2(d) as int;
    let b = pow2((1074 - e - d) as nat) as int;
    assert(k * (a * b) == (k * a) * b) by (nonlinear_arith);
}

} // verus!
