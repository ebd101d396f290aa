//! The noncentral distributions are Poisson mixtures of the central ones.
use crate::consts::{EPSILON, HALF, ONE, PATIENCE, TWO, ZERO};
use crate::dist::fisher_snedecor_noncentral::{
    cdf_at, ccdf_at, first_up, sum_down, sum_up, upper_down, upper_up,
};
use crate::dist::poisson;
use crate::functions::{exp, ln, Elementary};
use crate::special::beta_inc::beta_inc_value;
use crate::special::gamma::gamma_log;
use crate::float::laws::{law_integers_round_trip, law_negation, law_sum_commutes};
use crate::float::model::{lemma_mag_zero, CELL};
use crate::float::number::{lemma_equals_units, lemma_le_units, lemma_lt_units, lemma_order};
use crate::float::value::{
    abs, approx, law_product_value, law_quotient_value, law_sum_value, least, lemma_abs_product,
    lemma_approx_product, lemma_approx_quotient, lemma_approx_self, lemma_approx_size, lemma_approx_sum,
    lemma_approx_wider, lemma_assoc, lemma_cast_product, lemma_distrib, lemma_least, lemma_mul_le,
    lemma_mul_nonneg, lemma_power_adds, lemma_product_stays_finite, lemma_quotient_stays_finite,
    lemma_scale, lemma_sum_stays_finite, power, scale_of_units, ulp, val,
};
use crate::float::{lit, F64};
use vstd::arithmetic::power2::{lemma2_to64, lemma2_to64_rest, lemma_pow2_adds, lemma_pow2_pos, pow2};
use vstd::prelude::*;

verus! {

/// The weight of `j` in a Poisson distribution with the mean `l`, over that of `c`: the
/// weights go as the powers of the mean over the factorials.
pub open spec fn poisson_ratio(l: real, j: int, c: int) -> real
    decreases
            if j < c {
                c - j
            } else {
                j - c
            },
{
    if j == c {
        1real
    } else if j < c {
        poisson_ratio(l, j + 1, c) * ((j + 1) as real / l)
    } else {
        poisson_ratio(l, j - 1, c) * (l / j as real)
    }
}

/// The terms of a Poisson mixture of the values `v` from `lo` to `hi`, where the weight of `c`
/// is `w`.
pub open spec fn poisson_mixture(l: real, c: int, w: real, v: spec_fn(int) -> real, lo: int, hi: int) -> real
    decreases hi - lo + 1,
{
    if lo > hi {
        0real
    } else {
        poisson_mixture(l, c, w, v, lo, hi - 1) + w * poisson_ratio(l, hi, c) * v(hi)
    }
}

/// 2^-500, below which no weight matters.
pub open spec fn speck() -> real {
    1real / power(500)
}

proof fn lemma_speck()
    ensures
        0real < speck() <= 1real / 1000real,
        1000real * least() <= speck(),
        ulp() == 1real / 4503599627370496real,
        least() > 0real,
{
    lemma_power_adds(500, 522);
    lemma_power_adds(10, 490);
    lemma_power_adds(10, 512);
    lemma_scale();
    lemma2_to64();
    let p = power(500);
    let q = power(1022);
    let t = power(10);
    assert(t == 1024real);
    lemma_mul_le(1real, power(490), t);
    lemma_mul_le(1real, power(512), t);
    assert(p >= 1024real);
    assert(power(522) >= 1024real);
    lemma_mul_le(1024real, power(522), p);
    assert(q >= 1024real * p);
    lemma_inverse(p);
    lemma_inverse(q);
    let i = 1real / p;
    let j = 1real / q;
    lemma_mul_le(1024real, p, i);
    lemma_mul_nonneg(i, j);
    lemma_mul_le(1024real * p, q, i * j);
    assert((1024real * p) * (i * j) == 1024real * (p * i) * j) by (nonlinear_arith);
    assert(q * (i * j) == (q * j) * i) by (nonlinear_arith);
}

/// The inverse of a positive number.
proof fn lemma_inverse(p: real)
    requires
        p > 0real,
    ensures
        1real / p > 0real,
        p * (1real / p) == 1real,
{
    let i = 1real / p;
    assert(p * i == 1real) by (nonlinear_arith)
        requires
            i == 1real / p,
            p > 0real,
    ;
    assert(i > 0real) by (nonlinear_arith)
        requires
            p * i == 1real,
            p > 0real,
    ;
}

/// One step of a weight: `w` stands for the weight `e`, and the number `f` for the factor `r`.
proof fn lemma_weight_step(w: F64, e: real, s: real, k: real, f: F64, r: real)
    requires
        approx(w, e, e + s, k),
        0real <= e <= 1real,
        0real <= s <= 1real,
        0real < r,
        r <= 1real || s == 0real,
        k <= 100000000000real,
        approx(f, r, r + least(), 2real),
        e * r <= 1real,
    ensures
        (w * f).is_finite(),
        approx(w * f, e * r, e * r + (s + 4real * least()), k + 8real),
{
    lemma_speck();
    let l = least();
    let p = e + s;
    let q = r + l;
    lemma_distrib(p, r, l);
    lemma_distrib(r, e, s);
    lemma_mul_le(p, 2real, l);
    assert(r * e == e * r) by {
        lemma_assoc(r, e, 1real);
    }
    assert(r * s <= s) by {
        if s == 0real {
            assert(r * 0real == 0real);
        } else {
            lemma_mul_le(r, 1real, s);
        }
    }
    assert(p * r == r * p) by {
        lemma_assoc(p, r, 1real);
    }
    assert(p * q + l <= e * r + (s + 4real * l));
    lemma_approx_size(w, e, p, k);
    lemma_approx_size(f, r, q, 2real);
    lemma_abs_product(val(w), val(f), 2real * p, 2real * q);
    assert((2real * p) * (2real * q) == 4real * (p * q)) by {
        lemma_assoc(2real, p, 2real * q);
        lemma_assoc(p, 2real, q);
        lemma_assoc(2real, p, q);
        lemma_assoc(2real, q, p);
    }
    lemma_power_adds(10, 990);
    lemma2_to64();
    assert(power(10) == 1024real);
    lemma_mul_le(1real, power(990), power(10));
    lemma_product_stays_finite(w, f);
    lemma_approx_product(w, e, p, k, f, r, q, 2real);
    lemma_approx_wider(w * f, e * r, p * q + l, k + 2real * 2real + 4real, e * r + (s + 4real * l), k + 8real);
}

/// One term added to a sum: `w` stands for the weight `e`, and `sum` for `t`.
proof fn lemma_sum_step(w: F64, e: real, s: real, k: real, v: F64, sum: F64, t: real, n: real, q: real)
    requires
        approx(w, e, e + s, k),
        0real <= e <= 1real,
        0real <= s <= speck() - 2real * least(),
        v.is_finite() && 0real <= val(v) <= 1real,
        approx(sum, t, t + n * speck(), q),
        0real <= t <= 1000000000000real,
        0real <= n <= 1000000000000real,
        k + 4real <= q,
        q <= 100000000000real,
    ensures
        (w * v).is_finite(),
        approx(w * v, e * val(v), e * val(v) + speck(), q),
        (sum + w * v).is_finite(),
        approx(sum + w * v, t + e * val(v), t + e * val(v) + (n + 1real) * speck(), q + 2real),
        0real <= e * val(v) <= 1real,
{
    lemma_speck();
    let l = least();
    let x = val(v);
    let p = e + s;
    lemma_approx_self(v);
    lemma_distrib(x, e, s);
    lemma_mul_le(x, 1real, s);
    lemma_mul_le(x, 1real, e);
    lemma_mul_nonneg(e, x);
    assert(p * x + l <= e * x + speck()) by {
        lemma_assoc(p, x, 1real);
        lemma_assoc(x, e, 1real);
        lemma_assoc(x, s, 1real);
    }
    lemma_approx_size(w, e, p, k);
    lemma_abs_product(val(w), x, 2real * p, 1real);
    lemma_power_adds(60, 940);
    lemma2_to64_rest();
    assert(power(60) == 1152921504606846976real);
    lemma_mul_le(1real, power(940), power(60));
    lemma_product_stays_finite(w, v);
    lemma_approx_product(w, e, p, k, v, x, x, 0real);
    lemma_approx_wider(w * v, e * x, p * x + l, k + 2real * 0real + 4real, e * x + speck(), q);
    let y = w * v;
    let a = t + n * speck();
    let b = e * x + speck();
    lemma_mul_le(speck(), 1real, n);
    lemma_approx_size(sum, t, a, q);
    lemma_approx_size(y, e * x, b, q);
    lemma_sum_stays_finite(sum, y);
    lemma_approx_sum(sum, t, a, q, y, e * x, b, q);
    lemma_distrib(speck(), n, 1real);
}

/// A count as a number.
pub open spec fn count(j: int) -> F64 {
    F64::from_u64(j as u64)
}

pub proof fn lemma_count(j: int)
    requires
        0 <= j < 0x8_0000_0000_0000,
    ensures
        count(j).is_finite(),
        val(count(j)) == j as real,
        count(j).units() == j * pow2(1074),
        !count(j).sign(),
{
    law_integers_round_trip(j as u64);
    reveal(F64::from_u64_spec);
    lemma_scale();
    lemma_pow2_pos(1074);
    let d = pow2(1074) as int;
    assert(j * d >= 0) by (nonlinear_arith)
        requires
            j >= 0,
            d > 0,
    ;
    crate::float::laws::law_rounding_is_nearest(j * d, 1);
    lemma_cast_product(j, d);
    let y = j as real;
    let z = d as real;
    assert((y * z) / z == y) by (nonlinear_arith)
        requires
            z > 0real,
    ;
}

/// Counting up and down by one is exact.
pub proof fn lemma_next_count(j: int)
    requires
        0 <= j < 0x4_0000_0000_0000,
    ensures
        count(j) + lit(ONE) == count(j + 1),
        count(j + 1) - lit(ONE) == count(j),
        count(1) == lit(ONE),
        count(j + 1).enc() != 0,
{
    lemma_count(j);
    lemma_count(j + 1);
    lemma_count(1);
    lemma_count(0);
    let d = pow2(1074) as int;
    lemma_pow2_pos(1074);
    lemma_mag_zero(0);
    crate::special::normal_laws::lemma_small_powers();
    crate::float::bounds::lemma_literal(ONE, 1022, 0x10_0000_0000_0000, 52, 1, 1, 0);
    assert(1 * d == d);
    lemma_order(count(1).enc() as int, ONE as int);
    assert((j + 1) * d == j * d + d) by (nonlinear_arith);
    assert(j * d >= 0) by (nonlinear_arith)
        requires
            j >= 0,
            d > 0,
    ;
    crate::float::bounds::lemma_part(j + 1, 0);
    crate::float::bounds::lemma_part(j, 0);
    crate::float::signed::lemma_sum_units(count(j), lit(ONE));
    crate::float::signed::lemma_rounded((j + 1) * d, 0);
    let s = count(j) + lit(ONE);
    lemma_order(s.enc() as int, count(j + 1).enc() as int);
    lemma_order(s.enc() as int, 0);
    law_negation(lit(ONE));
    crate::float::signed::lemma_sum_units(count(j + 1), lit(ONE).negated());
    crate::float::signed::lemma_rounded(j * d, 0);
    let t = count(j + 1) - lit(ONE);
    lemma_order(t.enc() as int, count(j).enc() as int);
    lemma_order(t.enc() as int, 0);
    crate::float::laws::law_sum_is_nearest(count(j + 1), lit(ONE).negated());
    if j == 0 {
        assert(count(1) - lit(ONE) == lit(ZERO)) by {
            crate::float::laws::law_difference_with_itself(lit(ONE));
        }
        assert(0 * d == 0);
        lemma_order(count(0).enc() as int, 0);
    }
}

/// The sum with the terms below `j` down to `stop`: the weights are multiplied by the count
/// over the mean.
pub open spec fn terms_below(
    mean: F64,
    v: spec_fn(int) -> F64,
    j: int,
    wt: F64,
    sum: F64,
    stop: int,
) -> F64
    decreases j - stop,
{
    if j <= stop {
        sum
    } else {
        let wt1 = wt * (count(j) / mean);
        terms_below(mean, v, j - 1, wt1, sum + wt1 * v(j - 1), stop)
    }
}

/// The sum with the terms above `j` up to `stop`: the weights are multiplied by the mean over
/// the count.
pub open spec fn terms_above(
    mean: F64,
    v: spec_fn(int) -> F64,
    j: int,
    wt: F64,
    sum: F64,
    stop: int,
) -> F64
    decreases stop - j,
{
    if j >= stop {
        sum
    } else {
        let wt1 = wt * (mean / count(j + 1));
        terms_above(mean, v, j + 1, wt1, sum + wt1 * v(j + 1), stop)
    }
}

/// The mean and the centre of a mixture: the mean is neither tiny nor huge, the centre is its
/// whole part, or one.
pub open spec fn centred(mean: F64, c: int) -> bool {
    &&& mean.is_finite()
    &&& 1real / 1099511627776real <= val(mean) <= 1000000000real
    &&& 1 <= c <= 1000000000
    &&& c as real <= val(mean) || c == 1
    &&& val(mean) <= c as real + 1real
}

/// The factor from one weight to the next one below.
proof fn lemma_factor_below(mean: F64, c: int, j: int)
    requires
        centred(mean, c),
        1 <= j <= c,
    ensures
        approx(count(j) / mean, j as real / val(mean), j as real / val(mean) + least(), 2real),
        j as real / val(mean) > 0real,
        j as real / val(mean) <= 1real || (c == 1 && j == 1),
{
    lemma_count(j);
    let l = val(mean);
    let x = j as real;
    let r = x / l;
    lemma_divided(x, l);
    lemma_nonzero(mean);
    lemma_power_adds(60, 940);
    lemma2_to64_rest();
    assert(power(60) == 1152921504606846976real);
    lemma_mul_le(1real, power(940), power(60));
    lemma_mul_le(1152921504606846976real, power(1000), 1real / 1099511627776real);
    lemma_mul_le(1real / 1099511627776real, l, power(1000));
    assert(1048576real * 1000real <= power(1000) * l);
    assert(x <= 1000000000real);
    assert(abs(x) <= power(1000) * abs(l));
    lemma_quotient_stays_finite(count(j), mean);
    lemma_approx_self(count(j));
    lemma_approx_quotient(count(j), x, x, 0real, mean);
    if x <= l {
        lemma_ratio_at_most_one(x, l);
    }
}

pub proof fn lemma_nonzero(mean: F64)
    requires
        mean.is_finite(),
        val(mean) > 0real,
    ensures
        mean.enc() != 0,
{
    lemma_scale();
    lemma_mag_zero(0);
    if mean.enc() == 0 {
        assert(mean.units() == 0);
        let d = scale_of_units();
        assert(0real / d == 0real) by (nonlinear_arith)
            requires
                d > 0real,
        ;
    }
}

proof fn lemma_divided(x: real, l: real)
    requires
        x > 0real,
        l > 0real,
    ensures
        x / l > 0real,
        (x / l) * l == x,
{
    let r = x / l;
    assert(r * l == x) by (nonlinear_arith)
        requires
            r == x / l,
            l > 0real,
    ;
    assert(r > 0real) by (nonlinear_arith)
        requires
            r * l == x,
            x > 0real,
            l > 0real,
    ;
}

proof fn lemma_ratio_at_most_one(x: real, l: real)
    requires
        0real < x <= l,
    ensures
        x / l <= 1real,
{
    let r = x / l;
    lemma_divided(x, l);
    assert(r <= 1real) by (nonlinear_arith)
        requires
            r * l == x,
            x <= l,
            l > 0real,
    ;
}

/// The factor from one weight to the next one above.
proof fn lemma_factor_above(mean: F64, c: int, j: int)
    requires
        centred(mean, c),
        c <= j <= 3000000000,
    ensures
        approx(
            mean / count(j + 1),
            val(mean) / (j + 1) as real,
            val(mean) / (j + 1) as real + least(),
            2real,
        ),
        0real < val(mean) / (j + 1) as real <= 1real,
{
    lemma_count(j + 1);
    lemma_next_count(j);
    let l = val(mean);
    let x = (j + 1) as real;
    lemma_divided(l, x);
    lemma_power_adds(60, 940);
    lemma2_to64_rest();
    assert(power(60) == 1152921504606846976real);
    lemma_mul_le(1real, power(940), power(60));
    lemma_mul_le(1real, x, power(1000));
    lemma_quotient_stays_finite(mean, count(j + 1));
    lemma_approx_self(mean);
    lemma_approx_quotient(mean, l, l, 0real, count(j + 1));
    assert(l <= x);
    lemma_ratio_at_most_one(l, x);
}

/// A first term of a mixture can be split off.
proof fn lemma_split_first(l: real, c: int, w: real, v: spec_fn(int) -> real, lo: int, hi: int)
    requires
        lo <= hi,
    ensures
        poisson_mixture(l, c, w, v, lo, hi) == w * poisson_ratio(l, lo, c) * v(lo) + poisson_mixture(
            l,
            c,
            w,
            v,
            lo + 1,
            hi,
        ),
    decreases hi - lo,
{
    if lo < hi {
        lemma_split_first(l, c, w, v, lo, hi - 1);
    } else {
        assert(poisson_mixture(l, c, w, v, lo, hi - 1) == 0real);
        assert(poisson_mixture(l, c, w, v, lo + 1, hi) == 0real);
    }
}

/// Values between zero and one.
pub open spec fn shares(v: spec_fn(int) -> F64, lo: int, hi: int) -> bool {
    forall|j: int| lo <= j <= hi ==> (#[trigger] v(j)).is_finite() && 0real <= val(v(j)) <= 1real
}

/// The values as real numbers.
pub open spec fn values(v: spec_fn(int) -> F64) -> spec_fn(int) -> real {
    |j: int| val(v(j))
}

proof fn lemma_below(
    mean: F64,
    v: spec_fn(int) -> F64,
    j: int,
    wt: F64,
    sum: F64,
    stop: int,
    c: int,
    w: real,
)
    requires
        centred(mean, c),
        0 <= stop <= j <= c,
        shares(v, 0, c),
        0real <= w <= 1real,
        c == 1 ==> w <= val(mean),
        ({
            let l = val(mean);
            let n = (c - j) as real;
            let e = w * poisson_ratio(l, j, c);
            let t = poisson_mixture(l, c, w, values(v), j, c);
            &&& 0real <= e <= 1real
            &&& approx(wt, e, e + n * (4real * least()), 8real * n)
            &&& 0real <= t <= n + 1real
            &&& approx(sum, t, t + (n + 1real) * speck(), 8real * n + 16real)
        }),
    ensures
        ({
            let l = val(mean);
            let n = (c - stop) as real;
            let t = poisson_mixture(l, c, w, values(v), stop, c);
            &&& 0real <= t <= n + 1real
            &&& approx(
                terms_below(mean, v, j, wt, sum, stop),
                t,
                t + (n + 1real) * speck(),
                8real * n + 16real,
            )
        }),
    decreases j - stop,
{
    if j > stop {
        let l = val(mean);
        let n = (c - j) as real;
        let e = w * poisson_ratio(l, j, c);
        let t = poisson_mixture(l, c, w, values(v), j, c);
        let r = j as real / l;
        lemma_factor_below(mean, c, j);
        let e1 = w * poisson_ratio(l, j - 1, c);
        assert(poisson_ratio(l, j - 1, c) == poisson_ratio(l, j, c) * ((j - 1 + 1) as real / l));
        lemma_assoc(w, poisson_ratio(l, j, c), r);
        assert(e1 == e * r);
        lemma_speck();
        lemma_mul_nonneg(e, r);
        assert(e * r <= 1real) by {
            if r <= 1real {
                lemma_mul_le(r, 1real, e);
            } else {
                assert(c == 1 && j == 1);
                assert(poisson_ratio(l, 1, 1) == 1real);
                assert(w * 1real == w);
                assert(e == w);
                lemma_divided(1real, l);
                lemma_mul_le(w, l, r);
                lemma_assoc(r, l, 1real);
            }
        }
        let s = n * (4real * least());
        lemma_tiny_slack(n);
        assert(r <= 1real || s == 0real) by {
            if r > 1real {
                assert(n == 0real);
                assert(0real * (4real * least()) == 0real);
            }
        }
        lemma_weight_step(wt, e, s, 8real * n, count(j) / mean, r);
        let wt1 = wt * (count(j) / mean);
        let n1 = (c - (j - 1)) as real;
        assert(n1 == n + 1real);
        lemma_distrib(4real * least(), n, 1real);
        lemma_tiny_slack(n1);
        assert(approx(wt1, e1, e1 + n1 * (4real * least()), 8real * n1));
        assert(v(j - 1).is_finite());
        lemma_sum_step(
            wt1,
            e1,
            n1 * (4real * least()),
            8real * n1,
            v(j - 1),
            sum,
            t,
            n + 1real,
            8real * n + 16real,
        );
        let sum1 = sum + wt1 * v(j - 1);
        lemma_split_first(l, c, w, values(v), j - 1, c);
        let t1 = poisson_mixture(l, c, w, values(v), j - 1, c);
        assert(values(v)(j - 1) == val(v(j - 1)));
        assert(t1 == t + e1 * val(v(j - 1)));
        lemma_approx_wider(
            sum1,
            t1,
            t1 + (n + 1real + 1real) * speck(),
            8real * n + 16real + 2real,
            t1 + (n1 + 1real) * speck(),
            8real * n1 + 16real,
        );
        lemma_below(mean, v, j - 1, wt1, sum1, stop, c, w);
    }
}

/// The slack of a weight stays tiny.
proof fn lemma_tiny_slack(n: real)
    requires
        0real <= n <= 4000000000real,
    ensures
        0real <= n * (4real * least()) <= speck() - 2real * least(),
        speck() <= 1real,
{
    lemma_speck();
    lemma_small_speck();
    lemma_mul_le(n, 4000000000real, 4real * least());
    lemma_mul_nonneg(n, 4real * least());
}

proof fn lemma_small_speck()
    ensures
        1152921504606846976real * least() <= speck(),
{
    lemma_power_adds(500, 522);
    lemma_power_adds(60, 462);
    lemma2_to64_rest();
    assert(power(60) == 1152921504606846976real);
    let p = power(500);
    let q = power(1022);
    let t = power(60);
    lemma_mul_le(1real, power(462), t);
    assert(power(522) >= t);
    lemma_mul_le(t, power(522), p);
    lemma_inverse(p);
    lemma_inverse(q);
    let i = 1real / p;
    let j = 1real / q;
    lemma_mul_nonneg(i, j);
    lemma_mul_le(t * p, q, i * j);
    lemma_assoc(t, p, i * j);
    lemma_assoc(p, i, j);
    assert((t * p) * (i * j) == t * ((p * i) * j));
    assert(1real * j == j);
    lemma_assoc(q, i, j);
    assert(q * (i * j) == (q * j) * i);
    assert(1real * i == i);
}

proof fn lemma_above(
    mean: F64,
    v: spec_fn(int) -> F64,
    j: int,
    wt: F64,
    sum: F64,
    stop: int,
    c: int,
    w: real,
    lo: int,
)
    requires
        centred(mean, c),
        0 <= lo <= c <= j <= stop <= 3000000000,
        shares(v, c, stop),
        0real <= w <= 1real,
        ({
            let l = val(mean);
            let n = (j - c) as real;
            let q = (j - lo) as real;
            let e = w * poisson_ratio(l, j, c);
            let t = poisson_mixture(l, c, w, values(v), lo, j);
            &&& 0real <= e <= 1real
            &&& approx(wt, e, e + n * (4real * least()), 8real * n)
            &&& 0real <= t <= q + 1real
            &&& approx(sum, t, t + (q + 1real) * speck(), 8real * q + 16real)
        }),
    ensures
        ({
            let l = val(mean);
            let q = (stop - lo) as real;
            let t = poisson_mixture(l, c, w, values(v), lo, stop);
            &&& 0real <= t <= q + 1real
            &&& approx(
                terms_above(mean, v, j, wt, sum, stop),
                t,
                t + (q + 1real) * speck(),
                8real * q + 16real,
            )
        }),
    decreases stop - j,
{
    if j < stop {
        let l = val(mean);
        let n = (j - c) as real;
        let q = (j - lo) as real;
        let e = w * poisson_ratio(l, j, c);
        let t = poisson_mixture(l, c, w, values(v), lo, j);
        let r = l / (j + 1) as real;
        lemma_factor_above(mean, c, j);
        let e1 = w * poisson_ratio(l, j + 1, c);
        assert(poisson_ratio(l, j + 1, c) == poisson_ratio(l, j + 1 - 1, c) * (l / (j + 1) as real));
        lemma_assoc(w, poisson_ratio(l, j, c), r);
        assert(e1 == e * r);
        lemma_speck();
        lemma_mul_nonneg(e, r);
        lemma_mul_le(r, 1real, e);
        let s = n * (4real * least());
        lemma_tiny_slack(n);
        lemma_weight_step(wt, e, s, 8real * n, mean / count(j + 1), r);
        let wt1 = wt * (mean / count(j + 1));
        let n1 = (j + 1 - c) as real;
        let q1 = (j + 1 - lo) as real;
        assert(n1 == n + 1real && q1 == q + 1real);
        lemma_distrib(4real * least(), n, 1real);
        lemma_tiny_slack(n1);
        assert(approx(wt1, e1, e1 + n1 * (4real * least()), 8real * n1));
        assert(v(j + 1).is_finite());
        lemma_sum_step(
            wt1,
            e1,
            n1 * (4real * least()),
            8real * n1,
            v(j + 1),
            sum,
            t,
            q + 1real,
            8real * q + 16real,
        );
        let sum1 = sum + wt1 * v(j + 1);
        let t1 = poisson_mixture(l, c, w, values(v), lo, j + 1);
        assert(values(v)(j + 1) == val(v(j + 1)));
        assert(t1 == t + e1 * val(v(j + 1)));
        lemma_approx_wider(
            sum1,
            t1,
            t1 + (q + 1real + 1real) * speck(),
            8real * q + 16real + 2real,
            t1 + (q1 + 1real) * speck(),
            8real * q1 + 16real,
        );
        lemma_above(mean, v, j + 1, wt1, sum1, stop, c, w, lo);
    }
}

/// A mixture that is summed down and then up from its centre.
pub proof fn law_mixture_is_summed(mean: F64, v: spec_fn(int) -> F64, c: int, wt: F64, lo: int, hi: int)
    requires
        centred(mean, c),
        0 <= lo <= c <= hi <= 3000000000,
        shares(v, 0, hi),
        wt.is_finite(),
        0real <= val(wt) <= 1real,
        c == 1 ==> val(wt) <= val(mean),
    ensures
        ({
            let down = terms_below(mean, v, c, wt, wt * v(c), lo);
            let t = poisson_mixture(val(mean), c, val(wt), values(v), lo, hi);
            let n = (hi - lo + 1) as real;
            approx(terms_above(mean, v, c, wt, down, hi), t, t + n * speck(), 8real * n + 16real)
        }),
{
    let l = val(mean);
    let w = val(wt);
    lemma_speck();
    lemma_approx_self(wt);
    assert(poisson_ratio(l, c, c) == 1real);
    assert(w * 1real == w);
    assert(0real * (4real * least()) == 0real);
    assert(poisson_mixture(l, c, w, values(v), c, c - 1) == 0real);
    assert(v(c).is_finite());
    let x = val(v(c));
    assert(values(v)(c) == x);
    lemma_approx_self(v(c));
    lemma_mul_le(x, 1real, w);
    lemma_mul_nonneg(w, x);
    lemma_power_adds(0, 1000);
    lemma_product_stays_finite(wt, v(c));
    lemma_approx_product(wt, w, w, 0real, v(c), x, x, 0real);
    let sum = wt * v(c);
    let t = poisson_mixture(l, c, w, values(v), c, c);
    assert(t == w * x);
    assert((0real + 1real) * speck() == speck());
    lemma_approx_wider(sum, t, w * x + least(), 0real + 2real * 0real + 4real, t + speck(), 16real);
    lemma_approx_wider(wt, w, w, 0real, w + 0real, 0real);
    lemma_below(mean, v, c, wt, sum, lo, c, w);
    let down = terms_below(mean, v, c, wt, sum, lo);
    lemma_above(mean, v, c, wt, down, hi, c, w, lo);
    let q = (hi - lo) as real;
    let n = (hi - lo + 1) as real;
    let t2 = poisson_mixture(l, c, w, values(v), lo, hi);
    lemma_approx_wider(
        terms_above(mean, v, c, wt, down, hi),
        t2,
        t2 + (q + 1real) * speck(),
        8real * q + 16real,
        t2 + n * speck(),
        8real * n + 16real,
    );
}

/// The weight that is reached from that of `j` at `stop`, below it.
pub open spec fn weight_below(mean: F64, j: int, wt: F64, stop: int) -> F64
    decreases j - stop,
{
    if j <= stop {
        wt
    } else {
        weight_below(mean, j - 1, wt * (count(j) / mean), stop)
    }
}

/// The weight that is reached from that of `j` at `stop`, above it.
pub open spec fn weight_above(mean: F64, j: int, wt: F64, stop: int) -> F64
    decreases stop - j,
{
    if j >= stop {
        wt
    } else {
        weight_above(mean, j + 1, wt * (mean / count(j + 1)), stop)
    }
}

/// A term that a sum can be left off at: its weight has vanished, or the sum is next to
/// nothing, or the term is at most the tolerance of the sum.
pub open spec fn negligible(w: F64, x: F64, sum: F64, tol: F64) -> bool {
    !w.gt(lit(ZERO)) || sum.lt(lit(EPSILON)) || (w * x).le(tol * sum)
}

/// The number is a Poisson mixture, with the given mean, of the values `v`, to within rounding:
/// the weights are those of a Poisson distribution, and the terms that are left out begin
/// after negligible ones, or after `reach` of them on either side.
pub open spec fn mixes(
    mean: F64,
    v: spec_fn(int) -> F64,
    c: int,
    wt: F64,
    tol: F64,
    reach: int,
    top: int,
    r: F64,
) -> bool {
    exists|lo: int, hi: int| #[trigger] mixes_from(mean, v, c, wt, tol, reach, top, r, lo, hi)
}

pub open spec fn mixes_from(
    mean: F64,
    v: spec_fn(int) -> F64,
    c: int,
    wt: F64,
    tol: F64,
    reach: int,
    top: int,
    r: F64,
    lo: int,
    hi: int,
) -> bool {
    let down = terms_below(mean, v, c, wt, wt * v(c), lo);
    let t = poisson_mixture(val(mean), c, val(wt), values(v), lo, hi);
    let n = (hi - lo + 1) as real;
    &&& 0 <= lo <= c <= hi <= top
    &&& approx(r, t, t + n * speck(), 8real * n + 16real)
    &&& lo == 0 || c - lo == reach || negligible(weight_below(mean, c, wt, lo), v(lo), down, tol)
    &&& hi - c == reach || negligible(weight_above(mean, c, wt, hi), v(hi), r, tol)
}

/// The centre of a mixture: the whole part of the mean, but at least one.
pub open spec fn centre(mean: F64) -> int {
    if mean.to_i32() == 0 {
        1
    } else {
        mean.to_i32() as int
    }
}

/// The probability of the centre in a Poisson distribution with the given mean.
pub open spec fn centre_weight<M: Fn(Elementary) -> F64>(m: &M, mean: F64) -> F64 {
    poisson::mass(m, mean, centre(mean) as u64)
}

/// What a mixture needs: a mean that is neither tiny nor huge, a weight of the centre that is
/// a probability, and weights that vanish before `top`.
pub open spec fn mixable<M: Fn(Elementary) -> F64>(m: &M, mean: F64, top: int) -> bool {
    let c = centre(mean);
    let wt = centre_weight(m, mean);
    &&& centred(mean, c)
    &&& wt.is_finite() && 0real <= val(wt) <= 1real
    &&& c == 1 ==> val(wt) <= val(mean)
    &&& c < top <= 3000000000
    &&& !weight_above(mean, c, wt, top).gt(lit(ZERO))
}

/// What the mixtures start from is the Poisson weight of the centre.
proof fn lemma_centre<M: Fn(Elementary) -> F64>(m: &M, mean: F64)
    requires
        centred(mean, centre(mean)),
    ensures
        ({
            let c = centre(mean);
            let icent = if mean.to_i32() == 0 {
                lit(ONE)
            } else {
                F64::from_i64(mean.to_i32() as i64)
            };
            &&& icent == count(c)
            &&& exp(m, mean.negated() + icent * ln(m, mean) - gamma_log(m, icent + lit(ONE)))
                == centre_weight(m, mean)
            &&& icent.to_u64() == c
        }),
{
    let c = centre(mean);
    lemma_next_count(0);
    lemma_count(c);
    reveal(F64::from_u64_spec);
    reveal(F64::from_i64_spec);
    law_integers_round_trip(c as u64);
    let icent = count(c);
    let p = icent * ln(m, mean);
    law_sum_commutes(mean.negated(), p);
    lemma_nonzero(mean);
    lemma_mag_zero(0);
    broadcast use lemma_equals_units;
    lemma_order(mean.enc() as int, 0);
}

/// The ratio of the incomplete beta function above, for the count `j`.
pub open spec fn upper_beta<M: Fn(Elementary) -> F64>(
    m: &M,
    a: F64,
    b: F64,
    xx: F64,
    yy: F64,
) -> spec_fn(int) -> F64 {
    |j: int| beta_inc_value(m, a + count(j), b, xx, yy).1
}

proof fn lemma_upper_down<M: Fn(Elementary) -> F64>(
    m: &M,
    a: F64,
    b: F64,
    mean: F64,
    xx: F64,
    yy: F64,
    j: int,
    wt: F64,
    sum: F64,
) -> (lo: int)
    requires
        0 <= j <= 1000000000,
    ensures
        ({
            let v = upper_beta(m, a, b, xx, yy);
            let r = upper_down(m, a, b, mean, xx, yy, count(j), wt, sum, j as u64);
            &&& 0 <= lo <= j
            &&& r == terms_below(mean, v, j, wt, sum, lo)
            &&& lo == 0 || negligible(weight_below(mean, j, wt, lo), v(lo), r, lit(EPSILON))
        }),
    decreases j,
{
    if j == 0 {
        0
    } else {
        lemma_next_count(j - 1);
        let v = upper_beta(m, a, b, xx, yy);
        let wt1 = wt * (count(j) / mean);
        let term = wt1 * v(j - 1);
        let sum1 = sum + term;
        assert(v(j - 1) == beta_inc_value(m, a + count(j - 1), b, xx, yy).1);
        assert(terms_below(mean, v, j - 1, wt1, sum1, j - 1) == sum1);
        assert(weight_below(mean, j - 1, wt1, j - 1) == wt1);
        if !wt1.gt(lit(ZERO)) || term.le(lit(EPSILON) * sum1) {
            j - 1
        } else {
            lemma_upper_down(m, a, b, mean, xx, yy, j - 1, wt1, sum1)
        }
    }
}

proof fn lemma_upper_up<M: Fn(Elementary) -> F64>(
    m: &M,
    a: F64,
    b: F64,
    mean: F64,
    xx: F64,
    yy: F64,
    j: int,
    wt: F64,
    sum: F64,
    n: u64,
    top: int,
) -> (hi: int)
    requires
        0 <= j < top <= 3000000000,
        n > top - j,
        !weight_above(mean, j, wt, top).gt(lit(ZERO)),
    ensures
        ({
            let v = upper_beta(m, a, b, xx, yy);
            let r = upper_up(m, a, b, mean, xx, yy, count(j), wt, sum, n);
            &&& j <= hi <= top
            &&& r == terms_above(mean, v, j, wt, sum, hi)
            &&& negligible(weight_above(mean, j, wt, hi), v(hi), r, lit(EPSILON))
        }),
    decreases top - j,
{
    lemma_next_count(j);
    let v = upper_beta(m, a, b, xx, yy);
    let wt1 = wt * (mean / count(j + 1));
    let term = wt1 * v(j + 1);
    let sum1 = sum + term;
    assert(v(j + 1) == beta_inc_value(m, a + count(j + 1), b, xx, yy).1);
    assert(terms_above(mean, v, j + 1, wt1, sum1, j + 1) == sum1);
    assert(weight_above(mean, j + 1, wt1, j + 1) == wt1);
    if !wt1.gt(lit(ZERO)) || (sum1.gt(lit(ZERO)) && term.le(lit(EPSILON) * sum1)) {
        j + 1
    } else {
        if j + 1 == top {
            assert(weight_above(mean, top, wt1, top) == wt1);
        }
        lemma_upper_up(m, a, b, mean, xx, yy, j + 1, wt1, sum1, (n - 1) as u64, top)
    }
}

/// The share of the numerator in what an F statistic compares, and that of the denominator.
pub open spec fn portions(dfn: F64, dfd: F64, f: F64) -> (F64, F64) {
    let prod = dfn * f;
    let dsum = dfd + prod;
    let y0 = dfd / dsum;
    if y0.gt(lit(HALF)) {
        (prod / dsum, lit(ONE) - prod / dsum)
    } else {
        (lit(ONE) - y0, y0)
    }
}

/// For a positive noncentrality the probability above of a noncentral F distribution is the
/// mixture of the upper ratios of the incomplete beta function, for half of the degrees of
/// freedom of the numerator and a count more, with the weights of a Poisson distribution that
/// has half the noncentrality as its mean.
pub proof fn law_noncentral_f_above_is_a_mixture<M: Fn(Elementary) -> F64>(
    m: &M,
    dfn: F64,
    dfd: F64,
    ncp: F64,
    f: F64,
    top: int,
)
    requires
        !dfn.is_nan() && !dfd.is_nan() && f.gt(lit(ZERO)),
        !ncp.is_nan() && !ncp.lt(lit(0x3DDB_7CDF_D9D7_BDBB /* 1e-10 */)),
        mixable(m, ncp / lit(TWO), top),
        ({
            let (xx, yy) = portions(dfn, dfd, f);
            shares(upper_beta(m, dfn / lit(TWO), dfd / lit(TWO), xx, yy), 0, top)
        }),
    ensures
        ({
            let mean = ncp / lit(TWO);
            let (xx, yy) = portions(dfn, dfd, f);
            mixes(
                mean,
                upper_beta(m, dfn / lit(TWO), dfd / lit(TWO), xx, yy),
                centre(mean),
                centre_weight(m, mean),
                lit(EPSILON),
                top,
                top,
                ccdf_at(m, dfn, dfd, ncp, f),
            )
        }),
{
    broadcast use lemma_lt_units;
    broadcast use lemma_le_units;
    let mean = ncp / lit(TWO);
    let c = centre(mean);
    let wt = centre_weight(m, mean);
    let (xx, yy) = portions(dfn, dfd, f);
    let a = dfn / lit(TWO);
    let b = dfd / lit(TWO);
    let v = upper_beta(m, a, b, xx, yy);
    lemma_centre(m, mean);
    assert(v(c) == beta_inc_value(m, a + count(c), b, xx, yy).1);
    let sum = wt * v(c);
    let lo = lemma_upper_down(m, a, b, mean, xx, yy, c, wt, sum);
    let down = upper_down(m, a, b, mean, xx, yy, count(c), wt, sum, c as u64);
    let hi = lemma_upper_up(m, a, b, mean, xx, yy, c, wt, down, PATIENCE, top);
    let r = upper_up(m, a, b, mean, xx, yy, count(c), wt, down, PATIENCE);
    assert(ccdf_at(m, dfn, dfd, ncp, f) == r);
    assert forall|j: int| 0 <= j <= hi implies (#[trigger] v(j)).is_finite() && 0real <= val(v(j)) <= 1real by {}
    law_mixture_is_summed(mean, v, c, wt, lo, hi);
    assert(mixes_from(mean, v, c, wt, lit(EPSILON), top, top, r, lo, hi));
}

/// The ratios below as they are updated downwards, `k` times: the first parameter, the last
/// difference of two ratios, and the ratio.
pub open spec fn lowered(b: F64, xx: F64, a: F64, term: F64, ratio: F64, k: int) -> (F64, F64, F64)
    decreases k,
{
    if k <= 0 {
        (a, term, ratio)
    } else {
        let (a0, t0, r0) = lowered(b, xx, a, term, ratio, k - 1);
        let a1 = a0 - lit(ONE);
        let t1 = t0 * ((a1 + lit(ONE)) / ((a1 + b) * xx));
        (a1, t1, r0 + t1)
    }
}

/// The ratios below as they are updated upwards, `k` times.
pub open spec fn raised(b: F64, xx: F64, a: F64, term: F64, ratio: F64, k: int) -> (F64, F64, F64)
    decreases k,
{
    if k <= 0 {
        (a, term, ratio)
    } else {
        let (a0, t0, r0) = raised(b, xx, a, term, ratio, k - 1);
        let a1 = a0 + lit(ONE);
        let t1 = t0 * ((a1 + b - lit(TWO)) * xx / (a1 - lit(ONE)));
        (a1, t1, r0 - t1)
    }
}

/// The updated ratios, for the count `j`.
pub open spec fn updated(
    b: F64,
    xx: F64,
    a: F64,
    dn: F64,
    up: F64,
    ratio: F64,
    c: int,
) -> spec_fn(int) -> F64 {
    |j: int|
        if j <= c {
            lowered(b, xx, a, dn, ratio, c - j).2
        } else {
            raised(b, xx, a, up, ratio, j - c).2
        }
}

/// The bits of 1e-4.
pub const LEFT_OFF: u64 = 0x3F1A_36E2_EB1C_432D;

proof fn lemma_sum_down(
    mean: F64,
    b: F64,
    xx: F64,
    a: F64,
    dn: F64,
    up: F64,
    ratio: F64,
    c: int,
    j: int,
    wt: F64,
    sum: F64,
) -> (lo: int)
    requires
        0 <= j <= c <= 1000000000,
    ensures
        ({
            let v = updated(b, xx, a, dn, up, ratio, c);
            let (a0, t0, r0) = lowered(b, xx, a, dn, ratio, c - j);
            let r = sum_down(mean, b, xx, count(j), wt, a0, t0, r0, sum, j as u64);
            &&& 0 <= lo <= j
            &&& r == terms_below(mean, v, j, wt, sum, lo)
            &&& lo == 0 || negligible(weight_below(mean, j, wt, lo), v(lo), r, lit(LEFT_OFF))
        }),
    decreases j,
{
    broadcast use lemma_lt_units;
    broadcast use lemma_le_units;
    let v = updated(b, xx, a, dn, up, ratio, c);
    let (a0, t0, r0) = lowered(b, xx, a, dn, ratio, c - j);
    assert(v(j) == r0);
    assert(terms_below(mean, v, j, wt, sum, j) == sum);
    assert(weight_below(mean, j, wt, j) == wt);
    if j == 0 {
        0
    } else if sum.lt(lit(EPSILON)) || (wt * r0).lt(lit(LEFT_OFF) * sum) {
        j
    } else {
        lemma_next_count(j - 1);
        let (a1, t1, r1) = lowered(b, xx, a, dn, ratio, c - (j - 1));
        assert(c - (j - 1) - 1 == c - j);
        assert(v(j - 1) == r1);
        let wt1 = wt * (count(j) / mean);
        lemma_sum_down(mean, b, xx, a, dn, up, ratio, c, j - 1, wt1, sum + wt1 * r1)
    }
}

/// The sum is not left off at the term.
spec fn goes_on(w: F64, x: F64, sum: F64, tol: F64) -> bool {
    !sum.lt(lit(EPSILON)) && !(w * x).lt(tol * sum)
}

/// A sum does not go on once the weight has vanished.
proof fn lemma_does_not_go_on(w: F64, x: F64, sum: F64, t: real, s: real, k: real)
    requires
        w.enc() == 0,
        x.is_finite(),
        approx(sum, t, s, k),
        !sum.lt(lit(EPSILON)),
    ensures
        (w * x).lt(lit(LEFT_OFF) * sum),
{
    broadcast use lemma_lt_units;
    lemma_mag_zero(0);
    crate::special::normal_laws::lemma_small_powers();
    lemma2_to64_rest();
    crate::float::laws::law_product_is_nearest(w, x);
    lemma_pow2_pos(1074);
    let z = crate::float::model::mag(x.enc() as int);
    assert(0 * z == 0);
    crate::float::arith::lemma_round_zero(pow2(1074) as int);
    crate::float::model::lemma_round_ratio_is(0, pow2(1074) as int, (w * x).enc());
    crate::float::bounds::lemma_literal(EPSILON, 970, 0x10_0000_0000_0000, 52, 1, 1, 52);
    crate::float::bounds::lemma_literal(LEFT_OFF, 1008, 0x1A_36E2_EB1C_432D, 52, 1, 2, 14);
    let c = lit(LEFT_OFF);
    crate::float::bounds::lemma_part(1, 52);
    crate::float::bounds::lemma_part(1, 14);
    crate::float::bounds::lemma_part(1, 66);
    crate::float::bounds::lemma_product(c, sum);
    lemma_pow2_adds(1060, 1022);
    lemma_pow2_adds(1008, 1074);
    let num = c.units() * sum.units();
    assert(num >= pow2(1060) * pow2(1022)) by (nonlinear_arith)
        requires
            num == c.units() * sum.units(),
            c.units() >= pow2(1060),
            sum.units() >= pow2(1022),
    ;
    crate::float::bounds::lemma_ratio_ge(num, pow2(1074) as int, crate::float::bounds::part(1, 66));
}

proof fn lemma_sum_up(
    mean: F64,
    b: F64,
    xx: F64,
    a: F64,
    dn: F64,
    up: F64,
    ratio: F64,
    c: int,
    j: int,
    wt: F64,
    sum: F64,
    n: u64,
    top: int,
) -> (hi: int)
    requires
        0 <= c <= j < top <= 3000000000,
        n > top - j,
        !weight_above(mean, j, wt, top).gt(lit(ZERO)),
    ensures
        ({
            let v = updated(b, xx, a, dn, up, ratio, c);
            let (a0, t0, r0) = raised(b, xx, a, up, ratio, j - c);
            let r = sum_up(mean, b, xx, count(j + 1), wt, a0, t0, r0, sum, n);
            &&& j <= hi <= top
            &&& (r == terms_above(mean, v, j, wt, sum, hi) && negligible(
                weight_above(mean, j, wt, hi),
                v(hi),
                r,
                lit(LEFT_OFF),
            )) || (hi == top && goes_on(
                weight_above(mean, j, wt, top),
                v(top),
                terms_above(mean, v, j, wt, sum, top),
                lit(LEFT_OFF),
            ))
        }),
    decreases top - j,
{
    broadcast use lemma_lt_units;
    broadcast use lemma_le_units;
    lemma_next_count(j + 1);
    let v = updated(b, xx, a, dn, up, ratio, c);
    let (a0, t0, r0) = raised(b, xx, a, up, ratio, j - c);
    let (a1, t1, r1) = raised(b, xx, a, up, ratio, j + 1 - c);
    assert(j + 1 - c - 1 == j - c);
    assert(v(j + 1) == r1);
    let wt1 = wt * (mean / count(j + 1));
    let sum1 = sum + wt1 * r1;
    assert(terms_above(mean, v, j + 1, wt1, sum1, j + 1) == sum1);
    assert(weight_above(mean, j + 1, wt1, j + 1) == wt1);
    if sum1.lt(lit(EPSILON)) || (wt1 * r1).lt(lit(LEFT_OFF) * sum1) {
        j + 1
    } else if j + 1 == top {
        top
    } else {
        lemma_sum_up(mean, b, xx, a, dn, up, ratio, c, j + 1, wt1, sum1, (n - 1) as u64, top)
    }
}

/// The first differences of the ratios that the distribution function goes down and up from.
pub open spec fn first_down<M: Fn(Elementary) -> F64>(m: &M, a: F64, b: F64, xx: F64, yy: F64) -> F64 {
    exp(
        m,
        gamma_log(m, a + b) - gamma_log(m, a + lit(ONE)) - gamma_log(m, b) + a * ln(m, xx) + b * ln(m, yy),
    )
}

/// The ratio of the incomplete beta function below, for the count `j`.
pub open spec fn lower_beta<M: Fn(Elementary) -> F64>(
    m: &M,
    a: F64,
    b: F64,
    xx: F64,
    yy: F64,
) -> spec_fn(int) -> F64 {
    |j: int| beta_inc_value(m, a + count(j), b, xx, yy).0
}

/// The updated ratios below, from that of the centre.
pub open spec fn updated_beta<M: Fn(Elementary) -> F64>(
    m: &M,
    dfn: F64,
    dfd: F64,
    xx: F64,
    yy: F64,
    c: int,
) -> spec_fn(int) -> F64 {
    let a = dfn / lit(TWO) + count(c);
    let b = dfd / lit(TWO);
    updated(
        b,
        xx,
        a,
        first_down(m, a, b, xx, yy),
        first_up(m, a, b, xx, yy),
        beta_inc_value(m, lit(HALF) * dfn + count(c), lit(HALF) * dfd, xx, yy).0,
        c,
    )
}

/// For a positive noncentrality the probability below of a noncentral F distribution is the
/// mixture of the lower ratios of the incomplete beta function, as they are updated from that
/// of the centre, with the weights of a Poisson distribution that has half the noncentrality
/// as its mean. It is left off at terms below 1e-4 of the sum.
pub proof fn law_noncentral_f_below_is_a_mixture<M: Fn(Elementary) -> F64>(
    m: &M,
    dfn: F64,
    dfd: F64,
    ncp: F64,
    f: F64,
    top: int,
)
    requires
        !dfn.is_nan() && !dfd.is_nan() && f.gt(lit(ZERO)),
        !ncp.is_nan() && !ncp.lt(lit(0x3DDB_7CDF_D9D7_BDBB /* 1e-10 */)),
        mixable(m, ncp / lit(TWO), top),
        ({
            let mean = ncp / lit(TWO);
            let (xx, yy) = portions(dfn, dfd, f);
            &&& shares(updated_beta(m, dfn, dfd, xx, yy, centre(mean)), 0, top)
            &&& weight_above(mean, centre(mean), centre_weight(m, mean), top).enc() == 0
        }),
    ensures
        ({
            let mean = ncp / lit(TWO);
            let (xx, yy) = portions(dfn, dfd, f);
            mixes(
                mean,
                updated_beta(m, dfn, dfd, xx, yy, centre(mean)),
                centre(mean),
                centre_weight(m, mean),
                lit(LEFT_OFF),
                top,
                top,
                cdf_at(m, dfn, dfd, ncp, f),
            )
        }),
{
    broadcast use lemma_lt_units;
    broadcast use lemma_le_units;
    let mean = ncp / lit(TWO);
    let c = centre(mean);
    let wt = centre_weight(m, mean);
    let (xx, yy) = portions(dfn, dfd, f);
    let a = dfn / lit(TWO) + count(c);
    let b = dfd / lit(TWO);
    let v = updated_beta(m, dfn, dfd, xx, yy, c);
    let dn = first_down(m, a, b, xx, yy);
    let up = first_up(m, a, b, xx, yy);
    let ratio = beta_inc_value(m, lit(HALF) * dfn + count(c), lit(HALF) * dfd, xx, yy).0;
    lemma_centre(m, mean);
    lemma_next_count(c);
    assert(v == updated(b, xx, a, dn, up, ratio, c));
    assert(lowered(b, xx, a, dn, ratio, 0) == (a, dn, ratio));
    assert(raised(b, xx, a, up, ratio, 0) == (a, up, ratio));
    assert(c - c == 0);
    assert(v(c) == ratio);
    let sum = wt * ratio;
    let lo = lemma_sum_down(mean, b, xx, a, dn, up, ratio, c, c, wt, sum);
    let down = sum_down(mean, b, xx, count(c), wt, a, dn, ratio, sum, c as u64);
    let hi = lemma_sum_up(mean, b, xx, a, dn, up, ratio, c, c, wt, down, PATIENCE, top);
    let r = sum_up(mean, b, xx, count(c + 1), wt, a, up, ratio, down, PATIENCE);
    assert(cdf_at(m, dfn, dfd, ncp, f) == r);
    law_mixture_is_summed(mean, v, c, wt, lo, top);
    let n = (top - lo + 1) as real;
    let t = poisson_mixture(val(mean), c, val(wt), values(v), lo, top);
    let s = terms_above(mean, v, c, wt, down, top);
    assert(v(top).is_finite());
    if !s.lt(lit(EPSILON)) {
        lemma_does_not_go_on(
            weight_above(mean, c, wt, top),
            v(top),
            s,
            t,
            t + n * speck(),
            8real * n + 16real,
        );
    }
    assert forall|j: int| 0 <= j <= hi implies (#[trigger] v(j)).is_finite() && 0real <= val(v(j)) <= 1real by {}
    law_mixture_is_summed(mean, v, c, wt, lo, hi);
    assert(mixes_from(mean, v, c, wt, lit(LEFT_OFF), top, top, r, lo, hi));
}

/// Where the updated ratios are within `d` of the ratios themselves, so is their mixture of
/// the mixture of those, times the sum of the weights.
pub proof fn law_mixture_of_near_values(
    l: real,
    c: int,
    w: real,
    u: spec_fn(int) -> real,
    v: spec_fn(int) -> real,
    lo: int,
    hi: int,
    d: real,
)
    requires
        l > 0real,
        w >= 0real,
        d >= 0real,
        0 <= lo,
        c >= 1,
        forall|j: int| lo <= j <= hi ==> abs(#[trigger] u(j) - v(j)) <= d,
    ensures
        abs(poisson_mixture(l, c, w, u, lo, hi) - poisson_mixture(l, c, w, v, lo, hi)) <= d
            * poisson_mixture(l, c, w, |j: int| 1real, lo, hi),
    decreases hi - lo + 1,
{
    if lo <= hi {
        law_mixture_of_near_values(l, c, w, u, v, lo, hi - 1, d);
        lemma_ratio_positive(l, hi, c);
        let p = w * poisson_ratio(l, hi, c);
        lemma_mul_nonneg(w, poisson_ratio(l, hi, c));
        assert(abs(u(hi) - v(hi)) <= d);
        lemma_abs_product(p, u(hi) - v(hi), p, d);
        lemma_distrib(p, u(hi) - v(hi), v(hi));
        let one = |j: int| 1real;
        let a = poisson_mixture(l, c, w, one, lo, hi - 1);
        assert(poisson_mixture(l, c, w, one, lo, hi) == a + p * 1real);
        lemma_distrib(d, a, p);
        lemma_assoc(d, p, 1real);
    } else {
        assert(d * 0real == 0real);
    }
}

proof fn lemma_ratio_positive(l: real, j: int, c: int)
    requires
        l > 0real,
        j >= 0,
        c >= 1,
    ensures
        poisson_ratio(l, j, c) > 0real,
    decreases
            if j < c {
                c - j
            } else {
                j - c
            },
{
    if j < c {
        lemma_ratio_positive(l, j + 1, c);
        lemma_divided((j + 1) as real, l);
        lemma_mul_positive(poisson_ratio(l, j + 1, c), (j + 1) as real / l);
    } else if j > c {
        lemma_ratio_positive(l, j - 1, c);
        lemma_divided(l, j as real);
        lemma_mul_positive(poisson_ratio(l, j - 1, c), l / j as real);
    }
}

proof fn lemma_mul_positive(a: real, b: real)
    requires
        a > 0real,
        b > 0real,
    ensures
        a * b > 0real,
{
    assert(a * b > 0real) by (nonlinear_arith)
        requires
            a > 0real,
            b > 0real,
    ;
}

/// The number is within `d` times the weights, and rounding, of the mixture of `v` from `lo`
/// to `hi`.
pub open spec fn near_mixture(
    mean: F64,
    v: spec_fn(int) -> F64,
    c: int,
    wt: F64,
    d: real,
    r: F64,
    lo: int,
    hi: int,
) -> bool {
    let one = |j: int| 1real;
    let t = poisson_mixture(val(mean), c, val(wt), values(v), lo, hi);
    let s = poisson_mixture(val(mean), c, val(wt), one, lo, hi);
    let n = (hi - lo + 1) as real;
    &&& 0 <= lo <= c <= hi
    &&& r.is_finite()
    &&& abs(val(r) - t) <= d * s + (8real * n + 16real) * ulp() * (t + d * s + n * speck())
}

/// Where the incomplete beta ratios obey their recurrence to within `d`, the probability below
/// of a noncentral F distribution is the mixture of these ratios themselves.
pub proof fn law_noncentral_f_below_mixes_ratios<M: Fn(Elementary) -> F64>(
    m: &M,
    dfn: F64,
    dfd: F64,
    ncp: F64,
    f: F64,
    top: int,
    d: real,
)
    requires
        !dfn.is_nan() && !dfd.is_nan() && f.gt(lit(ZERO)),
        !ncp.is_nan() && !ncp.lt(lit(0x3DDB_7CDF_D9D7_BDBB /* 1e-10 */)),
        mixable(m, ncp / lit(TWO), top),
        d >= 0real,
        ({
            let mean = ncp / lit(TWO);
            let (xx, yy) = portions(dfn, dfd, f);
            let u = updated_beta(m, dfn, dfd, xx, yy, centre(mean));
            let v = lower_beta(m, dfn / lit(TWO), dfd / lit(TWO), xx, yy);
            &&& shares(u, 0, top)
            &&& weight_above(mean, centre(mean), centre_weight(m, mean), top).enc() == 0
            &&& forall|j: int| 0 <= j <= top ==> abs(#[trigger] val(u(j)) - val(v(j))) <= d
        }),
    ensures
        ({
            let mean = ncp / lit(TWO);
            let (xx, yy) = portions(dfn, dfd, f);
            exists|lo: int, hi: int| #[trigger]
                near_mixture(
                    mean,
                    lower_beta(m, dfn / lit(TWO), dfd / lit(TWO), xx, yy),
                    centre(mean),
                    centre_weight(m, mean),
                    d,
                    cdf_at(m, dfn, dfd, ncp, f),
                    lo,
                    hi,
                )
        }),
{
    let mean = ncp / lit(TWO);
    let (xx, yy) = portions(dfn, dfd, f);
    let c = centre(mean);
    let wt = centre_weight(m, mean);
    let u = updated_beta(m, dfn, dfd, xx, yy, c);
    let v = lower_beta(m, dfn / lit(TWO), dfd / lit(TWO), xx, yy);
    law_noncentral_f_below_is_a_mixture(m, dfn, dfd, ncp, f, top);
    let r = cdf_at(m, dfn, dfd, ncp, f);
    let (lo, hi) = choose|lo: int, hi: int| #[trigger]
        mixes_from(mean, u, c, wt, lit(LEFT_OFF), top, top, r, lo, hi);
    let l = val(mean);
    let w = val(wt);
    assert forall|j: int| lo <= j <= hi implies abs(#[trigger] values(u)(j) - values(v)(j)) <= d by {
        assert(values(u)(j) == val(u(j)) && values(v)(j) == val(v(j)));
    }
    law_mixture_of_near_values(l, c, w, values(u), values(v), lo, hi, d);
    let one = |j: int| 1real;
    let t = poisson_mixture(l, c, w, values(u), lo, hi);
    let t2 = poisson_mixture(l, c, w, values(v), lo, hi);
    let s = poisson_mixture(l, c, w, one, lo, hi);
    let n = (hi - lo + 1) as real;
    let k = (8real * n + 16real) * ulp();
    lemma_mul_nonneg(8real * n + 16real, ulp());
    lemma_mul_le(t + n * speck(), t2 + d * s + n * speck(), k);
    assert(near_mixture(mean, v, c, wt, d, r, lo, hi));
}

} // verus!
