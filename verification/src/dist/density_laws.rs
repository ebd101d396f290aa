//! What the densities and the probabilities of counts are.
use crate::consts::{HALF, ONE, TWO, ZERO};
use crate::dist::{
    beta, binomial, chi_squared, fisher_snedecor, gamma, negative_binomial, normal, poisson, students_t,
};
use crate::float::bounds::lemma_literal;
use crate::float::laws::law_negation;
use crate::float::model::lemma_mag_zero;
use crate::float::number::{lemma_equals_units, lemma_le_units, lemma_lt_units, lemma_order};
use crate::float::value::{
    abs, approx, divides, least, lemma_approx_difference, lemma_approx_negated, lemma_approx_product,
    lemma_approx_quotient, lemma_approx_self, lemma_approx_sum, lemma_approx_wider, lemma_bounded_product,
    lemma_bounded_quotient, lemma_bounded_sum, lemma_finite_difference,
    lemma_finite_product, lemma_finite_quotient, lemma_finite_sum, lemma_power_adds, lemma_scale, ordinary, power,
    scale_of_units, val,
};
use crate::float::{lit, F64};
use crate::functions::{ln, Elementary};
use crate::special::beta::beta_log;
use crate::special::gamma::gamma_log;
use crate::special::normal_laws::{lemma_small_powers, MINUS_HALF};
use vstd::arithmetic::power2::{lemma_pow2_adds, lemma_pow2_pos, pow2};
use vstd::prelude::*;

verus! {

/// The number nearest to two pi.
pub const TWO_PI: u64 = 0x4019_21FB_5444_2D18;

/// Some small numbers.
proof fn lemma_small_values()
    ensures
        val(lit(ZERO)) == 0real,
        val(lit(ONE)) == 1real,
        val(lit(TWO)) == 2real,
        val(lit(HALF)) == (1real / 2real),
        val(lit(MINUS_HALF)) == -(1real / 2real),
        lit(ONE).is_finite() && lit(TWO).is_finite() && lit(HALF).is_finite() && lit(MINUS_HALF).is_finite(),
        lit(TWO).enc() != 0,
        divides(lit(TWO)),
        power(0) == 1real,
        power(1) == 2real,
        0real < least() < (1real / 100real),
{
    lemma_small_powers();
    lemma_scale();
    lemma_mag_zero(0);
    let d = scale_of_units();
    lemma_literal(ONE, 1022, 0x10_0000_0000_0000, 52, 1, 1, 0);
    lemma_literal(TWO, 1023, 0x10_0000_0000_0000, 51, 2, 2, 0);
    lemma_literal(HALF, 1021, 0x10_0000_0000_0000, 52, 1, 1, 1);
    lemma_pow2_adds(1, 1073);
    let h = pow2(1073) as int;
    assert(lit(TWO).units() == 2 * pow2(1074));
    assert((2 * pow2(1074)) as real == 2real * d);
    assert((2 * h) as real == 2real * (h as real));
    assert(lit(HALF).units() == h);
    law_negation(lit(HALF));
    assert(lit(MINUS_HALF) == lit(HALF).negated());
    let x = h as real;
    assert((-h) as real == -x);
    assert(d / d == 1real && (2real * d) / d == 2real && x / d == (1real / 2real) && (-x) / d == -(1real / 2real) && 0real / d
        == 0real) by (nonlinear_arith)
        requires
            d == 2real * x,
            d > 0real,
    ;
    lemma_power_adds(200, 1);
    lemma_pow2_adds(10, 1012);
    lemma_pow2_pos(1012);
    let b = pow2(1012);
    let a = pow2(1022);
    assert(a >= 1024) by (nonlinear_arith)
        requires
            a == 1024 * b,
            b >= 1,
    ;
    let y = a as real;
    assert(1real / y < (1real / 100real)) by (nonlinear_arith)
        requires
            y >= 1024real,
    ;
}

proof fn lemma_positive(x: F64)
    requires
        x.gt(lit(ZERO)),
    ensures
        x.enc() != 0,
{
    broadcast use lemma_lt_units;
    lemma_mag_zero(0);
    lemma_order(x.enc() as int, 0);
}

proof fn lemma_not_zero(x: F64)
    requires
        x.gt(lit(ZERO)),
    ensures
        !x.equals(lit(ZERO)),
{
    broadcast use lemma_lt_units;
    broadcast use lemma_equals_units;
}

proof fn lemma_not_the_ends(x: F64)
    requires
        x.gt(lit(ZERO)) && x.lt(lit(ONE)),
    ensures
        !x.equals(lit(ZERO)) && !x.equals(lit(ONE)),
{
    broadcast use lemma_lt_units;
    broadcast use lemma_equals_units;
}

/// Twice the number nearest to pi is the one nearest to two pi.
proof fn lemma_two_pi()
    ensures
        lit(TWO) * lit(normal::PI) == lit(TWO_PI),
{
    lemma_small_powers();
    lemma_mag_zero(0);
    let d = pow2(1074) as int;
    lemma_pow2_pos(1074);
    lemma_literal(TWO, 1023, 0x10_0000_0000_0000, 51, 2, 2, 0);
    crate::float::model::lemma_mag_cell(1023, 0x19_21FB_5444_2D18);
    crate::float::model::lemma_mag_cell(1024, 0x19_21FB_5444_2D18);
    lemma_pow2_adds(1, 1023);
    let p = lit(normal::PI);
    let q = lit(TWO_PI);
    assert(q.units() == 2 * p.units()) by (nonlinear_arith)
        requires
            q.units() == 0x19_21FB_5444_2D18 * pow2(1024),
            p.units() == 0x19_21FB_5444_2D18 * pow2(1023),
            pow2(1024) == 2 * pow2(1023),
    ;
    lemma_pow2_pos(1023);
    assert(p.units() >= 0) by (nonlinear_arith)
        requires
            p.units() == 0x19_21FB_5444_2D18 * pow2(1023),
            pow2(1023) > 0,
    ;
    crate::float::bounds::lemma_product(lit(TWO), p);
    assert((2 * d) * p.units() == q.units() * d) by (nonlinear_arith)
        requires
            q.units() == 2 * p.units(),
    ;
    crate::float::model::lemma_round_exact(TWO_PI, d);
    let r = lit(TWO) * p;
    assert(r.enc() == TWO_PI);
    crate::float::laws::law_product_is_nearest(lit(TWO), p);
}

/// A count of at most 2^53 is held exactly.
pub proof fn law_count_value(s: u64)
    requires
        s <= 0x20_0000_0000_0000,
    ensures
        val(F64::from_u64(s)) == s as real,
        F64::from_u64(s).is_finite(),
{
    reveal(F64::from_u64_spec);
    lemma_scale();
    lemma_pow2_pos(1074);
    let d = pow2(1074) as int;
    let n = s as int;
    if n < 0x20_0000_0000_0000 {
        crate::float::bounds::lemma_part(n, 0);
    } else {
        lemma_small_powers();
        lemma_pow2_adds(53, 1074);
        vstd::arithmetic::power2::lemma2_to64_rest();
        crate::float::signed::lemma_representable(1, 1127);
        crate::float::bounds::lemma_part(0x10_0000_0000_0000, 0);
        assert(1 * pow2(1127) == n * d);
    }
    assert(n * d >= 0) by (nonlinear_arith)
        requires
            n >= 0,
            d > 0,
    ;
    assert((n * d) * 1 == n * d);
    crate::float::bounds::lemma_ratio_le(n * d, 1, n * d);
    crate::float::bounds::lemma_ratio_ge(n * d, 1, n * d);
    crate::dist::indeterminate_laws::lemma_count(s);
    let x = F64::from_u64(s);
    assert(x.units() == n * d);
    crate::float::value::lemma_cast_product(n, d);
    let y = n as real;
    let z = d as real;
    assert((y * z) / z == y) by (nonlinear_arith)
        requires
            z > 0real,
    ;
}

proof fn lemma_term(p: real, t: real, q: real)
    requires
        p <= q,
        t >= 0real,
    ensures
        p * t <= q * t,
{
    assert(p * t <= q * t) by (nonlinear_arith)
        requires
            p <= q,
            t >= 0real,
    ;
}

proof fn lemma_half_square(z: real, w0: real, w: real)
    requires
        abs(z) <= w0,
        w == w0 - least() + 1real,
        0real < least() < (1real / 100real),
    ensures
        (-(1real / 2real)) * z * z == -(z * z) / 2real,
        ((1real / 2real) * w0 + least()) * w0 + least() <= w * w,
{
    assert((-(1real / 2real)) * z * z == -(z * z) / 2real) by (nonlinear_arith);
    let l = least();
    assert(((1real / 2real) * w0 + l) * w0 + l <= w * w) by (nonlinear_arith)
        requires
            w == w0 - l + 1real,
            0real < l < (1real / 100real),
            w0 >= 0real,
    ;
}

/// Half of a number, by magnitudes.
proof fn lemma_halved(x: real)
    ensures
        abs(x) / abs(val(lit(TWO))) == abs(x / 2real),
        x / val(lit(TWO)) == x / 2real,
{
    lemma_small_values();
    let t = val(lit(TWO));
    let y = x / 2real;
    assert(y * 2real == x) by (nonlinear_arith)
        requires
            y == x / 2real,
    ;
    assert(abs(x) / 2real == abs(y)) by (nonlinear_arith)
        requires
            y * 2real == x,
    ;
}

/// The logarithm of the normal density is minus half the square of the distance from the
/// mean in standard deviations, less the logarithm of the standard deviation and half of
/// that of two pi, within rounding.
pub proof fn law_normal_log_density<M: Fn(Elementary) -> F64>(m: &M, mean: F64, sd: F64, x: F64)
    requires
        mean.is_finite() && x.is_finite(),
        sd.is_finite() && sd.gt(lit(ZERO)),
        normal::ln_density(m, mean, sd, x).is_finite() || (ordinary(x) && ordinary(mean) && ordinary(sd) && ordinary(ln(m, sd)) && ordinary(ln(m, lit(TWO_PI))) && divides(sd)),
    ensures
        ({
            let z = (val(x) - val(mean)) / val(sd);
            let w = (abs(val(x)) + abs(val(mean))) / abs(val(sd)) + 1real;
            let a = val(ln(m, sd));
            let b = val(ln(m, lit(TWO_PI)));
            approx(
                normal::ln_density(m, mean, sd, x),
                -(z * z) / 2real - a - b / 2real,
                w * w + abs(a) + abs(b) + 1real,
                40real,
            )
        }),
{
    lemma_small_values();
    lemma_two_pi(); lemma_positive(sd);
    if !normal::ln_density(m, mean, sd, x).is_finite() {
        lemma_approx_self(x);
        lemma_approx_self(mean);
        lemma_approx_self(sd);
        lemma_approx_self(ln(m, sd));
        lemma_approx_self(ln(m, lit(TWO_PI)));
        lemma_approx_self(lit(MINUS_HALF));
        lemma_approx_self(lit(HALF));
        lemma_bounded_sum(x, val(x), abs(val(x)), 0real, 200, mean, val(mean), abs(val(mean)), 0real, 200);
        lemma_approx_difference(x, val(x), abs(val(x)), 0real, mean, val(mean), abs(val(mean)), 0real);
        lemma_bounded_quotient((x - mean), (val(x) - val(mean)), (abs(val(x)) + abs(val(mean))), 2real, 201, sd);
        lemma_approx_quotient((x - mean), (val(x) - val(mean)), (abs(val(x)) + abs(val(mean))), 2real, sd);
        lemma_bounded_product(lit(MINUS_HALF), (-(1real / 2real)), (1real / 2real), 0real, 0, ((x - mean) / sd), ((val(x) - val(mean)) / val(sd)), ((abs(val(x)) + abs(val(mean))) / abs(val(sd)) + least()), 4real, 402);
        lemma_approx_product(lit(MINUS_HALF), (-(1real / 2real)), (1real / 2real), 0real, ((x - mean) / sd), ((val(x) - val(mean)) / val(sd)), ((abs(val(x)) + abs(val(mean))) / abs(val(sd)) + least()), 4real);
        lemma_bounded_product((lit(MINUS_HALF) * ((x - mean) / sd)), ((-(1real / 2real)) * ((val(x) - val(mean)) / val(sd))), ((1real / 2real) * ((abs(val(x)) + abs(val(mean))) / abs(val(sd)) + least()) + least()), 12real, 403, ((x - mean) / sd), ((val(x) - val(mean)) / val(sd)), ((abs(val(x)) + abs(val(mean))) / abs(val(sd)) + least()), 4real, 402);
        lemma_approx_product((lit(MINUS_HALF) * ((x - mean) / sd)), ((-(1real / 2real)) * ((val(x) - val(mean)) / val(sd))), ((1real / 2real) * ((abs(val(x)) + abs(val(mean))) / abs(val(sd)) + least()) + least()), 12real, ((x - mean) / sd), ((val(x) - val(mean)) / val(sd)), ((abs(val(x)) + abs(val(mean))) / abs(val(sd)) + least()), 4real);
        lemma_bounded_sum(((lit(MINUS_HALF) * ((x - mean) / sd)) * ((x - mean) / sd)), (((-(1real / 2real)) * ((val(x) - val(mean)) / val(sd))) * ((val(x) - val(mean)) / val(sd))), (((1real / 2real) * ((abs(val(x)) + abs(val(mean))) / abs(val(sd)) + least()) + least()) * ((abs(val(x)) + abs(val(mean))) / abs(val(sd)) + least()) + least()), 24real, 806, ln(m, sd), val(ln(m, sd)), abs(val(ln(m, sd))), 0real, 200);
        lemma_approx_difference(((lit(MINUS_HALF) * ((x - mean) / sd)) * ((x - mean) / sd)), (((-(1real / 2real)) * ((val(x) - val(mean)) / val(sd))) * ((val(x) - val(mean)) / val(sd))), (((1real / 2real) * ((abs(val(x)) + abs(val(mean))) / abs(val(sd)) + least()) + least()) * ((abs(val(x)) + abs(val(mean))) / abs(val(sd)) + least()) + least()), 24real, ln(m, sd), val(ln(m, sd)), abs(val(ln(m, sd))), 0real);
        lemma_bounded_product(lit(HALF), (1real / 2real), (1real / 2real), 0real, 0, ln(m, lit(TWO_PI)), val(ln(m, lit(TWO_PI))), abs(val(ln(m, lit(TWO_PI)))), 0real, 200);
        lemma_approx_product(lit(HALF), (1real / 2real), (1real / 2real), 0real, ln(m, lit(TWO_PI)), val(ln(m, lit(TWO_PI))), abs(val(ln(m, lit(TWO_PI)))), 0real);
        lemma_bounded_sum((((lit(MINUS_HALF) * ((x - mean) / sd)) * ((x - mean) / sd)) - ln(m, sd)), ((((-(1real / 2real)) * ((val(x) - val(mean)) / val(sd))) * ((val(x) - val(mean)) / val(sd))) - val(ln(m, sd))), ((((1real / 2real) * ((abs(val(x)) + abs(val(mean))) / abs(val(sd)) + least()) + least()) * ((abs(val(x)) + abs(val(mean))) / abs(val(sd)) + least()) + least()) + abs(val(ln(m, sd)))), 26real, 807, (lit(HALF) * ln(m, lit(TWO_PI))), ((1real / 2real) * val(ln(m, lit(TWO_PI)))), ((1real / 2real) * abs(val(ln(m, lit(TWO_PI)))) + least()), 4real, 201);
        lemma_approx_difference((((lit(MINUS_HALF) * ((x - mean) / sd)) * ((x - mean) / sd)) - ln(m, sd)), ((((-(1real / 2real)) * ((val(x) - val(mean)) / val(sd))) * ((val(x) - val(mean)) / val(sd))) - val(ln(m, sd))), ((((1real / 2real) * ((abs(val(x)) + abs(val(mean))) / abs(val(sd)) + least()) + least()) * ((abs(val(x)) + abs(val(mean))) / abs(val(sd)) + least()) + least()) + abs(val(ln(m, sd)))), 26real, (lit(HALF) * ln(m, lit(TWO_PI))), ((1real / 2real) * val(ln(m, lit(TWO_PI)))), ((1real / 2real) * abs(val(ln(m, lit(TWO_PI)))) + least()), 4real);
    }
    assert(normal::ln_density(m, mean, sd, x).is_finite());
    lemma_finite_difference((((lit(MINUS_HALF) * ((x - mean) / sd)) * ((x - mean) / sd)) - ln(m, sd)), (lit(HALF) * ln(m, lit(TWO_PI))));
    lemma_finite_difference(((lit(MINUS_HALF) * ((x - mean) / sd)) * ((x - mean) / sd)), ln(m, sd));
    lemma_finite_product((lit(MINUS_HALF) * ((x - mean) / sd)), ((x - mean) / sd));
    lemma_finite_product(lit(MINUS_HALF), ((x - mean) / sd));
    lemma_finite_quotient((x - mean), sd);
    lemma_finite_difference(x, mean);
    lemma_finite_product(lit(HALF), ln(m, lit(TWO_PI)));
    lemma_approx_self(x);
    lemma_approx_self(mean);
    lemma_approx_self(sd);
    lemma_approx_self(ln(m, sd));
    lemma_approx_self(ln(m, lit(TWO_PI)));
    lemma_approx_self(lit(MINUS_HALF));
    lemma_approx_self(lit(HALF));
    lemma_approx_difference(x, val(x), abs(val(x)), 0real, mean, val(mean), abs(val(mean)), 0real);
    lemma_approx_quotient((x - mean), (val(x) - val(mean)), (abs(val(x)) + abs(val(mean))), 2real, sd);
    lemma_approx_product(lit(MINUS_HALF), (-(1real / 2real)), (1real / 2real), 0real, ((x - mean) / sd), ((val(x) - val(mean)) / val(sd)), ((abs(val(x)) + abs(val(mean))) / abs(val(sd)) + least()), 4real);
    lemma_approx_product((lit(MINUS_HALF) * ((x - mean) / sd)), ((-(1real / 2real)) * ((val(x) - val(mean)) / val(sd))), ((1real / 2real) * ((abs(val(x)) + abs(val(mean))) / abs(val(sd)) + least()) + least()), 12real, ((x - mean) / sd), ((val(x) - val(mean)) / val(sd)), ((abs(val(x)) + abs(val(mean))) / abs(val(sd)) + least()), 4real);
    lemma_approx_difference(((lit(MINUS_HALF) * ((x - mean) / sd)) * ((x - mean) / sd)), (((-(1real / 2real)) * ((val(x) - val(mean)) / val(sd))) * ((val(x) - val(mean)) / val(sd))), (((1real / 2real) * ((abs(val(x)) + abs(val(mean))) / abs(val(sd)) + least()) + least()) * ((abs(val(x)) + abs(val(mean))) / abs(val(sd)) + least()) + least()), 24real, ln(m, sd), val(ln(m, sd)), abs(val(ln(m, sd))), 0real);
    lemma_approx_product(lit(HALF), (1real / 2real), (1real / 2real), 0real, ln(m, lit(TWO_PI)), val(ln(m, lit(TWO_PI))), abs(val(ln(m, lit(TWO_PI)))), 0real);
    lemma_approx_difference((((lit(MINUS_HALF) * ((x - mean) / sd)) * ((x - mean) / sd)) - ln(m, sd)), ((((-(1real / 2real)) * ((val(x) - val(mean)) / val(sd))) * ((val(x) - val(mean)) / val(sd))) - val(ln(m, sd))), ((((1real / 2real) * ((abs(val(x)) + abs(val(mean))) / abs(val(sd)) + least()) + least()) * ((abs(val(x)) + abs(val(mean))) / abs(val(sd)) + least()) + least()) + abs(val(ln(m, sd)))), 26real, (lit(HALF) * ln(m, lit(TWO_PI))), ((1real / 2real) * val(ln(m, lit(TWO_PI)))), ((1real / 2real) * abs(val(ln(m, lit(TWO_PI)))) + least()), 4real);
    let z = (val(x) - val(mean)) / val(sd);
    let w = (abs(val(x)) + abs(val(mean))) / abs(val(sd)) + 1real;
    let a = val(ln(m, sd));
    let b = val(ln(m, lit(TWO_PI)));
    lemma_half_square(z, (abs(val(x)) + abs(val(mean))) / abs(val(sd)) + least(), w);
    assert((1real / 2real) * b == b / 2real) by (nonlinear_arith);
    lemma_approx_wider(normal::ln_density(m, mean, sd, x), -(z * z) / 2real - a - b / 2real, (((((1real / 2real) * ((abs(val(x)) + abs(val(mean))) / abs(val(sd)) + least()) + least()) * ((abs(val(x)) + abs(val(mean))) / abs(val(sd)) + least()) + least()) + abs(val(ln(m, sd)))) + ((1real / 2real) * abs(val(ln(m, lit(TWO_PI)))) + least())), 28real, w * w + abs(a) + abs(b) + 1real, 40real);
}

/// Inside the support the gamma density is the rate to the power of the shape, times the
/// argument to the power of the shape less one, times the exponential of minus the rate
/// times the argument, over the gamma function of the shape: in logarithms, within
/// rounding.
pub proof fn law_gamma_log_density<M: Fn(Elementary) -> F64>(m: &M, shape: F64, rate: F64, x: F64)
    requires
        shape.is_finite() && rate.is_finite(),
        x.is_finite() && x.gt(lit(ZERO)),
        gamma::ln_density(m, shape, rate, x).is_finite() || (ordinary(shape) && ordinary(rate) && ordinary(x) && ordinary(ln(m, rate)) && ordinary(ln(m, x)) && ordinary(gamma_log(m, shape))),
    ensures
        ({
            let a = val(shape);
            let r = val(ln(m, rate));
            let t = val(ln(m, x));
            let g = val(gamma_log(m, shape));
            let y = val(rate) * val(x);
            approx(
                gamma::ln_density(m, shape, rate, x),
                a * r - g + (a - 1real) * t - y,
                abs(a) * abs(r) + abs(g) + (abs(a) + 1real) * abs(t) + abs(val(rate)) * abs(val(x)) + 1real,
                40real,
            )
        }),
{
    lemma_small_values();
    if !gamma::ln_density(m, shape, rate, x).is_finite() {
        lemma_approx_self(shape);
        lemma_approx_self(rate);
        lemma_approx_self(x);
        lemma_approx_self(ln(m, rate));
        lemma_approx_self(ln(m, x));
        lemma_approx_self(gamma_log(m, shape));
        lemma_approx_self(lit(ONE));
        lemma_bounded_product(shape, val(shape), abs(val(shape)), 0real, 200, ln(m, rate), val(ln(m, rate)), abs(val(ln(m, rate))), 0real, 200);
        lemma_approx_product(shape, val(shape), abs(val(shape)), 0real, ln(m, rate), val(ln(m, rate)), abs(val(ln(m, rate))), 0real);
        lemma_bounded_sum((shape * ln(m, rate)), (val(shape) * val(ln(m, rate))), (abs(val(shape)) * abs(val(ln(m, rate))) + least()), 4real, 401, gamma_log(m, shape), val(gamma_log(m, shape)), abs(val(gamma_log(m, shape))), 0real, 200);
        lemma_approx_difference((shape * ln(m, rate)), (val(shape) * val(ln(m, rate))), (abs(val(shape)) * abs(val(ln(m, rate))) + least()), 4real, gamma_log(m, shape), val(gamma_log(m, shape)), abs(val(gamma_log(m, shape))), 0real);
        lemma_bounded_sum(shape, val(shape), abs(val(shape)), 0real, 200, lit(ONE), 1real, 1real, 0real, 0);
        lemma_approx_difference(shape, val(shape), abs(val(shape)), 0real, lit(ONE), 1real, 1real, 0real);
        lemma_bounded_product((shape - lit(ONE)), (val(shape) - 1real), (abs(val(shape)) + 1real), 2real, 201, ln(m, x), val(ln(m, x)), abs(val(ln(m, x))), 0real, 200);
        lemma_approx_product((shape - lit(ONE)), (val(shape) - 1real), (abs(val(shape)) + 1real), 2real, ln(m, x), val(ln(m, x)), abs(val(ln(m, x))), 0real);
        lemma_bounded_sum(((shape * ln(m, rate)) - gamma_log(m, shape)), ((val(shape) * val(ln(m, rate))) - val(gamma_log(m, shape))), ((abs(val(shape)) * abs(val(ln(m, rate))) + least()) + abs(val(gamma_log(m, shape)))), 6real, 402, ((shape - lit(ONE)) * ln(m, x)), ((val(shape) - 1real) * val(ln(m, x))), ((abs(val(shape)) + 1real) * abs(val(ln(m, x))) + least()), 6real, 402);
        lemma_approx_sum(((shape * ln(m, rate)) - gamma_log(m, shape)), ((val(shape) * val(ln(m, rate))) - val(gamma_log(m, shape))), ((abs(val(shape)) * abs(val(ln(m, rate))) + least()) + abs(val(gamma_log(m, shape)))), 6real, ((shape - lit(ONE)) * ln(m, x)), ((val(shape) - 1real) * val(ln(m, x))), ((abs(val(shape)) + 1real) * abs(val(ln(m, x))) + least()), 6real);
        lemma_bounded_product(rate, val(rate), abs(val(rate)), 0real, 200, x, val(x), abs(val(x)), 0real, 200);
        lemma_approx_product(rate, val(rate), abs(val(rate)), 0real, x, val(x), abs(val(x)), 0real);
        lemma_bounded_sum((((shape * ln(m, rate)) - gamma_log(m, shape)) + ((shape - lit(ONE)) * ln(m, x))), (((val(shape) * val(ln(m, rate))) - val(gamma_log(m, shape))) + ((val(shape) - 1real) * val(ln(m, x)))), (((abs(val(shape)) * abs(val(ln(m, rate))) + least()) + abs(val(gamma_log(m, shape)))) + ((abs(val(shape)) + 1real) * abs(val(ln(m, x))) + least())), 8real, 403, (rate * x), (val(rate) * val(x)), (abs(val(rate)) * abs(val(x)) + least()), 4real, 401);
        lemma_approx_difference((((shape * ln(m, rate)) - gamma_log(m, shape)) + ((shape - lit(ONE)) * ln(m, x))), (((val(shape) * val(ln(m, rate))) - val(gamma_log(m, shape))) + ((val(shape) - 1real) * val(ln(m, x)))), (((abs(val(shape)) * abs(val(ln(m, rate))) + least()) + abs(val(gamma_log(m, shape)))) + ((abs(val(shape)) + 1real) * abs(val(ln(m, x))) + least())), 8real, (rate * x), (val(rate) * val(x)), (abs(val(rate)) * abs(val(x)) + least()), 4real);
    }
    assert(gamma::ln_density(m, shape, rate, x).is_finite());
    lemma_finite_difference((((shape * ln(m, rate)) - gamma_log(m, shape)) + ((shape - lit(ONE)) * ln(m, x))), (rate * x));
    lemma_finite_sum(((shape * ln(m, rate)) - gamma_log(m, shape)), ((shape - lit(ONE)) * ln(m, x)));
    lemma_finite_difference((shape * ln(m, rate)), gamma_log(m, shape));
    lemma_finite_product(shape, ln(m, rate));
    lemma_finite_product((shape - lit(ONE)), ln(m, x));
    lemma_finite_difference(shape, lit(ONE));
    lemma_finite_product(rate, x);
    lemma_approx_self(shape);
    lemma_approx_self(rate);
    lemma_approx_self(x);
    lemma_approx_self(ln(m, rate));
    lemma_approx_self(ln(m, x));
    lemma_approx_self(gamma_log(m, shape));
    lemma_approx_self(lit(ONE));
    lemma_approx_product(shape, val(shape), abs(val(shape)), 0real, ln(m, rate), val(ln(m, rate)), abs(val(ln(m, rate))), 0real);
    lemma_approx_difference((shape * ln(m, rate)), (val(shape) * val(ln(m, rate))), (abs(val(shape)) * abs(val(ln(m, rate))) + least()), 4real, gamma_log(m, shape), val(gamma_log(m, shape)), abs(val(gamma_log(m, shape))), 0real);
    lemma_approx_difference(shape, val(shape), abs(val(shape)), 0real, lit(ONE), 1real, 1real, 0real);
    lemma_approx_product((shape - lit(ONE)), (val(shape) - 1real), (abs(val(shape)) + 1real), 2real, ln(m, x), val(ln(m, x)), abs(val(ln(m, x))), 0real);
    lemma_approx_sum(((shape * ln(m, rate)) - gamma_log(m, shape)), ((val(shape) * val(ln(m, rate))) - val(gamma_log(m, shape))), ((abs(val(shape)) * abs(val(ln(m, rate))) + least()) + abs(val(gamma_log(m, shape)))), 6real, ((shape - lit(ONE)) * ln(m, x)), ((val(shape) - 1real) * val(ln(m, x))), ((abs(val(shape)) + 1real) * abs(val(ln(m, x))) + least()), 6real);
    lemma_approx_product(rate, val(rate), abs(val(rate)), 0real, x, val(x), abs(val(x)), 0real);
    lemma_approx_difference((((shape * ln(m, rate)) - gamma_log(m, shape)) + ((shape - lit(ONE)) * ln(m, x))), (((val(shape) * val(ln(m, rate))) - val(gamma_log(m, shape))) + ((val(shape) - 1real) * val(ln(m, x)))), (((abs(val(shape)) * abs(val(ln(m, rate))) + least()) + abs(val(gamma_log(m, shape)))) + ((abs(val(shape)) + 1real) * abs(val(ln(m, x))) + least())), 8real, (rate * x), (val(rate) * val(x)), (abs(val(rate)) * abs(val(x)) + least()), 4real);
    let a = val(shape);
    let r = val(ln(m, rate));
    let t = val(ln(m, x));
    let g = val(gamma_log(m, shape));
    let y = val(rate) * val(x);
    lemma_approx_wider(gamma::ln_density(m, shape, rate, x), a * r - g + (a - 1real) * t - y, ((((abs(val(shape)) * abs(val(ln(m, rate))) + least()) + abs(val(gamma_log(m, shape)))) + ((abs(val(shape)) + 1real) * abs(val(ln(m, x))) + least())) + (abs(val(rate)) * abs(val(x)) + least())), 10real, abs(a) * abs(r) + abs(g) + (abs(a) + 1real) * abs(t) + abs(val(rate)) * abs(val(x)) + 1real, 40real);
}

/// Inside the support the chi-squared density is that of a gamma distribution with half the
/// degrees of freedom as its shape and the rate one half: in logarithms, within rounding.
pub proof fn law_chi_squared_log_density<M: Fn(Elementary) -> F64>(m: &M, df: F64, x: F64)
    requires
        df.is_finite(),
        x.is_finite() && x.gt(lit(ZERO)),
        chi_squared::ln_density(m, df, x).is_finite() || (ordinary(df) && ordinary(x) && ordinary(ln(m, lit(TWO))) && ordinary(ln(m, x)) && ordinary(gamma_log(m, df / lit(TWO)))),
    ensures
        ({
            let k = val(df) / 2real;
            let c = val(ln(m, lit(TWO)));
            let t = val(ln(m, x));
            let g = val(gamma_log(m, df / lit(TWO)));
            approx(
                chi_squared::ln_density(m, df, x),
                -(k * c + g) + (k - 1real) * t - val(x) / 2real,
                (abs(k) + 1real) * abs(c) + abs(g) + (abs(k) + 2real) * abs(t) + abs(val(x)) + 1real,
                40real,
            )
        }),
{
    lemma_small_values();
    if !chi_squared::ln_density(m, df, x).is_finite() {
        lemma_approx_self(df);
        lemma_approx_self(x);
        lemma_approx_self(ln(m, lit(TWO)));
        lemma_approx_self(ln(m, x));
        lemma_approx_self(gamma_log(m, df / lit(TWO)));
        lemma_approx_self(lit(ONE));
        lemma_approx_self(lit(TWO));
        lemma_bounded_quotient(df, val(df), abs(val(df)), 0real, 200, lit(TWO));
        lemma_approx_quotient(df, val(df), abs(val(df)), 0real, lit(TWO));
        lemma_bounded_product((df / lit(TWO)), (val(df) / val(lit(TWO))), (abs(val(df)) / abs(val(lit(TWO))) + least()), 2real, 401, ln(m, lit(TWO)), val(ln(m, lit(TWO))), abs(val(ln(m, lit(TWO)))), 0real, 200);
        lemma_approx_product((df / lit(TWO)), (val(df) / val(lit(TWO))), (abs(val(df)) / abs(val(lit(TWO))) + least()), 2real, ln(m, lit(TWO)), val(ln(m, lit(TWO))), abs(val(ln(m, lit(TWO)))), 0real);
        lemma_bounded_sum(((df / lit(TWO)) * ln(m, lit(TWO))), ((val(df) / val(lit(TWO))) * val(ln(m, lit(TWO)))), ((abs(val(df)) / abs(val(lit(TWO))) + least()) * abs(val(ln(m, lit(TWO)))) + least()), 6real, 602, gamma_log(m, df / lit(TWO)), val(gamma_log(m, df / lit(TWO))), abs(val(gamma_log(m, df / lit(TWO)))), 0real, 200);
        lemma_approx_sum(((df / lit(TWO)) * ln(m, lit(TWO))), ((val(df) / val(lit(TWO))) * val(ln(m, lit(TWO)))), ((abs(val(df)) / abs(val(lit(TWO))) + least()) * abs(val(ln(m, lit(TWO)))) + least()), 6real, gamma_log(m, df / lit(TWO)), val(gamma_log(m, df / lit(TWO))), abs(val(gamma_log(m, df / lit(TWO)))), 0real);
        lemma_approx_negated((((df / lit(TWO)) * ln(m, lit(TWO))) + gamma_log(m, df / lit(TWO))), (((val(df) / val(lit(TWO))) * val(ln(m, lit(TWO)))) + val(gamma_log(m, df / lit(TWO)))), (((abs(val(df)) / abs(val(lit(TWO))) + least()) * abs(val(ln(m, lit(TWO)))) + least()) + abs(val(gamma_log(m, df / lit(TWO))))), 8real);
        lemma_bounded_sum((df / lit(TWO)), (val(df) / val(lit(TWO))), (abs(val(df)) / abs(val(lit(TWO))) + least()), 2real, 401, lit(ONE), 1real, 1real, 0real, 0);
        lemma_approx_difference((df / lit(TWO)), (val(df) / val(lit(TWO))), (abs(val(df)) / abs(val(lit(TWO))) + least()), 2real, lit(ONE), 1real, 1real, 0real);
        lemma_bounded_product(((df / lit(TWO)) - lit(ONE)), ((val(df) / val(lit(TWO))) - 1real), ((abs(val(df)) / abs(val(lit(TWO))) + least()) + 1real), 4real, 402, ln(m, x), val(ln(m, x)), abs(val(ln(m, x))), 0real, 200);
        lemma_approx_product(((df / lit(TWO)) - lit(ONE)), ((val(df) / val(lit(TWO))) - 1real), ((abs(val(df)) / abs(val(lit(TWO))) + least()) + 1real), 4real, ln(m, x), val(ln(m, x)), abs(val(ln(m, x))), 0real);
        lemma_bounded_sum((((df / lit(TWO)) * ln(m, lit(TWO))) + gamma_log(m, df / lit(TWO))).negated(), (-(((val(df) / val(lit(TWO))) * val(ln(m, lit(TWO)))) + val(gamma_log(m, df / lit(TWO))))), (((abs(val(df)) / abs(val(lit(TWO))) + least()) * abs(val(ln(m, lit(TWO)))) + least()) + abs(val(gamma_log(m, df / lit(TWO))))), 8real, 603, (((df / lit(TWO)) - lit(ONE)) * ln(m, x)), (((val(df) / val(lit(TWO))) - 1real) * val(ln(m, x))), (((abs(val(df)) / abs(val(lit(TWO))) + least()) + 1real) * abs(val(ln(m, x))) + least()), 8real, 603);
        lemma_approx_sum((((df / lit(TWO)) * ln(m, lit(TWO))) + gamma_log(m, df / lit(TWO))).negated(), (-(((val(df) / val(lit(TWO))) * val(ln(m, lit(TWO)))) + val(gamma_log(m, df / lit(TWO))))), (((abs(val(df)) / abs(val(lit(TWO))) + least()) * abs(val(ln(m, lit(TWO)))) + least()) + abs(val(gamma_log(m, df / lit(TWO))))), 8real, (((df / lit(TWO)) - lit(ONE)) * ln(m, x)), (((val(df) / val(lit(TWO))) - 1real) * val(ln(m, x))), (((abs(val(df)) / abs(val(lit(TWO))) + least()) + 1real) * abs(val(ln(m, x))) + least()), 8real);
        lemma_bounded_quotient(x, val(x), abs(val(x)), 0real, 200, lit(TWO));
        lemma_approx_quotient(x, val(x), abs(val(x)), 0real, lit(TWO));
        lemma_bounded_sum(((((df / lit(TWO)) * ln(m, lit(TWO))) + gamma_log(m, df / lit(TWO))).negated() + (((df / lit(TWO)) - lit(ONE)) * ln(m, x))), ((-(((val(df) / val(lit(TWO))) * val(ln(m, lit(TWO)))) + val(gamma_log(m, df / lit(TWO))))) + (((val(df) / val(lit(TWO))) - 1real) * val(ln(m, x)))), ((((abs(val(df)) / abs(val(lit(TWO))) + least()) * abs(val(ln(m, lit(TWO)))) + least()) + abs(val(gamma_log(m, df / lit(TWO))))) + (((abs(val(df)) / abs(val(lit(TWO))) + least()) + 1real) * abs(val(ln(m, x))) + least())), 10real, 604, (x / lit(TWO)), (val(x) / val(lit(TWO))), (abs(val(x)) / abs(val(lit(TWO))) + least()), 2real, 401);
        lemma_approx_difference(((((df / lit(TWO)) * ln(m, lit(TWO))) + gamma_log(m, df / lit(TWO))).negated() + (((df / lit(TWO)) - lit(ONE)) * ln(m, x))), ((-(((val(df) / val(lit(TWO))) * val(ln(m, lit(TWO)))) + val(gamma_log(m, df / lit(TWO))))) + (((val(df) / val(lit(TWO))) - 1real) * val(ln(m, x)))), ((((abs(val(df)) / abs(val(lit(TWO))) + least()) * abs(val(ln(m, lit(TWO)))) + least()) + abs(val(gamma_log(m, df / lit(TWO))))) + (((abs(val(df)) / abs(val(lit(TWO))) + least()) + 1real) * abs(val(ln(m, x))) + least())), 10real, (x / lit(TWO)), (val(x) / val(lit(TWO))), (abs(val(x)) / abs(val(lit(TWO))) + least()), 2real);
    }
    assert(chi_squared::ln_density(m, df, x).is_finite());
    lemma_finite_difference(((((df / lit(TWO)) * ln(m, lit(TWO))) + gamma_log(m, df / lit(TWO))).negated() + (((df / lit(TWO)) - lit(ONE)) * ln(m, x))), (x / lit(TWO)));
    lemma_finite_sum((((df / lit(TWO)) * ln(m, lit(TWO))) + gamma_log(m, df / lit(TWO))).negated(), (((df / lit(TWO)) - lit(ONE)) * ln(m, x)));
    law_negation((((df / lit(TWO)) * ln(m, lit(TWO))) + gamma_log(m, df / lit(TWO))));
    lemma_finite_sum(((df / lit(TWO)) * ln(m, lit(TWO))), gamma_log(m, df / lit(TWO)));
    lemma_finite_product((df / lit(TWO)), ln(m, lit(TWO)));
    lemma_finite_quotient(df, lit(TWO));
    lemma_finite_product(((df / lit(TWO)) - lit(ONE)), ln(m, x));
    lemma_finite_difference((df / lit(TWO)), lit(ONE));
    lemma_finite_quotient(x, lit(TWO));
    lemma_approx_self(df);
    lemma_approx_self(x);
    lemma_approx_self(ln(m, lit(TWO)));
    lemma_approx_self(ln(m, x));
    lemma_approx_self(gamma_log(m, df / lit(TWO)));
    lemma_approx_self(lit(ONE));
    lemma_approx_self(lit(TWO));
    lemma_approx_quotient(df, val(df), abs(val(df)), 0real, lit(TWO));
    lemma_approx_product((df / lit(TWO)), (val(df) / val(lit(TWO))), (abs(val(df)) / abs(val(lit(TWO))) + least()), 2real, ln(m, lit(TWO)), val(ln(m, lit(TWO))), abs(val(ln(m, lit(TWO)))), 0real);
    lemma_approx_sum(((df / lit(TWO)) * ln(m, lit(TWO))), ((val(df) / val(lit(TWO))) * val(ln(m, lit(TWO)))), ((abs(val(df)) / abs(val(lit(TWO))) + least()) * abs(val(ln(m, lit(TWO)))) + least()), 6real, gamma_log(m, df / lit(TWO)), val(gamma_log(m, df / lit(TWO))), abs(val(gamma_log(m, df / lit(TWO)))), 0real);
    lemma_approx_negated((((df / lit(TWO)) * ln(m, lit(TWO))) + gamma_log(m, df / lit(TWO))), (((val(df) / val(lit(TWO))) * val(ln(m, lit(TWO)))) + val(gamma_log(m, df / lit(TWO)))), (((abs(val(df)) / abs(val(lit(TWO))) + least()) * abs(val(ln(m, lit(TWO)))) + least()) + abs(val(gamma_log(m, df / lit(TWO))))), 8real);
    lemma_approx_difference((df / lit(TWO)), (val(df) / val(lit(TWO))), (abs(val(df)) / abs(val(lit(TWO))) + least()), 2real, lit(ONE), 1real, 1real, 0real);
    lemma_approx_product(((df / lit(TWO)) - lit(ONE)), ((val(df) / val(lit(TWO))) - 1real), ((abs(val(df)) / abs(val(lit(TWO))) + least()) + 1real), 4real, ln(m, x), val(ln(m, x)), abs(val(ln(m, x))), 0real);
    lemma_approx_sum((((df / lit(TWO)) * ln(m, lit(TWO))) + gamma_log(m, df / lit(TWO))).negated(), (-(((val(df) / val(lit(TWO))) * val(ln(m, lit(TWO)))) + val(gamma_log(m, df / lit(TWO))))), (((abs(val(df)) / abs(val(lit(TWO))) + least()) * abs(val(ln(m, lit(TWO)))) + least()) + abs(val(gamma_log(m, df / lit(TWO))))), 8real, (((df / lit(TWO)) - lit(ONE)) * ln(m, x)), (((val(df) / val(lit(TWO))) - 1real) * val(ln(m, x))), (((abs(val(df)) / abs(val(lit(TWO))) + least()) + 1real) * abs(val(ln(m, x))) + least()), 8real);
    lemma_approx_quotient(x, val(x), abs(val(x)), 0real, lit(TWO));
    lemma_approx_difference(((((df / lit(TWO)) * ln(m, lit(TWO))) + gamma_log(m, df / lit(TWO))).negated() + (((df / lit(TWO)) - lit(ONE)) * ln(m, x))), ((-(((val(df) / val(lit(TWO))) * val(ln(m, lit(TWO)))) + val(gamma_log(m, df / lit(TWO))))) + (((val(df) / val(lit(TWO))) - 1real) * val(ln(m, x)))), ((((abs(val(df)) / abs(val(lit(TWO))) + least()) * abs(val(ln(m, lit(TWO)))) + least()) + abs(val(gamma_log(m, df / lit(TWO))))) + (((abs(val(df)) / abs(val(lit(TWO))) + least()) + 1real) * abs(val(ln(m, x))) + least())), 10real, (x / lit(TWO)), (val(x) / val(lit(TWO))), (abs(val(x)) / abs(val(lit(TWO))) + least()), 2real);
    let k = val(df) / 2real;
    let c = val(ln(m, lit(TWO)));
    let t = val(ln(m, x));
    let g = val(gamma_log(m, df / lit(TWO)));
    lemma_halved(val(df));
    lemma_term((abs(val(df)) / abs(val(lit(TWO))) + least()), abs(c), abs(k) + 1real);
    lemma_term((abs(val(df)) / abs(val(lit(TWO))) + least()) + 1real, abs(t), abs(k) + 2real);
    lemma_approx_wider(chi_squared::ln_density(m, df, x), -(k * c + g) + (k - 1real) * t - val(x) / 2real, (((((abs(val(df)) / abs(val(lit(TWO))) + least()) * abs(val(ln(m, lit(TWO)))) + least()) + abs(val(gamma_log(m, df / lit(TWO))))) + (((abs(val(df)) / abs(val(lit(TWO))) + least()) + 1real) * abs(val(ln(m, x))) + least())) + (abs(val(x)) / abs(val(lit(TWO))) + least())), 12real, (abs(k) + 1real) * abs(c) + abs(g) + (abs(k) + 2real) * abs(t) + abs(val(x)) + 1real, 40real);
}

/// Inside the support the beta density is the argument to the power of the first parameter
/// less one, times its distance from one to the power of the second less one, over the beta
/// function: in logarithms, within rounding.
pub proof fn law_beta_log_density<M: Fn(Elementary) -> F64>(m: &M, a: F64, b: F64, x: F64)
    requires
        a.is_finite() && b.is_finite(),
        x.gt(lit(ZERO)) && x.lt(lit(ONE)),
        beta::ln_density(m, a, b, x).is_finite() || (ordinary(a) && ordinary(b) && ordinary(ln(m, x)) && ordinary(ln(m, lit(ONE) - x)) && ordinary(beta_log(m, a, b))),
    ensures
        ({
            let s = val(ln(m, x));
            let t = val(ln(m, lit(ONE) - x));
            let g = val(beta_log(m, a, b));
            approx(
                beta::ln_density(m, a, b, x),
                (val(a) - 1real) * s + (val(b) - 1real) * t - g,
                (abs(val(a)) + 1real) * abs(s) + (abs(val(b)) + 1real) * abs(t) + abs(g) + 1real,
                40real,
            )
        }),
{
    lemma_small_values();
    if !beta::ln_density(m, a, b, x).is_finite() {
        lemma_approx_self(a);
        lemma_approx_self(b);
        lemma_approx_self(ln(m, x));
        lemma_approx_self(ln(m, lit(ONE) - x));
        lemma_approx_self(beta_log(m, a, b));
        lemma_approx_self(lit(ONE));
        lemma_bounded_sum(a, val(a), abs(val(a)), 0real, 200, lit(ONE), 1real, 1real, 0real, 0);
        lemma_approx_difference(a, val(a), abs(val(a)), 0real, lit(ONE), 1real, 1real, 0real);
        lemma_bounded_product((a - lit(ONE)), (val(a) - 1real), (abs(val(a)) + 1real), 2real, 201, ln(m, x), val(ln(m, x)), abs(val(ln(m, x))), 0real, 200);
        lemma_approx_product((a - lit(ONE)), (val(a) - 1real), (abs(val(a)) + 1real), 2real, ln(m, x), val(ln(m, x)), abs(val(ln(m, x))), 0real);
        lemma_bounded_sum(b, val(b), abs(val(b)), 0real, 200, lit(ONE), 1real, 1real, 0real, 0);
        lemma_approx_difference(b, val(b), abs(val(b)), 0real, lit(ONE), 1real, 1real, 0real);
        lemma_bounded_product((b - lit(ONE)), (val(b) - 1real), (abs(val(b)) + 1real), 2real, 201, ln(m, (lit(ONE) - x)), val(ln(m, (lit(ONE) - x))), abs(val(ln(m, (lit(ONE) - x)))), 0real, 200);
        lemma_approx_product((b - lit(ONE)), (val(b) - 1real), (abs(val(b)) + 1real), 2real, ln(m, (lit(ONE) - x)), val(ln(m, (lit(ONE) - x))), abs(val(ln(m, (lit(ONE) - x)))), 0real);
        lemma_bounded_sum(((a - lit(ONE)) * ln(m, x)), ((val(a) - 1real) * val(ln(m, x))), ((abs(val(a)) + 1real) * abs(val(ln(m, x))) + least()), 6real, 402, ((b - lit(ONE)) * ln(m, (lit(ONE) - x))), ((val(b) - 1real) * val(ln(m, (lit(ONE) - x)))), ((abs(val(b)) + 1real) * abs(val(ln(m, (lit(ONE) - x)))) + least()), 6real, 402);
        lemma_approx_sum(((a - lit(ONE)) * ln(m, x)), ((val(a) - 1real) * val(ln(m, x))), ((abs(val(a)) + 1real) * abs(val(ln(m, x))) + least()), 6real, ((b - lit(ONE)) * ln(m, (lit(ONE) - x))), ((val(b) - 1real) * val(ln(m, (lit(ONE) - x)))), ((abs(val(b)) + 1real) * abs(val(ln(m, (lit(ONE) - x)))) + least()), 6real);
        lemma_bounded_sum((((a - lit(ONE)) * ln(m, x)) + ((b - lit(ONE)) * ln(m, (lit(ONE) - x)))), (((val(a) - 1real) * val(ln(m, x))) + ((val(b) - 1real) * val(ln(m, (lit(ONE) - x))))), (((abs(val(a)) + 1real) * abs(val(ln(m, x))) + least()) + ((abs(val(b)) + 1real) * abs(val(ln(m, (lit(ONE) - x)))) + least())), 8real, 403, beta_log(m, a, b), val(beta_log(m, a, b)), abs(val(beta_log(m, a, b))), 0real, 200);
        lemma_approx_difference((((a - lit(ONE)) * ln(m, x)) + ((b - lit(ONE)) * ln(m, (lit(ONE) - x)))), (((val(a) - 1real) * val(ln(m, x))) + ((val(b) - 1real) * val(ln(m, (lit(ONE) - x))))), (((abs(val(a)) + 1real) * abs(val(ln(m, x))) + least()) + ((abs(val(b)) + 1real) * abs(val(ln(m, (lit(ONE) - x)))) + least())), 8real, beta_log(m, a, b), val(beta_log(m, a, b)), abs(val(beta_log(m, a, b))), 0real);
    }
    assert(beta::ln_density(m, a, b, x).is_finite());
    lemma_finite_difference((((a - lit(ONE)) * ln(m, x)) + ((b - lit(ONE)) * ln(m, (lit(ONE) - x)))), beta_log(m, a, b));
    lemma_finite_sum(((a - lit(ONE)) * ln(m, x)), ((b - lit(ONE)) * ln(m, (lit(ONE) - x))));
    lemma_finite_product((a - lit(ONE)), ln(m, x));
    lemma_finite_difference(a, lit(ONE));
    lemma_finite_product((b - lit(ONE)), ln(m, (lit(ONE) - x)));
    lemma_finite_difference(b, lit(ONE));
    lemma_approx_self(a);
    lemma_approx_self(b);
    lemma_approx_self(ln(m, x));
    lemma_approx_self(ln(m, lit(ONE) - x));
    lemma_approx_self(beta_log(m, a, b));
    lemma_approx_self(lit(ONE));
    lemma_approx_difference(a, val(a), abs(val(a)), 0real, lit(ONE), 1real, 1real, 0real);
    lemma_approx_product((a - lit(ONE)), (val(a) - 1real), (abs(val(a)) + 1real), 2real, ln(m, x), val(ln(m, x)), abs(val(ln(m, x))), 0real);
    lemma_approx_difference(b, val(b), abs(val(b)), 0real, lit(ONE), 1real, 1real, 0real);
    lemma_approx_product((b - lit(ONE)), (val(b) - 1real), (abs(val(b)) + 1real), 2real, ln(m, (lit(ONE) - x)), val(ln(m, (lit(ONE) - x))), abs(val(ln(m, (lit(ONE) - x)))), 0real);
    lemma_approx_sum(((a - lit(ONE)) * ln(m, x)), ((val(a) - 1real) * val(ln(m, x))), ((abs(val(a)) + 1real) * abs(val(ln(m, x))) + least()), 6real, ((b - lit(ONE)) * ln(m, (lit(ONE) - x))), ((val(b) - 1real) * val(ln(m, (lit(ONE) - x)))), ((abs(val(b)) + 1real) * abs(val(ln(m, (lit(ONE) - x)))) + least()), 6real);
    lemma_approx_difference((((a - lit(ONE)) * ln(m, x)) + ((b - lit(ONE)) * ln(m, (lit(ONE) - x)))), (((val(a) - 1real) * val(ln(m, x))) + ((val(b) - 1real) * val(ln(m, (lit(ONE) - x))))), (((abs(val(a)) + 1real) * abs(val(ln(m, x))) + least()) + ((abs(val(b)) + 1real) * abs(val(ln(m, (lit(ONE) - x)))) + least())), 8real, beta_log(m, a, b), val(beta_log(m, a, b)), abs(val(beta_log(m, a, b))), 0real);
    let s = val(ln(m, x));
    let t = val(ln(m, lit(ONE) - x));
    let g = val(beta_log(m, a, b));
    lemma_approx_wider(beta::ln_density(m, a, b, x), (val(a) - 1real) * s + (val(b) - 1real) * t - g, ((((abs(val(a)) + 1real) * abs(val(ln(m, x))) + least()) + ((abs(val(b)) + 1real) * abs(val(ln(m, (lit(ONE) - x)))) + least())) + abs(val(beta_log(m, a, b)))), 10real, (abs(val(a)) + 1real) * abs(s) + (abs(val(b)) + 1real) * abs(t) + abs(g) + 1real, 40real);
}

/// Inside the support the F density, in logarithms, within rounding: half the first degrees
/// of freedom times the logarithm of the ratio of both, and one less times that of the
/// argument, less half of all degrees of freedom times the logarithm of one and the
/// argument times that ratio, less that of the beta function of both halves.
pub proof fn law_f_log_density<M: Fn(Elementary) -> F64>(m: &M, dfn: F64, dfd: F64, x: F64)
    requires
        dfn.is_finite() && dfd.is_finite(),
        x.gt(lit(ZERO)),
        fisher_snedecor::ln_density(m, dfn, dfd, x).is_finite() || (ordinary(dfn) && ordinary(dfd) && ordinary(ln(m, dfn / dfd)) && ordinary(ln(m, x)) && ordinary(ln(m, (lit(ONE) + dfn * x / dfd))) && ordinary(beta_log(m, dfn / lit(TWO), dfd / lit(TWO)))),
    ensures
        ({
            let h = val(dfn) / 2real;
            let j = val(dfd) / 2real;
            let r = val(ln(m, dfn / dfd));
            let s = val(ln(m, x));
            let t = val(ln(m, lit(ONE) + dfn * x / dfd));
            let g = val(beta_log(m, dfn / lit(TWO), dfd / lit(TWO)));
            approx(
                fisher_snedecor::ln_density(m, dfn, dfd, x),
                h * r + (h - 1real) * s - (h + j) * t - g,
                (abs(h) + 1real) * abs(r) + (abs(h) + 2real) * abs(s) + (abs(h) + abs(j) + 2real) * abs(t) + abs(g) + 1real,
                40real,
            )
        }),
{
    lemma_small_values();
    if !fisher_snedecor::ln_density(m, dfn, dfd, x).is_finite() {
        lemma_approx_self(dfn);
        lemma_approx_self(dfd);
        lemma_approx_self(ln(m, dfn / dfd));
        lemma_approx_self(ln(m, x));
        lemma_approx_self(ln(m, (lit(ONE) + dfn * x / dfd)));
        lemma_approx_self(beta_log(m, dfn / lit(TWO), dfd / lit(TWO)));
        lemma_approx_self(lit(ONE));
        lemma_approx_self(lit(TWO));
        lemma_bounded_quotient(dfn, val(dfn), abs(val(dfn)), 0real, 200, lit(TWO));
        lemma_approx_quotient(dfn, val(dfn), abs(val(dfn)), 0real, lit(TWO));
        lemma_bounded_product((dfn / lit(TWO)), (val(dfn) / val(lit(TWO))), (abs(val(dfn)) / abs(val(lit(TWO))) + least()), 2real, 401, ln(m, (dfn / dfd)), val(ln(m, (dfn / dfd))), abs(val(ln(m, (dfn / dfd)))), 0real, 200);
        lemma_approx_product((dfn / lit(TWO)), (val(dfn) / val(lit(TWO))), (abs(val(dfn)) / abs(val(lit(TWO))) + least()), 2real, ln(m, (dfn / dfd)), val(ln(m, (dfn / dfd))), abs(val(ln(m, (dfn / dfd)))), 0real);
        lemma_bounded_sum((dfn / lit(TWO)), (val(dfn) / val(lit(TWO))), (abs(val(dfn)) / abs(val(lit(TWO))) + least()), 2real, 401, lit(ONE), 1real, 1real, 0real, 0);
        lemma_approx_difference((dfn / lit(TWO)), (val(dfn) / val(lit(TWO))), (abs(val(dfn)) / abs(val(lit(TWO))) + least()), 2real, lit(ONE), 1real, 1real, 0real);
        lemma_bounded_product(((dfn / lit(TWO)) - lit(ONE)), ((val(dfn) / val(lit(TWO))) - 1real), ((abs(val(dfn)) / abs(val(lit(TWO))) + least()) + 1real), 4real, 402, ln(m, x), val(ln(m, x)), abs(val(ln(m, x))), 0real, 200);
        lemma_approx_product(((dfn / lit(TWO)) - lit(ONE)), ((val(dfn) / val(lit(TWO))) - 1real), ((abs(val(dfn)) / abs(val(lit(TWO))) + least()) + 1real), 4real, ln(m, x), val(ln(m, x)), abs(val(ln(m, x))), 0real);
        lemma_bounded_sum(((dfn / lit(TWO)) * ln(m, (dfn / dfd))), ((val(dfn) / val(lit(TWO))) * val(ln(m, (dfn / dfd)))), ((abs(val(dfn)) / abs(val(lit(TWO))) + least()) * abs(val(ln(m, (dfn / dfd)))) + least()), 6real, 602, (((dfn / lit(TWO)) - lit(ONE)) * ln(m, x)), (((val(dfn) / val(lit(TWO))) - 1real) * val(ln(m, x))), (((abs(val(dfn)) / abs(val(lit(TWO))) + least()) + 1real) * abs(val(ln(m, x))) + least()), 8real, 603);
        lemma_approx_sum(((dfn / lit(TWO)) * ln(m, (dfn / dfd))), ((val(dfn) / val(lit(TWO))) * val(ln(m, (dfn / dfd)))), ((abs(val(dfn)) / abs(val(lit(TWO))) + least()) * abs(val(ln(m, (dfn / dfd)))) + least()), 6real, (((dfn / lit(TWO)) - lit(ONE)) * ln(m, x)), (((val(dfn) / val(lit(TWO))) - 1real) * val(ln(m, x))), (((abs(val(dfn)) / abs(val(lit(TWO))) + least()) + 1real) * abs(val(ln(m, x))) + least()), 8real);
        lemma_bounded_quotient(dfd, val(dfd), abs(val(dfd)), 0real, 200, lit(TWO));
        lemma_approx_quotient(dfd, val(dfd), abs(val(dfd)), 0real, lit(TWO));
        lemma_bounded_sum((dfn / lit(TWO)), (val(dfn) / val(lit(TWO))), (abs(val(dfn)) / abs(val(lit(TWO))) + least()), 2real, 401, (dfd / lit(TWO)), (val(dfd) / val(lit(TWO))), (abs(val(dfd)) / abs(val(lit(TWO))) + least()), 2real, 401);
        lemma_approx_sum((dfn / lit(TWO)), (val(dfn) / val(lit(TWO))), (abs(val(dfn)) / abs(val(lit(TWO))) + least()), 2real, (dfd / lit(TWO)), (val(dfd) / val(lit(TWO))), (abs(val(dfd)) / abs(val(lit(TWO))) + least()), 2real);
        lemma_bounded_product(((dfn / lit(TWO)) + (dfd / lit(TWO))), ((val(dfn) / val(lit(TWO))) + (val(dfd) / val(lit(TWO)))), ((abs(val(dfn)) / abs(val(lit(TWO))) + least()) + (abs(val(dfd)) / abs(val(lit(TWO))) + least())), 4real, 402, ln(m, (lit(ONE) + dfn * x / dfd)), val(ln(m, (lit(ONE) + dfn * x / dfd))), abs(val(ln(m, (lit(ONE) + dfn * x / dfd)))), 0real, 200);
        lemma_approx_product(((dfn / lit(TWO)) + (dfd / lit(TWO))), ((val(dfn) / val(lit(TWO))) + (val(dfd) / val(lit(TWO)))), ((abs(val(dfn)) / abs(val(lit(TWO))) + least()) + (abs(val(dfd)) / abs(val(lit(TWO))) + least())), 4real, ln(m, (lit(ONE) + dfn * x / dfd)), val(ln(m, (lit(ONE) + dfn * x / dfd))), abs(val(ln(m, (lit(ONE) + dfn * x / dfd)))), 0real);
        lemma_bounded_sum((((dfn / lit(TWO)) * ln(m, (dfn / dfd))) + (((dfn / lit(TWO)) - lit(ONE)) * ln(m, x))), (((val(dfn) / val(lit(TWO))) * val(ln(m, (dfn / dfd)))) + (((val(dfn) / val(lit(TWO))) - 1real) * val(ln(m, x)))), (((abs(val(dfn)) / abs(val(lit(TWO))) + least()) * abs(val(ln(m, (dfn / dfd)))) + least()) + (((abs(val(dfn)) / abs(val(lit(TWO))) + least()) + 1real) * abs(val(ln(m, x))) + least())), 10real, 604, (((dfn / lit(TWO)) + (dfd / lit(TWO))) * ln(m, (lit(ONE) + dfn * x / dfd))), (((val(dfn) / val(lit(TWO))) + (val(dfd) / val(lit(TWO)))) * val(ln(m, (lit(ONE) + dfn * x / dfd)))), (((abs(val(dfn)) / abs(val(lit(TWO))) + least()) + (abs(val(dfd)) / abs(val(lit(TWO))) + least())) * abs(val(ln(m, (lit(ONE) + dfn * x / dfd)))) + least()), 8real, 603);
        lemma_approx_difference((((dfn / lit(TWO)) * ln(m, (dfn / dfd))) + (((dfn / lit(TWO)) - lit(ONE)) * ln(m, x))), (((val(dfn) / val(lit(TWO))) * val(ln(m, (dfn / dfd)))) + (((val(dfn) / val(lit(TWO))) - 1real) * val(ln(m, x)))), (((abs(val(dfn)) / abs(val(lit(TWO))) + least()) * abs(val(ln(m, (dfn / dfd)))) + least()) + (((abs(val(dfn)) / abs(val(lit(TWO))) + least()) + 1real) * abs(val(ln(m, x))) + least())), 10real, (((dfn / lit(TWO)) + (dfd / lit(TWO))) * ln(m, (lit(ONE) + dfn * x / dfd))), (((val(dfn) / val(lit(TWO))) + (val(dfd) / val(lit(TWO)))) * val(ln(m, (lit(ONE) + dfn * x / dfd)))), (((abs(val(dfn)) / abs(val(lit(TWO))) + least()) + (abs(val(dfd)) / abs(val(lit(TWO))) + least())) * abs(val(ln(m, (lit(ONE) + dfn * x / dfd)))) + least()), 8real);
        lemma_bounded_sum(((((dfn / lit(TWO)) * ln(m, (dfn / dfd))) + (((dfn / lit(TWO)) - lit(ONE)) * ln(m, x))) - (((dfn / lit(TWO)) + (dfd / lit(TWO))) * ln(m, (lit(ONE) + dfn * x / dfd)))), ((((val(dfn) / val(lit(TWO))) * val(ln(m, (dfn / dfd)))) + (((val(dfn) / val(lit(TWO))) - 1real) * val(ln(m, x)))) - (((val(dfn) / val(lit(TWO))) + (val(dfd) / val(lit(TWO)))) * val(ln(m, (lit(ONE) + dfn * x / dfd))))), ((((abs(val(dfn)) / abs(val(lit(TWO))) + least()) * abs(val(ln(m, (dfn / dfd)))) + least()) + (((abs(val(dfn)) / abs(val(lit(TWO))) + least()) + 1real) * abs(val(ln(m, x))) + least())) + (((abs(val(dfn)) / abs(val(lit(TWO))) + least()) + (abs(val(dfd)) / abs(val(lit(TWO))) + least())) * abs(val(ln(m, (lit(ONE) + dfn * x / dfd)))) + least())), 12real, 605, beta_log(m, dfn / lit(TWO), dfd / lit(TWO)), val(beta_log(m, dfn / lit(TWO), dfd / lit(TWO))), abs(val(beta_log(m, dfn / lit(TWO), dfd / lit(TWO)))), 0real, 200);
        lemma_approx_difference(((((dfn / lit(TWO)) * ln(m, (dfn / dfd))) + (((dfn / lit(TWO)) - lit(ONE)) * ln(m, x))) - (((dfn / lit(TWO)) + (dfd / lit(TWO))) * ln(m, (lit(ONE) + dfn * x / dfd)))), ((((val(dfn) / val(lit(TWO))) * val(ln(m, (dfn / dfd)))) + (((val(dfn) / val(lit(TWO))) - 1real) * val(ln(m, x)))) - (((val(dfn) / val(lit(TWO))) + (val(dfd) / val(lit(TWO)))) * val(ln(m, (lit(ONE) + dfn * x / dfd))))), ((((abs(val(dfn)) / abs(val(lit(TWO))) + least()) * abs(val(ln(m, (dfn / dfd)))) + least()) + (((abs(val(dfn)) / abs(val(lit(TWO))) + least()) + 1real) * abs(val(ln(m, x))) + least())) + (((abs(val(dfn)) / abs(val(lit(TWO))) + least()) + (abs(val(dfd)) / abs(val(lit(TWO))) + least())) * abs(val(ln(m, (lit(ONE) + dfn * x / dfd)))) + least())), 12real, beta_log(m, dfn / lit(TWO), dfd / lit(TWO)), val(beta_log(m, dfn / lit(TWO), dfd / lit(TWO))), abs(val(beta_log(m, dfn / lit(TWO), dfd / lit(TWO)))), 0real);
    }
    assert(fisher_snedecor::ln_density(m, dfn, dfd, x).is_finite());
    lemma_finite_difference(((((dfn / lit(TWO)) * ln(m, (dfn / dfd))) + (((dfn / lit(TWO)) - lit(ONE)) * ln(m, x))) - (((dfn / lit(TWO)) + (dfd / lit(TWO))) * ln(m, (lit(ONE) + dfn * x / dfd)))), beta_log(m, dfn / lit(TWO), dfd / lit(TWO)));
    lemma_finite_difference((((dfn / lit(TWO)) * ln(m, (dfn / dfd))) + (((dfn / lit(TWO)) - lit(ONE)) * ln(m, x))), (((dfn / lit(TWO)) + (dfd / lit(TWO))) * ln(m, (lit(ONE) + dfn * x / dfd))));
    lemma_finite_sum(((dfn / lit(TWO)) * ln(m, (dfn / dfd))), (((dfn / lit(TWO)) - lit(ONE)) * ln(m, x)));
    lemma_finite_product((dfn / lit(TWO)), ln(m, (dfn / dfd)));
    lemma_finite_quotient(dfn, lit(TWO));
    lemma_finite_product(((dfn / lit(TWO)) - lit(ONE)), ln(m, x));
    lemma_finite_difference((dfn / lit(TWO)), lit(ONE));
    lemma_finite_product(((dfn / lit(TWO)) + (dfd / lit(TWO))), ln(m, (lit(ONE) + dfn * x / dfd)));
    lemma_finite_sum((dfn / lit(TWO)), (dfd / lit(TWO)));
    lemma_finite_quotient(dfd, lit(TWO));
    lemma_approx_self(dfn);
    lemma_approx_self(dfd);
    lemma_approx_self(ln(m, dfn / dfd));
    lemma_approx_self(ln(m, x));
    lemma_approx_self(ln(m, (lit(ONE) + dfn * x / dfd)));
    lemma_approx_self(beta_log(m, dfn / lit(TWO), dfd / lit(TWO)));
    lemma_approx_self(lit(ONE));
    lemma_approx_self(lit(TWO));
    lemma_approx_quotient(dfn, val(dfn), abs(val(dfn)), 0real, lit(TWO));
    lemma_approx_product((dfn / lit(TWO)), (val(dfn) / val(lit(TWO))), (abs(val(dfn)) / abs(val(lit(TWO))) + least()), 2real, ln(m, (dfn / dfd)), val(ln(m, (dfn / dfd))), abs(val(ln(m, (dfn / dfd)))), 0real);
    lemma_approx_difference((dfn / lit(TWO)), (val(dfn) / val(lit(TWO))), (abs(val(dfn)) / abs(val(lit(TWO))) + least()), 2real, lit(ONE), 1real, 1real, 0real);
    lemma_approx_product(((dfn / lit(TWO)) - lit(ONE)), ((val(dfn) / val(lit(TWO))) - 1real), ((abs(val(dfn)) / abs(val(lit(TWO))) + least()) + 1real), 4real, ln(m, x), val(ln(m, x)), abs(val(ln(m, x))), 0real);
    lemma_approx_sum(((dfn / lit(TWO)) * ln(m, (dfn / dfd))), ((val(dfn) / val(lit(TWO))) * val(ln(m, (dfn / dfd)))), ((abs(val(dfn)) / abs(val(lit(TWO))) + least()) * abs(val(ln(m, (dfn / dfd)))) + least()), 6real, (((dfn / lit(TWO)) - lit(ONE)) * ln(m, x)), (((val(dfn) / val(lit(TWO))) - 1real) * val(ln(m, x))), (((abs(val(dfn)) / abs(val(lit(TWO))) + least()) + 1real) * abs(val(ln(m, x))) + least()), 8real);
    lemma_approx_quotient(dfd, val(dfd), abs(val(dfd)), 0real, lit(TWO));
    lemma_approx_sum((dfn / lit(TWO)), (val(dfn) / val(lit(TWO))), (abs(val(dfn)) / abs(val(lit(TWO))) + least()), 2real, (dfd / lit(TWO)), (val(dfd) / val(lit(TWO))), (abs(val(dfd)) / abs(val(lit(TWO))) + least()), 2real);
    lemma_approx_product(((dfn / lit(TWO)) + (dfd / lit(TWO))), ((val(dfn) / val(lit(TWO))) + (val(dfd) / val(lit(TWO)))), ((abs(val(dfn)) / abs(val(lit(TWO))) + least()) + (abs(val(dfd)) / abs(val(lit(TWO))) + least())), 4real, ln(m, (lit(ONE) + dfn * x / dfd)), val(ln(m, (lit(ONE) + dfn * x / dfd))), abs(val(ln(m, (lit(ONE) + dfn * x / dfd)))), 0real);
    lemma_approx_difference((((dfn / lit(TWO)) * ln(m, (dfn / dfd))) + (((dfn / lit(TWO)) - lit(ONE)) * ln(m, x))), (((val(dfn) / val(lit(TWO))) * val(ln(m, (dfn / dfd)))) + (((val(dfn) / val(lit(TWO))) - 1real) * val(ln(m, x)))), (((abs(val(dfn)) / abs(val(lit(TWO))) + least()) * abs(val(ln(m, (dfn / dfd)))) + least()) + (((abs(val(dfn)) / abs(val(lit(TWO))) + least()) + 1real) * abs(val(ln(m, x))) + least())), 10real, (((dfn / lit(TWO)) + (dfd / lit(TWO))) * ln(m, (lit(ONE) + dfn * x / dfd))), (((val(dfn) / val(lit(TWO))) + (val(dfd) / val(lit(TWO)))) * val(ln(m, (lit(ONE) + dfn * x / dfd)))), (((abs(val(dfn)) / abs(val(lit(TWO))) + least()) + (abs(val(dfd)) / abs(val(lit(TWO))) + least())) * abs(val(ln(m, (lit(ONE) + dfn * x / dfd)))) + least()), 8real);
    lemma_approx_difference(((((dfn / lit(TWO)) * ln(m, (dfn / dfd))) + (((dfn / lit(TWO)) - lit(ONE)) * ln(m, x))) - (((dfn / lit(TWO)) + (dfd / lit(TWO))) * ln(m, (lit(ONE) + dfn * x / dfd)))), ((((val(dfn) / val(lit(TWO))) * val(ln(m, (dfn / dfd)))) + (((val(dfn) / val(lit(TWO))) - 1real) * val(ln(m, x)))) - (((val(dfn) / val(lit(TWO))) + (val(dfd) / val(lit(TWO)))) * val(ln(m, (lit(ONE) + dfn * x / dfd))))), ((((abs(val(dfn)) / abs(val(lit(TWO))) + least()) * abs(val(ln(m, (dfn / dfd)))) + least()) + (((abs(val(dfn)) / abs(val(lit(TWO))) + least()) + 1real) * abs(val(ln(m, x))) + least())) + (((abs(val(dfn)) / abs(val(lit(TWO))) + least()) + (abs(val(dfd)) / abs(val(lit(TWO))) + least())) * abs(val(ln(m, (lit(ONE) + dfn * x / dfd)))) + least())), 12real, beta_log(m, dfn / lit(TWO), dfd / lit(TWO)), val(beta_log(m, dfn / lit(TWO), dfd / lit(TWO))), abs(val(beta_log(m, dfn / lit(TWO), dfd / lit(TWO)))), 0real);
    let h = val(dfn) / 2real;
    let j = val(dfd) / 2real;
    let r = val(ln(m, dfn / dfd));
    let s = val(ln(m, x));
    let t = val(ln(m, lit(ONE) + dfn * x / dfd));
    let g = val(beta_log(m, dfn / lit(TWO), dfd / lit(TWO)));
    lemma_halved(val(dfn));
    lemma_halved(val(dfd));
    lemma_term((abs(val(dfn)) / abs(val(lit(TWO))) + least()), abs(r), abs(h) + 1real);
    lemma_term((abs(val(dfn)) / abs(val(lit(TWO))) + least()) + 1real, abs(s), abs(h) + 2real);
    lemma_term((abs(val(dfn)) / abs(val(lit(TWO))) + least()) + (abs(val(dfd)) / abs(val(lit(TWO))) + least()), abs(t), abs(h) + abs(j) + 2real);
    lemma_approx_wider(fisher_snedecor::ln_density(m, dfn, dfd, x), h * r + (h - 1real) * s - (h + j) * t - g, (((((abs(val(dfn)) / abs(val(lit(TWO))) + least()) * abs(val(ln(m, (dfn / dfd)))) + least()) + (((abs(val(dfn)) / abs(val(lit(TWO))) + least()) + 1real) * abs(val(ln(m, x))) + least())) + (((abs(val(dfn)) / abs(val(lit(TWO))) + least()) + (abs(val(dfd)) / abs(val(lit(TWO))) + least())) * abs(val(ln(m, (lit(ONE) + dfn * x / dfd)))) + least())) + abs(val(beta_log(m, dfn / lit(TWO), dfd / lit(TWO))))), 14real, (abs(h) + 1real) * abs(r) + (abs(h) + 2real) * abs(s) + (abs(h) + abs(j) + 2real) * abs(t) + abs(g) + 1real, 40real);
}

/// The density of Student's t distribution, in logarithms, within rounding: the gamma
/// functions of half of the degrees of freedom and one and of half of them, less half the
/// logarithm of pi times the degrees of freedom, less half of the degrees of freedom and
/// one times the logarithm of one and the square of the argument over the degrees of
/// freedom.
pub proof fn law_t_log_density<M: Fn(Elementary) -> F64>(m: &M, df: F64, t: F64)
    requires
        df.is_finite(),
        students_t::ln_density(m, df, t).is_finite() || (ordinary(df) && ordinary(gamma_log(m, (df + lit(ONE)) / lit(TWO))) && ordinary(gamma_log(m, df / lit(TWO))) && ordinary(ln(m, lit(students_t::PI) * df)) && ordinary(ln(m, (lit(ONE) + t * t / df)))),
    ensures
        ({
            let g = val(gamma_log(m, (df + lit(ONE)) / lit(TWO)));
            let h = val(gamma_log(m, df / lit(TWO)));
            let c = val(ln(m, lit(students_t::PI) * df));
            let s = val(ln(m, lit(ONE) + t * t / df));
            approx(
                students_t::ln_density(m, df, t),
                g - h - c / 2real - (val(df) + 1real) / 2real * s,
                abs(g) + abs(h) + abs(c) + (abs(val(df)) + 2real) * abs(s) + 1real,
                40real,
            )
        }),
{
    lemma_small_values();
    if !students_t::ln_density(m, df, t).is_finite() {
        lemma_approx_self(df);
        lemma_approx_self(gamma_log(m, (df + lit(ONE)) / lit(TWO)));
        lemma_approx_self(gamma_log(m, df / lit(TWO)));
        lemma_approx_self(ln(m, lit(students_t::PI) * df));
        lemma_approx_self(ln(m, (lit(ONE) + t * t / df)));
        lemma_approx_self(lit(ONE));
        lemma_approx_self(lit(TWO));
        lemma_approx_self(lit(HALF));
        lemma_bounded_sum(gamma_log(m, ((df + lit(ONE)) / lit(TWO))), val(gamma_log(m, ((df + lit(ONE)) / lit(TWO)))), abs(val(gamma_log(m, ((df + lit(ONE)) / lit(TWO))))), 0real, 200, gamma_log(m, (df / lit(TWO))), val(gamma_log(m, (df / lit(TWO)))), abs(val(gamma_log(m, (df / lit(TWO))))), 0real, 200);
        lemma_approx_difference(gamma_log(m, ((df + lit(ONE)) / lit(TWO))), val(gamma_log(m, ((df + lit(ONE)) / lit(TWO)))), abs(val(gamma_log(m, ((df + lit(ONE)) / lit(TWO))))), 0real, gamma_log(m, (df / lit(TWO))), val(gamma_log(m, (df / lit(TWO)))), abs(val(gamma_log(m, (df / lit(TWO))))), 0real);
        lemma_bounded_product(lit(HALF), (1real / 2real), (1real / 2real), 0real, 0, ln(m, (lit(students_t::PI) * df)), val(ln(m, (lit(students_t::PI) * df))), abs(val(ln(m, (lit(students_t::PI) * df)))), 0real, 200);
        lemma_approx_product(lit(HALF), (1real / 2real), (1real / 2real), 0real, ln(m, (lit(students_t::PI) * df)), val(ln(m, (lit(students_t::PI) * df))), abs(val(ln(m, (lit(students_t::PI) * df)))), 0real);
        lemma_bounded_sum((gamma_log(m, ((df + lit(ONE)) / lit(TWO))) - gamma_log(m, (df / lit(TWO)))), (val(gamma_log(m, ((df + lit(ONE)) / lit(TWO)))) - val(gamma_log(m, (df / lit(TWO))))), (abs(val(gamma_log(m, ((df + lit(ONE)) / lit(TWO))))) + abs(val(gamma_log(m, (df / lit(TWO)))))), 2real, 201, (lit(HALF) * ln(m, (lit(students_t::PI) * df))), ((1real / 2real) * val(ln(m, (lit(students_t::PI) * df)))), ((1real / 2real) * abs(val(ln(m, (lit(students_t::PI) * df)))) + least()), 4real, 201);
        lemma_approx_difference((gamma_log(m, ((df + lit(ONE)) / lit(TWO))) - gamma_log(m, (df / lit(TWO)))), (val(gamma_log(m, ((df + lit(ONE)) / lit(TWO)))) - val(gamma_log(m, (df / lit(TWO))))), (abs(val(gamma_log(m, ((df + lit(ONE)) / lit(TWO))))) + abs(val(gamma_log(m, (df / lit(TWO)))))), 2real, (lit(HALF) * ln(m, (lit(students_t::PI) * df))), ((1real / 2real) * val(ln(m, (lit(students_t::PI) * df)))), ((1real / 2real) * abs(val(ln(m, (lit(students_t::PI) * df)))) + least()), 4real);
        lemma_bounded_sum(df, val(df), abs(val(df)), 0real, 200, lit(ONE), 1real, 1real, 0real, 0);
        lemma_approx_sum(df, val(df), abs(val(df)), 0real, lit(ONE), 1real, 1real, 0real);
        lemma_bounded_quotient((df + lit(ONE)), (val(df) + 1real), (abs(val(df)) + 1real), 2real, 201, lit(TWO));
        lemma_approx_quotient((df + lit(ONE)), (val(df) + 1real), (abs(val(df)) + 1real), 2real, lit(TWO));
        lemma_bounded_product(((df + lit(ONE)) / lit(TWO)), ((val(df) + 1real) / val(lit(TWO))), ((abs(val(df)) + 1real) / abs(val(lit(TWO))) + least()), 4real, 402, ln(m, (lit(ONE) + t * t / df)), val(ln(m, (lit(ONE) + t * t / df))), abs(val(ln(m, (lit(ONE) + t * t / df)))), 0real, 200);
        lemma_approx_product(((df + lit(ONE)) / lit(TWO)), ((val(df) + 1real) / val(lit(TWO))), ((abs(val(df)) + 1real) / abs(val(lit(TWO))) + least()), 4real, ln(m, (lit(ONE) + t * t / df)), val(ln(m, (lit(ONE) + t * t / df))), abs(val(ln(m, (lit(ONE) + t * t / df)))), 0real);
        lemma_bounded_sum(((gamma_log(m, ((df + lit(ONE)) / lit(TWO))) - gamma_log(m, (df / lit(TWO)))) - (lit(HALF) * ln(m, (lit(students_t::PI) * df)))), ((val(gamma_log(m, ((df + lit(ONE)) / lit(TWO)))) - val(gamma_log(m, (df / lit(TWO))))) - ((1real / 2real) * val(ln(m, (lit(students_t::PI) * df))))), ((abs(val(gamma_log(m, ((df + lit(ONE)) / lit(TWO))))) + abs(val(gamma_log(m, (df / lit(TWO)))))) + ((1real / 2real) * abs(val(ln(m, (lit(students_t::PI) * df)))) + least())), 6real, 202, (((df + lit(ONE)) / lit(TWO)) * ln(m, (lit(ONE) + t * t / df))), (((val(df) + 1real) / val(lit(TWO))) * val(ln(m, (lit(ONE) + t * t / df)))), (((abs(val(df)) + 1real) / abs(val(lit(TWO))) + least()) * abs(val(ln(m, (lit(ONE) + t * t / df)))) + least()), 8real, 603);
        lemma_approx_difference(((gamma_log(m, ((df + lit(ONE)) / lit(TWO))) - gamma_log(m, (df / lit(TWO)))) - (lit(HALF) * ln(m, (lit(students_t::PI) * df)))), ((val(gamma_log(m, ((df + lit(ONE)) / lit(TWO)))) - val(gamma_log(m, (df / lit(TWO))))) - ((1real / 2real) * val(ln(m, (lit(students_t::PI) * df))))), ((abs(val(gamma_log(m, ((df + lit(ONE)) / lit(TWO))))) + abs(val(gamma_log(m, (df / lit(TWO)))))) + ((1real / 2real) * abs(val(ln(m, (lit(students_t::PI) * df)))) + least())), 6real, (((df + lit(ONE)) / lit(TWO)) * ln(m, (lit(ONE) + t * t / df))), (((val(df) + 1real) / val(lit(TWO))) * val(ln(m, (lit(ONE) + t * t / df)))), (((abs(val(df)) + 1real) / abs(val(lit(TWO))) + least()) * abs(val(ln(m, (lit(ONE) + t * t / df)))) + least()), 8real);
    }
    assert(students_t::ln_density(m, df, t).is_finite());
    lemma_finite_difference(((gamma_log(m, ((df + lit(ONE)) / lit(TWO))) - gamma_log(m, (df / lit(TWO)))) - (lit(HALF) * ln(m, (lit(students_t::PI) * df)))), (((df + lit(ONE)) / lit(TWO)) * ln(m, (lit(ONE) + t * t / df))));
    lemma_finite_difference((gamma_log(m, ((df + lit(ONE)) / lit(TWO))) - gamma_log(m, (df / lit(TWO)))), (lit(HALF) * ln(m, (lit(students_t::PI) * df))));
    lemma_finite_difference(gamma_log(m, ((df + lit(ONE)) / lit(TWO))), gamma_log(m, (df / lit(TWO))));
    lemma_finite_product(lit(HALF), ln(m, (lit(students_t::PI) * df)));
    lemma_finite_product(((df + lit(ONE)) / lit(TWO)), ln(m, (lit(ONE) + t * t / df)));
    lemma_finite_quotient((df + lit(ONE)), lit(TWO));
    lemma_finite_sum(df, lit(ONE));
    lemma_approx_self(df);
    lemma_approx_self(gamma_log(m, (df + lit(ONE)) / lit(TWO)));
    lemma_approx_self(gamma_log(m, df / lit(TWO)));
    lemma_approx_self(ln(m, lit(students_t::PI) * df));
    lemma_approx_self(ln(m, (lit(ONE) + t * t / df)));
    lemma_approx_self(lit(ONE));
    lemma_approx_self(lit(TWO));
    lemma_approx_self(lit(HALF));
    lemma_approx_difference(gamma_log(m, ((df + lit(ONE)) / lit(TWO))), val(gamma_log(m, ((df + lit(ONE)) / lit(TWO)))), abs(val(gamma_log(m, ((df + lit(ONE)) / lit(TWO))))), 0real, gamma_log(m, (df / lit(TWO))), val(gamma_log(m, (df / lit(TWO)))), abs(val(gamma_log(m, (df / lit(TWO))))), 0real);
    lemma_approx_product(lit(HALF), (1real / 2real), (1real / 2real), 0real, ln(m, (lit(students_t::PI) * df)), val(ln(m, (lit(students_t::PI) * df))), abs(val(ln(m, (lit(students_t::PI) * df)))), 0real);
    lemma_approx_difference((gamma_log(m, ((df + lit(ONE)) / lit(TWO))) - gamma_log(m, (df / lit(TWO)))), (val(gamma_log(m, ((df + lit(ONE)) / lit(TWO)))) - val(gamma_log(m, (df / lit(TWO))))), (abs(val(gamma_log(m, ((df + lit(ONE)) / lit(TWO))))) + abs(val(gamma_log(m, (df / lit(TWO)))))), 2real, (lit(HALF) * ln(m, (lit(students_t::PI) * df))), ((1real / 2real) * val(ln(m, (lit(students_t::PI) * df)))), ((1real / 2real) * abs(val(ln(m, (lit(students_t::PI) * df)))) + least()), 4real);
    lemma_approx_sum(df, val(df), abs(val(df)), 0real, lit(ONE), 1real, 1real, 0real);
    lemma_approx_quotient((df + lit(ONE)), (val(df) + 1real), (abs(val(df)) + 1real), 2real, lit(TWO));
    lemma_approx_product(((df + lit(ONE)) / lit(TWO)), ((val(df) + 1real) / val(lit(TWO))), ((abs(val(df)) + 1real) / abs(val(lit(TWO))) + least()), 4real, ln(m, (lit(ONE) + t * t / df)), val(ln(m, (lit(ONE) + t * t / df))), abs(val(ln(m, (lit(ONE) + t * t / df)))), 0real);
    lemma_approx_difference(((gamma_log(m, ((df + lit(ONE)) / lit(TWO))) - gamma_log(m, (df / lit(TWO)))) - (lit(HALF) * ln(m, (lit(students_t::PI) * df)))), ((val(gamma_log(m, ((df + lit(ONE)) / lit(TWO)))) - val(gamma_log(m, (df / lit(TWO))))) - ((1real / 2real) * val(ln(m, (lit(students_t::PI) * df))))), ((abs(val(gamma_log(m, ((df + lit(ONE)) / lit(TWO))))) + abs(val(gamma_log(m, (df / lit(TWO)))))) + ((1real / 2real) * abs(val(ln(m, (lit(students_t::PI) * df)))) + least())), 6real, (((df + lit(ONE)) / lit(TWO)) * ln(m, (lit(ONE) + t * t / df))), (((val(df) + 1real) / val(lit(TWO))) * val(ln(m, (lit(ONE) + t * t / df)))), (((abs(val(df)) + 1real) / abs(val(lit(TWO))) + least()) * abs(val(ln(m, (lit(ONE) + t * t / df)))) + least()), 8real);
    let g = val(gamma_log(m, (df + lit(ONE)) / lit(TWO)));
    let h = val(gamma_log(m, df / lit(TWO)));
    let c = val(ln(m, lit(students_t::PI) * df));
    let s = val(ln(m, lit(ONE) + t * t / df));
    lemma_term((abs(val(df)) + 1real) / abs(val(lit(TWO))) + least(), abs(s), abs(val(df)) + 2real);
    lemma_approx_wider(students_t::ln_density(m, df, t), g - h - c / 2real - (val(df) + 1real) / 2real * s, (((abs(val(gamma_log(m, ((df + lit(ONE)) / lit(TWO))))) + abs(val(gamma_log(m, (df / lit(TWO)))))) + ((1real / 2real) * abs(val(ln(m, (lit(students_t::PI) * df)))) + least())) + (((abs(val(df)) + 1real) / abs(val(lit(TWO))) + least()) * abs(val(ln(m, (lit(ONE) + t * t / df)))) + least())), 10real, abs(g) + abs(h) + abs(c) + (abs(val(df)) + 2real) * abs(s) + 1real, 40real);
}

/// The probability of a count of successes is the number of ways to choose them, times the
/// power of the probability of a success and that of a failure: in logarithms, within
/// rounding.
pub proof fn law_binomial_log_mass<M: Fn(Elementary) -> F64>(m: &M, n: u64, pr: F64, s: u64)
    requires
        s <= n,
        pr.gt(lit(ZERO)) && pr.lt(lit(ONE)),
        binomial::ln_mass(m, n, pr, s).is_finite() || (ordinary(F64::from_u64(n)) && ordinary(F64::from_u64(s)) && ordinary(gamma_log(m, F64::from_u64(n) + lit(ONE))) && ordinary(gamma_log(m, F64::from_u64(s) + lit(ONE))) && ordinary(gamma_log(m, F64::from_u64(n) - F64::from_u64(s) + lit(ONE))) && ordinary(ln(m, pr)) && ordinary(ln(m, lit(ONE) - pr))),
    ensures
        ({
            let k = val(F64::from_u64(s));
            let j = val(F64::from_u64(n));
            let c = val(gamma_log(m, F64::from_u64(n) + lit(ONE)));
            let g = val(gamma_log(m, F64::from_u64(s) + lit(ONE)));
            let h = val(gamma_log(m, F64::from_u64(n) - F64::from_u64(s) + lit(ONE)));
            let a = val(ln(m, pr));
            let b = val(ln(m, lit(ONE) - pr));
            approx(
                binomial::ln_mass(m, n, pr, s),
                c - g - h + k * a + (j - k) * b,
                abs(c) + abs(g) + abs(h) + abs(k) * abs(a) + (abs(j) + abs(k)) * abs(b) + 1real,
                40real,
            )
        }),
{
    lemma_small_values();
    lemma_not_the_ends(pr);
    if !binomial::ln_mass(m, n, pr, s).is_finite() {
        lemma_approx_self(F64::from_u64(n));
        lemma_approx_self(F64::from_u64(s));
        lemma_approx_self(gamma_log(m, F64::from_u64(n) + lit(ONE)));
        lemma_approx_self(gamma_log(m, F64::from_u64(s) + lit(ONE)));
        lemma_approx_self(gamma_log(m, F64::from_u64(n) - F64::from_u64(s) + lit(ONE)));
        lemma_approx_self(ln(m, pr));
        lemma_approx_self(ln(m, lit(ONE) - pr));
        lemma_bounded_sum(gamma_log(m, (F64::from_u64(n) + lit(ONE))), val(gamma_log(m, (F64::from_u64(n) + lit(ONE)))), abs(val(gamma_log(m, (F64::from_u64(n) + lit(ONE))))), 0real, 200, gamma_log(m, (F64::from_u64(s) + lit(ONE))), val(gamma_log(m, (F64::from_u64(s) + lit(ONE)))), abs(val(gamma_log(m, (F64::from_u64(s) + lit(ONE))))), 0real, 200);
        lemma_approx_difference(gamma_log(m, (F64::from_u64(n) + lit(ONE))), val(gamma_log(m, (F64::from_u64(n) + lit(ONE)))), abs(val(gamma_log(m, (F64::from_u64(n) + lit(ONE))))), 0real, gamma_log(m, (F64::from_u64(s) + lit(ONE))), val(gamma_log(m, (F64::from_u64(s) + lit(ONE)))), abs(val(gamma_log(m, (F64::from_u64(s) + lit(ONE))))), 0real);
        lemma_bounded_sum((gamma_log(m, (F64::from_u64(n) + lit(ONE))) - gamma_log(m, (F64::from_u64(s) + lit(ONE)))), (val(gamma_log(m, (F64::from_u64(n) + lit(ONE)))) - val(gamma_log(m, (F64::from_u64(s) + lit(ONE))))), (abs(val(gamma_log(m, (F64::from_u64(n) + lit(ONE))))) + abs(val(gamma_log(m, (F64::from_u64(s) + lit(ONE)))))), 2real, 201, gamma_log(m, (F64::from_u64(n) - F64::from_u64(s) + lit(ONE))), val(gamma_log(m, (F64::from_u64(n) - F64::from_u64(s) + lit(ONE)))), abs(val(gamma_log(m, (F64::from_u64(n) - F64::from_u64(s) + lit(ONE))))), 0real, 200);
        lemma_approx_difference((gamma_log(m, (F64::from_u64(n) + lit(ONE))) - gamma_log(m, (F64::from_u64(s) + lit(ONE)))), (val(gamma_log(m, (F64::from_u64(n) + lit(ONE)))) - val(gamma_log(m, (F64::from_u64(s) + lit(ONE))))), (abs(val(gamma_log(m, (F64::from_u64(n) + lit(ONE))))) + abs(val(gamma_log(m, (F64::from_u64(s) + lit(ONE)))))), 2real, gamma_log(m, (F64::from_u64(n) - F64::from_u64(s) + lit(ONE))), val(gamma_log(m, (F64::from_u64(n) - F64::from_u64(s) + lit(ONE)))), abs(val(gamma_log(m, (F64::from_u64(n) - F64::from_u64(s) + lit(ONE))))), 0real);
        lemma_bounded_product(F64::from_u64(s), val(F64::from_u64(s)), abs(val(F64::from_u64(s))), 0real, 200, ln(m, pr), val(ln(m, pr)), abs(val(ln(m, pr))), 0real, 200);
        lemma_approx_product(F64::from_u64(s), val(F64::from_u64(s)), abs(val(F64::from_u64(s))), 0real, ln(m, pr), val(ln(m, pr)), abs(val(ln(m, pr))), 0real);
        lemma_bounded_sum(((gamma_log(m, (F64::from_u64(n) + lit(ONE))) - gamma_log(m, (F64::from_u64(s) + lit(ONE)))) - gamma_log(m, (F64::from_u64(n) - F64::from_u64(s) + lit(ONE)))), ((val(gamma_log(m, (F64::from_u64(n) + lit(ONE)))) - val(gamma_log(m, (F64::from_u64(s) + lit(ONE))))) - val(gamma_log(m, (F64::from_u64(n) - F64::from_u64(s) + lit(ONE))))), ((abs(val(gamma_log(m, (F64::from_u64(n) + lit(ONE))))) + abs(val(gamma_log(m, (F64::from_u64(s) + lit(ONE)))))) + abs(val(gamma_log(m, (F64::from_u64(n) - F64::from_u64(s) + lit(ONE)))))), 4real, 202, (F64::from_u64(s) * ln(m, pr)), (val(F64::from_u64(s)) * val(ln(m, pr))), (abs(val(F64::from_u64(s))) * abs(val(ln(m, pr))) + least()), 4real, 401);
        lemma_approx_sum(((gamma_log(m, (F64::from_u64(n) + lit(ONE))) - gamma_log(m, (F64::from_u64(s) + lit(ONE)))) - gamma_log(m, (F64::from_u64(n) - F64::from_u64(s) + lit(ONE)))), ((val(gamma_log(m, (F64::from_u64(n) + lit(ONE)))) - val(gamma_log(m, (F64::from_u64(s) + lit(ONE))))) - val(gamma_log(m, (F64::from_u64(n) - F64::from_u64(s) + lit(ONE))))), ((abs(val(gamma_log(m, (F64::from_u64(n) + lit(ONE))))) + abs(val(gamma_log(m, (F64::from_u64(s) + lit(ONE)))))) + abs(val(gamma_log(m, (F64::from_u64(n) - F64::from_u64(s) + lit(ONE)))))), 4real, (F64::from_u64(s) * ln(m, pr)), (val(F64::from_u64(s)) * val(ln(m, pr))), (abs(val(F64::from_u64(s))) * abs(val(ln(m, pr))) + least()), 4real);
        lemma_bounded_sum(F64::from_u64(n), val(F64::from_u64(n)), abs(val(F64::from_u64(n))), 0real, 200, F64::from_u64(s), val(F64::from_u64(s)), abs(val(F64::from_u64(s))), 0real, 200);
        lemma_approx_difference(F64::from_u64(n), val(F64::from_u64(n)), abs(val(F64::from_u64(n))), 0real, F64::from_u64(s), val(F64::from_u64(s)), abs(val(F64::from_u64(s))), 0real);
        lemma_bounded_product((F64::from_u64(n) - F64::from_u64(s)), (val(F64::from_u64(n)) - val(F64::from_u64(s))), (abs(val(F64::from_u64(n))) + abs(val(F64::from_u64(s)))), 2real, 201, ln(m, (lit(ONE) - pr)), val(ln(m, (lit(ONE) - pr))), abs(val(ln(m, (lit(ONE) - pr)))), 0real, 200);
        lemma_approx_product((F64::from_u64(n) - F64::from_u64(s)), (val(F64::from_u64(n)) - val(F64::from_u64(s))), (abs(val(F64::from_u64(n))) + abs(val(F64::from_u64(s)))), 2real, ln(m, (lit(ONE) - pr)), val(ln(m, (lit(ONE) - pr))), abs(val(ln(m, (lit(ONE) - pr)))), 0real);
        lemma_bounded_sum((((gamma_log(m, (F64::from_u64(n) + lit(ONE))) - gamma_log(m, (F64::from_u64(s) + lit(ONE)))) - gamma_log(m, (F64::from_u64(n) - F64::from_u64(s) + lit(ONE)))) + (F64::from_u64(s) * ln(m, pr))), (((val(gamma_log(m, (F64::from_u64(n) + lit(ONE)))) - val(gamma_log(m, (F64::from_u64(s) + lit(ONE))))) - val(gamma_log(m, (F64::from_u64(n) - F64::from_u64(s) + lit(ONE))))) + (val(F64::from_u64(s)) * val(ln(m, pr)))), (((abs(val(gamma_log(m, (F64::from_u64(n) + lit(ONE))))) + abs(val(gamma_log(m, (F64::from_u64(s) + lit(ONE)))))) + abs(val(gamma_log(m, (F64::from_u64(n) - F64::from_u64(s) + lit(ONE)))))) + (abs(val(F64::from_u64(s))) * abs(val(ln(m, pr))) + least())), 6real, 402, ((F64::from_u64(n) - F64::from_u64(s)) * ln(m, (lit(ONE) - pr))), ((val(F64::from_u64(n)) - val(F64::from_u64(s))) * val(ln(m, (lit(ONE) - pr)))), ((abs(val(F64::from_u64(n))) + abs(val(F64::from_u64(s)))) * abs(val(ln(m, (lit(ONE) - pr)))) + least()), 6real, 402);
        lemma_approx_sum((((gamma_log(m, (F64::from_u64(n) + lit(ONE))) - gamma_log(m, (F64::from_u64(s) + lit(ONE)))) - gamma_log(m, (F64::from_u64(n) - F64::from_u64(s) + lit(ONE)))) + (F64::from_u64(s) * ln(m, pr))), (((val(gamma_log(m, (F64::from_u64(n) + lit(ONE)))) - val(gamma_log(m, (F64::from_u64(s) + lit(ONE))))) - val(gamma_log(m, (F64::from_u64(n) - F64::from_u64(s) + lit(ONE))))) + (val(F64::from_u64(s)) * val(ln(m, pr)))), (((abs(val(gamma_log(m, (F64::from_u64(n) + lit(ONE))))) + abs(val(gamma_log(m, (F64::from_u64(s) + lit(ONE)))))) + abs(val(gamma_log(m, (F64::from_u64(n) - F64::from_u64(s) + lit(ONE)))))) + (abs(val(F64::from_u64(s))) * abs(val(ln(m, pr))) + least())), 6real, ((F64::from_u64(n) - F64::from_u64(s)) * ln(m, (lit(ONE) - pr))), ((val(F64::from_u64(n)) - val(F64::from_u64(s))) * val(ln(m, (lit(ONE) - pr)))), ((abs(val(F64::from_u64(n))) + abs(val(F64::from_u64(s)))) * abs(val(ln(m, (lit(ONE) - pr)))) + least()), 6real);
    }
    assert(binomial::ln_mass(m, n, pr, s).is_finite());
    lemma_finite_sum((((gamma_log(m, (F64::from_u64(n) + lit(ONE))) - gamma_log(m, (F64::from_u64(s) + lit(ONE)))) - gamma_log(m, (F64::from_u64(n) - F64::from_u64(s) + lit(ONE)))) + (F64::from_u64(s) * ln(m, pr))), ((F64::from_u64(n) - F64::from_u64(s)) * ln(m, (lit(ONE) - pr))));
    lemma_finite_sum(((gamma_log(m, (F64::from_u64(n) + lit(ONE))) - gamma_log(m, (F64::from_u64(s) + lit(ONE)))) - gamma_log(m, (F64::from_u64(n) - F64::from_u64(s) + lit(ONE)))), (F64::from_u64(s) * ln(m, pr)));
    lemma_finite_difference((gamma_log(m, (F64::from_u64(n) + lit(ONE))) - gamma_log(m, (F64::from_u64(s) + lit(ONE)))), gamma_log(m, (F64::from_u64(n) - F64::from_u64(s) + lit(ONE))));
    lemma_finite_difference(gamma_log(m, (F64::from_u64(n) + lit(ONE))), gamma_log(m, (F64::from_u64(s) + lit(ONE))));
    lemma_finite_product(F64::from_u64(s), ln(m, pr));
    lemma_finite_product((F64::from_u64(n) - F64::from_u64(s)), ln(m, (lit(ONE) - pr)));
    lemma_finite_difference(F64::from_u64(n), F64::from_u64(s));
    lemma_approx_self(F64::from_u64(n));
    lemma_approx_self(F64::from_u64(s));
    lemma_approx_self(gamma_log(m, F64::from_u64(n) + lit(ONE)));
    lemma_approx_self(gamma_log(m, F64::from_u64(s) + lit(ONE)));
    lemma_approx_self(gamma_log(m, F64::from_u64(n) - F64::from_u64(s) + lit(ONE)));
    lemma_approx_self(ln(m, pr));
    lemma_approx_self(ln(m, lit(ONE) - pr));
    lemma_approx_difference(gamma_log(m, (F64::from_u64(n) + lit(ONE))), val(gamma_log(m, (F64::from_u64(n) + lit(ONE)))), abs(val(gamma_log(m, (F64::from_u64(n) + lit(ONE))))), 0real, gamma_log(m, (F64::from_u64(s) + lit(ONE))), val(gamma_log(m, (F64::from_u64(s) + lit(ONE)))), abs(val(gamma_log(m, (F64::from_u64(s) + lit(ONE))))), 0real);
    lemma_approx_difference((gamma_log(m, (F64::from_u64(n) + lit(ONE))) - gamma_log(m, (F64::from_u64(s) + lit(ONE)))), (val(gamma_log(m, (F64::from_u64(n) + lit(ONE)))) - val(gamma_log(m, (F64::from_u64(s) + lit(ONE))))), (abs(val(gamma_log(m, (F64::from_u64(n) + lit(ONE))))) + abs(val(gamma_log(m, (F64::from_u64(s) + lit(ONE)))))), 2real, gamma_log(m, (F64::from_u64(n) - F64::from_u64(s) + lit(ONE))), val(gamma_log(m, (F64::from_u64(n) - F64::from_u64(s) + lit(ONE)))), abs(val(gamma_log(m, (F64::from_u64(n) - F64::from_u64(s) + lit(ONE))))), 0real);
    lemma_approx_product(F64::from_u64(s), val(F64::from_u64(s)), abs(val(F64::from_u64(s))), 0real, ln(m, pr), val(ln(m, pr)), abs(val(ln(m, pr))), 0real);
    lemma_approx_sum(((gamma_log(m, (F64::from_u64(n) + lit(ONE))) - gamma_log(m, (F64::from_u64(s) + lit(ONE)))) - gamma_log(m, (F64::from_u64(n) - F64::from_u64(s) + lit(ONE)))), ((val(gamma_log(m, (F64::from_u64(n) + lit(ONE)))) - val(gamma_log(m, (F64::from_u64(s) + lit(ONE))))) - val(gamma_log(m, (F64::from_u64(n) - F64::from_u64(s) + lit(ONE))))), ((abs(val(gamma_log(m, (F64::from_u64(n) + lit(ONE))))) + abs(val(gamma_log(m, (F64::from_u64(s) + lit(ONE)))))) + abs(val(gamma_log(m, (F64::from_u64(n) - F64::from_u64(s) + lit(ONE)))))), 4real, (F64::from_u64(s) * ln(m, pr)), (val(F64::from_u64(s)) * val(ln(m, pr))), (abs(val(F64::from_u64(s))) * abs(val(ln(m, pr))) + least()), 4real);
    lemma_approx_difference(F64::from_u64(n), val(F64::from_u64(n)), abs(val(F64::from_u64(n))), 0real, F64::from_u64(s), val(F64::from_u64(s)), abs(val(F64::from_u64(s))), 0real);
    lemma_approx_product((F64::from_u64(n) - F64::from_u64(s)), (val(F64::from_u64(n)) - val(F64::from_u64(s))), (abs(val(F64::from_u64(n))) + abs(val(F64::from_u64(s)))), 2real, ln(m, (lit(ONE) - pr)), val(ln(m, (lit(ONE) - pr))), abs(val(ln(m, (lit(ONE) - pr)))), 0real);
    lemma_approx_sum((((gamma_log(m, (F64::from_u64(n) + lit(ONE))) - gamma_log(m, (F64::from_u64(s) + lit(ONE)))) - gamma_log(m, (F64::from_u64(n) - F64::from_u64(s) + lit(ONE)))) + (F64::from_u64(s) * ln(m, pr))), (((val(gamma_log(m, (F64::from_u64(n) + lit(ONE)))) - val(gamma_log(m, (F64::from_u64(s) + lit(ONE))))) - val(gamma_log(m, (F64::from_u64(n) - F64::from_u64(s) + lit(ONE))))) + (val(F64::from_u64(s)) * val(ln(m, pr)))), (((abs(val(gamma_log(m, (F64::from_u64(n) + lit(ONE))))) + abs(val(gamma_log(m, (F64::from_u64(s) + lit(ONE)))))) + abs(val(gamma_log(m, (F64::from_u64(n) - F64::from_u64(s) + lit(ONE)))))) + (abs(val(F64::from_u64(s))) * abs(val(ln(m, pr))) + least())), 6real, ((F64::from_u64(n) - F64::from_u64(s)) * ln(m, (lit(ONE) - pr))), ((val(F64::from_u64(n)) - val(F64::from_u64(s))) * val(ln(m, (lit(ONE) - pr)))), ((abs(val(F64::from_u64(n))) + abs(val(F64::from_u64(s)))) * abs(val(ln(m, (lit(ONE) - pr)))) + least()), 6real);
    let k = val(F64::from_u64(s));
    let j = val(F64::from_u64(n));
    let c = val(gamma_log(m, F64::from_u64(n) + lit(ONE)));
    let g = val(gamma_log(m, F64::from_u64(s) + lit(ONE)));
    let h = val(gamma_log(m, F64::from_u64(n) - F64::from_u64(s) + lit(ONE)));
    let a = val(ln(m, pr));
    let b = val(ln(m, lit(ONE) - pr));
    lemma_approx_wider(binomial::ln_mass(m, n, pr, s), c - g - h + k * a + (j - k) * b, ((((abs(val(gamma_log(m, (F64::from_u64(n) + lit(ONE))))) + abs(val(gamma_log(m, (F64::from_u64(s) + lit(ONE)))))) + abs(val(gamma_log(m, (F64::from_u64(n) - F64::from_u64(s) + lit(ONE)))))) + (abs(val(F64::from_u64(s))) * abs(val(ln(m, pr))) + least())) + ((abs(val(F64::from_u64(n))) + abs(val(F64::from_u64(s)))) * abs(val(ln(m, (lit(ONE) - pr)))) + least())), 8real, abs(c) + abs(g) + abs(h) + abs(k) * abs(a) + (abs(j) + abs(k)) * abs(b) + 1real, 40real);
}

/// The probability of a count of failures before so many successes: the number of ways,
/// times the power of the probability of a success and that of a failure, in logarithms,
/// within rounding.
pub proof fn law_negative_binomial_log_mass<M: Fn(Elementary) -> F64>(m: &M, r: u64, pr: F64, s: u64)
    requires
        pr.gt(lit(ZERO)) && pr.lt(lit(ONE)),
        negative_binomial::ln_mass(m, r, pr, s).is_finite() || (ordinary(F64::from_u64(r)) && ordinary(F64::from_u64(s)) && ordinary(gamma_log(m, F64::from_u64(s) + F64::from_u64(r))) && ordinary(gamma_log(m, F64::from_u64(s) + lit(ONE))) && ordinary(gamma_log(m, F64::from_u64(r))) && ordinary(ln(m, pr)) && ordinary(ln(m, lit(ONE) - pr))),
    ensures
        ({
            let k = val(F64::from_u64(s));
            let j = val(F64::from_u64(r));
            let c = val(gamma_log(m, F64::from_u64(s) + F64::from_u64(r)));
            let g = val(gamma_log(m, F64::from_u64(s) + lit(ONE)));
            let h = val(gamma_log(m, F64::from_u64(r)));
            let a = val(ln(m, pr));
            let b = val(ln(m, lit(ONE) - pr));
            approx(
                negative_binomial::ln_mass(m, r, pr, s),
                c - g - h + j * a + k * b,
                abs(c) + abs(g) + abs(h) + abs(j) * abs(a) + abs(k) * abs(b) + 1real,
                40real,
            )
        }),
{
    lemma_small_values();
    lemma_not_the_ends(pr);
    if !negative_binomial::ln_mass(m, r, pr, s).is_finite() {
        lemma_approx_self(F64::from_u64(r));
        lemma_approx_self(F64::from_u64(s));
        lemma_approx_self(gamma_log(m, F64::from_u64(s) + F64::from_u64(r)));
        lemma_approx_self(gamma_log(m, F64::from_u64(s) + lit(ONE)));
        lemma_approx_self(gamma_log(m, F64::from_u64(r)));
        lemma_approx_self(ln(m, pr));
        lemma_approx_self(ln(m, lit(ONE) - pr));
        lemma_bounded_sum(gamma_log(m, (F64::from_u64(s) + F64::from_u64(r))), val(gamma_log(m, (F64::from_u64(s) + F64::from_u64(r)))), abs(val(gamma_log(m, (F64::from_u64(s) + F64::from_u64(r))))), 0real, 200, gamma_log(m, (F64::from_u64(s) + lit(ONE))), val(gamma_log(m, (F64::from_u64(s) + lit(ONE)))), abs(val(gamma_log(m, (F64::from_u64(s) + lit(ONE))))), 0real, 200);
        lemma_approx_difference(gamma_log(m, (F64::from_u64(s) + F64::from_u64(r))), val(gamma_log(m, (F64::from_u64(s) + F64::from_u64(r)))), abs(val(gamma_log(m, (F64::from_u64(s) + F64::from_u64(r))))), 0real, gamma_log(m, (F64::from_u64(s) + lit(ONE))), val(gamma_log(m, (F64::from_u64(s) + lit(ONE)))), abs(val(gamma_log(m, (F64::from_u64(s) + lit(ONE))))), 0real);
        lemma_bounded_sum((gamma_log(m, (F64::from_u64(s) + F64::from_u64(r))) - gamma_log(m, (F64::from_u64(s) + lit(ONE)))), (val(gamma_log(m, (F64::from_u64(s) + F64::from_u64(r)))) - val(gamma_log(m, (F64::from_u64(s) + lit(ONE))))), (abs(val(gamma_log(m, (F64::from_u64(s) + F64::from_u64(r))))) + abs(val(gamma_log(m, (F64::from_u64(s) + lit(ONE)))))), 2real, 201, gamma_log(m, F64::from_u64(r)), val(gamma_log(m, F64::from_u64(r))), abs(val(gamma_log(m, F64::from_u64(r)))), 0real, 200);
        lemma_approx_difference((gamma_log(m, (F64::from_u64(s) + F64::from_u64(r))) - gamma_log(m, (F64::from_u64(s) + lit(ONE)))), (val(gamma_log(m, (F64::from_u64(s) + F64::from_u64(r)))) - val(gamma_log(m, (F64::from_u64(s) + lit(ONE))))), (abs(val(gamma_log(m, (F64::from_u64(s) + F64::from_u64(r))))) + abs(val(gamma_log(m, (F64::from_u64(s) + lit(ONE)))))), 2real, gamma_log(m, F64::from_u64(r)), val(gamma_log(m, F64::from_u64(r))), abs(val(gamma_log(m, F64::from_u64(r)))), 0real);
        lemma_bounded_product(F64::from_u64(r), val(F64::from_u64(r)), abs(val(F64::from_u64(r))), 0real, 200, ln(m, pr), val(ln(m, pr)), abs(val(ln(m, pr))), 0real, 200);
        lemma_approx_product(F64::from_u64(r), val(F64::from_u64(r)), abs(val(F64::from_u64(r))), 0real, ln(m, pr), val(ln(m, pr)), abs(val(ln(m, pr))), 0real);
        lemma_bounded_sum(((gamma_log(m, (F64::from_u64(s) + F64::from_u64(r))) - gamma_log(m, (F64::from_u64(s) + lit(ONE)))) - gamma_log(m, F64::from_u64(r))), ((val(gamma_log(m, (F64::from_u64(s) + F64::from_u64(r)))) - val(gamma_log(m, (F64::from_u64(s) + lit(ONE))))) - val(gamma_log(m, F64::from_u64(r)))), ((abs(val(gamma_log(m, (F64::from_u64(s) + F64::from_u64(r))))) + abs(val(gamma_log(m, (F64::from_u64(s) + lit(ONE)))))) + abs(val(gamma_log(m, F64::from_u64(r))))), 4real, 202, (F64::from_u64(r) * ln(m, pr)), (val(F64::from_u64(r)) * val(ln(m, pr))), (abs(val(F64::from_u64(r))) * abs(val(ln(m, pr))) + least()), 4real, 401);
        lemma_approx_sum(((gamma_log(m, (F64::from_u64(s) + F64::from_u64(r))) - gamma_log(m, (F64::from_u64(s) + lit(ONE)))) - gamma_log(m, F64::from_u64(r))), ((val(gamma_log(m, (F64::from_u64(s) + F64::from_u64(r)))) - val(gamma_log(m, (F64::from_u64(s) + lit(ONE))))) - val(gamma_log(m, F64::from_u64(r)))), ((abs(val(gamma_log(m, (F64::from_u64(s) + F64::from_u64(r))))) + abs(val(gamma_log(m, (F64::from_u64(s) + lit(ONE)))))) + abs(val(gamma_log(m, F64::from_u64(r))))), 4real, (F64::from_u64(r) * ln(m, pr)), (val(F64::from_u64(r)) * val(ln(m, pr))), (abs(val(F64::from_u64(r))) * abs(val(ln(m, pr))) + least()), 4real);
        lemma_bounded_product(F64::from_u64(s), val(F64::from_u64(s)), abs(val(F64::from_u64(s))), 0real, 200, ln(m, (lit(ONE) - pr)), val(ln(m, (lit(ONE) - pr))), abs(val(ln(m, (lit(ONE) - pr)))), 0real, 200);
        lemma_approx_product(F64::from_u64(s), val(F64::from_u64(s)), abs(val(F64::from_u64(s))), 0real, ln(m, (lit(ONE) - pr)), val(ln(m, (lit(ONE) - pr))), abs(val(ln(m, (lit(ONE) - pr)))), 0real);
        lemma_bounded_sum((((gamma_log(m, (F64::from_u64(s) + F64::from_u64(r))) - gamma_log(m, (F64::from_u64(s) + lit(ONE)))) - gamma_log(m, F64::from_u64(r))) + (F64::from_u64(r) * ln(m, pr))), (((val(gamma_log(m, (F64::from_u64(s) + F64::from_u64(r)))) - val(gamma_log(m, (F64::from_u64(s) + lit(ONE))))) - val(gamma_log(m, F64::from_u64(r)))) + (val(F64::from_u64(r)) * val(ln(m, pr)))), (((abs(val(gamma_log(m, (F64::from_u64(s) + F64::from_u64(r))))) + abs(val(gamma_log(m, (F64::from_u64(s) + lit(ONE)))))) + abs(val(gamma_log(m, F64::from_u64(r))))) + (abs(val(F64::from_u64(r))) * abs(val(ln(m, pr))) + least())), 6real, 402, (F64::from_u64(s) * ln(m, (lit(ONE) - pr))), (val(F64::from_u64(s)) * val(ln(m, (lit(ONE) - pr)))), (abs(val(F64::from_u64(s))) * abs(val(ln(m, (lit(ONE) - pr)))) + least()), 4real, 401);
        lemma_approx_sum((((gamma_log(m, (F64::from_u64(s) + F64::from_u64(r))) - gamma_log(m, (F64::from_u64(s) + lit(ONE)))) - gamma_log(m, F64::from_u64(r))) + (F64::from_u64(r) * ln(m, pr))), (((val(gamma_log(m, (F64::from_u64(s) + F64::from_u64(r)))) - val(gamma_log(m, (F64::from_u64(s) + lit(ONE))))) - val(gamma_log(m, F64::from_u64(r)))) + (val(F64::from_u64(r)) * val(ln(m, pr)))), (((abs(val(gamma_log(m, (F64::from_u64(s) + F64::from_u64(r))))) + abs(val(gamma_log(m, (F64::from_u64(s) + lit(ONE)))))) + abs(val(gamma_log(m, F64::from_u64(r))))) + (abs(val(F64::from_u64(r))) * abs(val(ln(m, pr))) + least())), 6real, (F64::from_u64(s) * ln(m, (lit(ONE) - pr))), (val(F64::from_u64(s)) * val(ln(m, (lit(ONE) - pr)))), (abs(val(F64::from_u64(s))) * abs(val(ln(m, (lit(ONE) - pr)))) + least()), 4real);
    }
    assert(negative_binomial::ln_mass(m, r, pr, s).is_finite());
    lemma_finite_sum((((gamma_log(m, (F64::from_u64(s) + F64::from_u64(r))) - gamma_log(m, (F64::from_u64(s) + lit(ONE)))) - gamma_log(m, F64::from_u64(r))) + (F64::from_u64(r) * ln(m, pr))), (F64::from_u64(s) * ln(m, (lit(ONE) - pr))));
    lemma_finite_sum(((gamma_log(m, (F64::from_u64(s) + F64::from_u64(r))) - gamma_log(m, (F64::from_u64(s) + lit(ONE)))) - gamma_log(m, F64::from_u64(r))), (F64::from_u64(r) * ln(m, pr)));
    lemma_finite_difference((gamma_log(m, (F64::from_u64(s) + F64::from_u64(r))) - gamma_log(m, (F64::from_u64(s) + lit(ONE)))), gamma_log(m, F64::from_u64(r)));
    lemma_finite_difference(gamma_log(m, (F64::from_u64(s) + F64::from_u64(r))), gamma_log(m, (F64::from_u64(s) + lit(ONE))));
    lemma_finite_product(F64::from_u64(r), ln(m, pr));
    lemma_finite_product(F64::from_u64(s), ln(m, (lit(ONE) - pr)));
    lemma_approx_self(F64::from_u64(r));
    lemma_approx_self(F64::from_u64(s));
    lemma_approx_self(gamma_log(m, F64::from_u64(s) + F64::from_u64(r)));
    lemma_approx_self(gamma_log(m, F64::from_u64(s) + lit(ONE)));
    lemma_approx_self(gamma_log(m, F64::from_u64(r)));
    lemma_approx_self(ln(m, pr));
    lemma_approx_self(ln(m, lit(ONE) - pr));
    lemma_approx_difference(gamma_log(m, (F64::from_u64(s) + F64::from_u64(r))), val(gamma_log(m, (F64::from_u64(s) + F64::from_u64(r)))), abs(val(gamma_log(m, (F64::from_u64(s) + F64::from_u64(r))))), 0real, gamma_log(m, (F64::from_u64(s) + lit(ONE))), val(gamma_log(m, (F64::from_u64(s) + lit(ONE)))), abs(val(gamma_log(m, (F64::from_u64(s) + lit(ONE))))), 0real);
    lemma_approx_difference((gamma_log(m, (F64::from_u64(s) + F64::from_u64(r))) - gamma_log(m, (F64::from_u64(s) + lit(ONE)))), (val(gamma_log(m, (F64::from_u64(s) + F64::from_u64(r)))) - val(gamma_log(m, (F64::from_u64(s) + lit(ONE))))), (abs(val(gamma_log(m, (F64::from_u64(s) + F64::from_u64(r))))) + abs(val(gamma_log(m, (F64::from_u64(s) + lit(ONE)))))), 2real, gamma_log(m, F64::from_u64(r)), val(gamma_log(m, F64::from_u64(r))), abs(val(gamma_log(m, F64::from_u64(r)))), 0real);
    lemma_approx_product(F64::from_u64(r), val(F64::from_u64(r)), abs(val(F64::from_u64(r))), 0real, ln(m, pr), val(ln(m, pr)), abs(val(ln(m, pr))), 0real);
    lemma_approx_sum(((gamma_log(m, (F64::from_u64(s) + F64::from_u64(r))) - gamma_log(m, (F64::from_u64(s) + lit(ONE)))) - gamma_log(m, F64::from_u64(r))), ((val(gamma_log(m, (F64::from_u64(s) + F64::from_u64(r)))) - val(gamma_log(m, (F64::from_u64(s) + lit(ONE))))) - val(gamma_log(m, F64::from_u64(r)))), ((abs(val(gamma_log(m, (F64::from_u64(s) + F64::from_u64(r))))) + abs(val(gamma_log(m, (F64::from_u64(s) + lit(ONE)))))) + abs(val(gamma_log(m, F64::from_u64(r))))), 4real, (F64::from_u64(r) * ln(m, pr)), (val(F64::from_u64(r)) * val(ln(m, pr))), (abs(val(F64::from_u64(r))) * abs(val(ln(m, pr))) + least()), 4real);
    lemma_approx_product(F64::from_u64(s), val(F64::from_u64(s)), abs(val(F64::from_u64(s))), 0real, ln(m, (lit(ONE) - pr)), val(ln(m, (lit(ONE) - pr))), abs(val(ln(m, (lit(ONE) - pr)))), 0real);
    lemma_approx_sum((((gamma_log(m, (F64::from_u64(s) + F64::from_u64(r))) - gamma_log(m, (F64::from_u64(s) + lit(ONE)))) - gamma_log(m, F64::from_u64(r))) + (F64::from_u64(r) * ln(m, pr))), (((val(gamma_log(m, (F64::from_u64(s) + F64::from_u64(r)))) - val(gamma_log(m, (F64::from_u64(s) + lit(ONE))))) - val(gamma_log(m, F64::from_u64(r)))) + (val(F64::from_u64(r)) * val(ln(m, pr)))), (((abs(val(gamma_log(m, (F64::from_u64(s) + F64::from_u64(r))))) + abs(val(gamma_log(m, (F64::from_u64(s) + lit(ONE)))))) + abs(val(gamma_log(m, F64::from_u64(r))))) + (abs(val(F64::from_u64(r))) * abs(val(ln(m, pr))) + least())), 6real, (F64::from_u64(s) * ln(m, (lit(ONE) - pr))), (val(F64::from_u64(s)) * val(ln(m, (lit(ONE) - pr)))), (abs(val(F64::from_u64(s))) * abs(val(ln(m, (lit(ONE) - pr)))) + least()), 4real);
    let k = val(F64::from_u64(s));
    let j = val(F64::from_u64(r));
    let c = val(gamma_log(m, F64::from_u64(s) + F64::from_u64(r)));
    let g = val(gamma_log(m, F64::from_u64(s) + lit(ONE)));
    let h = val(gamma_log(m, F64::from_u64(r)));
    let a = val(ln(m, pr));
    let b = val(ln(m, lit(ONE) - pr));
    lemma_approx_wider(negative_binomial::ln_mass(m, r, pr, s), c - g - h + j * a + k * b, ((((abs(val(gamma_log(m, (F64::from_u64(s) + F64::from_u64(r))))) + abs(val(gamma_log(m, (F64::from_u64(s) + lit(ONE)))))) + abs(val(gamma_log(m, F64::from_u64(r))))) + (abs(val(F64::from_u64(r))) * abs(val(ln(m, pr))) + least())) + (abs(val(F64::from_u64(s))) * abs(val(ln(m, (lit(ONE) - pr)))) + least())), 8real, abs(c) + abs(g) + abs(h) + abs(j) * abs(a) + abs(k) * abs(b) + 1real, 40real);
}

/// The probability of a count is the power of the mean with the count, times the
/// exponential of minus the mean, over the factorial of the count: in logarithms, within
/// rounding.
pub proof fn law_poisson_log_mass<M: Fn(Elementary) -> F64>(m: &M, lambda: F64, s: u64)
    requires
        lambda.is_finite() && lambda.gt(lit(ZERO)),
        poisson::ln_mass(m, lambda, s).is_finite() || (ordinary(F64::from_u64(s)) && ordinary(lambda) && ordinary(ln(m, lambda)) && ordinary(gamma_log(m, F64::from_u64(s) + lit(ONE)))),
    ensures
        ({
            let k = val(F64::from_u64(s));
            let a = val(ln(m, lambda));
            let g = val(gamma_log(m, F64::from_u64(s) + lit(ONE)));
            approx(
                poisson::ln_mass(m, lambda, s),
                k * a - val(lambda) - g,
                abs(k) * abs(a) + abs(val(lambda)) + abs(g) + 1real,
                40real,
            )
        }),
{
    lemma_small_values();
    lemma_not_zero(lambda);
    if !poisson::ln_mass(m, lambda, s).is_finite() {
        lemma_approx_self(F64::from_u64(s));
        lemma_approx_self(lambda);
        lemma_approx_self(ln(m, lambda));
        lemma_approx_self(gamma_log(m, F64::from_u64(s) + lit(ONE)));
        lemma_bounded_product(F64::from_u64(s), val(F64::from_u64(s)), abs(val(F64::from_u64(s))), 0real, 200, ln(m, lambda), val(ln(m, lambda)), abs(val(ln(m, lambda))), 0real, 200);
        lemma_approx_product(F64::from_u64(s), val(F64::from_u64(s)), abs(val(F64::from_u64(s))), 0real, ln(m, lambda), val(ln(m, lambda)), abs(val(ln(m, lambda))), 0real);
        lemma_bounded_sum((F64::from_u64(s) * ln(m, lambda)), (val(F64::from_u64(s)) * val(ln(m, lambda))), (abs(val(F64::from_u64(s))) * abs(val(ln(m, lambda))) + least()), 4real, 401, lambda, val(lambda), abs(val(lambda)), 0real, 200);
        lemma_approx_difference((F64::from_u64(s) * ln(m, lambda)), (val(F64::from_u64(s)) * val(ln(m, lambda))), (abs(val(F64::from_u64(s))) * abs(val(ln(m, lambda))) + least()), 4real, lambda, val(lambda), abs(val(lambda)), 0real);
        lemma_bounded_sum(((F64::from_u64(s) * ln(m, lambda)) - lambda), ((val(F64::from_u64(s)) * val(ln(m, lambda))) - val(lambda)), ((abs(val(F64::from_u64(s))) * abs(val(ln(m, lambda))) + least()) + abs(val(lambda))), 6real, 402, gamma_log(m, (F64::from_u64(s) + lit(ONE))), val(gamma_log(m, (F64::from_u64(s) + lit(ONE)))), abs(val(gamma_log(m, (F64::from_u64(s) + lit(ONE))))), 0real, 200);
        lemma_approx_difference(((F64::from_u64(s) * ln(m, lambda)) - lambda), ((val(F64::from_u64(s)) * val(ln(m, lambda))) - val(lambda)), ((abs(val(F64::from_u64(s))) * abs(val(ln(m, lambda))) + least()) + abs(val(lambda))), 6real, gamma_log(m, (F64::from_u64(s) + lit(ONE))), val(gamma_log(m, (F64::from_u64(s) + lit(ONE)))), abs(val(gamma_log(m, (F64::from_u64(s) + lit(ONE))))), 0real);
    }
    assert(poisson::ln_mass(m, lambda, s).is_finite());
    lemma_finite_difference(((F64::from_u64(s) * ln(m, lambda)) - lambda), gamma_log(m, (F64::from_u64(s) + lit(ONE))));
    lemma_finite_difference((F64::from_u64(s) * ln(m, lambda)), lambda);
    lemma_finite_product(F64::from_u64(s), ln(m, lambda));
    lemma_approx_self(F64::from_u64(s));
    lemma_approx_self(lambda);
    lemma_approx_self(ln(m, lambda));
    lemma_approx_self(gamma_log(m, F64::from_u64(s) + lit(ONE)));
    lemma_approx_product(F64::from_u64(s), val(F64::from_u64(s)), abs(val(F64::from_u64(s))), 0real, ln(m, lambda), val(ln(m, lambda)), abs(val(ln(m, lambda))), 0real);
    lemma_approx_difference((F64::from_u64(s) * ln(m, lambda)), (val(F64::from_u64(s)) * val(ln(m, lambda))), (abs(val(F64::from_u64(s))) * abs(val(ln(m, lambda))) + least()), 4real, lambda, val(lambda), abs(val(lambda)), 0real);
    lemma_approx_difference(((F64::from_u64(s) * ln(m, lambda)) - lambda), ((val(F64::from_u64(s)) * val(ln(m, lambda))) - val(lambda)), ((abs(val(F64::from_u64(s))) * abs(val(ln(m, lambda))) + least()) + abs(val(lambda))), 6real, gamma_log(m, (F64::from_u64(s) + lit(ONE))), val(gamma_log(m, (F64::from_u64(s) + lit(ONE)))), abs(val(gamma_log(m, (F64::from_u64(s) + lit(ONE))))), 0real);
    let k = val(F64::from_u64(s));
    let a = val(ln(m, lambda));
    let g = val(gamma_log(m, F64::from_u64(s) + lit(ONE)));
    lemma_approx_wider(poisson::ln_mass(m, lambda, s), k * a - val(lambda) - g, (((abs(val(F64::from_u64(s))) * abs(val(ln(m, lambda))) + least()) + abs(val(lambda))) + abs(val(gamma_log(m, (F64::from_u64(s) + lit(ONE)))))), 8real, abs(k) * abs(a) + abs(val(lambda)) + abs(g) + 1real, 40real);
}

} // verus!
