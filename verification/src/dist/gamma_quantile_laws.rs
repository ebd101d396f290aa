//! The quantiles of the gamma distribution, by its own tails.
use super::gamma;
use crate::consts::{EPSILON, HALF, ONE, THREE, TWO, ZERO};
use crate::dist::crossing_laws::{inner, probability};
use crate::float::bounds::{
    at_least, at_most, lemma_literal, lemma_part, lemma_product, lemma_quotient, lemma_ratio_ge,
    lemma_ratio_le, part,
};
use crate::float::laws::{law_difference_sign, law_integers_round_trip, law_negation, law_product_commutes, law_product_with_one};
use crate::float::model::{lemma_mag_zero, mag, CELL, INF_ENC};
use crate::float::number::{lemma_le_units, lemma_lt_units, lemma_order};
use crate::float::relative::{
    lemma_near_cancel, lemma_near_chain, lemma_near_wider, lemma_round_near, near, SPAN,
};
use crate::float::signed::{lemma_rounded, lemma_sum_units};
use crate::float::{lit, F64};
use crate::functions::{exp, ln, Elementary};
use crate::search::drive::SEARCH_BOUND;
use crate::special::gamma_inc::{
    complement, complement_spec, finite_q_half_integer_spec, gamma_inc_core_spec, gamma_inc_value, moderate_spec,
    try_gamma_inc, GammaIncAcc,
};
use crate::special::gamma_inv::try_gamma_inc_inv;
use crate::special::inverse_laws::lemma_pair;
use crate::special::inverse_undo_laws::{
    bounded_at, gentle, gentle_between, law_inverse_undoes, undone, MOVE,
};
use crate::special::normal_laws::{decays, lemma_complement_in_range, lemma_grid, lemma_small_powers, lemma_unit};
use crate::special::normal_smooth_laws::{lemma_fractions, size};
use crate::special::ratio_laws::{lemma_complement, law_gamma_ratios_are_two_tails, law_two_tails_add_up};
use vstd::arithmetic::power2::{lemma2_to64, lemma2_to64_rest, lemma_pow2_adds, lemma_pow2_pos, pow2};
use vstd::prelude::*;

verus! {

/// The bits of minus one, which stands for no starting point.
pub const NO_START: u64 = 0xBFF0_0000_0000_0000;

/// How far a tail at a quantile may be from the probability asked for: 5/2^15 times the bound
/// `c` on the derivative of the ratios, and 2^-38.
pub open spec fn allowance(c: int) -> int {
    c * part(5, 15) + part(1, 38)
}

/// The inverse of the ratios was found for the pair, by steps or by a first approximation
/// that is good enough, and `y` divided by the unit neither over- nor underflows.
pub open spec fn invertible<M: Fn(Elementary) -> F64>(
    m: &M,
    a: F64,
    p: F64,
    q: F64,
    unit: F64,
    c: int,
) -> bool {
    match try_gamma_inc_inv(m, a, lit(NO_START), p, q) {
        Ok((y, k)) => {
            &&& at_least(y, 1, 900) && y.le(lit(SEARCH_BOUND))
            &&& unit.is_finite() && unit.gt(lit(ZERO))
            &&& at_least(y / unit, 1, 900)
            &&& k > 0 || undone(m, a, true, q, y, c) || undone(m, a, false, p, y, c)
        },
        Err(_) => false,
    }
}

/// Dividing by a unit and multiplying by it again loses little.
proof fn lemma_there_and_back(y: F64, unit: F64)
    requires
        at_least(y, 1, 900) && y.le(lit(SEARCH_BOUND)),
        unit.is_finite() && unit.gt(lit(ZERO)),
        at_least(y / unit, 1, 900),
    ensures
        ((y / unit) * unit).is_finite(),
        ((y / unit) * unit).units() > 0,
        near(y.units(), ((y / unit) * unit).units(), 260),
{
    broadcast use lemma_le_units;
    broadcast use lemma_lt_units;
    lemma_mag_zero(0);
    lemma_part(1, 900);
    let d = pow2(1074) as int;
    lemma_pow2_pos(1074);
    let v = y / unit;
    let uu = unit.units();
    let yu = y.units();
    lemma_quotient(y, unit);
    let num = yu * d;
    lemma_cell_small();
    assert(num >= CELL * uu) by {
        if num < CELL * uu {
            lemma2_to64();
            crate::float::signed::lemma_representable(CELL as int, 0);
            assert(CELL * pow2(0) == CELL);
            lemma_ratio_le(num, uu, CELL as int);
        }
    }
    lemma_round_near(num, uu);
    let vu = v.units();
    // and back
    let w = v * unit;
    lemma_product(v, unit);
    let n2 = vu * uu;
    let e = SPAN as int;
    assert(n2 * e <= num * (e + 129) && num * e <= n2 * (e + 129));
    assert(2 * n2 >= num) by (nonlinear_arith)
        requires
            num * e <= n2 * (e + 129),
            e > 129,
            n2 >= 0,
    ;
    assert(n2 <= 2 * num) by (nonlinear_arith)
        requires
            n2 * e <= num * (e + 129),
            e > 129,
            num >= 0,
    ;
    assert(n2 >= CELL * d) by (nonlinear_arith)
        requires
            2 * n2 >= num,
            num == yu * d,
            yu >= 2 * CELL,
            d > 0,
    ;
    assert(n2 <= (2 * yu) * d) by (nonlinear_arith)
        requires
            n2 <= 2 * num,
            num == yu * d,
    ;
    assert(w.is_finite()) by {
        lemma_double(y);
        lemma_ratio_le(n2, d, 2 * yu);
        lemma_order(w.enc() as int, INF_ENC as int);
    }
    lemma_round_near(n2, d);
    let wu = w.units();
    lemma_order(w.enc() as int, 0);
    lemma_near_wider(num, n2, 129, 129);
    lemma_near_chain(num, n2, wu * d, 129, 129);
    lemma_near_cancel(yu, wu, d, 259);
    lemma_near_wider(yu, wu, 259, 260);
    assert(wu > 0) by (nonlinear_arith)
        requires
            yu * e <= wu * (e + 259),
            yu > 0,
            e > 0,
            wu >= 0,
    ;
}

proof fn lemma_cell_small()
    ensures
        pow2(174) > 2 * CELL,
{
    lemma_pow2_adds(64, 110);
    lemma_pow2_adds(64, 46);
    lemma_pow2_pos(46);
    lemma2_to64();
    lemma2_to64_rest();
    assert(pow2(174) > 2 * CELL) by (nonlinear_arith)
        requires
            pow2(174) == pow2(64) * (pow2(64) * pow2(46)),
            pow2(64) == 0x1_0000_0000_0000_0000,
            pow2(46) > 0,
            CELL == 0x0010_0000_0000_0000,
    ;
}

/// Twice a number that is not too large is a number.
proof fn lemma_double(x: F64)
    requires
        x.units() >= 0,
        x.le(lit(SEARCH_BOUND)),
    ensures
        crate::float::signed::representable(2 * x.units()),
        2 * x.units() < mag(INF_ENC as int),
{
    broadcast use lemma_le_units;
    let e = x.enc() as int;
    lemma_order(e, SEARCH_BOUND as int);
    crate::float::model::lemma_cell_of(e);
    lemma_order(e, INF_ENC as int);
    lemma_mag_zero(0);
    let t = crate::float::model::scale(e);
    let k = crate::float::model::significand(e);
    assert(t <= 2020) by (nonlinear_arith)
        requires
            e == t * CELL + k,
            e <= SEARCH_BOUND,
            k >= 0,
            CELL == 0x0010_0000_0000_0000,
            SEARCH_BOUND == 0x7E37_E43C_8800_759C,
    ;
    lemma_pow2_adds(1, t);
    lemma2_to64();
    let g = pow2(t) as int;
    assert(2 * (k * g) == k * (2 * g)) by (nonlinear_arith);
    crate::float::signed::lemma_representable(k, t + 1);
    crate::float::model::lemma_mag_cell(2046, CELL as int);
    lemma_pow2_adds(t + 1, (2046 - t - 1) as nat);
    lemma_pow2_pos(t + 1);
    vstd::arithmetic::power2::lemma_pow2_strictly_increases(1, (2046 - t - 1) as nat);
    let h = pow2((t + 1) as nat) as int;
    let b = pow2((2046 - t - 1) as nat) as int;
    let c = CELL as int;
    assert(k * h < c * (h * b)) by (nonlinear_arith)
        requires
            0 <= k < 2 * c,
            h > 0,
            b > 2,
            c > 0,
    ;
}

/// Both tails of the incomplete gamma ratios at `w` are those asked for.
spec fn hits<M: Fn(Elementary) -> F64>(m: &M, a: F64, w: F64, p: F64, q: F64, c: int) -> bool {
    let r = gamma_inc_value(m, a, w);
    &&& size(r.0.units() - p.units()) <= allowance(c)
    &&& size(r.1.units() - q.units()) <= allowance(c)
}

proof fn lemma_hits<M: Fn(Elementary) -> F64>(m: &M, a: F64, p: F64, q: F64, unit: F64, c: int)
    requires
        c >= 1,
        !a.is_nan(),
        gentle(m, a, c),
        probability(p) && probability(q),
        size(p.units() + q.units() - part(1, 0)) <= part(1, 50),
        invertible(m, a, p, q, unit, c),
    ensures
        try_gamma_inc_inv(m, a, lit(NO_START), p, q) matches Ok((y, k)) && {
            let v = y / unit;
            &&& v.gt(lit(ZERO))
            &&& hits(m, a, v * unit, p, q, c)
        },
{
    broadcast use lemma_le_units;
    broadcast use lemma_lt_units;
    lemma_mag_zero(0);
    lemma_part(1, 900);
    let (y, k) = try_gamma_inc_inv(m, a, lit(NO_START), p, q)->Ok_0;
    law_inverse_undoes(m, a, lit(NO_START), p, q, c);
    lemma_there_and_back(y, unit);
    let w = (y / unit) * unit;
    lemma_near_wider(y.units(), w.units(), 260, MOVE as int);
    assert(gentle_between(m, a, y, w));
    assert(bounded_at(m, a, y, c));
    assert(bounded_at(m, a, w, c));
    let s = try_gamma_inc(m, a, w)->Ok_0;
    let r = try_gamma_inc(m, a, y)->Ok_0;
    assert(gamma_inc_value(m, a, w) == s);
    law_gamma_ratios_are_two_tails(m, a, w, GammaIncAcc::Max);
    law_two_tails_add_up(s);
    lemma_small_powers();
    lemma_fractions();
    let d = pow2(1074) as int;
    lemma_pow2_pos(1074);
    let scale = mag(crate::special::gamma::rcomp(m, a, y).enc() as int);
    lemma_order(crate::special::gamma::rcomp(m, a, y).enc() as int, 0);
    assert(scale <= c * d);
    lemma_moved(s.0.units() - r.0.units(), scale, c);
    lemma_moved(s.1.units() - r.1.units(), scale, c);
    lemma_allowance(c);
}

proof fn lemma_moved(n: int, scale: int, c: int)
    requires
        size(n) * pow2(1074) <= part(1, 14) * scale + part(1, 40) * pow2(1074),
        scale <= c * pow2(1074),
        c >= 1,
    ensures
        size(n) <= c * part(1, 14) + part(1, 40),
{
    let d = pow2(1074) as int;
    lemma_pow2_pos(1074);
    lemma_part(1, 14);
    let h = part(1, 14);
    assert(h * scale <= (c * h) * d) by (nonlinear_arith)
        requires
            scale <= c * d,
            h >= 0,
    ;
    let b = c * h + part(1, 40);
    assert(size(n) <= b) by (nonlinear_arith)
        requires
            size(n) * d <= (c * h) * d + part(1, 40) * d,
            b == c * h + part(1, 40),
            d > 0,
    ;
}

proof fn lemma_allowance(c: int)
    requires
        c >= 1,
    ensures
        c * part(3, 15) + part(1, 40) + c * part(1, 14) + part(1, 40) + part(1, 50) + part(1, 52)
            <= allowance(c),
        part(1, 50) >= 0,
{
    lemma_small_powers();
    lemma2_to64();
    lemma_pow2_adds(1, 1059);
    lemma_pow2_adds(14, 1022);
    lemma_pow2_adds(12, 1022);
    lemma_pow2_adds(2, 1022);
    lemma_pow2_pos(1022);
    let h = pow2(1059) as int;
    assert(part(3, 15) == 3 * h && part(1, 14) == 2 * h && part(5, 15) == 5 * h);
    assert(c * (3 * h) + c * (2 * h) == c * (5 * h)) by (nonlinear_arith);
}

proof fn lemma_complement_sum(p: F64)
    requires
        probability(p),
    ensures
        probability(lit(ONE) - p),
        size(p.units() + (lit(ONE) - p).units() - part(1, 0)) <= part(1, 50),
{
    broadcast use lemma_le_units;
    lemma_small_powers();
    lemma_unit(p);
    lemma_complement_in_range(p);
    lemma_literal(ONE, 1022, 0x10_0000_0000_0000, 52, 1, 1, 0);
    lemma_part(1, 0);
    law_negation(p);
    lemma_sum_units(lit(ONE), p.negated());
    lemma_grid(lit(ONE).units() - p.units());
    lemma_pow2_adds(3, 1021);
    lemma_pow2_pos(1021);
}

/// The tails of the gamma distribution at its quantile of `p` are `p` and one less `p`, within
/// the allowance of the inverse.
pub proof fn law_gamma_quantile_has_its_tails<M: Fn(Elementary) -> F64>(
    m: &M,
    shape: F64,
    rate: F64,
    p: F64,
    c: int,
)
    requires
        c >= 1,
        !shape.is_nan(),
        gentle(m, shape, c),
        inner(p),
        invertible(m, shape, p, lit(ONE) - p, rate, c),
    ensures
        gamma::quantile(m, shape, rate, p) matches Ok(x) && {
            let q = lit(ONE) - p;
            &&& size(gamma::cdf_at(m, shape, rate, x).units() - p.units()) <= allowance(c)
            &&& size(gamma::ccdf_at(m, shape, rate, x).units() - q.units()) <= allowance(c)
        },
{
    broadcast use lemma_le_units;
    broadcast use lemma_lt_units;
    broadcast use crate::float::number::lemma_equals_units;
    lemma_unit(p);
    lemma_complement_sum(p);
    lemma_hits(m, shape, p, lit(ONE) - p, rate, c);
}

/// The tails of the gamma distribution at its upper quantile of `q` are one less `q` and `q`,
/// within the allowance of the inverse.
pub proof fn law_gamma_upper_quantile_has_its_tails<M: Fn(Elementary) -> F64>(
    m: &M,
    shape: F64,
    rate: F64,
    q: F64,
    c: int,
)
    requires
        c >= 1,
        !shape.is_nan(),
        gentle(m, shape, c),
        inner(q),
        invertible(m, shape, lit(ONE) - q, q, rate, c),
    ensures
        gamma::upper_quantile(m, shape, rate, q) matches Ok(x) && {
            let p = lit(ONE) - q;
            &&& size(gamma::cdf_at(m, shape, rate, x).units() - p.units()) <= allowance(c)
            &&& size(gamma::ccdf_at(m, shape, rate, x).units() - q.units()) <= allowance(c)
        },
{
    broadcast use lemma_le_units;
    broadcast use lemma_lt_units;
    broadcast use crate::float::number::lemma_equals_units;
    lemma_unit(q);
    lemma_complement_sum(q);
    lemma_hits(m, shape, lit(ONE) - q, q, rate, c);
}

/// A rate that is solved for puts the probabilities asked for on both sides of `x`, within
/// the allowance of the inverse.
pub proof fn law_gamma_rate_has_its_tails<M: Fn(Elementary) -> F64>(
    m: &M,
    p: F64,
    q: F64,
    x: F64,
    shape: F64,
    c: int,
)
    requires
        c >= 1,
        shape.is_finite() && shape.gt(lit(ZERO)),
        gentle(m, shape, c),
        probability(p) && probability(q),
        size(p.units() + q.units() - part(1, 0)) <= part(1, 52),
        !(p + q - lit(ONE)).abs().gt(lit(EPSILON)),
        invertible(m, shape, p, q, x, c),
    ensures
        gamma::solve_rate_spec(m, p, q, x, shape) matches Ok(rate) && {
            &&& size(gamma::cdf_at(m, shape, rate, x).units() - p.units()) <= allowance(c)
            &&& size(gamma::ccdf_at(m, shape, rate, x).units() - q.units()) <= allowance(c)
        },
{
    broadcast use lemma_le_units;
    broadcast use lemma_lt_units;
    lemma_unit(p);
    lemma_unit(q);
    lemma_small_powers();
    lemma_pow2_adds(2, 1022);
    lemma_pow2_pos(1022);
    lemma2_to64();
    lemma_hits(m, shape, p, q, x, c);
    let y = try_gamma_inc_inv(m, shape, lit(NO_START), p, q)->Ok_0.0;
    law_product_commutes(y / x, x);
    lemma_three_epsilons();
}

proof fn lemma_three_epsilons()
    ensures
        lit(EPSILON).units() <= (lit(THREE) * lit(EPSILON)).units(),
        !(lit(THREE) * lit(EPSILON)).is_nan(),
        !lit(EPSILON).is_nan(),
{
    lemma_small_powers();
    lemma_literal(EPSILON, 970, 0x10_0000_0000_0000, 52, 1, 1, 52);
    lemma_literal(THREE, 1023, 0x18_0000_0000_0000, 51, 3, 3, 0);
    lemma_product(lit(THREE), lit(EPSILON));
    lemma_pow2_pos(1074);
    lemma_pow2_pos(1022);
    lemma_part(1, 52);
    let d = pow2(1074) as int;
    let g = part(1, 52);
    assert(g * d <= (3 * d) * g) by (nonlinear_arith)
        requires
            g > 0,
            d > 0,
    ;
    lemma_ratio_ge((3 * d) * g, d, g);
}

/// For a shape of one the distribution is exponential: its upper quantile is minus the
/// logarithm of the probability above, over the rate. Where that lies between 1 and 31, the
/// probability above it is the exponential of its negative.
pub proof fn law_exponential_upper_quantile<M: Fn(Elementary) -> F64>(m: &M, shape: F64, rate: F64, q: F64)
    requires
        decays(m),
        shape.equals(lit(ONE)),
        inner(q),
        q.lt(lit(0x3FEC_CCCC_CCCC_CCCD /* 0.9 */)),
    ensures
        ({
            let x = ln(m, q).negated() / rate;
            let w = x * rate;
            &&& gamma::upper_quantile(m, shape, rate, q) == Ok::<F64, gamma::GammaError>(x)
            &&& x.gt(lit(ZERO)) && lit(ONE).le(w) && w.lt(lit(0x403F_0000_0000_0000 /* 31.0 */))
                ==> gamma::ccdf_at(m, shape, rate, x) == exp(m, w.negated())
        }),
{
    broadcast use lemma_le_units;
    broadcast use lemma_lt_units;
    broadcast use crate::float::number::lemma_equals_units;
    lemma_unit(q);
    lemma_complement_sum(q);
    lemma_pair(q);
    lemma_small_powers();
    lemma_exponential(m, shape, (ln(m, q).negated() / rate) * rate);
    law_difference_sign(lit(ONE), q);
}

/// For a shape of one the quantile is minus the logarithm of the probability above, over the
/// rate.
pub proof fn law_exponential_quantile<M: Fn(Elementary) -> F64>(m: &M, shape: F64, rate: F64, p: F64)
    requires
        decays(m),
        shape.equals(lit(ONE)),
        inner(p),
        (lit(ONE) - p).lt(lit(0x3FEC_CCCC_CCCC_CCCD /* 0.9 */)),
    ensures
        ({
            let x = ln(m, lit(ONE) - p).negated() / rate;
            let w = x * rate;
            &&& gamma::quantile(m, shape, rate, p) == Ok::<F64, gamma::GammaError>(x)
            &&& x.gt(lit(ZERO)) && lit(ONE).le(w) && w.lt(lit(0x403F_0000_0000_0000 /* 31.0 */))
                ==> gamma::ccdf_at(m, shape, rate, x) == exp(m, w.negated())
        }),
{
    broadcast use lemma_le_units;
    broadcast use lemma_lt_units;
    broadcast use crate::float::number::lemma_equals_units;
    lemma_unit(p);
    lemma_complement_sum(p);
    lemma_pair(p);
    lemma_small_powers();
    lemma_exponential(m, shape, (ln(m, lit(ONE) - p).negated() / rate) * rate);
    law_difference_sign(lit(ONE), p);
}

/// The upper ratio for a parameter of one is an exponential.
proof fn lemma_exponential<M: Fn(Elementary) -> F64>(m: &M, a: F64, w: F64)
    requires
        decays(m),
        a.equals(lit(ONE)),
    ensures
        lit(ONE).le(w) && w.lt(lit(0x403F_0000_0000_0000 /* 31.0 */)) ==> gamma_inc_value(m, a, w).1 == exp(
            m,
            w.negated(),
        ),
{
    broadcast use lemma_le_units;
    broadcast use lemma_lt_units;
    broadcast use crate::float::number::lemma_equals_units;
    lemma_one_and_two();
    lemma_mag_zero(0);
    lemma_small_powers();
    lemma_literal(ONE, 1022, 0x10_0000_0000_0000, 52, 1, 1, 0);
    lemma_order(a.enc() as int, ONE as int);
    lemma_order(ONE as int, 0x4034_0000_0000_0000);
    if lit(ONE).le(w) && w.lt(lit(0x403F_0000_0000_0000)) {
        assert(a == lit(ONE));
        lemma_order(w.enc() as int, 0);
        law_product_with_one(w);
        law_negation(w);
        let e = exp(m, w.negated());
        assert(w.negated().le(lit(ZERO)));
        lemma_complement_within(e);
        lemma_order(ONE as int, TWO as int);
    }
    reveal(gamma_inc_core_spec);
    reveal(moderate_spec);
    reveal(finite_q_half_integer_spec);
}

/// One and two as counts.
proof fn lemma_one_and_two()
    ensures
        lit(ONE) + lit(ONE) == lit(TWO),
        lit(TWO).to_u64() == 2,
        F64::from_u64(2) == lit(TWO),
        F64::from_u64(1) == lit(ONE),
{
    lemma_small_powers();
    let d = pow2(1074) as int;
    lemma_pow2_pos(1074);
    lemma_part(1, 0);
    lemma_part(2, 0);
    lemma_mag_zero(0);
    lemma_literal(ONE, 1022, 0x10_0000_0000_0000, 52, 1, 1, 0);
    lemma_literal(TWO, 1023, 0x10_0000_0000_0000, 51, 2, 2, 0);
    lemma_sum_units(lit(ONE), lit(ONE));
    lemma_rounded(2 * d, 2 * d);
    let s = lit(ONE) + lit(ONE);
    lemma_order(s.enc() as int, TWO as int);
    lemma_order(s.enc() as int, 0);
    reveal(F64::from_u64_spec);
    lemma_ratio_le(1 * d, 1, d);
    lemma_ratio_ge(1 * d, 1, d);
    lemma_ratio_le(2 * d, 1, 2 * d);
    lemma_ratio_ge(2 * d, 1, 2 * d);
    lemma_order(F64::from_u64(1).enc() as int, ONE as int);
    lemma_order(F64::from_u64(2).enc() as int, TWO as int);
    law_integers_round_trip(2);
}

/// The complement of a probability is one.
proof fn lemma_complement_within(e: F64)
    requires
        probability(e),
    ensures
        lit(ZERO).le(complement(e)) && complement(e).le(lit(ONE)),
{
    lemma_unit(e);
    lemma_complement(e);
    reveal(complement_spec);
    lemma_small_powers();
    lemma_literal(HALF, 1021, 0x10_0000_0000_0000, 52, 1, 1, 1);
    lemma_part(1, 0);
    lemma_part(1, 1);
    lemma_pow2_adds(1, 1073);
    law_negation(e);
    let n = lit(HALF).units() - e.units();
    lemma_sum_units(lit(HALF), e.negated());
    lemma_rounded(n, part(1, 1));
    lemma_rounded(-part(1, 1), n);
    lemma_rounded(part(1, 1), 0);
    let v = lit(HALF) - e;
    lemma_sum_units(lit(HALF), v);
    lemma_grid(lit(HALF).units() + v.units());
    lemma_unit(complement(e));
}

} // verus!
