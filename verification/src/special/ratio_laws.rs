//! Laws of the incomplete gamma and beta function ratios.
use crate::consts::{EPSILON, HALF, ONE, TWO, ZERO};
use crate::float::{lit, F64};
use crate::float::bounds::{
    lemma_literal, lemma_part, lemma_product_at_most, lemma_quotient, lemma_ratio_ge,
    lemma_ratio_le, part,
};
use crate::float::laws::{
    law_negation, law_order, law_product_commutes, law_sign_and_zero, law_sum_commutes,
    law_sum_of_negated,
};
use crate::float::model::{lemma_mag_zero, mag, round_ratio, CELL, INF_ENC};
use crate::float::number::{lemma_equals_units, lemma_le_units, lemma_lt_units, lemma_order};
use crate::float::relative::{lemma_finite_round, lemma_rounded_near, SPAN};
use crate::float::signed::{lemma_rounded, lemma_sum_units, lemma_units_representable};
use crate::functions::Elementary;
use crate::special::beta_inc::{
    beta_inc_inner, beta_inc_inner_spec, from_lower_spec, from_upper_spec, large_branch_spec,
    small_branch_spec, try_beta_inc, BetaIncError,
};
use crate::special::gamma_inc::{
    asymptotic_expansion_q_spec, below_one_spec, complement, complement_spec,
    continued_fraction_spec, finite_q_half_integer_spec, from_scale_spec, gamma_inc_core,
    gamma_inc_core_spec, large_spec, moderate_spec, one_half_spec, settled_spec, taylor_finish_spec,
    taylor_p_over_r_spec, taylor_p_over_xa_spec, temme_finish_spec, temme_for_l_eq_1_spec,
    temme_general_spec, try_gamma_inc, try_gamma_inc_with_acc, GammaIncAcc, GammaIncError,
};
use crate::special::normal_laws::{lemma_grid, lemma_small_powers, lemma_unit};
use vstd::arithmetic::div_mod::{lemma_div_pos_is_pos, lemma_fundamental_div_mod, lemma_mod_bound};
use vstd::arithmetic::power2::{lemma_pow2_adds, lemma_pow2_pos, pow2};
use vstd::prelude::*;

verus! {

/// One of the two probabilities is one minus the other, taken in two steps of one
/// half, or all of the distribution lies on one side.
pub open spec fn two_tails(r: (F64, F64)) -> bool {
    ||| r.1 == complement(r.0)
    ||| r.0 == complement(r.1)
    ||| r == (lit(ZERO), lit(ONE))
    ||| r == (lit(ONE), lit(ZERO))
}

/// The ratios of the incomplete gamma function are the two tails of a distribution, at
/// every accuracy, unless they are reported as indeterminate.
pub proof fn law_gamma_ratios_are_two_tails<M: Fn(Elementary) -> F64>(m: &M, a: F64, x: F64, acc: GammaIncAcc)
    ensures
        try_gamma_inc_with_acc(m, a, x, acc) matches Ok(r) ==> two_tails(r),
        try_gamma_inc(m, a, x) matches Ok(r) ==> two_tails(r),
{
    lemma_core_two_tails(m, a, x, acc);
    lemma_core_two_tails(m, a, x, GammaIncAcc::Max);
    assert(lit(TWO).equals(lit(TWO))) by {
        broadcast use lemma_equals_units;
    }
}

proof fn lemma_core_two_tails<M: Fn(Elementary) -> F64>(m: &M, a: F64, x: F64, acc: GammaIncAcc)
    ensures
        two_tails(gamma_inc_core(m, a, x, acc)) || gamma_inc_core(m, a, x, acc).0 == lit(TWO),
{
    reveal(gamma_inc_core_spec);
    reveal(settled_spec);
    reveal(below_one_spec);
    reveal(moderate_spec);
    reveal(large_spec);
    reveal(one_half_spec);
    reveal(taylor_p_over_xa_spec);
    reveal(taylor_finish_spec);
    reveal(continued_fraction_spec);
    reveal(finite_q_half_integer_spec);
    reveal(from_scale_spec);
    reveal(taylor_p_over_r_spec);
    reveal(asymptotic_expansion_q_spec);
    reveal(temme_for_l_eq_1_spec);
    reveal(temme_general_spec);
    reveal(temme_finish_spec);
}

/// At an argument of zero nothing lies below, and for a parameter of zero nothing lies
/// above.
pub proof fn law_gamma_ratios_at_zero<M: Fn(Elementary) -> F64>(m: &M, a: F64)
    requires
        a.is_finite(),
        a.gt(lit(ZERO)),
    ensures
        try_gamma_inc(m, a, lit(ZERO)) == Ok::<(F64, F64), GammaIncError>((lit(ZERO), lit(ONE))),
        try_gamma_inc(m, lit(ZERO), a) == Ok::<(F64, F64), GammaIncError>((lit(ONE), lit(ZERO))),
{
    reveal(gamma_inc_core_spec);
    reveal(settled_spec);
    law_sign_and_zero(a);
    law_sign_and_zero(lit(ZERO));
    law_product_commutes(a, lit(ZERO));
    let z = a * lit(ZERO);
    assert(z.equals(lit(ZERO))) by {
        reveal(F64::spec_mul);
        lemma_mag_zero(0);
        let u = crate::float::model::mag(a.enc() as int);
        assert(u * 0 == 0);
        vstd::arithmetic::power2::lemma_pow2_pos(1074);
        crate::float::arith::lemma_round_zero(vstd::arithmetic::power2::pow2(1074) as int);
        law_sign_and_zero(z);
    }
    law_order(lit(ZERO), a, a);
    law_order(a, lit(ZERO), a);
    assert(!lit(ZERO).equals(lit(TWO)) && !lit(ONE).equals(lit(TWO))) by {
        broadcast use lemma_equals_units;
        crate::float::number::lemma_order(ZERO as int, TWO as int);
        crate::float::number::lemma_order(ONE as int, TWO as int);
    }
}

/// The errors of the incomplete gamma function come exactly for a negative parameter, a
/// negative argument, two zeros, or the report that nothing can be told.
pub proof fn law_gamma_ratio_errors<M: Fn(Elementary) -> F64>(m: &M, a: F64, x: F64, acc: GammaIncAcc)
    ensures
        ({
            let r = try_gamma_inc_with_acc(m, a, x, acc);
            let o = lit(ZERO);
            &&& r == Err::<(F64, F64), GammaIncError>(GammaIncError::ANegative(a)) <==> a.lt(o)
            &&& r == Err::<(F64, F64), GammaIncError>(GammaIncError::XNegative(x)) <==> !a.lt(o) && x.lt(o)
            &&& r == Err::<(F64, F64), GammaIncError>(GammaIncError::BothZero) <==> a.equals(o) && x.equals(o)
        }),
{
    law_order(a, lit(ZERO), a);
    law_order(x, lit(ZERO), x);
    broadcast use lemma_lt_units;
    broadcast use lemma_equals_units;
}

/// The ratios of the incomplete beta function are the two tails of a distribution,
/// unless both parameters are tiny: there they are shares of the sum of the parameters.
pub proof fn law_beta_ratios_are_two_tails<M: Fn(Elementary) -> F64>(m: &M, a: F64, b: F64, x: F64, y: F64)
    ensures
        try_beta_inc(m, a, b, x, y) matches Ok(r) ==> two_tails(r) || r == (b / (a + b), a / (a + b)),
{
    reveal(beta_inc_inner_spec);
    reveal(small_branch_spec);
    reveal(large_branch_spec);
    reveal(from_lower_spec);
    reveal(from_upper_spec);
}

/// At either end of the unit interval all of the distribution lies on one side.
pub proof fn law_beta_ratios_at_the_ends<M: Fn(Elementary) -> F64>(m: &M, a: F64, b: F64)
    requires
        a.gt(lit(ZERO)),
        b.gt(lit(ZERO)),
    ensures
        try_beta_inc(m, a, b, lit(ZERO), lit(ONE)) == Ok::<(F64, F64), BetaIncError>((lit(ZERO), lit(ONE))),
        try_beta_inc(m, a, b, lit(ONE), lit(ZERO)) == Ok::<(F64, F64), BetaIncError>((lit(ONE), lit(ZERO))),
{
    law_order(a, lit(ZERO), a);
    law_order(b, lit(ZERO), b);
    law_order(lit(ZERO), a, a);
    law_order(lit(ZERO), b, b);
    assert(!a.equals(lit(ZERO)) && !b.equals(lit(ZERO))) by {
        broadcast use lemma_lt_units;
        broadcast use lemma_equals_units;
    }
    lemma_unit_sums();
}

/// What the consistency test makes of the two ends.
proof fn lemma_unit_sums()
    ensures
        ({
            let o = lit(ZERO);
            let i = lit(ONE);
            let h = lit(HALF);
            let tol = lit(crate::consts::THREE) * lit(EPSILON);
            &&& o.le(o) && o.le(i) && i.le(i)
            &&& !((o + i - h - h).abs().gt(tol))
            &&& !((i + o - h - h).abs().gt(tol))
            &&& o.equals(o)
            &&& !i.equals(o)
        }),
{
    let o = lit(ZERO);
    let i = lit(ONE);
    let h = lit(HALF);
    assert(o.le(o) && o.le(i) && i.le(i)) by {
        broadcast use lemma_le_units;
        lemma_mag_zero(ONE as int);
    }
    law_sum_commutes(o, i);
    crate::float::laws::law_sum_with_zero(i);
    assert(i - h == h && h - h == o) by {
        lemma_half();
    }
    law_sign_and_zero(o);
    law_sign_and_zero(i);
    let tol = lit(crate::consts::THREE) * lit(EPSILON);
    crate::float::laws::law_product_is_nearest(lit(crate::consts::THREE), lit(EPSILON));
    assert(!o.abs().gt(tol)) by {
        broadcast use lemma_lt_units;
        lemma_mag_zero(tol.enc() as int);
    }
}

proof fn lemma_half()
    ensures
        lit(ONE) - lit(HALF) == lit(HALF),
        lit(HALF) - lit(HALF) == lit(ZERO),
{
    crate::float::laws::law_difference_with_itself(lit(HALF));
    reveal(F64::spec_add);
    law_negation(lit(HALF));
    crate::float::laws::lemma_one();
    crate::float::round::lemma_powers();
    crate::float::model::lemma_mag_cell(1021, crate::float::model::CELL as int);
    vstd::arithmetic::power2::lemma_pow2_adds(52, 1021);
    vstd::arithmetic::power2::lemma_pow2_unfold(1074);
    vstd::arithmetic::power2::lemma_pow2_pos(1073);
    let half = crate::float::model::mag(HALF as int);
    assert(half == vstd::arithmetic::power2::pow2(1073));
    assert(crate::float::model::mag(ONE as int) - half == half);
    crate::float::model::lemma_round_exact(HALF, 1);
    assert(half * 1 == half);
}

/// The distance from the mean that decides from which side the ratios are computed.
pub open spec fn beta_lambda(a: F64, b: F64, x: F64, y: F64) -> F64 {
    if a.gt(b) {
        (a + b) * y - b
    } else {
        a - (a + b) * x
    }
}

/// Both parameters are so small that the ratios are shares of their sum.
pub open spec fn both_tiny(a: F64, b: F64) -> bool {
    a.max(b).lt(lit(0x3F50_624D_D2F1_A9FC) * lit(EPSILON).max(lit(0x3CD2_03AF_9EE7_5616)))
}

/// The ratios for `a` and `b` at `x` and those for `b` and `a` at `y` are computed from
/// opposite sides, or as shares of the sum of the parameters.
pub open spec fn opposite_sides(a: F64, b: F64, x: F64, y: F64) -> bool {
    both_tiny(a, b) || if a.min(b).le(lit(ONE)) {
        x.gt(lit(HALF)) <==> !y.gt(lit(HALF))
    } else {
        let l = beta_lambda(a, b, x, y);
        &&& a.equals(b) ==> beta_lambda(b, a, y, x) == l.negated()
        &&& !l.is_nan()
        &&& l.enc() != 0
    }
}

/// Exchanging the parameters and the arguments exchanges the ratios: for two tiny
/// parameters always; where one parameter is at most one, for exactly one argument above
/// one half; else for a distance from the mean that is not zero, and is the opposite one
/// after the exchange, as it always is for parameters that differ.
pub proof fn law_beta_ratios_reflect<M: Fn(Elementary) -> F64>(m: &M, a: F64, b: F64, x: F64, y: F64)
    requires
        a.is_finite(),
        b.is_finite(),
        a.gt(lit(ZERO)),
        b.gt(lit(ZERO)),
        opposite_sides(a, b, x, y),
    ensures
        beta_inc_inner(m, b, a, y, x) == (beta_inc_inner(m, a, b, x, y).1, beta_inc_inner(m, a, b, x, y).0),
{
    reveal(beta_inc_inner_spec);
    assert(a.enc() != 0) by {
        law_sign_and_zero(a);
    }
    super::laws::law_min_max_commute(a, b);
    law_sum_commutes(a, b);
    if !both_tiny(a, b) && !a.min(b).le(lit(ONE)) {
        let l = beta_lambda(a, b, x, y);
        let k = beta_lambda(b, a, y, x);
        law_order(a, b, a);
        let s = a + b;
        if a.gt(b) {
            // l = s y - b, k = b - s y
            let v = s * y;
            law_sum_of_negated(v, b.negated());
            law_negation(b);
            law_negation(v);
            law_sum_commutes(v.negated(), b);
            assert(k == l.negated());
        } else if b.gt(a) {
            // l = a - s x, k = s x - a
            let v = s * x;
            law_sum_of_negated(a, v.negated());
            law_negation(a);
            law_negation(v);
            law_sum_commutes(a.negated(), v);
            assert(k == l.negated());
        }
        law_negation(l);
        law_sign_and_zero(l);
        law_sign_and_zero(k);
    }
}

/// Exchanging the parameters and the arguments exchanges the ratios that are reported, the
/// ends of the unit interval included.
pub proof fn law_reported_beta_ratios_reflect<M: Fn(Elementary) -> F64>(
    m: &M,
    a: F64,
    b: F64,
    x: F64,
    y: F64,
)
    requires
        a.is_finite(),
        b.is_finite(),
        a.gt(lit(ZERO)),
        b.gt(lit(ZERO)),
        opposite_sides(a, b, x, y),
    ensures
        try_beta_inc(m, a, b, x, y) matches Ok(r) ==> try_beta_inc(m, b, a, y, x) == Ok::<
            (F64, F64),
            BetaIncError,
        >((r.1, r.0)),
{
    broadcast use lemma_lt_units;
    broadcast use lemma_equals_units;
    law_sum_commutes(x, y);
    law_beta_ratios_reflect(m, a, b, x, y);
    if x.equals(lit(ZERO)) && y.equals(lit(ZERO)) {
        lemma_zeros_do_not_add_up(x, y);
    }
}

/// Two zeros are no consistent pair.
proof fn lemma_zeros_do_not_add_up(x: F64, y: F64)
    requires
        x.equals(lit(ZERO)),
        y.equals(lit(ZERO)),
    ensures
        (x + y - lit(HALF) - lit(HALF)).abs().gt(lit(crate::consts::THREE) * lit(EPSILON)),
{
    broadcast use lemma_equals_units;
    broadcast use lemma_lt_units;
    lemma_small_powers();
    lemma_mag_zero(0);
    crate::float::number::lemma_order(x.enc() as int, 0);
    crate::float::number::lemma_order(y.enc() as int, 0);
    lemma_literal(HALF, 1021, 0x10_0000_0000_0000, 52, 1, 1, 1);
    lemma_literal(EPSILON, 970, 0x10_0000_0000_0000, 52, 1, 1, 52);
    lemma_literal(crate::consts::THREE, 1023, 0x18_0000_0000_0000, 51, 3, 3, 0);
    crate::float::bounds::lemma_product_at_most(lit(crate::consts::THREE), lit(EPSILON), 3, 0, 1, 52);
    lemma_part(1, 1);
    lemma_part(1, 0);
    lemma_part(0, 0);
    vstd::arithmetic::power2::lemma_pow2_adds(1, 1073);
    let h = lit(HALF);
    law_negation(h);
    let s = x + y;
    lemma_sum_units(x, y);
    lemma_rounded(0, 0);
    let u = s - h;
    lemma_sum_units(s, h.negated());
    lemma_rounded(part(1, 1), 0);
    let v = u - h;
    lemma_sum_units(u, h.negated());
    lemma_rounded(part(1, 0), 0);
    law_negation(v);
    crate::float::number::lemma_order(v.enc() as int, 0);
    vstd::arithmetic::power2::lemma_pow2_adds(52, 1022);
    vstd::arithmetic::power2::lemma_pow2_pos(1022);
}

/// A consistent pair of which both are at most one half, or neither, lies within 2^-50 of one
/// half: reflection fails to be exact, where one parameter is at most one, nowhere else.
pub proof fn law_sides_are_opposite(x: F64, y: F64)
    requires
        lit(ZERO).le(x) && x.le(lit(ONE)),
        lit(ZERO).le(y) && y.le(lit(ONE)),
        !(x + y - lit(HALF) - lit(HALF)).abs().gt(lit(crate::consts::THREE) * lit(EPSILON)),
        x.gt(lit(HALF)) <==> y.gt(lit(HALF)),
    ensures
        -part(1, 50) <= x.units() - lit(HALF).units() <= part(1, 50),
        -part(1, 50) <= y.units() - lit(HALF).units() <= part(1, 50),
{
    broadcast use lemma_lt_units;
    lemma_small_powers();
    lemma_unit(x);
    lemma_unit(y);
    lemma_mag_zero(0);
    lemma_literal(HALF, 1021, 0x10_0000_0000_0000, 52, 1, 1, 1);
    lemma_literal(EPSILON, 970, 0x10_0000_0000_0000, 52, 1, 1, 52);
    lemma_literal(crate::consts::THREE, 1023, 0x18_0000_0000_0000, 51, 3, 3, 0);
    crate::float::bounds::lemma_product_at_most(lit(crate::consts::THREE), lit(EPSILON), 3, 0, 1, 52);
    let g = vstd::arithmetic::power2::pow2(1022) as int;
    vstd::arithmetic::power2::lemma_pow2_pos(1022);
    vstd::arithmetic::power2::lemma_pow2_adds(52, 1022);
    vstd::arithmetic::power2::lemma_pow2_adds(51, 1022);
    vstd::arithmetic::power2::lemma_pow2_adds(2, 1022);
    vstd::arithmetic::power2::lemma2_to64();
    assert(part(1, 0) == 0x10_0000_0000_0000 * g);
    assert(part(1, 1) == 0x8_0000_0000_0000 * g);
    assert(part(1, 50) == 4 * g && part(3, 52) == 3 * g);
    let h = lit(HALF);
    let d = part(1, 0);
    lemma_part(1, 0);
    lemma_part(2, 0);
    lemma_part(1, 1);
    law_negation(h);
    // the sums, in one direction
    let n = x.units() + y.units();
    let s = x + y;
    lemma_sum_units(x, y);
    lemma_part(0xF_FFFF_FFFF_FFFC, 52);
    lemma_part(0x10_0000_0000_0004, 52);
    let lo = part(0xF_FFFF_FFFF_FFFC, 52);
    let hi = part(0x10_0000_0000_0004, 52);
    assert(lo == d - 4 * g && hi == d + 4 * g);
    lemma_rounded(n, lo);
    lemma_rounded(hi, n);
    lemma_rounded(lo, 0);
    lemma_rounded(0, n);
    lemma_rounded(n, part(2, 0));
    lemma_rounded(part(2, 0), 0);
    let u = s - h;
    let v = u - h;
    lemma_sum_units(s, h.negated());
    let k = s.units() - part(1, 1);
    lemma_part(0x7_FFFF_FFFF_FFFC, 52);
    lemma_part(0x8_0000_0000_0004, 52);
    let lo2 = part(0x7_FFFF_FFFF_FFFC, 52);
    let hi2 = part(0x8_0000_0000_0004, 52);
    assert(lo2 == part(1, 1) - 4 * g && hi2 == part(1, 1) + 4 * g);
    lemma_rounded(k, lo2);
    lemma_rounded(hi2, k);
    lemma_rounded(lo2, 0);
    lemma_rounded(-part(1, 1), k);
    lemma_rounded(k, part(2, 0));
    lemma_rounded(part(1, 1), 0);
    lemma_sum_units(u, h.negated());
    let j = u.units() - part(1, 1);
    lemma_part(4, 52);
    lemma_rounded(j, -part(4, 52));
    lemma_rounded(part(4, 52), j);
    lemma_rounded(part(4, 52), 0);
    law_negation(v);
    crate::float::number::lemma_order(v.enc() as int, 0);
    assert(d - 4 * g <= n <= d + 4 * g);
}

/// Two pairs of ratios lie within `n` of each other.
pub open spec fn within_of(r: (F64, F64), s: (F64, F64), n: int) -> bool {
    &&& -n <= r.0.units() - s.0.units() <= n
    &&& -n <= r.1.units() - s.1.units() <= n
}

/// Where both orders are computed from the same side, exchanging the parameters and the
/// arguments exchanges the ratios to within twice as much as they move from there to a pair
/// of arguments next to it that is computed from opposite sides.
pub proof fn law_beta_ratios_reflect_nearly<M: Fn(Elementary) -> F64>(
    m: &M,
    a: F64,
    b: F64,
    x: F64,
    y: F64,
    x2: F64,
    y2: F64,
    n: int,
)
    requires
        a.is_finite(),
        b.is_finite(),
        a.gt(lit(ZERO)),
        b.gt(lit(ZERO)),
        opposite_sides(a, b, x2, y2),
        within_of(beta_inc_inner(m, a, b, x, y), beta_inc_inner(m, a, b, x2, y2), n),
        within_of(beta_inc_inner(m, b, a, y, x), beta_inc_inner(m, b, a, y2, x2), n),
    ensures
        within_of(
            beta_inc_inner(m, b, a, y, x),
            (beta_inc_inner(m, a, b, x, y).1, beta_inc_inner(m, a, b, x, y).0),
            2 * n,
        ),
{
    law_beta_ratios_reflect(m, a, b, x2, y2);
}

/// The ratios at full accuracy are those without an accuracy.
pub proof fn law_full_accuracy<M: Fn(Elementary) -> F64>(m: &M, a: F64, x: F64)
    ensures
        try_gamma_inc(m, a, x) == try_gamma_inc_with_acc(m, a, x, GammaIncAcc::Max),
{
}

/// Two tails that both lie between zero and one add up to one within 2^-52.
pub proof fn law_two_tails_add_up(r: (F64, F64))
    requires
        two_tails(r),
        lit(ZERO).le(r.0) && r.0.le(lit(ONE)),
        lit(ZERO).le(r.1) && r.1.le(lit(ONE)),
    ensures
        -part(1, 52) <= r.0.units() + r.1.units() - part(1, 0) <= part(1, 52),
{
    lemma_part(1, 52);
    if r.1 == complement(r.0) {
        lemma_complement(r.0);
    } else if r.0 == complement(r.1) {
        lemma_complement(r.1);
    } else {
        lemma_complement(lit(ONE));
        crate::float::model::lemma_mag_zero(0);
    }
}

pub proof fn lemma_complement(p: F64)
    requires
        lit(ZERO).le(p) && p.le(lit(ONE)),
    ensures
        -part(1, 52) <= p.units() + complement(p).units() - part(1, 0) <= part(1, 52),
        lit(ONE).units() == part(1, 0),
{
    reveal(complement_spec);
    lemma_unit(p);
    lemma_small_powers();
    lemma_literal(HALF, 1021, 0x10_0000_0000_0000, 52, 1, 1, 1);
    lemma_literal(ONE, 1022, 0x10_0000_0000_0000, 52, 1, 1, 0);
    lemma_part(1, 0);
    lemma_part(1, 1);
    lemma_part(1, 52);
    lemma_part(1, 53);
    vstd::arithmetic::power2::lemma_pow2_adds(1, 1073);
    vstd::arithmetic::power2::lemma_pow2_adds(1, 1021);
    assert(2 * part(1, 1) == part(1, 0));
    assert(2 * part(1, 53) == part(1, 52));
    law_negation(p);
    let d = lit(HALF) - p;
    let n = lit(HALF).units() - p.units();
    lemma_sum_units(lit(HALF), p.negated());
    lemma_rounded(n, part(1, 1));
    lemma_rounded(-part(1, 1), n);
    lemma_rounded(part(1, 1), part(1, 1));
    if n >= 0 {
        lemma_grid(n);
    } else {
        lemma_grid(-n);
        lemma_rounded(-n, 0);
    }
    lemma_sum_units(lit(HALF), d);
    lemma_grid(lit(HALF).units() + d.units());
}

/// A ratio of at most one is rounded by at most 2^-53.
proof fn lemma_ratio_grid(num: int, den: int)
    requires
        den > 0,
        0 <= num <= part(1, 0) * den,
    ensures
        ({
            let v = mag(round_ratio(num, den) as int);
            &&& -(part(1, 53) * den) <= v * den - num <= part(1, 53) * den
            &&& 0 <= v <= part(1, 0)
            &&& round_ratio(num, den) <= INF_ENC
        }),
{
    let g = pow2(1021) as int;
    lemma_pow2_pos(1021);
    lemma_pow2_adds(53, 1021);
    lemma_small_powers();
    assert(pow2(53) == 2 * CELL);
    assert(part(1, 0) == (2 * CELL) * g && part(1, 53) == g);
    let gd = g * den;
    assert(gd > 0) by (nonlinear_arith)
        requires gd == g * den, g > 0, den > 0;
    let q = num / gd;
    lemma_fundamental_div_mod(num, gd);
    lemma_mod_bound(num, gd);
    lemma_div_pos_is_pos(num, gd);
    assert(gd * q == (q * g) * den) by (nonlinear_arith)
        requires gd == g * den;
    assert(((q + 1) * g) * den == (q * g) * den + gd) by (nonlinear_arith)
        requires gd == g * den;
    assert(part(1, 0) * den == (2 * CELL) * gd) by (nonlinear_arith)
        requires part(1, 0) == (2 * CELL) * g, gd == g * den;
    assert(q <= 2 * CELL) by (nonlinear_arith)
        requires gd * q <= (2 * CELL) * gd, gd > 0;
    lemma_part(1, 0);
    lemma_ratio_le(num, den, part(1, 0));
    let v = mag(round_ratio(num, den) as int);
    if q == 2 * CELL {
        lemma_ratio_ge(num, den, part(1, 0));
        assert(v * den == (q * g) * den);
    } else {
        lemma_part(q, 53);
        if q + 1 < 2 * CELL {
            lemma_part(q + 1, 53);
        } else {
            assert((q + 1) * g == part(1, 0));
        }
        lemma_ratio_ge(num, den, q * g);
        lemma_ratio_le(num, den, (q + 1) * g);
        assert((q * g) * den <= v * den <= ((q + 1) * g) * den) by (nonlinear_arith)
            requires q * g <= v <= (q + 1) * g, den > 0;
    }
}

/// The shares of two numbers in their sum add up to one within 2^-51.
proof fn lemma_shares(a: F64, b: F64)
    requires
        a.is_finite() && 0 < a.units() <= part(1, 0),
        b.is_finite() && 0 < b.units() <= part(1, 0),
    ensures
        ({
            let s = a + b;
            -part(1, 51) <= (b / s).units() + (a / s).units() - part(1, 0) <= part(1, 51)
        }),
{
    let d = pow2(1074) as int;
    lemma_pow2_pos(1074);
    lemma_part(1, 0);
    lemma_part(1, 53);
    lemma_sum_units(a, b);
    let s = a + b;
    let au = a.units();
    let bu = b.units();
    let n = au + bu;
    let su = s.units();
    lemma_finite_round(s, n);
    lemma_rounded_near(n);
    lemma_rounded(au, n);
    lemma_rounded(bu, n);
    lemma_units_representable(a);
    lemma_units_representable(b);
    lemma_quotient(a, s);
    lemma_quotient(b, s);
    assert(au * d <= part(1, 0) * su && bu * d <= part(1, 0) * su) by (nonlinear_arith)
        requires au <= su, bu <= su, part(1, 0) == d, d > 0;
    lemma_ratio_grid(au * d, su);
    lemma_ratio_grid(bu * d, su);
    let p = (b / s).units();
    let q = (a / s).units();
    let g = part(1, 53);
    let e = SPAN as int;
    lemma_small_powers();
    lemma_pow2_adds(53, 1021);
    lemma_pow2_adds(2, 1021);
    vstd::arithmetic::power2::lemma2_to64();
    assert(d == 0x20_0000_0000_0000 * g && part(1, 51) == 4 * g);
    // n is within 129 / 2^60 of the sum
    assert(129 * n <= 130 * su) by (nonlinear_arith)
        requires n * e <= su * (e + 129), e == 0x1000_0000_0000_0000, su > 0;
    assert((n - su) * e <= 129 * su && (su - n) * e <= 130 * su) by (nonlinear_arith)
        requires n * e <= su * (e + 129), su * e <= n * (e + 129), 129 * n <= 130 * su, su > 0, n > 0;
    assert((p + q) * su - n * d <= 2 * (g * su) && n * d - (p + q) * su <= 2 * (g * su)) by (nonlinear_arith)
        requires p * su - bu * d <= g * su, q * su - au * d <= g * su, bu * d - p * su <= g * su, au * d - q
            * su <= g * su, n == au + bu;
    assert(128 * d == e * g);
    assert((n - su) * (e * g) <= 129 * (g * su)) by (nonlinear_arith)
        requires (n - su) * e <= 129 * su, g > 0;
    assert((su - n) * (e * g) <= 130 * (g * su)) by (nonlinear_arith)
        requires (su - n) * e <= 130 * su, g > 0;
    assert((n - su) * (128 * d) == 128 * ((n - su) * d)) by (nonlinear_arith);
    assert((su - n) * (128 * d) == 128 * ((su - n) * d)) by (nonlinear_arith);
    assert(g * su > 0) by (nonlinear_arith)
        requires g > 0, su > 0;
    assert((p + q - d) * su <= (4 * g) * su && (d - (p + q)) * su <= (4 * g) * su) by (nonlinear_arith)
        requires (p + q) * su - n * d <= 2 * (g * su), n * d - (p + q) * su <= 2 * (g * su), (n - su) * d
            <= 2 * (g * su), (su - n) * d <= 2 * (g * su);
    assert(p + q - d <= 4 * g) by (nonlinear_arith)
        requires (p + q - d) * su <= (4 * g) * su, su > 0;
    assert(d - (p + q) <= 4 * g) by (nonlinear_arith)
        requires (d - (p + q)) * su <= (4 * g) * su, su > 0;
}

/// The ratios of the incomplete beta function add up to one within 2^-51, where both lie
/// between zero and one.
pub proof fn law_beta_ratios_add_up<M: Fn(Elementary) -> F64>(m: &M, a: F64, b: F64, x: F64, y: F64)
    requires
        a.is_finite() && b.is_finite(),
    ensures
        try_beta_inc(m, a, b, x, y) matches Ok(r) ==> {
            &&& lit(ZERO).le(r.0) && r.0.le(lit(ONE))
            &&& lit(ZERO).le(r.1) && r.1.le(lit(ONE))
        } ==> -part(1, 51) <= r.0.units() + r.1.units() - part(1, 0) <= part(1, 51),
{
    match try_beta_inc(m, a, b, x, y) {
        Ok(r) => {
            if {
                &&& lit(ZERO).le(r.0) && r.0.le(lit(ONE))
                &&& lit(ZERO).le(r.1) && r.1.le(lit(ONE))
            } {
                lemma_small_powers();
                lemma_pow2_adds(1, 1022);
                lemma_part(1, 52);
                if two_tails(r) {
                    law_two_tails_add_up(r);
                } else {
                    lemma_shares_of_tiny(m, a, b, x, y);
                }
            }
        },
        Err(_) => {},
    }
}

/// Two tiny parameters are at most one.
proof fn lemma_shares_of_tiny<M: Fn(Elementary) -> F64>(m: &M, a: F64, b: F64, x: F64, y: F64)
    requires
        a.is_finite() && b.is_finite(),
        try_beta_inc(m, a, b, x, y) matches Ok(r) && !two_tails(r),
    ensures
        try_beta_inc(m, a, b, x, y) matches Ok(r) ==> -part(1, 51) <= r.0.units() + r.1.units() - part(1, 0)
            <= part(1, 51),
{
    broadcast use lemma_le_units;
    broadcast use lemma_lt_units;
    broadcast use lemma_equals_units;
    reveal(beta_inc_inner_spec);
    reveal(small_branch_spec);
    reveal(large_branch_spec);
    reveal(from_lower_spec);
    reveal(from_upper_spec);
    lemma_mag_zero(0);
    lemma_small_powers();
    let eps = lit(EPSILON).max(lit(0x3CD2_03AF_9EE7_5616));
    let top = lit(0x3F50_624D_D2F1_A9FC) * eps;
    assert(both_tiny(a, b));
    lemma_literal(EPSILON, 970, 0x10_0000_0000_0000, 52, 1, 1, 52);
    lemma_literal(0x3CD2_03AF_9EE7_5616, 972, 0x12_03AF_9EE7_5616, 53, 0, 1, 49);
    lemma_literal(0x3F50_624D_D2F1_A9FC, 1012, 0x10_624D_D2F1_A9FC, 53, 0, 1, 9);
    lemma_order(EPSILON as int, 0x3CD2_03AF_9EE7_5616);
    lemma_product_at_most(lit(0x3F50_624D_D2F1_A9FC), eps, 1, 9, 1, 49);
    vstd::arithmetic::power2::lemma_pow2_strictly_increases(1016, 1074);
    law_order(a, b, a);
    lemma_shares(a, b);
}

} // verus!
