//! Laws of the special functions.
use crate::float::number::{lemma_le_units, lemma_lt_units};
use crate::consts::{HALF, NAN, ONE, ZERO};
use crate::float::laws::{
    law_nan_propagates, law_negation, law_product_of_negated, law_quotient_of_negated,
    law_sign_and_zero, law_sum_commutes, law_sum_of_negated, law_trunc_is_odd,
};
use crate::float::model::lemma_mag_zero;
use crate::float::{lit, F64};
use crate::functions::{exp, Elementary};
use crate::special::beta::{bcorr, bcorr_spec, beta, beta_log, beta_log_spec, beta_spec, dbetrm, dbetrm_spec};
use crate::special::erf::{erf_magnitude, erf_magnitude_spec, erf_near, error_f, error_f_spec};
use crate::special::gamma::{dexpm1, dexpm1_spec, rexp, rexp_spec};
use crate::special::normal::{
    central, central_spec, cumnor, cumnor_spec, dinvnr, dinvnr_spec, dlanor, dlanor_spec, far_spec, flush_spec,
    split_exponential, split_exponential_spec,
};
use crate::special::students_t::{dt1, dt1_spec};
use vstd::prelude::*;

verus! {

/// The error function is odd.
pub proof fn law_error_function_is_odd<M: Fn(Elementary) -> F64>(m: &M, x: F64)
    requires
        !error_f(m, x).is_nan(),
    ensures
        error_f(m, x.negated()) == error_f(m, x).negated(),
{
    reveal(error_f_spec);
    law_negation(x);
    law_product_of_negated(x, x);
    if x.abs().le(lit(HALF)) {
        law_product_of_negated(x, erf_near(x * x));
    } else {
        reveal(erf_magnitude_spec);
        let erf = erf_magnitude(m, x.abs(), x);
        assert(erf_magnitude(m, x.abs(), x.negated()) == erf);
        law_negation(erf);
        if !x.is_nan() {
            law_sign_and_zero(x);
            law_sign_and_zero(x.negated());
            assert(x.enc() != 0) by {
                broadcast use lemma_le_units;
                lemma_mag_zero(HALF as int);
            }
        } else {
            broadcast use lemma_lt_units;
        }
    }
}

/// Both exponentials in which the density is split depend on the magnitude alone, for
/// an exponential function that does not tell the zeros apart.
proof fn lemma_split_exponential_is_even<M: Fn(Elementary) -> F64>(m: &M, x: F64)
    requires
        exp(m, lit(ZERO)) == exp(m, lit(ZERO).negated()),
    ensures
        split_exponential(m, x.negated()) == split_exponential(m, x),
{
    reveal(split_exponential_spec);
    let sixteen = lit(0x4030_0000_0000_0000);
    let mhalf = lit(0xBFE0_0000_0000_0000);
    law_negation(x);
    if x.is_nan() {
        law_nan_propagates(x, sixteen);
        law_nan_propagates(x.negated(), sixteen);
        let a = (x * sixteen).trunc() / sixteen;
        assert((x.negated() * sixteen).trunc() / sixteen == a);
        law_nan_propagates(x, a);
        law_nan_propagates(x.negated(), a);
    } else {
        let t = x * sixteen;
        law_product_of_negated(x, sixteen);
        assert(!t.is_nan()) by {
            reveal(F64::spec_mul);
            if x.is_finite() {
                crate::float::laws::law_product_is_nearest(x, sixteen);
            }
        }
        law_trunc_is_odd(t);
        let w = t.trunc();
        law_quotient_of_negated(w, sixteen);
        assert(!(w / sixteen).is_nan()) by {
            reveal(F64::spec_euclidean_or_real_div);
            if w.is_finite() {
                crate::float::laws::law_quotient_is_nearest(w, sixteen);
            }
        }
        let a = w / sixteen;
        let n = x.negated();
        let an = a.negated();
        assert((n * sixteen).trunc() / sixteen == an);
        law_negation(a);
        // the square
        law_product_of_negated(mhalf, a);
        if (mhalf * a).is_nan() {
            law_nan_propagates(mhalf * a, a);
            law_nan_propagates(mhalf * a, an);
        } else {
            law_product_of_negated(mhalf * a, a);
        }
        assert(mhalf * an * an == mhalf * a * a);
        // the rest
        let d = x - a;
        let s = x + a;
        let dn = n - an;
        let sn = n + an;
        law_sum_of_negated(x, an);
        law_sum_of_negated(x, a);
        assert(x + an == d && n + an.negated() == dn);
        let del = d * s;
        let deln = dn * sn;
        lemma_product_up_to_sign(d, s, dn, sn);
        if del != deln {
            // both are zero, with opposite signs
            assert(del.enc() == 0 && deln.enc() == 0);
            lemma_zero_times(mhalf, del);
            lemma_zero_times(mhalf, deln);
        }
    }
}

/// Two factors that agree up to sign, or vanish together, give products that agree or
/// vanish together.
proof fn lemma_product_up_to_sign(d: F64, s: F64, dn: F64, sn: F64)
    requires
        d.is_nan() ==> dn == d,
        !d.is_nan() && d.enc() != 0 ==> dn == d.negated(),
        d.enc() == 0 ==> dn.enc() == 0,
        s.is_nan() ==> sn == s,
        !s.is_nan() && s.enc() != 0 ==> sn == s.negated(),
        s.enc() == 0 ==> sn.enc() == 0,
    ensures
        d * s == dn * sn || ((d * s).enc() == 0 && (dn * sn).enc() == 0),
{
    if d.is_nan() {
        law_nan_propagates(d, s);
        law_nan_propagates(d, sn);
    } else if s.is_nan() {
        law_nan_propagates(s, d);
        law_nan_propagates(s, dn);
    } else if d.enc() != 0 && s.enc() != 0 {
        law_product_of_negated(d, s);
    } else {
        lemma_zero_product(d, s);
        lemma_zero_product(dn, sn);
    }
}

proof fn lemma_zero_product(d: F64, s: F64)
    requires
        !d.is_nan(),
        !s.is_nan(),
        d.enc() == 0 || s.enc() == 0,
    ensures
        (d * s).enc() == 0 || d * s == lit(NAN),
        d.is_finite() && s.is_finite() ==> (d * s).enc() == 0,
        !(d.is_finite() && s.is_finite()) ==> d * s == lit(NAN),
{
    reveal(F64::spec_mul);
    lemma_mag_zero(0);
    let a = crate::float::model::mag(d.enc() as int);
    let b = crate::float::model::mag(s.enc() as int);
    if d.is_finite() && s.is_finite() {
        assert(a * b == 0) by (nonlinear_arith)
            requires a == 0 || b == 0;
        vstd::arithmetic::power2::lemma_pow2_pos(1074);
        crate::float::arith::lemma_round_zero(vstd::arithmetic::power2::pow2(1074) as int);
    }
}

proof fn lemma_zero_times(c: F64, z: F64)
    requires
        z.enc() == 0,
        c.is_finite(),
    ensures
        c * z == lit(ZERO) || c * z == lit(ZERO).negated(),
{
    lemma_zero_product(c, z);
}

/// Turning the argument's sign over exchanges the two tails of the normal
/// distribution, for an exponential function that does not tell the zeros apart.
pub proof fn law_normal_tails_mirror<M: Fn(Elementary) -> F64>(m: &M, x: F64)
    requires
        exp(m, lit(ZERO)) == exp(m, lit(ZERO).negated()),
        !cumnor(m, x).0.is_nan(),
        !cumnor(m, x).1.is_nan(),
    ensures
        cumnor(m, x.negated()) == (cumnor(m, x).1, cumnor(m, x).0),
{
    reveal(cumnor_spec);
    reveal(flush_spec);
    law_negation(x);
    law_product_of_negated(x, x);
    let y = x.abs();
    if y.le(lit(crate::special::normal::THRSH)) {
        let r = central(x, y);
        if r.is_nan() {
            law_nan_propagates(r, lit(HALF));
            broadcast use lemma_lt_units;
            assert(cumnor(m, x).0.is_nan());
        }
        lemma_central_is_odd(x, y);
        law_negation(r);
        assert(lit(HALF) - r.negated() == lit(HALF) + r);
    } else {
        lemma_split_exponential_is_even(m, x);
        reveal(far_spec);
        if x.is_nan() {
            lemma_cumnor_of_nan(m, x);
        } else {
            law_sign_and_zero(x);
            law_sign_and_zero(x.negated());
            assert(x.enc() != 0) by {
                broadcast use lemma_le_units;
                lemma_mag_zero(crate::special::normal::THRSH as int);
            }
        }
    }
}

proof fn lemma_cumnor_of_nan<M: Fn(Elementary) -> F64>(m: &M, x: F64)
    requires
        x.is_nan(),
    ensures
        cumnor(m, x).0.is_nan(),
{
    reveal(cumnor_spec);
    reveal(flush_spec);
    reveal(far_spec);
    broadcast use lemma_le_units;
    broadcast use lemma_lt_units;
    let y = x.abs();
    let top = lit(crate::special::normal::SQRPI);
    let f = crate::special::normal::far(x, y);
    assert(f.is_nan()) by {
        law_negation(x);
        assert(y.is_nan());
        law_nan_propagates(y, lit(ONE));
        let xsq = lit(ONE) / (x * x);
        let q = lit(crate::special::normal::P5) * xsq;
        assert(forall|z: F64| #[trigger] (z / y) == lit(NAN)) by {
            assert forall|z: F64| #[trigger] (z / y) == lit(NAN) by {
                law_nan_propagates(y, z);
            }
        }
    }
    law_nan_propagates(f, split_exponential(m, x));
}

proof fn lemma_central_is_odd(x: F64, y: F64)
    requires
        y == x.abs(),
        !central(x, y).is_nan(),
    ensures
        central(x.negated(), y) == central(x, y).negated(),
{
    reveal(central_spec);
    law_negation(x);
    law_product_of_negated(x, x);
    let xsq = if y.gt(lit(HALF) * lit(crate::consts::EPSILON)) {
        x * x
    } else {
        lit(ZERO)
    };
    let a4 = lit(crate::special::normal::A4);
    let a0 = lit(crate::special::normal::A0);
    let a1 = lit(crate::special::normal::A1);
    let a2 = lit(crate::special::normal::A2);
    let a3 = lit(crate::special::normal::A3);
    let b0 = lit(crate::special::normal::B0);
    let b1 = lit(crate::special::normal::B1);
    let b2 = lit(crate::special::normal::B2);
    let b3 = lit(crate::special::normal::B3);
    let top = (((a4 * xsq + a0) * xsq + a1) * xsq + a2) * xsq + a3;
    let bot = (((xsq + b0) * xsq + b1) * xsq + b2) * xsq + b3;
    assert(central(x, y) == x * top / bot);
    assert(central(x.negated(), y) == x.negated() * top / bot);
    if (x * top).is_nan() {
        law_nan_propagates(x * top, bot);
    }
    law_product_of_negated(x, top);
    law_quotient_of_negated(x * top, bot);
}

/// The logarithm of the normal tail depends on the magnitude of its argument alone.
pub proof fn law_normal_log_tail_is_even<M: Fn(Elementary) -> F64>(m: &M, x: F64)
    ensures
        dlanor(m, x.negated()) == dlanor(m, x),
{
    reveal(dlanor_spec);
    law_negation(x);
    let h = lit(HALF);
    law_product_of_negated(h, x);
    if (h * x).is_nan() {
        law_nan_propagates(h * x, x);
        law_nan_propagates(h * x, x.negated());
    } else {
        law_product_of_negated(h * x, x);
    }
}

/// Exchanging the two probabilities turns the sign of the normal quantile over.
pub proof fn law_normal_quantile_mirrors<M: Fn(Elementary) -> F64>(m: &M, p: F64, q: F64)
    requires
        p.lt(q),
    ensures
        dinvnr(m, q, p) == dinvnr(m, p, q).negated(),
{
    reveal(dinvnr_spec);
    broadcast use lemma_lt_units;
    broadcast use lemma_le_units;
}

/// Exchanging two probabilities on either side of one half turns the sign of the
/// approximate t quantile over.
pub proof fn law_t_start_mirrors<M: Fn(Elementary) -> F64>(m: &M, p: F64, q: F64, df: F64)
    requires
        p.lt(lit(HALF)),
        lit(HALF).le(q),
    ensures
        dt1(m, p, q, df) == dt1(m, q, p, df).negated(),
{
    reveal(dt1_spec);
    broadcast use lemma_lt_units;
    broadcast use lemma_le_units;
    law_normal_quantile_mirrors(m, p, q);
    law_negation(dinvnr(m, p, q));
}

/// The lesser and the greater of two numbers do not depend on their order, unless they
/// are zeros.
pub proof fn law_min_max_commute(a: F64, b: F64)
    requires
        !a.is_nan(),
        !b.is_nan(),
        a.enc() != 0 || b.enc() != 0,
    ensures
        a.min(b) == b.min(a),
        a.max(b) == b.max(a),
{
    broadcast use lemma_lt_units;
    crate::float::number::lemma_order(a.enc() as int, b.enc() as int);
}

/// The beta function, its logarithm and their corrections do not depend on the order of
/// their arguments.
pub proof fn law_beta_is_symmetric<M: Fn(Elementary) -> F64>(m: &M, a: F64, b: F64)
    requires
        !a.is_nan(),
        !b.is_nan(),
        a.enc() != 0 || b.enc() != 0,
    ensures
        beta_log(m, a, b) == beta_log(m, b, a),
        beta(m, a, b) == beta(m, b, a),
        bcorr(a, b) == bcorr(b, a),
        dbetrm(m, a, b) == dbetrm(m, b, a),
{
    reveal(beta_log_spec);
    reveal(beta_spec);
    reveal(bcorr_spec);
    reveal(dbetrm_spec);
    law_min_max_commute(a, b);
    law_sum_commutes(a, b);
}

/// The two ways to the exponential minus one are the same function.
pub proof fn law_exponential_minus_one<M: Fn(Elementary) -> F64>(m: &M, x: F64)
    ensures
        dexpm1(m, x) == rexp(m, x),
{
    reveal(dexpm1_spec);
    reveal(rexp_spec);
}

} // verus!
