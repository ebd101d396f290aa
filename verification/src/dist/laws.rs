//! Laws of the distributions.
use crate::float::number::{lemma_equals_units, lemma_le_units, lemma_lt_units};
use crate::consts::{HALF, INFINITY, NEG_INFINITY, ONE, TWO, ZERO};
use crate::dist::{
    beta, binomial, chi_squared, chi_squared_noncentral, counts, fisher_snedecor, fisher_snedecor_noncentral, gamma,
    negative_binomial, normal, poisson, students_t,
};
use crate::dist::counts::{grow_spec, law_least_is_smallest, least_spec};
use crate::float::laws::{
    law_nan_propagates, law_negation, law_order, law_product_of_negated, law_sign_and_zero,
};
use crate::float::{lit, F64};
use crate::functions::{exp, ln, Elementary};
use crate::special::beta_inc::beta_inc_value;
use crate::special::gamma::gamma_log;
use crate::special::normal::{
    cumnor_spec, far, far_spec, flush_spec, split_exponential, P0, P1, P2, P3, P4, P5, Q0, Q1, Q2, Q3, Q4, SQRPI,
};
use crate::special::poly::within;
use vstd::prelude::*;

verus! {

proof fn lemma_unit()
    ensures
        lit(ZERO).le(lit(ZERO)),
        lit(ZERO).le(lit(ONE)),
        lit(ONE).le(lit(ONE)),
        lit(ZERO).equals(lit(ZERO)),
        lit(ONE).equals(lit(ONE)),
        !lit(ONE).equals(lit(ZERO)),
        !lit(ZERO).equals(lit(ONE)),
{
    broadcast use lemma_le_units;
    broadcast use lemma_equals_units;
    crate::float::model::lemma_mag_zero(ONE as int);
}

/// The quantiles of zero and one are the ends of the support, and a number that is no
/// probability is refused, from either side.
pub proof fn law_normal_quantile_ends<M: Fn(Elementary) -> F64>(m: &M, mean: F64, sd: F64, p: F64)
    ensures
        normal::quantile(m, mean, sd, lit(ZERO))
            == Ok::<F64, normal::NormalError>(lit(NEG_INFINITY)),
        normal::quantile(m, mean, sd, lit(ONE)) == Ok::<F64, normal::NormalError>(lit(INFINITY)),
        normal::upper_quantile(m, mean, sd, lit(ZERO))
            == Ok::<F64, normal::NormalError>(lit(INFINITY)),
        normal::upper_quantile(m, mean, sd, lit(ONE))
            == Ok::<F64, normal::NormalError>(lit(NEG_INFINITY)),
        !within(p, lit(ZERO), lit(ONE))
            ==> normal::quantile(m, mean, sd, p)
                == Err::<F64, normal::NormalError>(normal::NormalError::PNotInRange(p)),
        !within(p, lit(ZERO), lit(ONE))
            ==> normal::upper_quantile(m, mean, sd, p)
                == Err::<F64, normal::NormalError>(normal::NormalError::QNotInRange(p)),
{
    lemma_unit();
}

/// The quantiles of zero and one are the ends of the support, and a number that is no
/// probability is refused, from either side.
pub proof fn law_beta_quantile_ends<M: Fn(Elementary) -> F64>(m: &M, a: F64, b: F64, p: F64)
    ensures
        beta::quantile(m, a, b, lit(ZERO)) == Ok::<F64, beta::BetaError>(lit(ZERO)),
        beta::quantile(m, a, b, lit(ONE)) == Ok::<F64, beta::BetaError>(lit(ONE)),
        beta::upper_quantile(m, a, b, lit(ZERO)) == Ok::<F64, beta::BetaError>(lit(ONE)),
        beta::upper_quantile(m, a, b, lit(ONE)) == Ok::<F64, beta::BetaError>(lit(ZERO)),
        !within(p, lit(ZERO), lit(ONE))
            ==> beta::quantile(m, a, b, p)
                == Err::<F64, beta::BetaError>(beta::BetaError::PNotInRange(p)),
        !within(p, lit(ZERO), lit(ONE))
            ==> beta::upper_quantile(m, a, b, p)
                == Err::<F64, beta::BetaError>(beta::BetaError::QNotInRange(p)),
{
    lemma_unit();
}

/// The quantiles of zero and one are the ends of the support, and a number that is no
/// probability is refused, from either side.
pub proof fn law_gamma_quantile_ends<M: Fn(Elementary) -> F64>(m: &M, shape: F64, rate: F64, p: F64)
    ensures
        gamma::quantile(m, shape, rate, lit(ZERO)) == Ok::<F64, gamma::GammaError>(lit(ZERO)),
        gamma::quantile(m, shape, rate, lit(ONE)) == Ok::<F64, gamma::GammaError>(lit(INFINITY)),
        gamma::upper_quantile(m, shape, rate, lit(ZERO))
            == Ok::<F64, gamma::GammaError>(lit(INFINITY)),
        gamma::upper_quantile(m, shape, rate, lit(ONE)) == Ok::<F64, gamma::GammaError>(lit(ZERO)),
        !within(p, lit(ZERO), lit(ONE))
            ==> gamma::quantile(m, shape, rate, p)
                == Err::<F64, gamma::GammaError>(gamma::GammaError::ProbabilityOutOfRange(p)),
        !within(p, lit(ZERO), lit(ONE))
            ==> gamma::upper_quantile(m, shape, rate, p)
                == Err::<F64, gamma::GammaError>(gamma::GammaError::ProbabilityOutOfRange(p)),
{
    lemma_unit();
}

/// The quantiles of zero and one are the ends of the support, and a number that is no
/// probability is refused, from either side.
pub proof fn law_chi_squared_quantile_ends<M: Fn(Elementary) -> F64>(m: &M, df: F64, p: F64)
    ensures
        chi_squared::quantile(m, df, lit(ZERO))
            == Ok::<F64, chi_squared::ChiSquaredError>(lit(ZERO)),
        chi_squared::quantile(m, df, lit(ONE))
            == Ok::<F64, chi_squared::ChiSquaredError>(lit(INFINITY)),
        chi_squared::upper_quantile(m, df, lit(ZERO))
            == Ok::<F64, chi_squared::ChiSquaredError>(lit(INFINITY)),
        chi_squared::upper_quantile(m, df, lit(ONE))
            == Ok::<F64, chi_squared::ChiSquaredError>(lit(ZERO)),
        !within(p, lit(ZERO), lit(ONE))
            ==> chi_squared::quantile(m, df, p)
                == Err::<F64, chi_squared::ChiSquaredError>(
                    chi_squared::ChiSquaredError::ProbabilityOutOfRange(p),
                ),
        !within(p, lit(ZERO), lit(ONE))
            ==> chi_squared::upper_quantile(m, df, p)
                == Err::<F64, chi_squared::ChiSquaredError>(
                    chi_squared::ChiSquaredError::ProbabilityOutOfRange(p),
                ),
{
    lemma_unit();
}

/// The quantiles of zero and one are the ends of the support, and a number that is no
/// probability is refused, from either side.
pub proof fn law_students_t_quantile_ends<M: Fn(Elementary) -> F64>(m: &M, df: F64, p: F64)
    ensures
        students_t::quantile(m, df, lit(ZERO))
            == Ok::<F64, students_t::StudentsTError>(lit(NEG_INFINITY)),
        students_t::quantile(m, df, lit(ONE))
            == Ok::<F64, students_t::StudentsTError>(lit(INFINITY)),
        students_t::upper_quantile(m, df, lit(ZERO))
            == Ok::<F64, students_t::StudentsTError>(lit(INFINITY)),
        students_t::upper_quantile(m, df, lit(ONE))
            == Ok::<F64, students_t::StudentsTError>(lit(NEG_INFINITY)),
        !within(p, lit(ZERO), lit(ONE))
            ==> students_t::quantile(m, df, p)
                == Err::<F64, students_t::StudentsTError>(
                    students_t::StudentsTError::PNotInRange(p),
                ),
        !within(p, lit(ZERO), lit(ONE))
            ==> students_t::upper_quantile(m, df, p)
                == Err::<F64, students_t::StudentsTError>(
                    students_t::StudentsTError::QNotInRange(p),
                ),
{
    lemma_unit();
}

/// The quantiles of zero and one are the ends of the support, and a number that is no
/// probability is refused, from either side.
pub proof fn law_fisher_snedecor_quantile_ends<M: Fn(Elementary) -> F64>(
    m: &M,
    dfn: F64,
    dfd: F64,
    p: F64,
)
    ensures
        fisher_snedecor::quantile(m, dfn, dfd, lit(ZERO))
            == Ok::<F64, fisher_snedecor::FisherSnedecorError>(lit(ZERO)),
        fisher_snedecor::quantile(m, dfn, dfd, lit(ONE))
            == Ok::<F64, fisher_snedecor::FisherSnedecorError>(lit(INFINITY)),
        fisher_snedecor::upper_quantile(m, dfn, dfd, lit(ZERO))
            == Ok::<F64, fisher_snedecor::FisherSnedecorError>(lit(INFINITY)),
        fisher_snedecor::upper_quantile(m, dfn, dfd, lit(ONE))
            == Ok::<F64, fisher_snedecor::FisherSnedecorError>(lit(ZERO)),
        !within(p, lit(ZERO), lit(ONE))
            ==> fisher_snedecor::quantile(m, dfn, dfd, p)
                == Err::<F64, fisher_snedecor::FisherSnedecorError>(
                    fisher_snedecor::FisherSnedecorError::PNotInRange(p),
                ),
        !within(p, lit(ZERO), lit(ONE))
            ==> fisher_snedecor::upper_quantile(m, dfn, dfd, p)
                == Err::<F64, fisher_snedecor::FisherSnedecorError>(
                    fisher_snedecor::FisherSnedecorError::QNotInRange(p),
                ),
{
    lemma_unit();
}

/// The quantiles of zero and one are the ends of the support, and a number that is no
/// probability is refused, from either side.
pub proof fn law_chi_squared_noncentral_quantile_ends<M: Fn(Elementary) -> F64>(
    m: &M,
    df: F64,
    ncp: F64,
    p: F64,
)
    ensures
        chi_squared_noncentral::quantile(m, df, ncp, lit(ZERO))
            == Ok::<F64, chi_squared_noncentral::ChiSquaredNoncentralError>(lit(ZERO)),
        chi_squared_noncentral::quantile(m, df, ncp, lit(ONE))
            == Ok::<F64, chi_squared_noncentral::ChiSquaredNoncentralError>(lit(INFINITY)),
        chi_squared_noncentral::upper_quantile(m, df, ncp, lit(ZERO))
            == Ok::<F64, chi_squared_noncentral::ChiSquaredNoncentralError>(lit(INFINITY)),
        chi_squared_noncentral::upper_quantile(m, df, ncp, lit(ONE))
            == Ok::<F64, chi_squared_noncentral::ChiSquaredNoncentralError>(lit(ZERO)),
        !within(p, lit(ZERO), lit(ONE))
            ==> chi_squared_noncentral::quantile(m, df, ncp, p)
                == Err::<F64, chi_squared_noncentral::ChiSquaredNoncentralError>(
                    chi_squared_noncentral::ChiSquaredNoncentralError::PNotInRange(p),
                ),
        !within(p, lit(ZERO), lit(ONE))
            ==> chi_squared_noncentral::upper_quantile(m, df, ncp, p)
                == Err::<F64, chi_squared_noncentral::ChiSquaredNoncentralError>(
                    chi_squared_noncentral::ChiSquaredNoncentralError::QNotInRange(p),
                ),
{
    lemma_unit();
}

/// The quantiles of zero and one are the ends of the support, and a number that is no
/// probability is refused, from either side.
pub proof fn law_fisher_snedecor_noncentral_quantile_ends<M: Fn(Elementary) -> F64>(
    m: &M,
    dfn: F64,
    dfd: F64,
    ncp: F64,
    p: F64,
)
    ensures
        fisher_snedecor_noncentral::quantile(m, dfn, dfd, ncp, lit(ZERO))
            == Ok::<F64, fisher_snedecor_noncentral::FisherSnedecorNoncentralError>(lit(ZERO)),
        fisher_snedecor_noncentral::quantile(m, dfn, dfd, ncp, lit(ONE))
            == Ok::<F64, fisher_snedecor_noncentral::FisherSnedecorNoncentralError>(lit(INFINITY)),
        fisher_snedecor_noncentral::upper_quantile(m, dfn, dfd, ncp, lit(ZERO))
            == Ok::<F64, fisher_snedecor_noncentral::FisherSnedecorNoncentralError>(lit(INFINITY)),
        fisher_snedecor_noncentral::upper_quantile(m, dfn, dfd, ncp, lit(ONE))
            == Ok::<F64, fisher_snedecor_noncentral::FisherSnedecorNoncentralError>(lit(ZERO)),
        !within(p, lit(ZERO), lit(ONE))
            ==> fisher_snedecor_noncentral::quantile(m, dfn, dfd, ncp, p)
                == Err::<F64, fisher_snedecor_noncentral::FisherSnedecorNoncentralError>(
                    fisher_snedecor_noncentral::FisherSnedecorNoncentralError::PNotInRange(p),
                ),
        !within(p, lit(ZERO), lit(ONE))
            ==> fisher_snedecor_noncentral::upper_quantile(m, dfn, dfd, ncp, p)
                == Err::<F64, fisher_snedecor_noncentral::FisherSnedecorNoncentralError>(
                    fisher_snedecor_noncentral::FisherSnedecorNoncentralError::QNotInRange(p),
                ),
{
    lemma_unit();
}

/// Nothing lies below the support or above it, and a NaN stays one.
pub proof fn law_beta_outside_support<M: Fn(Elementary) -> F64>(m: &M, a: F64, b: F64, x: F64)
    ensures
        x.le(lit(ZERO))
            ==> beta::cdf_at(m, a, b, x) == lit(ZERO) && beta::ccdf_at(m, a, b, x) == lit(ONE),
        x.ge(lit(ONE))
            ==> beta::cdf_at(m, a, b, x) == lit(ONE) && beta::ccdf_at(m, a, b, x) == lit(ZERO),
        x.is_nan() ==> beta::cdf_at(m, a, b, x).is_nan() && beta::ccdf_at(m, a, b, x).is_nan(),
{
    broadcast use lemma_le_units;
    lemma_unit();
    if x.is_nan() {
        law_nan_propagates(x, lit(ONE));
    }
    crate::float::number::lemma_order(ZERO as int, ONE as int);
}

/// Nothing lies below the support, and a NaN stays one.
pub proof fn law_gamma_outside_support<M: Fn(Elementary) -> F64>(
    m: &M,
    shape: F64,
    rate: F64,
    x: F64,
)
    ensures
        x.le(lit(ZERO))
            ==> gamma::cdf_at(m, shape, rate, x) == lit(ZERO)
                && gamma::ccdf_at(m, shape, rate, x) == lit(ONE),
        x.is_nan()
            ==> gamma::cdf_at(m, shape, rate, x).is_nan()
                && gamma::ccdf_at(m, shape, rate, x).is_nan(),
{
    broadcast use lemma_le_units;
    if x.is_nan() {
        law_nan_propagates(x, rate);
    }
}

/// Nothing lies below the support, and a NaN stays one.
pub proof fn law_chi_squared_outside_support<M: Fn(Elementary) -> F64>(m: &M, df: F64, x: F64)
    ensures
        x.le(lit(ZERO))
            ==> chi_squared::cdf_at(m, df, x) == lit(ZERO)
                && chi_squared::ccdf_at(m, df, x) == lit(ONE),
        x.is_nan()
            ==> chi_squared::cdf_at(m, df, x).is_nan() && chi_squared::ccdf_at(m, df, x).is_nan(),
{
    broadcast use lemma_le_units;
    if x.is_nan() {
        law_nan_propagates(x, lit(TWO));
    }
}

/// Nothing lies below the support, and a NaN stays one.
pub proof fn law_fisher_snedecor_outside_support<M: Fn(Elementary) -> F64>(
    m: &M,
    dfn: F64,
    dfd: F64,
    x: F64,
)
    ensures
        x.le(lit(ZERO))
            ==> fisher_snedecor::cdf_at(m, dfn, dfd, x) == lit(ZERO)
                && fisher_snedecor::ccdf_at(m, dfn, dfd, x) == lit(ONE),
        x.is_nan()
            ==> fisher_snedecor::cdf_at(m, dfn, dfd, x).is_nan()
                && fisher_snedecor::ccdf_at(m, dfn, dfd, x).is_nan(),
{
    broadcast use lemma_le_units;
    broadcast use lemma_lt_units;
    if x.is_nan() {
        law_nan_propagates(x, dfn);
        let prod = dfn * x;
        law_nan_propagates(prod, dfd);
        let dsum = dfd + prod;
        law_nan_propagates(dsum, dfd);
    }
}

/// Nothing lies below the support, and a NaN stays one.
pub proof fn law_chi_squared_noncentral_outside_support<M: Fn(Elementary) -> F64>(
    m: &M,
    df: F64,
    ncp: F64,
    x: F64,
)
    requires
        !df.is_nan(),
        !ncp.is_nan(),
    ensures
        x.le(lit(ZERO))
            ==> chi_squared_noncentral::cdf_at(m, df, ncp, x) == lit(ZERO)
                && chi_squared_noncentral::ccdf_at(m, df, ncp, x) == lit(ONE),
        x.is_nan()
            ==> chi_squared_noncentral::cdf_at(m, df, ncp, x).is_nan()
                && chi_squared_noncentral::ccdf_at(m, df, ncp, x).is_nan(),
{
    broadcast use lemma_le_units;
}

/// Nothing lies below the support, and a NaN stays one.
pub proof fn law_fisher_snedecor_noncentral_outside_support<M: Fn(Elementary) -> F64>(
    m: &M,
    dfn: F64,
    dfd: F64,
    ncp: F64,
    x: F64,
)
    requires
        !dfn.is_nan(),
        !dfd.is_nan(),
        !ncp.is_nan(),
    ensures
        x.le(lit(ZERO))
            ==> fisher_snedecor_noncentral::cdf_at(m, dfn, dfd, ncp, x) == lit(ZERO)
                && fisher_snedecor_noncentral::ccdf_at(m, dfn, dfd, ncp, x) == lit(ONE),
        x.is_nan()
            ==> fisher_snedecor_noncentral::cdf_at(m, dfn, dfd, ncp, x).is_nan()
                && fisher_snedecor_noncentral::ccdf_at(m, dfn, dfd, ncp, x).is_nan(),
{
    broadcast use lemma_le_units;
}

/// The distribution function of a NaN is one, and so is its complement.
pub proof fn law_normal_of_nan<M: Fn(Elementary) -> F64>(m: &M, mean: F64, sd: F64, x: F64)
    requires
        x.is_nan(),
    ensures
        normal::cdf_at(m, mean, sd, x).is_nan(),
        normal::ccdf_at(m, mean, sd, x).is_nan(),
{
    law_nan_propagates(x, mean);
    let d = x - mean;
    law_nan_propagates(d, sd);
    let z = d / sd;
    let y = z.abs();
    assert(y.is_nan());
    reveal(cumnor_spec);
    reveal(flush_spec);
    reveal(far_spec);
    let n = far(z, y);
    assert(n.is_nan()) by {
        let xsq = lit(ONE) / (z * z);
        let xnum = ((((lit(P5) * xsq + lit(P0)) * xsq + lit(P1)) * xsq + lit(P2)) * xsq + lit(P3)) * xsq;
        let xden = ((((xsq + lit(Q0)) * xsq + lit(Q1)) * xsq + lit(Q2)) * xsq + lit(Q3)) * xsq;
        let r = xsq * (xnum + lit(P4)) / (xden + lit(Q4));
        law_nan_propagates(y, lit(SQRPI) - r);
    }
    let e = split_exponential(m, z);
    law_nan_propagates(n, e);
    let tail = e * n;
    law_nan_propagates(tail, lit(ONE));
}

/// The distribution function of a NaN is one, and so is its complement.
pub proof fn law_students_t_of_nan<M: Fn(Elementary) -> F64>(m: &M, df: F64, t: F64)
    requires
        t.is_nan(),
    ensures
        students_t::cdf_at(m, df, t).is_nan(),
        students_t::ccdf_at(m, df, t).is_nan(),
{
    law_nan_propagates(t, t);
    let tt = t * t;
    law_nan_propagates(tt, df);
    let dfptt = df + tt;
    law_nan_propagates(dfptt, df);
    law_nan_propagates(dfptt, tt);
    let (a, oma) = beta_inc_value(m, df / lit(TWO), lit(HALF), df / dfptt, tt / dfptt);
    assert(a.is_nan() && oma.is_nan());
    law_nan_propagates(a, lit(HALF));
    let tail = lit(HALF) * a;
    law_nan_propagates(tail, oma);
}

/// Turning the argument's sign over exchanges the tails of Student's t distribution.
pub proof fn law_t_tails_mirror<M: Fn(Elementary) -> F64>(m: &M, df: F64, t: F64)
    requires
        !t.is_nan(),
        !t.equals(lit(ZERO)),
    ensures
        students_t::cdf_at(m, df, t.negated()) == students_t::ccdf_at(m, df, t),
        students_t::ccdf_at(m, df, t.negated()) == students_t::cdf_at(m, df, t),
{
    law_negation(t);
    law_product_of_negated(t, t);
    law_sign_and_zero(t);
    law_sign_and_zero(t.negated());
    law_order(t, lit(ZERO), t);
    law_order(t.negated(), lit(ZERO), t);
    law_order(lit(ZERO), t, t);
    law_order(lit(ZERO), t.negated(), t);
}

/// Without noncentrality the noncentral chi-squared distribution is the central one.
pub proof fn law_noncentral_chi_squared_reduces<M: Fn(Elementary) -> F64>(
    m: &M,
    df: F64,
    ncp: F64,
    x: F64,
)
    requires
        !x.is_nan(),
        !df.is_nan(),
        ncp.le(lit(0x3DDB_7CDF_D9D7_BDBB)),
    ensures
        chi_squared_noncentral::cdf_at(m, df, ncp, x) == chi_squared::cdf_at(m, df, x),
        chi_squared_noncentral::ccdf_at(m, df, ncp, x) == chi_squared::ccdf_at(m, df, x),
{
    broadcast use lemma_le_units;
}

/// Without noncentrality the noncentral F distribution is the central one.
pub proof fn law_noncentral_f_reduces<M: Fn(Elementary) -> F64>(
    m: &M,
    dfn: F64,
    dfd: F64,
    ncp: F64,
    x: F64,
)
    requires
        !x.is_nan(),
        !dfn.is_nan(),
        !dfd.is_nan(),
        ncp.lt(lit(0x3DDB_7CDF_D9D7_BDBB)),
    ensures
        fisher_snedecor_noncentral::cdf_at(m, dfn, dfd, ncp, x)
            == fisher_snedecor::cdf_at(m, dfn, dfd, x),
        fisher_snedecor_noncentral::ccdf_at(m, dfn, dfd, ncp, x)
            == fisher_snedecor::ccdf_at(m, dfn, dfd, x),
{
    broadcast use lemma_lt_units;
}

/// The probabilities of the counts from zero up do not fall below `p` again once they
/// have reached it.
pub open spec fn reaches_once(cdf: spec_fn(u64) -> F64, p: F64) -> bool {
    forall|s: u64, t: u64| s <= t && (#[trigger] cdf(t)).lt(p) ==> (#[trigger] cdf(s)).lt(p)
}

/// `s` is the smallest count at which the probabilities reach `p`.
pub open spec fn smallest(cdf: spec_fn(u64) -> F64, p: F64, s: u64) -> bool {
    &&& !cdf(s).lt(p)
    &&& forall|t: u64| t < s ==> (#[trigger] cdf(t)).lt(p)
}

/// The quantiles of zero and one are the ends of the support, and a number that is no
/// probability is refused, from either side.
pub proof fn law_binomial_quantile_ends<M: Fn(Elementary) -> F64>(m: &M, n: u64, pr: F64, p: F64)
    ensures
        binomial::quantile(m, n, pr, lit(ZERO)) == Ok::<u64, binomial::BinomialError>(0u64),
        binomial::quantile(m, n, pr, lit(ONE)) == Ok::<u64, binomial::BinomialError>(n),
        !within(p, lit(ZERO), lit(ONE))
            ==> binomial::quantile(m, n, pr, p)
                == Err::<u64, binomial::BinomialError>(
                    binomial::BinomialError::ProbabilityOutOfRange(p),
                ),
        binomial::upper_count(m, n, pr, lit(ZERO)) == Ok::<u64, binomial::BinomialError>(n),
        binomial::upper_count(m, n, pr, lit(ONE)) == Ok::<u64, binomial::BinomialError>(0u64),
        !within(p, lit(ZERO), lit(ONE))
            ==> binomial::upper_count(m, n, pr, p)
                == Err::<u64, binomial::BinomialError>(
                    binomial::BinomialError::ProbabilityOutOfRange(p),
                ),
{
    lemma_unit();
}

/// The quantile of a probability strictly between zero and one is the smallest count at
/// which the distribution function reaches it.
pub proof fn law_binomial_quantile_is_smallest<M: Fn(Elementary) -> F64>(
    m: &M,
    n: u64,
    pr: F64,
    p: F64,
)
    requires
        !p.equals(lit(ZERO)),
        !p.equals(lit(ONE)),
        reaches_once(|s: u64| binomial::cdf_at(m, n, pr, s), p),
    ensures
        binomial::quantile(m, n, pr, p) matches Ok(s) ==> s <= n && smallest(
            |s: u64| binomial::cdf_at(m, n, pr, s),
            p,
            s,
        ),
{
    let cdf = |s: u64| binomial::cdf_at(m, n, pr, s);
    let short = |s: u64| binomial::cdf_at(m, n, pr, s).lt(p);
    assert forall|s: u64, t: u64| s <= t && #[trigger] short(t) implies #[trigger] short(s) by {
        assert(cdf(t).lt(p) ==> cdf(s).lt(p));
    }
    law_least_is_smallest(short, 0, n);
    let r = least_spec(short, 0, n);
    if r == n && within(p, lit(ZERO), lit(ONE)) {
        law_order(lit(ONE), p, lit(ONE));
        assert(!cdf(r).lt(p)) by {
            broadcast use lemma_lt_units;
            broadcast use lemma_le_units;
        }
    } else if r < n {
        assert(!short(r));
    }
    assert forall|t: u64| t < r implies (#[trigger] cdf(t)).lt(p) by {
        assert(short(t));
    }
}

/// The quantiles of zero and one are the ends of the support, and a number that is no
/// probability is refused, from either side.
pub proof fn law_poisson_quantile_ends<M: Fn(Elementary) -> F64>(m: &M, lambda: F64, p: F64)
    ensures
        poisson::quantile(m, lambda, lit(ZERO)) == Ok::<u64, poisson::PoissonError>(0u64),
        poisson::quantile(m, lambda, lit(ONE)) == Ok::<u64, poisson::PoissonError>(u64::MAX),
        !within(p, lit(ZERO), lit(ONE))
            ==> poisson::quantile(m, lambda, p)
                == Err::<u64, poisson::PoissonError>(poisson::PoissonError::PNotInRange(p)),
        poisson::upper_count(m, lambda, lit(ZERO)) == Ok::<u64, poisson::PoissonError>(u64::MAX),
        poisson::upper_count(m, lambda, lit(ONE)) == Ok::<u64, poisson::PoissonError>(0u64),
        !within(p, lit(ZERO), lit(ONE))
            ==> poisson::upper_count(m, lambda, p)
                == Err::<u64, poisson::PoissonError>(poisson::PoissonError::QNotInRange(p)),
{
    lemma_unit();
}

/// The quantile of a probability strictly between zero and one is the smallest count at
/// which the distribution function reaches it, or the
/// largest count where none within the search does.
pub proof fn law_poisson_quantile_is_smallest<M: Fn(Elementary) -> F64>(m: &M, lambda: F64, p: F64)
    requires
        !p.equals(lit(ZERO)),
        !p.equals(lit(ONE)),
        reaches_once(|s: u64| poisson::cdf_at(m, lambda, s), p),
    ensures
        poisson::quantile(m, lambda, p) matches Ok(s) ==> s == u64::MAX || smallest(
            |s: u64| poisson::cdf_at(m, lambda, s),
            p,
            s,
        ),
{
    let cdf = |s: u64| poisson::cdf_at(m, lambda, s);
    let short = |s: u64| poisson::cdf_at(m, lambda, s).lt(p);
    assert forall|s: u64, t: u64| s <= t && #[trigger] short(t) implies #[trigger] short(s) by {
        assert(cdf(t).lt(p) ==> cdf(s).lt(p));
    }
    let hi = grow_spec(short, poisson::far_count(lambda));
    law_least_is_smallest(short, 0, hi);
    let r = least_spec(short, 0, hi);
    if !short(hi) {
        assert(!short(r));
        assert(!cdf(r).lt(p));
        assert forall|t: u64| t < r implies (#[trigger] cdf(t)).lt(p) by {
            assert(short(t));
        }
    }
}

/// The quantiles of zero and one are the ends of the support, and a number that is no
/// probability is refused, from either side.
pub proof fn law_negative_binomial_quantile_ends<M: Fn(Elementary) -> F64>(
    m: &M,
    r: u64,
    pr: F64,
    p: F64,
)
    ensures
        negative_binomial::quantile(m, r, pr, lit(ZERO))
            == Ok::<u64, negative_binomial::NegativeBinomialError>(0u64),
        negative_binomial::quantile(m, r, pr, lit(ONE))
            == Ok::<u64, negative_binomial::NegativeBinomialError>(u64::MAX),
        !within(p, lit(ZERO), lit(ONE))
            ==> negative_binomial::quantile(m, r, pr, p)
                == Err::<u64, negative_binomial::NegativeBinomialError>(
                    negative_binomial::NegativeBinomialError::ProbabilityOutOfRange(p),
                ),
        negative_binomial::upper_count(m, r, pr, lit(ZERO))
            == Ok::<u64, negative_binomial::NegativeBinomialError>(u64::MAX),
        negative_binomial::upper_count(m, r, pr, lit(ONE))
            == Ok::<u64, negative_binomial::NegativeBinomialError>(0u64),
        !within(p, lit(ZERO), lit(ONE))
            ==> negative_binomial::upper_count(m, r, pr, p)
                == Err::<u64, negative_binomial::NegativeBinomialError>(
                    negative_binomial::NegativeBinomialError::ProbabilityOutOfRange(p),
                ),
{
    lemma_unit();
}

/// The quantile of a probability strictly between zero and one is the smallest count at
/// which the distribution function reaches it, or the
/// largest count where none within the search does.
pub proof fn law_negative_binomial_quantile_is_smallest<M: Fn(Elementary) -> F64>(
    m: &M,
    r: u64,
    pr: F64,
    p: F64,
)
    requires
        !p.equals(lit(ZERO)),
        !p.equals(lit(ONE)),
        reaches_once(|s: u64| negative_binomial::cdf_at(m, r, pr, s), p),
    ensures
        negative_binomial::quantile(m, r, pr, p) matches Ok(s) ==> s == u64::MAX || smallest(
            |s: u64| negative_binomial::cdf_at(m, r, pr, s),
            p,
            s,
        ),
{
    let cdf = |s: u64| negative_binomial::cdf_at(m, r, pr, s);
    let short = |s: u64| negative_binomial::cdf_at(m, r, pr, s).lt(p);
    assert forall|s: u64, t: u64| s <= t && #[trigger] short(t) implies #[trigger] short(s) by {
        assert(cdf(t).lt(p) ==> cdf(s).lt(p));
    }
    let hi = grow_spec(short, negative_binomial::far_count(r, pr));
    law_least_is_smallest(short, 0, hi);
    let k = least_spec(short, 0, hi);
    if !short(hi) {
        assert(!short(k));
        assert(!cdf(k).lt(p));
        assert forall|t: u64| t < k implies (#[trigger] cdf(t)).lt(p) by {
            assert(short(t));
        }
    }
}

/// The probabilities above the counts from zero up do not rise to `q` again once they
/// have fallen below it.
pub open spec fn falls_once(ccdf: spec_fn(u64) -> F64, q: F64) -> bool {
    forall|s: u64, t: u64| s <= t && (#[trigger] ccdf(t)).ge(q) ==> (#[trigger] ccdf(s)).ge(q)
}

/// `s` is the largest count with at least `q` above it, or zero where there is none.
pub open spec fn largest(ccdf: spec_fn(u64) -> F64, q: F64, s: u64) -> bool {
    &&& s == 0 || ccdf(s).ge(q)
    &&& forall|t: u64| t > s ==> !(#[trigger] ccdf(t)).ge(q)
}

/// The upper count of a probability strictly between zero and one is the largest count
/// with at least that probability above it, or zero where there is none.
pub proof fn law_binomial_upper_count_is_largest<M: Fn(Elementary) -> F64>(m: &M, n: u64, pr: F64, q: F64)
    requires
        !q.equals(lit(ZERO)),
        !q.equals(lit(ONE)),
        falls_once(|s: u64| binomial::ccdf_at(m, n, pr, s), q),
    ensures
        binomial::upper_count(m, n, pr, q) matches Ok(s) ==> largest(
            |s: u64| binomial::ccdf_at(m, n, pr, s),
            q,
            s,
        ),
{
    let ccdf = |s: u64| binomial::ccdf_at(m, n, pr, s);
    let full = |s: u64| binomial::ccdf_at(m, n, pr, s).ge(q);
    assert forall|s: u64, t: u64| s <= t && #[trigger] full(t) implies #[trigger] full(s) by {
        assert(ccdf(t).ge(q) ==> ccdf(s).ge(q));
    }
    let hi = n;
    law_least_is_smallest(full, 0, hi);
    let e = least_spec(full, 0, hi);
    if within(q, lit(ZERO), lit(ONE)) {
        assert(!full(hi)) by {
            broadcast use lemma_equals_units;
            broadcast use lemma_le_units;
        }
    }
    if !full(hi) {
        assert(!full(e));
        assert forall|t: u64| t >= e implies !(#[trigger] ccdf(t)).ge(q) by {
            assert(full(t) ==> full(e));
        }
        if e > 0 {
            assert(full((e - 1) as u64));
            assert(ccdf((e - 1) as u64).ge(q));
        }
    }
}

/// The upper count of a probability strictly between zero and one is the largest count
/// with at least that probability above it, or zero where there is none, or the largest
/// count of all where the search does not come to its end.
pub proof fn law_poisson_upper_count_is_largest<M: Fn(Elementary) -> F64>(m: &M, lambda: F64, q: F64)
    requires
        !q.equals(lit(ZERO)),
        !q.equals(lit(ONE)),
        falls_once(|s: u64| poisson::ccdf_at(m, lambda, s), q),
    ensures
        poisson::upper_count(m, lambda, q) matches Ok(s) ==> s == u64::MAX || largest(
            |s: u64| poisson::ccdf_at(m, lambda, s),
            q,
            s,
        ),
{
    let ccdf = |s: u64| poisson::ccdf_at(m, lambda, s);
    let full = |s: u64| poisson::ccdf_at(m, lambda, s).ge(q);
    assert forall|s: u64, t: u64| s <= t && #[trigger] full(t) implies #[trigger] full(s) by {
        assert(ccdf(t).ge(q) ==> ccdf(s).ge(q));
    }
    let hi = grow_spec(full, poisson::far_count(lambda));
    law_least_is_smallest(full, 0, hi);
    let e = least_spec(full, 0, hi);
    if !full(hi) {
        assert(!full(e));
        assert forall|t: u64| t >= e implies !(#[trigger] ccdf(t)).ge(q) by {
            assert(full(t) ==> full(e));
        }
        if e > 0 {
            assert(full((e - 1) as u64));
            assert(ccdf((e - 1) as u64).ge(q));
        }
    }
}

/// The upper count of a probability strictly between zero and one is the largest count
/// with at least that probability above it, or zero where there is none, or the largest
/// count of all where the search does not come to its end.
pub proof fn law_negative_binomial_upper_count_is_largest<M: Fn(Elementary) -> F64>(m: &M, r: u64, pr: F64, q: F64)
    requires
        !q.equals(lit(ZERO)),
        !q.equals(lit(ONE)),
        falls_once(|s: u64| negative_binomial::ccdf_at(m, r, pr, s), q),
    ensures
        negative_binomial::upper_count(m, r, pr, q) matches Ok(s) ==> s == u64::MAX || largest(
            |s: u64| negative_binomial::ccdf_at(m, r, pr, s),
            q,
            s,
        ),
{
    let ccdf = |s: u64| negative_binomial::ccdf_at(m, r, pr, s);
    let full = |s: u64| negative_binomial::ccdf_at(m, r, pr, s).ge(q);
    assert forall|s: u64, t: u64| s <= t && #[trigger] full(t) implies #[trigger] full(s) by {
        assert(ccdf(t).ge(q) ==> ccdf(s).ge(q));
    }
    let hi = grow_spec(full, negative_binomial::far_count(r, pr));
    law_least_is_smallest(full, 0, hi);
    let e = least_spec(full, 0, hi);
    if !full(hi) {
        assert(!full(e));
        assert forall|t: u64| t >= e implies !(#[trigger] ccdf(t)).ge(q) by {
            assert(full(t) ==> full(e));
        }
        if e > 0 {
            assert(full((e - 1) as u64));
            assert(ccdf((e - 1) as u64).ge(q));
        }
    }
}

/// Where every trial succeeds, only the count of zero has any probability.
pub proof fn law_negative_binomial_certain<M: Fn(Elementary) -> F64>(m: &M, r: u64, pr: F64, s: u64)
    requires
        pr.equals(lit(ONE)),
    ensures
        ({
            let rf = F64::from_u64(r);
            let sf = F64::from_u64(s);
            let v = gamma_log(m, sf + rf) - gamma_log(m, sf + lit(ONE)) - gamma_log(m, rf)
                + rf * ln(m, pr);
            &&& s == 0 ==> negative_binomial::ln_mass(m, r, pr, s) == v + lit(ZERO)
            &&& s > 0 && v.is_finite() ==> negative_binomial::ln_mass(m, r, pr, s) == lit(NEG_INFINITY)
        }),
{
    reveal(F64::spec_add);
}

/// The density is the exponential of its logarithm.
pub proof fn law_normal_density<M: Fn(Elementary) -> F64>(m: &M, mean: F64, sd: F64, x: F64)
    ensures
        normal::density(m, mean, sd, x) == exp(m, normal::ln_density(m, mean, sd, x)),
{
}

/// The density is the exponential of its logarithm.
pub proof fn law_students_t_density<M: Fn(Elementary) -> F64>(m: &M, df: F64, x: F64)
    ensures
        students_t::density(m, df, x) == exp(m, students_t::ln_density(m, df, x)),
{
}

/// Inside the support the density is the exponential of its logarithm.
pub proof fn law_gamma_density<M: Fn(Elementary) -> F64>(m: &M, shape: F64, rate: F64, x: F64)
    requires
        !x.le(lit(ZERO)),
    ensures
        gamma::density(m, shape, rate, x) == exp(m, gamma::ln_density(m, shape, rate, x)),
{
}

/// Inside the support the density is the exponential of its logarithm.
pub proof fn law_chi_squared_density<M: Fn(Elementary) -> F64>(m: &M, df: F64, x: F64)
    requires
        !x.le(lit(ZERO)),
    ensures
        chi_squared::density(m, df, x) == exp(m, chi_squared::ln_density(m, df, x)),
{
}

/// Inside the support the density is the exponential of its logarithm.
pub proof fn law_fisher_snedecor_density<M: Fn(Elementary) -> F64>(
    m: &M,
    dfn: F64,
    dfd: F64,
    x: F64,
)
    requires
        !x.le(lit(ZERO)),
    ensures
        fisher_snedecor::density(m, dfn, dfd, x)
            == exp(m, fisher_snedecor::ln_density(m, dfn, dfd, x)),
{
}

/// Inside the support the density is the exponential of its logarithm.
pub proof fn law_beta_density<M: Fn(Elementary) -> F64>(m: &M, a: F64, b: F64, x: F64)
    requires
        !x.le(lit(ZERO)),
        !x.ge(lit(ONE)),
    ensures
        beta::density(m, a, b, x) == exp(m, beta::ln_density(m, a, b, x)),
{
}

} // verus!
