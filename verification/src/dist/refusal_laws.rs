//! The searches for parameters refuse what is no finite number.
use crate::consts::{ONE, ZERO};
use crate::dist::{
    beta, binomial, chi_squared, chi_squared_noncentral, fisher_snedecor, fisher_snedecor_noncentral, gamma,
    negative_binomial, normal, poisson, students_t,
};
use crate::float::{lit, F64};
use crate::functions::Elementary;
use crate::special::poly::within;
use vstd::prelude::*;

verus! {

/// What lies between zero and one is finite.
proof fn lemma_within_finite(x: F64)
    ensures
        within(x, lit(ZERO), lit(ONE)) ==> x.is_finite(),
        x.gt(lit(ZERO)) && x.le(lit(ONE)) ==> x.is_finite(),
{
}

/// In the beta distribution, `search_a` refuses an argument that is not finite.
pub proof fn law_beta_search_a_refuses<M: Fn(Elementary) -> F64>(
    m: &M,
    p: F64,
    q: F64,
    x: F64,
    b: F64,
)
    requires
        !p.is_finite() || !q.is_finite() || !x.is_finite() || !b.is_finite(),
    ensures
        beta::search_a_spec(m, p, q, x, b) is Err,
{
    lemma_within_finite(p);
    lemma_within_finite(q);
    lemma_within_finite(x);
    lemma_within_finite(b);
}

/// In the beta distribution, `search_b` refuses an argument that is not finite.
pub proof fn law_beta_search_b_refuses<M: Fn(Elementary) -> F64>(
    m: &M,
    p: F64,
    q: F64,
    x: F64,
    a: F64,
)
    requires
        !p.is_finite() || !q.is_finite() || !x.is_finite() || !a.is_finite(),
    ensures
        beta::search_b_spec(m, p, q, x, a) is Err,
{
    lemma_within_finite(p);
    lemma_within_finite(q);
    lemma_within_finite(x);
    lemma_within_finite(a);
}

/// In the beta distribution, `solve_a` refuses an argument that is not finite.
pub proof fn law_beta_solve_a_refuses<M: Fn(Elementary) -> F64>(m: &M, p: F64, x: F64, b: F64)
    requires
        !p.is_finite() || !x.is_finite() || !b.is_finite(),
    ensures
        beta::solve_a_spec(m, p, x, b) is Err,
{
    lemma_within_finite(p);
    lemma_within_finite(x);
    lemma_within_finite(b);
}

/// In the beta distribution, `solve_b` refuses an argument that is not finite.
pub proof fn law_beta_solve_b_refuses<M: Fn(Elementary) -> F64>(m: &M, p: F64, x: F64, a: F64)
    requires
        !p.is_finite() || !x.is_finite() || !a.is_finite(),
    ensures
        beta::solve_b_spec(m, p, x, a) is Err,
{
    lemma_within_finite(p);
    lemma_within_finite(x);
    lemma_within_finite(a);
}

/// In the binomial distribution, `solve_trials` refuses an argument that is not finite.
pub proof fn law_binomial_solve_trials_refuses<M: Fn(Elementary) -> F64>(
    m: &M,
    p: F64,
    pr: F64,
    s: u64,
)
    requires
        !p.is_finite() || !pr.is_finite(),
    ensures
        binomial::solve_trials_spec(m, p, pr, s) is Err,
{
    lemma_within_finite(p);
    lemma_within_finite(pr);
}

/// In the binomial distribution, `solve_pr` refuses an argument that is not finite.
pub proof fn law_binomial_solve_pr_refuses<M: Fn(Elementary) -> F64>(m: &M, p: F64, n: u64, s: u64)
    requires
        !p.is_finite(),
    ensures
        binomial::solve_pr_spec(m, p, n, s) is Err,
{
    lemma_within_finite(p);
}

/// In the chi-squared distribution, `solve_df` refuses an argument that is not finite.
pub proof fn law_chi_squared_solve_df_refuses<M: Fn(Elementary) -> F64>(m: &M, p: F64, x: F64)
    requires
        !p.is_finite() || !x.is_finite(),
    ensures
        chi_squared::solve_df_spec(m, p, x) is Err,
{
    lemma_within_finite(p);
    lemma_within_finite(x);
}

/// In the noncentral chi-squared distribution, `search_df` refuses an argument that is
/// not finite.
pub proof fn law_chi_squared_noncentral_search_df_refuses<M: Fn(Elementary) -> F64>(
    m: &M,
    p: F64,
    x: F64,
    ncp: F64,
)
    requires
        !p.is_finite() || !x.is_finite() || !ncp.is_finite(),
    ensures
        chi_squared_noncentral::search_df_spec(m, p, x, ncp) is Err,
{
    lemma_within_finite(p);
    lemma_within_finite(x);
    lemma_within_finite(ncp);
}

/// In the noncentral chi-squared distribution, `search_ncp` refuses an argument that is
/// not finite.
pub proof fn law_chi_squared_noncentral_search_ncp_refuses<M: Fn(Elementary) -> F64>(
    m: &M,
    p: F64,
    x: F64,
    df: F64,
)
    requires
        !p.is_finite() || !x.is_finite() || !df.is_finite(),
    ensures
        chi_squared_noncentral::search_ncp_spec(m, p, x, df) is Err,
{
    lemma_within_finite(p);
    lemma_within_finite(x);
    lemma_within_finite(df);
}

/// In the F distribution, `solve_dfn` refuses an argument that is not finite.
pub proof fn law_fisher_snedecor_solve_dfn_refuses<M: Fn(Elementary) -> F64>(
    m: &M,
    p: F64,
    q: F64,
    f: F64,
    dfd: F64,
)
    requires
        !p.is_finite() || !q.is_finite() || !f.is_finite() || !dfd.is_finite(),
    ensures
        fisher_snedecor::solve_dfn_spec(m, p, q, f, dfd) is Err,
{
    lemma_within_finite(p);
    lemma_within_finite(q);
    lemma_within_finite(f);
    lemma_within_finite(dfd);
}

/// In the F distribution, `solve_dfd` refuses an argument that is not finite.
pub proof fn law_fisher_snedecor_solve_dfd_refuses<M: Fn(Elementary) -> F64>(
    m: &M,
    p: F64,
    q: F64,
    f: F64,
    dfn: F64,
)
    requires
        !p.is_finite() || !q.is_finite() || !f.is_finite() || !dfn.is_finite(),
    ensures
        fisher_snedecor::solve_dfd_spec(m, p, q, f, dfn) is Err,
{
    lemma_within_finite(p);
    lemma_within_finite(q);
    lemma_within_finite(f);
    lemma_within_finite(dfn);
}

/// In the noncentral F distribution, `search_dfn` refuses an argument that is not
/// finite.
pub proof fn law_fisher_snedecor_noncentral_search_dfn_refuses<M: Fn(Elementary) -> F64>(
    m: &M,
    p: F64,
    f: F64,
    dfd: F64,
    ncp: F64,
)
    requires
        !p.is_finite() || !f.is_finite() || !dfd.is_finite() || !ncp.is_finite(),
    ensures
        fisher_snedecor_noncentral::search_dfn_spec(m, p, f, dfd, ncp) is Err,
{
    lemma_within_finite(p);
    lemma_within_finite(f);
    lemma_within_finite(dfd);
    lemma_within_finite(ncp);
}

/// In the noncentral F distribution, `search_dfd` refuses an argument that is not
/// finite.
pub proof fn law_fisher_snedecor_noncentral_search_dfd_refuses<M: Fn(Elementary) -> F64>(
    m: &M,
    p: F64,
    f: F64,
    dfn: F64,
    ncp: F64,
)
    requires
        !p.is_finite() || !f.is_finite() || !dfn.is_finite() || !ncp.is_finite(),
    ensures
        fisher_snedecor_noncentral::search_dfd_spec(m, p, f, dfn, ncp) is Err,
{
    lemma_within_finite(p);
    lemma_within_finite(f);
    lemma_within_finite(dfn);
    lemma_within_finite(ncp);
}

/// In the noncentral F distribution, `search_ncp` refuses an argument that is not
/// finite.
pub proof fn law_fisher_snedecor_noncentral_search_ncp_refuses<M: Fn(Elementary) -> F64>(
    m: &M,
    p: F64,
    f: F64,
    dfn: F64,
    dfd: F64,
)
    requires
        !p.is_finite() || !f.is_finite() || !dfn.is_finite() || !dfd.is_finite(),
    ensures
        fisher_snedecor_noncentral::search_ncp_spec(m, p, f, dfn, dfd) is Err,
{
    lemma_within_finite(p);
    lemma_within_finite(f);
    lemma_within_finite(dfn);
    lemma_within_finite(dfd);
}

/// In the gamma distribution, `solve_shape` refuses an argument that is not finite.
pub proof fn law_gamma_solve_shape_refuses<M: Fn(Elementary) -> F64>(
    m: &M,
    p: F64,
    q: F64,
    x: F64,
    rate: F64,
)
    requires
        !p.is_finite() || !q.is_finite() || !x.is_finite() || !rate.is_finite(),
    ensures
        gamma::solve_shape_spec(m, p, q, x, rate) is Err,
{
    lemma_within_finite(p);
    lemma_within_finite(q);
    lemma_within_finite(x);
    lemma_within_finite(rate);
}

/// In the gamma distribution, `solve_rate` refuses an argument that is not finite.
pub proof fn law_gamma_solve_rate_refuses<M: Fn(Elementary) -> F64>(
    m: &M,
    p: F64,
    q: F64,
    x: F64,
    shape: F64,
)
    requires
        !p.is_finite() || !q.is_finite() || !x.is_finite() || !shape.is_finite(),
    ensures
        gamma::solve_rate_spec(m, p, q, x, shape) is Err,
{
    lemma_within_finite(p);
    lemma_within_finite(q);
    lemma_within_finite(x);
    lemma_within_finite(shape);
}

/// In the negative binomial distribution, `solve_r` refuses an argument that is not
/// finite.
pub proof fn law_negative_binomial_solve_r_refuses<M: Fn(Elementary) -> F64>(
    m: &M,
    p: F64,
    pr: F64,
    s: u64,
)
    requires
        !p.is_finite() || !pr.is_finite(),
    ensures
        negative_binomial::solve_r_spec(m, p, pr, s) is Err,
{
    lemma_within_finite(p);
    lemma_within_finite(pr);
}

/// In the negative binomial distribution, `solve_trials` refuses an argument that is
/// not finite.
pub proof fn law_negative_binomial_solve_trials_refuses<M: Fn(Elementary) -> F64>(
    m: &M,
    p: F64,
    pr: F64,
    s: u64,
)
    requires
        !p.is_finite() || !pr.is_finite(),
    ensures
        negative_binomial::solve_trials_spec(m, p, pr, s) is Err,
{
    lemma_within_finite(p);
    lemma_within_finite(pr);
}

/// In the negative binomial distribution, `solve_pr` refuses an argument that is not
/// finite.
pub proof fn law_negative_binomial_solve_pr_refuses<M: Fn(Elementary) -> F64>(
    m: &M,
    p: F64,
    r: u64,
    s: u64,
)
    requires
        !p.is_finite(),
    ensures
        negative_binomial::solve_pr_spec(m, p, r, s) is Err,
{
    lemma_within_finite(p);
}

/// In the normal distribution, `solve_mean` refuses an argument that is not finite.
pub proof fn law_normal_solve_mean_refuses<M: Fn(Elementary) -> F64>(
    m: &M,
    p: F64,
    q: F64,
    x: F64,
    sd: F64,
)
    requires
        !p.is_finite() || !q.is_finite() || !x.is_finite() || !sd.is_finite(),
    ensures
        normal::solve_mean_spec(m, p, q, x, sd) is Err,
{
    lemma_within_finite(p);
    lemma_within_finite(q);
    lemma_within_finite(x);
    lemma_within_finite(sd);
}

/// In the normal distribution, `solve_sd` refuses an argument that is not finite.
pub proof fn law_normal_solve_sd_refuses<M: Fn(Elementary) -> F64>(
    m: &M,
    p: F64,
    q: F64,
    x: F64,
    mean: F64,
)
    requires
        !p.is_finite() || !q.is_finite() || !x.is_finite() || !mean.is_finite(),
    ensures
        normal::solve_sd_spec(m, p, q, x, mean) is Err,
{
    lemma_within_finite(p);
    lemma_within_finite(q);
    lemma_within_finite(x);
    lemma_within_finite(mean);
}

/// In the Poisson distribution, `search_lambda` refuses an argument that is not finite.
pub proof fn law_poisson_search_lambda_refuses<M: Fn(Elementary) -> F64>(
    m: &M,
    p: F64,
    q: F64,
    s: u64,
)
    requires
        !p.is_finite() || !q.is_finite(),
    ensures
        poisson::search_lambda_spec(m, p, q, s) is Err,
{
    lemma_within_finite(p);
    lemma_within_finite(q);
}

/// In the Poisson distribution, `solve_lambda` refuses an argument that is not finite.
pub proof fn law_poisson_solve_lambda_refuses<M: Fn(Elementary) -> F64>(m: &M, p: F64, s: u64)
    requires
        !p.is_finite(),
    ensures
        poisson::solve_lambda_spec(m, p, s) is Err,
{
    lemma_within_finite(p);
}

/// In the Student's t distribution, `search_df` refuses an argument that is not finite.
pub proof fn law_students_t_search_df_refuses<M: Fn(Elementary) -> F64>(
    m: &M,
    p: F64,
    q: F64,
    t: F64,
)
    requires
        !p.is_finite() || !q.is_finite() || !t.is_finite(),
    ensures
        students_t::search_df_spec(m, p, q, t) is Err,
{
    lemma_within_finite(p);
    lemma_within_finite(q);
    lemma_within_finite(t);
}

} // verus!
