//! What a distribution can be asked for.
use crate::float::F64;
use crate::functions::{lawful, Elementary};
use vstd::prelude::*;

verus! {

/// A distribution on the real line.
pub trait ContinuousCdf<M: Fn(Elementary) -> F64> {
    type Error;

    spec fn cdf_spec(&self, m: &M, x: F64) -> F64;

    spec fn ccdf_spec(&self, m: &M, x: F64) -> F64;

    spec fn inverse_cdf_spec(&self, m: &M, p: F64) -> Result<F64, Self::Error>;

    /// The probability of a value of at most `x`.
    fn cdf(&self, m: &M, x: F64) -> (r: F64)
        requires
            lawful(m),
        ensures
            r == self.cdf_spec(m, x),
    ;

    /// The probability of a value above `x`.
    fn ccdf(&self, m: &M, x: F64) -> (r: F64)
        requires
            lawful(m),
        ensures
            r == self.ccdf_spec(m, x),
    ;

    /// The value with the probability `p` below it.
    fn inverse_cdf(&self, m: &M, p: F64) -> (r: Result<F64, Self::Error>)
        requires
            lawful(m),
        ensures
            r == self.inverse_cdf_spec(m, p),
    ;

    /// The probability of a value above `x`.
    fn sf(&self, m: &M, x: F64) -> (r: F64)
        requires
            lawful(m),
        ensures
            r == self.ccdf_spec(m, x),
    ;
}

/// A distribution on the whole numbers.
pub trait DiscreteCdf<M: Fn(Elementary) -> F64> {
    type Error;

    spec fn cdf_spec(&self, m: &M, s: u64) -> F64;

    spec fn ccdf_spec(&self, m: &M, s: u64) -> F64;

    spec fn inverse_cdf_spec(&self, m: &M, p: F64) -> Result<u64, Self::Error>;

    /// The probability of a count of at most `s`.
    fn cdf(&self, m: &M, s: u64) -> (r: F64)
        requires
            lawful(m),
        ensures
            r == self.cdf_spec(m, s),
    ;

    /// The probability of a count above `s`.
    fn ccdf(&self, m: &M, s: u64) -> (r: F64)
        requires
            lawful(m),
        ensures
            r == self.ccdf_spec(m, s),
    ;

    /// The smallest count whose probability, with those below it, reaches `p`.
    fn inverse_cdf(&self, m: &M, p: F64) -> (r: Result<u64, Self::Error>)
        requires
            lawful(m),
        ensures
            r == self.inverse_cdf_spec(m, p),
    ;

    /// The probability of a count above `s`.
    fn sf(&self, m: &M, s: u64) -> (r: F64)
        requires
            lawful(m),
        ensures
            r == self.ccdf_spec(m, s),
    ;
}

/// A distribution with a density.
pub trait Continuous<M: Fn(Elementary) -> F64> {
    spec fn pdf_spec(&self, m: &M, x: F64) -> F64;

    spec fn ln_pdf_spec(&self, m: &M, x: F64) -> F64;

    /// The density.
    fn pdf(&self, m: &M, x: F64) -> (r: F64)
        requires
            lawful(m),
        ensures
            r == self.pdf_spec(m, x),
    ;

    /// The logarithm of the density.
    fn ln_pdf(&self, m: &M, x: F64) -> (r: F64)
        requires
            lawful(m),
        ensures
            r == self.ln_pdf_spec(m, x),
    ;
}

/// A distribution with a probability for each count.
pub trait Discrete<M: Fn(Elementary) -> F64> {
    spec fn pmf_spec(&self, m: &M, s: u64) -> F64;

    spec fn ln_pmf_spec(&self, m: &M, s: u64) -> F64;

    /// The probability of a count.
    fn pmf(&self, m: &M, s: u64) -> (r: F64)
        requires
            lawful(m),
        ensures
            r == self.pmf_spec(m, s),
    ;

    /// The logarithm of the probability of a count.
    fn ln_pmf(&self, m: &M, s: u64) -> (r: F64)
        requires
            lawful(m),
        ensures
            r == self.ln_pmf_spec(m, s),
    ;
}

/// A distribution with a mean.
pub trait Mean {
    spec fn mean_spec(&self) -> F64;

    /// The mean.
    fn mean(&self) -> (r: F64)
        ensures
            r == self.mean_spec(),
    ;
}

/// A distribution with a variance.
pub trait Variance {
    spec fn variance_spec(&self) -> F64;

    /// The variance.
    fn variance(&self) -> (r: F64)
        ensures
            r == self.variance_spec(),
    ;

    /// The standard deviation.
    fn std_dev(&self) -> (r: F64)
        ensures
            r == self.variance_spec().sqrt(),
    ;
}

/// A distribution with an entropy.
pub trait Entropy<M: Fn(Elementary) -> F64> {
    spec fn entropy_spec(&self, m: &M) -> F64;

    /// The entropy.
    fn entropy(&self, m: &M) -> (r: F64)
        requires
            lawful(m),
        ensures
            r == self.entropy_spec(m),
    ;
}

} // verus!
