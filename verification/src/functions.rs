//! Functions that the caller supplies: the elementary functions, and the objective
//! of a search.
use crate::float::F64;
use vstd::prelude::*;

verus! {

/// A value of an elementary function that the library asks its caller for.
#[derive(Clone, Copy, Debug, PartialEq, Eq, Structural)]
pub enum Elementary {
    Exp(F64),
    Ln(F64),
    Sin(F64),
    Cos(F64),
    /// The first number to the power of the second.
    Pow(F64, F64),
}

/// The supplied functions answer every question, and the same question always in
/// the same way.
pub open spec fn lawful<M: Fn(Elementary) -> F64>(m: &M) -> bool {
    &&& forall|q: Elementary| #[trigger] call_requires(m, (q,))
    &&& forall|q: Elementary, y: F64, z: F64|
        #[trigger] call_ensures(m, (q,), y) && #[trigger] call_ensures(m, (q,), z) ==> y == z
}

/// The answer to one question.
pub open spec fn answer<M: Fn(Elementary) -> F64>(m: &M, q: Elementary) -> F64 {
    choose|y: F64| call_ensures(m, (q,), y)
}

pub open spec fn exp_spec<M: Fn(Elementary) -> F64>(m: &M, x: F64) -> F64 {
    answer(m, Elementary::Exp(x))
}

/// The exponential function.
#[verifier::when_used_as_spec(exp_spec)]
pub fn exp<M: Fn(Elementary) -> F64>(m: &M, x: F64) -> (r: F64)
    requires
        lawful(m),
    ensures
        r == exp(m, x),
{
    m(Elementary::Exp(x))
}

pub open spec fn ln_spec<M: Fn(Elementary) -> F64>(m: &M, x: F64) -> F64 {
    answer(m, Elementary::Ln(x))
}

/// The natural logarithm.
#[verifier::when_used_as_spec(ln_spec)]
pub fn ln<M: Fn(Elementary) -> F64>(m: &M, x: F64) -> (r: F64)
    requires
        lawful(m),
    ensures
        r == ln(m, x),
{
    m(Elementary::Ln(x))
}

pub open spec fn sin_spec<M: Fn(Elementary) -> F64>(m: &M, x: F64) -> F64 {
    answer(m, Elementary::Sin(x))
}

/// The sine.
#[verifier::when_used_as_spec(sin_spec)]
pub fn sin<M: Fn(Elementary) -> F64>(m: &M, x: F64) -> (r: F64)
    requires
        lawful(m),
    ensures
        r == sin(m, x),
{
    m(Elementary::Sin(x))
}

pub open spec fn cos_spec<M: Fn(Elementary) -> F64>(m: &M, x: F64) -> F64 {
    answer(m, Elementary::Cos(x))
}

/// The cosine.
#[verifier::when_used_as_spec(cos_spec)]
pub fn cos<M: Fn(Elementary) -> F64>(m: &M, x: F64) -> (r: F64)
    requires
        lawful(m),
    ensures
        r == cos(m, x),
{
    m(Elementary::Cos(x))
}

pub open spec fn powf_spec<M: Fn(Elementary) -> F64>(m: &M, x: F64, y: F64) -> F64 {
    answer(m, Elementary::Pow(x, y))
}

/// `x` to the power of `y`.
#[verifier::when_used_as_spec(powf_spec)]
pub fn powf<M: Fn(Elementary) -> F64>(m: &M, x: F64, y: F64) -> (r: F64)
    requires
        lawful(m),
    ensures
        r == powf(m, x, y),
{
    m(Elementary::Pow(x, y))
}

/// An objective is defined everywhere.
pub open spec fn total<F: Fn(F64) -> F64>(f: &F) -> bool {
    forall|x: F64| #[trigger] call_requires(f, (x,))
}

/// Every value that the objective returns is that of `g`.
pub open spec fn agrees<F: Fn(F64) -> F64>(f: &F, g: spec_fn(F64) -> F64) -> bool {
    forall|x: F64, y: F64| #[trigger] call_ensures(f, (x,), y) ==> y == g(x)
}

/// The reader takes every text.
pub open spec fn reads_all<P: Fn(&str) -> Option<F64>>(read: &P) -> bool {
    forall|s: &str| #[trigger] call_requires(read, (s,))
}

/// The reader gives `g` of the characters of a text.
pub open spec fn reads_as<P: Fn(&str) -> Option<F64>>(
    read: &P,
    g: spec_fn(Seq<char>) -> Option<F64>,
) -> bool {
    forall|s: &str, r: Option<F64>| #[trigger] call_ensures(read, (s,), r) ==> r == g(s@)
}

} // verus!
