//! What the searches for parameters have in common.
use crate::float::F64;
use vstd::prelude::*;

verus! {

pub open spec fn pivot_spec(p: F64, q: F64, cum: F64, ccum: F64) -> F64 {
    if p.le(q) {
        cum - p
    } else {
        ccum - q
    }
}

/// How far a distribution is from the probabilities asked for, measured on the
/// smaller one.
#[verifier::when_used_as_spec(pivot_spec)]
pub fn pivot(p: F64, q: F64, cum: F64, ccum: F64) -> (r: F64)
    ensures
        r == pivot(p, q, cum, ccum),
{
    if p.le(q) {
        cum - p
    } else {
        ccum - q
    }
}

} // verus!
