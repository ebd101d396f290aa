//! Polynomials, and membership in an interval.
use crate::float::F64;
use vstd::prelude::*;

verus! {

/// The polynomial with the given coefficients, the constant one first, evaluated
/// from the highest power down.
pub open spec fn horner(c: Seq<F64>, x: F64) -> F64
    decreases c.len(),
{
    if c.len() <= 1 {
        c[0]
    } else {
        horner(c.skip(1), x) * x + c[0]
    }
}

/// The polynomial with the given coefficients, the constant one first.
pub fn eval_pol(c: &[F64], x: F64) -> (r: F64)
    requires
        c.len() > 0,
    ensures
        r == horner(c@, x),
{
    let mut i: usize = c.len() - 1;
    let mut acc = c[i];
    proof {
        assert(c@.skip(i as int) =~= seq![c@[i as int]]);
    }
    while i > 0
        invariant
            i < c.len(),
            acc == horner(c@.skip(i as int), x),
        decreases i,
    {
        proof {
            assert(c@.skip(i as int - 1).skip(1) =~= c@.skip(i as int));
        }
        i = i - 1;
        acc = acc * x + c[i];
    }
    proof {
        assert(c@.skip(0) =~= c@);
    }
    acc
}

pub open spec fn within_spec(x: F64, lo: F64, hi: F64) -> bool {
    lo.le(x) && x.le(hi)
}

/// The number lies in a closed interval.
#[verifier::when_used_as_spec(within_spec)]
pub fn within(x: F64, lo: F64, hi: F64) -> (r: bool)
    ensures
        r == within(x, lo, hi),
{
    lo.le(x) && x.le(hi)
}

} // verus!
