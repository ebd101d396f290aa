//! Search for the least count that reaches a probability.
use vstd::prelude::*;

verus! {

/// The test decides as `g` does.
pub open spec fn decides<F: Fn(u64) -> bool>(f: &F, g: spec_fn(u64) -> bool) -> bool {
    &&& forall|s: u64| #[trigger] call_requires(f, (s,))
    &&& forall|s: u64, b: bool| #[trigger] call_ensures(f, (s,), b) ==> b == g(s)
}

/// Halves the range from `lo` to `hi` by a test that holds below the answer.
pub open spec fn least_spec(short: spec_fn(u64) -> bool, lo: u64, hi: u64) -> u64
    decreases hi - lo,
{
    if lo < hi {
        let mid = (lo + (hi - lo) / 2) as u64;
        if short(mid) {
            least_spec(short, (mid + 1) as u64, hi)
        } else {
            least_spec(short, lo, mid)
        }
    } else {
        lo
    }
}

/// The least count in the range at which the test fails.
pub fn least<F: Fn(u64) -> bool>(f: &F, lo0: u64, hi0: u64) -> (r: u64)
    requires
        exists|g: spec_fn(u64) -> bool| decides(f, g),
    ensures
        forall|g: spec_fn(u64) -> bool| #[trigger] decides(f, g) ==> r == least_spec(g, lo0, hi0),
{
    let mut lo: u64 = lo0;
    let mut hi: u64 = hi0;
    while lo < hi
        invariant
            forall|s: u64| #[trigger] call_requires(f, (s,)),
            forall|g: spec_fn(u64) -> bool| #[trigger]
                decides(f, g) ==> least_spec(g, lo0, hi0) == least_spec(g, lo, hi),
        decreases hi - lo,
    {
        let mid: u64 = lo + (hi - lo) / 2;
        if f(mid) {
            lo = mid + 1;
        } else {
            hi = mid;
        }
    }
    lo
}

pub open spec fn before_spec(s: u64) -> u64 {
    if s == 0 {
        0
    } else {
        (s - 1) as u64
    }
}

/// The count before, or zero.
#[verifier::when_used_as_spec(before_spec)]
pub fn before(s: u64) -> (r: u64)
    ensures
        r == before(s),
{
    if s == 0 {
        0
    } else {
        s - 1
    }
}

/// Doubles `hi` while the test holds and there is room.
pub open spec fn grow_spec(short: spec_fn(u64) -> bool, hi: u64) -> u64
    decreases u64::MAX - hi,
{
    if short(hi) && 0 < hi < u64::MAX / 2 {
        grow_spec(short, (hi * 2) as u64)
    } else {
        hi
    }
}

/// Doubles a count while the test holds and there is room.
pub fn grow<F: Fn(u64) -> bool>(f: &F, hi0: u64) -> (r: u64)
    requires
        exists|g: spec_fn(u64) -> bool| decides(f, g),
    ensures
        forall|g: spec_fn(u64) -> bool| #[trigger] decides(f, g) ==> r == grow_spec(g, hi0),
{
    let mut hi: u64 = hi0;
    while 0 < hi && hi < u64::MAX / 2
        invariant
            forall|s: u64| #[trigger] call_requires(f, (s,)),
            forall|g: spec_fn(u64) -> bool| #[trigger]
                decides(f, g) ==> grow_spec(g, hi0) == grow_spec(g, hi),
        decreases u64::MAX - hi,
    {
        if !f(hi) {
            return hi;
        }
        hi = hi * 2;
    }
    hi
}

/// Where the test holds below the answer and not above, halving finds the least count
/// in the range at which it fails, or the upper end.
pub proof fn law_least_is_smallest(short: spec_fn(u64) -> bool, lo: u64, hi: u64)
    requires
        lo <= hi,
        forall|s: u64, t: u64| s <= t && #[trigger] short(t) ==> #[trigger] short(s),
    ensures
        lo <= least_spec(short, lo, hi) <= hi,
        least_spec(short, lo, hi) < hi ==> !short(least_spec(short, lo, hi)),
        !short(hi) ==> !short(least_spec(short, lo, hi)),
        forall|s: u64| lo <= s < least_spec(short, lo, hi) ==> #[trigger] short(s),
    decreases hi - lo,
{
    if lo < hi {
        let mid = (lo + (hi - lo) / 2) as u64;
        if short(mid) {
            law_least_is_smallest(short, (mid + 1) as u64, hi);
            let r = least_spec(short, (mid + 1) as u64, hi);
            assert forall|s: u64| lo <= s < r implies #[trigger] short(s) by {
                if s <= mid {
                    assert(short(mid));
                }
            }
        } else {
            law_least_is_smallest(short, lo, mid);
        }
    }
}

/// Doubling ends at a count at which the test fails, or at half of the largest count
/// or beyond, or at zero where it began there.
pub proof fn law_growing_ends(short: spec_fn(u64) -> bool, hi: u64)
    ensures
        grow_spec(short, hi) >= hi,
        !short(grow_spec(short, hi)) || grow_spec(short, hi) >= u64::MAX / 2 || grow_spec(short, hi) == 0,
    decreases u64::MAX - hi,
{
    if short(hi) && 0 < hi < u64::MAX / 2 {
        law_growing_ends(short, (hi * 2) as u64);
    }
}

} // verus!
