//! The number type and its operations.
use super::arith::{add_enc, div_enc, mul_enc, sqrt_enc};
use super::model::{lemma_mag_increasing, lemma_mag_zero, mag, round_ratio, round_root, INF_ENC, SIGN};
use super::whole::{round_whole, whole, whole_above, whole_enc, whole_enc_of, whole_part};
use vstd::arithmetic::power2::pow2;
use vstd::prelude::*;

verus! {

/// A binary64 number, held as its bit pattern.
#[derive(Clone, Copy, Debug, PartialEq, Eq, Structural)]
pub struct F64 {
    pub bits: u64,
}

/// The number with the given bits.
pub open spec fn lit_spec(bits: u64) -> F64 {
    F64 { bits }
}

/// The number with the given bits.
#[verifier::when_used_as_spec(lit_spec)]
pub fn lit(bits: u64) -> (r: F64)
    ensures
        r == lit_spec(bits),
{
    F64 { bits }
}

/// The bits of every NaN that an operation returns.
pub const NAN: u64 = 0x7FF8_0000_0000_0000;

/// The bits of positive infinity.
pub const INFINITY: u64 = 0x7FF0_0000_0000_0000;

/// The bits of negative infinity.
pub const NEG_INFINITY: u64 = 0xFFF0_0000_0000_0000;

/// The bits of zero.
pub const ZERO: u64 = 0;

/// The bits of one.
pub const ONE: u64 = 0x3FF0_0000_0000_0000;

/// The number with the given sign and magnitude.
pub open spec fn signed_spec(neg: bool, enc: u64) -> F64 {
    F64 {
        bits: if neg {
            (enc + SIGN) as u64
        } else {
            enc
        },
    }
}

/// The number with the given sign and magnitude.
#[verifier::when_used_as_spec(signed_spec)]
pub fn signed(neg: bool, enc: u64) -> (r: F64)
    requires
        enc < SIGN,
    ensures
        r == signed_spec(neg, enc),
        r.sign() == neg,
        r.enc() == enc,
{
    F64 {
        bits: if neg {
            enc + SIGN
        } else {
            enc
        },
    }
}

impl F64 {
    /// The sign bit is set.
    pub open spec fn sign_spec(self) -> bool {
        self.bits >= SIGN
    }

    /// The sign bit is set.
    #[verifier::when_used_as_spec(sign_spec)]
    pub fn sign(self) -> (r: bool)
        ensures
            r == self.sign(),
    {
        self.bits >= SIGN
    }

    /// The bits without the sign bit.
    pub open spec fn enc_spec(self) -> u64 {
        if self.bits >= SIGN {
            (self.bits - SIGN) as u64
        } else {
            self.bits
        }
    }

    /// The bits without the sign bit.
    #[verifier::when_used_as_spec(enc_spec)]
    pub fn enc(self) -> (r: u64)
        ensures
            r == self.enc(),
            r < SIGN,
    {
        if self.bits >= SIGN {
            self.bits - SIGN
        } else {
            self.bits
        }
    }

    /// What a number other than NaN stands for, in units of 2^-1074. The
    /// infinities count as 2^1024.
    pub open spec fn units(self) -> int {
        if self.sign() {
            -mag(self.enc() as int)
        } else {
            mag(self.enc() as int)
        }
    }

    /// The encoding with the sign: it orders the numbers as their values do.
    pub open spec fn key(self) -> int {
        if self.sign() {
            -(self.enc() as int)
        } else {
            self.enc() as int
        }
    }

    pub open spec fn is_nan_spec(self) -> bool {
        self.enc() > INF_ENC
    }

    /// Not a number.
    #[verifier::when_used_as_spec(is_nan_spec)]
    pub fn is_nan(self) -> (r: bool)
        ensures
            r == self.is_nan(),
    {
        self.enc() > INF_ENC
    }

    pub open spec fn is_finite_spec(self) -> bool {
        self.enc() < INF_ENC
    }

    /// Neither infinite nor NaN.
    #[verifier::when_used_as_spec(is_finite_spec)]
    pub fn is_finite(self) -> (r: bool)
        ensures
            r == self.is_finite(),
    {
        self.enc() < INF_ENC
    }

    pub open spec fn lt_spec(self, o: F64) -> bool {
        !self.is_nan() && !o.is_nan() && self.key() < o.key()
    }

    /// Less than; no NaN is less than anything.
    #[verifier::when_used_as_spec(lt_spec)]
    pub fn lt(self, o: F64) -> (r: bool)
        ensures
            r == self.lt(o),
    {
        if self.is_nan() || o.is_nan() {
            false
        } else if self.sign() {
            if o.sign() {
                self.enc() > o.enc()
            } else {
                self.enc() > 0 || o.enc() > 0
            }
        } else {
            !o.sign() && self.enc() < o.enc()
        }
    }

    pub open spec fn le_spec(self, o: F64) -> bool {
        !self.is_nan() && !o.is_nan() && self.key() <= o.key()
    }

    /// Less than or equal.
    #[verifier::when_used_as_spec(le_spec)]
    pub fn le(self, o: F64) -> (r: bool)
        ensures
            r == self.le(o),
    {
        !self.is_nan() && !o.is_nan() && !o.lt(self)
    }

    pub open spec fn gt_spec(self, o: F64) -> bool {
        o.lt(self)
    }

    /// Greater than.
    #[verifier::when_used_as_spec(gt_spec)]
    pub fn gt(self, o: F64) -> (r: bool)
        ensures
            r == self.gt(o),
    {
        o.lt(self)
    }

    pub open spec fn ge_spec(self, o: F64) -> bool {
        o.le(self)
    }

    /// Greater than or equal.
    #[verifier::when_used_as_spec(ge_spec)]
    pub fn ge(self, o: F64) -> (r: bool)
        ensures
            r == self.ge(o),
    {
        o.le(self)
    }

    pub open spec fn equals_spec(self, o: F64) -> bool {
        !self.is_nan() && !o.is_nan() && self.key() == o.key()
    }

    /// Numerically equal: the zeros are equal, no NaN equals anything.
    #[verifier::when_used_as_spec(equals_spec)]
    pub fn equals(self, o: F64) -> (r: bool)
        ensures
            r == self.equals(o),
    {
        if self.is_nan() || o.is_nan() {
            false
        } else if self.sign() == o.sign() {
            self.enc() == o.enc()
        } else {
            self.enc() == 0 && o.enc() == 0
        }
    }

    pub open spec fn abs_spec(self) -> F64 {
        F64 { bits: self.enc() }
    }

    /// The sign bit cleared.
    #[verifier::when_used_as_spec(abs_spec)]
    pub fn abs(self) -> (r: F64)
        ensures
            r == self.abs(),
    {
        F64 { bits: self.enc() }
    }

    pub open spec fn negated_spec(self) -> F64 {
        signed(!self.sign(), self.enc())
    }

    /// The sign bit turned over.
    #[verifier::when_used_as_spec(negated_spec)]
    pub fn negated(self) -> (r: F64)
        ensures
            r == self.negated(),
    {
        signed(!self.sign(), self.enc())
    }

    pub open spec fn copysign_spec(self, o: F64) -> F64 {
        signed(o.sign(), self.enc())
    }

    /// The magnitude of the first with the sign of the second.
    #[verifier::when_used_as_spec(copysign_spec)]
    pub fn copysign(self, o: F64) -> (r: F64)
        ensures
            r == self.copysign(o),
    {
        signed(o.sign(), self.enc())
    }

    pub open spec fn signum_spec(self) -> F64 {
        if self.is_nan() {
            lit(NAN)
        } else {
            signed(self.sign(), ONE)
        }
    }

    /// One with the sign of the number; NaN of NaN.
    #[verifier::when_used_as_spec(signum_spec)]
    pub fn signum(self) -> (r: F64)
        ensures
            r == self.signum(),
    {
        if self.is_nan() {
            lit(NAN)
        } else {
            signed(self.sign(), ONE)
        }
    }

    pub open spec fn max_spec(self, o: F64) -> F64 {
        if self.is_nan() || self.lt(o) {
            o
        } else {
            self
        }
    }

    /// The greater one; the other one where one is NaN.
    #[verifier::when_used_as_spec(max_spec)]
    pub fn max(self, o: F64) -> (r: F64)
        ensures
            r == self.max(o),
    {
        if self.is_nan() || self.lt(o) {
            o
        } else {
            self
        }
    }

    pub open spec fn min_spec(self, o: F64) -> F64 {
        if self.is_nan() || o.lt(self) {
            o
        } else {
            self
        }
    }

    /// The lesser one; the other one where one is NaN.
    #[verifier::when_used_as_spec(min_spec)]
    pub fn min(self, o: F64) -> (r: F64)
        ensures
            r == self.min(o),
    {
        if self.is_nan() || o.lt(self) {
            o
        } else {
            self
        }
    }

    /// The exact sum, rounded. A sum of zero is positive, but for that of two
    /// negative zeros.
    #[verifier::opaque]
    pub open spec fn spec_add(self, o: F64) -> F64 {
        if self.is_nan() || o.is_nan() {
            lit(NAN)
        } else if !self.is_finite() {
            if !o.is_finite() && self.sign() != o.sign() {
                lit(NAN)
            } else {
                self
            }
        } else if !o.is_finite() {
            o
        } else {
            let sum = self.units() + o.units();
            if sum == 0 {
                signed(self.sign() && o.sign(), 0)
            } else if sum > 0 {
                signed(false, round_ratio(sum, 1))
            } else {
                signed(true, round_ratio(-sum, 1))
            }
        }
    }

    /// The exact sum, rounded.
    pub fn sum(self, o: F64) -> (r: F64)
        ensures
            r == self + o,
    {
        proof {
            reveal(F64::spec_add);
        }
        if self.is_nan() || o.is_nan() {
            lit(NAN)
        } else if !self.is_finite() {
            if !o.is_finite() && self.sign() != o.sign() {
                lit(NAN)
            } else {
                self
            }
        } else if !o.is_finite() {
            o
        } else {
            let a: u64 = self.enc();
            let b: u64 = o.enc();
            proof {
                lemma_order(a as int, b as int);
            }
            let plus: bool = self.sign() == o.sign();
            if (a == 0 && b == 0) || (!plus && a == b) {
                signed(self.sign() && o.sign(), 0)
            } else if b <= a {
                signed(self.sign(), add_enc(a, b, plus))
            } else {
                signed(o.sign(), add_enc(b, a, plus))
            }
        }
    }

    /// The sum with the second number's sign turned over.
    pub open spec fn spec_sub(self, o: F64) -> F64 {
        self + o.negated()
    }

    /// The exact product, rounded.
    #[verifier::opaque]
    pub open spec fn spec_mul(self, o: F64) -> F64 {
        let neg = self.sign() != o.sign();
        if self.is_nan() || o.is_nan() {
            lit(NAN)
        } else if !self.is_finite() || !o.is_finite() {
            if self.enc() == 0 || o.enc() == 0 {
                lit(NAN)
            } else {
                signed(neg, INF_ENC)
            }
        } else {
            signed(neg, round_ratio(mag(self.enc() as int) * mag(o.enc() as int), pow2(1074) as int))
        }
    }

    /// The exact product, rounded.
    pub fn product(self, o: F64) -> (r: F64)
        ensures
            r == self * o,
    {
        proof {
            reveal(F64::spec_mul);
        }
        let neg: bool = self.sign() != o.sign();
        if self.is_nan() || o.is_nan() {
            lit(NAN)
        } else if !self.is_finite() || !o.is_finite() {
            if self.enc() == 0 || o.enc() == 0 {
                lit(NAN)
            } else {
                signed(neg, INF_ENC)
            }
        } else {
            signed(neg, mul_enc(self.enc(), o.enc()))
        }
    }

    /// The exact quotient, rounded.
    #[verifier::opaque]
    pub open spec fn spec_euclidean_or_real_div(self, o: F64) -> F64 {
        let neg = self.sign() != o.sign();
        if self.is_nan() || o.is_nan() {
            lit(NAN)
        } else if !self.is_finite() {
            if !o.is_finite() {
                lit(NAN)
            } else {
                signed(neg, INF_ENC)
            }
        } else if !o.is_finite() {
            signed(neg, 0)
        } else if o.enc() == 0 {
            if self.enc() == 0 {
                lit(NAN)
            } else {
                signed(neg, INF_ENC)
            }
        } else {
            signed(neg, round_ratio(mag(self.enc() as int) * pow2(1074), mag(o.enc() as int)))
        }
    }

    /// The exact quotient, rounded.
    pub fn quotient(self, o: F64) -> (r: F64)
        ensures
            r == self / o,
    {
        proof {
            reveal(F64::spec_euclidean_or_real_div);
        }
        let neg: bool = self.sign() != o.sign();
        if self.is_nan() || o.is_nan() {
            lit(NAN)
        } else if !self.is_finite() {
            if !o.is_finite() {
                lit(NAN)
            } else {
                signed(neg, INF_ENC)
            }
        } else if !o.is_finite() {
            signed(neg, 0)
        } else if o.enc() == 0 {
            if self.enc() == 0 {
                lit(NAN)
            } else {
                signed(neg, INF_ENC)
            }
        } else {
            signed(neg, div_enc(self.enc(), o.enc()))
        }
    }

    pub open spec fn squared_spec(self) -> F64 {
        self * self
    }

    /// The product of the number with itself.
    #[verifier::when_used_as_spec(squared_spec)]
    pub fn squared(self) -> (r: F64)
        ensures
            r == self.squared(),
    {
        self * self
    }

    #[verifier::opaque]
    pub open spec fn sqrt_spec(self) -> F64 {
        if self.is_nan() {
            lit(NAN)
        } else if self.enc() == 0 {
            self
        } else if self.sign() {
            lit(NAN)
        } else if !self.is_finite() {
            self
        } else {
            signed(false, round_root(mag(self.enc() as int) * pow2(1074)))
        }
    }

    /// The exact square root, rounded.
    #[verifier::when_used_as_spec(sqrt_spec)]
    pub fn sqrt(self) -> (r: F64)
        ensures
            r == self.sqrt(),
    {
        proof {
            reveal(F64::sqrt_spec);
        }
        if self.is_nan() {
            lit(NAN)
        } else if self.enc() == 0 {
            self
        } else if self.sign() {
            lit(NAN)
        } else if !self.is_finite() {
            self
        } else {
            signed(false, sqrt_enc(self.enc()))
        }
    }

    #[verifier::opaque]
    pub open spec fn trunc_spec(self) -> F64 {
        if self.is_nan() {
            lit(NAN)
        } else if !self.is_finite() {
            self
        } else {
            signed(self.sign(), round_whole(whole(self.enc() as int)))
        }
    }

    /// The whole part.
    #[verifier::when_used_as_spec(trunc_spec)]
    pub fn trunc(self) -> (r: F64)
        ensures
            r == self.trunc(),
    {
        proof {
            reveal(F64::trunc_spec);
        }
        if self.is_nan() {
            lit(NAN)
        } else if !self.is_finite() {
            self
        } else {
            signed(self.sign(), whole_enc_of(self.enc(), false))
        }
    }

    #[verifier::opaque]
    pub open spec fn ceil_spec(self) -> F64 {
        if self.is_nan() {
            lit(NAN)
        } else if !self.is_finite() {
            self
        } else if self.sign() {
            signed(true, round_whole(whole(self.enc() as int)))
        } else {
            signed(false, round_whole(whole_above(self.enc() as int)))
        }
    }

    /// The least whole number that is not below the number.
    #[verifier::when_used_as_spec(ceil_spec)]
    pub fn ceil(self) -> (r: F64)
        ensures
            r == self.ceil(),
    {
        proof {
            reveal(F64::ceil_spec);
        }
        if self.is_nan() {
            lit(NAN)
        } else if !self.is_finite() {
            self
        } else {
            signed(self.sign(), whole_enc_of(self.enc(), !self.sign()))
        }
    }

    #[verifier::opaque]
    pub open spec fn to_u64_spec(self) -> u64 {
        if self.is_nan() || self.sign() {
            0
        } else if whole(self.enc() as int) > u64::MAX {
            u64::MAX
        } else {
            whole(self.enc() as int) as u64
        }
    }

    /// The whole part, held within the range of the type; 0 of NaN.
    #[verifier::when_used_as_spec(to_u64_spec)]
    pub fn to_u64(self) -> (r: u64)
        ensures
            r == self.to_u64(),
    {
        proof {
            reveal(F64::to_u64_spec);
        }
        if self.is_nan() || self.sign() {
            0
        } else {
            let w: u128 = whole_part(self.enc());
            if w > u64::MAX as u128 {
                u64::MAX
            } else {
                w as u64
            }
        }
    }

    #[verifier::opaque]
    pub open spec fn to_i64_spec(self) -> i64 {
        let w = whole(self.enc() as int);
        if self.is_nan() {
            0
        } else if self.sign() {
            if w > 0x8000_0000_0000_0000 {
                i64::MIN
            } else {
                (-w) as i64
            }
        } else {
            if w > i64::MAX {
                i64::MAX
            } else {
                w as i64
            }
        }
    }

    /// The whole part, held within the range of the type; 0 of NaN.
    #[verifier::when_used_as_spec(to_i64_spec)]
    pub fn to_i64(self) -> (r: i64)
        ensures
            r == self.to_i64(),
    {
        proof {
            reveal(F64::to_i64_spec);
        }
        if self.is_nan() {
            return 0;
        }
        let w: u128 = whole_part(self.enc());
        if self.sign() {
            if w >= 0x8000_0000_0000_0000 {
                i64::MIN
            } else {
                -(w as i64)
            }
        } else {
            if w > 0x7FFF_FFFF_FFFF_FFFF {
                i64::MAX
            } else {
                w as i64
            }
        }
    }

    pub open spec fn to_i32_spec(self) -> i32 {
        let w = self.to_i64();
        if w < i32::MIN {
            i32::MIN
        } else if w > i32::MAX {
            i32::MAX
        } else {
            w as i32
        }
    }

    /// The whole part, held within the range of the type; 0 of NaN.
    #[verifier::when_used_as_spec(to_i32_spec)]
    pub fn to_i32(self) -> (r: i32)
        ensures
            r == self.to_i32(),
    {
        let w: i64 = self.to_i64();
        if w < i32::MIN as i64 {
            i32::MIN
        } else if w > i32::MAX as i64 {
            i32::MAX
        } else {
            w as i32
        }
    }

    #[verifier::opaque]
    pub open spec fn from_u64_spec(n: u64) -> F64 {
        signed(false, round_whole(n as int))
    }

    /// The integer, rounded.
    #[verifier::when_used_as_spec(from_u64_spec)]
    pub fn from_u64(n: u64) -> (r: F64)
        ensures
            r == F64::from_u64(n),
    {
        proof {
            reveal(F64::from_u64_spec);
        }
        signed(false, whole_enc(n as u128))
    }

    #[verifier::opaque]
    pub open spec fn from_i64_spec(n: i64) -> F64 {
        if n < 0 {
            signed(true, round_whole(-n))
        } else {
            signed(false, round_whole(n as int))
        }
    }

    /// The integer, rounded.
    #[verifier::when_used_as_spec(from_i64_spec)]
    pub fn from_i64(n: i64) -> (r: F64)
        ensures
            r == F64::from_i64(n),
    {
        proof {
            reveal(F64::from_i64_spec);
        }
        if n < 0 {
            signed(true, whole_enc((-(n as i128)) as u128))
        } else {
            signed(false, whole_enc(n as u128))
        }
    }
}

/// The order of two magnitudes is that of their encodings, and only zero is zero.
pub proof fn lemma_order(a: int, b: int)
    requires
        0 <= a,
        0 <= b,
    ensures
        a < b <==> mag(a) < mag(b),
        a == b <==> mag(a) == mag(b),
        mag(a) >= 0,
        mag(b) >= 0,
        a == 0 <==> mag(a) == 0,
        b == 0 <==> mag(b) == 0,
{
    lemma_mag_zero(a);
    lemma_mag_zero(b);
    if a < b {
        lemma_mag_increasing(a, b);
    }
    if b < a {
        lemma_mag_increasing(b, a);
    }
}

/// The order of the numbers is that of what they stand for.
pub broadcast proof fn lemma_lt_units(a: F64, b: F64)
    ensures
        #[trigger] a.lt_spec(b) == (!a.is_nan() && !b.is_nan() && a.units() < b.units()),
{
    lemma_order(a.enc() as int, b.enc() as int);
}

/// The order of the numbers is that of what they stand for.
pub broadcast proof fn lemma_le_units(a: F64, b: F64)
    ensures
        #[trigger] a.le_spec(b) == (!a.is_nan() && !b.is_nan() && a.units() <= b.units()),
{
    lemma_order(a.enc() as int, b.enc() as int);
}

/// Numbers are equal where they stand for the same.
pub broadcast proof fn lemma_equals_units(a: F64, b: F64)
    ensures
        #[trigger] a.equals_spec(b) == (!a.is_nan() && !b.is_nan() && a.units() == b.units()),
{
    lemma_order(a.enc() as int, b.enc() as int);
}

} // verus!
