//! The arithmetic operators.
use super::number::F64;
use vstd::prelude::*;

verus! {

impl vstd::std_specs::ops::AddSpecImpl for F64 {
    open spec fn obeys_add_spec() -> bool {
        true
    }

    open spec fn add_req(self, o: F64) -> bool {
        true
    }

    open spec fn add_spec(self, o: F64) -> F64 {
        self + o
    }
}

impl core::ops::Add for F64 {
    type Output = F64;

    fn add(self, o: F64) -> (r: F64) {
        self.sum(o)
    }
}

impl vstd::std_specs::ops::SubSpecImpl for F64 {
    open spec fn obeys_sub_spec() -> bool {
        true
    }

    open spec fn sub_req(self, o: F64) -> bool {
        true
    }

    open spec fn sub_spec(self, o: F64) -> F64 {
        self - o
    }
}

impl core::ops::Sub for F64 {
    type Output = F64;

    fn sub(self, o: F64) -> (r: F64) {
        self.sum(o.negated())
    }
}

impl vstd::std_specs::ops::MulSpecImpl for F64 {
    open spec fn obeys_mul_spec() -> bool {
        true
    }

    open spec fn mul_req(self, o: F64) -> bool {
        true
    }

    open spec fn mul_spec(self, o: F64) -> F64 {
        self * o
    }
}

impl core::ops::Mul for F64 {
    type Output = F64;

    fn mul(self, o: F64) -> (r: F64) {
        self.product(o)
    }
}

impl vstd::std_specs::ops::DivSpecImpl for F64 {
    open spec fn obeys_div_spec() -> bool {
        true
    }

    open spec fn div_req(self, o: F64) -> bool {
        true
    }

    open spec fn div_spec(self, o: F64) -> F64 {
        self / o
    }
}

impl core::ops::Div for F64 {
    type Output = F64;

    fn div(self, o: F64) -> (r: F64) {
        self.quotient(o)
    }
}

} // verus!
