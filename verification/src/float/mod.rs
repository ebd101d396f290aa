//! Binary64 numbers held by their bit patterns.
pub mod ops;

pub mod arith;
pub mod bounds;
pub mod laws;
pub mod model;
pub mod number;
pub mod ratio;
pub mod relative;
pub mod round;
pub mod signed;
pub mod value;
pub mod whole;

pub use number::{lit, F64};
