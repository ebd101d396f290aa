//! Root searches of monotone functions between two bounds.
pub mod answer_laws;
pub mod bracket_laws;
pub mod dinvr;
pub mod drive;
pub mod dzror;
pub mod laws;

pub use drive::{
    search_bounded_zero, search_bounded_zero_with_tol, search_monotone, search_monotone_with_atol,
};
