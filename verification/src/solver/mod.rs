//! Solvers that take the bracket and the direction of the function together.
pub mod bracket;
pub mod bracket_laws;
pub mod laws;
pub mod monotone;

pub use bracket::{solve_monotone, BracketStrategy, SOLVER_BOUND};
