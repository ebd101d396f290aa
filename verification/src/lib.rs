//! Cumulative distribution functions, their inverses and the special functions under
//! them, computed in binary64 arithmetic that is itself part of the library and
//! proved to round correctly.
//!
//! The elementary functions come from the caller, as one function that answers every
//! question of the type `Elementary`; see `functions`.
pub mod consts;
pub mod dist;
pub mod error;
pub mod float;
pub mod functions;
pub mod search;
pub mod solver;
pub mod special;
pub mod trace;
pub mod traits;

pub use dist::{
    Beta, BetaError, Binomial, BinomialError, ChiSquared, ChiSquaredError, ChiSquaredNoncentral,
    ChiSquaredNoncentralError, FisherSnedecor, FisherSnedecorError, FisherSnedecorNoncentral,
    FisherSnedecorNoncentralError, Gamma, GammaError, NegativeBinomial, NegativeBinomialError, Normal,
    NormalError, Poisson, PoissonError, StudentsT, StudentsTError,
};
pub use error::{SearchError, SolverError};
pub use traits::{Continuous, ContinuousCdf, Discrete, DiscreteCdf, Entropy, Mean, Variance};
