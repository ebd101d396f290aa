//! Probability distributions.
pub mod answer_laws;
pub mod beta;
pub mod binomial;
pub mod chi_squared;
pub mod chi_squared_noncentral;
pub mod common;
pub mod counts;
pub mod fisher_snedecor;
pub mod fisher_snedecor_noncentral;
pub mod gamma;
pub mod crossing_laws;
pub mod density_laws;
pub mod gamma_quantile_laws;
pub mod indeterminate_laws;
pub mod laws;
pub mod mixture_laws;
pub mod negative_binomial;
pub mod normal;
pub mod poisson;
pub mod refusal_laws;
pub mod students_t;

pub use beta::{Beta, BetaError};
pub use binomial::{Binomial, BinomialError};
pub use chi_squared::{ChiSquared, ChiSquaredError};
pub use chi_squared_noncentral::{ChiSquaredNoncentral, ChiSquaredNoncentralError};
pub use fisher_snedecor::{FisherSnedecor, FisherSnedecorError};
pub use fisher_snedecor_noncentral::{FisherSnedecorNoncentral, FisherSnedecorNoncentralError};
pub use gamma::{Gamma, GammaError};
pub use negative_binomial::{NegativeBinomial, NegativeBinomialError};
pub use normal::{Normal, NormalError};
pub use poisson::{Poisson, PoissonError};
pub use students_t::{StudentsT, StudentsTError};
