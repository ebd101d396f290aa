//! Special functions.
pub mod accuracy_laws;
pub mod beta;
pub mod beta_fraction_laws;
pub mod beta_inc;
pub mod beta_sum_laws;
pub mod erf;
pub mod fraction_laws;
pub mod gamma;
pub mod gamma_inc;
pub mod gamma_inv;
pub mod internal;
pub mod inverse_laws;
pub mod inverse_undo_laws;
pub mod laws;
pub mod normal;
pub mod normal_laws;
pub mod normal_smooth_laws;
pub mod poly;
pub mod ratio_laws;
pub mod small_series_laws;
pub mod students_t;
pub mod uniform_laws;

pub use beta::{beta, beta_log};
pub use beta_inc::{beta_inc, try_beta_inc, BetaIncError};
pub use erf::{error_f, error_fc, error_fc_scaled};
pub use gamma::{gamma, gamma_log, psi, try_gamma, try_psi, GammaDomainError, PsiError};
pub use gamma_inc::{
    gamma_inc, gamma_inc_with_acc, try_gamma_inc, try_gamma_inc_with_acc, GammaIncAcc, GammaIncError,
};
pub use gamma_inv::{gamma_inc_inv, try_gamma_inc_inv, GammaIncInvError};
pub use normal::{cumnor, dinvnr, dlanor};
pub use students_t::dt1;
