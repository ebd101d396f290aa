//! The helpers under the special functions, by name.
pub use super::beta::{algdiv, bcorr, beta_rcomp, beta_rcomp1, dbetrm, esum};
pub use super::beta_inc::{
    apser, beta_asym, beta_frac, beta_grat, beta_pser, beta_up, fpser, gamma_rat1, BetaGratError,
};
pub use super::gamma::{alnrel, dexpm1, dstrem, gam1, gamma_ln1, gsumln, rcomp, rexp, rlog, rlog1};
pub use super::normal::stvaln;
