//! Transductive conformal prediction: set-valued classification with
//! per-label p-values computed from nonconformity scores.

pub mod pvalue;
pub mod cp;
pub mod region;
pub mod laws;
