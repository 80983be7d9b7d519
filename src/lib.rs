//! Reconciliation of periodic profile-refresh jobs with the configured profiles, and the
//! addresses and answers of the proxy core's control interface.
pub mod assoc;
pub mod timer;
pub mod mihomo;
