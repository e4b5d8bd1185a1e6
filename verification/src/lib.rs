//! A fundraising pool with stake-weighted distribution of fees, and the
//! registry of ships, data accounts and observers whose logged fingerprints
//! feed the pool.
//!
//! [`fundraising`] holds the executable ledger, [`ledger`] its mathematical
//! model and [`history`] the laws proved of every sequence of requests.
//! [`registry`] and [`digest`] hold the fingerprint log and the observer
//! lists; [`address`] the identities used throughout.

pub mod address;
pub mod digest;
pub mod fundraising;
pub mod history;
pub mod ledger;
pub mod registry;
