//! A multi-asset ledger: accounts map assets to signed fixed-point
//! quantities, with a checked algebra over them and a two-party exchange
//! governed by a conversion rate.

pub mod account;
pub mod asset;
pub mod fixed;
pub mod laws;
pub mod rate;
