//! A transaction-processing engine for client accounts: parsing of the
//! transaction feed, a byte-keyed store and the engine that applies deposits,
//! withdrawals, disputes, resolutions and chargebacks.

pub mod feed;
pub mod parser;
pub mod store;
pub mod transactions;
pub mod types;
