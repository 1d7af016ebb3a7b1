//! A single-pair limit order book with a price-time priority matching engine.

pub mod accounts;
pub mod book;
pub mod cancel;
pub mod key;
pub mod laws;
pub mod ledger;
pub mod model;
pub mod order;
pub mod outcome;
pub mod place;
