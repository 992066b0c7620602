//! A verified matching engine: a price-time limit order book, a balance
//! ledger of available and locked funds, and the request dispatcher that
//! couples them to a request-reply message bus.
pub mod engine;
pub mod engine_consts;
pub mod fixed;
pub mod laws;
pub mod ledger;
pub mod numfmt;
pub mod orderbook;
pub mod types;
