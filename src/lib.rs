//! A single-pair limit-order matching engine with price-time priority.
//!
//! `book` holds the order book and its operations, `decimal` the exact
//! fixed-point numbers that prices and amounts are read into, `laws` the
//! properties of matching proved over the operations' models, and `stamps`
//! the clock and the identifiers stamped on trades.

pub mod book;
pub mod decimal;
pub mod laws;
pub mod stamps;

pub use book::{Order, OrderBook, OrderBookEntry, OrderError, PriceLevel, RestingOrder, Side, Trade};
pub use decimal::Dec;
pub use stamps::get_current_timestamp;
