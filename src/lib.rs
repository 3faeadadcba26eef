//! Off-chain core of a central limit order book: the order book with price-time priority,
//! the matching engine (limit, market and post-only orders; time in force; self-trade
//! prevention), the market-data subscription rules, request helpers, and the binary records
//! of orders, trades and snapshots.
//!
//! - `types`: orders, trades, snapshots, enums with their wire values, errors.
//! - `matching`: the model of one matching run and what holds along it.
//! - `book`: the order book, its invariant and its operations.
//! - `engine`: validation, matching, time in force, cancel, modify, expiry.
//! - `laws`: properties that relate several operations.
//! - `fanout`: which subscriber receives which update; session messages; keep-alive.
//! - `api`: request limits, trade statistics, configuration checks, account keys.
//! - `codec`: byte records and their round trips.

use vstd::prelude::*;

pub mod types;
pub mod matching;
pub mod book;
pub mod engine;
pub mod laws;
pub mod fanout;
pub mod api;
pub mod codec;

verus! {

} // verus!
