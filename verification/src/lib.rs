//! A limit order book and price-time priority matching engine.
//!
//! Resting orders live in an arena as the nodes of one doubly linked
//! list per price level; the levels of each side are kept in a
//! `BTreeMap` keyed by price, and an index maps each live order id to its
//! arena slot so that a cancel unlinks it in constant time.

pub mod types;
pub mod arena;
pub mod orderbook;
pub mod model;
pub mod links;
pub mod matching;
pub mod laws;
