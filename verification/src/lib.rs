//! Core of a single-instrument limit-order-book matching engine.
//!
//! An incoming order is matched against resting orders by price-time
//! priority; trades update both sides of each match, and the unfilled
//! remainder either rests on the book or is discarded according to the
//! order's time-in-force flags.

pub mod decimal;
pub mod order;
pub mod trade;
pub mod idindex;
pub mod model;
pub mod lemmas;
pub mod orderbook;
pub mod laws;
pub mod policy;
pub mod summary;
pub mod engine;
