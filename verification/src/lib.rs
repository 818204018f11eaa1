//! A single-instrument order-matching core.
//!
//! The library holds resting orders for one side of a market, bucketed into
//! price levels, and matches an incoming order against them, producing trades.
//! Prices and quantities are fixed-point integers scaled by the caller's
//! currency precision, so equal prices always share a level key exactly.

pub mod book;
pub mod order;
pub mod side;
pub mod trade;
pub mod user;
