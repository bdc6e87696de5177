//! Dynamic trading fees for binary-outcome markets, a memo of computed fees,
//! and an arbitrage scan over the two complementary sides of a market.
//!
//! Prices are fixed-point numbers in millionths (`1_000_000` is a price of
//! 1.0), fees are fractions in billionths (`30_000_000` is 3%), and costs are
//! in units of 10^-15, so every amount here is exact.

pub mod fee;
pub mod quote;
pub mod document;
pub mod scan;
