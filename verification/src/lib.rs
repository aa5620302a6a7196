//! Reconstruction of a limit-order book from snapshot and depth-diff feeds,
//! and reconciliation of reported trades against the book's best-level
//! volume deltas.
//!
//! Prices and quantities are fixed-point decimals represented as plain
//! integers: every value carries an implicit common scale chosen by the
//! caller (the number of decimal places), so that addition, subtraction,
//! comparison and zero tests on the scaled integers agree with the same
//! operations on the decimals they stand for.

pub mod amount;
pub mod config;
pub mod fusion;
pub mod ladder;
pub mod messages;
pub mod orderbook;
pub mod replay;
pub mod trade_matcher;
