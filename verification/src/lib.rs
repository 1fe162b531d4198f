//! Trade-level calculator for M (double-top) and W (double-bottom) chart
//! patterns.
//!
//! Given a pattern's extreme level, its neckline level, the broker spread and
//! the pip granularity, the library derives an entry price, a stop-loss price
//! and a take-profit price, together with pip distances and a spread-quality
//! warning, and formats every level for display.
//!
//! Prices are held in a fixed-point representation: an `i64` count of
//! `10^-11` price units, so that every level with up to eleven fractional
//! decimal digits is exact. The broker spread is held as an integer count of
//! tenths of a pip.

pub mod engine;
pub mod fixed;
pub mod format;
pub mod parse;
pub mod presenter;
