//! Core engine of a personal net-worth tracker.
//!
//! Monetary quantities are fixed-point integers: a value of `1` stands for
//! 10^-4 units of the currency (see [`SCALE`]). Exchange rates use the same
//! scale and mean "1 USD = rate units of the foreign currency".

pub mod calendar;
pub mod cli;
pub mod commands;
pub mod compute;
pub mod display;
pub mod error;
pub mod model;
pub mod store;
pub mod strings;

use vstd::prelude::*;

verus! {

/// Fixed-point scale: one currency unit is `SCALE` stored units.
pub const SCALE: u64 = 10_000;

/// Largest native-currency amount one snapshot entry may hold (scaled):
/// the fixed-point analogue of "fits the machine word".
pub const VALUE_MAX: u64 = 1_000_000_000_000_000;

/// Largest USD value a single entry can reach: `VALUE_MAX * SCALE` divided
/// by the smallest positive rate, which is 1.
pub const USD_CAP: u64 = 10_000_000_000_000_000_000;

/// Most entries one snapshot may hold; keeps every snapshot total below
/// [`TOTAL_CAP`], so percentage arithmetic stays exact in 128 bits.
pub const MAX_ENTRIES: usize = 100_000;

/// Largest snapshot total: `MAX_ENTRIES * USD_CAP`.
pub const TOTAL_CAP: u128 = 1_000_000_000_000_000_000_000_000;

/// Percentages are scaled by `SCALE` too; multiplying a part by
/// `PCT_FACTOR` before dividing by the whole yields a scaled percentage.
pub const PCT_FACTOR: u64 = 1_000_000;

/// Convert a native-currency amount to USD: `value * SCALE / rate`,
/// where `rate` is the scaled "units per USD" quotation.
pub open spec fn usd_value(value: u64, rate: u64) -> int {
    (value as int) * (SCALE as int) / (rate as int)
}

} // verus!
