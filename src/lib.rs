//! Seasonal tire-swap recommendations from historical weather-station data.
//!
//! - `nearest`: the nearest-station resolver, k-d tree candidates (`spatial`)
//!   re-ranked by a caller's true distance;
//! - `seasons` and `observations`: per-year seasonal transition days from
//!   daily observations, and their collapse over years;
//! - `calendar`: day-of-year arithmetic and date averaging;
//! - `intake`: which stations the store takes in;
//! - `analyzer`: the recommendation for a point.
//!
//! Coordinates are whole numbers of 1e-7 degree units, distances whole
//! metres; temperatures and snowfall are decimals read exactly.

pub mod analyzer;
pub mod calendar;
pub mod intake;
pub mod nearest;
pub mod observations;
pub mod records;
pub mod seasons;
pub mod sorting;
pub mod spatial;
pub mod text;
