//! Filters.

pub mod biquad;
pub mod design;
pub mod moving_average;
