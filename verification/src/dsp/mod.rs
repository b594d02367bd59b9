//! Machinery shared by the processors.

pub mod algebra;
pub mod delay;
pub mod memory;
pub mod sanitize;
pub mod smoother;
pub mod summing;
pub mod wedge;
pub mod schedule;
pub mod driver;
pub mod lifecycle;
pub mod ramps;
pub mod rng;
pub mod interpolation;
pub mod lanes;
pub mod level;
pub mod oversample;
