//! Level control and word-length reduction.

pub mod ceiling;
pub mod dither;
pub mod envelope;
pub mod gain;
pub mod limiter;
pub mod scale;
pub mod scaling;
