//! Level meters.
//!
//! The meters accumulate without allocating, and how a signal is divided into
//! blocks does not show in what they read.

pub mod clip;
pub mod fold;
pub mod gating;
pub mod geometry;
pub mod level;
pub mod loudness;
pub mod mean;
pub mod measures;
pub mod rolling;
pub mod spans;
pub mod true_peak;
pub mod weighting;
pub mod windowed_rms;
pub mod windowing;
