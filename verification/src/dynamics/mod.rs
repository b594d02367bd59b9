//! Level-dependent gain.
//!
//! Compressor, expander, and gate use linked peak detection and hard-knee static
//! curves. Attack and release smooth the detected level, not the gain reduction.
//! Positive times are one-pole time constants; zero applies the detected level
//! immediately.

pub mod compressor;
pub mod curves;
pub mod expander;
pub mod gate;
pub mod shared;
