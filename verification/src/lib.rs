//! Verified audio processing.

use vstd::prelude::*;

pub mod analysis;
pub mod contract;
pub mod dsp;
pub mod dynamics;
pub mod filters;
pub mod fixed;
pub mod generators;
pub mod host;
pub mod mastering;
pub mod number;
pub mod repair;
pub mod spectral;
pub mod testing;
pub mod text;

verus! {

}
