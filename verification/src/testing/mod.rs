//! Support for tests of processors and meters.

pub mod block_size;
pub mod double;
pub mod harness;
pub mod invariance;
pub mod manifest;
pub mod registry;
pub mod replay;
pub mod signals;
pub mod snapshot;
pub mod snapshot_cases;
pub mod stretch;
