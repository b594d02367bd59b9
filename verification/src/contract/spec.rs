//! What a host asks a processor to be ready for.

use vstd::prelude::*;

verus! {

/// Rate, channel count, block size, and memory cap of a stream.
#[derive(Clone, Copy, Debug, PartialEq, Eq, Structural)]
pub struct ProcessSpec {
    /// Sample rate in Hz.
    pub sample_rate: u32,
    /// Channel count of the main signal.
    pub channels: usize,
    /// The largest block length supplied to same-rate processing or metering.
    pub max_block: usize,
    /// Optional cap on internal state, in logical reserved payload bytes: every
    /// element slot that a processor keeps available, times its element size.
    /// Allocator overcapacity, inline scalars, and container metadata are
    /// outside this measure.
    pub max_memory: Option<usize>,
}

} // verus!
