//! How catalogued processors are driven.

use crate::contract::block::IoMode;
use vstd::prelude::*;

verus! {

/// How the main signal of a catalogued processor is driven.
#[derive(Clone, Copy, Debug, PartialEq, Eq, Structural)]
pub enum DriveMode {
    /// An in-place effect: reads and overwrites the same buffer.
    Effect,
    /// A source that writes output without a main input signal.
    Source,
    /// Reads a read-only input and writes a disjoint output.
    Split,
}

impl DriveMode {
    /// The signal form that an entry with this drive shape declares.
    pub fn io_mode(self) -> (r: IoMode)
        ensures
            r == (match self {
                DriveMode::Effect => IoMode::InPlace,
                DriveMode::Source => IoMode::OutputOnly,
                DriveMode::Split => IoMode::Split,
            }),
    {
        match self {
            DriveMode::Effect => IoMode::InPlace,
            DriveMode::Source => IoMode::OutputOnly,
            DriveMode::Split => IoMode::Split,
        }
    }
}

/// How a catalogued processor implements the host-facing contract.
#[derive(Clone, Copy, Debug, PartialEq, Eq, Structural)]
pub enum ProcessorAuthoring {
    /// A kernel in a kernel wrapper.
    Kernel,
    /// A direct implementation.
    Direct,
}

} // verus!
