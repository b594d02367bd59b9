//! The block shape that a meter is prepared for.

use crate::contract::block::AudioBlock;
use crate::contract::spec::ProcessSpec;
use crate::text::{decimal_text, push_decimal};
use vstd::prelude::*;
use vstd::string::StringExecFns;

verus! {

/// The geometry that a meter was prepared for.
#[derive(Clone, Copy, Debug, PartialEq, Eq, Structural)]
pub struct PreparedMeterContract {
    pub channels: usize,
    pub max_block: usize,
}

/// The geometry of `spec`.
pub open spec fn meter_contract(spec: ProcessSpec) -> PreparedMeterContract {
    PreparedMeterContract { channels: spec.channels, max_block: spec.max_block }
}

/// Why a block does not fit a meter.
#[derive(Clone, Copy, Debug, PartialEq, Eq, Structural)]
pub enum MeterFault {
    /// The meter has not been prepared.
    Unprepared,
    /// The channel count is not the prepared one.
    Channels { given: usize, prepared: usize },
    /// The block is longer than the prepared maximum.
    Frames { given: usize, prepared: usize },
}

/// A block of this shape is what the meter was prepared for.
pub open spec fn meter_fits(
    prepared: Option<PreparedMeterContract>,
    channels: nat,
    frames: nat,
) -> bool {
    &&& prepared is Some
    &&& channels == prepared->0.channels
    &&& frames <= prepared->0.max_block
}

/// The first reason why a block of this shape does not fit, if there is one.
pub open spec fn meter_fault(
    prepared: Option<PreparedMeterContract>,
    channels: usize,
    frames: usize,
) -> Option<MeterFault> {
    match prepared {
        None => Some(MeterFault::Unprepared),
        Some(p) => if channels != p.channels {
            Some(MeterFault::Channels { given: channels, prepared: p.channels })
        } else if frames > p.max_block {
            Some(MeterFault::Frames { given: frames, prepared: p.max_block })
        } else {
            None
        },
    }
}

/// A block without a fault fits, and a block that fits has no fault.
pub proof fn faultless_block_fits(
    prepared: Option<PreparedMeterContract>,
    channels: usize,
    frames: usize,
)
    ensures
        meter_fault(prepared, channels, frames) is None <==> meter_fits(
            prepared,
            channels as nat,
            frames as nat,
        ),
{
}

impl PreparedMeterContract {
    /// The geometry of `spec`.
    pub fn new(spec: ProcessSpec) -> (r: Self)
        ensures
            r == meter_contract(spec),
    {
        Self { channels: spec.channels, max_block: spec.max_block }
    }
}

/// Hold a block against the prepared geometry.
pub fn validate_meter_geometry<T>(
    prepared: Option<PreparedMeterContract>,
    block: &AudioBlock<'_, '_, T>,
) -> (r: Result<(), MeterFault>)
    requires
        block.wf(),
    ensures
        r is Ok <==> meter_fault(
            prepared,
            block.samples().len() as usize,
            block.length(),
        ) is None,
        r matches Err(e) ==> meter_fault(
            prepared,
            block.samples().len() as usize,
            block.length(),
        ) == Some(e),
{
    match prepared {
        None => Err(MeterFault::Unprepared),
        Some(p) => {
            if block.channels() != p.channels {
                return Err(
                    MeterFault::Channels { given: block.channels(), prepared: p.channels },
                );
            }
            if block.frames() > p.max_block {
                return Err(MeterFault::Frames { given: block.frames(), prepared: p.max_block });
            }
            Ok(())
        },
    }
}

impl MeterFault {
    /// The explanation that [`message`](Self::message) gives.
    pub open spec fn text(self) -> Seq<char> {
        match self {
            MeterFault::Unprepared => "observe requires a successful prepare"@,
            MeterFault::Channels { given, prepared } => "meter channel count ("@ + decimal_text(
                given as nat,
            ) + ") must equal the prepared channel count ("@ + decimal_text(prepared as nat)
                + ")"@,
            MeterFault::Frames { given, prepared } => "meter block frames ("@ + decimal_text(
                given as nat,
            ) + ") must not exceed the prepared max_block ("@ + decimal_text(prepared as nat)
                + ")"@,
        }
    }

    /// An explanation for a person.
    pub fn message(self) -> (r: String)
        ensures
            r@ == self.text(),
    {
        match self {
            MeterFault::Unprepared => String::from_str("observe requires a successful prepare"),
            MeterFault::Channels { given, prepared } => {
                let mut r = String::from_str("meter channel count (");
                push_decimal(&mut r, given as u64);
                r.append(") must equal the prepared channel count (");
                push_decimal(&mut r, prepared as u64);
                r.append(")");
                r
            },
            MeterFault::Frames { given, prepared } => {
                let mut r = String::from_str("meter block frames (");
                push_decimal(&mut r, given as u64);
                r.append(") must not exceed the prepared max_block (");
                push_decimal(&mut r, prepared as u64);
                r.append(")");
                r
            },
        }
    }
}

} // verus!
