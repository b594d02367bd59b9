//! What the generators share.

use crate::contract::param::{conventional, ParamId, ParamInfo, Unit};
use crate::number::{nil, unit, Real};
use vstd::prelude::*;

verus! {

/// The highest frequency that an oscillator runs at: just below half the rate.
pub open spec fn top_frequency<R: Real>(sample_rate: R) -> R {
    sample_rate.prod(R::decimal_of(5, -1)).prod(R::decimal_of(999, -3))
}

/// The highest frequency that an oscillator runs at.
pub fn max_oscillator_frequency<R: Real>(sample_rate: R) -> (r: R)
    ensures
        r == top_frequency(sample_rate),
{
    sample_rate.times(R::decimal(5, -1)).times(R::decimal(999, -3))
}

/// One sample on every channel, however many there are.
pub open spec fn uniform_frame<T>(x: T) -> Seq<T> {
    Seq::new(usize::MAX as nat, |ch: int| x)
}

/// The frequency control, from 1 Hz to 24 kHz.
pub open spec fn frequency_control<R: Real>(default: R) -> ParamInfo<R> {
    conventional(
        ParamId(0),
        "frequency",
        (unit(), R::decimal_of(24000, 0)),
        default,
        Unit::Hz,
    )
}

/// The amplitude control, from 0 to 1.
pub open spec fn amplitude_control<R: Real>(id: u32, default: R) -> ParamInfo<R> {
    conventional(ParamId(id), "amplitude", (nil(), unit()), default, Unit::Linear)
}

} // verus!
