//! Per-channel mean meter.

use crate::analysis::fold::{
    fold_lanes, folded_lanes, joined_blocks, lemma_lanes_join, lemma_tallied_joins, tallied, tally,
};
use crate::analysis::geometry::{meter_contract, meter_fits, PreparedMeterContract};
use crate::contract::block::{frames_of, AudioBlock};
use crate::contract::error::DspError;
use crate::contract::spec::ProcessSpec;
use crate::contract::traits::{meter_answers_stand, Measurer};
use crate::dsp::memory::{bytes_of, empty_plan, filled, refill, saturated, MemoryLayout};
use crate::dsp::sanitize::{finite_or_zero, sane};
use crate::number::{larger, max_of, nil, Real, Sample};
use vstd::layout::size_of;
use vstd::prelude::*;

verus! {

/// Per-channel running-mean meter.
///
/// The reading is the largest absolute per-channel mean: a headline that never
/// cancels, unlike a pooled mean in which channels of opposite sign average
/// away. The signed means are read with [`channel_mean`](Self::channel_mean).
///
/// Paired with [`DcOffset`](crate::repair::dc_offset::DcOffset) it corrects a
/// fixed offset: read each channel's mean, then apply its negation.
///
/// The denominator is the number of frames, not of samples.
#[derive(Clone, Debug)]
pub struct MeanMeter<T: Sample> {
    /// Running sums, channel by channel.
    pub sums: Vec<T::Real>,
    /// Frames observed since reset.
    pub frames: u64,
    pub prepared: Option<PreparedMeterContract>,
}

/// The state of a mean meter.
#[verifier::ext_equal]
pub struct MeanModel<R> {
    pub sums: Seq<R>,
    pub frames: u64,
}

/// A sum with one sample taken in.
pub open spec fn sum_step<T: Sample>() -> spec_fn(T::Real, T) -> T::Real {
    |acc: T::Real, x: T| acc.sum(sane(x.value()))
}

/// The mean of one channel, or zero before any frame.
pub open spec fn mean_of<R: Real>(m: MeanModel<R>, ch: int) -> R {
    if m.frames == 0 {
        nil()
    } else {
        m.sums[ch].quot(R::natural(m.frames))
    }
}

/// The largest absolute mean among the first `n` channels.
pub open spec fn largest_mean<R: Real>(m: MeanModel<R>, n: nat) -> R
    decreases n,
{
    if n == 0 {
        nil()
    } else {
        larger(largest_mean(m, (n - 1) as nat), mean_of(m, n - 1).magnitude())
    }
}

/// How a signal is divided into blocks does not show in the means.
pub proof fn mean_blocks_join<T: Sample>(m: MeanModel<T::Real>, x: Seq<Seq<T>>, y: Seq<Seq<T>>)
    requires
        x.len() == m.sums.len(),
        y.len() == m.sums.len(),
    ensures
        <MeanMeter<T> as Measurer<T>>::observed(
            <MeanMeter<T> as Measurer<T>>::observed(m, x),
            y,
        ) == <MeanMeter<T> as Measurer<T>>::observed(m, joined_blocks(x, y)),
{
    lemma_lanes_join(m.sums, x, y, sum_step::<T>());
    lemma_tallied_joins(m.frames, frames_of(x), frames_of(y));
    if x.len() > 0 {
        assert(joined_blocks(x, y)[0] == x[0] + y[0]);
    }
}

impl<T: Sample> MeanMeter<T> {
    /// A mean meter reading silence.
    pub fn new() -> (r: Self)
        ensures
            r.sums@.len() == 0,
            r.frames == 0,
            r.prepared is None,
            <Self as Measurer<T>>::inv(&r),
    {
        Self { sums: Vec::new(), frames: 0, prepared: None }
    }

    /// The mean of channel `ch` since the last reset, or zero before any frame
    /// is observed.
    pub fn channel_mean(&self, ch: usize) -> (r: T::Real)
        requires
            ch < self.sums@.len(),
        ensures
            r == mean_of(<Self as Measurer<T>>::model(self), ch as int),
    {
        let sum = self.sums[ch];
        if self.frames == 0 {
            T::Real::zero()
        } else {
            sum.over(T::Real::from_u64(self.frames))
        }
    }
}

impl<T: Sample> Default for MeanMeter<T> {
    fn default() -> (r: Self)
        ensures
            r.sums@.len() == 0,
            r.frames == 0,
            r.prepared is None,
            <Self as Measurer<T>>::inv(&r),
    {
        Self::new()
    }
}

/// A reset undoes observing: whatever was taken in, the meter is back where clearing it
/// before would have left it.
pub proof fn mean_reset_restores<T: Sample>(m: MeanModel<T::Real>, x: Seq<Seq<T>>)
    ensures
        <MeanMeter<T> as Measurer<T>>::cleared(<MeanMeter<T> as Measurer<T>>::observed(m, x))
            == <MeanMeter<T> as Measurer<T>>::cleared(m),
{
    let seen = <MeanMeter<T> as Measurer<T>>::observed(m, x);
    assert(<MeanMeter<T> as Measurer<T>>::cleared(seen).sums =~= <MeanMeter<T> as Measurer<T>>::cleared(m).sums);
}

impl<T: Sample> Measurer<T> for MeanMeter<T> {
    type Reading = T::Real;

    type Model = MeanModel<T::Real>;

    open spec fn model(&self) -> MeanModel<T::Real> {
        MeanModel { sums: self.sums@, frames: self.frames }
    }

    open spec fn observed(m: MeanModel<T::Real>, x: Seq<Seq<T>>) -> MeanModel<T::Real> {
        MeanModel {
            sums: folded_lanes(m.sums, x, sum_step::<T>()),
            frames: tallied(m.frames, frames_of(x)),
        }
    }

    open spec fn cleared(m: MeanModel<T::Real>) -> MeanModel<T::Real> {
        MeanModel { sums: Seq::new(m.sums.len(), |c: int| nil::<T::Real>()), frames: 0 }
    }

    open spec fn reading(m: MeanModel<T::Real>) -> T::Real {
        if m.frames == 0 {
            nil()
        } else {
            largest_mean(m, m.sums.len())
        }
    }

    open spec fn outcome(&self, spec: ProcessSpec) -> Result<(), DspError> {
        empty_plan().array(spec.channels as nat, size_of::<T::Real>()).verdict(spec.max_memory)
    }

    open spec fn standing(&self) -> (usize, usize) {
        (0, saturated(self.sums@.len() * size_of::<T::Real>()))
    }

    open spec fn admits(&self, channels: nat, frames: nat) -> bool {
        meter_fits(self.prepared, channels, frames)
    }

    open spec fn inv(&self) -> bool {
        self.prepared matches Some(p) ==> self.sums@.len() == p.channels
    }

    fn prepare(&mut self, spec: ProcessSpec) -> (r: Result<(), DspError>)
        ensures
            r is Ok ==> final(self).sums@.len() == spec.channels,
            r is Ok ==> final(self).prepared == Some(meter_contract(spec)),
            r is Ok && spec.max_memory is Some ==> final(self).standing().1
                <= spec.max_memory->0,
            r is Err ==> *final(self) == (MeanMeter { prepared: None, ..*old(self) }),
    {
        self.prepared = None;
        match MemoryLayout::new().array::<T::Real>(spec.channels).preflight(spec.max_memory) {
            Err(e) => {
                return Err(e);
            },
            Ok(_) => {},
        }
        self.sums = filled(T::Real::zero(), spec.channels);
        self.frames = 0;
        self.prepared = Some(PreparedMeterContract::new(spec));
        assert(self.model() =~= <Self as Measurer<T>>::cleared(self.model()));
        Ok(())
    }

    fn reset(&mut self)
        ensures
            final(self).prepared == old(self).prepared,
    {
        refill(&mut self.sums, T::Real::zero());
        self.frames = 0;
        assert(self.model() =~= <Self as Measurer<T>>::cleared(old(self).model()));
    }

    fn memory_footprint(&self) -> (r: usize)
        ensures
            r == saturated(self.sums@.len() * size_of::<T::Real>()),
    {
        bytes_of::<T::Real>(self.sums.len())
    }

    fn observe(&mut self, block: AudioBlock<'_, '_, T>)
        ensures
            final(self).prepared == old(self).prepared,
    {
        let f = |acc: T::Real, x: T| -> (r: T::Real)
            ensures
                r == sum_step::<T>()(acc, x),
            { acc.plus(finite_or_zero(x.to_real())) };
        fold_lanes(&mut self.sums, &block, &f, Ghost(sum_step::<T>()));
        self.frames = tally(self.frames, block.frames(), 1);
    }

    fn read(&self) -> (r: T::Real) {
        let mut peak = T::Real::zero();
        if self.frames == 0 {
            return peak;
        }
        let frames = T::Real::from_u64(self.frames);
        let mut ch: usize = 0;
        while ch < self.sums.len()
            invariant
                0 <= ch <= self.sums@.len(),
                self.frames != 0,
                frames == T::Real::natural(self.frames),
                peak == largest_mean(self.model(), ch as nat),
            decreases self.sums@.len() - ch,
        {
            peak = max_of(peak, self.sums[ch].over(frames).abs());
            ch += 1;
        }
        peak
    }
}

/// What the meter answers about itself stays as `prepare` left it.
pub proof fn mean_answers_stand<T: Sample>()
    ensures
        meter_answers_stand::<T, MeanMeter<T>>(),
{
}

} // verus!
