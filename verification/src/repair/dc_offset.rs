//! Fixed additive offset.

use crate::contract::block::IoMode;
use crate::contract::context::{SubBlock, Tail};
use crate::contract::error::DspError;
use crate::contract::spec::ProcessSpec;
use crate::contract::traits::{kernel_answers_stand, FrameModel, Kernel, NoParams, Standing};
use crate::dsp::lanes::{lemma_map_is_frames, map_run};
use crate::dsp::memory::{bytes_of, empty_plan, saturated, MemoryLayout};
use crate::dsp::sanitize::{finite_or_zero, sane};
use crate::dsp::schedule::rendering_keeps_rest;
use crate::number::{Real, Sample};
use vstd::layout::size_of;
use vstd::prelude::*;

verus! {

/// Where an offset applies.
#[derive(Clone, Debug)]
pub enum Offsets<R> {
    /// One offset for every channel.
    Broadcast(R),
    /// One offset per channel.
    PerChannel(Vec<R>),
}

/// Offsets as contracts speak of them.
pub enum OffsetModel<R> {
    Broadcast(R),
    PerChannel(Seq<R>),
}

impl<R: Real> Offsets<R> {
    pub open spec fn model(&self) -> OffsetModel<R> {
        match self {
            Offsets::Broadcast(x) => OffsetModel::Broadcast(*x),
            Offsets::PerChannel(xs) => OffsetModel::PerChannel(xs@),
        }
    }
}

/// The offset of channel `ch`.
pub open spec fn offset_of<R: Real>(m: OffsetModel<R>, ch: int) -> R {
    match m {
        OffsetModel::Broadcast(x) => x,
        OffsetModel::PerChannel(xs) => xs[ch],
    }
}

/// The sample `x` moved by `offset`.
pub open spec fn moved_sample<T: Sample>(offset: T::Real, x: T) -> T {
    T::stored(sane(x.value()).sum(offset))
}

/// A fixed additive offset, applied uniformly or per channel.
///
/// Paired with a per-channel mean meter this is exact removal of a constant
/// offset: measure the mean of each channel, then apply its negation here.
/// Unlike [`DcBlocker`](crate::repair::dc_blocker::DcBlocker) it is not a filter,
/// so it adds no transient and leaves the spectrum alone.
///
/// Per-channel offsets must match the prepared channel count exactly.
#[derive(Clone, Debug)]
pub struct DcOffset<T: Sample> {
    pub offsets: Offsets<T::Real>,
}

impl<T: Sample> DcOffset<T> {
    /// One offset broadcast to every channel.
    pub fn broadcast(offset: T::Real) -> (r: Self)
        ensures
            r.offsets == Offsets::Broadcast(offset),
    {
        Self { offsets: Offsets::Broadcast(offset) }
    }

    /// Per-channel offsets, taking ownership of the buffer.
    pub fn per_channel(offsets: Vec<T::Real>) -> (r: Self)
        ensures
            r.offsets == Offsets::PerChannel(offsets),
    {
        Self { offsets: Offsets::PerChannel(offsets) }
    }

    /// Per-channel offsets copied from a slice.
    pub fn per_channel_from_slice(offsets: &[T::Real]) -> (r: Self)
        ensures
            r.offsets.model() == OffsetModel::PerChannel(offsets@),
    {
        let mut copy: Vec<T::Real> = Vec::with_capacity(offsets.len());
        let mut i: usize = 0;
        while i < offsets.len()
            invariant
                0 <= i <= offsets@.len(),
                copy@ =~= offsets@.subrange(0, i as int),
            decreases offsets@.len() - i,
        {
            copy.push(offsets[i]);
            i += 1;
        }
        assert(copy@ =~= offsets@);
        Self::per_channel(copy)
    }
}

impl<T: Sample> FrameModel<T> for DcOffset<T> {
    type Params = NoParams;

    type Model = OffsetModel<T::Real>;

    open spec fn next(
        m: OffsetModel<T::Real>,
        p: NoParams,
        x: Seq<T>,
        key: Seq<Seq<T>>,
    ) -> OffsetModel<T::Real> {
        m
    }

    open spec fn emit(
        m: OffsetModel<T::Real>,
        p: NoParams,
        x: Seq<T>,
        key: Seq<Seq<T>>,
    ) -> Seq<T> {
        Seq::new(x.len(), |ch: int| moved_sample::<T>(offset_of(m, ch), x[ch]))
    }

    open spec fn rest(m: OffsetModel<T::Real>) -> OffsetModel<T::Real> {
        m
    }

    open spec fn drained(m: OffsetModel<T::Real>) -> bool {
        true
    }
}

/// An offset has nothing to forget.
pub proof fn dc_offset_reset_restores<T: Sample>()
    ensures
        rendering_keeps_rest::<T, DcOffset<T>>(),
{
}

impl<T: Sample> Kernel<T> for DcOffset<T> {
    open spec fn model(&self) -> OffsetModel<T::Real> {
        self.offsets.model()
    }

    open spec fn accepts(&self, mode: IoMode, channels: nat, buses: nat) -> bool {
        &&& mode == IoMode::InPlace
        &&& self.offsets.model() matches OffsetModel::PerChannel(xs) ==> xs.len() == channels
    }

    open spec fn outcome(&self, spec: ProcessSpec) -> Result<(), DspError> {
        match self.offsets.model() {
            OffsetModel::Broadcast(x) => if x.finite() {
                Ok(())
            } else {
                Err(DspError::InvalidParam("offset must be finite"))
            },
            OffsetModel::PerChannel(xs) => if xs.len() != spec.channels {
                Err(
                    DspError::InvalidParam(
                        "per-channel offset count must equal the channel count",
                    ),
                )
            } else if exists|i: int| 0 <= i < xs.len() && !(#[trigger] xs[i]).finite() {
                Err(DspError::InvalidParam("offsets must be finite"))
            } else {
                empty_plan().array(xs.len(), size_of::<T::Real>()).verdict(spec.max_memory)
            },
        }
    }

    open spec fn made(&self, spec: ProcessSpec) -> OffsetModel<T::Real> {
        self.offsets.model()
    }

    open spec fn standing(&self) -> Standing<T::Real> {
        Standing {
            latency: 0,
            tail: Tail::Absent,
            io_mode: IoMode::InPlace,
            footprint: match self.offsets.model() {
                OffsetModel::Broadcast(x) => 0,
                OffsetModel::PerChannel(xs) => saturated(xs.len() * size_of::<T::Real>()),
            },
            info: Seq::empty(),
            sidechain_inputs: 0,
        }
    }

    fn prepare(&mut self, spec: ProcessSpec) -> (r: Result<(), DspError>)
        ensures
            *final(self) == *old(self),
    {
        match &self.offsets {
            Offsets::Broadcast(offset) => {
                if !offset.is_finite() {
                    return Err(DspError::InvalidParam("offset must be finite"));
                }
            },
            Offsets::PerChannel(offsets) => {
                if offsets.len() != spec.channels {
                    return Err(
                        DspError::InvalidParam(
                            "per-channel offset count must equal the channel count",
                        ),
                    );
                }
                let mut i: usize = 0;
                while i < offsets.len()
                    invariant
                        0 <= i <= offsets@.len(),
                        offsets@.len() == spec.channels,
                        self.offsets == Offsets::PerChannel(*offsets),
                        *self == *old(self),
                        forall|k: int| 0 <= k < i ==> (#[trigger] offsets@[k]).finite(),
                    decreases offsets@.len() - i,
                {
                    if !offsets[i].is_finite() {
                        assert(!offsets@[i as int].finite());
                        return Err(DspError::InvalidParam("offsets must be finite"));
                    }
                    i += 1;
                }
                match MemoryLayout::new().array::<T::Real>(offsets.len()).preflight(
                    spec.max_memory,
                ) {
                    Err(e) => {
                        return Err(e);
                    },
                    Ok(_) => {},
                }
            },
        }
        assert(self.accepts(IoMode::InPlace, spec.channels as nat, 0));
        Ok(())
    }

    fn reset(&mut self)
        ensures
            *final(self) == *old(self),
    {
    }

    fn io_mode(&self) -> (r: IoMode)
        ensures
            r == IoMode::InPlace,
    {
        IoMode::InPlace
    }

    fn memory_footprint(&self) -> (r: usize)
        ensures
            r == match self.offsets.model() {
                OffsetModel::Broadcast(x) => 0usize,
                OffsetModel::PerChannel(xs) => saturated(xs.len() * size_of::<T::Real>()),
            },
    {
        match &self.offsets {
            Offsets::Broadcast(offset) => 0,
            Offsets::PerChannel(offsets) => bytes_of::<T::Real>(offsets.len()),
        }
    }

    fn render(&mut self, io: &mut SubBlock<'_, '_, '_, T>, params: &NoParams)
        ensures
            *final(self) == *old(self),
    {
        let ghost m = self.model();
        let ghost spec_map = |ch: int, i: int, x: T| moved_sample::<T>(offset_of(m, ch), x);
        proof {
            lemma_map_is_frames::<T, Self>(
                m,
                *params,
                io.in_run(),
                io.key_run(),
                io.len as nat,
                spec_map,
            );
        }
        match &self.offsets {
            Offsets::Broadcast(offset) => {
                let c = *offset;
                let f = |ch: usize, i: usize, x: T| -> (y: T)
                    ensures
                        y == moved_sample::<T>(c, x),
                    { T::from_real(finite_or_zero(x.to_real()).plus(c)) };
                map_run(io, &f, Ghost(spec_map));
            },
            Offsets::PerChannel(offsets) => {
                let f = |ch: usize, i: usize, x: T| -> (y: T)
                    requires
                        ch < offsets@.len(),
                    ensures
                        y == moved_sample::<T>(offsets@[ch as int], x),
                    { T::from_real(finite_or_zero(x.to_real()).plus(offsets[ch])) };
                map_run(io, &f, Ghost(spec_map));
            },
        }
    }
}

/// What the kernel answers about itself stays as `prepare` left it.
pub proof fn dc_offset_answers_stand<T: Sample>()
    ensures
        kernel_answers_stand::<T, DcOffset<T>>(),
{
}

} // verus!
