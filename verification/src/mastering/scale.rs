//! Fixed linear-gain scaling.

use crate::contract::block::IoMode;
use crate::contract::context::{SubBlock, Tail};
use crate::contract::error::DspError;
use crate::contract::spec::ProcessSpec;
use crate::contract::traits::{kernel_answers_stand, FrameModel, Kernel, NoParams, Standing};
use crate::dsp::lanes::{lemma_map_is_frames, map_run};
use crate::dsp::level::{db_to_linear, linear_of};
use crate::dsp::sanitize::{finite_or_zero, sane};
use crate::dsp::schedule::rendering_keeps_rest;
use crate::number::{Real, Sample};
use vstd::prelude::*;

verus! {

/// A fixed linear-gain scale.
///
/// Every sample is multiplied by one constant factor. Unlike
/// [`Gain`](crate::mastering::gain::Gain), the factor is not an automatable
/// parameter, so it is unbounded: any finite factor is allowed, a negative one
/// included. A factor that is not finite is rejected when preparing.
#[derive(Clone, Debug)]
pub struct Scale<T: Sample> {
    pub factor: T::Real,
}

impl<T: Sample> Scale<T> {
    /// A scale by a linear `factor`.
    pub fn new(factor: T::Real) -> (r: Self)
        ensures
            r.factor == factor,
    {
        Self { factor }
    }

    /// A scale by a decibel gain, converted to a linear factor.
    pub fn from_db(db: T::Real) -> (r: Self)
        ensures
            r.factor == linear_of(db),
    {
        Self::new(db_to_linear(db))
    }

    /// A polarity inversion.
    pub fn inverted() -> (r: Self)
        ensures
            r.factor == T::Real::decimal_of(-1, 0),
    {
        Self::new(T::Real::decimal(-1, 0))
    }
}

/// The sample `x` scaled by `factor`.
pub open spec fn scaled_sample<T: Sample>(factor: T::Real, x: T) -> T {
    T::stored(sane(x.value()).prod(factor))
}

impl<T: Sample> FrameModel<T> for Scale<T> {
    type Params = NoParams;

    type Model = T::Real;

    open spec fn next(m: T::Real, p: NoParams, x: Seq<T>, key: Seq<Seq<T>>) -> T::Real {
        m
    }

    open spec fn emit(m: T::Real, p: NoParams, x: Seq<T>, key: Seq<Seq<T>>) -> Seq<T> {
        Seq::new(x.len(), |ch: int| scaled_sample::<T>(m, x[ch]))
    }

    open spec fn rest(m: T::Real) -> T::Real {
        m
    }

    open spec fn drained(m: T::Real) -> bool {
        true
    }
}

/// A scale has nothing to forget.
pub proof fn scale_reset_restores<T: Sample>()
    ensures
        rendering_keeps_rest::<T, Scale<T>>(),
{
}

impl<T: Sample> Kernel<T> for Scale<T> {
    open spec fn model(&self) -> T::Real {
        self.factor
    }

    open spec fn accepts(&self, mode: IoMode, channels: nat, buses: nat) -> bool {
        mode == IoMode::InPlace
    }

    open spec fn outcome(&self, spec: ProcessSpec) -> Result<(), DspError> {
        if self.factor.finite() {
            Ok(())
        } else {
            Err(DspError::InvalidParam("scale factor must be finite"))
        }
    }

    open spec fn made(&self, spec: ProcessSpec) -> T::Real {
        self.factor
    }

    open spec fn standing(&self) -> Standing<T::Real> {
        Standing {
            latency: 0,
            tail: Tail::Absent,
            io_mode: IoMode::InPlace,
            footprint: 0,
            info: Seq::empty(),
            sidechain_inputs: 0,
        }
    }

    fn prepare(&mut self, spec: ProcessSpec) -> (r: Result<(), DspError>)
        ensures
            *final(self) == *old(self),
    {
        if !self.factor.is_finite() {
            return Err(DspError::InvalidParam("scale factor must be finite"));
        }
        assert(self.accepts(IoMode::InPlace, spec.channels as nat, 0));
        Ok(())
    }

    fn reset(&mut self)
        ensures
            *final(self) == *old(self),
    {
    }

    fn io_mode(&self) -> (r: IoMode)
        ensures
            r == IoMode::InPlace,
    {
        IoMode::InPlace
    }

    fn render(&mut self, io: &mut SubBlock<'_, '_, '_, T>, params: &NoParams)
        ensures
            *final(self) == *old(self),
    {
        let g = self.factor;
        let ghost spec_map = |ch: int, i: int, x: T| scaled_sample::<T>(g, x);
        let f = |ch: usize, i: usize, x: T| -> (y: T)
            ensures
                y == scaled_sample::<T>(g, x),
            { T::from_real(finite_or_zero(x.to_real()).times(g)) };
        proof {
            lemma_map_is_frames::<T, Self>(
                g,
                *params,
                io.in_run(),
                io.key_run(),
                io.len as nat,
                spec_map,
            );
        }
        map_run(io, &f, Ghost(spec_map));
    }
}

/// What the kernel answers about itself stays as `prepare` left it.
pub proof fn scale_answers_stand<T: Sample>()
    ensures
        kernel_answers_stand::<T, Scale<T>>(),
{
}

} // verus!
