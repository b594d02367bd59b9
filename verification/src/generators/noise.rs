//! Seeded white noise.

use crate::contract::block::IoMode;
use crate::contract::context::{SubBlock, Tail};
use crate::contract::error::DspError;
use crate::contract::param::{ParamId, ParamInfo, Unit};
use crate::contract::spec::ProcessSpec;
use crate::contract::traits::{kernel_answers_stand, FrameModel, Kernel, Params, Standing};
use crate::dsp::lanes::{
    lane_states, lanes_next, lanes_out, lemma_lanes_are_frames, run_lanes, LaneStep,
};
use crate::dsp::memory::{bytes_of, empty_plan, saturated, MemoryLayout};
use crate::dsp::rng::{
    bipolar_fraction, channel_seed, channel_start, xorshift, Rng,
};
use crate::dsp::schedule::rendering_keeps_rest;
use crate::dsp::smoother::SmootherBank;
use crate::generators::tone::amplitude_control;
use crate::number::{Real, Sample};
use vstd::layout::size_of;
use vstd::prelude::*;

verus! {

/// The default white-noise seed.
pub const DEFAULT_NOISE_SEED: u64 = 0x2545_F491_4F6C_DD1D;

/// Construction settings for [`WhiteNoise`].
#[derive(Debug, PartialEq)]
pub struct WhiteNoiseSettings<R> {
    /// Base seed. Each channel derives its own seed from this value.
    pub seed: u64,
    /// Linear amplitude.
    pub amplitude: R,
}

impl<R: Copy> Copy for WhiteNoiseSettings<R> {

}

impl<R: Copy> Clone for WhiteNoiseSettings<R> {
    fn clone(&self) -> (r: Self)
        ensures
            r == *self,
    {
        *self
    }
}

/// Amplitude 0.5 with the default seed.
pub open spec fn default_white_noise<R: Real>() -> WhiteNoiseSettings<R> {
    WhiteNoiseSettings {
        seed: DEFAULT_NOISE_SEED,
        amplitude: R::decimal_of(5, -1),
    }
}

impl<R: Real> Default for WhiteNoiseSettings<R> {
    fn default() -> (r: Self)
        ensures
            r == default_white_noise::<R>(),
    {
        Self {
            seed: DEFAULT_NOISE_SEED,
            amplitude: R::decimal(5, -1),
        }
    }
}

impl<R: Real> WhiteNoiseSettings<R> {
    /// Default white-noise settings.
    pub fn new() -> (r: Self)
        ensures
            r == default_white_noise::<R>(),
    {
        Self::default()
    }

    /// Set the linear amplitude.
    pub fn amplitude(self, amplitude: R) -> (r: Self)
        ensures
            r == (WhiteNoiseSettings { amplitude, ..self }),
    {
        Self { amplitude, ..self }
    }

    /// Set the base seed.
    pub fn seed(self, seed: u64) -> (r: Self)
        ensures
            r == (WhiteNoiseSettings { seed, ..self }),
    {
        Self { seed, ..self }
    }
}

/// Smoothed parameter values for [`WhiteNoise`].
#[derive(Debug, PartialEq)]
pub struct WhiteNoiseParams<R> {
    /// Linear amplitude.
    pub amplitude: R,
}

impl<R: Copy> Copy for WhiteNoiseParams<R> {

}

impl<R: Copy> Clone for WhiteNoiseParams<R> {
    fn clone(&self) -> (r: Self)
        ensures
            r == *self,
    {
        *self
    }
}

impl<R: Real> WhiteNoiseParams<R> {
    /// Number of the id of `amplitude`.
    pub const AMPLITUDE: u32 = 0;
}

impl<R: Real> Params<R> for WhiteNoiseParams<R> {
    const COUNT: usize = 1;

    open spec fn load(values: Seq<R>) -> Self {
        WhiteNoiseParams { amplitude: values[0] }
    }

    fn from_bank(bank: &SmootherBank<R>) -> (r: Self) {
        match bank.value_at(0) {
            Some(amplitude) => WhiteNoiseParams { amplitude },
            None => WhiteNoiseParams { amplitude: R::zero() },
        }
    }
}

/// Noise of constant amplitude on one channel.
pub struct NoiseStep<R> {
    pub amp: R,
}

impl<T: Sample> LaneStep<T> for NoiseStep<T::Real> {
    type Lane = Rng;

    type State = u64;

    open spec fn state(lane: Rng) -> u64 {
        lane.state
    }

    open spec fn fits(&self, s: u64) -> bool {
        true
    }

    open spec fn next(&self, i: int, s: u64, x: T) -> u64 {
        xorshift(s)
    }

    open spec fn out(&self, i: int, s: u64, x: T) -> T {
        T::stored(self.amp.prod(bipolar_fraction::<T::Real>(xorshift(s))))
    }

    proof fn step_keeps_fit(&self, i: int, s: u64, x: T) {
    }

    fn step(&self, i: usize, lane: &mut Rng, x: T) -> (y: T) {
        let v: T::Real = lane.next_bipolar();
        T::from_real(self.amp.times(v))
    }
}

/// A seeded white-noise source. Each channel emits a separately seeded uniform
/// stream in `[-amp, amp)`.
#[derive(Clone, Debug)]
pub struct WhiteNoise<T: Sample> {
    pub params: [ParamInfo<T::Real>; 1],
    pub seed: u64,
    pub rngs: Vec<Rng>,
}

/// The state of a noise source.
#[verifier::ext_equal]
pub struct NoiseModel {
    pub seed: u64,
    pub rngs: Seq<u64>,
}

impl<T: Sample> WhiteNoise<T> {
    /// A white-noise source configured from `settings`.
    pub fn with_settings(settings: WhiteNoiseSettings<T::Real>) -> (r: Self)
        ensures
            r.params@.len() == 1,
            r.params@[0] == amplitude_control(0, settings.amplitude),
            r.seed == settings.seed,
            r.rngs@.len() == 0,
    {
        Self {
            params: [
                ParamInfo::new(
                    ParamId(WhiteNoiseParams::<T::Real>::AMPLITUDE),
                    "amplitude",
                    (T::Real::zero(), T::Real::one()),
                    settings.amplitude,
                    Unit::Linear,
                ),
            ],
            seed: settings.seed,
            rngs: Vec::new(),
        }
    }

    /// White noise at amplitude 0.5 with the default seed.
    pub fn new() -> (r: Self)
        ensures
            r.params@.len() == 1,
            r.params@[0] == amplitude_control(0, T::Real::decimal_of(5, -1)),
            r.seed == DEFAULT_NOISE_SEED,
            r.rngs@.len() == 0,
    {
        Self::with_settings(WhiteNoiseSettings::default())
    }
}

impl<T: Sample> Default for WhiteNoise<T> {
    fn default() -> (r: Self)
        ensures
            r.params@.len() == 1,
            r.params@[0] == amplitude_control(0, T::Real::decimal_of(5, -1)),
            r.seed == DEFAULT_NOISE_SEED,
            r.rngs@.len() == 0,
    {
        Self::new()
    }
}

impl<T: Sample> FrameModel<T> for WhiteNoise<T> {
    type Params = WhiteNoiseParams<T::Real>;

    type Model = NoiseModel;

    open spec fn next(
        m: NoiseModel,
        p: WhiteNoiseParams<T::Real>,
        x: Seq<T>,
        key: Seq<Seq<T>>,
    ) -> NoiseModel {
        NoiseModel { rngs: Seq::new(m.rngs.len(), |c: int| xorshift(m.rngs[c])), ..m }
    }

    open spec fn emit(
        m: NoiseModel,
        p: WhiteNoiseParams<T::Real>,
        x: Seq<T>,
        key: Seq<Seq<T>>,
    ) -> Seq<T> {
        Seq::new(
            m.rngs.len(),
            |c: int|
                T::stored(p.amplitude.prod(bipolar_fraction::<T::Real>(xorshift(m.rngs[c])))),
        )
    }

    open spec fn rest(m: NoiseModel) -> NoiseModel {
        NoiseModel { rngs: Seq::new(m.rngs.len(), |c: int| channel_start(m.seed, c)), ..m }
    }

    open spec fn drained(m: NoiseModel) -> bool {
        true
    }
}

/// A reset restores every generator whatever it has produced.
pub proof fn white_noise_reset_restores<T: Sample>()
    ensures
        rendering_keeps_rest::<T, WhiteNoise<T>>(),
{
    assert forall|m: NoiseModel, p: WhiteNoiseParams<T::Real>, x: Seq<T>, key: Seq<Seq<T>>| #[trigger]
        <WhiteNoise<T> as FrameModel<T>>::rest(
            <WhiteNoise<T> as FrameModel<T>>::next(m, p, x, key),
        ) == <WhiteNoise<T> as FrameModel<T>>::rest(m) by {
        assert(<WhiteNoise<T> as FrameModel<T>>::rest(
            <WhiteNoise<T> as FrameModel<T>>::next(m, p, x, key),
        ) =~= <WhiteNoise<T> as FrameModel<T>>::rest(m));
    }
    assert forall|m: NoiseModel| #[trigger]
        <WhiteNoise<T> as FrameModel<T>>::rest(<WhiteNoise<T> as FrameModel<T>>::rest(m))
        == <WhiteNoise<T> as FrameModel<T>>::rest(m) by {
        assert(<WhiteNoise<T> as FrameModel<T>>::rest(<WhiteNoise<T> as FrameModel<T>>::rest(m))
            =~= <WhiteNoise<T> as FrameModel<T>>::rest(m));
    }
}

impl<T: Sample> Kernel<T> for WhiteNoise<T> {
    open spec fn model(&self) -> NoiseModel {
        NoiseModel {
            seed: self.seed,
            rngs: lane_states::<T, NoiseStep<T::Real>>(self.rngs@),
        }
    }

    open spec fn accepts(&self, mode: IoMode, channels: nat, buses: nat) -> bool {
        mode == IoMode::OutputOnly && self.rngs@.len() == channels
    }

    open spec fn outcome(&self, spec: ProcessSpec) -> Result<(), DspError> {
        empty_plan().array(spec.channels as nat, size_of::<Rng>()).verdict(spec.max_memory)
    }

    open spec fn made(&self, spec: ProcessSpec) -> NoiseModel {
        NoiseModel {
            seed: self.seed,
            rngs: Seq::new(spec.channels as nat, |c: int| channel_start(self.seed, c)),
        }
    }

    open spec fn standing(&self) -> Standing<T::Real> {
        Standing {
            latency: 0,
            tail: Tail::Absent,
            io_mode: IoMode::OutputOnly,
            footprint: saturated(self.rngs@.len() * size_of::<Rng>()),
            info: self.params@,
            sidechain_inputs: 0,
        }
    }

    fn prepare(&mut self, spec: ProcessSpec) -> (r: Result<(), DspError>)
        ensures
            *final(self) == (WhiteNoise { rngs: final(self).rngs, ..*old(self) }),
            r is Err ==> *final(self) == *old(self),
            r is Ok ==> final(self).rngs@.len() == spec.channels,
    {
        match MemoryLayout::new().array::<Rng>(spec.channels).preflight(spec.max_memory) {
            Err(e) => {
                return Err(e);
            },
            Ok(_) => {},
        }
        let seed: u64 = self.seed;
        let mut rngs: Vec<Rng> = Vec::with_capacity(spec.channels);
        let mut ch: usize = 0;
        while ch < spec.channels
            invariant
                0 <= ch <= spec.channels,
                rngs@.len() == ch,
                forall|c: int| 0 <= c < ch ==> (#[trigger] rngs@[c]).state == channel_start(seed, c),
            decreases spec.channels - ch,
        {
            rngs.push(Rng::new(channel_seed(seed, ch)));
            ch += 1;
        }
        self.rngs = rngs;
        proof {
            assert(self.model() =~= <Self as FrameModel<T>>::rest(self.model()));
            assert(self.accepts(IoMode::OutputOnly, spec.channels as nat, 0));
        }
        Ok(())
    }

    fn reset(&mut self)
        ensures
            *final(self) == (WhiteNoise { rngs: final(self).rngs, ..*old(self) }),
    {
        let n: usize = self.rngs.len();
        let seed: u64 = self.seed;
        let mut ch: usize = 0;
        while ch < n
            invariant
                0 <= ch <= n,
                n == self.rngs@.len(),
                n == old(self).rngs@.len(),
                *self == (WhiteNoise { rngs: self.rngs, ..*old(self) }),
                forall|c: int|
                    0 <= c < ch ==> (#[trigger] self.rngs@[c]).state == channel_start(seed, c),
            decreases n - ch,
        {
            self.rngs.set(ch, Rng::new(channel_seed(seed, ch)));
            ch += 1;
        }
        assert(self.model() =~= <Self as FrameModel<T>>::rest(old(self).model()));
    }

    fn memory_footprint(&self) -> (r: usize)
        ensures
            r == saturated(self.rngs@.len() * size_of::<Rng>()),
    {
        bytes_of::<Rng>(self.rngs.len())
    }

    fn param_info(&self) -> (r: &[ParamInfo<T::Real>])
        ensures
            r@ == self.params@,
    {
        self.params.as_slice()
    }

    fn io_mode(&self) -> (r: IoMode)
        ensures
            r == IoMode::OutputOnly,
    {
        IoMode::OutputOnly
    }

    fn render(&mut self, io: &mut SubBlock<'_, '_, '_, T>, params: &WhiteNoiseParams<T::Real>)
        ensures
            *final(self) == (WhiteNoise { rngs: final(self).rngs, ..*old(self) }),
    {
        let step = NoiseStep { amp: params.amplitude };
        proof {
            let m = self.model();
            let p = *params;
            let wrap = |s: Seq<u64>, i: int| NoiseModel { rngs: s, ..m };
            let buf = io.out_run();
            let xs = io.in_run();
            let keys = io.key_run();
            assert forall|t: Seq<u64>, i: int, x: Seq<T>, k: Seq<Seq<T>>, b: Seq<T>|
                t.len() == m.rngs.len() implies #[trigger] <Self as FrameModel<T>>::next(
                wrap(t, i),
                p,
                x,
                k,
            ) == wrap(#[trigger] lanes_next::<T, NoiseStep<T::Real>>(step, i, t, b), i + 1) by {
                assert(<Self as FrameModel<T>>::next(wrap(t, i), p, x, k).rngs =~= lanes_next::<
                    T,
                    NoiseStep<T::Real>,
                >(step, i, t, b));
            }
            assert forall|t: Seq<u64>, i: int, x: Seq<T>, k: Seq<Seq<T>>, b: Seq<T>|
                t.len() == m.rngs.len() implies #[trigger] <Self as FrameModel<T>>::emit(
                wrap(t, i),
                p,
                x,
                k,
            ) == #[trigger] lanes_out::<T, NoiseStep<T::Real>>(step, i, t, b) by {
                assert(<Self as FrameModel<T>>::emit(wrap(t, i), p, x, k) =~= lanes_out::<
                    T,
                    NoiseStep<T::Real>,
                >(step, i, t, b));
            }
            lemma_lanes_are_frames::<T, Self, NoiseStep<T::Real>>(
                step,
                wrap,
                m.rngs,
                p,
                xs,
                keys,
                buf,
                io.len as nat,
            );
        }
        run_lanes::<T, NoiseStep<T::Real>>(&step, &mut self.rngs, io);
    }
}

/// What the kernel answers about itself stays as `prepare` left it.
pub proof fn white_noise_answers_stand<T: Sample>()
    ensures
        kernel_answers_stand::<T, WhiteNoise<T>>(),
{
}

} // verus!
