//! Triangular dither and quantization.

use crate::contract::block::IoMode;
use crate::contract::context::{SubBlock, Tail};
use crate::contract::error::DspError;
use crate::contract::spec::ProcessSpec;
use crate::contract::traits::{kernel_answers_stand, FrameModel, Kernel, NoParams, Standing};
use crate::dsp::lanes::{
    lane_states, lanes_next, lanes_out, lemma_lanes_are_frames, run_lanes, LaneStep,
};
use crate::dsp::memory::{bytes_of, empty_plan, saturated, MemoryLayout};
use crate::dsp::rng::{channel_seed, channel_start, unit_fraction, xorshift, Rng};
use crate::dsp::sanitize::{finite_or_zero, sane};
use crate::dsp::schedule::rendering_keeps_rest;
use crate::number::{clamp_to, clamped, clamped_is_within, nil, unit, within, Real, Sample};
use vstd::layout::size_of;
use vstd::prelude::*;

verus! {

/// The seed of [`DitherSettings::default`].
pub const DEFAULT_DITHER_SEED: u64 = 0x1234_5678_9ABC_DEF0;

/// Construction settings for [`Dither`].
#[derive(Clone, Copy, Debug, PartialEq, Eq, Structural)]
pub struct DitherSettings {
    /// Quantizer bit depth, such as 16. Validated in `prepare` (`2..=24`).
    pub bits: u32,
    /// Base seed. Each channel derives its own seed from this value.
    pub seed: u64,
}

impl Default for DitherSettings {
    fn default() -> (r: Self)
        ensures
            r == (DitherSettings { bits: 16, seed: DEFAULT_DITHER_SEED }),
    {
        Self { bits: 16, seed: DEFAULT_DITHER_SEED }
    }
}

impl DitherSettings {
    /// Default dither settings.
    pub fn new() -> (r: Self)
        ensures
            r == (DitherSettings { bits: 16, seed: DEFAULT_DITHER_SEED }),
    {
        Self::default()
    }

    /// Set the quantizer bit depth.
    pub fn bits(self, bits: u32) -> (r: Self)
        ensures
            r == (DitherSettings { bits, ..self }),
    {
        Self { bits, ..self }
    }

    /// Set the base seed.
    pub fn seed(self, seed: u64) -> (r: Self)
        ensures
            r == (DitherSettings { seed, ..self }),
    {
        Self { seed, ..self }
    }
}

/// Triangular noise in `(-1, 1)` from two steps of the generator.
pub open spec fn triangular<R: Real>(s: u64) -> R {
    unit_fraction::<R>(xorshift(s)).diff(unit_fraction::<R>(xorshift(xorshift(s))))
}

/// The level that `v` is quantized to with dither from the generator state `s`,
/// where there are `inv` positive levels of height `step`.
pub open spec fn level_of<R: Real>(v: R, s: u64, step: R, inv: R) -> R {
    clamped(
        v.sum(triangular::<R>(s).prod(step)).prod(inv).rounded(),
        inv.opposite(),
        inv.diff(unit()),
    )
}

/// The quantizer has `2^(bits - 1)` positive levels.
pub open spec fn positive_levels<R: Real>(bits: u32) -> R {
    R::natural(1u64 << ((bits - 1) as u32))
}

/// Quantized levels stay between the bottom and the top level.
pub proof fn levels_stay_in_range<R: Real>(v: R, s: u64, step: R, inv: R)
    requires
        inv.opposite().finite(),
        inv.diff(unit()).finite(),
        inv.opposite().rank() <= inv.diff(unit()).rank(),
    ensures
        within(level_of(v, s, step, inv), inv.opposite(), inv.diff(unit())),
{
    clamped_is_within(
        v.sum(triangular::<R>(s).prod(step)).prod(inv).rounded(),
        inv.opposite(),
        inv.diff(unit()),
    );
}

/// Quantizing one channel.
pub struct DitherStep<R> {
    pub step: R,
    pub inv: R,
}

impl<T: Sample> LaneStep<T> for DitherStep<T::Real> {
    type Lane = Rng;

    type State = u64;

    open spec fn state(lane: Rng) -> u64 {
        lane.state
    }

    open spec fn fits(&self, s: u64) -> bool {
        true
    }

    open spec fn next(&self, i: int, s: u64, x: T) -> u64 {
        xorshift(xorshift(s))
    }

    open spec fn out(&self, i: int, s: u64, x: T) -> T {
        T::stored(level_of(sane(x.value()), s, self.step, self.inv).prod(self.step))
    }

    proof fn step_keeps_fit(&self, i: int, s: u64, x: T) {
    }

    fn step(&self, i: usize, lane: &mut Rng, x: T) -> (y: T) {
        let v = finite_or_zero(x.to_real());
        // Two levels peak to peak.
        let first: T::Real = lane.next_unit();
        let second: T::Real = lane.next_unit();
        let dithered = v.plus(first.minus(second).times(self.step));
        let top = self.inv.minus(T::Real::one());
        let idx = clamp_to(dithered.times(self.inv).round(), self.inv.neg(), top);
        T::from_real(idx.times(self.step))
    }
}

/// Seeded triangular dither with a mid-tread quantizer.
///
/// Each channel has its own generator seeded from the base seed; a reset
/// restores each generator to its starting state.
#[derive(Clone, Debug)]
pub struct Dither<T: Sample> {
    pub bits: u32,
    pub seed: u64,
    pub rngs: Vec<Rng>,
    /// Height of one level.
    pub step: T::Real,
    /// Number of positive levels.
    pub inv_step: T::Real,
}

/// The state of a dithering quantizer.
#[verifier::ext_equal]
pub struct DitherModel<R> {
    pub seed: u64,
    pub step: R,
    pub inv: R,
    pub rngs: Seq<u64>,
}

impl<T: Sample> Dither<T> {
    /// A quantizer configured from `settings`.
    pub fn with_settings(settings: DitherSettings) -> (r: Self)
        ensures
            r.bits == settings.bits,
            r.seed == settings.seed,
            r.rngs@.len() == 0,
            r.step == nil::<T::Real>() && r.inv_step == nil::<T::Real>(),
    {
        let zero = T::Real::zero();
        Self {
            bits: settings.bits,
            seed: settings.seed,
            rngs: Vec::new(),
            step: zero,
            inv_step: zero,
        }
    }

    /// 16-bit dither with the default seed.
    pub fn new() -> (r: Self)
        ensures
            r.bits == 16,
            r.seed == DEFAULT_DITHER_SEED,
            r.rngs@.len() == 0,
            r.step == nil::<T::Real>() && r.inv_step == nil::<T::Real>(),
    {
        Self::with_settings(DitherSettings::default())
    }
}

impl<T: Sample> Default for Dither<T> {
    fn default() -> (r: Self)
        ensures
            r.bits == 16,
            r.seed == DEFAULT_DITHER_SEED,
            r.rngs@.len() == 0,
            r.step == nil::<T::Real>() && r.inv_step == nil::<T::Real>(),
    {
        Self::new()
    }
}

impl<T: Sample> FrameModel<T> for Dither<T> {
    type Params = NoParams;

    type Model = DitherModel<T::Real>;

    open spec fn next(
        m: DitherModel<T::Real>,
        p: NoParams,
        x: Seq<T>,
        key: Seq<Seq<T>>,
    ) -> DitherModel<T::Real> {
        DitherModel {
            rngs: Seq::new(m.rngs.len(), |c: int| xorshift(xorshift(m.rngs[c]))),
            ..m
        }
    }

    open spec fn emit(
        m: DitherModel<T::Real>,
        p: NoParams,
        x: Seq<T>,
        key: Seq<Seq<T>>,
    ) -> Seq<T> {
        Seq::new(
            m.rngs.len(),
            |c: int|
                T::stored(level_of(sane(x[c].value()), m.rngs[c], m.step, m.inv).prod(m.step)),
        )
    }

    open spec fn rest(m: DitherModel<T::Real>) -> DitherModel<T::Real> {
        DitherModel { rngs: Seq::new(m.rngs.len(), |c: int| channel_start(m.seed, c)), ..m }
    }

    open spec fn drained(m: DitherModel<T::Real>) -> bool {
        true
    }
}

/// A reset restores every generator whatever it has produced.
pub proof fn dither_reset_restores<T: Sample>()
    ensures
        rendering_keeps_rest::<T, Dither<T>>(),
{
    assert forall|m: DitherModel<T::Real>, p: NoParams, x: Seq<T>, key: Seq<Seq<T>>| #[trigger]
        <Dither<T> as FrameModel<T>>::rest(
            <Dither<T> as FrameModel<T>>::next(m, p, x, key),
        ) == <Dither<T> as FrameModel<T>>::rest(m) by {
        assert(<Dither<T> as FrameModel<T>>::rest(
            <Dither<T> as FrameModel<T>>::next(m, p, x, key),
        ) =~= <Dither<T> as FrameModel<T>>::rest(m));
    }
    assert forall|m: DitherModel<T::Real>| #[trigger]
        <Dither<T> as FrameModel<T>>::rest(<Dither<T> as FrameModel<T>>::rest(m)) == <Dither<
            T,
        > as FrameModel<T>>::rest(m) by {
        assert(<Dither<T> as FrameModel<T>>::rest(<Dither<T> as FrameModel<T>>::rest(m)) =~= <Dither<
            T,
        > as FrameModel<T>>::rest(m));
    }
}

impl<T: Sample> Kernel<T> for Dither<T> {
    open spec fn model(&self) -> DitherModel<T::Real> {
        DitherModel {
            seed: self.seed,
            step: self.step,
            inv: self.inv_step,
            rngs: lane_states::<T, DitherStep<T::Real>>(self.rngs@),
        }
    }

    open spec fn accepts(&self, mode: IoMode, channels: nat, buses: nat) -> bool {
        mode == IoMode::InPlace && self.rngs@.len() == channels
    }

    open spec fn outcome(&self, spec: ProcessSpec) -> Result<(), DspError> {
        if self.bits < 2 || self.bits > 24 {
            Err(DspError::InvalidParam("dither bit depth must be in 2..=24"))
        } else {
            empty_plan().array(spec.channels as nat, size_of::<Rng>()).verdict(spec.max_memory)
        }
    }

    open spec fn made(&self, spec: ProcessSpec) -> DitherModel<T::Real> {
        let levels = positive_levels::<T::Real>(self.bits);
        DitherModel {
            seed: self.seed,
            step: unit::<T::Real>().quot(levels),
            inv: levels,
            rngs: Seq::new(spec.channels as nat, |c: int| channel_start(self.seed, c)),
        }
    }

    open spec fn standing(&self) -> Standing<T::Real> {
        Standing {
            latency: 0,
            tail: Tail::Absent,
            io_mode: IoMode::InPlace,
            footprint: saturated(self.rngs@.len() * size_of::<Rng>()),
            info: Seq::empty(),
            sidechain_inputs: 0,
        }
    }

    fn prepare(&mut self, spec: ProcessSpec) -> (r: Result<(), DspError>)
        ensures
            final(self).bits == old(self).bits,
            final(self).seed == old(self).seed,
            r is Err ==> *final(self) == *old(self),
            r is Ok ==> {
                &&& final(self).rngs@.len() == spec.channels
                &&& final(self).inv_step == positive_levels::<T::Real>(old(self).bits)
                &&& final(self).step == unit::<T::Real>().quot(final(self).inv_step)
            },
    {
        if self.bits < 2 || self.bits > 24 {
            return Err(DspError::InvalidParam("dither bit depth must be in 2..=24"));
        }
        let shift: u32 = self.bits - 1;
        let levels = T::Real::from_u64(1u64 << shift);
        match MemoryLayout::new().array::<Rng>(spec.channels).preflight(spec.max_memory) {
            Err(e) => {
                return Err(e);
            },
            Ok(_) => {},
        }
        let seed: u64 = self.seed;
        let mut rngs: Vec<Rng> = Vec::with_capacity(spec.channels);
        let mut ch: usize = 0;
        while ch < spec.channels
            invariant
                0 <= ch <= spec.channels,
                rngs@.len() == ch,
                forall|c: int| 0 <= c < ch ==> (#[trigger] rngs@[c]).state == channel_start(seed, c),
            decreases spec.channels - ch,
        {
            rngs.push(Rng::new(channel_seed(seed, ch)));
            ch += 1;
        }
        self.inv_step = levels;
        self.step = T::Real::one().over(levels);
        self.rngs = rngs;
        proof {
            assert(self.model().rngs =~= <Self as FrameModel<T>>::rest(self.model()).rngs);
            assert(self.accepts(IoMode::InPlace, spec.channels as nat, 0));
        }
        Ok(())
    }

    fn reset(&mut self)
        ensures
            final(self).bits == old(self).bits,
            final(self).seed == old(self).seed,
    {
        let n: usize = self.rngs.len();
        let seed: u64 = self.seed;
        let mut ch: usize = 0;
        while ch < n
            invariant
                0 <= ch <= n,
                n == self.rngs@.len(),
                n == old(self).rngs@.len(),
                *self == (Dither { rngs: self.rngs, ..*old(self) }),
                forall|c: int|
                    0 <= c < ch ==> (#[trigger] self.rngs@[c]).state == channel_start(seed, c),
            decreases n - ch,
        {
            self.rngs.set(ch, Rng::new(channel_seed(seed, ch)));
            ch += 1;
        }
        assert(self.model().rngs =~= <Self as FrameModel<T>>::rest(old(self).model()).rngs);
    }

    fn io_mode(&self) -> (r: IoMode)
        ensures
            r == IoMode::InPlace,
    {
        IoMode::InPlace
    }

    fn memory_footprint(&self) -> (r: usize)
        ensures
            r == saturated(self.rngs@.len() * size_of::<Rng>()),
    {
        bytes_of::<Rng>(self.rngs.len())
    }

    fn render(&mut self, io: &mut SubBlock<'_, '_, '_, T>, params: &NoParams)
        ensures
            *final(self) == (Dither { rngs: final(self).rngs, ..*old(self) }),
    {
        let step = DitherStep { step: self.step, inv: self.inv_step };
        proof {
            let m = self.model();
            let wrap = |s: Seq<u64>, i: int| DitherModel { rngs: s, ..m };
            assert forall|t: Seq<u64>, i: int, x: Seq<T>, k: Seq<Seq<T>>|
                t.len() == m.rngs.len() && x.len() == t.len() implies #[trigger] <Self as FrameModel<
                T,
            >>::next(wrap(t, i), *params, x, k) == wrap(
                lanes_next::<T, DitherStep<T::Real>>(step, i, t, x),
                i + 1,
            ) by {
                assert(<Self as FrameModel<T>>::next(wrap(t, i), *params, x, k).rngs
                    =~= lanes_next::<T, DitherStep<T::Real>>(step, i, t, x));
            }
            assert forall|t: Seq<u64>, i: int, x: Seq<T>, k: Seq<Seq<T>>|
                t.len() == m.rngs.len() && x.len() == t.len() implies #[trigger] <Self as FrameModel<
                T,
            >>::emit(wrap(t, i), *params, x, k) == lanes_out::<T, DitherStep<T::Real>>(
                step,
                i,
                t,
                x,
            ) by {
                assert(<Self as FrameModel<T>>::emit(wrap(t, i), *params, x, k) =~= lanes_out::<
                    T,
                    DitherStep<T::Real>,
                >(step, i, t, x));
            }
            lemma_lanes_are_frames::<T, Self, DitherStep<T::Real>>(
                step,
                wrap,
                m.rngs,
                *params,
                io.in_run(),
                io.key_run(),
                io.in_run(),
                io.len as nat,
            );
        }
        run_lanes::<T, DitherStep<T::Real>>(&step, &mut self.rngs, io);
    }
}

/// What the kernel answers about itself stays as `prepare` left it.
pub proof fn dither_answers_stand<T: Sample>()
    ensures
        kernel_answers_stand::<T, Dither<T>>(),
{
}

} // verus!
