//! Oscillators with reduced aliasing.

use crate::contract::block::IoMode;
use crate::contract::context::{SubBlock, Tail};
use crate::contract::error::DspError;
use crate::contract::param::{ParamId, ParamInfo, Unit};
use crate::contract::spec::ProcessSpec;
use crate::contract::traits::{
    column, kernel_answers_stand, key_column, model_after, FrameModel, Kernel, Params, Standing,
};
use crate::dsp::lanes::{lemma_frames_are_mapped, map_run};
use crate::dsp::schedule::rendering_keeps_rest;
use crate::dsp::smoother::SmootherBank;
use crate::generators::tone::{
    amplitude_control, frequency_control, max_oscillator_frequency, top_frequency, uniform_frame,
};
use crate::number::{
    at_most, at_most_of, clamp_to, clamped, min_of, nil, smaller, unit, Order, Real, Sample,
};
use vstd::prelude::*;

verus! {

/// The alias-reduced oscillator waveform.
#[derive(Clone, Copy, Debug, PartialEq, Eq, Structural)]
pub enum Waveform {
    /// Sawtooth with one downward step per cycle.
    Saw,
    /// 50% duty square with one rising and one falling step per cycle.
    Square,
}

/// Construction settings for [`PolyBlepOsc`].
#[derive(Debug, PartialEq)]
pub struct PolyBlepOscSettings<R> {
    /// Oscillator waveform.
    pub waveform: Waveform,
    /// Frequency in Hz.
    pub frequency_hz: R,
    /// Linear amplitude.
    pub amplitude: R,
}

impl<R: Copy> Copy for PolyBlepOscSettings<R> {

}

impl<R: Copy> Clone for PolyBlepOscSettings<R> {
    fn clone(&self) -> (r: Self)
        ensures
            r == *self,
    {
        *self
    }
}

/// A sawtooth at 440 Hz with amplitude 0.5.
pub open spec fn default_poly_blep_osc<R: Real>() -> PolyBlepOscSettings<R> {
    PolyBlepOscSettings {
        waveform: Waveform::Saw,
        frequency_hz: R::decimal_of(440, 0),
        amplitude: R::decimal_of(5, -1),
    }
}

impl<R: Real> Default for PolyBlepOscSettings<R> {
    fn default() -> (r: Self)
        ensures
            r == default_poly_blep_osc::<R>(),
    {
        Self {
            waveform: Waveform::Saw,
            frequency_hz: R::decimal(440, 0),
            amplitude: R::decimal(5, -1),
        }
    }
}

impl<R: Real> PolyBlepOscSettings<R> {
    /// Default oscillator settings.
    pub fn new() -> (r: Self)
        ensures
            r == default_poly_blep_osc::<R>(),
    {
        Self::default()
    }

    /// Set the frequency in Hz.
    pub fn frequency_hz(self, frequency_hz: R) -> (r: Self)
        ensures
            r == (PolyBlepOscSettings { frequency_hz, ..self }),
    {
        Self { frequency_hz, ..self }
    }

    /// Set the linear amplitude.
    pub fn amplitude(self, amplitude: R) -> (r: Self)
        ensures
            r == (PolyBlepOscSettings { amplitude, ..self }),
    {
        Self { amplitude, ..self }
    }

    /// Set the oscillator waveform.
    pub fn waveform(self, waveform: Waveform) -> (r: Self)
        ensures
            r == (PolyBlepOscSettings { waveform, ..self }),
    {
        Self { waveform, ..self }
    }
}

/// Smoothed parameter values for [`PolyBlepOsc`].
#[derive(Debug, PartialEq)]
pub struct PolyBlepOscParams<R> {
    /// Frequency in Hz.
    pub frequency_hz: R,
    /// Linear amplitude.
    pub amplitude: R,
}

impl<R: Copy> Copy for PolyBlepOscParams<R> {

}

impl<R: Copy> Clone for PolyBlepOscParams<R> {
    fn clone(&self) -> (r: Self)
        ensures
            r == *self,
    {
        *self
    }
}

impl<R: Real> PolyBlepOscParams<R> {
    /// Number of the id of `frequency_hz`.
    pub const FREQUENCY_HZ: u32 = 0;

    /// Number of the id of `amplitude`.
    pub const AMPLITUDE: u32 = 1;
}

impl<R: Real> Params<R> for PolyBlepOscParams<R> {
    const COUNT: usize = 2;

    open spec fn load(values: Seq<R>) -> Self {
        PolyBlepOscParams { frequency_hz: values[0], amplitude: values[1] }
    }

    fn from_bank(bank: &SmootherBank<R>) -> (r: Self) {
        match (bank.value_at(0), bank.value_at(1)) {
            (Some(frequency_hz), Some(amplitude)) => {
                PolyBlepOscParams { frequency_hz, amplitude }
            },
            _ => {
                let zero = R::zero();
                PolyBlepOscParams { frequency_hz: zero, amplitude: zero }
            },
        }
    }
}

/// The two-point residual for a unit upward step.
pub open spec fn residual<R: Real>(t: R, dt: R) -> R {
    if t.below(dt) {
        let x = t.quot(dt);
        x.sum(x).diff(x.prod(x)).diff(unit())
    } else if unit::<R>().diff(dt).below(t) {
        let x = t.diff(unit()).quot(dt);
        x.prod(x).sum(x).sum(x).sum(unit())
    } else {
        nil()
    }
}

/// The two-point residual for a unit upward step.
///
/// `t` is normalized phase and `dt` is the phase increment per sample.
pub fn poly_blep<R: Real>(t: R, dt: R) -> (r: R)
    ensures
        r == residual(t, dt),
{
    let one = R::one();
    if t.less(dt) {
        // Just after the wrap.
        let x = t.over(dt);
        x.plus(x).minus(x.times(x)).minus(one)
    } else if one.minus(dt).less(t) {
        // Just before the wrap.
        let x = t.minus(one).over(dt);
        x.times(x).plus(x).plus(x).plus(one)
    } else {
        R::zero()
    }
}

/// The waveform at phase `p`.
pub open spec fn wave<R: Real>(kind: Waveform, p: R, dt: R) -> R {
    let half = R::decimal_of(5, -1);
    match kind {
        Waveform::Saw => R::decimal_of(2, 0).prod(p).diff(unit()).diff(residual(p, dt)),
        Waveform::Square => {
            let level = if p.below(half) {
                unit()
            } else {
                R::decimal_of(-1, 0)
            };
            let opposite = if at_most(unit(), p.sum(half)) {
                p.diff(half)
            } else {
                p.sum(half)
            };
            level.sum(residual(p, dt)).diff(residual(opposite, dt))
        },
    }
}

fn wave_of<R: Real>(kind: Waveform, p: R, dt: R) -> (r: R)
    ensures
        r == wave(kind, p, dt),
{
    let one = R::one();
    let half = R::decimal(5, -1);
    match kind {
        Waveform::Saw => R::decimal(2, 0).times(p).minus(one).minus(poly_blep(p, dt)),
        Waveform::Square => {
            let level = if p.less(half) {
                one
            } else {
                R::decimal(-1, 0)
            };
            let opposite = if at_most_of(one, p.plus(half)) {
                p.minus(half)
            } else {
                p.plus(half)
            };
            // A rising step at the start of the cycle and a falling one halfway.
            level.plus(poly_blep(p, dt)).minus(poly_blep(opposite, dt))
        },
    }
}

/// Cycles per sample at `frequency_hz`.
pub open spec fn cycle_increment<R: Real>(frequency_hz: R, fs: R) -> R {
    clamped(smaller(frequency_hz, top_frequency(fs)).quot(fs), nil(), R::decimal_of(5, -1))
}

/// A phase with at most one cycle taken off.
pub open spec fn cycled<R: Real>(p: R) -> R {
    if at_most(unit(), p) {
        p.diff(unit())
    } else {
        p
    }
}

/// An alias-reduced sawtooth or square oscillator.
///
/// Frequency and amplitude are automatable. Phase is normalized to one cycle and
/// accumulated one sample at a time. The effective frequency stays below
/// `0.999 * Nyquist`.
#[derive(Clone, Debug)]
pub struct PolyBlepOsc<T: Sample> {
    pub kind: Waveform,
    pub params: [ParamInfo<T::Real>; 2],
    pub fs: T::Real,
    pub phase: T::Real,
}

/// The state of an alias-reduced oscillator.
pub struct PolyBlepOscModel<R> {
    pub kind: Waveform,
    pub fs: R,
    pub phase: R,
}

impl<T: Sample> PolyBlepOsc<T> {
    /// An oscillator configured from `settings`.
    pub fn with_settings(settings: PolyBlepOscSettings<T::Real>) -> (r: Self)
        ensures
            r.kind == settings.waveform,
            r.params@.len() == 2,
            r.params@[0] == frequency_control(settings.frequency_hz),
            r.params@[1] == amplitude_control(1, settings.amplitude),
            r.fs == nil::<T::Real>() && r.phase == nil::<T::Real>(),
    {
        let zero = T::Real::zero();
        let one = T::Real::one();
        Self {
            kind: settings.waveform,
            params: [
                ParamInfo::new(
                    ParamId(PolyBlepOscParams::<T::Real>::FREQUENCY_HZ),
                    "frequency",
                    (one, T::Real::decimal(24000, 0)),
                    settings.frequency_hz,
                    Unit::Hz,
                ),
                ParamInfo::new(
                    ParamId(PolyBlepOscParams::<T::Real>::AMPLITUDE),
                    "amplitude",
                    (zero, one),
                    settings.amplitude,
                    Unit::Linear,
                ),
            ],
            fs: zero,
            phase: zero,
        }
    }

    /// A sawtooth at 440 Hz, amplitude 0.5.
    pub fn new() -> (r: Self)
        ensures
            r.kind == Waveform::Saw,
            r.params@.len() == 2,
            r.params@[0] == frequency_control(T::Real::decimal_of(440, 0)),
            r.params@[1] == amplitude_control(1, T::Real::decimal_of(5, -1)),
            r.fs == nil::<T::Real>() && r.phase == nil::<T::Real>(),
    {
        Self::with_settings(PolyBlepOscSettings::default())
    }

    /// A sawtooth at 440 Hz, amplitude 0.5.
    pub fn saw() -> (r: Self)
        ensures
            r.kind == Waveform::Saw,
            r.params@.len() == 2,
            r.params@[0] == frequency_control(T::Real::decimal_of(440, 0)),
            r.params@[1] == amplitude_control(1, T::Real::decimal_of(5, -1)),
            r.fs == nil::<T::Real>() && r.phase == nil::<T::Real>(),
    {
        Self::with_settings(PolyBlepOscSettings::default())
    }

    /// A square at 440 Hz, amplitude 0.5.
    pub fn square() -> (r: Self)
        ensures
            r.kind == Waveform::Square,
            r.params@.len() == 2,
            r.params@[0] == frequency_control(T::Real::decimal_of(440, 0)),
            r.params@[1] == amplitude_control(1, T::Real::decimal_of(5, -1)),
            r.fs == nil::<T::Real>() && r.phase == nil::<T::Real>(),
    {
        Self::with_settings(PolyBlepOscSettings::new().waveform(Waveform::Square))
    }
}

impl<T: Sample> Default for PolyBlepOsc<T> {
    fn default() -> (r: Self)
        ensures
            r.kind == Waveform::Saw,
            r.params@.len() == 2,
            r.params@[0] == frequency_control(T::Real::decimal_of(440, 0)),
            r.params@[1] == amplitude_control(1, T::Real::decimal_of(5, -1)),
            r.fs == nil::<T::Real>() && r.phase == nil::<T::Real>(),
    {
        Self::new()
    }
}

impl<T: Sample> FrameModel<T> for PolyBlepOsc<T> {
    type Params = PolyBlepOscParams<T::Real>;

    type Model = PolyBlepOscModel<T::Real>;

    open spec fn next(
        m: PolyBlepOscModel<T::Real>,
        p: PolyBlepOscParams<T::Real>,
        x: Seq<T>,
        key: Seq<Seq<T>>,
    ) -> PolyBlepOscModel<T::Real> {
        PolyBlepOscModel { phase: cycled(m.phase.sum(cycle_increment(p.frequency_hz, m.fs))), ..m }
    }

    open spec fn emit(
        m: PolyBlepOscModel<T::Real>,
        p: PolyBlepOscParams<T::Real>,
        x: Seq<T>,
        key: Seq<Seq<T>>,
    ) -> Seq<T> {
        let step = cycle_increment(p.frequency_hz, m.fs);
        uniform_frame(T::stored(p.amplitude.prod(wave(m.kind, m.phase, step))))
    }

    open spec fn rest(m: PolyBlepOscModel<T::Real>) -> PolyBlepOscModel<T::Real> {
        PolyBlepOscModel { phase: nil(), ..m }
    }

    open spec fn drained(m: PolyBlepOscModel<T::Real>) -> bool {
        true
    }
}

/// A reset restores an oscillator whatever it has produced.
pub proof fn poly_blep_osc_reset_restores<T: Sample>()
    ensures
        rendering_keeps_rest::<T, PolyBlepOsc<T>>(),
{
}

impl<T: Sample> Kernel<T> for PolyBlepOsc<T> {
    open spec fn model(&self) -> PolyBlepOscModel<T::Real> {
        PolyBlepOscModel { kind: self.kind, fs: self.fs, phase: self.phase }
    }

    open spec fn accepts(&self, mode: IoMode, channels: nat, buses: nat) -> bool {
        mode == IoMode::OutputOnly
    }

    open spec fn outcome(&self, spec: ProcessSpec) -> Result<(), DspError> {
        if spec.sample_rate == 0 {
            Err(DspError::UnsupportedSpec("sample rate must be non-zero"))
        } else {
            Ok(())
        }
    }

    open spec fn made(&self, spec: ProcessSpec) -> PolyBlepOscModel<T::Real> {
        PolyBlepOscModel { kind: self.kind, fs: T::Real::natural(spec.sample_rate as u64), phase: nil() }
    }

    open spec fn standing(&self) -> Standing<T::Real> {
        Standing {
            latency: 0,
            tail: Tail::Absent,
            io_mode: IoMode::OutputOnly,
            footprint: 0,
            info: self.params@,
            sidechain_inputs: 0,
        }
    }

    fn prepare(&mut self, spec: ProcessSpec) -> (r: Result<(), DspError>)
        ensures
            r is Err ==> *final(self) == *old(self),
            r is Ok ==> *final(self) == (PolyBlepOsc {
                fs: T::Real::natural(spec.sample_rate as u64),
                phase: nil::<T::Real>(),
                ..*old(self)
            }),
    {
        if spec.sample_rate == 0 {
            return Err(DspError::UnsupportedSpec("sample rate must be non-zero"));
        }
        self.fs = T::Real::from_u64(spec.sample_rate as u64);
        self.phase = T::Real::zero();
        assert(self.accepts(IoMode::OutputOnly, spec.channels as nat, 0));
        Ok(())
    }

    fn reset(&mut self)
        ensures
            *final(self) == (PolyBlepOsc { phase: nil::<T::Real>(), ..*old(self) }),
    {
        self.phase = T::Real::zero();
    }

    fn param_info(&self) -> (r: &[ParamInfo<T::Real>])
        ensures
            r@ == self.params@,
    {
        self.params.as_slice()
    }

    fn io_mode(&self) -> (r: IoMode)
        ensures
            r == IoMode::OutputOnly,
    {
        IoMode::OutputOnly
    }

    fn render(&mut self, io: &mut SubBlock<'_, '_, '_, T>, params: &PolyBlepOscParams<T::Real>)
        ensures
            *final(self) == (PolyBlepOsc { phase: final(self).phase, ..*old(self) }),
    {
        let ghost m = self.model();
        let ghost p = *params;
        let ghost xs = io.in_run();
        let ghost keys = io.key_run();
        let one = T::Real::one();
        let frequency = min_of(params.frequency_hz, max_oscillator_frequency(self.fs));
        let dt = clamp_to(frequency.over(self.fs), T::Real::zero(), T::Real::decimal(5, -1));
        let kind = self.kind;
        let amp = params.amplitude;
        let run: usize = io.frames();
        // Every channel carries the same tone: phase advances once per frame.
        let mut values: [T::Real; 32] = [T::Real::zero(); 32];
        let mut i: usize = 0;
        while i < run
            invariant
                0 <= i <= run,
                run == io.len,
                run <= 32,
                *io == *old(io),
                values@.len() == 32,
                one == unit::<T::Real>(),
                dt == cycle_increment(p.frequency_hz, m.fs),
                kind == m.kind,
                amp == p.amplitude,
                m == old(self).model(),
                *self == (PolyBlepOsc { phase: self.phase, ..*old(self) }),
                self.model() == model_after::<T, Self>(m, p, xs, keys, i as nat),
                forall|j: int|
                    0 <= j < i ==> T::stored(#[trigger] values@[j]) == oscillated::<T>(
                        model_after::<T, Self>(m, p, xs, keys, j as nat),
                        p,
                    ),
            decreases run - i,
        {
            let ghost mi = self.model();
            let v = amp.times(wave_of(kind, self.phase, dt));
            values[i] = v;
            let moved = self.phase.plus(dt);
            self.phase = if at_most_of(one, moved) {
                moved.minus(one)
            } else {
                moved
            };
            proof {
                assert(model_after::<T, Self>(m, p, xs, keys, (i + 1) as nat) == <Self as FrameModel<
                    T,
                >>::next(mi, p, column(xs, i as int), key_column(keys, i as int)));
            }
            i += 1;
        }
        let ghost map = |ch: int, i: int, x: T| T::stored(values@[i]);
        proof {
            assert forall|i: int, ch: int|
                0 <= i < run && 0 <= ch < io.out_run().len() implies #[trigger] <Self as FrameModel<
                T,
            >>::emit(
                model_after::<T, Self>(m, p, xs, keys, i as nat),
                p,
                column(xs, i),
                key_column(keys, i),
            )[ch] == map(ch, i, io.out_run()[ch][i]) by {
                assert(T::stored(values@[i]) == oscillated::<T>(
                    model_after::<T, Self>(m, p, xs, keys, i as nat),
                    p,
                ));
            }
            lemma_frames_are_mapped::<T, Self>(m, p, xs, keys, io.out_run(), run as nat, map);
        }
        let f = |ch: usize, i: usize, x: T| -> (y: T)
            requires
                i < 32,
            ensures
                y == T::stored(values@[i as int]),
            { T::from_real(values[i]) };
        map_run(io, &f, Ghost(map));
    }
}

/// The sample that an oscillator writes in state `m`.
pub open spec fn oscillated<T: Sample>(
    m: PolyBlepOscModel<T::Real>,
    p: PolyBlepOscParams<T::Real>,
) -> T {
    T::stored(p.amplitude.prod(wave(m.kind, m.phase, cycle_increment(p.frequency_hz, m.fs))))
}

/// What the kernel answers about itself stays as `prepare` left it.
pub proof fn poly_blep_osc_answers_stand<T: Sample>()
    ensures
        kernel_answers_stand::<T, PolyBlepOsc<T>>(),
{
}

} // verus!
