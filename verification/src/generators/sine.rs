//! Sine oscillator.

use crate::contract::block::IoMode;
use crate::contract::context::{SubBlock, Tail};
use crate::contract::error::DspError;
use crate::contract::param::{ParamId, ParamInfo, Unit};
use crate::contract::spec::ProcessSpec;
use crate::contract::traits::{
    column, kernel_answers_stand, key_column, model_after, FrameModel, Kernel, Params, Standing,
};
use crate::dsp::lanes::{lemma_frames_are_mapped, map_run};
use crate::dsp::schedule::rendering_keeps_rest;
use crate::dsp::smoother::SmootherBank;
use crate::generators::tone::{
    amplitude_control, frequency_control, max_oscillator_frequency, top_frequency, uniform_frame,
};
use crate::number::{at_most, at_most_of, min_of, nil, smaller, Real, Sample};
use vstd::prelude::*;

verus! {

/// Construction settings for [`SineOsc`].
#[derive(Debug, PartialEq)]
pub struct SineOscSettings<R> {
    /// Frequency in Hz.
    pub frequency_hz: R,
    /// Linear amplitude.
    pub amplitude: R,
}

impl<R: Copy> Copy for SineOscSettings<R> {

}

impl<R: Copy> Clone for SineOscSettings<R> {
    fn clone(&self) -> (r: Self)
        ensures
            r == *self,
    {
        *self
    }
}

/// 440 Hz at amplitude 0.5.
pub open spec fn default_sine_osc<R: Real>() -> SineOscSettings<R> {
    SineOscSettings {
        frequency_hz: R::decimal_of(440, 0),
        amplitude: R::decimal_of(5, -1),
    }
}

impl<R: Real> Default for SineOscSettings<R> {
    fn default() -> (r: Self)
        ensures
            r == default_sine_osc::<R>(),
    {
        Self {
            frequency_hz: R::decimal(440, 0),
            amplitude: R::decimal(5, -1),
        }
    }
}

impl<R: Real> SineOscSettings<R> {
    /// Default oscillator settings.
    pub fn new() -> (r: Self)
        ensures
            r == default_sine_osc::<R>(),
    {
        Self::default()
    }

    /// Set the frequency in Hz.
    pub fn frequency_hz(self, frequency_hz: R) -> (r: Self)
        ensures
            r == (SineOscSettings { frequency_hz, ..self }),
    {
        Self { frequency_hz, ..self }
    }

    /// Set the linear amplitude.
    pub fn amplitude(self, amplitude: R) -> (r: Self)
        ensures
            r == (SineOscSettings { amplitude, ..self }),
    {
        Self { amplitude, ..self }
    }
}

/// Smoothed parameter values for [`SineOsc`].
#[derive(Debug, PartialEq)]
pub struct SineOscParams<R> {
    /// Frequency in Hz.
    pub frequency_hz: R,
    /// Linear amplitude.
    pub amplitude: R,
}

impl<R: Copy> Copy for SineOscParams<R> {

}

impl<R: Copy> Clone for SineOscParams<R> {
    fn clone(&self) -> (r: Self)
        ensures
            r == *self,
    {
        *self
    }
}

impl<R: Real> SineOscParams<R> {
    /// Number of the id of `frequency_hz`.
    pub const FREQUENCY_HZ: u32 = 0;

    /// Number of the id of `amplitude`.
    pub const AMPLITUDE: u32 = 1;
}

impl<R: Real> Params<R> for SineOscParams<R> {
    const COUNT: usize = 2;

    open spec fn load(values: Seq<R>) -> Self {
        SineOscParams { frequency_hz: values[0], amplitude: values[1] }
    }

    fn from_bank(bank: &SmootherBank<R>) -> (r: Self) {
        match (bank.value_at(0), bank.value_at(1)) {
            (Some(frequency_hz), Some(amplitude)) => {
                SineOscParams { frequency_hz, amplitude }
            },
            _ => {
                let zero = R::zero();
                SineOscParams { frequency_hz: zero, amplitude: zero }
            },
        }
    }
}

/// A full turn in radians.
pub open spec fn tau<R: Real>() -> R {
    R::decimal_of(6283185307179586, -15)
}

/// A phase with at most one full turn taken off.
pub open spec fn wrapped<R: Real>(ph: R) -> R {
    if at_most(tau(), ph) {
        ph.diff(tau())
    } else {
        ph
    }
}

/// Fold a radian phase back into one turn with a single subtraction.
pub fn wrap_phase<R: Real>(ph: R) -> (r: R)
    ensures
        r == wrapped(ph),
{
    let turn = R::decimal(6283185307179586, -15);
    if at_most_of(turn, ph) {
        ph.minus(turn)
    } else {
        ph
    }
}

/// Radians per sample at `frequency_hz`.
pub open spec fn sine_increment<R: Real>(frequency_hz: R, fs: R) -> R {
    tau::<R>().prod(smaller(frequency_hz, top_frequency(fs))).quot(fs)
}

/// A sine oscillator. It emits `amp * sin(2*pi*f*t)` in every output channel.
///
/// Frequency and amplitude are automatable. The effective frequency stays below
/// `0.999 * Nyquist`.
#[derive(Clone, Debug)]
pub struct SineOsc<T: Sample> {
    pub params: [ParamInfo<T::Real>; 2],
    pub fs: T::Real,
    pub phase: T::Real,
}

/// The state of a sine oscillator.
pub struct SineOscModel<R> {
    pub fs: R,
    pub phase: R,
}

impl<T: Sample> SineOsc<T> {
    /// An oscillator configured from `settings`.
    pub fn with_settings(settings: SineOscSettings<T::Real>) -> (r: Self)
        ensures
            r.params@.len() == 2,
            r.params@[0] == frequency_control(settings.frequency_hz),
            r.params@[1] == amplitude_control(1, settings.amplitude),
            r.fs == nil::<T::Real>() && r.phase == nil::<T::Real>(),
    {
        let zero = T::Real::zero();
        let one = T::Real::one();
        Self {
            params: [
                ParamInfo::new(
                    ParamId(SineOscParams::<T::Real>::FREQUENCY_HZ),
                    "frequency",
                    (one, T::Real::decimal(24000, 0)),
                    settings.frequency_hz,
                    Unit::Hz,
                ),
                ParamInfo::new(
                    ParamId(SineOscParams::<T::Real>::AMPLITUDE),
                    "amplitude",
                    (zero, one),
                    settings.amplitude,
                    Unit::Linear,
                ),
            ],
            fs: zero,
            phase: zero,
        }
    }

    /// A sine oscillator at 440 Hz, amplitude 0.5.
    pub fn new() -> (r: Self)
        ensures
            r.params@.len() == 2,
            r.params@[0] == frequency_control(T::Real::decimal_of(440, 0)),
            r.params@[1] == amplitude_control(1, T::Real::decimal_of(5, -1)),
            r.fs == nil::<T::Real>() && r.phase == nil::<T::Real>(),
    {
        Self::with_settings(SineOscSettings::default())
    }
}

impl<T: Sample> Default for SineOsc<T> {
    fn default() -> (r: Self)
        ensures
            r.params@.len() == 2,
            r.params@[0] == frequency_control(T::Real::decimal_of(440, 0)),
            r.params@[1] == amplitude_control(1, T::Real::decimal_of(5, -1)),
            r.fs == nil::<T::Real>() && r.phase == nil::<T::Real>(),
    {
        Self::new()
    }
}

impl<T: Sample> FrameModel<T> for SineOsc<T> {
    type Params = SineOscParams<T::Real>;

    type Model = SineOscModel<T::Real>;

    open spec fn next(
        m: SineOscModel<T::Real>,
        p: SineOscParams<T::Real>,
        x: Seq<T>,
        key: Seq<Seq<T>>,
    ) -> SineOscModel<T::Real> {
        SineOscModel { phase: wrapped(m.phase.sum(sine_increment(p.frequency_hz, m.fs))), ..m }
    }

    open spec fn emit(
        m: SineOscModel<T::Real>,
        p: SineOscParams<T::Real>,
        x: Seq<T>,
        key: Seq<Seq<T>>,
    ) -> Seq<T> {
        uniform_frame(T::stored(p.amplitude.prod(m.phase.sine())))
    }

    open spec fn rest(m: SineOscModel<T::Real>) -> SineOscModel<T::Real> {
        SineOscModel { phase: nil(), ..m }
    }

    open spec fn drained(m: SineOscModel<T::Real>) -> bool {
        true
    }
}

/// A reset restores an oscillator whatever it has produced.
pub proof fn sine_osc_reset_restores<T: Sample>()
    ensures
        rendering_keeps_rest::<T, SineOsc<T>>(),
{
}

impl<T: Sample> Kernel<T> for SineOsc<T> {
    open spec fn model(&self) -> SineOscModel<T::Real> {
        SineOscModel { fs: self.fs, phase: self.phase }
    }

    open spec fn accepts(&self, mode: IoMode, channels: nat, buses: nat) -> bool {
        mode == IoMode::OutputOnly
    }

    open spec fn outcome(&self, spec: ProcessSpec) -> Result<(), DspError> {
        if spec.sample_rate == 0 {
            Err(DspError::UnsupportedSpec("sample rate must be non-zero"))
        } else {
            Ok(())
        }
    }

    open spec fn made(&self, spec: ProcessSpec) -> SineOscModel<T::Real> {
        SineOscModel { fs: T::Real::natural(spec.sample_rate as u64), phase: nil() }
    }

    open spec fn standing(&self) -> Standing<T::Real> {
        Standing {
            latency: 0,
            tail: Tail::Absent,
            io_mode: IoMode::OutputOnly,
            footprint: 0,
            info: self.params@,
            sidechain_inputs: 0,
        }
    }

    fn prepare(&mut self, spec: ProcessSpec) -> (r: Result<(), DspError>)
        ensures
            r is Err ==> *final(self) == *old(self),
            r is Ok ==> *final(self) == (SineOsc {
                fs: T::Real::natural(spec.sample_rate as u64),
                phase: nil::<T::Real>(),
                ..*old(self)
            }),
    {
        if spec.sample_rate == 0 {
            return Err(DspError::UnsupportedSpec("sample rate must be non-zero"));
        }
        self.fs = T::Real::from_u64(spec.sample_rate as u64);
        self.phase = T::Real::zero();
        assert(self.accepts(IoMode::OutputOnly, spec.channels as nat, 0));
        Ok(())
    }

    fn reset(&mut self)
        ensures
            *final(self) == (SineOsc { phase: nil::<T::Real>(), ..*old(self) }),
    {
        self.phase = T::Real::zero();
    }

    fn param_info(&self) -> (r: &[ParamInfo<T::Real>])
        ensures
            r@ == self.params@,
    {
        self.params.as_slice()
    }

    fn io_mode(&self) -> (r: IoMode)
        ensures
            r == IoMode::OutputOnly,
    {
        IoMode::OutputOnly
    }

    fn render(&mut self, io: &mut SubBlock<'_, '_, '_, T>, params: &SineOscParams<T::Real>)
        ensures
            *final(self) == (SineOsc { phase: final(self).phase, ..*old(self) }),
    {
        let ghost m = self.model();
        let ghost p = *params;
        let ghost xs = io.in_run();
        let ghost keys = io.key_run();
        let frequency = min_of(params.frequency_hz, max_oscillator_frequency(self.fs));
        let inc = T::Real::decimal(6283185307179586, -15).times(frequency).over(self.fs);
        let amp = params.amplitude;
        let run: usize = io.frames();
        // Every channel carries the same tone: phase advances once per frame.
        let mut values: [T::Real; 32] = [T::Real::zero(); 32];
        let mut i: usize = 0;
        while i < run
            invariant
                0 <= i <= run,
                run == io.len,
                run <= 32,
                *io == *old(io),
                values@.len() == 32,
                inc == sine_increment(p.frequency_hz, m.fs),
                amp == p.amplitude,
                m == old(self).model(),
                *self == (SineOsc { phase: self.phase, ..*old(self) }),
                self.model() == model_after::<T, Self>(m, p, xs, keys, i as nat),
                forall|j: int|
                    0 <= j < i ==> T::stored(#[trigger] values@[j]) == oscillated::<T>(
                        model_after::<T, Self>(m, p, xs, keys, j as nat),
                        p,
                    ),
            decreases run - i,
        {
            let ghost mi = self.model();
            let v = amp.times(self.phase.sin());
            values[i] = v;
            self.phase = wrap_phase(self.phase.plus(inc));
            proof {
                assert(model_after::<T, Self>(m, p, xs, keys, (i + 1) as nat) == <Self as FrameModel<
                    T,
                >>::next(mi, p, column(xs, i as int), key_column(keys, i as int)));
            }
            i += 1;
        }
        let ghost map = |ch: int, i: int, x: T| T::stored(values@[i]);
        proof {
            assert forall|i: int, ch: int|
                0 <= i < run && 0 <= ch < io.out_run().len() implies #[trigger] <Self as FrameModel<
                T,
            >>::emit(
                model_after::<T, Self>(m, p, xs, keys, i as nat),
                p,
                column(xs, i),
                key_column(keys, i),
            )[ch] == map(ch, i, io.out_run()[ch][i]) by {
                assert(T::stored(values@[i]) == oscillated::<T>(
                    model_after::<T, Self>(m, p, xs, keys, i as nat),
                    p,
                ));
            }
            lemma_frames_are_mapped::<T, Self>(m, p, xs, keys, io.out_run(), run as nat, map);
        }
        let f = |ch: usize, i: usize, x: T| -> (y: T)
            requires
                i < 32,
            ensures
                y == T::stored(values@[i as int]),
            { T::from_real(values[i]) };
        map_run(io, &f, Ghost(map));
    }
}

/// The sample that an oscillator writes in state `m`.
pub open spec fn oscillated<T: Sample>(m: SineOscModel<T::Real>, p: SineOscParams<T::Real>) -> T {
    T::stored(p.amplitude.prod(m.phase.sine()))
}

/// What the kernel answers about itself stays as `prepare` left it.
pub proof fn sine_osc_answers_stand<T: Sample>()
    ensures
        kernel_answers_stand::<T, SineOsc<T>>(),
{
}

} // verus!
