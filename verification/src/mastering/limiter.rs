//! Lookahead peak limiting.

use crate::contract::block::{rectangular, AudioBlockMut, IoMode};
use crate::contract::context::{
    counted_calls_stay_within, delivered, eager_calls_finish, Produced, SubBlock, Tail,
};
use crate::contract::error::DspError;
use crate::contract::param::{conventional, ParamId, ParamInfo, Unit};
use crate::contract::spec::ProcessSpec;
use crate::contract::traits::{
    agree_from, column, from_frames, kernel_answers_stand, key_column, model_after, FrameModel,
    Kernel, Params, Standing,
};
use crate::dsp::delay::{
    advanced, lemma_place_next, lemma_ring_is_queue, place, place_of, queued,
};
use crate::dsp::lanes::{
    heads, lane_states, lanes_fit, lanes_next, lanes_out, lemma_lanes_are_frames, run_lanes,
    LaneStep,
};
use crate::dsp::level::{db_to_linear, linear_of};
use crate::dsp::memory::{
    empty_plan, filled_rows, joined, refill_rows, saturated, saturation_is_final, scaled,
    MemoryLayout,
};
use crate::dsp::oversample::{phase_peak, phase_table, shifted_in, PolyphaseUpsampler};
use crate::dsp::sanitize::{finite_or_zero, flush_denormal, flushed, sane, sanitizing_is_final};
use crate::dsp::schedule::{frame_out, kernel_after, rendering_keeps_rest, Block};
use crate::dsp::smoother::{Smoother, SmootherBank};
use crate::mastering::envelope::{
    attack_weights, envelope_next, envelope_rest, idle_envelope, past_least,
    reports_fill_the_attack_history, Envelope, EnvelopeModel,
};
use crate::number::{
    at_most, at_most_of, clamp_to, clamped, larger, max_of, min_of, nil, smaller, to_usize, unit,
    whole_usize, Order, Real, Sample,
};
use vstd::layout::size_of;
use vstd::prelude::*;

verus! {

/// Oversampling factor of the true-peak detector.
pub const TP_FACTOR: usize = 4;

/// Taps per phase of the true-peak detector.
pub const TP_TAPS: usize = 12;

/// Frames over which one input can reach the detector after it.
pub const TP_TAIL_FRAMES: usize = 11;

// ---------------------------------------------------------------------------
// Settings and parameters
// ---------------------------------------------------------------------------

/// Construction settings for [`Limiter`].
#[derive(Debug, PartialEq)]
pub struct LimiterSettings<R> {
    /// Limiter ceiling in dBFS.
    pub threshold_db: R,
    /// Safety margin below `threshold_db` used by the true-peak detector.
    ///
    /// A positive margin lowers the internal gain target by this many dB.
    pub true_peak_margin_db: R,
    /// Lookahead time in milliseconds. This determines latency and tail length.
    ///
    /// The rounded lookahead must be at least 11 frames so that the delay holds
    /// every sample that can contribute to the detector response.
    pub lookahead_ms: R,
    /// Release time in milliseconds. Zero applies release immediately.
    pub release_ms: R,
}

impl<R: Copy> Copy for LimiterSettings<R> {

}

impl<R: Copy> Clone for LimiterSettings<R> {
    fn clone(&self) -> (r: Self)
        ensures
            r == *self,
    {
        *self
    }
}

/// A ceiling of -1 dBFS, a margin of 0.1 dB, a lookahead of 1.5 ms, and a
/// release of 50 ms.
pub open spec fn default_limiter<R: Real>() -> LimiterSettings<R> {
    LimiterSettings {
        threshold_db: R::decimal_of(-1, 0),
        true_peak_margin_db: R::decimal_of(1, -1),
        lookahead_ms: R::decimal_of(15, -1),
        release_ms: R::decimal_of(50, 0),
    }
}

impl<R: Real> Default for LimiterSettings<R> {
    fn default() -> (r: Self)
        ensures
            r == default_limiter::<R>(),
    {
        Self {
            threshold_db: R::decimal(-1, 0),
            true_peak_margin_db: R::decimal(1, -1),
            lookahead_ms: R::decimal(15, -1),
            release_ms: R::decimal(50, 0),
        }
    }
}

impl<R: Real> LimiterSettings<R> {
    /// Default limiter settings.
    pub fn new() -> (r: Self)
        ensures
            r == default_limiter::<R>(),
    {
        Self::default()
    }

    /// Set the limiter ceiling in dBFS.
    pub fn threshold_db(self, threshold_db: R) -> (r: Self)
        ensures
            r == (LimiterSettings { threshold_db, ..self }),
    {
        Self { threshold_db, ..self }
    }

    /// Set the true-peak safety margin in dB.
    pub fn true_peak_margin_db(self, true_peak_margin_db: R) -> (r: Self)
        ensures
            r == (LimiterSettings { true_peak_margin_db, ..self }),
    {
        Self { true_peak_margin_db, ..self }
    }

    /// Set the lookahead time in milliseconds.
    ///
    /// The rounded lookahead must be at least 11 frames.
    pub fn lookahead_ms(self, lookahead_ms: R) -> (r: Self)
        ensures
            r == (LimiterSettings { lookahead_ms, ..self }),
    {
        Self { lookahead_ms, ..self }
    }

    /// Set the release time in milliseconds. Zero applies release immediately.
    pub fn release_ms(self, release_ms: R) -> (r: Self)
        ensures
            r == (LimiterSettings { release_ms, ..self }),
    {
        Self { release_ms, ..self }
    }
}

/// Smoothed parameter values for [`Limiter`].
#[derive(Debug, PartialEq)]
pub struct LimiterParams<R> {
    /// Limiter ceiling in dBFS.
    pub threshold_db: R,
}

impl<R: Copy> Copy for LimiterParams<R> {

}

impl<R: Copy> Clone for LimiterParams<R> {
    fn clone(&self) -> (r: Self)
        ensures
            r == *self,
    {
        *self
    }
}

impl<R: Real> LimiterParams<R> {
    /// Number of the id of `threshold_db`.
    pub const THRESHOLD_DB: u32 = 0;
}

impl<R: Real> Params<R> for LimiterParams<R> {
    const COUNT: usize = 1;

    open spec fn load(values: Seq<R>) -> Self {
        LimiterParams { threshold_db: values[0] }
    }

    fn from_bank(bank: &SmootherBank<R>) -> (r: Self) {
        match bank.value_at(0) {
            Some(threshold_db) => LimiterParams { threshold_db },
            None => LimiterParams { threshold_db: R::zero() },
        }
    }
}

// ---------------------------------------------------------------------------
// Detection
// ---------------------------------------------------------------------------

/// The coefficients of the true-peak detector.
pub open spec fn detector_table<R: Real>() -> Seq<Seq<R>> {
    phase_table::<R>(TP_FACTOR as nat, TP_TAPS as nat)
}

/// What the true-peak detector with the delay line `line` reports for `x`.
pub open spec fn detected<R: Real>(line: Seq<R>, x: R) -> R {
    phase_peak(detector_table::<R>(), shifted_in(line, x), TP_FACTOR as nat)
}

/// The larger of sample peak and true peak over the first `n` channels.
pub open spec fn linked_peak<R: Real>(lines: Seq<Seq<R>>, x: Seq<R>, n: nat) -> R
    decreases n,
{
    if n == 0 {
        nil()
    } else {
        larger(
            larger(linked_peak(lines, x, (n - 1) as nat), x[n - 1].magnitude()),
            detected(lines[n - 1], x[n - 1]),
        )
    }
}

/// The true peak over the first `n` channels where the input is silent.
pub open spec fn trailing_peak<R: Real>(lines: Seq<Seq<R>>, n: nat) -> R
    decreases n,
{
    if n == 0 {
        nil()
    } else {
        larger(trailing_peak(lines, (n - 1) as nat), detected(lines[n - 1], nil()))
    }
}

/// The gain that brings `peak` down to `target`, at most unity.
pub open spec fn required_gain<R: Real>(target: R, peak: R) -> R {
    smaller(target.quot(peak), unit())
}

/// A frame with what is not finite replaced by silence.
pub open spec fn sane_frame<T: Sample>(x: Seq<T>) -> Seq<T::Real> {
    Seq::new(x.len(), |c: int| sane(x[c].value()))
}

// ---------------------------------------------------------------------------
// Delay lines
// ---------------------------------------------------------------------------

/// Delaying a run that starts at place `start` of the rings, with one gain per
/// frame.
pub struct DelayStep<R> {
    pub look: usize,
    pub start: usize,
    pub gains: [R; 32],
}

impl<R: Real> DelayStep<R> {
    pub open spec fn gain(&self, i: int) -> R {
        if i < 32 {
            self.gains@[i]
        } else {
            nil()
        }
    }
}

impl<T: Sample> LaneStep<T> for DelayStep<T::Real> {
    type Lane = Vec<T::Real>;

    type State = Seq<T::Real>;

    open spec fn state(lane: Vec<T::Real>) -> Seq<T::Real> {
        lane@
    }

    open spec fn fits(&self, s: Seq<T::Real>) -> bool {
        s.len() == self.look && self.start < self.look
    }

    open spec fn next(&self, i: int, s: Seq<T::Real>, x: T) -> Seq<T::Real> {
        s.update(place(self.look, self.start, i), sane(x.value()))
    }

    open spec fn out(&self, i: int, s: Seq<T::Real>, x: T) -> T {
        T::stored(flushed(sane(s[place(self.look, self.start, i)]).prod(self.gain(i))))
    }

    proof fn step_keeps_fit(&self, i: int, s: Seq<T::Real>, x: T) {
    }

    fn step(&self, i: usize, lane: &mut Vec<T::Real>, x: T) -> (y: T) {
        let p: usize = place_of(self.look, self.start, i);
        let d = finite_or_zero(lane[p]);
        lane.set(p, finite_or_zero(x.to_real()));
        let gain = if i < 32 {
            self.gains[i]
        } else {
            T::Real::zero()
        };
        T::from_real(flush_denormal(d.times(gain)))
    }
}

// ---------------------------------------------------------------------------
// The kernel
// ---------------------------------------------------------------------------

/// A lookahead true-peak limiter.
///
/// The signal is delayed by the lookahead. For each frame the required gain is
/// target over peak where the linked peak is above the target, otherwise unity.
/// The applied gain is the minimum over the lookahead window, shaped by a
/// raised-cosine attack, then smoothed upward on release. The attack uses the
/// lookahead remaining after the detector's own tail, so every report takes
/// full effect before its contributing samples leave the delay.
///
/// Detection uses the maximum of sample peak and oversampled true peak. The
/// target is `threshold_db - true_peak_margin_db`. Latency and tail are equal to
/// the lookahead. A drain empties the delay while the detector keeps running
/// over silence with the target last rendered: a peak between the final samples
/// is reported only then, while those samples are still in the delay.
#[derive(Clone)]
pub struct Limiter<T: Sample> {
    pub params: [ParamInfo<T::Real>; 1],
    pub true_peak_margin_db: T::Real,
    pub lookahead_ms: T::Real,
    pub release_ms: T::Real,
    pub fs: T::Real,
    /// Lookahead in frames.
    pub look: usize,
    /// Delay lines, channel by channel.
    pub delays: Vec<Vec<T::Real>>,
    pub delay_pos: usize,
    pub envelope: Envelope<T::Real>,
    /// True-peak detectors, channel by channel.
    pub tp_os: Vec<PolyphaseUpsampler<T::Real>>,
    /// Linear gain target last rendered.
    pub flush_thresh: T::Real,
    /// Tail frames drained since the last new input or reset.
    pub flushed: usize,
}

/// The state of a limiter.
#[verifier::ext_equal]
pub struct LimiterModel<R> {
    /// The declared threshold.
    pub info: ParamInfo<R>,
    pub margin: R,
    /// Delayed samples, channel by channel, oldest first.
    pub queues: Seq<Seq<R>>,
    pub env: EnvelopeModel<R>,
    /// Delay lines of the detectors, channel by channel.
    pub lines: Seq<Seq<R>>,
    /// Linear gain target last rendered.
    pub target: R,
    pub flushed: usize,
}

/// Lookahead in frames.
pub open spec fn lookahead_frames<R: Real>(lookahead_ms: R, rate: u32) -> usize {
    whole_usize(
        larger(
            lookahead_ms.prod(R::decimal_of(1, -3)).prod(R::natural(rate as u64)).rounded(),
            unit(),
        ),
    )
}

/// Frames of attack that fit between a report and the samples it concerns.
pub open spec fn attack_frames(look: usize) -> usize {
    if look <= TP_TAIL_FRAMES + 1 {
        1
    } else {
        (look - TP_TAIL_FRAMES) as usize
    }
}

/// The share of the way to the target that one frame of release covers.
pub open spec fn release_share<R: Real>(release_ms: R, rate: u32) -> R {
    let frames = release_ms.prod(R::decimal_of(1, -3)).prod(R::natural(rate as u64));
    if frames.alike(nil()) {
        unit()
    } else {
        unit::<R>().diff(R::decimal_of(-1, 0).quot(frames).exponential())
    }
}

/// The gain target before anything has been rendered.
pub open spec fn initial_target<R: Real>(info: ParamInfo<R>, margin: R) -> R {
    linear_of(clamped(sane(info.default), info.range.0, info.range.1).diff(margin))
}

impl<T: Sample> Limiter<T> {
    /// Everything in it is fixed at construction.
    pub open spec fn settings(&self) -> (Seq<ParamInfo<T::Real>>, T::Real, T::Real, T::Real) {
        (self.params@, self.true_peak_margin_db, self.lookahead_ms, self.release_ms)
    }

    /// The rate and the settings are each in order, so that the lookahead in frames can
    /// be told. Preparing keeps both from there on, also where the lookahead then turns
    /// out too short or the budget too small.
    pub open spec fn settled(&self, spec: ProcessSpec) -> bool {
        &&& spec.sample_rate != 0
        &&& self.true_peak_margin_db.finite() && !self.true_peak_margin_db.below(nil())
        &&& self.lookahead_ms.finite() && !at_most(self.lookahead_ms, nil())
        &&& self.release_ms.finite() && !self.release_ms.below(nil())
    }

    /// A limiter as configured from `s` and not yet prepared.
    pub open spec fn configured_by(&self, s: LimiterSettings<T::Real>) -> bool {
        &&& self.params@ =~= seq![
            conventional(
                ParamId(0),
                "threshold",
                (T::Real::decimal_of(-30, 0), nil()),
                s.threshold_db,
                Unit::Db,
            ),
        ]
        &&& self.true_peak_margin_db == s.true_peak_margin_db
        &&& self.lookahead_ms == s.lookahead_ms
        &&& self.release_ms == s.release_ms
        &&& self.fs == nil::<T::Real>()
        &&& self.look == 0
        &&& self.delays@ == Seq::<Vec<T::Real>>::empty()
        &&& self.delay_pos == 0
        &&& self.envelope.model() == idle_envelope::<T::Real>()
        &&& self.tp_os@ == Seq::<PolyphaseUpsampler<T::Real>>::empty()
        &&& self.flush_thresh == unit::<T::Real>()
        &&& self.flushed == 0
    }

    /// A limiter configured from `settings`. The lookahead fixes the latency.
    pub fn with_settings(settings: LimiterSettings<T::Real>) -> (r: Self)
        ensures
            r.configured_by(settings),
            <Self as Kernel<T>>::inv(&r),
    {
        let zero = T::Real::zero();
        Self {
            params: [
                ParamInfo::new(
                    ParamId(LimiterParams::<T::Real>::THRESHOLD_DB),
                    "threshold",
                    (T::Real::decimal(-30, 0), zero),
                    settings.threshold_db,
                    Unit::Db,
                ),
            ],
            true_peak_margin_db: settings.true_peak_margin_db,
            lookahead_ms: settings.lookahead_ms,
            release_ms: settings.release_ms,
            fs: zero,
            look: 0,
            delays: Vec::new(),
            delay_pos: 0,
            envelope: Envelope::empty(),
            tp_os: Vec::new(),
            flush_thresh: T::Real::one(),
            flushed: 0,
        }
    }

    /// A limiter with default settings.
    pub fn new() -> (r: Self)
        ensures
            r.configured_by(default_limiter()),
            <Self as Kernel<T>>::inv(&r),
    {
        Self::with_settings(LimiterSettings::default())
    }

    /// Restore the drain target to that of the declared default and start a new
    /// drain.
    fn reset_flush_state(&mut self)
        ensures
            *final(self) == (Limiter {
                flushed: 0,
                flush_thresh: initial_target(old(self).params@[0], old(self).true_peak_margin_db),
                ..*old(self)
            }),
    {
        self.flushed = 0;
        let p = self.params[0];
        let db = clamp_to(finite_or_zero(p.default), p.range.0, p.range.1);
        self.flush_thresh = db_to_linear(db.minus(self.true_peak_margin_db));
    }

    /// Push one frame's required gain through the envelope and return the gain
    /// to apply to the delayed output.
    pub fn step_env(&mut self, rg: T::Real) -> (r: T::Real)
        requires
            old(self).envelope.wf(),
            old(self).envelope.ready(),
        ensures
            final(self).envelope.wf(),
            final(self).envelope.ready(),
            final(self).envelope.hist@.len() == old(self).envelope.hist@.len(),
            final(self).envelope.wedge.val@.len() == old(self).envelope.wedge.val@.len(),
            final(self).envelope.model() == envelope_next(old(self).envelope.model(), rg),
            *final(self) == (Limiter { envelope: final(self).envelope, ..*old(self) }),
            r == final(self).envelope.env,
    {
        self.envelope.step(rg)
    }

    /// Bytes of delay lines, sliding minimum, attack, and detectors.
    pub open spec fn state_bytes(&self) -> nat {
        let f = size_of::<T::Real>();
        let channels = self.delays@.len();
        channels * (self.envelope.wedge.look as nat) * f + self.envelope.wedge.idx@.len()
            * size_of::<u64>() + self.envelope.wedge.val@.len() * f + self.envelope.hann@.len() * f
            + self.envelope.hist@.len() * f + channels * 60 * f
    }

    /// The detectors are the declared ones.
    pub open spec fn detecting(&self) -> bool {
        forall|c: int|
            0 <= c < self.tp_os@.len() ==> {
                &&& (#[trigger] self.tp_os@[c]).wf()
                &&& self.tp_os@[c].table() == detector_table::<T::Real>()
                &&& self.tp_os@[c].span() == TP_TAPS
            }
    }

    /// Delay lines of the detectors.
    pub open spec fn lines(&self) -> Seq<Seq<T::Real>> {
        Seq::new(self.tp_os@.len(), |c: int| self.tp_os@[c].line())
    }

    /// Report the linked peak of frame `i` of a range.
    fn detect(&mut self, io: &SubBlock<'_, '_, '_, T>, i: usize) -> (r: T::Real)
        requires
            io.wf(),
            io.io.mode() == IoMode::InPlace,
            old(self).tp_os@.len() == io.io.output().len(),
            old(self).detecting(),
            i < io.len,
        ensures
            final(self).detecting(),
            *final(self) == (Limiter { tp_os: final(self).tp_os, ..*old(self) }),
            final(self).lines() == Seq::new(
                old(self).tp_os@.len(),
                |c: int|
                    shifted_in(
                        old(self).lines()[c],
                        sane_frame::<T>(column(io.in_run(), i as int))[c],
                    ),
            ),
            r == linked_peak(
                old(self).lines(),
                sane_frame::<T>(column(io.in_run(), i as int)),
                old(self).tp_os@.len(),
            ),
    {
        let n: usize = self.tp_os.len();
        let ghost xs = sane_frame::<T>(column(io.in_run(), i as int));
        let ghost lines0 = self.lines();
        let mut peak = T::Real::zero();
        let mut ch: usize = 0;
        while ch < n
            invariant
                0 <= ch <= n,
                n == self.tp_os@.len(),
                n == old(self).tp_os@.len(),
                n == io.io.output().len(),
                io.wf(),
                io.io.mode() == IoMode::InPlace,
                i < io.len,
                xs == sane_frame::<T>(column(io.in_run(), i as int)),
                lines0 == old(self).lines(),
                self.detecting(),
                *self == (Limiter { tp_os: self.tp_os, ..*old(self) }),
                peak == linked_peak(lines0, xs, ch as nat),
                forall|c: int|
                    0 <= c < ch ==> (#[trigger] self.tp_os@[c]).line() == shifted_in(
                        lines0[c],
                        xs[c],
                    ),
                forall|c: int| ch <= c < n ==> (#[trigger] self.tp_os@[c]).line() == lines0[c],
            decreases n - ch,
        {
            let x = finite_or_zero(io.input(ch)[i].to_real());
            assert(x == xs[ch as int]);
            assert(self.tp_os@[ch as int].line() == lines0[ch as int]);
            let tp = self.tp_os[ch].peak_abs(x);
            peak = max_of(max_of(peak, x.abs()), tp);
            ch += 1;
        }
        assert(self.lines() =~= Seq::new(
            n as nat,
            |c: int| shifted_in(lines0[c], xs[c]),
        ));
        peak
    }

    /// Report the peak that the detectors bring out for a silent frame.
    fn detect_silence(&mut self) -> (r: T::Real)
        requires
            old(self).detecting(),
        ensures
            final(self).detecting(),
            *final(self) == (Limiter { tp_os: final(self).tp_os, ..*old(self) }),
            final(self).lines() == Seq::new(
                old(self).tp_os@.len(),
                |c: int| shifted_in(old(self).lines()[c], nil()),
            ),
            r == trailing_peak(old(self).lines(), old(self).tp_os@.len()),
    {
        let n: usize = self.tp_os.len();
        let zero = T::Real::zero();
        let ghost lines0 = self.lines();
        let mut peak = zero;
        let mut ch: usize = 0;
        while ch < n
            invariant
                0 <= ch <= n,
                n == self.tp_os@.len(),
                n == old(self).tp_os@.len(),
                lines0 == old(self).lines(),
                zero == nil::<T::Real>(),
                self.detecting(),
                *self == (Limiter { tp_os: self.tp_os, ..*old(self) }),
                peak == trailing_peak(lines0, ch as nat),
                forall|c: int|
                    0 <= c < ch ==> (#[trigger] self.tp_os@[c]).line() == shifted_in(
                        lines0[c],
                        nil(),
                    ),
                forall|c: int| ch <= c < n ==> (#[trigger] self.tp_os@[c]).line() == lines0[c],
            decreases n - ch,
        {
            assert(self.tp_os@[ch as int].line() == lines0[ch as int]);
            let tp = self.tp_os[ch].peak_abs(zero);
            peak = max_of(peak, tp);
            ch += 1;
        }
        assert(self.lines() =~= Seq::new(n as nat, |c: int| shifted_in(lines0[c], nil())));
        peak
    }
}

impl<T: Sample> Limiter<T> {
    /// Drain one frame into place `i` of `out`.
    fn drain_frame(&mut self, out: &mut AudioBlockMut<'_, '_, T>, i: usize)
        requires
            old(self).inv(),
            old(out).wf(),
            i < old(out).length(),
            old(self).accepts(IoMode::InPlace, old(out).samples().len(), 0),
            old(self).flushed < old(self).look,
        ensures
            final(self).inv(),
            final(self).accepts(IoMode::InPlace, old(out).samples().len(), 0),
            *final(self) == (Limiter {
                delays: final(self).delays,
                delay_pos: final(self).delay_pos,
                envelope: final(self).envelope,
                tp_os: final(self).tp_os,
                flush_thresh: final(self).flush_thresh,
                flushed: final(self).flushed,
                ..*old(self)
            }),
            final(self).flushed == old(self).flushed + 1,
            final(self).model() == drained_next(old(self).model()),
            final(out).wf(),
            final(out).length() == old(out).length(),
            final(final(out).table())@ == final(old(out).table())@,
            forall|c: int|
                0 <= c < old(out).samples().len() ==> final(#[trigger] final(out).plane(c))@
                    == final(old(out).plane(c))@,
            final(out).samples() == with_frame(
                old(out).samples(),
                i as int,
                drained_frame::<T>(old(self).model()),
            ),
    {
        let ghost m = self.model();
        let ghost before = out.samples();
        let ghost rings = self.delays@;
        let zero = T::Real::zero();
        let peak = self.detect_silence();
        // Below the target the ratio exceeds one and is brought to unity.
        let required = min_of(self.flush_thresh.over(peak), T::Real::one());
        let gain = self.step_env(required);
        let look: usize = self.look;
        let p: usize = self.delay_pos;
        let n: usize = self.delays.len();
        let ghost frame = drained_frame::<T>(m);
        proof {
            assert(self.envelope.model() == drained_next(m).env);
            assert(gain == drained_next(m).env.env);
            assert(self.lines() =~= drained_next(m).lines);
        }
        let ghost stepped = *self;
        let mut ch: usize = 0;
        while ch < n
            invariant
                0 <= ch <= n,
                n == rings.len(),
                n == self.delays@.len(),
                n == before.len(),
                m == old(self).model(),
                m.queues.len() == n,
                zero == nil::<T::Real>(),
                rings == old(self).delays@,
                p == old(self).delay_pos,
                p < look,
                frame == drained_frame::<T>(m),
                gain == drained_next(m).env.env,
                *self == (Limiter { delays: self.delays, ..stepped }),
                forall|c: int| 0 <= c < n ==> (#[trigger] rings[c])@.len() == look,
                forall|c: int|
                    0 <= c < ch ==> (#[trigger] self.delays@[c])@ == rings[c]@.update(
                        p as int,
                        nil(),
                    ),
                forall|c: int| ch <= c < n ==> #[trigger] self.delays@[c] == rings[c],
                out.wf(),
                out.length() == old(out).length(),
                final(out.table())@ == final(old(out).table())@,
                forall|c: int|
                    0 <= c < n ==> final(#[trigger] out.plane(c))@ == final(old(out).plane(c))@,
                i < out.length(),
                rectangular(before, out.length() as nat),
                out.samples().len() == n,
                forall|c: int|
                    0 <= c < ch ==> #[trigger] out.samples()[c] == before[c].update(
                        i as int,
                        frame[c],
                    ),
                forall|c: int| ch <= c < n ==> #[trigger] out.samples()[c] == before[c],
            decreases n - ch,
        {
            assert(self.delays@[ch as int] == rings[ch as int]);
            assert(rings[ch as int]@.len() == look);
            let d = finite_or_zero(self.delays[ch][p]);
            proof {
                lemma_ring_is_queue(rings[ch as int]@, p as int, nil());
                assert(m.queues[ch as int][0] == rings[ch as int]@[p as int]);
            }
            self.delays[ch].set(p, zero);
            let y = T::from_real(flush_denormal(d.times(gain)));
            assert(out.samples()[ch as int] == before[ch as int]);
            {
                let plane = out.channel_mut(ch);
                plane[i] = y;
            }
            ch += 1;
        }
        self.delay_pos = if look - p == 1 {
            0
        } else {
            p + 1
        };
        self.flushed = self.flushed + 1;
        proof {
            assert forall|c: int| 0 <= c < n implies self.model().queues[c] == drained_next(
                m,
            ).queues[c] by {
                assert(rings[c]@.len() == look);
                assert(self.delays@[c]@ == rings[c]@.update(p as int, nil()));
                lemma_ring_is_queue(rings[c]@, p as int, nil());
            }
            assert(self.model().queues =~= drained_next(m).queues);
            assert(out.samples() =~= with_frame(before, i as int, frame));
            assert forall|c: int| 0 <= c < self.delays@.len() implies (
            #[trigger] self.delays@[c])@.len() == self.envelope.wedge.look by {
                assert(self.delays@[c]@ == rings[c]@.update(p as int, nil()));
                assert(rings[c]@.len() == look);
            }
        }
    }
}

impl<T: Sample> Default for Limiter<T> {
    fn default() -> (r: Self)
        ensures
            r.configured_by(default_limiter()),
            <Self as Kernel<T>>::inv(&r),
    {
        Self::new()
    }
}

impl<T: Sample> FrameModel<T> for Limiter<T> {
    type Params = LimiterParams<T::Real>;

    type Model = LimiterModel<T::Real>;

    open spec fn next(
        m: LimiterModel<T::Real>,
        p: LimiterParams<T::Real>,
        x: Seq<T>,
        key: Seq<Seq<T>>,
    ) -> LimiterModel<T::Real> {
        let v = sane_frame::<T>(x);
        let target = linear_of(p.threshold_db.diff(m.margin));
        LimiterModel {
            queues: Seq::new(m.queues.len(), |c: int| advanced(m.queues[c], v[c])),
            env: envelope_next(
                m.env,
                required_gain(target, linked_peak(m.lines, v, m.lines.len())),
            ),
            lines: Seq::new(m.lines.len(), |c: int| shifted_in(m.lines[c], v[c])),
            target,
            flushed: 0,
            ..m
        }
    }

    open spec fn emit(
        m: LimiterModel<T::Real>,
        p: LimiterParams<T::Real>,
        x: Seq<T>,
        key: Seq<Seq<T>>,
    ) -> Seq<T> {
        let gain = <Self as FrameModel<T>>::next(m, p, x, key).env.env;
        Seq::new(
            m.queues.len(),
            |c: int| T::stored(flushed(sane(m.queues[c][0]).prod(gain))),
        )
    }

    open spec fn rest(m: LimiterModel<T::Real>) -> LimiterModel<T::Real> {
        LimiterModel {
            queues: Seq::new(
                m.queues.len(),
                |c: int| Seq::new(m.queues[c].len(), |i: int| nil::<T::Real>()),
            ),
            env: envelope_rest(m.env),
            lines: Seq::new(
                m.lines.len(),
                |c: int| Seq::new(m.lines[c].len(), |i: int| nil::<T::Real>()),
            ),
            target: initial_target(m.info, m.margin),
            flushed: 0,
            ..m
        }
    }

    open spec fn drained(m: LimiterModel<T::Real>) -> bool {
        m.flushed >= m.env.look
    }
}

/// The state after a silent frame of a drain.
pub open spec fn drained_next<R: Real>(m: LimiterModel<R>) -> LimiterModel<R> {
    LimiterModel {
        queues: Seq::new(m.queues.len(), |c: int| advanced(m.queues[c], nil())),
        env: envelope_next(
            m.env,
            required_gain(m.target, trailing_peak(m.lines, m.lines.len())),
        ),
        lines: Seq::new(m.lines.len(), |c: int| shifted_in(m.lines[c], nil())),
        flushed: (m.flushed + 1) as usize,
        ..m
    }
}

/// The frame that a drain writes.
pub open spec fn drained_frame<T: Sample>(m: LimiterModel<T::Real>) -> Seq<T> {
    Seq::new(
        m.queues.len(),
        |c: int| T::stored(flushed(sane(m.queues[c][0]).prod(drained_next(m).env.env))),
    )
}

/// The state after `n` frames of a drain.
pub open spec fn drained_after<R: Real>(m: LimiterModel<R>, n: nat) -> LimiterModel<R>
    decreases n,
{
    if n == 0 {
        m
    } else {
        drained_next(drained_after(m, (n - 1) as nat))
    }
}

/// A reset restores a limiter whatever it has limited.
pub proof fn limiter_reset_restores<T: Sample>()
    ensures
        rendering_keeps_rest::<T, Limiter<T>>(),
{
    assert forall|
        m: LimiterModel<T::Real>,
        p: LimiterParams<T::Real>,
        x: Seq<T>,
        key: Seq<Seq<T>>,
    | #[trigger] <Limiter<T> as FrameModel<T>>::rest(
        <Limiter<T> as FrameModel<T>>::next(m, p, x, key),
    ) == <Limiter<T> as FrameModel<T>>::rest(m) by {
        lemma_same_rest::<T>(m, <Limiter<T> as FrameModel<T>>::next(m, p, x, key));
    }
    assert forall|m: LimiterModel<T::Real>| #[trigger] <Limiter<T> as FrameModel<T>>::rest(
        <Limiter<T> as FrameModel<T>>::rest(m),
    ) == <Limiter<T> as FrameModel<T>>::rest(m) by {
        lemma_same_rest::<T>(m, <Limiter<T> as FrameModel<T>>::rest(m));
    }
}

/// States of one layout come to the same rest.
proof fn lemma_same_rest<T: Sample>(a: LimiterModel<T::Real>, b: LimiterModel<T::Real>)
    requires
        a.info == b.info,
        a.margin == b.margin,
        envelope_rest(a.env) == envelope_rest(b.env),
        a.queues.len() == b.queues.len(),
        a.lines.len() == b.lines.len(),
        forall|c: int|
            0 <= c < a.queues.len() ==> (#[trigger] a.queues[c]).len() == b.queues[c].len(),
        forall|c: int| 0 <= c < a.lines.len() ==> (#[trigger] a.lines[c]).len() == b.lines[c].len(),
    ensures
        <Limiter<T> as FrameModel<T>>::rest(a) == <Limiter<T> as FrameModel<T>>::rest(b),
{
    let ra = <Limiter<T> as FrameModel<T>>::rest(a);
    let rb = <Limiter<T> as FrameModel<T>>::rest(b);
    assert forall|c: int| 0 <= c < ra.queues.len() implies ra.queues[c] == rb.queues[c] by {
        assert(a.queues[c].len() == b.queues[c].len());
        assert(ra.queues[c] =~= rb.queues[c]);
    }
    assert(ra.queues =~= rb.queues);
    assert forall|c: int| 0 <= c < ra.lines.len() implies ra.lines[c] == rb.lines[c] by {
        assert(a.lines[c].len() == b.lines[c].len());
        assert(ra.lines[c] =~= rb.lines[c]);
    }
    assert(ra.lines =~= rb.lines);
}

/// What a drain of up to `room` frames makes of a limiter and of the output.
pub open spec fn limiter_drain<T: Sample>(
    m: LimiterModel<T::Real>,
    room: usize,
    r: Produced,
    after: LimiterModel<T::Real>,
    out: Seq<Seq<T>>,
) -> bool {
    let left = m.env.look - m.flushed;
    let want = if room <= left {
        room as int
    } else {
        left
    };
    &&& r.frames == want
    &&& r.done == (m.flushed + want >= m.env.look)
    &&& after == drained_after(m, want as nat)
    &&& heads(out, want) == from_frames(
        m.queues.len(),
        want as nat,
        |i: int| drained_frame::<T>(drained_after(m, i as nat)),
    )
}

/// What the detector reports reaches the whole attack in time: when the oldest sample
/// that can have contributed to report `n` leaves the delay, every windowed
/// minimum that the attack looks at is at most the reported gain, and it stays so
/// until the report leaves the window.
pub proof fn reports_reach_the_attack_in_time<R: Real>(m: EnvelopeModel<R>, n: int, k: int)
    requires
        TP_TAIL_FRAMES <= m.look <= usize::MAX,
        m.hann.len() == attack_frames(m.look as usize),
        0 <= n,
        n + m.look - TP_TAIL_FRAMES <= m.log.len() - 1 <= n + m.look,
        0 <= k < m.hann.len(),
        forall|i: int| 0 <= i < m.log.len() ==> (#[trigger] m.log[i]).finite(),
    ensures
        at_most(past_least(m.log, m.look, k), m.log[n]),
{
    reports_fill_the_attack_history(m, n, TP_TAIL_FRAMES as int, k);
}

proof fn lemma_drain_counts<R: Real>(m: LimiterModel<R>, n: nat)
    requires
        m.flushed + n <= m.env.look <= usize::MAX,
    ensures
        drained_after(m, n).flushed == m.flushed + n,
    decreases n,
{
    if n > 0 {
        lemma_drain_counts(m, (n - 1) as nat);
    }
}

/// The delay of channel `c` after `n` frames of a block: what it held first,
/// then the input.
proof fn lemma_delayed_input<T: Sample>(
    m: LimiterModel<T::Real>,
    bank: Seq<Smoother<T::Real>>,
    b: Block<T>,
    n: nat,
    c: int,
)
    requires
        0 <= c < m.queues.len(),
        b.x.len() == m.queues.len(),
        m.queues[c].len() > 0,
    ensures
        ({
            let queues = kernel_after::<T, Limiter<T>>(m, bank, b, n).queues;
            let look = m.queues[c].len();
            &&& queues.len() == m.queues.len()
            &&& queues[c].len() == look
            &&& forall|j: int|
                0 <= j < look ==> #[trigger] queues[c][j] == (if n + j < look {
                    m.queues[c][n + j]
                } else {
                    sane(b.x[c][n + j - look].value())
                })
        }),
    decreases n,
{
    if n > 0 {
        lemma_delayed_input::<T>(m, bank, b, (n - 1) as nat, c);
        let before = kernel_after::<T, Limiter<T>>(m, bank, b, (n - 1) as nat).queues;
        let queues = kernel_after::<T, Limiter<T>>(m, bank, b, n).queues;
        let look = m.queues[c].len();
        let v = sane_frame::<T>(column(b.x, n - 1));
        assert(queues[c] == advanced(before[c], v[c]));
        assert forall|j: int| 0 <= j < look implies #[trigger] queues[c][j] == (if n + j < look {
            m.queues[c][n + j]
        } else {
            sane(b.x[c][n + j - look].value())
        }) by {
            if j + 1 < look {
                assert(queues[c][j] == before[c][j + 1]);
            } else {
                assert(queues[c][j] == v[c]);
            }
        }
    }
}

/// The latency is exact: frame `i` of the output is frame `i - lookahead` of the
/// input, scaled by the gain applied to it.
pub proof fn limiter_latency_is_exact<T: Sample>(
    m: LimiterModel<T::Real>,
    bank: Seq<Smoother<T::Real>>,
    b: Block<T>,
    i: nat,
    c: int,
)
    requires
        nil::<T::Real>().finite(),
        0 <= c < m.queues.len(),
        b.x.len() == m.queues.len(),
        m.queues[c].len() > 0,
        i >= m.queues[c].len(),
    ensures
        frame_out::<T, Limiter<T>>(m, bank, b, i as int)[c] == T::stored(
            flushed(
                sane(b.x[c][i - m.queues[c].len()].value()).prod(
                    kernel_after::<T, Limiter<T>>(m, bank, b, (i + 1) as nat).env.env,
                ),
            ),
        ),
{
    lemma_delayed_input::<T>(m, bank, b, i, c);
    sanitizing_is_final(b.x[c][i - m.queues[c].len()].value());
    assert(kernel_after::<T, Limiter<T>>(m, bank, b, i).queues[c][0] == sane(
        b.x[c][i - m.queues[c].len()].value(),
    ));
}

/// However a drain is divided, it delivers the lookahead in all and is then
/// done.
pub proof fn limiter_drains_its_lookahead<T: Sample>(
    m: LimiterModel<T::Real>,
    room: usize,
    r: Produced,
    after: LimiterModel<T::Real>,
    out: Seq<Seq<T>>,
)
    requires
        limiter_drain::<T>(m, room, r, after, out),
        m.flushed <= m.env.look <= usize::MAX,
    ensures
        r.frames <= room,
        m.flushed + r.frames <= after.flushed <= m.env.look,
        r.done <==> after.flushed == m.env.look,
{
    lemma_drain_counts(
        m,
        if room <= m.env.look - m.flushed {
            room as nat
        } else {
            (m.env.look - m.flushed) as nat
        },
    );
}

/// A whole drain is the lookahead: whatever the sizes of its calls, a drain from its
/// start delivers at most the declared tail, and a call that finds it done brings nothing
/// more.
pub proof fn limiter_drains_no_more_than_its_tail<T: Sample>(
    models: Seq<LimiterModel<T::Real>>,
    rooms: Seq<usize>,
    calls: Seq<Produced>,
    outs: Seq<Seq<Seq<T>>>,
)
    requires
        models.len() == calls.len() + 1,
        forall|k: int|
            0 <= k < calls.len() ==> limiter_drain::<T>(
                models[k],
                rooms[k],
                #[trigger] calls[k],
                models[k + 1],
                outs[k],
            ),
        models[0].flushed <= models[0].env.look <= usize::MAX,
    ensures
        models[0].flushed + delivered(calls) <= models[0].env.look,
        forall|k: int|
            0 <= k < calls.len() - 1 && (#[trigger] calls[k]).done ==> calls[k + 1].frames == 0
                && calls[k + 1].done,
{
    let counts = Seq::new(models.len(), |k: int| models[k].flushed as nat);
    assert forall|k: int| 0 <= k < calls.len() implies counts[k] + (#[trigger] calls[k]).frames
        <= counts[k + 1] by {
        lemma_drain_stays::<T>(models, rooms, calls, outs, k);
        lemma_drain_stays::<T>(models, rooms, calls, outs, k + 1);
    }
    lemma_drain_stays::<T>(models, rooms, calls, outs, calls.len() as int);
    counted_calls_stay_within(calls, counts, models[0].env.look as nat);
    assert forall|k: int| 0 <= k < calls.len() - 1 && (#[trigger] calls[k]).done implies calls[k
        + 1].frames == 0 && calls[k + 1].done by {
        lemma_drain_stays::<T>(models, rooms, calls, outs, k);
        lemma_drain_stays::<T>(models, rooms, calls, outs, k + 1);
        let next = calls[k + 1];
        assert(limiter_drain::<T>(
            models[k + 1],
            rooms[k + 1],
            next,
            models[k + 2],
            outs[k + 1],
        ));
    }
}

/// A drain is exactly the tail: calls with room for a frame or more deliver what is left of
/// it, no more and no less, by the time one says that it is done, and one says so after at
/// most as many calls as frames were left.
pub proof fn limiter_drains_exactly_its_tail<T: Sample>(
    models: Seq<LimiterModel<T::Real>>,
    rooms: Seq<usize>,
    calls: Seq<Produced>,
    outs: Seq<Seq<Seq<T>>>,
)
    requires
        models.len() == calls.len() + 1,
        forall|k: int|
            0 <= k < calls.len() ==> limiter_drain::<T>(
                models[k],
                rooms[k],
                #[trigger] calls[k],
                models[k + 1],
                outs[k],
            ),
        models[0].flushed <= models[0].env.look <= usize::MAX,
        forall|k: int| 0 <= k < calls.len() ==> #[trigger] rooms[k] >= 1,
        calls.len() >= 1,
        calls.len() >= models[0].env.look - models[0].flushed || calls.last().done,
    ensures
        models[0].flushed + delivered(calls) == models[0].env.look,
        calls.last().done,
{
    let counts = Seq::new(models.len(), |k: int| models[k].flushed as nat);
    assert forall|k: int| 0 <= k < calls.len() implies {
        &&& counts[k] + (#[trigger] calls[k]).frames == counts[k + 1]
        &&& counts[k + 1] <= models[0].env.look
        &&& counts[k] < models[0].env.look ==> calls[k].frames >= 1
        &&& calls[k].done == (counts[k + 1] == models[0].env.look)
    } by {
        lemma_drain_stays::<T>(models, rooms, calls, outs, k);
        lemma_drain_stays::<T>(models, rooms, calls, outs, k + 1);
        assert(rooms[k] >= 1);
    }
    eager_calls_finish(calls, counts, models[0].env.look as nat);
    let last = calls[calls.len() - 1];
    assert(last.done == (counts[calls.len() as int] == models[0].env.look));
}

proof fn lemma_drain_stays<T: Sample>(
    models: Seq<LimiterModel<T::Real>>,
    rooms: Seq<usize>,
    calls: Seq<Produced>,
    outs: Seq<Seq<Seq<T>>>,
    k: int,
)
    requires
        models.len() == calls.len() + 1,
        forall|j: int|
            0 <= j < calls.len() ==> limiter_drain::<T>(
                models[j],
                rooms[j],
                #[trigger] calls[j],
                models[j + 1],
                outs[j],
            ),
        models[0].flushed <= models[0].env.look <= usize::MAX,
        0 <= k <= calls.len(),
    ensures
        models[k].env.look == models[0].env.look,
        models[k].flushed <= models[0].env.look,
        k > 0 ==> models[k].flushed == models[k - 1].flushed + calls[k - 1].frames,
    decreases k,
{
    if k > 0 {
        lemma_drain_stays::<T>(models, rooms, calls, outs, k - 1);
        let call = calls[k - 1];
        assert(limiter_drain::<T>(models[k - 1], rooms[k - 1], call, models[k], outs[k - 1]));
        lemma_drain_counts(models[k - 1], call.frames as nat);
        lemma_drain_keeps_look(models[k - 1], call.frames as nat);
    }
}

proof fn lemma_drain_keeps_look<R: Real>(m: LimiterModel<R>, n: nat)
    ensures
        drained_after(m, n).env.look == m.env.look,
    decreases n,
{
    if n > 0 {
        lemma_drain_keeps_look(m, (n - 1) as nat);
    }
}

impl<T: Sample> Kernel<T> for Limiter<T> {
    open spec fn model(&self) -> LimiterModel<T::Real> {
        LimiterModel {
            info: self.params@[0],
            margin: self.true_peak_margin_db,
            queues: Seq::new(
                self.delays@.len(),
                |c: int| queued(self.delays@[c]@, self.delay_pos as int),
            ),
            env: self.envelope.model(),
            lines: self.lines(),
            target: self.flush_thresh,
            flushed: self.flushed,
        }
    }

    open spec fn inv(&self) -> bool {
        &&& self.envelope.wf()
        &&& self.detecting()
        &&& self.tp_os@.len() == self.delays@.len()
        &&& forall|c: int|
            0 <= c < self.delays@.len() ==> (#[trigger] self.delays@[c])@.len()
                == self.envelope.wedge.look
    }

    open spec fn accepts(&self, mode: IoMode, channels: nat, buses: nat) -> bool {
        &&& mode == IoMode::InPlace
        &&& self.delays@.len() == channels
        &&& self.envelope.ready()
        &&& self.look == self.envelope.wedge.look
        &&& self.delay_pos < self.look
        &&& self.flushed <= self.look
    }

    open spec fn outcome(&self, spec: ProcessSpec) -> Result<(), DspError> {
        let zero = nil::<T::Real>();
        let look = lookahead_frames(self.lookahead_ms, spec.sample_rate);
        let size = size_of::<T::Real>();
        let channels = spec.channels as nat;
        if spec.sample_rate == 0 {
            Err(DspError::UnsupportedSpec("sample rate must be non-zero"))
        } else if !self.true_peak_margin_db.finite() || self.true_peak_margin_db.below(zero) {
            Err(DspError::InvalidParam("true_peak_margin_db must be finite and non-negative"))
        } else if !self.lookahead_ms.finite() || at_most(self.lookahead_ms, zero) {
            Err(DspError::InvalidParam("limiter lookahead_ms must be finite and positive"))
        } else if !self.release_ms.finite() || self.release_ms.below(zero) {
            Err(DspError::InvalidParam("limiter release_ms must be finite and non-negative"))
        } else if look < TP_TAIL_FRAMES {
            Err(DspError::InvalidParam("limiter lookahead_ms must round to at least 11 frames"))
        } else if look == usize::MAX {
            Err(
                DspError::InvalidParam(
                    "limiter lookahead_ms produces an unaddressable delay line",
                ),
            )
        } else {
            empty_plan().arrays(channels, look as nat, size).array(
                look as nat + 1,
                size_of::<u64>(),
            ).array(look as nat + 1, size).array(attack_frames(look) as nat, size).array(
                attack_frames(look) as nat,
                size,
            ).arrays(channels, 60, size).verdict(spec.max_memory)
        }
    }

    open spec fn made(&self, spec: ProcessSpec) -> LimiterModel<T::Real> {
        let look = lookahead_frames(self.lookahead_ms, spec.sample_rate);
        LimiterModel {
            info: self.params@[0],
            margin: self.true_peak_margin_db,
            queues: Seq::new(
                spec.channels as nat,
                |c: int| Seq::new(look as nat, |i: int| nil::<T::Real>()),
            ),
            env: EnvelopeModel {
                look: look as int,
                hann: attack_weights(attack_frames(look) as nat),
                release: release_share(self.release_ms, spec.sample_rate),
                log: Seq::empty(),
                env: unit(),
            },
            lines: Seq::new(
                spec.channels as nat,
                |c: int| Seq::new(TP_TAPS as nat, |i: int| nil::<T::Real>()),
            ),
            target: initial_target(self.params@[0], self.true_peak_margin_db),
            flushed: 0,
        }
    }

    open spec fn standing(&self) -> Standing<T::Real> {
        Standing {
            latency: self.look,
            tail: Tail::Frames(self.look),
            io_mode: IoMode::InPlace,
            footprint: saturated(self.state_bytes()),
            info: self.params@,
            sidechain_inputs: 0,
        }
    }

    fn prepare(&mut self, spec: ProcessSpec) -> (r: Result<(), DspError>)
        ensures
            final(self).settings() == old(self).settings(),
            r is Err ==> *final(self) == (if old(self).settled(spec) {
                Limiter {
                    fs: T::Real::natural(spec.sample_rate as u64),
                    look: lookahead_frames(old(self).lookahead_ms, spec.sample_rate),
                    ..*old(self)
                }
            } else {
                *old(self)
            }),
            r is Ok ==> {
                &&& final(self).fs == T::Real::natural(spec.sample_rate as u64)
                &&& final(self).look == lookahead_frames(old(self).lookahead_ms, spec.sample_rate)
                &&& final(self).delays@.len() == spec.channels
                &&& final(self).envelope.model() == (EnvelopeModel {
                    look: final(self).look as int,
                    hann: attack_weights::<T::Real>(attack_frames(final(self).look) as nat),
                    release: release_share(old(self).release_ms, spec.sample_rate),
                    log: Seq::empty(),
                    env: unit::<T::Real>(),
                })
            },
    {
        let zero = T::Real::zero();
        if spec.sample_rate == 0 {
            return Err(DspError::UnsupportedSpec("sample rate must be non-zero"));
        }
        if !self.true_peak_margin_db.is_finite() || self.true_peak_margin_db.less(zero) {
            return Err(
                DspError::InvalidParam("true_peak_margin_db must be finite and non-negative"),
            );
        }
        if !self.lookahead_ms.is_finite() || at_most_of(self.lookahead_ms, zero) {
            return Err(DspError::InvalidParam("limiter lookahead_ms must be finite and positive"));
        }
        if !self.release_ms.is_finite() || self.release_ms.less(zero) {
            return Err(DspError::InvalidParam("limiter release_ms must be finite and non-negative"));
        }
        let one = T::Real::one();
        let milli = T::Real::decimal(1, -3);
        let fs = T::Real::from_u64(spec.sample_rate as u64);
        let look: usize = to_usize(
            max_of(self.lookahead_ms.times(milli).times(fs).round(), one),
        );
        self.fs = fs;
        self.look = look;
        if look < TP_TAIL_FRAMES {
            return Err(
                DspError::InvalidParam("limiter lookahead_ms must round to at least 11 frames"),
            );
        }
        if look == usize::MAX {
            return Err(
                DspError::InvalidParam("limiter lookahead_ms produces an unaddressable delay line"),
            );
        }
        let attack: usize = if look <= TP_TAIL_FRAMES + 1 {
            1
        } else {
            look - TP_TAIL_FRAMES
        };
        match MemoryLayout::new().repeated_array::<T::Real>(spec.channels, look).array::<u64>(
            look + 1,
        ).array::<T::Real>(look + 1).array::<T::Real>(attack).array::<T::Real>(
            attack,
        ).repeated_array::<T::Real>(spec.channels, TP_FACTOR * TP_TAPS + TP_TAPS).preflight(
            spec.max_memory,
        ) {
            Err(e) => {
                return Err(e);
            },
            Ok(_) => {},
        }
        let rel = self.release_ms.times(milli).times(fs);
        let release = if rel.equals(zero) {
            one
        } else {
            one.minus(T::Real::decimal(-1, 0).over(rel).exp())
        };
        self.delays = filled_rows(zero, look, spec.channels);
        self.delay_pos = 0;
        self.envelope = Envelope::new(look, attack, release);
        let mut tp_os: Vec<PolyphaseUpsampler<T::Real>> = Vec::with_capacity(spec.channels);
        let mut ch: usize = 0;
        while ch < spec.channels
            invariant
                0 <= ch <= spec.channels,
                tp_os@.len() == ch,
                forall|c: int|
                    0 <= c < ch ==> {
                        &&& (#[trigger] tp_os@[c]).wf()
                        &&& tp_os@[c].table() == detector_table::<T::Real>()
                        &&& tp_os@[c].span() == TP_TAPS
                        &&& tp_os@[c].line() == Seq::new(TP_TAPS as nat, |i: int| nil::<T::Real>())
                    },
            decreases spec.channels - ch,
        {
            tp_os.push(PolyphaseUpsampler::new(TP_FACTOR, TP_TAPS));
            ch += 1;
        }
        self.tp_os = tp_os;
        self.reset_flush_state();
        proof {
            let m = self.model();
            let rest = <Self as FrameModel<T>>::rest(m);
            assert forall|c: int| 0 <= c < m.queues.len() implies m.queues[c] == rest.queues[c] by {
                assert(self.delays@[c]@ == Seq::new(look as nat, |j: int| zero));
                assert(m.queues[c] =~= rest.queues[c]);
            }
            assert(m.queues =~= rest.queues);
            assert forall|c: int| 0 <= c < m.lines.len() implies m.lines[c] == rest.lines[c] by {
                assert(self.tp_os@[c].line() == Seq::new(
                    TP_TAPS as nat,
                    |i: int| nil::<T::Real>(),
                ));
                assert(m.lines[c] =~= rest.lines[c]);
            }
            assert(m.lines =~= rest.lines);
            assert(m.env.log =~= Seq::empty());
            let made = old(self).made(spec);
            assert forall|c: int| 0 <= c < m.queues.len() implies m.queues[c] == made.queues[c] by {
                assert(m.queues[c] =~= made.queues[c]);
            }
            assert(m.queues =~= made.queues);
            assert(m.lines =~= made.lines);
            assert(self.accepts(IoMode::InPlace, spec.channels as nat, 0));
        }
        Ok(())
    }

    fn reset(&mut self)
        ensures
            *final(self) == (Limiter {
                delays: final(self).delays,
                delay_pos: final(self).delay_pos,
                envelope: final(self).envelope,
                tp_os: final(self).tp_os,
                flush_thresh: final(self).flush_thresh,
                flushed: final(self).flushed,
                ..*old(self)
            }),
    {
        let zero = T::Real::zero();
        refill_rows(&mut self.delays, zero);
        self.envelope.reset();
        let n: usize = self.tp_os.len();
        let mut ch: usize = 0;
        while ch < n
            invariant
                0 <= ch <= n,
                n == self.tp_os@.len(),
                n == old(self).tp_os@.len(),
                old(self).detecting(),
                self.detecting(),
                *self == (Limiter {
                    delays: self.delays,
                    delay_pos: self.delay_pos,
                    envelope: self.envelope,
                    tp_os: self.tp_os,
                    flush_thresh: self.flush_thresh,
                    flushed: self.flushed,
                    ..*old(self)
                }),
                self.delays@.len() == old(self).delays@.len(),
                forall|i: int|
                    0 <= i < self.delays@.len() ==> (#[trigger] self.delays@[i])@ == Seq::new(
                        old(self).delays@[i]@.len(),
                        |j: int| zero,
                    ),
                self.envelope.wf(),
                self.envelope.model() == envelope_rest(old(self).envelope.model()),
                self.envelope.hist@.len() == old(self).envelope.hist@.len(),
                self.envelope.wedge.val@.len() == old(self).envelope.wedge.val@.len(),
                self.fs == old(self).fs,
                forall|c: int|
                    0 <= c < ch ==> (#[trigger] self.tp_os@[c]).line() == Seq::new(
                        old(self).tp_os@[c].line().len(),
                        |i: int| nil::<T::Real>(),
                    ),
                forall|c: int| ch <= c < n ==> #[trigger] self.tp_os@[c] == old(self).tp_os@[c],
            decreases n - ch,
        {
            assert(self.tp_os@[ch as int] == old(self).tp_os@[ch as int]);
            self.tp_os[ch].reset();
            ch += 1;
        }
        self.delay_pos = 0;
        self.reset_flush_state();
        proof {
            let m = self.model();
            let rest = <Self as FrameModel<T>>::rest(old(self).model());
            assert forall|c: int| 0 <= c < m.queues.len() implies m.queues[c] == rest.queues[c] by {
                assert(self.delays@[c]@ == Seq::new(old(self).delays@[c]@.len(), |j: int| zero));
                assert(m.queues[c] =~= rest.queues[c]);
            }
            assert(m.queues =~= rest.queues);
            assert forall|c: int| 0 <= c < m.lines.len() implies m.lines[c] == rest.lines[c] by {
                assert(self.tp_os@[c].line() == Seq::new(
                    old(self).tp_os@[c].line().len(),
                    |i: int| nil::<T::Real>(),
                ));
                assert(m.lines[c] =~= rest.lines[c]);
            }
            assert(m.lines =~= rest.lines);
        }
    }

    fn latency(&self) -> (r: usize)
        ensures
            r == self.look,
    {
        self.look
    }

    fn tail(&self) -> (r: Tail)
        ensures
            r == Tail::Frames(self.look),
    {
        Tail::Frames(self.look)
    }

    fn io_mode(&self) -> (r: IoMode)
        ensures
            r == IoMode::InPlace,
    {
        IoMode::InPlace
    }

    fn memory_footprint(&self) -> (r: usize)
        ensures
            self.inv() ==> r == saturated(self.state_bytes()),
    {
        let f: usize = core::mem::size_of::<T::Real>();
        let u: usize = core::mem::size_of::<u64>();
        let look: usize = self.envelope.wedge.look;
        let channels: usize = self.delays.len();
        proof {
            let lines = channels as nat * look as nat;
            let heads = channels as nat * 60;
            saturation_is_final(lines, f as nat);
            saturation_is_final(heads, f as nat);
            let a = lines * f as nat;
            let b = self.envelope.wedge.idx@.len() * u as nat;
            let c = self.envelope.wedge.val@.len() * f as nat;
            let d = self.envelope.hann@.len() * f as nat;
            let e = self.envelope.hist@.len() * f as nat;
            let g = heads * f as nat;
            lemma_saturated_pair(a, b);
            lemma_saturated_pair(a + b, c);
            lemma_saturated_pair(a + b + c, d);
            lemma_saturated_pair(a + b + c + d, e);
            lemma_saturated_pair(a + b + c + d + e, g);
        }
        joined(
            joined(
                joined(
                    joined(
                        joined(
                            scaled(scaled(channels, look), f),
                            scaled(self.envelope.wedge.idx.len(), u),
                        ),
                        scaled(self.envelope.wedge.val.len(), f),
                    ),
                    scaled(self.envelope.hann.len(), f),
                ),
                scaled(self.envelope.hist.len(), f),
            ),
            scaled(scaled(channels, TP_FACTOR * TP_TAPS + TP_TAPS), f),
        )
    }

    fn param_info(&self) -> (r: &[ParamInfo<T::Real>])
        ensures
            r@ == self.params@,
    {
        self.params.as_slice()
    }

    fn render(&mut self, io: &mut SubBlock<'_, '_, '_, T>, params: &LimiterParams<T::Real>)
        ensures
            *final(self) == (Limiter {
                delays: final(self).delays,
                delay_pos: final(self).delay_pos,
                envelope: final(self).envelope,
                tp_os: final(self).tp_os,
                flush_thresh: final(self).flush_thresh,
                flushed: final(self).flushed,
                ..*old(self)
            }),
    {
        let ghost m = self.model();
        let ghost p = *params;
        let ghost xs = io.in_run();
        let ghost keys = io.key_run();
        // New input starts a new drain.
        self.flushed = 0;
        let target = db_to_linear(params.threshold_db.minus(self.true_peak_margin_db));
        // A drain continues with the target that rendering used last.
        self.flush_thresh = target;
        let zero = T::Real::zero();
        let run: usize = io.frames();
        // The gain of each frame, from the linked peak.
        let mut gains: [T::Real; 32] = [zero; 32];
        let mut i: usize = 0;
        while i < run
            invariant
                0 <= i <= run,
                run == io.len,
                run <= 32,
                gains@.len() == 32,
                io.wf(),
                io.io.mode() == IoMode::InPlace,
                xs == io.in_run(),
                *io == *old(io),
                self.tp_os@.len() == io.io.output().len(),
                self.tp_os@.len() == old(self).tp_os@.len(),
                self.detecting(),
                self.envelope.wf(),
                self.envelope.ready(),
                self.envelope.wedge.look == old(self).envelope.wedge.look,
                self.envelope.hist@.len() == old(self).envelope.hist@.len(),
                self.envelope.wedge.val@.len() == old(self).envelope.wedge.val@.len(),
                *self == (Limiter {
                    tp_os: self.tp_os,
                    envelope: self.envelope,
                    flushed: 0,
                    flush_thresh: target,
                    ..*old(self)
                }),
                target == linear_of(p.threshold_db.diff(m.margin)),
                m == old(self).model(),
                self.envelope.model() == model_after::<T, Self>(m, p, xs, keys, i as nat).env,
                self.lines() == model_after::<T, Self>(m, p, xs, keys, i as nat).lines,
                model_after::<T, Self>(m, p, xs, keys, i as nat).margin == m.margin,
                forall|j: int|
                    0 <= j < i ==> #[trigger] gains@[j] == model_after::<T, Self>(
                        m,
                        p,
                        xs,
                        keys,
                        (j + 1) as nat,
                    ).env.env,
            decreases run - i,
        {
            let ghost mi = model_after::<T, Self>(m, p, xs, keys, i as nat);
            let peak = self.detect(io, i);
            // Below the target the ratio exceeds one and is brought to unity.
            let required = min_of(target.over(peak), T::Real::one());
            let gain = self.step_env(required);
            gains[i] = gain;
            proof {
                let next = model_after::<T, Self>(m, p, xs, keys, (i + 1) as nat);
                assert(next == <Self as FrameModel<T>>::next(
                    mi,
                    p,
                    column(xs, i as int),
                    key_column(keys, i as int),
                ));
                assert(self.lines() =~= next.lines);
            }
            i += 1;
        }
        let look: usize = self.look;
        let start: usize = self.delay_pos;
        let step = DelayStep { look, start, gains };
        proof {
            lemma_limiter_frames::<T>(step, m, p, xs, keys, self.delays@.len(), run as nat);
            lemma_lanes_are_frames::<T, Self, DelayStep<T::Real>>(
                step,
                mid_run::<T>(step, m, p, xs, keys),
                lane_states::<T, DelayStep<T::Real>>(self.delays@),
                p,
                xs,
                keys,
                xs,
                run as nat,
            );
            lemma_place_next(look, start, 0);
            assert(mid_run::<T>(step, m, p, xs, keys)(
                lane_states::<T, DelayStep<T::Real>>(self.delays@),
                0,
            ).queues =~= m.queues);
        }
        run_lanes::<T, DelayStep<T::Real>>(&step, &mut self.delays, io);
        self.delay_pos = place_of(look, start, run);
        proof {
            assert forall|c: int| 0 <= c < self.delays@.len() implies (
            #[trigger] self.delays@[c])@.len() == self.envelope.wedge.look by {
                assert(<DelayStep<T::Real> as LaneStep<T>>::fits(
                    &step,
                    <DelayStep<T::Real> as LaneStep<T>>::state(self.delays@[c]),
                ));
            }
            lemma_steady::<T>(m, p, xs, keys, run as nat);
            assert(self.model().queues =~= mid_run::<T>(step, m, p, xs, keys)(
                lane_states::<T, DelayStep<T::Real>>(self.delays@),
                run as int,
            ).queues);
        }
    }

    fn flush(&mut self, out: &mut AudioBlockMut<'_, '_, T>) -> (r: Produced)
        ensures
            limiter_drain::<T>(
                old(self).model(),
                old(out).length(),
                r,
                final(self).model(),
                final(out).samples(),
            ),
            r.done == <Self as FrameModel<T>>::drained(final(self).model()),
            *final(self) == (Limiter {
                delays: final(self).delays,
                delay_pos: final(self).delay_pos,
                envelope: final(self).envelope,
                tp_os: final(self).tp_os,
                flush_thresh: final(self).flush_thresh,
                flushed: final(self).flushed,
                ..*old(self)
            }),
    {
        let ghost m = self.model();
        let ghost before = out.samples();
        let room: usize = out.frames();
        let left: usize = self.look - self.flushed;
        let want: usize = if room <= left {
            room
        } else {
            left
        };
        let ghost width = before.len();
        let mut i: usize = 0;
        while i < want
            invariant
                0 <= i <= want,
                want <= room,
                room == old(out).length(),
                want <= old(self).look - old(self).flushed,
                old(self).accepts(IoMode::InPlace, width, 0),
                m == old(self).model(),
                before == old(out).samples(),
                width == before.len(),
                rectangular(before, room as nat),
                out.wf(),
                out.length() == room,
                final(out.table())@ == final(old(out).table())@,
                forall|c: int|
                    0 <= c < width ==> final(#[trigger] out.plane(c))@ == final(old(out).plane(c))@,
                out.samples().len() == width,
                self.inv(),
                self.accepts(IoMode::InPlace, width, 0),
                self.look == old(self).look,
                *self == (Limiter {
                    delays: self.delays,
                    delay_pos: self.delay_pos,
                    envelope: self.envelope,
                    tp_os: self.tp_os,
                    flush_thresh: self.flush_thresh,
                    flushed: self.flushed,
                    ..*old(self)
                }),
                self.flushed == old(self).flushed + i,
                self.model() == drained_after(m, i as nat),
                <Self as FrameModel<T>>::rest(self.model()) == <Self as FrameModel<T>>::rest(m),
                forall|c: int, j: int|
                    0 <= c < width && 0 <= j < i ==> (#[trigger] out.samples()[c][j])
                        == drained_frame::<T>(drained_after(m, j as nat))[c],
                forall|c: int, j: int|
                    0 <= c < width && i <= j < room ==> (#[trigger] out.samples()[c][j])
                        == before[c][j],
            decreases want - i,
        {
            let ghost mid = out.samples();
            let ghost mi = self.model();
            self.drain_frame(out, i);
            proof {
                lemma_same_rest::<T>(mi, self.model());
                assert forall|c: int, j: int| 0 <= c < width && 0 <= j < i + 1 implies (
                #[trigger] out.samples()[c][j]) == drained_frame::<T>(
                    drained_after(m, j as nat),
                )[c] by {
                    assert(mid[c].len() == room);
                    if j < i {
                        assert(out.samples()[c][j] == mid[c][j]);
                    }
                }
                assert forall|c: int, j: int| 0 <= c < width && i + 1 <= j < room implies (
                #[trigger] out.samples()[c][j]) == before[c][j] by {
                    assert(mid[c].len() == room);
                    assert(out.samples()[c][j] == mid[c][j]);
                }
            }
            i += 1;
        }
        proof {
            let frames = from_frames(
                m.queues.len(),
                want as nat,
                |i: int| drained_frame::<T>(drained_after(m, i as nat)),
            );
            assert forall|c: int| 0 <= c < width implies heads(out.samples(), want as int)[c]
                == frames[c] by {
                assert(out.samples()[c].len() == room);
                assert(heads(out.samples(), want as int)[c] =~= frames[c]);
            }
            assert(heads(out.samples(), want as int) =~= frames);
            assert(agree_from(before, out.samples(), want as int)) by {
                assert forall|c: int| 0 <= c < before.len() implies {
                    &&& (#[trigger] out.samples()[c]).len() == before[c].len()
                    &&& forall|j: int|
                        want <= j < before[c].len() ==> out.samples()[c][j] == before[c][j]
                } by {
                    assert(before[c].len() == room);
                }
            }
        }
        Produced { frames: want, done: self.flushed >= self.look }
    }
}

/// Bringing both terms into range early does not change where a sum ends.
proof fn lemma_saturated_pair(x: nat, y: nat)
    ensures
        saturated(saturated(x) as nat + saturated(y) as nat) == saturated(x + y),
{
}

/// A signal with frame `i` replaced.
pub open spec fn with_frame<T>(planes: Seq<Seq<T>>, i: int, frame: Seq<T>) -> Seq<Seq<T>> {
    Seq::new(planes.len(), |c: int| planes[c].update(i, frame[c]))
}

/// The state `i` frames into a run, given the rings there.
spec fn mid_run<T: Sample>(
    step: DelayStep<T::Real>,
    m: LimiterModel<T::Real>,
    p: LimiterParams<T::Real>,
    x: Seq<Seq<T>>,
    key: Seq<Seq<Seq<T>>>,
) -> spec_fn(Seq<Seq<T::Real>>, int) -> LimiterModel<T::Real> {
    |s: Seq<Seq<T::Real>>, i: int|
        LimiterModel {
            queues: Seq::new(s.len(), |c: int| queued(s[c], place(step.look, step.start, i))),
            ..model_after::<T, Limiter<T>>(m, p, x, key, i as nat)
        }
}

/// A run leaves alone what only construction decides.
proof fn lemma_steady<T: Sample>(
    m: LimiterModel<T::Real>,
    p: LimiterParams<T::Real>,
    x: Seq<Seq<T>>,
    key: Seq<Seq<Seq<T>>>,
    n: nat,
)
    ensures
        ({
            let after = model_after::<T, Limiter<T>>(m, p, x, key, n);
            &&& after.info == m.info
            &&& after.margin == m.margin
            &&& after.lines.len() == m.lines.len()
            &&& after.queues.len() == m.queues.len()
            &&& n > 0 ==> after.target == linear_of(p.threshold_db.diff(m.margin))
            &&& n > 0 ==> after.flushed == 0
        }),
    decreases n,
{
    if n > 0 {
        lemma_steady::<T>(m, p, x, key, (n - 1) as nat);
    }
}

/// Frames of a limiter, told by how far into a run they come.
proof fn lemma_limiter_frames<T: Sample>(
    step: DelayStep<T::Real>,
    m: LimiterModel<T::Real>,
    p: LimiterParams<T::Real>,
    x: Seq<Seq<T>>,
    key: Seq<Seq<Seq<T>>>,
    width: nat,
    n: nat,
)
    requires
        step.start < step.look,
        n <= 32,
        x.len() == width,
        forall|j: int|
            0 <= j < n ==> #[trigger] step.gains@[j] == model_after::<T, Limiter<T>>(
                m,
                p,
                x,
                key,
                (j + 1) as nat,
            ).env.env,
    ensures
        ({
            let wrap = mid_run::<T>(step, m, p, x, key);
            &&& forall|t: Seq<Seq<T::Real>>, i: int|
                t.len() == width && lanes_fit::<T, DelayStep<T::Real>>(step, t) && 0 <= i
                    < n ==> #[trigger] <Limiter<T> as FrameModel<T>>::next(
                    wrap(t, i),
                    p,
                    column(x, i),
                    key_column(key, i),
                ) == wrap(lanes_next::<T, DelayStep<T::Real>>(step, i, t, column(x, i)), i + 1)
            &&& forall|t: Seq<Seq<T::Real>>, i: int|
                t.len() == width && lanes_fit::<T, DelayStep<T::Real>>(step, t) && 0 <= i
                    < n ==> #[trigger] <Limiter<T> as FrameModel<T>>::emit(
                    wrap(t, i),
                    p,
                    column(x, i),
                    key_column(key, i),
                ) == lanes_out::<T, DelayStep<T::Real>>(step, i, t, column(x, i))
        }),
{
    let wrap = mid_run::<T>(step, m, p, x, key);
    assert forall|t: Seq<Seq<T::Real>>, i: int|
        t.len() == width && lanes_fit::<T, DelayStep<T::Real>>(step, t) && 0 <= i
            < n implies #[trigger] <Limiter<T> as FrameModel<T>>::next(
        wrap(t, i),
        p,
        column(x, i),
        key_column(key, i),
    ) == wrap(lanes_next::<T, DelayStep<T::Real>>(step, i, t, column(x, i)), i + 1) by {
        let a = <Limiter<T> as FrameModel<T>>::next(
            wrap(t, i),
            p,
            column(x, i),
            key_column(key, i),
        );
        let b = wrap(lanes_next::<T, DelayStep<T::Real>>(step, i, t, column(x, i)), i + 1);
        lemma_place_next(step.look, step.start, i);
        assert forall|c: int| 0 <= c < width implies a.queues[c] == b.queues[c] by {
            assert(<DelayStep<T::Real> as LaneStep<T>>::fits(&step, t[c]));
            lemma_ring_is_queue(
                t[c],
                place(step.look, step.start, i),
                sane(x[c][i].value()),
            );
        }
        assert(a.queues =~= b.queues);
    }
    assert forall|t: Seq<Seq<T::Real>>, i: int|
        t.len() == width && lanes_fit::<T, DelayStep<T::Real>>(step, t) && 0 <= i
            < n implies #[trigger] <Limiter<T> as FrameModel<T>>::emit(
        wrap(t, i),
        p,
        column(x, i),
        key_column(key, i),
    ) == lanes_out::<T, DelayStep<T::Real>>(step, i, t, column(x, i)) by {
        let a = <Limiter<T> as FrameModel<T>>::emit(
            wrap(t, i),
            p,
            column(x, i),
            key_column(key, i),
        );
        let b = lanes_out::<T, DelayStep<T::Real>>(step, i, t, column(x, i));
        lemma_place_next(step.look, step.start, i);
        assert(step.gains@[i] == model_after::<T, Limiter<T>>(m, p, x, key, (i + 1) as nat).env.env);
        assert forall|c: int| 0 <= c < width implies a[c] == b[c] by {
            assert(<DelayStep<T::Real> as LaneStep<T>>::fits(&step, t[c]));
            lemma_ring_is_queue(t[c], place(step.look, step.start, i), nil());
        }
        assert(a =~= b);
    }
}

/// What the kernel answers about itself stays as `prepare` left it.
pub proof fn limiter_answers_stand<T: Sample>()
    ensures
        kernel_answers_stand::<T, Limiter<T>>(),
{
}

} // verus!
