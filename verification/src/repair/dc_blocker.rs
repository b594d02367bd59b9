//! Removal of a drifting offset.

use crate::contract::block::{AudioBlockMut, IoMode};
use crate::contract::context::{counted_calls_stay_within, delivered, Produced, SubBlock, Tail};
use crate::contract::error::DspError;
use crate::contract::param::{conventional, ParamId, ParamInfo, Unit};
use crate::contract::spec::ProcessSpec;
use crate::contract::traits::{kernel_answers_stand, FrameModel, Kernel, Params, Standing};
use crate::dsp::lanes::{
    drain_lanes, heads, lane_states, lanes_after, lanes_next, lanes_out, lanes_run,
    lemma_lanes_are_frames, lemma_same_start, run_lanes, LaneStep,
};
use crate::dsp::memory::{bytes_of, empty_plan, filled, refill, saturated, MemoryLayout};
use crate::dsp::sanitize::{finite_or_zero, flush_denormal, flushed, sane};
use crate::dsp::schedule::rendering_keeps_rest;
use crate::dsp::smoother::SmootherBank;
use crate::number::{
    clamp_to, clamped, larger, max_of, nil, to_usize, unit, whole_usize, Order, Real, Sample,
};
use vstd::layout::size_of;
use vstd::prelude::*;

verus! {

/// Construction settings for [`DcBlocker`].
#[derive(Debug, PartialEq)]
pub struct DcBlockerSettings<R> {
    /// Cutoff frequency in Hz.
    pub cutoff_hz: R,
}

impl<R: Copy> Copy for DcBlockerSettings<R> {

}

impl<R: Copy> Clone for DcBlockerSettings<R> {
    fn clone(&self) -> (r: Self)
        ensures
            r == *self,
    {
        *self
    }
}

/// A cutoff of 20 Hz.
pub open spec fn default_dc_blocker<R: Real>() -> DcBlockerSettings<R> {
    DcBlockerSettings {
        cutoff_hz: R::decimal_of(20, 0),
    }
}

impl<R: Real> Default for DcBlockerSettings<R> {
    fn default() -> (r: Self)
        ensures
            r == default_dc_blocker::<R>(),
    {
        Self {
            cutoff_hz: R::decimal(20, 0),
        }
    }
}

impl<R: Real> DcBlockerSettings<R> {
    /// Default settings.
    pub fn new() -> (r: Self)
        ensures
            r == default_dc_blocker::<R>(),
    {
        Self::default()
    }

    /// Set the cutoff frequency in Hz.
    pub fn cutoff_hz(self, cutoff_hz: R) -> (r: Self)
        ensures
            r == (DcBlockerSettings { cutoff_hz, ..self }),
    {
        Self { cutoff_hz, ..self }
    }
}

/// Smoothed parameter values for [`DcBlocker`].
#[derive(Debug, PartialEq)]
pub struct DcBlockerParams<R> {
    /// Cutoff frequency in Hz.
    pub cutoff_hz: R,
}

impl<R: Copy> Copy for DcBlockerParams<R> {

}

impl<R: Copy> Clone for DcBlockerParams<R> {
    fn clone(&self) -> (r: Self)
        ensures
            r == *self,
    {
        *self
    }
}

impl<R: Real> DcBlockerParams<R> {
    /// Number of the id of `cutoff_hz`.
    pub const CUTOFF_HZ: u32 = 0;
}

impl<R: Real> Params<R> for DcBlockerParams<R> {
    const COUNT: usize = 1;

    open spec fn load(values: Seq<R>) -> Self {
        DcBlockerParams { cutoff_hz: values[0] }
    }

    fn from_bank(bank: &SmootherBank<R>) -> (r: Self) {
        match bank.value_at(0) {
            Some(cutoff_hz) => DcBlockerParams { cutoff_hz },
            None => DcBlockerParams { cutoff_hz: R::zero() },
        }
    }
}

// ---------------------------------------------------------------------------
// One channel
// ---------------------------------------------------------------------------

/// One channel's state: the last input and the last output.
#[derive(Debug)]
pub struct State<R> {
    pub x1: R,
    pub y1: R,
}

impl<R: Copy> Copy for State<R> {

}

impl<R: Copy> Clone for State<R> {
    fn clone(&self) -> (r: Self)
        ensures
            r == *self,
    {
        *self
    }
}

/// The state of silence.
pub open spec fn silent_state<R: Real>() -> State<R> {
    State { x1: nil(), y1: nil() }
}

/// The output for the input `x`: `x - x1 + r * y1`.
pub open spec fn blocked<R: Real>(r: R, s: State<R>, x: R) -> R {
    flushed(x.diff(s.x1).sum(r.prod(s.y1)))
}

/// The output where the input is silent.
pub open spec fn ringing<R: Real>(r: R, s: State<R>) -> R {
    flushed(s.x1.opposite().sum(r.prod(s.y1)))
}

/// Filtering with a constant pole radius.
pub struct BlockStep<R> {
    pub r: R,
}

/// Ringing out with a constant pole radius.
pub struct RingStep<R> {
    pub r: R,
}

impl<T: Sample> LaneStep<T> for BlockStep<T::Real> {
    type Lane = State<T::Real>;

    type State = State<T::Real>;

    open spec fn state(lane: State<T::Real>) -> State<T::Real> {
        lane
    }

    open spec fn fits(&self, s: State<T::Real>) -> bool {
        true
    }

    open spec fn next(&self, i: int, s: State<T::Real>, x: T) -> State<T::Real> {
        State { x1: sane(x.value()), y1: blocked(self.r, s, sane(x.value())) }
    }

    open spec fn out(&self, i: int, s: State<T::Real>, x: T) -> T {
        T::stored(blocked(self.r, s, sane(x.value())))
    }

    proof fn step_keeps_fit(&self, i: int, s: State<T::Real>, x: T) {
    }

    fn step(&self, i: usize, lane: &mut State<T::Real>, x: T) -> (y: T) {
        let x0 = finite_or_zero(x.to_real());
        let y0 = flush_denormal(x0.minus(lane.x1).plus(self.r.times(lane.y1)));
        *lane = State { x1: x0, y1: y0 };
        T::from_real(y0)
    }
}

impl<T: Sample> LaneStep<T> for RingStep<T::Real> {
    type Lane = State<T::Real>;

    type State = State<T::Real>;

    open spec fn state(lane: State<T::Real>) -> State<T::Real> {
        lane
    }

    open spec fn fits(&self, s: State<T::Real>) -> bool {
        true
    }

    open spec fn next(&self, i: int, s: State<T::Real>, x: T) -> State<T::Real> {
        State { x1: nil(), y1: ringing(self.r, s) }
    }

    open spec fn out(&self, i: int, s: State<T::Real>, x: T) -> T {
        T::stored(ringing(self.r, s))
    }

    proof fn step_keeps_fit(&self, i: int, s: State<T::Real>, x: T) {
    }

    fn step(&self, i: usize, lane: &mut State<T::Real>, x: T) -> (y: T) {
        let y0 = flush_denormal(lane.x1.neg().plus(self.r.times(lane.y1)));
        *lane = State { x1: T::Real::zero(), y1: y0 };
        T::from_real(y0)
    }
}

// ---------------------------------------------------------------------------
// The kernel
// ---------------------------------------------------------------------------

/// A cutoff brought above zero and below half the rate.
pub open spec fn cutoff_in_band<R: Real>(cutoff_hz: R, fs: R) -> R {
    clamped(cutoff_hz, R::decimal_of(1, -2), fs.prod(R::decimal_of(49, -2)))
}

/// Clamp a requested cutoff to `0.01..=0.49 * fs`.
pub fn clamp_cutoff<R: Real>(cutoff_hz: R, fs: R) -> (r: R)
    ensures
        r == cutoff_in_band(cutoff_hz, fs),
{
    clamp_to(cutoff_hz, R::decimal(1, -2), fs.times(R::decimal(49, -2)))
}

/// The pole radius for a cutoff.
pub open spec fn pole_radius<R: Real>(cutoff_hz: R, fs: R) -> R {
    R::decimal_of(-6283185307179586, -15).prod(cutoff_in_band(cutoff_hz, fs)).quot(fs).exponential()
}

/// The declared tail: the slowest pole that the range allows, decaying from
/// `2e3` to `1e-6`, and one frame more for the first.
pub open spec fn declared_tail<R: Real>(lowest_hz: R, fs: R) -> usize {
    let frames = whole_usize(
        R::decimal_of(2000, 0).quot(R::decimal_of(1, -6)).logarithm().prod(fs).quot(
            R::decimal_of(6283185307179586, -15).prod(cutoff_in_band(lowest_hz, fs)),
        ).ceiling(),
    );
    if frames == usize::MAX {
        frames
    } else {
        (frames + 1) as usize
    }
}

/// The largest magnitude among the states of the first `n` channels.
pub open spec fn state_peak<R: Real>(s: Seq<State<R>>, n: int) -> R
    decreases n,
{
    if n <= 0 {
        nil()
    } else {
        larger(
            larger(state_peak(s, n - 1), s[n - 1].x1.magnitude()),
            s[n - 1].y1.magnitude(),
        )
    }
}

/// Every state value has decayed below the floor.
pub open spec fn decayed<R: Real>(s: Seq<State<R>>) -> bool {
    state_peak(s, s.len() as int).below(R::decimal_of(1, -6))
}

/// A recursive high-pass that removes constant and slowly drifting offsets.
///
/// The recurrence is `y[n] = x[n] - x[n-1] + R * y[n-1]` with
/// `R = exp(-2*pi*fc/fs)`. The cutoff is automatable and applied once per range;
/// its effective value is clamped to `0.01..=0.49 * sample_rate`.
///
/// The tail is a constant upper bound from the declared range minimum: the
/// slowest pole with up to `1e3` in each state value. It is a decay guarantee,
/// not a silence guarantee. A drain continues the recursion with silent input
/// and the pole radius that rendering used last; it is done once every state
/// value is below `1e-6` or the bound is reached. New input starts a new drain.
#[derive(Clone, Debug)]
pub struct DcBlocker<T: Sample> {
    pub params: [ParamInfo<T::Real>; 1],
    /// Prepared sample rate, or zero.
    pub rate: u32,
    pub fs: T::Real,
    pub state: Vec<State<T::Real>>,
    /// Pole radius that rendering used last.
    pub flush_r: T::Real,
    /// Declared worst-case tail frames, set when preparing.
    pub tail_bound: usize,
    /// Tail frames drained since the last input or reset.
    pub flushed: usize,
}

/// What configures a DC blocker.
pub struct BlockerSetup<R> {
    pub info: ParamInfo<R>,
    pub rate: u32,
    pub fs: R,
    pub tail_bound: usize,
}

/// The state of a DC blocker.
#[verifier::ext_equal]
pub struct BlockerModel<R> {
    pub setup: BlockerSetup<R>,
    pub state: Seq<State<R>>,
    pub r: R,
    pub flushed: usize,
}

/// The pole radius that a drain uses before anything was rendered.
pub open spec fn resting_radius<R: Real>(u: BlockerSetup<R>, held: R) -> R {
    if u.rate > 0 {
        pole_radius(sane(u.info.default), u.fs)
    } else {
        held
    }
}

impl<T: Sample> DcBlocker<T> {
    /// What configures this filter.
    pub open spec fn setup(&self) -> BlockerSetup<T::Real> {
        BlockerSetup {
            info: self.params@[0],
            rate: self.rate,
            fs: self.fs,
            tail_bound: self.tail_bound,
        }
    }

    /// A DC blocker as configured from `s` and not yet prepared.
    pub open spec fn configured_by(&self, s: DcBlockerSettings<T::Real>) -> bool {
        &&& self.params@ =~= seq![
            conventional(
                ParamId(0),
                "cutoff",
                (unit(), T::Real::decimal_of(1000, 0)),
                s.cutoff_hz,
                Unit::Hz,
            ),
        ]
        &&& self.rate == 0 && self.fs == nil::<T::Real>() && self.flush_r == nil::<T::Real>()
        &&& self.state@ == Seq::<State<T::Real>>::empty()
        &&& self.tail_bound == 0 && self.flushed == 0
    }

    /// A DC blocker configured from `settings`.
    pub fn with_settings(settings: DcBlockerSettings<T::Real>) -> (r: Self)
        ensures
            r.configured_by(settings),
    {
        let zero = T::Real::zero();
        Self {
            params: [
                ParamInfo::new(
                    ParamId(DcBlockerParams::<T::Real>::CUTOFF_HZ),
                    "cutoff",
                    (T::Real::one(), T::Real::decimal(1000, 0)),
                    settings.cutoff_hz,
                    Unit::Hz,
                ),
            ],
            rate: 0,
            fs: zero,
            state: Vec::new(),
            flush_r: zero,
            tail_bound: 0,
            flushed: 0,
        }
    }

    /// A DC blocker with a 20 Hz cutoff.
    pub fn new() -> (r: Self)
        ensures
            r.configured_by(default_dc_blocker()),
    {
        Self::with_settings(DcBlockerSettings::default())
    }

    /// Restore the drain's pole radius to the declared default and clear the
    /// drained-frame counter.
    fn reset_flush_state(&mut self)
        ensures
            *final(self) == (DcBlocker {
                flushed: 0,
                flush_r: resting_radius(old(self).setup(), old(self).flush_r),
                ..*old(self)
            }),
    {
        self.flushed = 0;
        if self.rate > 0 {
            self.flush_r = self.radius(finite_or_zero(self.params[0].default));
        }
    }

    /// The pole radius for a cutoff.
    fn radius(&self, cutoff_hz: T::Real) -> (r: T::Real)
        ensures
            r == pole_radius(cutoff_hz, self.fs),
    {
        T::Real::decimal(-6283185307179586, -15).times(clamp_cutoff(cutoff_hz, self.fs)).over(
            self.fs,
        ).exp()
    }

    /// The largest magnitude in the state.
    fn peak(&self) -> (r: T::Real)
        ensures
            r == state_peak(self.state@, self.state@.len() as int),
    {
        let mut peak = T::Real::zero();
        let mut i: usize = 0;
        while i < self.state.len()
            invariant
                0 <= i <= self.state@.len(),
                peak == state_peak(self.state@, i as int),
            decreases self.state@.len() - i,
        {
            let s = self.state[i];
            peak = max_of(max_of(peak, s.x1.abs()), s.y1.abs());
            i += 1;
        }
        peak
    }
}

impl<T: Sample> Default for DcBlocker<T> {
    fn default() -> (r: Self)
        ensures
            r.configured_by(default_dc_blocker()),
    {
        Self::new()
    }
}

/// The pole radius that a frame is filtered with.
pub open spec fn frame_radius<R: Real>(m: BlockerModel<R>, p: DcBlockerParams<R>) -> R {
    if m.setup.rate > 0 {
        pole_radius(p.cutoff_hz, m.setup.fs)
    } else {
        m.r
    }
}

impl<T: Sample> FrameModel<T> for DcBlocker<T> {
    type Params = DcBlockerParams<T::Real>;

    type Model = BlockerModel<T::Real>;

    open spec fn next(
        m: BlockerModel<T::Real>,
        p: DcBlockerParams<T::Real>,
        x: Seq<T>,
        key: Seq<Seq<T>>,
    ) -> BlockerModel<T::Real> {
        let r = frame_radius(m, p);
        BlockerModel {
            setup: m.setup,
            state: Seq::new(
                m.state.len(),
                |c: int|
                    State {
                        x1: sane(x[c].value()),
                        y1: blocked(r, m.state[c], sane(x[c].value())),
                    },
            ),
            r,
            flushed: 0,
        }
    }

    open spec fn emit(
        m: BlockerModel<T::Real>,
        p: DcBlockerParams<T::Real>,
        x: Seq<T>,
        key: Seq<Seq<T>>,
    ) -> Seq<T> {
        let r = frame_radius(m, p);
        Seq::new(
            m.state.len(),
            |c: int| T::stored(blocked(r, m.state[c], sane(x[c].value()))),
        )
    }

    open spec fn rest(m: BlockerModel<T::Real>) -> BlockerModel<T::Real> {
        BlockerModel {
            setup: m.setup,
            state: Seq::new(m.state.len(), |c: int| silent_state::<T::Real>()),
            r: resting_radius(m.setup, m.r),
            flushed: 0,
        }
    }

    open spec fn drained(m: BlockerModel<T::Real>) -> bool {
        m.flushed >= m.setup.tail_bound
    }
}

/// A reset restores a DC blocker whatever it has filtered.
pub proof fn dc_blocker_reset_restores<T: Sample>()
    ensures
        rendering_keeps_rest::<T, DcBlocker<T>>(),
{
    assert forall|
        m: BlockerModel<T::Real>,
        p: DcBlockerParams<T::Real>,
        x: Seq<T>,
        key: Seq<Seq<T>>,
    | #[trigger] <DcBlocker<T> as FrameModel<T>>::rest(
        <DcBlocker<T> as FrameModel<T>>::next(m, p, x, key),
    ) == <DcBlocker<T> as FrameModel<T>>::rest(m) by {
        assert(<DcBlocker<T> as FrameModel<T>>::rest(
            <DcBlocker<T> as FrameModel<T>>::next(m, p, x, key),
        ) =~= <DcBlocker<T> as FrameModel<T>>::rest(m));
    }
    assert forall|m: BlockerModel<T::Real>| #[trigger]
        <DcBlocker<T> as FrameModel<T>>::rest(<DcBlocker<T> as FrameModel<T>>::rest(m))
        == <DcBlocker<T> as FrameModel<T>>::rest(m) by {
        assert(<DcBlocker<T> as FrameModel<T>>::rest(<DcBlocker<T> as FrameModel<T>>::rest(m))
            =~= <DcBlocker<T> as FrameModel<T>>::rest(m));
    }
}

/// What a drain of up to `room` frames makes of a DC blocker and of the first
/// frames of the output, which held `before`.
pub open spec fn blocker_drain<T: Sample>(
    m: BlockerModel<T::Real>,
    room: usize,
    before: Seq<Seq<T>>,
    r: Produced,
    after: BlockerModel<T::Real>,
    out: Seq<Seq<T>>,
) -> bool {
    let bound = m.setup.tail_bound;
    if m.flushed >= bound || decayed(m.state) {
        &&& r == (Produced { frames: 0, done: true })
        &&& after == (BlockerModel { flushed: bound, ..m })
        &&& out == before
    } else {
        let step = RingStep { r: m.r };
        let want = if room <= bound - m.flushed {
            room as int
        } else {
            bound - m.flushed
        };
        let state = lanes_after::<T, RingStep<T::Real>>(
            step,
            m.state,
            heads(before, want),
            want as nat,
        );
        &&& r.frames == want
        &&& r.done == (m.flushed + want >= bound || decayed(state))
        &&& after == (BlockerModel {
            state,
            flushed: if r.done {
                bound
            } else {
                (m.flushed + want) as usize
            },
            ..m
        })
        &&& heads(out, want) == lanes_run::<T, RingStep<T::Real>>(
            step,
            m.state,
            heads(before, want),
        )
    }
}

/// However a drain is divided, it never delivers more than the declared tail.
pub proof fn blocker_drains_within_its_tail<T: Sample>(
    m: BlockerModel<T::Real>,
    room: usize,
    before: Seq<Seq<T>>,
    r: Produced,
    after: BlockerModel<T::Real>,
    out: Seq<Seq<T>>,
)
    requires
        blocker_drain::<T>(m, room, before, r, after, out),
        m.flushed <= m.setup.tail_bound,
    ensures
        r.frames <= room,
        m.flushed + r.frames <= after.flushed <= m.setup.tail_bound,
        r.done <==> after.flushed == m.setup.tail_bound,
{
}

/// A whole drain stays within the tail: whatever the sizes of its calls, a drain from
/// its start delivers at most the declared tail, and a call that finds it done brings
/// nothing more.
pub proof fn blocker_drains_no_more_than_its_tail<T: Sample>(
    models: Seq<BlockerModel<T::Real>>,
    rooms: Seq<usize>,
    calls: Seq<Produced>,
    before: Seq<Seq<Seq<T>>>,
    outs: Seq<Seq<Seq<T>>>,
)
    requires
        models.len() == calls.len() + 1,
        forall|k: int|
            0 <= k < calls.len() ==> blocker_drain::<T>(
                models[k],
                rooms[k],
                before[k],
                #[trigger] calls[k],
                models[k + 1],
                outs[k],
            ),
        models[0].flushed <= models[0].setup.tail_bound,
    ensures
        models[0].flushed + delivered(calls) <= models[0].setup.tail_bound,
        forall|k: int|
            0 <= k < calls.len() - 1 && (#[trigger] calls[k]).done ==> calls[k + 1].frames == 0
                && calls[k + 1].done,
{
    let counts = Seq::new(models.len(), |k: int| models[k].flushed as nat);
    assert forall|k: int| 0 <= k < calls.len() implies counts[k] + (#[trigger] calls[k]).frames
        <= counts[k + 1] && (calls[k].done ==> counts[k + 1] == models[0].setup.tail_bound) by {
        lemma_drain_stays::<T>(models, rooms, calls, before, outs, k);
        blocker_drains_within_its_tail::<T>(
            models[k],
            rooms[k],
            before[k],
            calls[k],
            models[k + 1],
            outs[k],
        );
    }
    lemma_drain_stays::<T>(models, rooms, calls, before, outs, calls.len() as int);
    counted_calls_stay_within(calls, counts, models[0].setup.tail_bound as nat);
    assert forall|k: int| 0 <= k < calls.len() - 1 && (#[trigger] calls[k]).done implies calls[k
        + 1].frames == 0 && calls[k + 1].done by {
        lemma_drain_stays::<T>(models, rooms, calls, before, outs, k + 1);
        let next = calls[k + 1];
        assert(blocker_drain::<T>(
            models[k + 1],
            rooms[k + 1],
            before[k + 1],
            next,
            models[k + 2],
            outs[k + 1],
        ));
    }
}

proof fn lemma_drain_stays<T: Sample>(
    models: Seq<BlockerModel<T::Real>>,
    rooms: Seq<usize>,
    calls: Seq<Produced>,
    before: Seq<Seq<Seq<T>>>,
    outs: Seq<Seq<Seq<T>>>,
    k: int,
)
    requires
        models.len() == calls.len() + 1,
        forall|j: int|
            0 <= j < calls.len() ==> blocker_drain::<T>(
                models[j],
                rooms[j],
                before[j],
                #[trigger] calls[j],
                models[j + 1],
                outs[j],
            ),
        models[0].flushed <= models[0].setup.tail_bound,
        0 <= k <= calls.len(),
    ensures
        models[k].setup == models[0].setup,
        models[k].flushed <= models[0].setup.tail_bound,
    decreases k,
{
    if k > 0 {
        lemma_drain_stays::<T>(models, rooms, calls, before, outs, k - 1);
        let call = calls[k - 1];
        assert(blocker_drain::<T>(
            models[k - 1],
            rooms[k - 1],
            before[k - 1],
            call,
            models[k],
            outs[k - 1],
        ));
    }
}

impl<T: Sample> Kernel<T> for DcBlocker<T> {
    open spec fn model(&self) -> BlockerModel<T::Real> {
        BlockerModel {
            setup: self.setup(),
            state: self.state@,
            r: self.flush_r,
            flushed: self.flushed,
        }
    }

    open spec fn accepts(&self, mode: IoMode, channels: nat, buses: nat) -> bool {
        mode == IoMode::InPlace && self.rate > 0 && self.state@.len() == channels
    }

    open spec fn outcome(&self, spec: ProcessSpec) -> Result<(), DspError> {
        if spec.sample_rate == 0 {
            Err(DspError::UnsupportedSpec("sample rate must be non-zero"))
        } else {
            empty_plan().array(spec.channels as nat, size_of::<State<T::Real>>()).verdict(
                spec.max_memory,
            )
        }
    }

    open spec fn made(&self, spec: ProcessSpec) -> BlockerModel<T::Real> {
        let fs = T::Real::natural(spec.sample_rate as u64);
        let setup = BlockerSetup {
            info: self.params@[0],
            rate: spec.sample_rate,
            fs,
            tail_bound: declared_tail(self.params@[0].range.0, fs),
        };
        BlockerModel {
            setup,
            state: Seq::new(spec.channels as nat, |c: int| silent_state()),
            r: resting_radius(setup, self.flush_r),
            flushed: 0,
        }
    }

    open spec fn standing(&self) -> Standing<T::Real> {
        Standing {
            latency: 0,
            tail: Tail::Frames(self.tail_bound),
            io_mode: IoMode::InPlace,
            footprint: saturated(self.state@.len() * size_of::<State<T::Real>>()),
            info: self.params@,
            sidechain_inputs: 0,
        }
    }

    fn prepare(&mut self, spec: ProcessSpec) -> (r: Result<(), DspError>)
        ensures
            final(self).params == old(self).params,
            r is Err ==> *final(self) == *old(self),
            r is Ok ==> {
                &&& final(self).rate == spec.sample_rate
                &&& final(self).fs == T::Real::natural(spec.sample_rate as u64)
                &&& final(self).state@ == Seq::new(
                    spec.channels as nat,
                    |c: int| silent_state::<T::Real>(),
                )
                &&& final(self).tail_bound == declared_tail(
                    old(self).params@[0].range.0,
                    final(self).fs,
                )
            },
    {
        if spec.sample_rate == 0 {
            return Err(DspError::UnsupportedSpec("sample rate must be non-zero"));
        }
        match MemoryLayout::new().array::<State<T::Real>>(spec.channels).preflight(
            spec.max_memory,
        ) {
            Err(e) => {
                return Err(e);
            },
            Ok(_) => {},
        }
        let zero = T::Real::zero();
        self.rate = spec.sample_rate;
        self.fs = T::Real::from_u64(spec.sample_rate as u64);
        self.state = filled(State { x1: zero, y1: zero }, spec.channels);
        let lowest = clamp_cutoff(self.params[0].range.0, self.fs);
        let frames: usize = to_usize(
            T::Real::decimal(2000, 0).over(T::Real::decimal(1, -6)).ln().times(self.fs).over(
                T::Real::decimal(6283185307179586, -15).times(lowest),
            ).ceil(),
        );
        // The first drained frame has not yet received a decay step.
        self.tail_bound =
        if frames == usize::MAX {
            frames
        } else {
            frames + 1
        };
        self.reset_flush_state();
        proof {
            assert(self.state@ =~= Seq::new(
                spec.channels as nat,
                |c: int| silent_state::<T::Real>(),
            ));
            assert(self.model() =~= <Self as FrameModel<T>>::rest(self.model()));
            assert(self.accepts(IoMode::InPlace, spec.channels as nat, 0));
        }
        Ok(())
    }

    fn reset(&mut self)
        ensures
            final(self).setup() == old(self).setup(),
            final(self).params == old(self).params,
    {
        let zero = T::Real::zero();
        refill(&mut self.state, State { x1: zero, y1: zero });
        self.reset_flush_state();
        assert(self.model() =~= <Self as FrameModel<T>>::rest(old(self).model()));
    }

    fn tail(&self) -> (r: Tail)
        ensures
            r == Tail::Frames(self.tail_bound),
    {
        Tail::Frames(self.tail_bound)
    }

    fn io_mode(&self) -> (r: IoMode)
        ensures
            r == IoMode::InPlace,
    {
        IoMode::InPlace
    }

    fn memory_footprint(&self) -> (r: usize)
        ensures
            r == saturated(self.state@.len() * size_of::<State<T::Real>>()),
    {
        bytes_of::<State<T::Real>>(self.state.len())
    }

    fn param_info(&self) -> (r: &[ParamInfo<T::Real>])
        ensures
            r@ == self.params@,
    {
        self.params.as_slice()
    }

    fn render(&mut self, io: &mut SubBlock<'_, '_, '_, T>, params: &DcBlockerParams<T::Real>)
        ensures
            final(self).setup() == old(self).setup(),
            final(self).params == old(self).params,
    {
        // New input starts a new drain.
        self.flushed = 0;
        let r = self.radius(params.cutoff_hz);
        // A drain continues with the pole radius that rendering used last.
        self.flush_r = r;
        let step = BlockStep { r };
        proof {
            let u = self.setup();
            let p = *params;
            let wrap = |s: Seq<State<T::Real>>, i: int|
                BlockerModel { setup: u, state: s, r, flushed: 0 };
            let m = old(self).model();
            lemma_same_start::<T, Self>(
                m,
                wrap(m.state, 0),
                p,
                io.in_run(),
                io.key_run(),
                io.io.output().len(),
                io.len as nat,
            );
            assert forall|t: Seq<State<T::Real>>, i: int, x: Seq<T>, k: Seq<Seq<T>>|
                t.len() == m.state.len() && x.len() == t.len() implies #[trigger] <Self as FrameModel<
                T,
            >>::next(wrap(t, i), p, x, k) == wrap(
                lanes_next::<T, BlockStep<T::Real>>(step, i, t, x),
                i + 1,
            ) by {
                assert(<Self as FrameModel<T>>::next(wrap(t, i), p, x, k).state =~= lanes_next::<
                    T,
                    BlockStep<T::Real>,
                >(step, i, t, x));
            }
            assert forall|t: Seq<State<T::Real>>, i: int, x: Seq<T>, k: Seq<Seq<T>>|
                t.len() == m.state.len() && x.len() == t.len() implies #[trigger] <Self as FrameModel<
                T,
            >>::emit(wrap(t, i), p, x, k) == lanes_out::<T, BlockStep<T::Real>>(step, i, t, x) by {
                assert(<Self as FrameModel<T>>::emit(wrap(t, i), p, x, k) =~= lanes_out::<
                    T,
                    BlockStep<T::Real>,
                >(step, i, t, x));
            }
            lemma_lanes_are_frames::<T, Self, BlockStep<T::Real>>(
                step,
                wrap,
                m.state,
                p,
                io.in_run(),
                io.key_run(),
                io.in_run(),
                io.len as nat,
            );
            assert(lane_states::<T, BlockStep<T::Real>>(self.state@) =~= m.state);
        }
        run_lanes::<T, BlockStep<T::Real>>(&step, &mut self.state, io);
        proof {
            assert(lane_states::<T, BlockStep<T::Real>>(self.state@) =~= self.state@);
        }
    }

    fn flush(&mut self, out: &mut AudioBlockMut<'_, '_, T>) -> (r: Produced)
        ensures
            blocker_drain(
                old(self).model(),
                old(out).length(),
                old(out).samples(),
                r,
                final(self).model(),
                final(out).samples(),
            ),
            r.done ==> <Self as FrameModel<T>>::drained(final(self).model()),
            final(self).setup() == old(self).setup(),
            final(self).params == old(self).params,
    {
        let bound: usize = self.tail_bound;
        let floor = T::Real::decimal(1, -6);
        let ghost m = self.model();
        if self.flushed >= bound || self.peak().less(floor) {
            self.flushed = bound;
            assert(<Self as FrameModel<T>>::rest(self.model()) =~= <Self as FrameModel<T>>::rest(
                m,
            ));
            return Produced { frames: 0, done: true };
        }
        let room: usize = out.frames();
        let left: usize = bound - self.flushed;
        let want: usize = if room <= left {
            room
        } else {
            left
        };
        let step = RingStep { r: self.flush_r };
        drain_lanes::<T, RingStep<T::Real>>(&step, &mut self.state, out, want);
        proof {
            assert(lane_states::<T, RingStep<T::Real>>(m.state) =~= m.state);
            assert(lane_states::<T, RingStep<T::Real>>(self.state@) =~= self.state@);
        }
        self.flushed = self.flushed + want;
        // The tail is done once every state value is below the floor or the
        // declared bound has been drained.
        let done: bool = self.flushed >= bound || self.peak().less(floor);
        if done {
            self.flushed = bound;
        }
        assert(<Self as FrameModel<T>>::rest(self.model()) =~= <Self as FrameModel<T>>::rest(m));
        Produced { frames: want, done }
    }
}

/// What the kernel answers about itself stays as `prepare` left it.
pub proof fn dc_blocker_answers_stand<T: Sample>()
    ensures
        kernel_answers_stand::<T, DcBlocker<T>>(),
{
}

} // verus!
