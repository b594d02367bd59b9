//! Moving-average filtering.

use crate::contract::block::{AudioBlockMut, IoMode};
use crate::contract::context::{
    counted_calls_stay_within, delivered, eager_calls_finish, Produced, SubBlock, Tail,
};
use crate::contract::error::DspError;
use crate::contract::spec::ProcessSpec;
use crate::contract::traits::{
    column, kernel_answers_stand, key_column, FrameModel, Kernel, NoParams, Standing,
};
use crate::dsp::delay::{lemma_place_next, place, place_of};
use crate::dsp::lanes::{
    drain_lanes, heads, lane_after, lane_states, lanes_after, lanes_next, lanes_out, lanes_run,
    lemma_lanes_are_frames, lemma_same_start, run_split_lanes, LaneStep,
};
use crate::dsp::memory::{
    bytes_of, empty_plan, filled, joined, refill, saturated, saturation_is_final, scaled,
    MemoryLayout,
};
use crate::dsp::sanitize::{finite_or_zero, sane};
use crate::dsp::schedule::{frame_out, frame_params, kernel_after, rendering_keeps_rest, Block};
use crate::dsp::smoother::Smoother;
use crate::dsp::summing::{
    compensated, compensated_add, counted, counted_within, exact_sums_need_no_correction,
    lemma_counted_alike, lemma_counted_bound, lemma_counted_first, sums_exactly, total, total_of,
    totals_are_exact,
};
use crate::number::{nil, unit, Real, Sample};
use vstd::layout::size_of;
use vstd::prelude::*;

verus! {

// ---------------------------------------------------------------------------
// One channel
// ---------------------------------------------------------------------------

/// The history of one channel: its last inputs, their running sum, and the
/// correction of that sum.
#[derive(Clone, Debug)]
pub struct AverageLane<R> {
    pub ring: Vec<R>,
    pub sum: R,
    pub correction: R,
}

/// The history of one channel as contracts speak of it.
pub struct AverageLine<R> {
    pub ring: Seq<R>,
    pub sum: R,
    pub correction: R,
}

/// The history once `value` has taken place `pos`, which changes the sum by
/// `delta`. The sum is taken afresh whenever the ring wraps.
pub open spec fn taken_in<R: Real>(
    s: AverageLine<R>,
    pos: int,
    value: R,
    delta: R,
) -> AverageLine<R> {
    let ring = s.ring.update(pos, value);
    if pos + 1 == ring.len() {
        AverageLine { ring, sum: total(ring, ring.len()), correction: nil() }
    } else {
        AverageLine {
            ring,
            sum: s.sum.sum(delta),
            correction: compensated(s.sum, s.correction, delta),
        }
    }
}

/// The average that a history stands for.
pub open spec fn average<R: Real>(s: AverageLine<R>, scale: R) -> R {
    s.sum.sum(s.correction).prod(scale)
}

/// A history of silence.
pub open spec fn silent_line<R: Real>(taps: nat) -> AverageLine<R> {
    AverageLine { ring: Seq::new(taps, |i: int| nil::<R>()), sum: nil(), correction: nil() }
}

impl<R: Real> AverageLane<R> {
    pub open spec fn line(self) -> AverageLine<R> {
        AverageLine { ring: self.ring@, sum: self.sum, correction: self.correction }
    }

    fn take_in(&mut self, pos: usize, value: R, delta: R)
        requires
            pos < old(self).ring@.len(),
        ensures
            final(self).line() == taken_in(old(self).line(), pos as int, value, delta),
    {
        self.ring.set(pos, value);
        compensated_add(&mut self.sum, &mut self.correction, delta);
        if self.ring.len() - pos == 1 {
            self.sum = total_of(self.ring.as_slice());
            self.correction = R::zero();
        }
    }

    fn silence(&mut self)
        ensures
            final(self).line() == silent_line::<R>(old(self).ring@.len()),
    {
        let zero = R::zero();
        refill(&mut self.ring, zero);
        self.sum = zero;
        self.correction = zero;
        assert(self.ring@ =~= Seq::new(old(self).ring@.len(), |i: int| nil::<R>()));
    }
}

/// Averaging a run that starts at place `start` of the rings.
pub struct AverageStep<R> {
    pub taps: usize,
    pub start: usize,
    pub scale: R,
}

/// Averaging silence from place `start` of the rings on.
pub struct AverageTail<R> {
    pub taps: usize,
    pub start: usize,
    pub scale: R,
}

impl<T: Sample> LaneStep<T> for AverageStep<T::Real> {
    type Lane = AverageLane<T::Real>;

    type State = AverageLine<T::Real>;

    open spec fn state(lane: AverageLane<T::Real>) -> AverageLine<T::Real> {
        lane.line()
    }

    open spec fn fits(&self, s: AverageLine<T::Real>) -> bool {
        s.ring.len() == self.taps && self.start < self.taps
    }

    open spec fn next(&self, i: int, s: AverageLine<T::Real>, x: T) -> AverageLine<T::Real> {
        let pos = place(self.taps, self.start, i);
        taken_in(s, pos, sane(x.value()), sane(x.value()).diff(s.ring[pos]))
    }

    open spec fn out(&self, i: int, s: AverageLine<T::Real>, x: T) -> T {
        T::stored(average(<Self as LaneStep<T>>::next(self, i, s, x), self.scale))
    }

    proof fn step_keeps_fit(&self, i: int, s: AverageLine<T::Real>, x: T) {
    }

    fn step(&self, i: usize, lane: &mut AverageLane<T::Real>, x: T) -> (y: T) {
        let pos: usize = place_of(self.taps, self.start, i);
        let value = finite_or_zero(x.to_real());
        let past = lane.ring[pos];
        lane.take_in(pos, value, value.minus(past));
        T::from_real(lane.sum.plus(lane.correction).times(self.scale))
    }
}

impl<T: Sample> LaneStep<T> for AverageTail<T::Real> {
    type Lane = AverageLane<T::Real>;

    type State = AverageLine<T::Real>;

    open spec fn state(lane: AverageLane<T::Real>) -> AverageLine<T::Real> {
        lane.line()
    }

    open spec fn fits(&self, s: AverageLine<T::Real>) -> bool {
        s.ring.len() == self.taps && self.start < self.taps
    }

    open spec fn next(&self, i: int, s: AverageLine<T::Real>, x: T) -> AverageLine<T::Real> {
        let pos = place(self.taps, self.start, i);
        taken_in(s, pos, nil(), s.ring[pos].opposite())
    }

    open spec fn out(&self, i: int, s: AverageLine<T::Real>, x: T) -> T {
        T::stored(average(<Self as LaneStep<T>>::next(self, i, s, x), self.scale))
    }

    proof fn step_keeps_fit(&self, i: int, s: AverageLine<T::Real>, x: T) {
    }

    fn step(&self, i: usize, lane: &mut AverageLane<T::Real>, x: T) -> (y: T) {
        let pos: usize = place_of(self.taps, self.start, i);
        let past = lane.ring[pos];
        lane.take_in(pos, T::Real::zero(), past.neg());
        T::from_real(lane.sum.plus(lane.correction).times(self.scale))
    }
}

// ---------------------------------------------------------------------------
// The kernel
// ---------------------------------------------------------------------------

/// A moving-average low-pass over the last `taps` samples.
///
/// It reads its input while writing disjoint output. The reported latency is
/// the whole-frame floor of the exact `(taps - 1) / 2` group delay; use
/// [`group_delay_frames`](Self::group_delay_frames) where the fraction matters.
///
/// The tail is exactly `taps - 1` frames: the response of the final inputs.
/// A drain continues the convolution with silent input, and new input starts a
/// new drain.
///
/// A compensated running sum gives constant work per sample on average. The sum
/// is taken afresh from the ring at every wrap, which bounds numerical drift on
/// a schedule that does not depend on block sizes.
#[derive(Clone, Debug)]
pub struct MovingAverage<T: Sample> {
    pub taps: usize,
    /// Per channel, the last `taps` inputs.
    pub lanes: Vec<AverageLane<T::Real>>,
    pub ring_pos: usize,
    /// Tail frames drained since the last new input or reset.
    pub flushed: usize,
}

/// The state of a moving average.
pub struct AverageModel<R> {
    pub taps: usize,
    pub lines: Seq<AverageLine<R>>,
    pub pos: int,
    pub flushed: usize,
}

/// The factor that makes a sum over `taps` samples an average.
pub open spec fn tap_scale<R: Real>(taps: usize) -> R {
    unit::<R>().quot(R::natural(taps as u64))
}

/// The tail of a moving average over `taps` samples.
pub open spec fn average_tail(taps: usize) -> usize {
    if taps == 0 {
        0
    } else {
        (taps - 1) as usize
    }
}

impl<T: Sample> MovingAverage<T> {
    /// A moving average over `taps` samples.
    ///
    /// The tap count is stored as given: `prepare` rejects zero.
    pub fn new(taps: usize) -> (r: Self)
        ensures
            r.taps == taps,
            r.lanes@.len() == 0,
            r.ring_pos == 0,
            r.flushed == 0,
            <Self as Kernel<T>>::inv(&r),
    {
        Self { taps, lanes: Vec::new(), ring_pos: 0, flushed: 0 }
    }

    /// Exact linear-phase group delay in frames.
    pub fn group_delay_frames(&self) -> (r: T::Real)
        ensures
            r == T::Real::natural(average_tail(self.taps) as u64).prod(
                T::Real::decimal_of(5, -1),
            ),
    {
        let tail: usize = if self.taps == 0 {
            0
        } else {
            self.taps - 1
        };
        T::Real::from_u64(tail as u64).times(T::Real::decimal(5, -1))
    }
}

impl<T: Sample> FrameModel<T> for MovingAverage<T> {
    type Params = NoParams;

    type Model = AverageModel<T::Real>;

    open spec fn next(
        m: AverageModel<T::Real>,
        p: NoParams,
        x: Seq<T>,
        key: Seq<Seq<T>>,
    ) -> AverageModel<T::Real> {
        let step = AverageStep {
            taps: m.taps,
            start: m.pos as usize,
            scale: tap_scale::<T::Real>(m.taps),
        };
        AverageModel {
            taps: m.taps,
            lines: lanes_next::<T, AverageStep<T::Real>>(step, 0, m.lines, x),
            pos: (m.pos + 1) % (m.taps as int),
            flushed: 0,
        }
    }

    open spec fn emit(
        m: AverageModel<T::Real>,
        p: NoParams,
        x: Seq<T>,
        key: Seq<Seq<T>>,
    ) -> Seq<T> {
        let step = AverageStep {
            taps: m.taps,
            start: m.pos as usize,
            scale: tap_scale::<T::Real>(m.taps),
        };
        lanes_out::<T, AverageStep<T::Real>>(step, 0, m.lines, x)
    }

    open spec fn rest(m: AverageModel<T::Real>) -> AverageModel<T::Real> {
        AverageModel {
            taps: m.taps,
            lines: Seq::new(m.lines.len(), |c: int| silent_line::<T::Real>(m.taps as nat)),
            pos: 0,
            flushed: 0,
        }
    }

    open spec fn drained(m: AverageModel<T::Real>) -> bool {
        m.flushed >= average_tail(m.taps)
    }
}

/// A reset restores a moving average whatever it has filtered.
pub proof fn moving_average_reset_restores<T: Sample>()
    ensures
        rendering_keeps_rest::<T, MovingAverage<T>>(),
{
    assert forall|
        m: AverageModel<T::Real>,
        p: NoParams,
        x: Seq<T>,
        key: Seq<Seq<T>>,
    | #[trigger] <MovingAverage<T> as FrameModel<T>>::rest(
        <MovingAverage<T> as FrameModel<T>>::next(m, p, x, key),
    ) == <MovingAverage<T> as FrameModel<T>>::rest(m) by {
        assert(<MovingAverage<T> as FrameModel<T>>::rest(
            <MovingAverage<T> as FrameModel<T>>::next(m, p, x, key),
        ).lines =~= <MovingAverage<T> as FrameModel<T>>::rest(m).lines);
    }
    assert forall|m: AverageModel<T::Real>| #[trigger] <MovingAverage<T> as FrameModel<T>>::rest(
        <MovingAverage<T> as FrameModel<T>>::rest(m),
    ) == <MovingAverage<T> as FrameModel<T>>::rest(m) by {
        assert(<MovingAverage<T> as FrameModel<T>>::rest(
            <MovingAverage<T> as FrameModel<T>>::rest(m),
        ).lines =~= <MovingAverage<T> as FrameModel<T>>::rest(m).lines);
    }
}

/// What a drain of up to `room` frames makes of a moving average and of the
/// first frames of the output, which held `before`.
pub open spec fn average_drain<T: Sample>(
    m: AverageModel<T::Real>,
    room: usize,
    before: Seq<Seq<T>>,
    r: Produced,
    after: AverageModel<T::Real>,
    out: Seq<Seq<T>>,
) -> bool {
    let left = if m.flushed <= average_tail(m.taps) {
        average_tail(m.taps) - m.flushed
    } else {
        0
    };
    let want = if room <= left {
        room as int
    } else {
        left
    };
    let step = AverageTail {
        taps: m.taps,
        start: m.pos as usize,
        scale: tap_scale::<T::Real>(m.taps),
    };
    &&& r.frames == want
    &&& r.done == (m.flushed + want >= average_tail(m.taps))
    &&& after.taps == m.taps
    &&& after.lines == lanes_after::<T, AverageTail<T::Real>>(
        step,
        m.lines,
        heads(before, want),
        want as nat,
    )
    &&& after.pos == (m.pos + want) % (m.taps as int)
    &&& after.flushed == m.flushed + want
    &&& heads(out, want) == lanes_run::<T, AverageTail<T::Real>>(
        step,
        m.lines,
        heads(before, want),
    )
}

/// However a drain is divided, it delivers the declared tail in all and is then
/// done.
pub proof fn average_drains_its_tail<T: Sample>(
    m: AverageModel<T::Real>,
    room: usize,
    before: Seq<Seq<T>>,
    r: Produced,
    after: AverageModel<T::Real>,
    out: Seq<Seq<T>>,
)
    requires
        average_drain::<T>(m, room, before, r, after, out),
        m.flushed <= average_tail(m.taps),
    ensures
        r.frames <= room,
        m.flushed + r.frames <= after.flushed <= average_tail(m.taps),
        r.done <==> after.flushed == average_tail(m.taps),
{
}

// ---------------------------------------------------------------------------
// A whole run
// ---------------------------------------------------------------------------

/// The history of one channel, from silence, after the inputs `xs` and then `quiet`
/// drained frames.
pub open spec fn history<R: Real>(taps: nat, xs: Seq<R>, quiet: nat) -> AverageLine<R>
    decreases xs.len() + quiet,
{
    if quiet > 0 {
        let s = history(taps, xs, (quiet - 1) as nat);
        let pos = (xs.len() + quiet - 1) % taps as int;
        taken_in(s, pos, nil(), s.ring[pos].opposite())
    } else if xs.len() > 0 {
        let s = history(taps, xs.drop_last(), 0);
        let pos = (xs.len() - 1) % taps as int;
        taken_in(s, pos, xs.last(), xs.last().diff(s.ring[pos]))
    } else {
        silent_line(taps)
    }
}

/// What a filter has taken in: inputs, then silence.
pub open spec fn taken<R: Real>(xs: Seq<R>, quiet: nat) -> Seq<R> {
    xs + Seq::new(quiet, |i: int| nil())
}

/// Places less than one ring apart differ.
pub proof fn lemma_places_differ(i: int, k: int, taps: int)
    requires
        0 <= i < k < i + taps,
    ensures
        i % taps != k % taps,
{
    if i % taps == k % taps {
        vstd::arithmetic::div_mod::lemma_fundamental_div_mod(i, taps);
        vstd::arithmetic::div_mod::lemma_fundamental_div_mod(k, taps);
        let (a, b) = (i / taps, k / taps);
        assert(k - i == taps * (b - a)) by (nonlinear_arith)
            requires
                i == taps * a + i % taps,
                k == taps * b + k % taps,
                i % taps == k % taps,
        ;
        assert(false) by (nonlinear_arith)
            requires
                k - i == taps * (b - a),
                0 < k - i < taps,
        ;
    }
}

/// The ring holds the last `taps` values that were taken in, and silence before them.
proof fn lemma_window<R: Real>(taps: nat, xs: Seq<R>, quiet: nat)
    requires
        taps >= 1,
    ensures
        ({
            let ring = history(taps, xs, quiet).ring;
            let all = taken(xs, quiet);
            let n = all.len();
            &&& ring.len() == taps
            &&& forall|i: int|
                #![trigger all[i]]
                0 <= i < n && n - taps <= i ==> ring[i % taps as int] == all[i]
            &&& forall|j: int| n <= j < taps ==> #[trigger] ring[j] == nil::<R>()
        }),
    decreases xs.len() + quiet,
{
    let t = taps as int;
    let all = taken(xs, quiet);
    let n = all.len();
    if n > 0 {
        let (ys, rest) = if quiet > 0 {
            (xs, (quiet - 1) as nat)
        } else {
            (xs.drop_last(), 0nat)
        };
        lemma_window(taps, ys, rest);
        let before = history(taps, ys, rest).ring;
        let early = taken(ys, rest);
        assert(early =~= all.drop_last());
        let pos = (n - 1) % t;
        vstd::arithmetic::div_mod::lemma_mod_bound(n - 1, t);
        let ring = history(taps, xs, quiet).ring;
        assert(ring == before.update(pos, all[n - 1]));
        assert forall|i: int|
            #![trigger all[i]]
            0 <= i < n && n - taps <= i implies ring[i % t] == all[i] by {
            vstd::arithmetic::div_mod::lemma_mod_bound(i, t);
            if i < n - 1 {
                lemma_places_differ(i, n - 1, t);
                assert(early[i] == all[i]);
            }
        }
        assert forall|j: int| n <= j < taps implies #[trigger] ring[j] == nil::<R>() by {
            vstd::arithmetic::div_mod::lemma_small_mod((n - 1) as nat, taps);
            assert(before[j] == nil::<R>());
        }
    }
}

/// A moving average is the convolution with `taps` equal taps: rendering and draining
/// together keep the last `taps` values that were taken in, and wherever the ring
/// wraps, the output is their sum, taken in order, times the tap weight. In between,
/// the compensated running sum follows from there.
pub proof fn average_is_the_convolution<R: Real>(taps: nat, xs: Seq<R>, quiet: nat, scale: R)
    requires
        taps >= 1,
    ensures
        ({
            let h = history(taps, xs, quiet);
            let all = taken(xs, quiet);
            let n = all.len() as int;
            &&& h.ring.len() == taps
            &&& forall|i: int|
                #![trigger all[i]]
                0 <= i < n && n - taps <= i ==> h.ring[i % taps as int] == all[i]
            &&& forall|j: int| n <= j < taps ==> #[trigger] h.ring[j] == nil::<R>()
            &&& n > 0 && n % taps as int == 0 ==> {
                &&& n >= taps
                &&& h.ring == all.subrange(n - taps, n)
                &&& average(h, scale) == total(all.subrange(n - taps, n), taps).sum(nil()).prod(
                    scale,
                )
            }
        }),
{
    lemma_window(taps, xs, quiet);
    let t = taps as int;
    let h = history(taps, xs, quiet);
    let all = taken(xs, quiet);
    let n = all.len() as int;
    if n > 0 && n % t == 0 {
        if n < t {
            vstd::arithmetic::div_mod::lemma_small_mod(n as nat, taps);
        }
        assert forall|j: int| 0 <= j < t implies h.ring[j] == #[trigger] all.subrange(n - t, n)[j] by {
            vstd::arithmetic::div_mod::lemma_mod_sub_multiples_vanish(n + j, t);
            vstd::arithmetic::div_mod::lemma_add_mod_noop(n, j, t);
            vstd::arithmetic::div_mod::lemma_small_mod(j as nat, taps);
            assert((n - t + j) % t == j);
            assert(all[n - t + j] == h.ring[(n - t + j) % t]);
        }
        assert(h.ring =~= all.subrange(n - t, n));
        vstd::arithmetic::div_mod::lemma_mod_bound(n - 1, t);
        vstd::arithmetic::div_mod::lemma_add_mod_noop(n - 1, 1, t);
        assert((n - 1) % t == t - 1) by {
            if (n - 1) % t + 1 < t {
                vstd::arithmetic::div_mod::lemma_small_mod(((n - 1) % t + 1) as nat, taps);
                if t > 1 {
                    vstd::arithmetic::div_mod::lemma_small_mod(1, taps);
                }
            }
        }
    }
}

/// Where sums are exact, the output after every frame, rendered or drained, is the exact
/// sum of the last `taps` values that were taken in, times the tap weight.
pub proof fn average_is_exact_where_sums_are<R: Real>(
    taps: nat,
    xs: Seq<R>,
    quiet: nat,
    scale: R,
    whole: spec_fn(R) -> Option<int>,
    bound: int,
    limit: int,
)
    requires
        taps >= 1,
        sums_exactly(whole, limit),
        counted_within(whole, xs, bound),
        0 <= bound,
        bound * (taps + 1) <= limit,
    ensures
        ({
            let h = history(taps, xs, quiet);
            let all = taken(xs, quiet);
            let n = all.len() as int;
            let first = if n < taps {
                0
            } else {
                n - taps
            };
            &&& average(h, scale) == h.sum.sum(h.correction).prod(scale)
            &&& whole(h.sum.sum(h.correction)) == Some(counted(whole, all, first, n))
        }),
{
    reveal(sums_exactly);
    lemma_running_sum(taps, xs, quiet, whole, bound, limit);
    lemma_taken_within(xs, quiet, whole, bound, limit);
    let all = taken(xs, quiet);
    let n = all.len() as int;
    let first = if n < taps {
        0
    } else {
        n - taps
    };
    lemma_counted_bound(whole, all, first, n, bound);
    lemma_span(bound, n - first, taps as int, limit);
}

proof fn lemma_span(bound: int, span: int, taps: int, limit: int)
    requires
        0 <= bound,
        0 <= span <= taps,
        1 <= taps,
        bound * (taps + 1) <= limit,
    ensures
        0 <= bound * span <= limit,
        2 * bound <= limit,
{
    assert(0 <= bound * span <= bound * (taps + 1)) by (nonlinear_arith)
        requires
            0 <= bound,
            0 <= span <= taps,
    ;
    assert(2 * bound <= bound * (taps + 1)) by (nonlinear_arith)
        requires
            0 <= bound,
            1 <= taps,
    ;
}

proof fn lemma_taken_within<R: Real>(
    xs: Seq<R>,
    quiet: nat,
    whole: spec_fn(R) -> Option<int>,
    bound: int,
    limit: int,
)
    requires
        sums_exactly(whole, limit),
        counted_within(whole, xs, bound),
        0 <= bound,
    ensures
        counted_within(whole, taken(xs, quiet), bound),
{
    reveal(sums_exactly);
    let all = taken(xs, quiet);
    assert forall|i: int| #![trigger all[i]] 0 <= i < all.len() implies whole(all[i]) is Some
        && -bound <= whole(all[i])->0 <= bound by {
        if i < xs.len() {
            assert(all[i] == xs[i]);
        } else {
            assert(all[i] == nil::<R>());
        }
    }
}

/// Where the window of `taps` values that ends before `n` starts.
spec fn window_from(n: int, taps: int) -> int {
    if n < taps {
        0
    } else {
        n - taps
    }
}

/// Steps that leave the window when value `n` enters it.
spec fn leaving<R: Real>(
    whole: spec_fn(R) -> Option<int>,
    all: Seq<R>,
    n: int,
    taps: int,
) -> int {
    if n >= taps {
        whole(all[n - taps])->0
    } else {
        0
    }
}

proof fn lemma_window_moves<R: Real>(
    whole: spec_fn(R) -> Option<int>,
    all: Seq<R>,
    n: int,
    taps: int,
)
    requires
        0 <= n < all.len(),
        1 <= taps,
    ensures
        counted(whole, all, window_from(n + 1, taps), n + 1) == counted(
            whole,
            all,
            window_from(n, taps),
            n,
        ) + whole(all[n])->0 - leaving(whole, all, n, taps),
{
    assert(counted(whole, all, window_from(n, taps), n + 1) == counted(
        whole,
        all,
        window_from(n, taps),
        n,
    ) + whole(all[n])->0);
    if n >= taps {
        lemma_counted_first(whole, all, n - taps, n + 1);
    }
}

/// The value that the next one replaces: the one from `taps` frames before, or silence.
proof fn lemma_replaced<R: Real>(taps: nat, xs: Seq<R>, quiet: nat)
    requires
        taps >= 1,
    ensures
        ({
            let n = (xs.len() + quiet) as int;
            let gone = history(taps, xs, quiet).ring[n % taps as int];
            gone == (if n >= taps {
                taken(xs, quiet)[n - taps]
            } else {
                nil()
            })
        }),
{
    let (n, t) = ((xs.len() + quiet) as int, taps as int);
    lemma_window(taps, xs, quiet);
    if n >= t {
        vstd::arithmetic::div_mod::lemma_mod_sub_multiples_vanish(n, t);
        assert(taken(xs, quiet)[n - t] == history(taps, xs, quiet).ring[(n - t) % t]);
    } else {
        vstd::arithmetic::div_mod::lemma_small_mod(n as nat, taps);
    }
}

proof fn lemma_fresh_sum<R: Real>(
    taps: nat,
    xs: Seq<R>,
    quiet: nat,
    whole: spec_fn(R) -> Option<int>,
    bound: int,
    limit: int,
)
    requires
        taps >= 1,
        sums_exactly(whole, limit),
        counted_within(whole, taken(xs, quiet), bound),
        0 <= bound,
        bound * taps <= limit,
        xs.len() + quiet > 0,
        (xs.len() + quiet) as int % taps as int == 0,
    ensures
        ({
            let n = (xs.len() + quiet) as int;
            &&& n >= taps
            &&& whole(total(history(taps, xs, quiet).ring, taps)) == Some(
                counted(whole, taken(xs, quiet), n - taps, n),
            )
        }),
{
    let all = taken(xs, quiet);
    let (n, t) = (all.len() as int, taps as int);
    let ring = history(taps, xs, quiet).ring;
    assert(n >= t && ring == all.subrange(n - t, n)) by {
        average_is_the_convolution(taps, xs, quiet, nil());
    }
    lemma_window_sum(ring, all, taps, whole, bound, limit);
}

proof fn lemma_window_sum<R: Real>(
    ring: Seq<R>,
    all: Seq<R>,
    taps: nat,
    whole: spec_fn(R) -> Option<int>,
    bound: int,
    limit: int,
)
    requires
        sums_exactly(whole, limit),
        counted_within(whole, all, bound),
        0 <= bound,
        bound * taps <= limit,
        taps <= all.len(),
        ring == all.subrange(all.len() - taps, all.len() as int),
    ensures
        whole(total(ring, taps)) == Some(
            counted(whole, all, all.len() - taps, all.len() as int),
        ),
{
    totals_are_exact(whole, limit, ring, bound, taps);
    lemma_counted_alike(whole, ring, 0, all, all.len() - taps, taps);
}

/// Frame `n - 1` takes the last place of a ring exactly where `n` is a multiple of its length.
proof fn lemma_last_place(n: int, taps: int)
    requires
        0 < n,
        1 <= taps,
    ensures
        0 <= (n - 1) % taps < taps,
        (n - 1) % taps + 1 == taps <==> n % taps == 0,
{
    vstd::arithmetic::div_mod::lemma_mod_bound(n - 1, taps);
    vstd::arithmetic::div_mod::lemma_mod_bound(n, taps);
    vstd::arithmetic::div_mod::lemma_fundamental_div_mod(n - 1, taps);
    let (q, r) = ((n - 1) / taps, (n - 1) % taps);
    if r + 1 == taps {
        assert(n == (q + 1) * taps + 0) by (nonlinear_arith)
            requires
                n - 1 == taps * q + r,
                r + 1 == taps,
        ;
        vstd::arithmetic::div_mod::lemma_fundamental_div_mod_converse(n, taps, q + 1, 0);
    } else {
        assert(n == q * taps + (r + 1)) by (nonlinear_arith)
            requires
                n - 1 == taps * q + r,
        ;
        vstd::arithmetic::div_mod::lemma_fundamental_div_mod_converse(n, taps, q, r + 1);
    }
}

proof fn lemma_running_sum<R: Real>(
    taps: nat,
    xs: Seq<R>,
    quiet: nat,
    whole: spec_fn(R) -> Option<int>,
    bound: int,
    limit: int,
)
    requires
        taps >= 1,
        sums_exactly(whole, limit),
        counted_within(whole, xs, bound),
        0 <= bound,
        bound * (taps + 1) <= limit,
    ensures
        ({
            let h = history(taps, xs, quiet);
            let n = (xs.len() + quiet) as int;
            &&& whole(h.sum) == Some(
                counted(whole, taken(xs, quiet), window_from(n, taps as int), n),
            )
            &&& whole(h.correction) == Some(0int)
        }),
    decreases xs.len() + quiet,
{
    let t = taps as int;
    let all = taken(xs, quiet);
    let n = (xs.len() + quiet) as int;
    if n == 0 {
        assert(whole(nil()) == Some(0int)) by {
            reveal(sums_exactly);
        }
    } else {
        let (ys, rest) = if quiet > 0 {
            (xs, (quiet - 1) as nat)
        } else {
            (xs.drop_last(), 0nat)
        };
        assert(counted_within(whole, ys, bound)) by {
            assert forall|i: int| #![trigger ys[i]] 0 <= i < ys.len() implies whole(ys[i]) is Some
                && -bound <= whole(ys[i])->0 <= bound by {
                assert(ys[i] == xs[i]);
            }
        }
        let early = taken(ys, rest);
        assert(early =~= all.drop_last());
        lemma_running_sum(taps, ys, rest, whole, bound, limit);
        lemma_taken_within(xs, quiet, whole, bound, limit);
        lemma_last_place(n, t);
        lemma_span(bound, t, t, limit);
        if n % t == 0 {
            lemma_fresh_sum(taps, xs, quiet, whole, bound, limit);
            assert(history(taps, ys, rest).ring.len() == taps) by {
                lemma_window(taps, ys, rest);
            }
            assert(whole(nil()) == Some(0int)) by {
                reveal(sums_exactly);
            }
        } else {
            lemma_kept_sum(taps, xs, quiet, ys, rest, whole, bound, limit);
        }
    }
}

proof fn lemma_kept_sum<R: Real>(
    taps: nat,
    xs: Seq<R>,
    quiet: nat,
    ys: Seq<R>,
    rest: nat,
    whole: spec_fn(R) -> Option<int>,
    bound: int,
    limit: int,
)
    requires
        taps >= 1,
        sums_exactly(whole, limit),
        counted_within(whole, taken(xs, quiet), bound),
        0 <= bound,
        bound * (taps + 1) <= limit,
        xs.len() + quiet > 0,
        (xs.len() + quiet) as int % taps as int != 0,
        quiet > 0 ==> ys == xs && rest == quiet - 1,
        quiet == 0 ==> ys == xs.drop_last() && rest == 0,
        whole(history(taps, ys, rest).correction) == Some(0int),
        ({
            let m = (ys.len() + rest) as int;
            whole(history(taps, ys, rest).sum) == Some(
                counted(whole, taken(ys, rest), window_from(m, taps as int), m),
            )
        }),
    ensures
        ({
            let h = history(taps, xs, quiet);
            let n = (xs.len() + quiet) as int;
            &&& whole(h.sum) == Some(
                counted(whole, taken(xs, quiet), window_from(n, taps as int), n),
            )
            &&& whole(h.correction) == Some(0int)
        }),
{
    let t = taps as int;
    let all = taken(xs, quiet);
    let early = taken(ys, rest);
    let n = (xs.len() + quiet) as int;
    let m = n - 1;
    assert(early =~= all.drop_last());
    let before = history(taps, ys, rest);
    let from = window_from(m, t);
    assert(before.ring.len() == taps) by {
        lemma_window(taps, ys, rest);
    }
    lemma_last_place(n, t);
    lemma_replaced(taps, ys, rest);
    lemma_window_moves(whole, all, m, t);
    assert forall|i: int| #![trigger early[from + i]] 0 <= i < m - from implies early[from + i]
        == all[from + i] by {}
    lemma_counted_alike(whole, early, from, all, from, (m - from) as nat);
    lemma_counted_bound(whole, all, from, m, bound);
    lemma_counted_bound(whole, all, window_from(n, t), n, bound);
    lemma_span(bound, m - from, t, limit);
    lemma_span(bound, n - window_from(n, t), t, limit);
    let x = all[m];
    let gone = before.ring[m % t];
    let left = leaving(whole, all, m, t);
    assert(whole(x) is Some && -bound <= whole(x)->0 <= bound);
    assert(whole(gone) == Some(left) && -bound <= left <= bound) by {
        reveal(sums_exactly);
        if m >= t {
            assert(gone == all[m - t]);
        }
    }
    let delta = if quiet > 0 {
        gone.opposite()
    } else {
        x.diff(gone)
    };
    assert(whole(delta) == Some(whole(x)->0 - left)) by {
        reveal(sums_exactly);
        if quiet > 0 {
            assert(x == nil::<R>());
        }
    }
    assert(history(taps, xs, quiet) == taken_in(before, m % t, x, delta));
    exact_sums_need_no_correction(whole, limit, before.sum, before.correction, delta);
}

/// Rendering a frame takes its samples into the history of every channel and writes
/// the averages that they bring.
pub proof fn rendering_follows_the_history<T: Sample>(
    m: AverageModel<T::Real>,
    p: NoParams,
    x: Seq<T>,
    key: Seq<Seq<T>>,
    xs: Seq<T::Real>,
    ch: int,
)
    requires
        m.taps >= 1,
        0 <= ch < m.lines.len(),
        m.lines[ch] == history(m.taps as nat, xs, 0),
        m.pos == xs.len() as int % m.taps as int,
    ensures
        ({
            let after = <MovingAverage<T> as FrameModel<T>>::next(m, p, x, key);
            let longer = xs.push(sane(x[ch].value()));
            &&& after.lines[ch] == history(m.taps as nat, longer, 0)
            &&& after.pos == longer.len() as int % m.taps as int
            &&& <MovingAverage<T> as FrameModel<T>>::emit(m, p, x, key)[ch] == T::stored(
                average(history(m.taps as nat, longer, 0), tap_scale(m.taps)),
            )
        }),
{
    let t = m.taps as int;
    let longer = xs.push(sane(x[ch].value()));
    assert(longer.drop_last() =~= xs);
    vstd::arithmetic::div_mod::lemma_mod_bound(xs.len() as int, t);
    vstd::arithmetic::div_mod::lemma_small_mod(m.pos as nat, m.taps as nat);
    vstd::arithmetic::div_mod::lemma_add_mod_noop_right(1, xs.len() as int, t);
    assert(place(m.taps, m.pos as usize, 0) == m.pos);
}

/// Draining goes on from the history with silence and writes the averages that it
/// brings, so that rendering and draining together are one filter.
pub proof fn draining_follows_the_history<T: Sample>(
    m: AverageModel<T::Real>,
    room: usize,
    before: Seq<Seq<T>>,
    r: Produced,
    after: AverageModel<T::Real>,
    out: Seq<Seq<T>>,
    xs: Seq<T::Real>,
    quiet: nat,
    ch: int,
)
    requires
        average_drain::<T>(m, room, before, r, after, out),
        m.taps >= 1,
        0 <= ch < m.lines.len(),
        before.len() == m.lines.len(),
        out.len() == m.lines.len(),
        before[ch].len() == room,
        out[ch].len() == room,
        m.lines[ch] == history(m.taps as nat, xs, quiet),
        m.pos == (xs.len() + quiet) as int % m.taps as int,
    ensures
        after.lines[ch] == history(m.taps as nat, xs, quiet + r.frames as nat),
        after.pos == (xs.len() + quiet + r.frames) as int % m.taps as int,
        forall|i: int|
            0 <= i < r.frames ==> #[trigger] out[ch][i] == T::stored(
                average(history(m.taps as nat, xs, (quiet + i + 1) as nat), tap_scale(m.taps)),
            ),
{
    let want = r.frames as int;
    let t = m.taps as int;
    let step = AverageTail {
        taps: m.taps,
        start: m.pos as usize,
        scale: tap_scale::<T::Real>(m.taps),
    };
    let zs = heads(before, want)[ch];
    vstd::arithmetic::div_mod::lemma_mod_bound((xs.len() + quiet) as int, t);
    lemma_drained_history::<T>(step, zs, xs, quiet, want as nat);
    vstd::arithmetic::div_mod::lemma_add_mod_noop_right(want, (xs.len() + quiet) as int, t);
    assert forall|i: int| 0 <= i < want implies #[trigger] out[ch][i] == T::stored(
        average(history(m.taps as nat, xs, (quiet + i + 1) as nat), tap_scale(m.taps)),
    ) by {
        lemma_drained_history::<T>(step, zs, xs, quiet, i as nat);
        lemma_drained_history::<T>(step, zs, xs, quiet, (i + 1) as nat);
        assert(heads(out, want)[ch][i] == out[ch][i]);
        assert(heads(out, want)[ch] == lanes_run::<T, AverageTail<T::Real>>(
            step,
            m.lines,
            heads(before, want),
        )[ch]);
    }
}

proof fn lemma_drained_history<T: Sample>(
    step: AverageTail<T::Real>,
    zs: Seq<T>,
    xs: Seq<T::Real>,
    quiet: nat,
    n: nat,
)
    requires
        step.taps >= 1,
        step.start == (xs.len() + quiet) as int % step.taps as int,
    ensures
        lane_after::<T, AverageTail<T::Real>>(
            step,
            history(step.taps as nat, xs, quiet),
            zs,
            n,
        ) == history(step.taps as nat, xs, quiet + n),
    decreases n,
{
    if n > 0 {
        lemma_drained_history::<T>(step, zs, xs, quiet, (n - 1) as nat);
        vstd::arithmetic::div_mod::lemma_add_mod_noop_right(
            n - 1,
            (xs.len() + quiet) as int,
            step.taps as int,
        );
        assert(place(step.taps, step.start, n - 1) == (xs.len() + (quiet + n) - 1)
            % step.taps as int);
    }
}

/// A whole drain stays within the tail: whatever the sizes of its calls, a drain from
/// its start delivers at most the declared tail, and a call that finds it done brings
/// nothing more.
pub proof fn average_drains_no_more_than_its_tail<T: Sample>(
    models: Seq<AverageModel<T::Real>>,
    rooms: Seq<usize>,
    calls: Seq<Produced>,
    before: Seq<Seq<Seq<T>>>,
    outs: Seq<Seq<Seq<T>>>,
)
    requires
        models.len() == calls.len() + 1,
        forall|k: int|
            0 <= k < calls.len() ==> average_drain::<T>(
                models[k],
                rooms[k],
                before[k],
                #[trigger] calls[k],
                models[k + 1],
                outs[k],
            ),
        models[0].flushed <= average_tail(models[0].taps),
    ensures
        models[0].flushed + delivered(calls) <= average_tail(models[0].taps),
        forall|k: int|
            0 <= k < calls.len() - 1 && (#[trigger] calls[k]).done ==> calls[k + 1].frames == 0
                && calls[k + 1].done,
{
    let counts = Seq::new(models.len(), |k: int| models[k].flushed as nat);
    assert forall|k: int| 0 <= k < calls.len() implies counts[k] + (#[trigger] calls[k]).frames
        <= counts[k + 1] && (calls[k].done ==> counts[k + 1] == average_tail(models[0].taps)) by {
        lemma_drain_stays::<T>(models, rooms, calls, before, outs, k);
        average_drains_its_tail::<T>(
            models[k],
            rooms[k],
            before[k],
            calls[k],
            models[k + 1],
            outs[k],
        );
    }
    lemma_drain_stays::<T>(models, rooms, calls, before, outs, calls.len() as int);
    counted_calls_stay_within(calls, counts, average_tail(models[0].taps) as nat);
    assert forall|k: int| 0 <= k < calls.len() - 1 && (#[trigger] calls[k]).done implies calls[k
        + 1].frames == 0 && calls[k + 1].done by {
        lemma_drain_stays::<T>(models, rooms, calls, before, outs, k + 1);
        let next = calls[k + 1];
        assert(average_drain::<T>(
            models[k + 1],
            rooms[k + 1],
            before[k + 1],
            next,
            models[k + 2],
            outs[k + 1],
        ));
    }
}

/// A drain is exactly the tail: calls with room for a frame or more deliver what is left of
/// it, no more and no less, by the time one says that it is done, and one says so after at
/// most as many calls as frames were left.
pub proof fn average_drains_exactly_its_tail<T: Sample>(
    models: Seq<AverageModel<T::Real>>,
    rooms: Seq<usize>,
    calls: Seq<Produced>,
    before: Seq<Seq<Seq<T>>>,
    outs: Seq<Seq<Seq<T>>>,
)
    requires
        models.len() == calls.len() + 1,
        forall|k: int|
            0 <= k < calls.len() ==> average_drain::<T>(
                models[k],
                rooms[k],
                before[k],
                #[trigger] calls[k],
                models[k + 1],
                outs[k],
            ),
        models[0].flushed <= average_tail(models[0].taps),
        forall|k: int| 0 <= k < calls.len() ==> #[trigger] rooms[k] >= 1,
        calls.len() >= 1,
        calls.len() >= average_tail(models[0].taps) - models[0].flushed || calls.last().done,
    ensures
        models[0].flushed + delivered(calls) == average_tail(models[0].taps),
        calls.last().done,
{
    let counts = Seq::new(models.len(), |k: int| models[k].flushed as nat);
    assert forall|k: int| 0 <= k < calls.len() implies {
        &&& counts[k] + (#[trigger] calls[k]).frames == counts[k + 1]
        &&& counts[k + 1] <= average_tail(models[0].taps)
        &&& counts[k] < average_tail(models[0].taps) ==> calls[k].frames >= 1
        &&& calls[k].done == (counts[k + 1] == average_tail(models[0].taps))
    } by {
        lemma_drain_stays::<T>(models, rooms, calls, before, outs, k);
        lemma_drain_stays::<T>(models, rooms, calls, before, outs, k + 1);
        assert(rooms[k] >= 1);
    }
    eager_calls_finish(calls, counts, average_tail(models[0].taps) as nat);
    let last = calls[calls.len() - 1];
    assert(last.done == (counts[calls.len() as int] == average_tail(models[0].taps)));
}

proof fn lemma_drain_stays<T: Sample>(
    models: Seq<AverageModel<T::Real>>,
    rooms: Seq<usize>,
    calls: Seq<Produced>,
    before: Seq<Seq<Seq<T>>>,
    outs: Seq<Seq<Seq<T>>>,
    k: int,
)
    requires
        models.len() == calls.len() + 1,
        forall|j: int|
            0 <= j < calls.len() ==> average_drain::<T>(
                models[j],
                rooms[j],
                before[j],
                #[trigger] calls[j],
                models[j + 1],
                outs[j],
            ),
        models[0].flushed <= average_tail(models[0].taps),
        0 <= k <= calls.len(),
    ensures
        models[k].taps == models[0].taps,
        models[k].flushed <= average_tail(models[0].taps),
    decreases k,
{
    if k > 0 {
        lemma_drain_stays::<T>(models, rooms, calls, before, outs, k - 1);
        let call = calls[k - 1];
        assert(average_drain::<T>(
            models[k - 1],
            rooms[k - 1],
            before[k - 1],
            call,
            models[k],
            outs[k - 1],
        ));
    }
}

/// What a block holds of channel `ch`, with what is not finite taken as silence.
pub open spec fn channel_input<T: Sample>(b: Block<T>, ch: int) -> Seq<T::Real> {
    Seq::new(b.frames, |i: int| sane(b.x[ch][i].value()))
}

/// A block rendered from silence goes through the history of its input.
pub proof fn rendered_blocks_follow_the_history<T: Sample>(
    m: AverageModel<T::Real>,
    bank: Seq<Smoother<T::Real>>,
    b: Block<T>,
    ch: int,
    n: nat,
)
    requires
        m.taps >= 1,
        m == <MovingAverage<T> as FrameModel<T>>::rest(m),
        0 <= ch < m.lines.len(),
        b.x.len() == m.lines.len(),
        b.x[ch].len() >= b.frames,
        n <= b.frames,
    ensures
        ({
            let after = kernel_after::<T, MovingAverage<T>>(m, bank, b, n);
            let xs = channel_input(b, ch);
            &&& after.taps == m.taps
            &&& after.lines.len() == m.lines.len()
            &&& after.lines[ch] == history(m.taps as nat, xs.take(n as int), 0)
            &&& after.pos == n as int % m.taps as int
            &&& after.flushed == 0
            &&& forall|i: int|
                0 <= i < n ==> #[trigger] frame_out::<T, MovingAverage<T>>(m, bank, b, i)[ch]
                    == T::stored(
                    average(history(m.taps as nat, xs.take(i + 1), 0), tap_scale(m.taps)),
                )
        }),
    decreases n,
{
    let xs = channel_input(b, ch);
    if n > 0 {
        rendered_blocks_follow_the_history(m, bank, b, ch, (n - 1) as nat);
        let before = kernel_after::<T, MovingAverage<T>>(m, bank, b, (n - 1) as nat);
        let p = frame_params::<T, MovingAverage<T>>(bank, b.events, n - 1, b.frames, b.pos);
        rendering_follows_the_history::<T>(
            before,
            p,
            column(b.x, n - 1),
            key_column(b.key, n - 1),
            xs.take(n - 1),
            ch,
        );
        assert(xs.take(n - 1).push(sane(column(b.x, n - 1)[ch].value())) =~= xs.take(n as int));
    } else {
        assert(xs.take(0) =~= Seq::empty());
        vstd::arithmetic::div_mod::lemma_small_mod(0, m.taps as nat);
    }
}

/// Rendering and draining together are one convolution: a block rendered from silence and
/// the calls that drain it after it bring `taps - 1` frames beyond the block, and every
/// frame, rendered or drained, is the average of the history at it.
pub proof fn rendered_and_drained_are_one_convolution<T: Sample>(
    m: AverageModel<T::Real>,
    bank: Seq<Smoother<T::Real>>,
    b: Block<T>,
    models: Seq<AverageModel<T::Real>>,
    rooms: Seq<usize>,
    calls: Seq<Produced>,
    before: Seq<Seq<Seq<T>>>,
    outs: Seq<Seq<Seq<T>>>,
    ch: int,
    k: int,
)
    requires
        m.taps >= 1,
        m == <MovingAverage<T> as FrameModel<T>>::rest(m),
        0 <= ch < m.lines.len(),
        b.x.len() == m.lines.len(),
        b.x[ch].len() >= b.frames,
        models.len() == calls.len() + 1,
        models[0] == kernel_after::<T, MovingAverage<T>>(m, bank, b, b.frames),
        forall|j: int|
            0 <= j < calls.len() ==> {
                &&& average_drain::<T>(
                    models[j],
                    rooms[j],
                    before[j],
                    #[trigger] calls[j],
                    models[j + 1],
                    outs[j],
                )
                &&& models[j].lines.len() == m.lines.len()
                &&& before[j].len() == m.lines.len() && outs[j].len() == m.lines.len()
                &&& before[j][ch].len() == rooms[j] && outs[j][ch].len() == rooms[j]
            },
        forall|j: int| 0 <= j < calls.len() ==> #[trigger] rooms[j] >= 1,
        calls.len() >= 1,
        calls.last().done,
        0 <= k < calls.len(),
    ensures
        delivered(calls) == m.taps - 1,
        ({
            let xs = channel_input(b, ch);
            let quiet = delivered(calls.take(k));
            &&& forall|i: int|
                0 <= i < b.frames ==> #[trigger] frame_out::<T, MovingAverage<T>>(m, bank, b, i)[ch]
                    == T::stored(
                    average(history(m.taps as nat, xs.take(i + 1), 0), tap_scale(m.taps)),
                )
            &&& forall|i: int|
                0 <= i < calls[k].frames ==> #[trigger] outs[k][ch][i] == T::stored(
                    average(
                        history(m.taps as nat, xs, (quiet + i + 1) as nat),
                        tap_scale(m.taps),
                    ),
                )
        }),
{
    let xs = channel_input(b, ch);
    rendered_blocks_follow_the_history(m, bank, b, ch, b.frames);
    assert(xs.take(b.frames as int) =~= xs);
    average_drains_exactly_its_tail::<T>(models, rooms, calls, before, outs);
    lemma_drained_so_far::<T>(models, rooms, calls, before, outs, xs, ch, k);
    draining_follows_the_history::<T>(
        models[k],
        rooms[k],
        before[k],
        calls[k],
        models[k + 1],
        outs[k],
        xs,
        delivered(calls.take(k)),
        ch,
    );
}

proof fn lemma_drained_so_far<T: Sample>(
    models: Seq<AverageModel<T::Real>>,
    rooms: Seq<usize>,
    calls: Seq<Produced>,
    before: Seq<Seq<Seq<T>>>,
    outs: Seq<Seq<Seq<T>>>,
    xs: Seq<T::Real>,
    ch: int,
    k: int,
)
    requires
        models[0].taps >= 1,
        models.len() == calls.len() + 1,
        0 <= ch < models[0].lines.len(),
        models[0].lines[ch] == history(models[0].taps as nat, xs, 0),
        models[0].pos == xs.len() as int % models[0].taps as int,
        models[0].flushed <= average_tail(models[0].taps),
        forall|j: int|
            0 <= j < calls.len() ==> {
                &&& average_drain::<T>(
                    models[j],
                    rooms[j],
                    before[j],
                    #[trigger] calls[j],
                    models[j + 1],
                    outs[j],
                )
                &&& models[j].lines.len() == models[0].lines.len()
                &&& before[j].len() == models[0].lines.len()
                &&& outs[j].len() == models[0].lines.len()
                &&& before[j][ch].len() == rooms[j] && outs[j][ch].len() == rooms[j]
            },
        0 <= k < calls.len(),
    ensures
        models[k].taps == models[0].taps,
        models[k].lines[ch] == history(models[0].taps as nat, xs, delivered(calls.take(k))),
        models[k].pos == (xs.len() + delivered(calls.take(k))) as int % models[0].taps as int,
    decreases k,
{
    if k > 0 {
        lemma_drained_so_far::<T>(models, rooms, calls, before, outs, xs, ch, k - 1);
        lemma_drain_stays::<T>(models, rooms, calls, before, outs, k);
        let call = calls[k - 1];
        draining_follows_the_history::<T>(
            models[k - 1],
            rooms[k - 1],
            before[k - 1],
            call,
            models[k],
            outs[k - 1],
            xs,
            delivered(calls.take(k - 1)),
            ch,
        );
        assert(calls.take(k).drop_last() =~= calls.take(k - 1));
        assert(calls.take(k).last() == call);
    } else {
        assert(calls.take(0) =~= Seq::empty());
    }
}

impl<T: Sample> Kernel<T> for MovingAverage<T> {
    open spec fn model(&self) -> AverageModel<T::Real> {
        AverageModel {
            taps: self.taps,
            lines: lane_states::<T, AverageStep<T::Real>>(self.lanes@),
            pos: self.ring_pos as int,
            flushed: self.flushed,
        }
    }

    open spec fn inv(&self) -> bool {
        &&& self.ring_pos < self.taps || self.ring_pos == 0
        &&& self.flushed <= average_tail(self.taps)
        &&& forall|c: int|
            0 <= c < self.lanes@.len() ==> (#[trigger] self.lanes@[c]).ring@.len() == self.taps
    }

    open spec fn accepts(&self, mode: IoMode, channels: nat, buses: nat) -> bool {
        mode == IoMode::Split && self.taps >= 1 && self.lanes@.len() == channels
    }

    open spec fn outcome(&self, spec: ProcessSpec) -> Result<(), DspError> {
        if self.taps == 0 {
            Err(DspError::InvalidParam("moving average taps must be at least 1"))
        } else {
            empty_plan().arrays(
                spec.channels as nat,
                self.taps as nat,
                size_of::<T::Real>(),
            ).array(spec.channels as nat, size_of::<T::Real>()).array(
                spec.channels as nat,
                size_of::<T::Real>(),
            ).verdict(spec.max_memory)
        }
    }

    open spec fn made(&self, spec: ProcessSpec) -> AverageModel<T::Real> {
        AverageModel {
            taps: self.taps,
            lines: Seq::new(spec.channels as nat, |c: int| silent_line(self.taps as nat)),
            pos: 0,
            flushed: 0,
        }
    }

    open spec fn standing(&self) -> Standing<T::Real> {
        Standing {
            latency: average_tail(self.taps) / 2,
            tail: Tail::Frames(average_tail(self.taps)),
            io_mode: IoMode::Split,
            footprint: saturated((self.taps + 2) as nat * self.lanes@.len() * size_of::<T::Real>()),
            info: Seq::empty(),
            sidechain_inputs: 0,
        }
    }

    fn prepare(&mut self, spec: ProcessSpec) -> (r: Result<(), DspError>)
        ensures
            final(self).taps == old(self).taps,
            r is Ok ==> final(self).lanes@.len() == spec.channels,
            r is Err ==> *final(self) == *old(self),
    {
        if self.taps == 0 {
            return Err(DspError::InvalidParam("moving average taps must be at least 1"));
        }
        match MemoryLayout::new().repeated_array::<T::Real>(spec.channels, self.taps).array::<
            T::Real,
        >(spec.channels).array::<T::Real>(spec.channels).preflight(spec.max_memory) {
            Err(e) => {
                return Err(e);
            },
            Ok(_) => {},
        }
        let zero = T::Real::zero();
        let taps: usize = self.taps;
        let mut lanes: Vec<AverageLane<T::Real>> = Vec::with_capacity(spec.channels);
        let mut ch: usize = 0;
        while ch < spec.channels
            invariant
                0 <= ch <= spec.channels,
                lanes@.len() == ch,
                zero == nil::<T::Real>(),
                forall|c: int|
                    0 <= c < ch ==> (#[trigger] lanes@[c]).line() == silent_line::<T::Real>(
                        taps as nat,
                    ),
            decreases spec.channels - ch,
        {
            let lane = AverageLane { ring: filled(zero, taps), sum: zero, correction: zero };
            assert(lane.ring@ =~= Seq::new(taps as nat, |i: int| nil::<T::Real>()));
            lanes.push(lane);
            ch += 1;
        }
        self.lanes = lanes;
        self.ring_pos = 0;
        self.flushed = 0;
        proof {
            assert forall|c: int| 0 <= c < self.lanes@.len() implies (
            #[trigger] self.lanes@[c]).ring@.len() == self.taps by {
                assert(self.lanes@[c].line() == silent_line::<T::Real>(taps as nat));
                assert(self.lanes@[c].line().ring.len() == taps);
            }
            assert(self.model().lines =~= <Self as FrameModel<T>>::rest(self.model()).lines);
            assert(self.accepts(IoMode::Split, spec.channels as nat, 0));
        }
        Ok(())
    }

    fn reset(&mut self)
        ensures
            final(self).taps == old(self).taps,
    {
        let n: usize = self.lanes.len();
        let taps: usize = self.taps;
        let mut ch: usize = 0;
        while ch < n
            invariant
                0 <= ch <= n,
                n == self.lanes@.len(),
                n == old(self).lanes@.len(),
                taps == self.taps,
                self.taps == old(self).taps,
                forall|c: int| 0 <= c < n ==> (#[trigger] self.lanes@[c]).ring@.len() == taps,
                forall|c: int|
                    0 <= c < ch ==> (#[trigger] self.lanes@[c]).line() == silent_line::<T::Real>(
                        taps as nat,
                    ),
            decreases n - ch,
        {
            let ghost before = self.lanes@;
            self.lanes[ch].silence();
            assert(self.lanes@[ch as int].line().ring.len() == taps);
            ch += 1;
        }
        self.ring_pos = 0;
        self.flushed = 0;
        assert(self.model().lines =~= <Self as FrameModel<T>>::rest(old(self).model()).lines);
    }

    fn latency(&self) -> (r: usize)
        ensures
            r == average_tail(self.taps) / 2,
    {
        if self.taps == 0 {
            0
        } else {
            (self.taps - 1) / 2
        }
    }

    fn tail(&self) -> (r: Tail)
        ensures
            r == Tail::Frames(average_tail(self.taps)),
    {
        Tail::Frames(
            if self.taps == 0 {
                0
            } else {
                self.taps - 1
            },
        )
    }

    fn io_mode(&self) -> (r: IoMode)
        ensures
            r == IoMode::Split,
    {
        IoMode::Split
    }

    fn memory_footprint(&self) -> (r: usize)
        ensures
            r == saturated((self.taps + 2) as nat * self.lanes@.len() * size_of::<T::Real>()),
    {
        proof {
            saturation_is_final((self.taps + 2) as nat, self.lanes@.len());
            saturation_is_final(
                (self.taps + 2) as nat * self.lanes@.len(),
                size_of::<T::Real>(),
            );
        }
        bytes_of::<T::Real>(scaled(joined(self.taps, 2), self.lanes.len()))
    }

    fn render(&mut self, io: &mut SubBlock<'_, '_, '_, T>, params: &NoParams)
        ensures
            final(self).taps == old(self).taps,
    {
        // New input starts a new drain.
        self.flushed = 0;
        let taps: usize = self.taps;
        let scale = T::Real::one().over(T::Real::from_u64(taps as u64));
        let start: usize = self.ring_pos;
        let step = AverageStep { taps, start, scale };
        proof {
            let p = *params;
            let wrap = mid_run(step);
            let m = old(self).model();
            let other = wrap(m.lines, 0);
            vstd::arithmetic::div_mod::lemma_small_mod(start as nat, taps as nat);
            lemma_same_start::<T, Self>(
                m,
                other,
                p,
                io.in_run(),
                io.key_run(),
                io.io.output().len(),
                io.len as nat,
            );
            lemma_average_frames::<T>(step, m.lines);
            lemma_lanes_are_frames::<T, Self, AverageStep<T::Real>>(
                step,
                wrap,
                m.lines,
                p,
                io.in_run(),
                io.key_run(),
                io.in_run(),
                io.len as nat,
            );
        }
        let len: usize = io.frames();
        run_split_lanes::<T, AverageStep<T::Real>>(&step, &mut self.lanes, io);
        self.ring_pos = place_of(taps, start, len);
        proof {
            assert forall|c: int| 0 <= c < self.lanes@.len() implies (
            #[trigger] self.lanes@[c]).ring@.len() == self.taps by {
                assert(<AverageStep<T::Real> as LaneStep<T>>::fits(
                    &step,
                    <AverageStep<T::Real> as LaneStep<T>>::state(self.lanes@[c]),
                ));
            }
        }
    }

    fn flush(&mut self, out: &mut AudioBlockMut<'_, '_, T>) -> (r: Produced)
        ensures
            average_drain(
                old(self).model(),
                old(out).length(),
                old(out).samples(),
                r,
                final(self).model(),
                final(out).samples(),
            ),
            r.done == <Self as FrameModel<T>>::drained(final(self).model()),
            final(self).taps == old(self).taps,
    {
        let taps: usize = self.taps;
        let bound: usize = taps - 1;
        let room: usize = out.frames();
        let left: usize = bound - self.flushed;
        let want: usize = if room <= left {
            room
        } else {
            left
        };
        let scale = T::Real::one().over(T::Real::from_u64(taps as u64));
        let start: usize = self.ring_pos;
        let step = AverageTail { taps, start, scale };
        let ghost m = self.model();
        drain_lanes::<T, AverageTail<T::Real>>(&step, &mut self.lanes, out, want);
        self.ring_pos = place_of(taps, start, want);
        self.flushed = self.flushed + want;
        proof {
            assert(lane_states::<T, AverageTail<T::Real>>(old(self).lanes@) =~= m.lines);
            assert(lane_states::<T, AverageTail<T::Real>>(self.lanes@) =~= self.model().lines);
            assert forall|c: int| 0 <= c < self.lanes@.len() implies (
            #[trigger] self.lanes@[c]).ring@.len() == self.taps by {
                assert(<AverageTail<T::Real> as LaneStep<T>>::fits(
                    &step,
                    <AverageTail<T::Real> as LaneStep<T>>::state(self.lanes@[c]),
                ));
            }
            assert(<Self as FrameModel<T>>::rest(self.model()).lines =~= <Self as FrameModel<
                T,
            >>::rest(m).lines);
        }
        Produced { frames: want, done: self.flushed >= bound }
    }
}

/// The state `i` frames into a run, given the histories there.
spec fn mid_run<R>(step: AverageStep<R>) -> spec_fn(Seq<AverageLine<R>>, int) -> AverageModel<R> {
    |s: Seq<AverageLine<R>>, i: int|
        AverageModel {
            taps: step.taps,
            lines: s,
            pos: place(step.taps, step.start, i),
            flushed: 0,
        }
}

/// Frames of a moving average, told by how far into a run they come.
proof fn lemma_average_frames<T: Sample>(
    step: AverageStep<T::Real>,
    lines: Seq<AverageLine<T::Real>>,
)
    requires
        step.start < step.taps,
        step.scale == tap_scale::<T::Real>(step.taps),
    ensures
        ({
            let wrap = mid_run(step);
            &&& forall|t: Seq<AverageLine<T::Real>>, i: int, x: Seq<T>, k: Seq<Seq<T>>|
                t.len() == lines.len() && x.len() == lines.len() && 0
                    <= i ==> #[trigger] <MovingAverage<T> as FrameModel<T>>::next(
                    wrap(t, i),
                    NoParams,
                    x,
                    k,
                ) == wrap(lanes_next::<T, AverageStep<T::Real>>(step, i, t, x), i + 1)
            &&& forall|t: Seq<AverageLine<T::Real>>, i: int, x: Seq<T>, k: Seq<Seq<T>>|
                t.len() == lines.len() && x.len() == lines.len() && 0
                    <= i ==> #[trigger] <MovingAverage<T> as FrameModel<T>>::emit(
                    wrap(t, i),
                    NoParams,
                    x,
                    k,
                ) == lanes_out::<T, AverageStep<T::Real>>(step, i, t, x)
        }),
{
    let taps = step.taps as int;
    let wrap = mid_run(step);
    assert forall|t: Seq<AverageLine<T::Real>>, i: int, x: Seq<T>, k: Seq<Seq<T>>|
        t.len() == lines.len() && x.len() == lines.len() && 0
            <= i implies #[trigger] <MovingAverage<T> as FrameModel<T>>::next(
        wrap(t, i),
        NoParams,
        x,
        k,
    ) == wrap(lanes_next::<T, AverageStep<T::Real>>(step, i, t, x), i + 1) by {
        let pos = place(step.taps, step.start, i);
        lemma_place_next(step.taps, step.start, i);
        vstd::arithmetic::div_mod::lemma_small_mod(pos as nat, taps as nat);
        let here = AverageStep { taps: step.taps, start: pos as usize, scale: step.scale };
        assert(lanes_next::<T, AverageStep<T::Real>>(step, i, t, x) =~= lanes_next::<
            T,
            AverageStep<T::Real>,
        >(here, 0, t, x));
    }
    assert forall|t: Seq<AverageLine<T::Real>>, i: int, x: Seq<T>, k: Seq<Seq<T>>|
        t.len() == lines.len() && x.len() == lines.len() && 0
            <= i implies #[trigger] <MovingAverage<T> as FrameModel<T>>::emit(
        wrap(t, i),
        NoParams,
        x,
        k,
    ) == lanes_out::<T, AverageStep<T::Real>>(step, i, t, x) by {
        let pos = place(step.taps, step.start, i);
        lemma_place_next(step.taps, step.start, i);
        vstd::arithmetic::div_mod::lemma_small_mod(pos as nat, taps as nat);
        let here = AverageStep { taps: step.taps, start: pos as usize, scale: step.scale };
        assert(lanes_out::<T, AverageStep<T::Real>>(step, i, t, x) =~= lanes_out::<
            T,
            AverageStep<T::Real>,
        >(here, 0, t, x));
    }
}

/// What the kernel answers about itself stays as `prepare` left it.
pub proof fn moving_average_answers_stand<T: Sample>()
    ensures
        kernel_answers_stand::<T, MovingAverage<T>>(),
{
}

} // verus!
