//! How constant offsets are removed.

use crate::contract::context::Produced;
use crate::contract::traits::{FrameModel, NoParams};
use crate::dsp::algebra::sum_of;
use crate::dsp::lanes::{heads, lane_after, lanes_after, lanes_run, LaneStep};
use crate::dsp::sanitize::lemma_flushing_keeps;
use crate::fixed::Fixed;
use crate::number::{
    at_most, exact, lemma_ratio, lemma_unrounded, logarithmic, nil, ordered, size, unrounded,
    whole_usize, within, Order, Real, Sample,
};
use crate::repair::dc_blocker::{
    blocker_drain, cutoff_in_band, decayed, declared_tail, pole_radius, state_peak, BlockStep,
    BlockerModel, RingStep, State,
};
use crate::repair::dc_offset::{DcOffset, OffsetModel};
use vstd::prelude::*;

verus! {

/// A blocker obeys its transfer function, with a zero at no frequency. Where arithmetic is
/// exact, each output less the radius times the one before is the input less the one
/// before; so under a constant input the output shrinks to the radius' share of itself.
pub proof fn blocking_obeys_the_transfer_function<T: Sample>(
    r: T::Real,
    i: int,
    s: State<T::Real>,
    x: T,
    of: spec_fn(T::Real) -> real,
    fits: spec_fn(real) -> bool,
)
    requires
        exact::<T::Real>(of, fits),
        ordered::<T::Real>(of, fits),
        fits(0real),
        T::Real::decimal_of(1, -30).finite(),
        x.value().finite(),
        fits(of(x.value()) - of(s.x1)),
        fits(of(r) * of(s.y1)),
        fits(of(x.value()) - of(s.x1) + of(r) * of(s.y1)),
        ({
            let y = of(x.value()) - of(s.x1) + of(r) * of(s.y1);
            y == 0real || of(T::Real::decimal_of(1, -30)) <= size(y)
        }),
    ensures
        ({
            let step = BlockStep { r };
            let after = <BlockStep<T::Real> as LaneStep<T>>::next(&step, i, s, x);
            &&& after.x1 == x.value()
            &&& of(after.y1) - of(r) * of(s.y1) == of(x.value()) - of(s.x1)
            &&& of(x.value()) == of(s.x1) ==> of(after.y1) == of(r) * of(s.y1)
            &&& <BlockStep<T::Real> as LaneStep<T>>::out(&step, i, s, x) == T::stored(after.y1)
        }),
{
    let y = x.value().diff(s.x1).sum(r.prod(s.y1));
    assert(of(y) == of(x.value()) - of(s.x1) + of(r) * of(s.y1));
    lemma_flushing_keeps(y, of, fits);
}

/// Blocking silence is ringing out, on fixed-point numbers.
pub proof fn blocking_silence_rings_out(r: Fixed, i: int, s: State<Fixed>, x: Fixed, y: Fixed)
    requires
        x.raw == 0,
    ensures
        ({
            let (block, ring) = (BlockStep { r }, RingStep { r });
            &&& <BlockStep<Fixed> as LaneStep<Fixed>>::next(&block, i, s, x) == <RingStep<
                Fixed,
            > as LaneStep<Fixed>>::next(&ring, i, s, y)
            &&& <BlockStep<Fixed> as LaneStep<Fixed>>::out(&block, i, s, x) == <RingStep<
                Fixed,
            > as LaneStep<Fixed>>::out(&ring, i, s, y)
        }),
{
    assert(x.diff(s.x1) == s.x1.opposite());
}

/// The pole stands at the cutoff: where arithmetic never rounds, the radius for a cutoff in
/// band is the exponential of a number that, times the rate, is minus a full turn times the
/// cutoff.
pub proof fn radius_is_the_decay_of_the_cutoff<R: Real>(
    cutoff_hz: R,
    fs: R,
    of: spec_fn(R) -> real,
) -> (arg: R)
    requires
        unrounded::<R>(of),
        of(fs) != 0real,
        within(cutoff_hz, R::decimal_of(1, -2), fs.prod(R::decimal_of(49, -2))),
    ensures
        pole_radius(cutoff_hz, fs) == arg.exponential(),
        of(arg) * of(fs) == of(R::decimal_of(-6283185307179586, -15)) * of(cutoff_hz),
{
    lemma_unrounded::<R>(of);
    let top = R::decimal_of(-6283185307179586, -15).prod(cutoff_hz);
    let arg = top.quot(fs);
    lemma_ratio(of(arg), of(top), of(fs));
    arg
}

/// Channel `c` of `x` after an offset, sample by sample.
pub open spec fn offset_channel<T: Sample>(
    m: OffsetModel<T::Real>,
    x: Seq<Seq<T>>,
    c: int,
    i: int,
) -> T {
    <DcOffset<T> as FrameModel<T>>::emit(
        m,
        NoParams,
        Seq::new(x.len(), |ch: int| x[ch][i]),
        Seq::empty(),
    )[c]
}

/// An offset moves every sample of a channel by the same amount: that of the channel, or
/// that of all channels. Applying what is minus the mean of a channel leaves a sum of zero.
pub proof fn offsets_take_out_the_mean<T: Sample>(
    m: OffsetModel<T::Real>,
    x: Seq<Seq<T>>,
    c: int,
    n: nat,
    of: spec_fn(T::Real) -> real,
)
    requires
        unrounded::<T::Real>(of),
        0 <= c < x.len(),
        n <= x[c].len(),
        forall|i: int| 0 <= i < n ==> (#[trigger] x[c][i]).value().finite(),
        forall|y: T::Real| (#[trigger] T::stored(y)).value() == y,
    ensures
        ({
            let offset = match m {
                OffsetModel::Broadcast(d) => of(d),
                OffsetModel::PerChannel(ds) => of(ds[c]),
            };
            let sum = sum_of(|i: int| of(x[c][i].value()), n);
            let moved = sum_of(|i: int| of(offset_channel::<T>(m, x, c, i).value()), n);
            &&& forall|i: int|
                0 <= i < n ==> of((#[trigger] offset_channel::<T>(m, x, c, i)).value()) == of(
                    x[c][i].value(),
                ) + offset
            &&& moved == sum + offset * (n as int as real)
            &&& offset * (n as int as real) == -sum ==> moved == 0real
        }),
    decreases n,
{
    lemma_unrounded::<T::Real>(of);
    let offset = match m {
        OffsetModel::Broadcast(d) => of(d),
        OffsetModel::PerChannel(ds) => of(ds[c]),
    };
    assert forall|i: int| 0 <= i < n implies of(
        (#[trigger] offset_channel::<T>(m, x, c, i)).value(),
    ) == of(x[c][i].value()) + offset by {
        assert(x[c][i].value().finite());
    }
    if n > 0 {
        offsets_take_out_the_mean::<T>(m, x, c, (n - 1) as nat, of);
        let k = (n - 1) as int;
        assert(offset * (k as real) + offset == offset * ((k + 1) as real)) by (nonlinear_arith);
        assert(of(offset_channel::<T>(m, x, c, k).value()) == of(x[c][k].value()) + offset);
    } else {
        assert(offset * 0real == 0real) by (nonlinear_arith);
    }
}

/// Cutoffs are kept in band: between a hundredth of a hertz and 49 hundredths of the rate,
/// and a cutoff in that band is kept.
pub proof fn cutoffs_are_kept_in_band<R: Real>(cutoff_hz: R, fs: R)
    requires
        R::decimal_of(1, -2).finite() && fs.prod(R::decimal_of(49, -2)).finite(),
        at_most(R::decimal_of(1, -2), fs.prod(R::decimal_of(49, -2))),
    ensures
        within(
            cutoff_in_band(cutoff_hz, fs),
            R::decimal_of(1, -2),
            fs.prod(R::decimal_of(49, -2)),
        ),
        within(cutoff_hz, R::decimal_of(1, -2), fs.prod(R::decimal_of(49, -2)))
            ==> cutoff_in_band(cutoff_hz, fs) == cutoff_hz,
{
}

/// The declared tail outlasts the decay: where arithmetic never rounds and rounding up gives
/// at least the number, the decay of the lowest cutoff over the tail covers the way from two
/// thousand to a millionth, and there is one frame more.
pub proof fn tails_outlast_the_decay<R: Real>(
    lowest_hz: R,
    fs: R,
    of: spec_fn(R) -> real,
    ln: spec_fn(real) -> real,
)
    requires
        unrounded::<R>(of),
        logarithmic::<R>(of, ln),
        of(R::decimal_of(1, -6)) > 0real,
        within(lowest_hz, R::decimal_of(1, -2), fs.prod(R::decimal_of(49, -2))),
        of(R::decimal_of(6283185307179586, -15)) * of(lowest_hz) > 0real,
        declared_tail(lowest_hz, fs) < usize::MAX,
        forall|a: R| of(a) <= whole_usize(#[trigger] a.ceiling()) as real,
    ensures
        ((declared_tail(lowest_hz, fs) - 1) as real) * (of(R::decimal_of(6283185307179586, -15))
            * of(lowest_hz)) >= ln(2000real / of(R::decimal_of(1, -6))) * of(fs),
{
    lemma_unrounded::<R>(of);
    let fits = |x: real| true;
    assert(fits(2000int as real));
    assert(of(R::decimal_of(2000, 0)) == 2000real);
    let tiny = of(R::decimal_of(1, -6));
    let way = R::decimal_of(2000, 0).quot(R::decimal_of(1, -6));
    assert(of(way) == 2000real / tiny);
    lemma_ratio(of(way), 2000real, tiny);
    assert(of(way) > 0real) by (nonlinear_arith)
        requires
            of(way) * tiny == 2000real,
            tiny > 0real,
    ;
    let top = way.logarithm().prod(fs);
    let turn = R::decimal_of(6283185307179586, -15).prod(lowest_hz);
    let frames = top.quot(turn);
    lemma_ratio(of(frames), of(top), of(turn));
    let n = whole_usize(frames.ceiling());
    assert(of(frames) <= n as real);
    let (a, b, t) = (of(frames), n as real, of(turn));
    assert(a * t <= b * t) by (nonlinear_arith)
        requires
            a <= b,
            t > 0real,
    ;
}

/// A state of small values has decayed: a drain goes on no longer than it must.
pub proof fn small_states_have_decayed<R: Real>(s: Seq<State<R>>)
    requires
        nil::<R>().finite() && R::decimal_of(1, -6).finite(),
        nil::<R>().below(R::decimal_of(1, -6)),
        forall|k: int|
            0 <= k < s.len() ==> {
                let t = #[trigger] s[k];
                t.x1.magnitude().below(R::decimal_of(1, -6))
                    && t.y1.magnitude().below(R::decimal_of(1, -6))
            },
    ensures
        decayed(s),
{
    lemma_small_peak(s, s.len() as int);
}

proof fn lemma_small_peak<R: Real>(s: Seq<State<R>>, n: int)
    requires
        0 <= n <= s.len(),
        nil::<R>().below(R::decimal_of(1, -6)),
        forall|k: int|
            0 <= k < s.len() ==> {
                let t = #[trigger] s[k];
                t.x1.magnitude().below(R::decimal_of(1, -6))
                    && t.y1.magnitude().below(R::decimal_of(1, -6))
            },
    ensures
        state_peak(s, n).below(R::decimal_of(1, -6)),
    decreases n,
{
    if n > 0 {
        lemma_small_peak(s, n - 1);
        let t = s[n - 1];
        assert(t.x1.magnitude().below(R::decimal_of(1, -6)));
    }
}

/// `frames` silent frames on `channels` channels.
pub open spec fn silence(channels: nat, frames: nat) -> Seq<Seq<Fixed>> {
    Seq::new(channels, |ch: int| Seq::new(frames, |i: int| Fixed { raw: 0 }))
}

proof fn lemma_ringing_lane(r: Fixed, s: State<Fixed>, xs: Seq<Fixed>, frames: nat, n: nat)
    requires
        n <= frames,
    ensures
        lane_after::<Fixed, RingStep<Fixed>>(RingStep { r }, s, xs, n) == lane_after::<
            Fixed,
            BlockStep<Fixed>,
        >(BlockStep { r }, s, Seq::new(frames, |i: int| Fixed { raw: 0 }), n),
    decreases n,
{
    if n > 0 {
        let still = Seq::new(frames, |i: int| Fixed { raw: 0 });
        lemma_ringing_lane(r, s, xs, frames, (n - 1) as nat);
        let was = lane_after::<Fixed, BlockStep<Fixed>>(BlockStep { r }, s, still, (n - 1) as nat);
        blocking_silence_rings_out(r, n - 1, was, still[n - 1], xs[n - 1]);
    }
}

/// Draining is blocking silence: on fixed-point numbers, a drain writes what the last radius
/// makes of silence and leaves the state behind that. It fills its room until it is done, and it
/// is done exactly when the tail is over or the state has decayed.
pub proof fn draining_is_blocking_silence(
    m: BlockerModel<Fixed>,
    room: usize,
    before: Seq<Seq<Fixed>>,
    r: Produced,
    after: BlockerModel<Fixed>,
    out: Seq<Seq<Fixed>>,
)
    requires
        blocker_drain::<Fixed>(m, room, before, r, after, out),
        m.flushed <= m.setup.tail_bound,
        before.len() == m.state.len(),
        forall|ch: int| 0 <= ch < before.len() ==> room <= (#[trigger] before[ch]).len(),
    ensures
        ({
            let still = silence(before.len(), r.frames as nat);
            let step = BlockStep { r: m.r };
            &&& heads(out, r.frames as int) == lanes_run::<Fixed, BlockStep<Fixed>>(
                step,
                m.state,
                still,
            )
            &&& after.state == lanes_after::<Fixed, BlockStep<Fixed>>(
                step,
                m.state,
                still,
                r.frames as nat,
            )
            &&& !r.done ==> r.frames == room
            &&& r.done ==> m.flushed + r.frames == m.setup.tail_bound || decayed(after.state)
            &&& decayed(after.state) ==> r.done
            &&& m.flushed + r.frames == m.setup.tail_bound ==> r.done
        }),
{
    let n = r.frames as nat;
    let still = silence(before.len(), n);
    let (step, ring) = (BlockStep { r: m.r }, RingStep { r: m.r });
    let told = lanes_run::<Fixed, BlockStep<Fixed>>(step, m.state, still);
    let state = lanes_after::<Fixed, BlockStep<Fixed>>(step, m.state, still, n);
    let part = heads(before, n as int);
    if m.flushed >= m.setup.tail_bound || decayed(m.state) {
        assert(heads(out, 0) =~= told) by {
            assert forall|ch: int| 0 <= ch < before.len() implies heads(out, 0)[ch]
                == told[ch] by {
                assert(heads(out, 0)[ch] =~= told[ch]);
            }
        }
        assert(m.state =~= state);
    } else {
        let rung = lanes_run::<Fixed, RingStep<Fixed>>(ring, m.state, part);
        assert forall|ch: int| 0 <= ch < before.len() implies rung[ch] == told[ch] by {
            assert forall|i: int| 0 <= i < n implies rung[ch][i] == told[ch][i] by {
                lemma_ringing_lane(m.r, m.state[ch], part[ch], n, i as nat);
                assert(still[ch] =~= Seq::new(n, |i: int| Fixed { raw: 0 }));
                blocking_silence_rings_out(
                    m.r,
                    i,
                    lane_after::<Fixed, BlockStep<Fixed>>(step, m.state[ch], still[ch], i as nat),
                    still[ch][i],
                    part[ch][i],
                );
            }
            assert(rung[ch] =~= told[ch]);
        }
        assert(rung =~= told);
        assert forall|ch: int| 0 <= ch < before.len() implies after.state[ch] == state[ch] by {
            lemma_ringing_lane(m.r, m.state[ch], part[ch], n, n);
            assert(still[ch] =~= Seq::new(n, |i: int| Fixed { raw: 0 }));
        }
        assert(after.state =~= state);
    }
}

/// A drain does not end before every value of the state has decayed: where all are finite,
/// a decayed state holds no magnitude at or above a millionth.
pub proof fn decayed_states_are_small<R: Real>(s: Seq<State<R>>, c: int)
    requires
        nil::<R>().finite() && R::decimal_of(1, -6).finite(),
        decayed(s),
        0 <= c < s.len(),
        forall|k: int|
            0 <= k < s.len() ==> {
                let t = #[trigger] s[k];
                t.x1.magnitude().finite() && t.y1.magnitude().finite()
            },
    ensures
        s[c].x1.magnitude().below(R::decimal_of(1, -6)),
        s[c].y1.magnitude().below(R::decimal_of(1, -6)),
{
    lemma_state_peak(s, s.len() as int, c);
}

proof fn lemma_state_peak<R: Real>(s: Seq<State<R>>, n: int, c: int)
    requires
        nil::<R>().finite(),
        0 <= n <= s.len(),
        forall|k: int|
            0 <= k < s.len() ==> {
                let t = #[trigger] s[k];
                t.x1.magnitude().finite() && t.y1.magnitude().finite()
            },
    ensures
        state_peak(s, n).finite(),
        0 <= c < n ==> {
            let p = state_peak(s, n).rank();
            s[c].x1.magnitude().rank() <= p && s[c].y1.magnitude().rank() <= p
        },
    decreases n,
{
    if n > 0 {
        lemma_state_peak(s, n - 1, c);
        let t = s[n - 1];
        assert(t.x1.magnitude().finite());
    }
}

} // verus!
