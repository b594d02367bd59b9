//! In-place rendering, channel by channel.
//!
//! Kernels without cross-channel state render a range one channel at a time.
//! The lemmas here show that this is the same as rendering it frame by frame.

use crate::contract::block::{rectangular, AudioBlockMut, IoMode};
use crate::contract::context::{overlaid, spliced, SubBlock};
use crate::contract::traits::{
    agree_from, column, key_column, model_after, rendered, rendered_frame, FrameModel,
};
use crate::number::Sample;
use vstd::prelude::*;

verus! {

// ---------------------------------------------------------------------------
// Without state
// ---------------------------------------------------------------------------

/// Every sample of a run replaced by `f` of its channel, its place, and itself.
pub open spec fn mapped_run<T>(run: Seq<Seq<T>>, f: spec_fn(int, int, T) -> T) -> Seq<Seq<T>> {
    Seq::new(run.len(), |ch: int| Seq::new(run[ch].len(), |i: int| f(ch, i, run[ch][i])))
}

fn map_plane<T: Copy, F: Fn(usize, usize, T) -> T>(
    buf: &mut [T],
    ch: usize,
    f: &F,
    Ghost(g): Ghost<spec_fn(int, int, T) -> T>,
)
    requires
        forall|i: usize, x: T| i < old(buf)@.len() ==> call_requires(*f, (ch, i, x)),
        forall|i: usize, x: T, y: T|
            #[trigger] call_ensures(*f, (ch, i, x), y) && i < old(buf)@.len() ==> y == g(
                ch as int,
                i as int,
                x,
            ),
    ensures
        final(buf)@ == Seq::new(old(buf)@.len(), |i: int| g(ch as int, i, old(buf)@[i])),
{
    let n: usize = buf.len();
    let mut i: usize = 0;
    while i < n
        invariant
            0 <= i <= n,
            n == old(buf)@.len(),
            buf@.len() == n,
            forall|i: usize, x: T| i < n ==> call_requires(*f, (ch, i, x)),
            forall|i: usize, x: T, y: T|
                #[trigger] call_ensures(*f, (ch, i, x), y) && i < n ==> y == g(
                    ch as int,
                    i as int,
                    x,
                ),
            forall|j: int| 0 <= j < i ==> #[trigger] buf@[j] == g(ch as int, j, old(buf)@[j]),
            forall|j: int| i <= j < n ==> #[trigger] buf@[j] == old(buf)@[j],
        decreases n - i,
    {
        let y = f(ch, i, buf[i]);
        buf[i] = y;
        i += 1;
    }
    assert(buf@ =~= Seq::new(old(buf)@.len(), |i: int| g(ch as int, i, old(buf)@[i])));
}

/// Replace every output sample of the range by `f` of its channel, its place,
/// and itself.
pub fn map_run<T: Copy, F: Fn(usize, usize, T) -> T>(
    io: &mut SubBlock<'_, '_, '_, T>,
    f: &F,
    Ghost(g): Ghost<spec_fn(int, int, T) -> T>,
)
    requires
        old(io).wf(),
        forall|ch: usize, i: usize, x: T|
            ch < old(io).io.output().len() && i < old(io).len ==> call_requires(*f, (ch, i, x)),
        forall|ch: usize, i: usize, x: T, y: T|
            #[trigger] call_ensures(*f, (ch, i, x), y) && ch < old(io).io.output().len() && i
                < old(io).len ==> y == g(ch as int, i as int, x),
    ensures
        old(io).rerun(final(io), mapped_run(old(io).out_run(), g)),
        *final(final(io).io) == *final(old(io).io),
        final(final(io).io.table())@ == final(old(io).io.table())@,
        forall|c: int|
            0 <= c < old(io).io.output().len() ==> final(#[trigger] final(io).io.plane(c))@
                == final(old(io).io.plane(c))@,
{
    let channels: usize = io.channels();
    let ghost before = io.out_run();
    let ghost mut done = before;
    let mut ch: usize = 0;
    proof {
        lemma_rerun_none(io);
    }
    while ch < channels
        invariant
            0 <= ch <= channels,
            channels == before.len(),
            channels == old(io).io.output().len(),
            old(io).wf(),
            io.wf(),
            io.io.output().len() == channels,
            before == old(io).out_run(),
            done.len() == channels,
            old(io).rerun(io, done),
            io.out_run() == done,
            forall|c: int| 0 <= c < channels ==> (#[trigger] done[c]).len() == old(io).len,
            forall|c: int| 0 <= c < ch ==> #[trigger] done[c] == mapped_run(before, g)[c],
            forall|c: int| ch <= c < channels ==> #[trigger] done[c] == before[c],
            *final(io.io) == *final(old(io).io),
            final(io.io.table())@ == final(old(io).io.table())@,
            forall|c: int|
                0 <= c < channels ==> final(#[trigger] io.io.plane(c))@
                    == final(old(io).io.plane(c))@,
            forall|c: usize, i: usize, x: T|
                c < channels && i < old(io).len ==> call_requires(*f, (c, i, x)),
            forall|c: usize, i: usize, x: T, y: T|
                #[trigger] call_ensures(*f, (c, i, x), y) && c < channels && i < old(io).len ==> y
                    == g(c as int, i as int, x),
        decreases channels - ch,
    {
        let ghost mid = *io;
        let ghost run = Seq::new(
            done[ch as int].len(),
            |i: int| g(ch as int, i, done[ch as int][i]),
        );
        map_plane(io.output_mut(ch), ch, f, Ghost(g));
        proof {
            lemma_rerun_again(*old(io), mid, *io, done, ch as int, run);
            done = done.update(ch as int, run);
            assert(run =~= mapped_run(before, g)[ch as int]);
        }
        ch += 1;
    }
    assert(done =~= mapped_run(before, g));
}

/// A sub-block is itself with the output it has.
pub proof fn lemma_rerun_none<T>(io: &SubBlock<'_, '_, '_, T>)
    requires
        io.wf(),
    ensures
        io.rerun(io, io.out_run()),
{
    let out = io.io.output();
    assert forall|c: int| 0 <= c < out.len() implies overlaid(
        out,
        io.start as int,
        io.out_run(),
    )[c] == out[c] by {
        assert(spliced(out[c], io.start as int, io.out_run()[c])
            =~= out[c]);
    }
    assert(overlaid(out, io.start as int, io.out_run()) =~= out);
}

/// Rewriting one channel of a partly rewritten range rewrites that channel of
/// the whole.
pub proof fn lemma_rerun_again<T>(
    first: SubBlock<'_, '_, '_, T>,
    mid: SubBlock<'_, '_, '_, T>,
    last: SubBlock<'_, '_, '_, T>,
    run: Seq<Seq<T>>,
    ch: int,
    window: Seq<T>,
)
    requires
        first.wf(),
        first.rerun(&mid, run),
        mid.out_run() == run,
        mid.rerun(&last, run.update(ch, window)),
        run.len() == first.io.output().len(),
        forall|c: int| 0 <= c < run.len() ==> (#[trigger] run[c]).len() == first.len,
        0 <= ch < run.len(),
        window.len() == first.len,
    ensures
        first.rerun(&last, run.update(ch, window)),
        last.out_run() == run.update(ch, window),
        last.wf(),
{
    let out = first.io.output();
    let start = first.start as int;
    let next = run.update(ch, window);
    let mid_out = mid.io.output();
    assert forall|c: int| 0 <= c < out.len() implies overlaid(
        mid_out,
        start,
        next,
    )[c] == overlaid(out, start, next)[c] by {
        assert(out[c].len() == first.io.length());
        assert(run[c].len() == first.len);
        assert(mid_out[c] == spliced(out[c], start, run[c]));
        assert(spliced(mid_out[c], start, next[c])
            =~= spliced(out[c], start, next[c]));
    }
    assert(overlaid(mid_out, start, next)
        =~= overlaid(out, start, next));
    assert forall|c: int| 0 <= c < next.len() implies last.out_run()[c] == next[c] by {
        assert(out[c].len() == first.io.length());
        assert(run[c].len() == first.len);
        assert(last.io.output()[c] == spliced(out[c], start, next[c]));
        assert(last.out_run()[c] =~= next[c]);
    }
    assert(last.out_run() =~= next);
    assert forall|bus: int| 0 <= bus < last.sc@.len() implies (#[trigger] last.sc@[bus]).wf()
        && last.start + last.len <= last.sc@[bus].length() by {
        assert(first.sc@[bus].wf());
    }
}

/// A kernel whose frames are written sample by sample renders a range by
/// replacing every sample.
pub proof fn lemma_frames_are_mapped<T: Sample, K: FrameModel<T>>(
    m: K::Model,
    p: K::Params,
    x: Seq<Seq<T>>,
    key: Seq<Seq<Seq<T>>>,
    before: Seq<Seq<T>>,
    n: nat,
    g: spec_fn(int, int, T) -> T,
)
    requires
        forall|ch: int| 0 <= ch < before.len() ==> (#[trigger] before[ch]).len() == n,
        forall|i: int, ch: int|
            0 <= i < n && 0 <= ch < before.len() ==> #[trigger] K::emit(
                model_after::<T, K>(m, p, x, key, i as nat),
                p,
                column(x, i),
                key_column(key, i),
            )[ch] == g(ch, i, before[ch][i]),
    ensures
        rendered::<T, K>(m, p, x, key, before.len(), n) == mapped_run(before, g),
{
    let out = rendered::<T, K>(m, p, x, key, before.len(), n);
    assert forall|ch: int| 0 <= ch < before.len() implies out[ch] == mapped_run(before, g)[ch] by {
        assert(before[ch].len() == n);
        assert forall|i: int| 0 <= i < n implies out[ch][i] == mapped_run(before, g)[ch][i] by {
            assert(out[ch][i] == rendered_frame::<T, K>(m, p, x, key, i)[ch]);
        }
        assert(out[ch] =~= mapped_run(before, g)[ch]);
    }
    assert(out =~= mapped_run(before, g));
}

/// A kernel that keeps its state and writes `g` of every sample renders a range
/// by replacing every sample by `g` of it.
pub proof fn lemma_map_is_frames<T: Sample, K: FrameModel<T>>(
    m: K::Model,
    p: K::Params,
    x: Seq<Seq<T>>,
    key: Seq<Seq<Seq<T>>>,
    n: nat,
    g: spec_fn(int, int, T) -> T,
)
    requires
        forall|c: Seq<T>, k: Seq<Seq<T>>| #[trigger] K::next(m, p, c, k) == m,
        forall|c: Seq<T>, k: Seq<Seq<T>>, ch: int, i: int|
            0 <= ch < c.len() ==> (#[trigger] K::emit(m, p, c, k)[ch]) == #[trigger] g(
                ch,
                i,
                c[ch],
            ),
        forall|ch: int| 0 <= ch < x.len() ==> (#[trigger] x[ch]).len() == n,
    ensures
        model_after::<T, K>(m, p, x, key, n) == m,
        rendered::<T, K>(m, p, x, key, x.len(), n) == mapped_run(x, g),
{
    lemma_model_stands::<T, K>(m, p, x, key, n);
    assert forall|i: int, ch: int| 0 <= i < n && 0 <= ch < x.len() implies #[trigger] K::emit(
        model_after::<T, K>(m, p, x, key, i as nat),
        p,
        column(x, i),
        key_column(key, i),
    )[ch] == g(ch, i, x[ch][i]) by {
        lemma_model_stands::<T, K>(m, p, x, key, i as nat);
        assert(K::emit(m, p, column(x, i), key_column(key, i))[ch] == g(
            ch,
            i,
            column(x, i)[ch],
        ));
    }
    lemma_frames_are_mapped::<T, K>(m, p, x, key, x, n, g);
}

proof fn lemma_model_stands<T: Sample, K: FrameModel<T>>(
    m: K::Model,
    p: K::Params,
    x: Seq<Seq<T>>,
    key: Seq<Seq<Seq<T>>>,
    n: nat,
)
    requires
        forall|c: Seq<T>, k: Seq<Seq<T>>| #[trigger] K::next(m, p, c, k) == m,
    ensures
        model_after::<T, K>(m, p, x, key, n) == m,
    decreases n,
{
    if n > 0 {
        lemma_model_stands::<T, K>(m, p, x, key, (n - 1) as nat);
    }
}

// ---------------------------------------------------------------------------
// With one state per channel
// ---------------------------------------------------------------------------

/// What a kernel does to one sample of one channel, with values that are
/// constant over a run.
pub trait LaneStep<T> {
    /// The state of one channel.
    type Lane;

    /// The state that contracts speak of.
    type State;

    spec fn state(lane: Self::Lane) -> Self::State;

    /// The state is one that this step can be applied to.
    spec fn fits(&self, s: Self::State) -> bool;

    /// The state after sample `i` of the run, which is `x`.
    spec fn next(&self, i: int, s: Self::State, x: T) -> Self::State;

    /// What is written for sample `i` of the run, which is `x`.
    spec fn out(&self, i: int, s: Self::State, x: T) -> T;

    proof fn step_keeps_fit(&self, i: int, s: Self::State, x: T)
        requires
            self.fits(s),
        ensures
            self.fits(self.next(i, s, x)),
    ;

    fn step(&self, i: usize, lane: &mut Self::Lane, x: T) -> (y: T)
        requires
            self.fits(Self::state(*old(lane))),
        ensures
            y == self.out(i as int, Self::state(*old(lane)), x),
            Self::state(*final(lane)) == self.next(i as int, Self::state(*old(lane)), x),
    ;
}

/// The state of one channel after the first `n` samples of `xs`.
pub open spec fn lane_after<T, L: LaneStep<T>>(step: L, s: L::State, xs: Seq<T>, n: nat) -> L::State
    decreases n,
{
    if n == 0 {
        s
    } else {
        step.next(n - 1, lane_after::<T, L>(step, s, xs, (n - 1) as nat), xs[n - 1])
    }
}

/// What one channel is rendered to.
pub open spec fn lane_run<T, L: LaneStep<T>>(step: L, s: L::State, xs: Seq<T>) -> Seq<T> {
    Seq::new(xs.len(), |i: int| step.out(i, lane_after::<T, L>(step, s, xs, i as nat), xs[i]))
}

/// The states of all channels.
pub open spec fn lane_states<T, L: LaneStep<T>>(lanes: Seq<L::Lane>) -> Seq<L::State> {
    Seq::new(lanes.len(), |c: int| L::state(lanes[c]))
}

/// The states of all channels after frame `i` of the run, which is `x`.
pub open spec fn lanes_next<T, L: LaneStep<T>>(
    step: L,
    i: int,
    s: Seq<L::State>,
    x: Seq<T>,
) -> Seq<L::State> {
    Seq::new(s.len(), |c: int| step.next(i, s[c], x[c]))
}

/// Every channel's state is one that the step can be applied to.
pub open spec fn lanes_fit<T, L: LaneStep<T>>(step: L, s: Seq<L::State>) -> bool {
    forall|c: int| 0 <= c < s.len() ==> step.fits(#[trigger] s[c])
}

/// Running channels keeps their states fit.
pub proof fn lemma_lanes_stay_fit<T, L: LaneStep<T>>(
    step: L,
    s: Seq<L::State>,
    x: Seq<Seq<T>>,
    n: nat,
)
    requires
        lanes_fit::<T, L>(step, s),
    ensures
        lanes_fit::<T, L>(step, lanes_after::<T, L>(step, s, x, n)),
{
    let after = lanes_after::<T, L>(step, s, x, n);
    assert forall|c: int| 0 <= c < after.len() implies step.fits(#[trigger] after[c]) by {
        assert(step.fits(s[c]));
        lemma_lane_stays_fit::<T, L>(step, s[c], x[c], n);
    }
}

proof fn lemma_lane_stays_fit<T, L: LaneStep<T>>(step: L, s: L::State, xs: Seq<T>, n: nat)
    requires
        step.fits(s),
    ensures
        step.fits(lane_after::<T, L>(step, s, xs, n)),
    decreases n,
{
    if n > 0 {
        lemma_lane_stays_fit::<T, L>(step, s, xs, (n - 1) as nat);
        step.step_keeps_fit(
            n - 1,
            lane_after::<T, L>(step, s, xs, (n - 1) as nat),
            xs[n - 1],
        );
    }
}

/// What is written for frame `i` of the run, which is `x`.
pub open spec fn lanes_out<T, L: LaneStep<T>>(
    step: L,
    i: int,
    s: Seq<L::State>,
    x: Seq<T>,
) -> Seq<T> {
    Seq::new(s.len(), |c: int| step.out(i, s[c], x[c]))
}

/// The states of all channels after a run.
pub open spec fn lanes_after<T, L: LaneStep<T>>(
    step: L,
    s: Seq<L::State>,
    x: Seq<Seq<T>>,
    n: nat,
) -> Seq<L::State> {
    Seq::new(s.len(), |c: int| lane_after::<T, L>(step, s[c], x[c], n))
}

/// What a run is rendered to.
pub open spec fn lanes_run<T, L: LaneStep<T>>(step: L, s: Seq<L::State>, x: Seq<Seq<T>>) -> Seq<
    Seq<T>,
> {
    Seq::new(x.len(), |c: int| lane_run::<T, L>(step, s[c], x[c]))
}

/// Run one channel.
pub fn run_plane<T: Copy, L: LaneStep<T>>(step: &L, lane: &mut L::Lane, buf: &mut [T])
    requires
        step.fits(L::state(*old(lane))),
    ensures
        step.fits(L::state(*final(lane))),
        L::state(*final(lane)) == lane_after::<T, L>(
            *step,
            L::state(*old(lane)),
            old(buf)@,
            old(buf)@.len(),
        ),
        final(buf)@ == lane_run::<T, L>(*step, L::state(*old(lane)), old(buf)@),
{
    let n: usize = buf.len();
    let ghost s0 = L::state(*lane);
    let ghost xs = buf@;
    let mut i: usize = 0;
    while i < n
        invariant
            0 <= i <= n,
            n == xs.len(),
            xs == old(buf)@,
            s0 == L::state(*old(lane)),
            buf@.len() == n,
            step.fits(L::state(*lane)),
            L::state(*lane) == lane_after::<T, L>(*step, s0, xs, i as nat),
            forall|j: int| 0 <= j < i ==> #[trigger] buf@[j] == lane_run::<T, L>(*step, s0, xs)[j],
            forall|j: int| i <= j < n ==> #[trigger] buf@[j] == xs[j],
        decreases n - i,
    {
        let x = buf[i];
        proof {
            step.step_keeps_fit(i as int, L::state(*lane), x);
        }
        let y = step.step(i, lane, x);
        buf[i] = y;
        i += 1;
    }
    assert(buf@ =~= lane_run::<T, L>(*step, s0, xs));
}

/// Run every channel of the range with its own state.
pub fn run_lanes<T: Copy, L: LaneStep<T>>(
    step: &L,
    lanes: &mut Vec<L::Lane>,
    io: &mut SubBlock<'_, '_, '_, T>,
)
    requires
        old(io).wf(),
        old(lanes)@.len() == old(io).io.output().len(),
        forall|c: int|
            0 <= c < old(lanes)@.len() ==> step.fits(L::state(#[trigger] old(lanes)@[c])),
    ensures
        final(lanes)@.len() == old(lanes)@.len(),
        forall|c: int|
            0 <= c < final(lanes)@.len() ==> step.fits(L::state(#[trigger] final(lanes)@[c])),
        lane_states::<T, L>(final(lanes)@) == lanes_after::<T, L>(
            *step,
            lane_states::<T, L>(old(lanes)@),
            old(io).out_run(),
            old(io).len as nat,
        ),
        old(io).rerun(
            final(io),
            lanes_run::<T, L>(*step, lane_states::<T, L>(old(lanes)@), old(io).out_run()),
        ),
        *final(final(io).io) == *final(old(io).io),
        final(final(io).io.table())@ == final(old(io).io.table())@,
        forall|c: int|
            0 <= c < old(io).io.output().len() ==> final(#[trigger] final(io).io.plane(c))@
                == final(old(io).io.plane(c))@,
{
    let channels: usize = io.channels();
    let ghost before = io.out_run();
    let ghost s0 = lane_states::<T, L>(lanes@);
    let ghost mut done = before;
    let mut ch: usize = 0;
    proof {
        lemma_rerun_none(io);
    }
    while ch < channels
        invariant
            0 <= ch <= channels,
            channels == before.len(),
            channels == old(io).io.output().len(),
            channels == lanes@.len(),
            channels == s0.len(),
            s0 == lane_states::<T, L>(old(lanes)@),
            old(lanes)@.len() == channels,
            old(io).wf(),
            io.wf(),
            io.io.output().len() == channels,
            before == old(io).out_run(),
            done.len() == channels,
            old(io).rerun(io, done),
            io.out_run() == done,
            forall|c: int| 0 <= c < channels ==> (#[trigger] done[c]).len() == old(io).len,
            forall|c: int| 0 <= c < channels ==> (#[trigger] before[c]).len() == old(io).len,
            forall|c: int|
                0 <= c < ch ==> #[trigger] done[c] == lane_run::<T, L>(*step, s0[c], before[c]),
            forall|c: int| ch <= c < channels ==> #[trigger] done[c] == before[c],
            forall|c: int|
                0 <= c < channels ==> step.fits(L::state(#[trigger] lanes@[c])),
            forall|c: int|
                0 <= c < ch ==> L::state(#[trigger] lanes@[c]) == lane_after::<T, L>(
                    *step,
                    s0[c],
                    before[c],
                    old(io).len as nat,
                ),
            forall|c: int| ch <= c < channels ==> L::state(#[trigger] lanes@[c]) == s0[c],
            *final(io.io) == *final(old(io).io),
            final(io.io.table())@ == final(old(io).io.table())@,
            forall|c: int|
                0 <= c < channels ==> final(#[trigger] io.io.plane(c))@
                    == final(old(io).io.plane(c))@,
        decreases channels - ch,
    {
        let ghost mid = *io;
        let ghost run = lane_run::<T, L>(*step, s0[ch as int], before[ch as int]);
        assert(done[ch as int] == before[ch as int]);
        run_plane(step, &mut lanes[ch], io.output_mut(ch));
        proof {
            lemma_rerun_again(*old(io), mid, *io, done, ch as int, run);
            done = done.update(ch as int, run);
        }
        ch += 1;
    }
    proof {
        assert(done =~= lanes_run::<T, L>(*step, s0, before));
        assert(lane_states::<T, L>(lanes@) =~= lanes_after::<T, L>(
            *step,
            s0,
            before,
            old(io).len as nat,
        ));
    }
}

/// Run one channel from `inp` to `out`.
fn run_split_plane<T: Copy, L: LaneStep<T>>(
    step: &L,
    lane: &mut L::Lane,
    inp: &[T],
    out: &mut [T],
)
    requires
        step.fits(L::state(*old(lane))),
        inp@.len() == old(out)@.len(),
    ensures
        step.fits(L::state(*final(lane))),
        L::state(*final(lane)) == lane_after::<T, L>(
            *step,
            L::state(*old(lane)),
            inp@,
            inp@.len(),
        ),
        final(out)@ == lane_run::<T, L>(*step, L::state(*old(lane)), inp@),
{
    let n: usize = inp.len();
    let ghost s0 = L::state(*lane);
    let mut i: usize = 0;
    while i < n
        invariant
            0 <= i <= n,
            n == inp@.len(),
            s0 == L::state(*old(lane)),
            out@.len() == n,
            step.fits(L::state(*lane)),
            L::state(*lane) == lane_after::<T, L>(*step, s0, inp@, i as nat),
            forall|j: int|
                0 <= j < i ==> #[trigger] out@[j] == lane_run::<T, L>(*step, s0, inp@)[j],
        decreases n - i,
    {
        let x = inp[i];
        proof {
            step.step_keeps_fit(i as int, L::state(*lane), x);
        }
        let y = step.step(i, lane, x);
        out[i] = y;
        i += 1;
    }
    assert(out@ =~= lane_run::<T, L>(*step, s0, inp@));
}

/// Run every channel of a split range with its own state.
pub fn run_split_lanes<T: Copy, L: LaneStep<T>>(
    step: &L,
    lanes: &mut Vec<L::Lane>,
    io: &mut SubBlock<'_, '_, '_, T>,
)
    requires
        old(io).wf(),
        old(io).io.mode() == IoMode::Split,
        old(io).io.input().len() == old(io).io.output().len(),
        old(lanes)@.len() == old(io).io.output().len(),
        forall|c: int|
            0 <= c < old(lanes)@.len() ==> step.fits(L::state(#[trigger] old(lanes)@[c])),
    ensures
        final(lanes)@.len() == old(lanes)@.len(),
        forall|c: int|
            0 <= c < final(lanes)@.len() ==> step.fits(L::state(#[trigger] final(lanes)@[c])),
        lane_states::<T, L>(final(lanes)@) == lanes_after::<T, L>(
            *step,
            lane_states::<T, L>(old(lanes)@),
            old(io).in_run(),
            old(io).len as nat,
        ),
        old(io).rerun(
            final(io),
            lanes_run::<T, L>(*step, lane_states::<T, L>(old(lanes)@), old(io).in_run()),
        ),
        *final(final(io).io) == *final(old(io).io),
        final(final(io).io.table())@ == final(old(io).io.table())@,
        forall|c: int|
            0 <= c < old(io).io.output().len() ==> final(#[trigger] final(io).io.plane(c))@
                == final(old(io).io.plane(c))@,
{
    let channels: usize = io.channels();
    let ghost before = io.out_run();
    let ghost xs = io.in_run();
    let ghost s0 = lane_states::<T, L>(lanes@);
    let ghost mut done = before;
    let mut ch: usize = 0;
    proof {
        lemma_rerun_none(io);
    }
    while ch < channels
        invariant
            0 <= ch <= channels,
            channels == before.len(),
            channels == xs.len(),
            channels == old(io).io.output().len(),
            channels == lanes@.len(),
            channels == s0.len(),
            s0 == lane_states::<T, L>(old(lanes)@),
            old(lanes)@.len() == channels,
            old(io).wf(),
            old(io).io.mode() == IoMode::Split,
            io.wf(),
            io.io.mode() == IoMode::Split,
            io.io.output().len() == channels,
            io.io.input() == old(io).io.input(),
            old(io).io.input().len() == channels,
            before == old(io).out_run(),
            xs == old(io).in_run(),
            io.in_run() == xs,
            done.len() == channels,
            old(io).rerun(io, done),
            io.out_run() == done,
            forall|c: int| 0 <= c < channels ==> (#[trigger] done[c]).len() == old(io).len,
            forall|c: int| 0 <= c < channels ==> (#[trigger] xs[c]).len() == old(io).len,
            forall|c: int|
                0 <= c < ch ==> #[trigger] done[c] == lane_run::<T, L>(*step, s0[c], xs[c]),
            forall|c: int|
                0 <= c < channels ==> step.fits(L::state(#[trigger] lanes@[c])),
            forall|c: int|
                0 <= c < ch ==> L::state(#[trigger] lanes@[c]) == lane_after::<T, L>(
                    *step,
                    s0[c],
                    xs[c],
                    old(io).len as nat,
                ),
            forall|c: int| ch <= c < channels ==> L::state(#[trigger] lanes@[c]) == s0[c],
            *final(io.io) == *final(old(io).io),
            final(io.io.table())@ == final(old(io).io.table())@,
            forall|c: int|
                0 <= c < channels ==> final(#[trigger] io.io.plane(c))@
                    == final(old(io).io.plane(c))@,
        decreases channels - ch,
    {
        let ghost mid = *io;
        let ghost run = lane_run::<T, L>(*step, s0[ch as int], xs[ch as int]);
        {
            let (inp, out) = io.split_channel(ch);
            run_split_plane(step, &mut lanes[ch], inp, out);
        }
        proof {
            lemma_rerun_again(*old(io), mid, *io, done, ch as int, run);
            done = done.update(ch as int, run);
        }
        ch += 1;
    }
    proof {
        assert(done =~= lanes_run::<T, L>(*step, s0, xs));
        assert(lane_states::<T, L>(lanes@) =~= lanes_after::<T, L>(
            *step,
            s0,
            xs,
            old(io).len as nat,
        ));
    }
}

/// A kernel whose frames are its channels' samples renders a range by running
/// each channel over `buf`: its input, or for a source what it overwrites.
pub proof fn lemma_lanes_are_frames<T: Sample, K: FrameModel<T>, L: LaneStep<T>>(
    step: L,
    wrap: spec_fn(Seq<L::State>, int) -> K::Model,
    s: Seq<L::State>,
    p: K::Params,
    x: Seq<Seq<T>>,
    key: Seq<Seq<Seq<T>>>,
    buf: Seq<Seq<T>>,
    n: nat,
)
    requires
        buf.len() == s.len(),
        lanes_fit::<T, L>(step, s),
        forall|ch: int| 0 <= ch < buf.len() ==> (#[trigger] buf[ch]).len() == n,
        forall|t: Seq<L::State>, i: int|
            t.len() == s.len() && lanes_fit::<T, L>(step, t) && 0 <= i < n ==> #[trigger] K::next(
                wrap(t, i),
                p,
                column(x, i),
                key_column(key, i),
            ) == wrap(lanes_next::<T, L>(step, i, t, column(buf, i)), i + 1),
        forall|t: Seq<L::State>, i: int|
            t.len() == s.len() && lanes_fit::<T, L>(step, t) && 0 <= i < n ==> #[trigger] K::emit(
                wrap(t, i),
                p,
                column(x, i),
                key_column(key, i),
            ) == lanes_out::<T, L>(step, i, t, column(buf, i)),
    ensures
        model_after::<T, K>(wrap(s, 0), p, x, key, n) == wrap(
            lanes_after::<T, L>(step, s, buf, n),
            n as int,
        ),
        rendered::<T, K>(wrap(s, 0), p, x, key, buf.len(), n) == lanes_run::<T, L>(step, s, buf),
{
    lemma_lane_models::<T, K, L>(step, wrap, s, p, x, key, buf, n);
    let out = rendered::<T, K>(wrap(s, 0), p, x, key, buf.len(), n);
    let run = lanes_run::<T, L>(step, s, buf);
    assert forall|ch: int| 0 <= ch < buf.len() implies out[ch] == run[ch] by {
        assert(buf[ch].len() == n);
        assert forall|i: int| 0 <= i < n implies out[ch][i] == run[ch][i] by {
            lemma_lane_models::<T, K, L>(step, wrap, s, p, x, key, buf, i as nat);
            let t = lanes_after::<T, L>(step, s, buf, i as nat);
            lemma_lanes_stay_fit::<T, L>(step, s, buf, i as nat);
            assert(out[ch][i] == rendered_frame::<T, K>(wrap(s, 0), p, x, key, i)[ch]);
            assert(K::emit(wrap(t, i), p, column(x, i), key_column(key, i)) == lanes_out::<T, L>(
                step,
                i,
                t,
                column(buf, i),
            ));
        }
        assert(out[ch] =~= run[ch]);
    }
    assert(out =~= run);
}

proof fn lemma_lane_models<T: Sample, K: FrameModel<T>, L: LaneStep<T>>(
    step: L,
    wrap: spec_fn(Seq<L::State>, int) -> K::Model,
    s: Seq<L::State>,
    p: K::Params,
    x: Seq<Seq<T>>,
    key: Seq<Seq<Seq<T>>>,
    buf: Seq<Seq<T>>,
    n: nat,
)
    requires
        buf.len() == s.len(),
        lanes_fit::<T, L>(step, s),
        forall|t: Seq<L::State>, i: int|
            t.len() == s.len() && lanes_fit::<T, L>(step, t) && 0 <= i < n ==> #[trigger] K::next(
                wrap(t, i),
                p,
                column(x, i),
                key_column(key, i),
            ) == wrap(lanes_next::<T, L>(step, i, t, column(buf, i)), i + 1),
    ensures
        model_after::<T, K>(wrap(s, 0), p, x, key, n) == wrap(
            lanes_after::<T, L>(step, s, buf, n),
            n as int,
        ),
    decreases n,
{
    if n == 0 {
        assert(lanes_after::<T, L>(step, s, buf, 0) =~= s);
    } else {
        lemma_lane_models::<T, K, L>(step, wrap, s, p, x, key, buf, (n - 1) as nat);
        let t = lanes_after::<T, L>(step, s, buf, (n - 1) as nat);
        lemma_lanes_stay_fit::<T, L>(step, s, buf, (n - 1) as nat);
        assert(lanes_next::<T, L>(step, n - 1, t, column(buf, n - 1)) =~= lanes_after::<T, L>(
            step,
            s,
            buf,
            n,
        ));
        assert(K::next(wrap(t, n - 1), p, column(x, n - 1), key_column(key, n - 1)) == wrap(
            lanes_next::<T, L>(step, n - 1, t, column(buf, n - 1)),
            n as int,
        ));
    }
}

/// Two states that one frame makes equal render a range alike.
pub proof fn lemma_same_start<T: Sample, K: FrameModel<T>>(
    m: K::Model,
    other: K::Model,
    p: K::Params,
    x: Seq<Seq<T>>,
    key: Seq<Seq<Seq<T>>>,
    width: nat,
    n: nat,
)
    requires
        n >= 1,
        forall|c: Seq<T>, k: Seq<Seq<T>>| #[trigger]
            K::next(m, p, c, k) == K::next(other, p, c, k),
        forall|c: Seq<T>, k: Seq<Seq<T>>| #[trigger]
            K::emit(m, p, c, k) == K::emit(other, p, c, k),
    ensures
        model_after::<T, K>(m, p, x, key, n) == model_after::<T, K>(other, p, x, key, n),
        rendered::<T, K>(m, p, x, key, width, n) == rendered::<T, K>(other, p, x, key, width, n),
{
    lemma_same_models::<T, K>(m, other, p, x, key, n);
    let a = rendered::<T, K>(m, p, x, key, width, n);
    let b = rendered::<T, K>(other, p, x, key, width, n);
    assert forall|ch: int| 0 <= ch < width implies a[ch] == b[ch] by {
        assert forall|i: int| 0 <= i < n implies a[ch][i] == b[ch][i] by {
            assert(a[ch][i] == rendered_frame::<T, K>(m, p, x, key, i)[ch]);
            assert(b[ch][i] == rendered_frame::<T, K>(other, p, x, key, i)[ch]);
            if i > 0 {
                lemma_same_models::<T, K>(m, other, p, x, key, i as nat);
            }
        }
        assert(a[ch] =~= b[ch]);
    }
    assert(a =~= b);
}

proof fn lemma_same_models<T: Sample, K: FrameModel<T>>(
    m: K::Model,
    other: K::Model,
    p: K::Params,
    x: Seq<Seq<T>>,
    key: Seq<Seq<Seq<T>>>,
    n: nat,
)
    requires
        n >= 1,
        forall|c: Seq<T>, k: Seq<Seq<T>>| #[trigger]
            K::next(m, p, c, k) == K::next(other, p, c, k),
    ensures
        model_after::<T, K>(m, p, x, key, n) == model_after::<T, K>(other, p, x, key, n),
    decreases n,
{
    if n > 1 {
        lemma_same_models::<T, K>(m, other, p, x, key, (n - 1) as nat);
    } else {
        reveal_with_fuel(model_after, 2);
        assert(K::next(m, p, column(x, 0), key_column(key, 0)) == K::next(
            other,
            p,
            column(x, 0),
            key_column(key, 0),
        ));
    }
}

// ---------------------------------------------------------------------------
// Draining
// ---------------------------------------------------------------------------

/// The first `n` samples of every channel.
pub open spec fn heads<T>(planes: Seq<Seq<T>>, n: int) -> Seq<Seq<T>> {
    Seq::new(planes.len(), |ch: int| planes[ch].subrange(0, n))
}

/// Run the first `want` samples of every channel of `out` with its own state.
pub fn drain_lanes<T: Copy, L: LaneStep<T>>(
    step: &L,
    lanes: &mut Vec<L::Lane>,
    out: &mut AudioBlockMut<'_, '_, T>,
    want: usize,
)
    requires
        old(out).wf(),
        want <= old(out).length(),
        old(lanes)@.len() == old(out).samples().len(),
        forall|c: int|
            0 <= c < old(lanes)@.len() ==> step.fits(L::state(#[trigger] old(lanes)@[c])),
    ensures
        final(out).wf(),
        final(out).length() == old(out).length(),
        agree_from(old(out).samples(), final(out).samples(), want as int),
        final(final(out).table())@ == final(old(out).table())@,
        forall|c: int|
            0 <= c < old(out).samples().len() ==> final(#[trigger] final(out).plane(c))@
                == final(old(out).plane(c))@,
        heads(final(out).samples(), want as int) == lanes_run::<T, L>(
            *step,
            lane_states::<T, L>(old(lanes)@),
            heads(old(out).samples(), want as int),
        ),
        final(lanes)@.len() == old(lanes)@.len(),
        forall|c: int|
            0 <= c < final(lanes)@.len() ==> step.fits(L::state(#[trigger] final(lanes)@[c])),
        lane_states::<T, L>(final(lanes)@) == lanes_after::<T, L>(
            *step,
            lane_states::<T, L>(old(lanes)@),
            heads(old(out).samples(), want as int),
            want as nat,
        ),
{
    let channels: usize = out.channels();
    let frames: usize = out.frames();
    let ghost before = out.samples();
    let ghost hs = heads(before, want as int);
    let ghost s0 = lane_states::<T, L>(lanes@);
    let mut ch: usize = 0;
    while ch < channels
        invariant
            0 <= ch <= channels,
            channels == before.len(),
            channels == lanes@.len(),
            channels == s0.len(),
            s0 == lane_states::<T, L>(old(lanes)@),
            old(lanes)@.len() == channels,
            before == old(out).samples(),
            frames == old(out).length(),
            rectangular(before, frames as nat),
            want <= frames,
            hs == heads(before, want as int),
            out.samples().len() == channels,
            out.length() == frames,
            final(out.table())@ == final(old(out).table())@,
            forall|c: int|
                0 <= c < channels ==> final(#[trigger] out.plane(c))@ == final(old(out).plane(c))@,
            forall|c: int| 0 <= c < channels ==> (#[trigger] out.samples()[c]).len() == frames,
            forall|c: int, i: int|
                0 <= c < channels && want <= i < frames ==> (#[trigger] out.samples()[c][i])
                    == before[c][i],
            forall|c: int|
                0 <= c < ch ==> (#[trigger] out.samples()[c]).subrange(0, want as int)
                    == lane_run::<T, L>(*step, s0[c], hs[c]),
            forall|c: int| ch <= c < channels ==> #[trigger] out.samples()[c] == before[c],
            forall|c: int|
                0 <= c < channels ==> step.fits(L::state(#[trigger] lanes@[c])),
            forall|c: int|
                0 <= c < ch ==> L::state(#[trigger] lanes@[c]) == lane_after::<T, L>(
                    *step,
                    s0[c],
                    hs[c],
                    want as nat,
                ),
            forall|c: int| ch <= c < channels ==> L::state(#[trigger] lanes@[c]) == s0[c],
        decreases channels - ch,
    {
        let ghost earlier = out.samples();
        assert(out.samples()[ch as int] == before[ch as int]);
        {
            let (head, tail) = out.channel_mut(ch).split_at_mut(want);
            run_plane(step, &mut lanes[ch], head);
        }
        proof {
            let now = out.samples();
            let run = lane_run::<T, L>(*step, s0[ch as int], hs[ch as int]);
            assert(now[ch as int] == run + before[ch as int].subrange(want as int, frames as int));
            assert(now[ch as int].subrange(0, want as int) =~= run);
            assert forall|c: int, i: int|
                0 <= c < channels && want <= i < frames implies (#[trigger] now[c][i])
                == before[c][i] by {
                if c != ch {
                    assert(now[c] == earlier[c]);
                }
            }
            assert forall|c: int| 0 <= c < ch + 1 implies (#[trigger] now[c]).subrange(
                0,
                want as int,
            ) == lane_run::<T, L>(*step, s0[c], hs[c]) by {
                if c < ch {
                    assert(now[c] == earlier[c]);
                }
            }
        }
        ch += 1;
    }
    proof {
        assert(heads(out.samples(), want as int) =~= lanes_run::<T, L>(*step, s0, hs));
        assert(lane_states::<T, L>(lanes@) =~= lanes_after::<T, L>(*step, s0, hs, want as nat));
    }
}

} // verus!
