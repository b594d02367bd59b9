//! Block sizes do not show.
//!
//! A kernel makes of a stream what it makes of the stream as one block, whatever
//! consecutive blocks the stream is cut into.

use crate::contract::block::{rectangular, IoMode};
use crate::contract::context::ProcessContext;
use crate::contract::param::{ParamEvent, ParamInfo, Smoothing};
use crate::contract::spec::ProcessSpec;
use crate::contract::traits::{sorted_events, Kernel, Params, Processor};
use crate::dsp::driver::{drive, KernelProcessor};
use crate::dsp::lifecycle::equal_kernels_prepare_alike;
use crate::dsp::schedule::{
    a_target_acts_from_its_boundary, bank_after, block_division_does_not_show, boundary_from, cut,
    early_events, first_part, frame_out, frame_params, kernel_after, late_events, lemma_cut,
    lemma_cut_is, lemma_cut_monotone, lemma_first_bank, lemma_second_bank, second_part, well_shaped,
    Block,
};
use crate::dsp::smoother::{bank_values, slot, sound_bank, Smoother, SmootherBank};
use crate::number::{nil, within, Order, Real, Sample};
use crate::spectral::band::{band_blocks_join, head, lane_after, BandPlan, BandState};
use crate::spectral::fft::Transform;
use crate::spectral::spectral_filter::{lane_input, lane_inputs, SpectralFilter};
use crate::testing::harness::{events_in, falls_into, rebased};
use crate::testing::replay::{replayable, shown, Run, Stream};
use vstd::prelude::*;

verus! {

/// A stream as one block.
pub open spec fn whole<T: Sample>(s: Stream<T>) -> Block<T> {
    Block { x: s.input, key: s.key, events: s.events, frames: s.frames, pos: 0 }
}

/// The events of a part of sorted events lie between two cuts.
proof fn lemma_events_between<R>(events: Seq<ParamEvent<R>>, lo: int, hi: int, k: int)
    requires
        sorted_events(events),
        0 <= lo <= hi,
        0 <= k <= events.len(),
    ensures
        events_in(events.take(k), lo, hi) == Seq::new(
            (if k <= cut(events, lo) {
                0
            } else if k <= cut(events, hi) {
                k - cut(events, lo)
            } else {
                cut(events, hi) - cut(events, lo)
            }) as nat,
            |i: int| rebased(events[cut(events, lo) + i], lo),
        ),
    decreases k,
{
    let c = cut(events, lo);
    let d = cut(events, hi);
    lemma_cut(events, lo);
    lemma_cut(events, hi);
    lemma_cut_monotone(events, lo, hi);
    let part = events.take(k);
    if k > 0 {
        lemma_events_between(events, lo, hi, k - 1);
        assert(part.drop_last() =~= events.take(k - 1));
        assert(part.last() == events[k - 1]);
        assert(falls_into(events[k - 1], lo, hi) == (c <= k - 1 < d));
    }
    assert(events_in(part, lo, hi) =~= Seq::new(
        (if k <= c {
            0
        } else if k <= d {
            k - c
        } else {
            d - c
        }) as nat,
        |i: int| rebased(events[c + i], lo),
    ));
}

/// The events of a part, counted from its start.
proof fn lemma_part_events<R>(events: Seq<ParamEvent<R>>, lo: nat, hi: nat)
    requires
        sorted_events(events),
        lo <= hi,
    ensures
        events_in(events, lo as int, hi as int) == early_events(
            late_events(events, lo),
            (hi - lo) as nat,
        ),
        sorted_events(late_events(events, lo)),
        late_events(late_events(events, lo), (hi - lo) as nat) == late_events(events, hi),
{
    let c = cut(events, lo as int);
    let d = cut(events, hi as int);
    let late = late_events(events, lo);
    lemma_cut(events, lo as int);
    lemma_cut(events, hi as int);
    lemma_cut_monotone(events, lo as int, hi as int);
    assert(events.take(events.len() as int) =~= events);
    lemma_events_between(events, lo as int, hi as int, events.len() as int);
    assert forall|j: int| 0 <= j < late.len() implies (#[trigger] late[j]).offset == events[c
        + j].offset - lo by {
        assert(events[c + j].offset >= lo);
    }
    assert forall|p: int, q: int| 0 <= p <= q < late.len() implies (#[trigger] late[p]).offset <= (
    #[trigger] late[q]).offset by {
        assert(events[c + p].offset <= events[c + q].offset);
    }
    assert forall|j: int| 0 <= j < d - c implies (#[trigger] late[j]).offset < hi - lo by {
        assert(events[c + j].offset < hi);
    }
    if d - c < late.len() {
        assert(late[d - c].offset == events[d].offset - lo);
    }
    lemma_cut_is(late, hi - lo, d - c);
    assert(events_in(events, lo as int, hi as int) =~= early_events(late, (hi - lo) as nat));
    let later = late_events(late, (hi - lo) as nat);
    assert forall|j: int| 0 <= j < later.len() implies later[j] == late_events(events, hi)[j] by {
        assert(late[d - c + j].offset == events[d + j].offset - lo);
        assert(events[d + j].offset >= hi);
    }
    assert(later =~= late_events(events, hi));
}

/// The block that a processor is shown of `[lo, hi)` is the first part of the
/// stream from `lo` on, and the stream from `hi` on is the second.
proof fn lemma_parts<T: Sample>(s: Stream<T>, lo: nat, hi: nat)
    requires
        replayable(s),
        s.output.len() > 0,
        lo <= hi <= s.frames,
    ensures
        ({
            let x = shown(s, lo as int, hi as int);
            let b = second_part(whole(s), lo);
            &&& well_shaped(b)
            &&& Block { x: x.input, key: x.key, events: x.events, frames: x.frames, pos: x.pos }
                == first_part(b, (hi - lo) as nat)
            &&& second_part(b, (hi - lo) as nat) == second_part(whole(s), hi)
        }),
{
    let x = shown(s, lo as int, hi as int);
    let b = second_part(whole(s), lo);
    let n = (hi - lo) as nat;
    lemma_part_events(s.events, lo, hi);
    assert forall|ch: int| 0 <= ch < s.input.len() implies x.input[ch] == first_part(b, n).x[ch]
        && second_part(b, n).x[ch] == second_part(whole(s), hi).x[ch] && (
    #[trigger] b.x[ch]).len() >= b.frames by {
        assert(s.input[ch].len() >= s.frames);
        assert(x.input[ch] =~= first_part(b, n).x[ch]);
        assert(second_part(b, n).x[ch] =~= second_part(whole(s), hi).x[ch]);
    }
    assert(x.input =~= first_part(b, n).x);
    assert(second_part(b, n).x =~= second_part(whole(s), hi).x);
    assert forall|bus: int| 0 <= bus < s.key.len() implies (#[trigger] x.key[bus]) == first_part(
        b,
        n,
    ).key[bus] && second_part(b, n).key[bus] == second_part(whole(s), hi).key[bus] by {
        let early = first_part(b, n).key[bus];
        let late = second_part(b, n).key[bus];
        let rest = second_part(whole(s), hi).key[bus];
        assert forall|ch: int|
            0 <= ch < s.key[bus].len() implies x.key[bus][ch] == #[trigger] early[ch]
            && late[ch] == rest[ch] by {
            assert(s.key[bus][ch].len() >= s.frames);
            assert(x.key[bus][ch] =~= early[ch]);
            assert(late[ch] =~= rest[ch]);
        }
        assert(x.key[bus] =~= early);
        assert forall|ch: int| 0 <= ch < rest.len() implies #[trigger] late[ch] == rest[ch] by {
            assert(x.key[bus][ch] == early[ch]);
        }
        assert(late =~= rest);
    }
    assert(x.key =~= first_part(b, n).key);
    assert forall|bus: int| 0 <= bus < s.key.len() implies #[trigger] second_part(b, n).key[bus]
        == second_part(whole(s), hi).key[bus] by {
        assert(x.key[bus] == first_part(b, n).key[bus]);
    }
    assert(second_part(b, n).key =~= second_part(whole(s), hi).key);
    assert forall|bus: int, ch: int|
        0 <= bus < b.key.len() && 0 <= ch < b.key[bus].len() implies (
    #[trigger] b.key[bus][ch]).len() >= b.frames by {
        assert(s.key[bus][ch].len() >= s.frames);
    }
}

/// Every block of a run was processed: block `k` took the kernel from one state
/// to the next and wrote what `out` holds there.
pub open spec fn ran<T: Sample, K: Kernel<T>>(
    run: Run<KernelProcessor<K, T>>,
    s: Stream<T>,
    out: Seq<Seq<T>>,
) -> bool {
    forall|k: int|
        0 <= k < run.blocks() ==> (#[trigger] run.states[k]).processed(
            run.view(s, k),
            &run.states[k + 1],
            run.part(out, k),
        )
}

/// A run whose blocks are calls of [`process`](Processor::process) has processed
/// every block.
pub proof fn calls_process_every_block<T: Sample, K: Kernel<T>>(
    run: Run<KernelProcessor<K, T>>,
    s: Stream<T>,
    out: Seq<Seq<T>>,
)
    requires
        run.divides(s.frames as int),
        forall|k: int|
            0 <= k < run.blocks() && #[trigger] run.goes_on(k, s.frames as int)
                ==> exists|p: &mut KernelProcessor<K, T>, c: &mut ProcessContext<'_, '_, T>|
                #[trigger] call_ensures(
                    <KernelProcessor<K, T> as Processor<T>>::process,
                    (p, c),
                    (),
                ) && *p == run.states[k] && *final(p) == run.states[k + 1] && c.seen() == run.view(
                    s,
                    k,
                ) && final(c).main.output() == run.part(out, k),
    ensures
        ran(run, s, out),
{
    assert forall|k: int| 0 <= k < run.blocks() implies (#[trigger] run.states[k]).processed(
        run.view(s, k),
        &run.states[k + 1],
        run.part(out, k),
    ) by {
        assert(run.goes_on(k, s.frames as int));
    }
}

/// From block `k` on, a run is the rest of the stream as one block.
proof fn lemma_rest_of_run<T: Sample, K: Kernel<T>>(
    run: Run<KernelProcessor<K, T>>,
    s: Stream<T>,
    out: Seq<Seq<T>>,
    k: int,
)
    requires
        replayable(s),
        s.output.len() > 0,
        run.divides(s.frames as int),
        ran(run, s, out),
        out.len() == s.output.len(),
        rectangular(out, s.frames),
        0 <= k < run.cuts.len(),
    ensures
        0 <= run.cuts[k] <= s.frames,
        ({
            let (p, last) = (run.states[k], run.states.last());
            let b = second_part(whole(s), run.cuts[k] as nat);
            &&& last.model() == kernel_after::<T, K>(p.model(), p.bank(), b, b.frames)
            &&& last.bank() == bank_after(p.bank(), b.events, b.frames, b.frames, b.pos)
            &&& last.prepared() == p.prepared()
            &&& forall|ch: int, i: int|
                0 <= ch < out.len() && run.cuts[k] <= i < s.frames ==> #[trigger] out[ch][i]
                    == frame_out::<T, K>(p.model(), p.bank(), b, i - run.cuts[k])[ch]
        }),
    decreases run.cuts.len() - k,
{
    if k < run.blocks() {
        assert(run.goes_on(k, s.frames as int));
        let p = run.states[k];
        let mid = run.states[k + 1];
        let pos = run.cuts[k] as nat;
        let end = run.cuts[k + 1] as nat;
        let n = (end - pos) as nat;
        let b = second_part(whole(s), pos);
        let part = run.part(out, k);
        assert(p.processed(run.view(s, k), &mid, part));
        lemma_parts(s, pos, end);
        lemma_rest_of_run::<T, K>(run, s, out, k + 1);
        block_division_does_not_show::<T, K>(p.model(), p.bank(), b, n);
        let b1 = first_part(b, n);
        let b2 = second_part(b, n);
        assert forall|ch: int, i: int| 0 <= ch < out.len() && pos <= i < s.frames implies (
        #[trigger] out[ch][i]) == frame_out::<T, K>(p.model(), p.bank(), b, i - pos)[ch] by {
            assert(out[ch].len() == s.frames);
            if i < end {
                assert(part[ch][i - pos] == frame_out::<T, K>(
                    p.model(),
                    p.bank(),
                    b1,
                    i - pos,
                )[ch]);
            } else {
                assert(frame_out::<T, K>(mid.model(), mid.bank(), b2, i - end) == frame_out::<T, K>(
                    p.model(),
                    p.bank(),
                    b,
                    n + (i - end),
                ));
            }
        }
    }
}

/// A stream without channels leaves a kernel as it is.
proof fn lemma_run_of_nothing<T: Sample, K: Kernel<T>>(
    run: Run<KernelProcessor<K, T>>,
    s: Stream<T>,
    out: Seq<Seq<T>>,
    k: int,
)
    requires
        s.output.len() == 0,
        run.divides(s.frames as int),
        ran(run, s, out),
        0 <= k < run.cuts.len(),
    ensures
        run.states.last().model() == run.states[k].model(),
        run.states.last().bank() == run.states[k].bank(),
        run.states.last().prepared() == run.states[k].prepared(),
    decreases run.cuts.len() - k,
{
    if k < run.blocks() {
        assert(run.states[k].processed(run.view(s, k), &run.states[k + 1], run.part(out, k)));
        lemma_run_of_nothing::<T, K>(run, s, out, k + 1);
    }
}

/// Block sizes do not show: a stream that is cut into blocks in two ways, of any sizes,
/// is written to the same output and takes a kernel from equal states to equal states.
pub proof fn block_sizes_do_not_show<T: Sample, K: Kernel<T>>(
    s: Stream<T>,
    run_a: Run<KernelProcessor<K, T>>,
    run_b: Run<KernelProcessor<K, T>>,
    out_a: Seq<Seq<T>>,
    out_b: Seq<Seq<T>>,
)
    requires
        replayable(s),
        run_a.divides(s.frames as int),
        run_b.divides(s.frames as int),
        ran(run_a, s, out_a),
        ran(run_b, s, out_b),
        run_a.states[0].model() == run_b.states[0].model(),
        run_a.states[0].bank() == run_b.states[0].bank(),
        out_a.len() == s.output.len(),
        out_b.len() == s.output.len(),
        rectangular(out_a, s.frames),
        rectangular(out_b, s.frames),
    ensures
        out_a == out_b,
        run_a.states.last().model() == run_b.states.last().model(),
        run_a.states.last().bank() == run_b.states.last().bank(),
        run_a.states.last().prepared() == run_a.states[0].prepared(),
        run_b.states.last().prepared() == run_b.states[0].prepared(),
{
    if s.output.len() == 0 {
        lemma_run_of_nothing::<T, K>(run_a, s, out_a, 0);
        lemma_run_of_nothing::<T, K>(run_b, s, out_b, 0);
        assert(out_a =~= out_b);
    } else {
        lemma_rest_of_run::<T, K>(run_a, s, out_a, 0);
        lemma_rest_of_run::<T, K>(run_b, s, out_b, 0);
        assert forall|ch: int| 0 <= ch < out_a.len() implies out_a[ch] == out_b[ch] by {
            assert(out_a[ch].len() == s.frames);
            assert(out_b[ch].len() == s.frames);
            assert(out_a[ch] =~= out_b[ch]);
        }
        assert(out_a =~= out_b);
    }
}

/// Block sizes do not show from the start: equal processors, prepared for one spec and
/// not used since, write the same output for a stream, whatever block sizes each of
/// them is driven with.
pub proof fn prepared_runs_do_not_show_block_sizes<T: Sample, K: Kernel<T>>(
    a: KernelProcessor<K, T>,
    b: KernelProcessor<K, T>,
    spec: ProcessSpec,
    info: Seq<ParamInfo<T::Real>>,
    s: Stream<T>,
    run_a: Run<KernelProcessor<K, T>>,
    run_b: Run<KernelProcessor<K, T>>,
    out_a: Seq<Seq<T>>,
    out_b: Seq<Seq<T>>,
)
    requires
        a.kernel() == b.kernel(),
        a.readied(spec, info, &run_a.states[0], Ok(())),
        b.readied(spec, info, &run_b.states[0], Ok(())),
        replayable(s),
        run_a.divides(s.frames as int),
        run_b.divides(s.frames as int),
        ran(run_a, s, out_a),
        ran(run_b, s, out_b),
        out_a.len() == s.output.len(),
        out_b.len() == s.output.len(),
        rectangular(out_a, s.frames),
        rectangular(out_b, s.frames),
    ensures
        out_a == out_b,
{
    equal_kernels_prepare_alike(a, run_a.states[0], b, run_b.states[0], spec, info);
    block_sizes_do_not_show(s, run_a, run_b, out_a, out_b);
}

/// Part `k` of a stream of `frames` frames lies between `cuts[k]` and `cuts[k + 1]`.
pub open spec fn part_at(cuts: Seq<int>, frames: nat, k: int) -> bool {
    0 <= cuts[k] <= cuts[k + 1] <= frames
}

/// The cuts part a stream of `frames` frames, whatever the sizes of the parts.
pub open spec fn parts(cuts: Seq<int>, frames: nat) -> bool {
    &&& cuts.len() >= 1
    &&& cuts[0] == 0
    &&& cuts.last() == frames
    &&& forall|k: int| 0 <= k < cuts.len() - 1 ==> #[trigger] part_at(cuts, frames, k)
}

/// Smoothers that went through a stream part by part.
pub open spec fn evolved<R: Real>(
    banks: Seq<Seq<Smoother<R>>>,
    cuts: Seq<int>,
    events: Seq<ParamEvent<R>>,
) -> bool {
    &&& banks.len() == cuts.len()
    &&& forall|k: int|
        0 <= k < cuts.len() - 1 ==> #[trigger] banks[k + 1] == bank_after(
            banks[k],
            events_in(events, cuts[k], cuts[k + 1]),
            (cuts[k + 1] - cuts[k]) as nat,
            (cuts[k + 1] - cuts[k]) as nat,
            cuts[k],
        )
}

/// Smoothers follow the stream: after `n` frames of part `k` they are where the stream as
/// one block would have them at that frame. So a target acts from its boundary on the
/// stream's own timeline, however the stream is parted.
pub proof fn banks_follow_the_stream<R: Real>(
    banks: Seq<Seq<Smoother<R>>>,
    cuts: Seq<int>,
    events: Seq<ParamEvent<R>>,
    frames: nat,
    k: int,
    n: nat,
)
    requires
        sorted_events(events),
        parts(cuts, frames),
        evolved(banks, cuts, events),
        0 <= k < cuts.len() - 1,
        n <= cuts[k + 1] - cuts[k],
    ensures
        0 <= cuts[k] <= cuts[k + 1] <= frames,
        bank_after(
            banks[k],
            events_in(events, cuts[k], cuts[k + 1]),
            n,
            (cuts[k + 1] - cuts[k]) as nat,
            cuts[k],
        ) == bank_after(banks[0], events, (cuts[k] + n) as nat, frames, 0),
    decreases k,
{
    assert(part_at(cuts, frames, k));
    let lo = cuts[k] as nat;
    let hi = cuts[k + 1] as nat;
    let at = bank_after(banks[0], events, lo, frames, 0);
    if k > 0 {
        assert(part_at(cuts, frames, k - 1));
        banks_follow_the_stream(
            banks,
            cuts,
            events,
            frames,
            k - 1,
            (cuts[k] - cuts[k - 1]) as nat,
        );
        assert(banks[(k - 1) + 1] == at);
    }
    assert(banks[k] == at);
    lemma_part_events(events, lo, hi);
    lemma_first_bank(
        at,
        late_events(events, lo),
        (hi - lo) as nat,
        n,
        (frames - lo) as nat,
        lo as int,
    );
    lemma_second_bank(banks[0], events, lo, n, frames, 0);
}

/// Every block is rendered with the parameters of the stream: after `n` frames of block
/// `k`, the bank is where the stream as one block would have it at that frame.
pub proof fn parameters_follow_the_stream<T: Sample, K: Kernel<T>>(
    run: Run<KernelProcessor<K, T>>,
    s: Stream<T>,
    out: Seq<Seq<T>>,
    k: int,
    n: nat,
)
    requires
        replayable(s),
        s.output.len() > 0,
        run.divides(s.frames as int),
        ran(run, s, out),
        0 <= k < run.blocks(),
        n <= run.cuts[k + 1] - run.cuts[k],
    ensures
        0 <= run.cuts[k] <= run.cuts[k + 1] <= s.frames,
        bank_after(
            run.states[k].bank(),
            run.view(s, k).events,
            n,
            run.view(s, k).frames,
            run.cuts[k],
        ) == bank_after(
            run.states[0].bank(),
            s.events,
            (run.cuts[k] + n) as nat,
            s.frames,
            0,
        ),
{
    let banks = Seq::new(run.states.len(), |j: int| run.states[j].bank());
    assert forall|j: int| 0 <= j < run.cuts.len() - 1 implies #[trigger] part_at(
        run.cuts,
        s.frames,
        j,
    ) by {
        assert(run.goes_on(j, s.frames as int));
    }
    assert forall|j: int| 0 <= j < run.cuts.len() - 1 implies #[trigger] banks[j + 1] == bank_after(
        banks[j],
        events_in(s.events, run.cuts[j], run.cuts[j + 1]),
        (run.cuts[j + 1] - run.cuts[j]) as nat,
        (run.cuts[j + 1] - run.cuts[j]) as nat,
        run.cuts[j],
    ) by {
        assert(run.states[j].processed(run.view(s, j), &run.states[j + 1], run.part(out, j)));
    }
    banks_follow_the_stream(banks, run.cuts, s.events, s.frames, k, n);
}

/// One target of an unsmoothed parameter at rest, inside the range that it has.
pub open spec fn plain_target<R: Real>(bank: Seq<Smoother<R>>, e: ParamEvent<R>) -> bool {
    let j = slot(bank, e.param) as int;
    &&& nil::<R>().finite()
    &&& sound_bank(bank)
    &&& j < bank.len()
    &&& bank[j].shape == Smoothing::Step
    &&& bank[j].cur == bank[j].target
    &&& e.value.finite()
    &&& within(e.value, bank[j].range.0, bank[j].range.1)
}

/// The value that frame `f` of a stream is rendered with where `e` is its only target.
pub open spec fn value_at_frame<R: Real>(
    bank: Seq<Smoother<R>>,
    e: ParamEvent<R>,
    f: int,
) -> R {
    let j = slot(bank, e.param) as int;
    if f >= boundary_from(e.offset as int) && !e.value.alike(bank[j].target) {
        e.value
    } else {
        bank[j].cur
    }
}

/// Consecutive calls of the driver, in any block sizes: one target of an unsmoothed
/// parameter shows in the runs from the first grid boundary at or after its stamp on, and
/// in no run before it.
pub proof fn driven_target_shows_from_its_boundary<T: Sample, K: Kernel<T>>(
    banks: Seq<Seq<Smoother<T::Real>>>,
    cuts: Seq<int>,
    frames: nat,
    e: ParamEvent<T::Real>,
    k: int,
    n: nat,
)
    requires
        parts(cuts, frames),
        banks.len() == cuts.len(),
        e.offset < frames,
        plain_target(banks[0], e),
        forall|j: int|
            0 <= j < cuts.len() - 1 && #[trigger] part_at(cuts, frames, j) ==> exists|
                q: &mut K,
                b: &mut SmootherBank<T::Real>,
                c: &mut ProcessContext<'_, '_, T>,
            | #[trigger]
                call_ensures(drive::<T, K>, (q, b, c), ()) && b@ == banks[j] && final(b)@
                    == banks[j + 1] && c.events@ == events_in(seq![e], cuts[j], cuts[j + 1])
                    && c.frames == cuts[j + 1] - cuts[j] && c.sample_pos == cuts[j],
        0 <= k < cuts.len() - 1,
        n < cuts[k + 1] - cuts[k],
    ensures
        ({
            let events = events_in(seq![e], cuts[k], cuts[k + 1]);
            let len = (cuts[k + 1] - cuts[k]) as nat;
            let values = bank_values(bank_after(banks[k], events, n + 1, len, cuts[k]));
            &&& frame_params::<T, K>(banks[k], events, n as int, len, cuts[k])
                == K::Params::load(values)
            &&& values[slot(banks[0], e.param) as int] == value_at_frame(
                banks[0],
                e,
                cuts[k] + n,
            )
        }),
{
    let events = seq![e];
    assert forall|j: int| 0 <= j < cuts.len() - 1 implies #[trigger] banks[j + 1] == bank_after(
        banks[j],
        events_in(events, cuts[j], cuts[j + 1]),
        (cuts[j + 1] - cuts[j]) as nat,
        (cuts[j + 1] - cuts[j]) as nat,
        cuts[j],
    ) by {
        assert(part_at(cuts, frames, j));
    }
    banks_follow_the_stream(banks, cuts, events, frames, k, n + 1);
    a_target_acts_from_its_boundary(banks[0], e, frames, (cuts[k] + n) as nat);
}

/// In whatever blocks a stream is driven, one target of an unsmoothed parameter shows in
/// the frames from the first grid boundary at or after its stamp on, and in no frame
/// before it.
pub proof fn one_target_shows_from_its_boundary<T: Sample, K: Kernel<T>>(
    run: Run<KernelProcessor<K, T>>,
    s: Stream<T>,
    out: Seq<Seq<T>>,
    e: ParamEvent<T::Real>,
    k: int,
    n: nat,
)
    requires
        replayable(s),
        s.output.len() > 0,
        s.events == seq![e],
        e.offset < s.frames,
        run.divides(s.frames as int),
        ran(run, s, out),
        0 <= k < run.blocks(),
        n < run.cuts[k + 1] - run.cuts[k],
        plain_target(run.states[0].bank(), e),
    ensures
        ({
            let first = run.states[0].bank();
            let j = slot(first, e.param) as int;
            bank_values(
                bank_after(
                    run.states[k].bank(),
                    run.view(s, k).events,
                    n + 1,
                    run.view(s, k).frames,
                    run.cuts[k],
                ),
            )[j] == value_at_frame(first, e, run.cuts[k] + n)
        }),
{
    parameters_follow_the_stream(run, s, out, k, n + 1);
    a_target_acts_from_its_boundary(
        run.states[0].bank(),
        e,
        s.frames,
        (run.cuts[k] + n) as nat,
    );
}

/// Every block of a run was processed by a band filter.
pub open spec fn filtered<T: Sample, B: Transform<T::Real>>(
    run: Run<SpectralFilter<T, B>>,
    s: Stream<T>,
    out: Seq<Seq<T>>,
) -> bool {
    forall|k: int|
        0 <= k < run.blocks() ==> (#[trigger] run.states[k]).processed(
            run.view(s, k),
            &run.states[k + 1],
            run.part(out, k),
        )
}

/// Taking in a part of `x` from `lo` on goes on from what the samples before it left.
proof fn lemma_lane_goes_on<R: Real, B: Transform<R>>(
    p: BandPlan<R>,
    state: BandState<R>,
    x: Seq<R>,
    lo: int,
    hi: int,
    n: nat,
)
    requires
        0 <= lo <= hi <= x.len(),
        n <= hi - lo,
    ensures
        lane_after::<R, B>(p, state, x, (lo + n) as nat) == lane_after::<R, B>(
            p,
            lane_after::<R, B>(p, state, x, lo as nat),
            x.subrange(lo, hi),
            n,
        ),
{
    let early = x.take(lo);
    let part = x.subrange(lo, hi);
    let late = x.skip(lo);
    let mid = lane_after::<R, B>(p, state, early, lo as nat);
    assert(early + late =~= x);
    band_blocks_join::<R, B>(p, state, early, late, 0);
    band_blocks_join::<R, B>(p, state, early, late, n);
    let (first, rest) = (part.take(n as int), part.skip(n as int));
    let after = late.skip(n as int);
    assert(first + rest =~= part);
    assert(first + after =~= late);
    band_blocks_join::<R, B>(p, mid, first, rest, 0);
    band_blocks_join::<R, B>(p, mid, first, after, 0);
}

proof fn lemma_filtered_lane<T: Sample, B: Transform<T::Real>>(
    run: Run<SpectralFilter<T, B>>,
    s: Stream<T>,
    out: Seq<Seq<T>>,
    k: int,
    ch: int,
)
    requires
        replayable(s),
        s.mode == IoMode::Split,
        run.divides(s.frames as int),
        filtered(run, s, out),
        run.states[0].lanes@.len() == s.output.len(),
        0 <= ch < s.output.len(),
        0 <= k < run.cuts.len(),
    ensures
        0 <= run.cuts[k] <= s.frames,
        run.states[k].plan() == run.states[0].plan(),
        run.states[k].lanes@.len() == s.output.len(),
        run.states[k].lane(ch) == lane_after::<T::Real, B>(
            run.states[0].plan(),
            run.states[0].lane(ch),
            lane_input(s.input[ch]),
            run.cuts[k] as nat,
        ),
    decreases k,
{
    if k > 0 {
        lemma_filtered_lane(run, s, out, k - 1, ch);
        assert(run.goes_on(k - 1, s.frames as int));
        let (lo, hi) = (run.cuts[k - 1], run.cuts[k]);
        let before = run.states[k - 1];
        assert(before.processed(run.view(s, k - 1), &run.states[k], run.part(out, k - 1)));
        assert(s.frames <= s.input[ch].len());
        let x = lane_input(s.input[ch]);
        assert(lane_input(run.view(s, k - 1).input[ch]) =~= x.subrange(lo, hi));
        lemma_lane_goes_on::<T::Real, B>(
            before.plan(),
            run.states[0].lane(ch),
            x,
            lo,
            hi,
            (hi - lo) as nat,
        );
        assert(run.states[k].lane(ch) == lane_after::<T::Real, B>(
            before.plan(),
            before.lane(ch),
            lane_inputs(run.view(s, k - 1).input)[ch],
            run.view(s, k - 1).frames,
        ));
    }
}

/// Block sizes do not show in a band filter: whatever blocks a stream is cut into, every
/// output sample is the one that the stream as one block brings, and so is the state that
/// every channel is left in.
pub proof fn filtered_streams_do_not_show_block_sizes<T: Sample, B: Transform<T::Real>>(
    run: Run<SpectralFilter<T, B>>,
    s: Stream<T>,
    out: Seq<Seq<T>>,
    ch: int,
    f: int,
)
    requires
        replayable(s),
        s.mode == IoMode::Split,
        run.divides(s.frames as int),
        filtered(run, s, out),
        run.states[0].lanes@.len() == s.output.len(),
        out.len() == s.output.len(),
        rectangular(out, s.frames),
        0 <= ch < s.output.len(),
        0 <= f < s.frames,
    ensures
        ({
            let (p, first, x) = (
                run.states[0].plan(),
                run.states[0].lane(ch),
                lane_input(s.input[ch]),
            );
            &&& out[ch][f] == T::stored(head(lane_after::<T::Real, B>(p, first, x, f as nat)))
            &&& run.states.last().lane(ch) == lane_after::<T::Real, B>(p, first, x, s.frames)
        }),
{
    lemma_filtered_lane(run, s, out, run.cuts.len() - 1, ch);
    lemma_filtered_sample(run, s, out, ch, f, 0);
}

proof fn lemma_filtered_sample<T: Sample, B: Transform<T::Real>>(
    run: Run<SpectralFilter<T, B>>,
    s: Stream<T>,
    out: Seq<Seq<T>>,
    ch: int,
    f: int,
    k: int,
)
    requires
        replayable(s),
        s.mode == IoMode::Split,
        run.divides(s.frames as int),
        filtered(run, s, out),
        run.states[0].lanes@.len() == s.output.len(),
        out.len() == s.output.len(),
        rectangular(out, s.frames),
        0 <= ch < s.output.len(),
        0 <= k < run.cuts.len(),
        run.cuts[k] <= f < s.frames,
    ensures
        out[ch][f] == T::stored(
            head(
                lane_after::<T::Real, B>(
                    run.states[0].plan(),
                    run.states[0].lane(ch),
                    lane_input(s.input[ch]),
                    f as nat,
                ),
            ),
        ),
    decreases run.cuts.len() - k,
{
    lemma_filtered_lane(run, s, out, k, ch);
    if k < run.blocks() {
        assert(run.goes_on(k, s.frames as int));
        let (lo, hi) = (run.cuts[k], run.cuts[k + 1]);
        if f < hi {
            let before = run.states[k];
            let part = run.part(out, k);
            assert(before.processed(run.view(s, k), &run.states[k + 1], part));
            assert(s.frames <= s.input[ch].len());
            assert(out[ch].len() == s.frames);
            let x = lane_input(s.input[ch]);
            assert(lane_input(run.view(s, k).input[ch]) =~= x.subrange(lo, hi));
            lemma_lane_goes_on::<T::Real, B>(
                before.plan(),
                run.states[0].lane(ch),
                x,
                lo,
                hi,
                (f - lo) as nat,
            );
            let now = run.states[k + 1].lane(ch);
            assert(part[ch][f - lo] == T::stored(
                head(
                    lane_after::<T::Real, B>(
                        before.plan(),
                        before.lane(ch),
                        lane_inputs(run.view(s, k).input)[ch],
                        (f - lo) as nat,
                    ),
                ),
            ));
            assert(part[ch][f - lo] == out[ch][f]);
        } else {
            lemma_filtered_sample(run, s, out, ch, f, k + 1);
        }
    }
}

} // verus!
