//! The block driver and the kernel wrapper that owns the smoother bank.

use crate::contract::block::{rectangular, AudioBlock, AudioBlockMut, Io, IoMode};
use crate::contract::context::{
    overlaid, spliced, windows, ProcessContext, Produced, SubBlock, Tail,
};
use crate::contract::error::DspError;
use crate::contract::param::{ParamEvent, ParamId, ParamInfo, ParamSetError};
use crate::contract::spec::ProcessSpec;
use crate::contract::traits::{
    column, from_frames, key_column, model_after, on_timeline, rendered, rendered_frame,
    sorted_events, BlockView, FrameModel, Geometry, Kernel, Params, Processor, Standing,
};
use crate::dsp::memory::{saturated, MemoryLayout};
use crate::dsp::schedule::{
    bank_after, cut, event_applied, frame_out, frame_params, framed_bank, is_run, kernel_after,
    latched, leads, lemma_bank_after_sound, lemma_between_boundaries, lemma_cut,
    lemma_cut_monotone, lemma_latched_keeps_values, lemma_latched_splits, on_grid, run_count,
    run_start, runs_tile_the_block, shown_run, Block,
};
use crate::dsp::smoother::{
    bank_admission, bank_bytes, bank_pinned, bank_rested, bank_stepped, fresh_bank,
    metadata_outcome, sound_bank, validate_param_info, write_outcome, Smoother, SmootherBank,
    CR_STEP,
};
use crate::number::{nil, Real, Sample};
use crate::text::{decimal_text, push_decimal};
use core::marker::PhantomData;
use vstd::prelude::*;
use vstd::string::StringExecFns;

verus! {

/// Latch targets from `events[from..]` stamped at or before `upto`, and return
/// the index of the first event left. Entries stamped at or past the block's
/// end and non-finite values are skipped.
pub fn latch_events<R: Real>(
    bank: &mut SmootherBank<R>,
    events: &[ParamEvent<R>],
    from: usize,
    upto: usize,
    frames: usize,
) -> (r: usize)
    requires
        old(bank).wf(),
        sorted_events(events@),
        from <= cut(events@, upto + 1),
    ensures
        final(bank).wf(),
        r == cut(events@, upto + 1),
        final(bank)@ == latched(old(bank)@, events@, from as int, r as int, frames as nat),
{
    proof {
        lemma_cut(events@, upto + 1);
    }
    let mut ev: usize = from;
    while ev < events.len() && events[ev].offset as u64 <= upto as u64
        invariant
            from <= ev <= cut(events@, upto + 1) <= events@.len(),
            sorted_events(events@),
            bank.wf(),
            bank@ == latched(old(bank)@, events@, from as int, ev as int, frames as nat),
            forall|j: int|
                cut(events@, upto + 1) <= j < events@.len() ==> (#[trigger] events@[j]).offset
                    >= upto + 1,
        decreases events@.len() - ev,
    {
        let event = events[ev];
        assert(ev < cut(events@, upto + 1));
        if (event.offset as u64) < frames as u64 && event.value.is_finite() {
            let ghost before = bank@;
            let answer = bank.set_target(event.param, event.value);
            assert(bank@ == event_applied(before, event, frames as nat));
        }
        ev += 1;
    }
    proof {
        if ev < cut(events@, upto + 1) {
            assert(events@[ev as int].offset < upto + 1);
        }
    }
    ev
}

/// The block that a context hands to the driver.
pub open spec fn driven_block<T: Sample>(ctx: ProcessContext<'_, '_, T>) -> Block<T> {
    Block {
        x: ctx.main.input(),
        key: ctx.keys(),
        events: ctx.events@,
        frames: ctx.frames as nat,
        pos: ctx.sample_pos as int,
    }
}

/// The output of a driven block.
pub open spec fn driven_output<T: Sample, K: FrameModel<T>>(
    m: K::Model,
    bank: Seq<Smoother<T::Real>>,
    b: Block<T>,
    width: nat,
) -> Seq<Seq<T>> {
    from_frames(width, b.frames, |i: int| frame_out::<T, K>(m, bank, b, i))
}

/// The output planes once the first `start` frames are rendered: the others
/// are still as they were.
spec fn partly_driven<T: Sample, K: FrameModel<T>>(
    m: K::Model,
    bank: Seq<Smoother<T::Real>>,
    b: Block<T>,
    before: Seq<Seq<T>>,
    now: Seq<Seq<T>>,
    start: int,
) -> bool {
    &&& now.len() == before.len()
    &&& forall|ch: int|
        0 <= ch < before.len() ==> {
            &&& (#[trigger] now[ch]).len() == b.frames
            &&& forall|i: int|
                0 <= i < start ==> now[ch][i] == frame_out::<T, K>(m, bank, b, i)[ch]
            &&& forall|i: int| start <= i < b.frames ==> now[ch][i] == before[ch][i]
        }
}

/// A run inside one control cell is rendered as the frames of the block are.
proof fn lemma_run<T: Sample, K: FrameModel<T>>(
    m: K::Model,
    bank: Seq<Smoother<T::Real>>,
    b: Block<T>,
    p: K::Params,
    start: nat,
    len: nat,
    x: Seq<Seq<T>>,
    key: Seq<Seq<Seq<T>>>,
    n: nat,
)
    requires
        n <= len,
        start + len <= b.frames,
        forall|i: int|
            start <= i < start + len ==> p == #[trigger] frame_params::<T, K>(
                bank,
                b.events,
                i,
                b.frames,
                b.pos,
            ),
        forall|i: int| 0 <= i < len ==> #[trigger] column(x, i) == column(b.x, start + i),
        forall|i: int|
            0 <= i < len ==> #[trigger] key_column(key, i) == key_column(b.key, start + i),
    ensures
        model_after::<T, K>(kernel_after::<T, K>(m, bank, b, start), p, x, key, n)
            == kernel_after::<T, K>(m, bank, b, start + n),
        forall|i: int|
            0 <= i < n ==> #[trigger] rendered_frame::<T, K>(
                kernel_after::<T, K>(m, bank, b, start),
                p,
                x,
                key,
                i,
            ) == frame_out::<T, K>(m, bank, b, start + i),
    decreases n,
{
    if n > 0 {
        lemma_run::<T, K>(m, bank, b, p, start, len, x, key, (n - 1) as nat);
        let i = n - 1;
        assert(column(x, i) == column(b.x, start + i));
        assert(key_column(key, i) == key_column(b.key, start + i));
        assert(p == frame_params::<T, K>(bank, b.events, start + i, b.frames, b.pos));
    }
}

/// The frames of a run are frames of the block's input: what is rendered in
/// place so far lies before the run.
proof fn lemma_run_columns<T: Sample>(
    b: Block<T>,
    input: Seq<Seq<T>>,
    in_place: bool,
    before: Seq<Seq<T>>,
    now: Seq<Seq<T>>,
    start: int,
    len: int,
)
    requires
        0 <= start,
        0 <= len,
        start + len <= b.frames,
        input.len() == b.x.len(),
        !in_place ==> input == b.x && rectangular(b.x, b.frames),
        in_place ==> input == now && b.x == before && now.len() == before.len(),
        in_place ==> rectangular(before, b.frames),
        in_place ==> forall|ch: int|
            0 <= ch < before.len() ==> (#[trigger] now[ch]).len() == b.frames && forall|i: int|
                start <= i < b.frames ==> now[ch][i] == before[ch][i],
    ensures
        forall|i: int|
            0 <= i < len ==> #[trigger] column(windows(input, start, len), i) == column(
                b.x,
                start + i,
            ),
        windows(input, start, len) == windows(b.x, start, len),
{
    assert forall|ch: int| 0 <= ch < b.x.len() implies windows(input, start, len)[ch]
        == #[trigger] windows(b.x, start, len)[ch] by {
        assert(input[ch].len() == b.frames);
        assert(b.x[ch].len() == b.frames);
        assert(windows(input, start, len)[ch] =~= windows(b.x, start, len)[ch]);
    }
    assert(windows(input, start, len) =~= windows(b.x, start, len));
    assert forall|i: int| 0 <= i < len implies #[trigger] column(windows(input, start, len), i)
        == column(b.x, start + i) by {
        assert forall|ch: int| 0 <= ch < b.x.len() implies column(
            windows(input, start, len),
            i,
        )[ch] == column(b.x, start + i)[ch] by {
            assert(input[ch].len() == b.frames);
        }
        assert(column(windows(input, start, len), i) =~= column(b.x, start + i));
    }
}

/// The sidechain frames of a run are those of the block.
proof fn lemma_run_keys<T: Sample>(
    ctx: ProcessContext<'_, '_, T>,
    key_run: Seq<Seq<Seq<T>>>,
    start: int,
    len: int,
)
    requires
        0 <= start,
        0 <= len,
        start + len <= ctx.frames,
        key_run.len() == ctx.sidechain@.len(),
        forall|bus: int|
            0 <= bus < key_run.len() ==> #[trigger] key_run[bus] == windows(
                ctx.sidechain@[bus].samples(),
                start,
                len,
            ),
        forall|bus: int|
            0 <= bus < ctx.sidechain@.len() ==> (#[trigger] ctx.sidechain@[bus]).wf() && ctx.frames
                <= ctx.sidechain@[bus].length(),
    ensures
        forall|i: int|
            0 <= i < len ==> #[trigger] key_column(key_run, i) == key_column(ctx.keys(), start + i),
{
    assert forall|i: int| 0 <= i < len implies #[trigger] key_column(key_run, i) == key_column(
        ctx.keys(),
        start + i,
    ) by {
        assert forall|bus: int| 0 <= bus < key_run.len() implies key_column(key_run, i)[bus]
            == key_column(ctx.keys(), start + i)[bus] by {
            let s = ctx.sidechain@[bus].samples();
            assert(ctx.sidechain@[bus].wf() && ctx.frames <= ctx.sidechain@[bus].length());
            assert forall|ch: int| 0 <= ch < s.len() implies column(key_run[bus], i)[ch] == column(
                s,
                start + i,
            )[ch] by {
                assert(s[ch].len() >= ctx.frames);
            }
            assert(column(key_run[bus], i) =~= column(s, start + i));
        }
        assert(key_column(key_run, i) =~= key_column(ctx.keys(), start + i));
    }
}

/// Rendering a run extends the rendered part of the block by it.
proof fn lemma_run_extends<T: Sample, K: FrameModel<T>>(
    m: K::Model,
    bank: Seq<Smoother<T::Real>>,
    b: Block<T>,
    before: Seq<Seq<T>>,
    now: Seq<Seq<T>>,
    after: Seq<Seq<T>>,
    run: Seq<Seq<T>>,
    start: int,
    len: int,
)
    requires
        0 <= start,
        0 <= len,
        start + len <= b.frames,
        partly_driven::<T, K>(m, bank, b, before, now, start),
        after == overlaid(now, start, run),
        run.len() == before.len(),
        forall|ch: int|
            0 <= ch < before.len() ==> (#[trigger] run[ch]).len() == len && forall|i: int|
                0 <= i < len ==> run[ch][i] == frame_out::<T, K>(m, bank, b, start + i)[ch],
    ensures
        partly_driven::<T, K>(m, bank, b, before, after, start + len),
{
    assert forall|ch: int| 0 <= ch < before.len() implies {
        &&& (#[trigger] after[ch]).len() == b.frames
        &&& forall|i: int|
            0 <= i < start + len ==> after[ch][i] == frame_out::<T, K>(m, bank, b, i)[ch]
        &&& forall|i: int| start + len <= i < b.frames ==> after[ch][i] == before[ch][i]
    } by {
        assert(now[ch].len() == b.frames);
        assert(run[ch].len() == len);
        assert(after[ch] == spliced(now[ch], start, run[ch]));
        assert forall|i: int| 0 <= i < start + len implies after[ch][i] == frame_out::<T, K>(
            m,
            bank,
            b,
            i,
        )[ch] by {
            if i >= start {
                assert(run[ch][i - start] == frame_out::<T, K>(m, bank, b, start + (i - start))[ch]);
            }
        }
    }
}

/// Drive a kernel over one block.
///
/// The block is split at control-rate grid boundaries anchored to the absolute
/// timeline. Every target stamped at or before a boundary has latched before
/// that boundary's step. Stream start counts as a boundary. Targets stamped
/// after a block's last boundary still latch before the block ends.
#[verifier::rlimit(40)]
pub fn drive<T: Sample, K: Kernel<T>>(
    k: &mut K,
    bank: &mut SmootherBank<T::Real>,
    ctx: &mut ProcessContext<'_, '_, T>,
)
    requires
        old(k).inv(),
        old(bank).wf(),
        old(bank)@.len() == K::Params::COUNT,
        old(ctx).wf(),
        on_timeline(old(ctx).sample_pos as int, old(ctx).frames as int),
        old(k).accepts(
            old(ctx).main.mode(),
            old(ctx).main.output().len(),
            old(ctx).sidechain@.len(),
        ),
    ensures
        final(k).inv(),
        final(k).model() == kernel_after::<T, K>(
            old(k).model(),
            old(bank)@,
            driven_block(*old(ctx)),
            old(ctx).frames as nat,
        ),
        final(bank).wf(),
        final(bank)@ == bank_after(
            old(bank)@,
            old(ctx).events@,
            old(ctx).frames as nat,
            old(ctx).frames as nat,
            old(ctx).sample_pos as int,
        ),
        old(ctx).rewritten(
            final(ctx),
            driven_output::<T, K>(
                old(k).model(),
                old(bank)@,
                driven_block(*old(ctx)),
                old(ctx).main.output().len(),
            ),
        ),
        final(final(ctx).main.table())@ == final(old(ctx).main.table())@,
        forall|c: int|
            0 <= c < old(ctx).main.output().len() ==> final(#[trigger] final(ctx).main.plane(c))@
                == final(old(ctx).main.plane(c))@,
        forall|mode: IoMode, channels: nat, buses: nat|
            old(k).accepts(mode, channels, buses) ==> #[trigger] final(k).accepts(
                mode,
                channels,
                buses,
            ),
        final(k).standing() == old(k).standing(),
        exists|states: Seq<K>| #[trigger]
            leads(
                states,
                *old(k),
                *final(k),
                run_count(old(ctx).sample_pos as int, old(ctx).frames as int),
            ) && forall|j: int| #[trigger]
                is_run(old(ctx).sample_pos as int, old(ctx).frames as int, j) ==> exists|
                    q: &mut K,
                    io: &mut SubBlock<'_, '_, '_, T>,
                    p: &K::Params,
                | #[trigger]
                    call_ensures(K::render, (q, io, p), ()) && *q == states[j] && *final(q)
                        == states[j + 1] && shown_run::<T, K>(
                        &*io,
                        *p,
                        old(bank)@,
                        driven_block(*old(ctx)),
                        j,
                    ),
{
    let frames: usize = ctx.frames;
    let pos: u64 = ctx.sample_pos;
    let ghost b = driven_block(*ctx);
    let ghost m0 = k.model();
    let ghost bank0 = bank@;
    let ghost before = ctx.main.output();
    let ghost in0 = ctx.main.input();
    let ghost mode0 = ctx.main.mode();
    let ghost mut states: Seq<K> = seq![*k];
    let ghost mut runs: int = 0;
    if frames == 0 {
        assert(leads(states, *old(k), *k, run_count(pos as int, 0)));
        assert(ctx.main.output() =~= driven_output::<T, K>(m0, bank0, b, before.len())) by {
            assert forall|ch: int| 0 <= ch < before.len() implies before[ch] =~= driven_output::<
                T,
                K,
            >(m0, bank0, b, before.len())[ch] by {}
        }
        return;
    }
    let events = ctx.events;
    let sidechain = ctx.sidechain;
    // That zero is finite keeps every smoother in its range.
    let _ = T::Real::zero();
    let mut start: usize = 0;
    let mut ev: usize = 0;
    // The next grid cell whose boundary step is still pending. The stream-start
    // boundary has not stepped yet; for a later block, every boundary at or
    // before the previous frame has.
    let mut pending_cell: u64 = if pos == 0 {
        0
    } else {
        (pos - 1) / CR_STEP + 1
    };
    proof {
        lemma_cut(events@, 0);
        runs_tile_the_block(pos as int, frames as int, 0);
    }
    while start < frames
        invariant
            frames == b.frames,
            pos == b.pos,
            0 <= start <= frames,
            pos + frames + 31 <= u64::MAX,
            b == driven_block(*old(ctx)),
            m0 == old(k).model(),
            bank0 == old(bank)@,
            sound_bank(bank0),
            nil::<T::Real>().finite(),
            bank0.len() == K::Params::COUNT,
            before == old(ctx).main.output(),
            in0 == old(ctx).main.input(),
            mode0 == old(ctx).main.mode(),
            rectangular(before, frames as nat),
            rectangular(in0, frames as nat),
            old(ctx).wf(),
            mode0 == IoMode::InPlace ==> in0 == before,
            ctx.main.mode() == mode0,
            ctx.main.wf(),
            ctx.main.length() == frames,
            final(ctx.main.table())@ == final(old(ctx).main.table())@,
            forall|c: int|
                0 <= c < before.len() ==> final(#[trigger] ctx.main.plane(c))@
                    == final(old(ctx).main.plane(c))@,
            ctx.sidechain == sidechain,
            ctx.events == events,
            ctx.frames == frames,
            ctx.sample_pos == pos,
            sidechain == old(ctx).sidechain,
            events == old(ctx).events,
            mode0 != IoMode::InPlace ==> ctx.main.input() == in0,
            partly_driven::<T, K>(m0, bank0, b, before, ctx.main.output(), start as int),
            sorted_events(events@),
            0 <= ev <= cut(events@, start as int),
            bank.wf(),
            bank@.len() == bank0.len(),
            latched(bank@, events@, ev as int, cut(events@, start as int), frames as nat)
                == bank_after(bank0, events@, start as nat, frames as nat, pos as int),
            k.inv(),
            k.model() == kernel_after::<T, K>(m0, bank0, b, start as nat),
            forall|mode: IoMode, channels: nat, buses: nat|
                old(k).accepts(mode, channels, buses) ==> #[trigger] k.accepts(
                    mode,
                    channels,
                    buses,
                ),
            old(k).accepts(mode0, before.len(), sidechain@.len()),
            k.standing() == old(k).standing(),
            start > 0 ==> start == frames || on_grid(pos + start),
            pending_cell == (if pos + start == 0 {
                0
            } else {
                (pos + start - 1) / 32 + 1
            }),
            0 <= runs <= run_count(pos as int, frames as int),
            start == run_start(pos as int, frames as int, runs),
            start == frames ==> runs == run_count(pos as int, frames as int),
            leads(states, *old(k), *k, runs),
            forall|j: int|
                j < runs && #[trigger] is_run(pos as int, frames as int, j) ==> exists|
                    q: &mut K,
                    io: &mut SubBlock<'_, '_, '_, T>,
                    p: &K::Params,
                | #[trigger]
                    call_ensures(K::render, (q, io, p), ()) && *q == states[j] && *final(q)
                        == states[j + 1] && shown_run::<T, K>(&*io, *p, bank0, b, j),
        decreases frames - start,
    {
        let abs: u64 = pos + start as u64;
        // Latch every target stamped at or before this run's first frame.
        proof {
            lemma_cut_monotone(events@, start as int, start + 1);
            lemma_latched_splits(
                bank@,
                events@,
                ev as int,
                cut(events@, start as int),
                cut(events@, start + 1),
                frames as nat,
            );
        }
        let ghost held = bank_after(bank0, events@, start as nat, frames as nat, pos as int);
        ev = latch_events(bank, events, ev, start, frames);
        assert(bank@ == latched(
            held,
            events@,
            cut(events@, start as int),
            cut(events@, start + 1),
            frames as nat,
        ));
        proof {
            lemma_bank_after_sound(bank0, events@, start as nat, frames as nat, pos as int);
            lemma_latched_keeps_values(
                held,
                events@,
                cut(events@, start as int),
                cut(events@, start + 1),
                frames as nat,
            );
        }
        // Step once for a boundary crossed into, stream start included.
        let cell: u64 = abs / CR_STEP;
        let ghost latched_bank = bank@;
        while pending_cell <= cell
            invariant
                cell == abs / 32,
                abs <= u64::MAX - 32,
                pending_cell <= cell + 1,
                bank.wf(),
                bank@.len() == bank0.len(),
                pending_cell == cell + 1 ==> bank@ == (if on_grid(abs as int) {
                    bank_stepped(latched_bank)
                } else {
                    latched_bank
                }),
                pending_cell <= cell ==> on_grid(abs as int) && pending_cell == cell && bank@
                    == latched_bank,
            decreases cell + 1 - pending_cell,
        {
            bank.step();
            pending_cell += 1;
        }
        let ghost run_bank = bank_after(bank0, events@, (start + 1) as nat, frames as nat, pos as int);
        assert(run_bank == framed_bank(held, events@, start as int, frames as nat, pos as int));
        assert(bank@ == run_bank);
        // Render to the next grid boundary or the block end.
        let next_grid: u64 = abs - (abs % CR_STEP) + CR_STEP;
        let to_grid: u64 = next_grid - pos;
        let end: usize = if to_grid < frames as u64 {
            to_grid as usize
        } else {
            frames
        };
        let len: usize = end - start;
        let params = K::Params::from_bank(bank);
        let ghost now = ctx.main.output();
        let ghost x_run = windows(ctx.main.input(), start as int, len as int);
        let ghost key_run = Seq::new(
            sidechain@.len(),
            |bus: int| windows(sidechain@[bus].samples(), start as int, len as int),
        );
        proof {
            assert forall|i: int| start < i < end implies !#[trigger] on_grid(pos + i) by {}
            assert forall|i: int| start <= i < start + len implies params
                == #[trigger] frame_params::<T, K>(bank0, events@, i, frames as nat, pos as int) by {
                lemma_between_boundaries(
                    bank0,
                    events@,
                    (start + 1) as nat,
                    (i + 1) as nat,
                    frames as nat,
                    pos as int,
                );
            }
            lemma_run_columns(
                b,
                ctx.main.input(),
                mode0 == IoMode::InPlace,
                before,
                now,
                start as int,
                len as int,
            );
            lemma_run_keys(*ctx, key_run, start as int, len as int);
            lemma_run::<T, K>(
                m0,
                bank0,
                b,
                params,
                start as nat,
                len as nat,
                x_run,
                key_run,
                len as nat,
            );
        }
        let ghost km = k.model();
        let ghost before_run = *k;
        proof {
            runs_tile_the_block(pos as int, frames as int, runs);
            assert(is_run(pos as int, frames as int, runs));
            assert(end == run_start(pos as int, frames as int, runs + 1));
            assert(key_run =~= Seq::new(
                b.key.len(),
                |bus: int| windows(b.key[bus], start as int, len as int),
            ));
            assert(params == frame_params::<T, K>(
                bank0,
                events@,
                start as int,
                frames as nat,
                pos as int,
            ));
        }
        {
            let mut sub = SubBlock { io: &mut ctx.main, sc: sidechain, start, len };
            assert(sub.key_run() =~= key_run);
            assert(sub.in_run() == x_run);
            assert(shown_run::<T, K>(&sub, params, bank0, b, runs));
            k.render(&mut sub, &params);
        }
        assert(exists|q: &mut K, io: &mut SubBlock<'_, '_, '_, T>, p: &K::Params| #[trigger]
            call_ensures(K::render, (q, io, p), ()) && *q == before_run && *final(q) == *k
                && shown_run::<T, K>(&*io, *p, bank0, b, runs));
        proof {
            let longer = states.push(*k);
            assert forall|j: int|
                j < runs + 1 && #[trigger] is_run(pos as int, frames as int, j) implies exists|
                q: &mut K,
                io: &mut SubBlock<'_, '_, '_, T>,
                p: &K::Params,
            | #[trigger]
                call_ensures(K::render, (q, io, p), ()) && *q == longer[j] && *final(q)
                    == longer[j + 1] && shown_run::<T, K>(&*io, *p, bank0, b, j) by {
                if j < runs {
                    assert(longer[j] == states[j]);
                    assert(longer[j + 1] == states[j + 1]);
                } else {
                    assert(longer[j] == before_run);
                    assert(longer[j + 1] == *k);
                }
            }
            states = longer;
            runs = runs + 1;
        }
        proof {
            let run = rendered::<T, K>(km, params, x_run, key_run, before.len(), len as nat);
            assert forall|ch: int| 0 <= ch < before.len() implies (#[trigger] run[ch]).len() == len
                && forall|i: int|
                0 <= i < len ==> run[ch][i] == frame_out::<T, K>(m0, bank0, b, start + i)[ch] by {
                assert forall|i: int| 0 <= i < len implies run[ch][i] == frame_out::<T, K>(
                    m0,
                    bank0,
                    b,
                    start + i,
                )[ch] by {
                    assert(run[ch][i] == rendered_frame::<T, K>(km, params, x_run, key_run, i)[ch]);
                }
            }
            lemma_run_extends::<T, K>(
                m0,
                bank0,
                b,
                before,
                now,
                ctx.main.output(),
                run,
                start as int,
                len as int,
            );
            lemma_between_boundaries(
                bank0,
                events@,
                (start + 1) as nat,
                end as nat,
                frames as nat,
                pos as int,
            );
            lemma_cut_monotone(events@, start + 1, end as int);
        }
        start = end;
    }
    // Latch targets stamped after the last boundary so the next block's first
    // step sees them.
    proof {
        lemma_cut_monotone(events@, frames as int, frames + 1);
        lemma_latched_splits(
            bank@,
            events@,
            ev as int,
            cut(events@, frames as int),
            cut(events@, frames + 1),
            frames as nat,
        );
        let held = bank_after(bank0, events@, frames as nat, frames as nat, pos as int);
        lemma_cut(events@, frames + 1);
        lemma_late_events_do_nothing(held, events@, cut(events@, frames as int), cut(
            events@,
            frames + 1,
        ), frames as nat);
    }
    let done = latch_events(bank, events, ev, frames, frames);
    proof {
        let out = driven_output::<T, K>(m0, bank0, b, before.len());
        assert forall|ch: int| 0 <= ch < before.len() implies ctx.main.output()[ch] =~= out[ch] by {}
        assert(ctx.main.output() =~= out);
    }
}

/// Events stamped at or past the end of a block change nothing.
proof fn lemma_late_events_do_nothing<R: Real>(
    bank: Seq<Smoother<R>>,
    events: Seq<ParamEvent<R>>,
    from: int,
    to: int,
    frames: nat,
)
    requires
        sorted_events(events),
        from == cut(events, frames as int),
        to <= events.len(),
    ensures
        latched(bank, events, from, to, frames) == bank,
    decreases to - from,
{
    if from < to {
        lemma_cut(events, frames as int);
        lemma_late_events_do_nothing(bank, events, from, to - 1, frames);
        assert(events[to - 1].offset >= frames);
    }
}

// ---------------------------------------------------------------------------
// Prepared geometry
// ---------------------------------------------------------------------------

/// The shape of blocks that a processor was prepared for.
#[derive(Clone, Copy, Debug, PartialEq, Eq, Structural)]
pub struct PreparedContract {
    pub max_block: usize,
    pub channels: usize,
    pub io_mode: IoMode,
    pub sidechain_inputs: usize,
}

/// How a block departs from the shape that a processor was prepared for.
#[derive(Clone, Copy, Debug, PartialEq, Eq, Structural)]
pub enum GeometryFault {
    /// A block was handed over before a successful prepare.
    Unprepared,
    /// The block has more frames than the prepared maximum.
    BlockTooLong { given: usize, prepared: usize },
    /// The main signal has another form than the processor declares.
    WrongForm,
    /// The in-place signal has another frame count than the context.
    InPlaceFrames { given: usize, frames: usize },
    /// The output-only signal has another frame count than the context.
    OutputOnlyFrames { given: usize, frames: usize },
    /// The split input has another frame count than the context.
    InputFrames { given: usize, frames: usize },
    /// The split output has another frame count than the context.
    OutputFrames { given: usize, frames: usize },
    /// The main signal has another channel count than prepared.
    MainChannels { given: usize, prepared: usize },
    /// Split input and output have different channel counts.
    SplitChannels,
    /// Another number of sidechain buses than declared was supplied.
    SidechainBuses { given: usize, declared: usize },
    /// A sidechain bus, the first such one, is shorter than the block.
    SidechainFrames { bus: usize, given: usize, frames: usize },
    /// A drain was asked for before a successful prepare.
    FlushUnprepared,
    /// The output of a drain has another channel count than prepared.
    FlushChannels { given: usize, prepared: usize },
}

/// A message with two counts in it.
pub open spec fn counted(
    head: Seq<char>,
    a: usize,
    mid: Seq<char>,
    b: usize,
    tail: Seq<char>,
) -> Seq<char> {
    head + decimal_text(a as nat) + mid + decimal_text(b as nat) + tail
}

fn counted_text(head: &str, a: usize, mid: &str, b: usize, tail: &str) -> (r: String)
    ensures
        r@ == counted(head@, a, mid@, b, tail@),
{
    let mut r = String::from_str(head);
    push_decimal(&mut r, a as u64);
    r.append(mid);
    push_decimal(&mut r, b as u64);
    r.append(tail);
    r
}

impl GeometryFault {
    /// The explanation that [`message`](Self::message) gives.
    pub open spec fn text(self) -> Seq<char> {
        match self {
            GeometryFault::Unprepared => "process requires a successful prepare"@,
            GeometryFault::BlockTooLong { given, prepared } => counted(
                "block frames ("@,
                given,
                ") must not exceed the prepared max_block ("@,
                prepared,
                ")"@,
            ),
            GeometryFault::WrongForm => "ctx.main I/O shape must match the processor's io_mode()"@,
            GeometryFault::InPlaceFrames { given, frames } => counted(
                "in-place main frame count ("@,
                given,
                ") must equal ctx.frames ("@,
                frames,
                ")"@,
            ),
            GeometryFault::OutputOnlyFrames { given, frames } => counted(
                "output-only main frame count ("@,
                given,
                ") must equal ctx.frames ("@,
                frames,
                ")"@,
            ),
            GeometryFault::InputFrames { given, frames } => counted(
                "split input frame count ("@,
                given,
                ") must equal ctx.frames ("@,
                frames,
                ")"@,
            ),
            GeometryFault::OutputFrames { given, frames } => counted(
                "split output frame count ("@,
                given,
                ") must equal ctx.frames ("@,
                frames,
                ")"@,
            ),
            GeometryFault::MainChannels { given, prepared } => counted(
                "main channel count ("@,
                given,
                ") must equal the prepared channel count ("@,
                prepared,
                ")"@,
            ),
            GeometryFault::SplitChannels =>
                "split input and output must have equal channel counts"@,
            GeometryFault::SidechainBuses { given, declared } => counted(
                "sidechain bus count ("@,
                given,
                ") must equal sidechain_inputs() ("@,
                declared,
                ")"@,
            ),
            GeometryFault::SidechainFrames { bus, given, frames } => counted(
                "sidechain bus "@,
                bus,
                " has "@,
                given,
                " frames, fewer than the block's "@,
            ) + decimal_text(frames as nat),
            GeometryFault::FlushUnprepared => "flush requires a successful prepare"@,
            GeometryFault::FlushChannels { given, prepared } => counted(
                "flush output channel count ("@,
                given,
                ") must equal the prepared channel count ("@,
                prepared,
                ")"@,
            ),
        }
    }

    /// An explanation for a person.
    pub fn message(self) -> (r: String)
        ensures
            r@ == self.text(),
    {
        match self {
            GeometryFault::Unprepared => String::from_str("process requires a successful prepare"),
            GeometryFault::BlockTooLong { given, prepared } => counted_text(
                "block frames (",
                given,
                ") must not exceed the prepared max_block (",
                prepared,
                ")",
            ),
            GeometryFault::WrongForm => String::from_str(
                "ctx.main I/O shape must match the processor's io_mode()",
            ),
            GeometryFault::InPlaceFrames { given, frames } => counted_text(
                "in-place main frame count (",
                given,
                ") must equal ctx.frames (",
                frames,
                ")",
            ),
            GeometryFault::OutputOnlyFrames { given, frames } => counted_text(
                "output-only main frame count (",
                given,
                ") must equal ctx.frames (",
                frames,
                ")",
            ),
            GeometryFault::InputFrames { given, frames } => counted_text(
                "split input frame count (",
                given,
                ") must equal ctx.frames (",
                frames,
                ")",
            ),
            GeometryFault::OutputFrames { given, frames } => counted_text(
                "split output frame count (",
                given,
                ") must equal ctx.frames (",
                frames,
                ")",
            ),
            GeometryFault::MainChannels { given, prepared } => counted_text(
                "main channel count (",
                given,
                ") must equal the prepared channel count (",
                prepared,
                ")",
            ),
            GeometryFault::SplitChannels => String::from_str(
                "split input and output must have equal channel counts",
            ),
            GeometryFault::SidechainBuses { given, declared } => counted_text(
                "sidechain bus count (",
                given,
                ") must equal sidechain_inputs() (",
                declared,
                ")",
            ),
            GeometryFault::SidechainFrames { bus, given, frames } => {
                let mut r = counted_text(
                    "sidechain bus ",
                    bus,
                    " has ",
                    given,
                    " frames, fewer than the block's ",
                );
                push_decimal(&mut r, frames as u64);
                r
            },
            GeometryFault::FlushUnprepared => String::from_str(
                "flush requires a successful prepare",
            ),
            GeometryFault::FlushChannels { given, prepared } => counted_text(
                "flush output channel count (",
                given,
                ") must equal the prepared channel count (",
                prepared,
                ")",
            ),
        }
    }
}

/// The first sidechain bus from `bus` on that is shorter than `frames`.
pub open spec fn short_bus<T>(sidechain: Seq<AudioBlock<'_, '_, T>>, frames: usize, bus: int) -> Option<
    usize,
>
    decreases sidechain.len() - bus,
{
    if bus >= sidechain.len() {
        None
    } else if sidechain[bus].length() < frames {
        Some(bus as usize)
    } else {
        short_bus(sidechain, frames, bus + 1)
    }
}

/// How the main signal departs from the prepared shape, if it does.
pub open spec fn main_fault<T>(p: PreparedContract, main: Io<'_, '_, T>, frames: usize) -> Option<
    GeometryFault,
> {
    let channels = main.output().len();
    if main.mode() != p.io_mode {
        Some(GeometryFault::WrongForm)
    } else if main is InPlace && main.length() != frames {
        Some(GeometryFault::InPlaceFrames { given: main.length(), frames })
    } else if main is OutputOnly && main.length() != frames {
        Some(GeometryFault::OutputOnlyFrames { given: main.length(), frames })
    } else if main is Split && main->input.length() != frames {
        Some(GeometryFault::InputFrames { given: main->input.length(), frames })
    } else if main is Split && main.length() != frames {
        Some(GeometryFault::OutputFrames { given: main.length(), frames })
    } else if channels != p.channels {
        Some(GeometryFault::MainChannels { given: channels as usize, prepared: p.channels })
    } else if main is Split && main.input().len() != channels {
        Some(GeometryFault::SplitChannels)
    } else {
        None
    }
}

/// How a block departs from the prepared shape, if it does.
pub open spec fn geometry_fault<T: Sample>(
    p: PreparedContract,
    ctx: ProcessContext<'_, '_, T>,
) -> Option<GeometryFault> {
    if ctx.frames > p.max_block {
        Some(GeometryFault::BlockTooLong { given: ctx.frames, prepared: p.max_block })
    } else if main_fault(p, ctx.main, ctx.frames) is Some {
        main_fault(p, ctx.main, ctx.frames)
    } else if ctx.sidechain@.len() != p.sidechain_inputs {
        Some(
            GeometryFault::SidechainBuses {
                given: ctx.sidechain@.len() as usize,
                declared: p.sidechain_inputs,
            },
        )
    } else {
        match short_bus(ctx.sidechain@, ctx.frames, 0) {
            Some(bus) => Some(
                GeometryFault::SidechainFrames {
                    bus,
                    given: ctx.sidechain@[bus as int].length(),
                    frames: ctx.frames,
                },
            ),
            None => None,
        }
    }
}

impl PreparedContract {
    /// Check the main signal of a block.
    fn check_main<T>(&self, main: &Io<'_, '_, T>, frames: usize) -> (r: Option<GeometryFault>)
        ensures
            r == main_fault(*self, *main, frames),
    {
        match main {
            Io::InPlace(block) => if self.io_mode != IoMode::InPlace {
                Some(GeometryFault::WrongForm)
            } else if block.frames() != frames {
                Some(GeometryFault::InPlaceFrames { given: block.frames(), frames })
            } else if block.channels() != self.channels {
                Some(
                    GeometryFault::MainChannels {
                        given: block.channels(),
                        prepared: self.channels,
                    },
                )
            } else {
                None
            },
            Io::OutputOnly(output) => if self.io_mode != IoMode::OutputOnly {
                Some(GeometryFault::WrongForm)
            } else if output.frames() != frames {
                Some(GeometryFault::OutputOnlyFrames { given: output.frames(), frames })
            } else if output.channels() != self.channels {
                Some(
                    GeometryFault::MainChannels {
                        given: output.channels(),
                        prepared: self.channels,
                    },
                )
            } else {
                None
            },
            Io::Split { input, output } => if self.io_mode != IoMode::Split {
                Some(GeometryFault::WrongForm)
            } else if input.frames() != frames {
                Some(GeometryFault::InputFrames { given: input.frames(), frames })
            } else if output.frames() != frames {
                Some(GeometryFault::OutputFrames { given: output.frames(), frames })
            } else if output.channels() != self.channels {
                Some(
                    GeometryFault::MainChannels {
                        given: output.channels(),
                        prepared: self.channels,
                    },
                )
            } else if input.channels() != output.channels() {
                Some(GeometryFault::SplitChannels)
            } else {
                None
            },
        }
    }

    /// Hold a block against the prepared shape.
    pub fn validate_geometry<T: Sample>(&self, ctx: &ProcessContext<'_, '_, T>) -> (r: Option<
        GeometryFault,
    >)
        ensures
            r == geometry_fault(*self, *ctx),
    {
        if ctx.frames > self.max_block {
            return Some(
                GeometryFault::BlockTooLong { given: ctx.frames, prepared: self.max_block },
            );
        }
        let main = self.check_main(&ctx.main, ctx.frames);
        if main.is_some() {
            return main;
        }
        if ctx.sidechain.len() != self.sidechain_inputs {
            return Some(
                GeometryFault::SidechainBuses {
                    given: ctx.sidechain.len(),
                    declared: self.sidechain_inputs,
                },
            );
        }
        let mut bus: usize = 0;
        while bus < ctx.sidechain.len()
            invariant
                0 <= bus <= ctx.sidechain@.len(),
                ctx.frames <= self.max_block,
                main_fault(*self, ctx.main, ctx.frames) is None,
                ctx.sidechain@.len() == self.sidechain_inputs,
                short_bus(ctx.sidechain@, ctx.frames, 0) == short_bus(
                    ctx.sidechain@,
                    ctx.frames,
                    bus as int,
                ),
            decreases ctx.sidechain@.len() - bus,
        {
            let given: usize = ctx.sidechain[bus].frames();
            if given < ctx.frames {
                return Some(GeometryFault::SidechainFrames { bus, given, frames: ctx.frames });
            }
            bus += 1;
        }
        None
    }

    /// Hold a drain's output against the prepared channel count. Its frame
    /// capacity is independent of the prepared block size.
    pub fn validate_flush_geometry<T>(&self, out: &AudioBlockMut<'_, '_, T>) -> (r: Option<
        GeometryFault,
    >)
        ensures
            r == (if out.samples().len() != self.channels {
                Some(
                    GeometryFault::FlushChannels {
                        given: out.samples().len() as usize,
                        prepared: self.channels,
                    },
                )
            } else {
                None
            }),
    {
        if out.channels() != self.channels {
            Some(GeometryFault::FlushChannels { given: out.channels(), prepared: self.channels })
        } else {
            None
        }
    }
}

/// Hold a block against the shape that a processor was prepared for, if it was.
///
/// Block shape is a host precondition, so a host checks it where it wants a
/// specific report instead of undefined processing.
pub fn validate_geometry<T: Sample>(
    prepared: Option<&PreparedContract>,
    ctx: &ProcessContext<'_, '_, T>,
) -> (r: Option<GeometryFault>)
    ensures
        r == (match prepared {
            None => Some(GeometryFault::Unprepared),
            Some(p) => geometry_fault(*p, *ctx),
        }),
{
    match prepared {
        None => Some(GeometryFault::Unprepared),
        Some(p) => p.validate_geometry(ctx),
    }
}

/// Hold a drain's output against the shape that a processor was prepared for, if
/// it was.
pub fn validate_flush_geometry<T>(
    prepared: Option<&PreparedContract>,
    out: &AudioBlockMut<'_, '_, T>,
) -> (r: Option<GeometryFault>)
    ensures
        r == (match prepared {
            None => Some(GeometryFault::FlushUnprepared),
            Some(p) => if out.samples().len() != p.channels {
                Some(
                    GeometryFault::FlushChannels {
                        given: out.samples().len() as usize,
                        prepared: p.channels,
                    },
                )
            } else {
                None
            },
        }),
{
    match prepared {
        None => Some(GeometryFault::FlushUnprepared),
        Some(p) => p.validate_flush_geometry(out),
    }
}

/// A block without a fault has the shape that the processor was prepared for.
pub proof fn faultless_block_fits<T: Sample>(p: PreparedContract, ctx: ProcessContext<'_, '_, T>)
    requires
        geometry_fault(p, ctx) is None,
    ensures
        ctx.geometry().mode == p.io_mode,
        ctx.geometry().channels == p.channels,
        ctx.geometry().buses == p.sidechain_inputs,
        ctx.geometry().frames <= p.max_block,
        ctx.main.length() == ctx.frames,
        forall|bus: int|
            0 <= bus < ctx.sidechain@.len() ==> ctx.frames <= (#[trigger] ctx.sidechain@[bus]).length(),
{
    lemma_no_short_bus(ctx.sidechain@, ctx.frames, 0);
}

proof fn lemma_no_short_bus<T>(sidechain: Seq<AudioBlock<'_, '_, T>>, frames: usize, from: int)
    requires
        0 <= from,
        short_bus(sidechain, frames, from) is None,
    ensures
        forall|bus: int|
            from <= bus < sidechain.len() ==> frames <= (#[trigger] sidechain[bus]).length(),
    decreases sidechain.len() - from,
{
    if from < sidechain.len() {
        lemma_no_short_bus(sidechain, frames, from + 1);
    }
}

// ---------------------------------------------------------------------------
// The wrapper that owns the bank
// ---------------------------------------------------------------------------

/// Owns a kernel plus the smoother bank and drives it as a [`Processor`].
///
/// Preparing builds the smoother bank from the kernel's declared parameters.
/// Under a memory cap the bank is reserved first and the kernel is handed the
/// remainder; the total is checked again once the kernel has prepared.
#[derive(Debug)]
pub struct KernelProcessor<K, T: Sample> {
    kernel: K,
    bank: SmootherBank<T::Real>,
    prepared: Option<PreparedContract>,
    _sample: PhantomData<T>,
}

/// The bytes that the bank takes, or why the wrapper cannot be prepared
/// whatever the kernel says.
pub open spec fn wrapper_outcome<R: Real>(
    count: usize,
    info: Seq<ParamInfo<R>>,
    spec: ProcessSpec,
) -> Result<usize, DspError> {
    if count != info.len() {
        Err(DspError::InvalidParam("typed parameter count must match param_info"))
    } else {
        match metadata_outcome(info, 0) {
            Err(e) => Err(e),
            Ok(_) => bank_admission::<R>(info.len(), spec.max_memory),
        }
    }
}

/// What the kernel is asked to prepare for once the bank has its bytes.
pub open spec fn kernel_share(spec: ProcessSpec, bank: usize) -> ProcessSpec {
    match spec.max_memory {
        Some(cap) => ProcessSpec { max_memory: Some((cap - bank) as usize), ..spec },
        None => spec,
    }
}

/// The total check after the kernel has prepared and holds `kernel` bytes.
pub open spec fn total_outcome(kernel: usize, bank: usize, cap: usize) -> Result<(), DspError> {
    if kernel + bank > usize::MAX {
        Err(DspError::OverBudget { needed: usize::MAX, cap })
    } else if kernel + bank > cap {
        Err(DspError::OverBudget { needed: (kernel + bank) as usize, cap })
    } else {
        Ok(())
    }
}

/// A total that passes stays within the cap, kernel and bank together.
pub proof fn passed_total_fits(kernel: usize, bank: usize, cap: usize)
    ensures
        total_outcome(kernel, bank, cap) is Ok <==> kernel + bank <= cap,
{
}

impl<K, T: Sample> KernelProcessor<K, T> {
    /// The wrapped kernel.
    pub closed spec fn kernel(&self) -> K {
        self.kernel
    }

    /// The smoothers, in declaration order.
    pub closed spec fn bank(&self) -> Seq<Smoother<T::Real>> {
        self.bank@
    }

    /// What the wrapper was prepared for.
    pub closed spec fn prepared(&self) -> Option<PreparedContract> {
        self.prepared
    }

    /// Wrap a kernel. The smoother bank is built when the wrapper is prepared.
    pub fn new(kernel: K) -> (r: Self)
        ensures
            r.kernel() == kernel,
            r.bank() == Seq::<Smoother<T::Real>>::empty(),
            r.prepared() is None,
    {
        Self::with_sample_type(kernel)
    }

    /// Wrap a kernel for an explicit sample type.
    pub fn with_sample_type(kernel: K) -> (r: Self)
        ensures
            r.kernel() == kernel,
            r.bank() == Seq::<Smoother<T::Real>>::empty(),
            r.prepared() is None,
    {
        Self { kernel, bank: SmootherBank::empty(), prepared: None, _sample: PhantomData }
    }
}

impl<T: Sample, K: Kernel<T>> KernelProcessor<K, T> {
    /// The state of the kernel.
    pub open spec fn model(&self) -> K::Model {
        self.kernel().model()
    }

    /// How preparing for `spec` is answered where the kernel declares `info`, and what
    /// it makes of the wrapper. A failure installs nothing: the bank stays, and where
    /// the wrapper's own checks fail, so does the kernel.
    pub open spec fn readied(
        &self,
        spec: ProcessSpec,
        info: Seq<ParamInfo<T::Real>>,
        after: &Self,
        answer: Result<(), DspError>,
    ) -> bool {
        &&& answer is Err ==> after.prepared() is None && after.bank() == self.bank()
        &&& answer is Ok ==> after.model() == K::rest(after.model())
        &&& answer is Ok ==> exists|mode: IoMode, buses: nat|
            #[trigger] after.kernel().accepts(mode, spec.channels as nat, buses)
        &&& match wrapper_outcome(K::Params::COUNT, info, spec) {
            Err(e) => answer == Err::<(), DspError>(e) && after.kernel() == self.kernel(),
            Ok(bytes) => match self.kernel().outcome(kernel_share(spec, bytes)) {
                Err(e) => answer == Err::<(), DspError>(e),
                Ok(_) => {
                    &&& after.model() == self.kernel().made(kernel_share(spec, bytes))
                    &&& spec.max_memory matches Some(cap) ==> exists|own: usize| #[trigger]
                        call_ensures(K::memory_footprint, (&after.kernel(),), own) && answer
                            == total_outcome(own, bytes, cap)
                    &&& spec.max_memory is None ==> answer is Ok
                    &&& answer is Ok ==> {
                        &&& after.bank() == fresh_bank(info, spec.sample_rate)
                        &&& after.prepared() is Some
                        &&& after.prepared()->0.max_block == spec.max_block
                        &&& after.prepared()->0.channels == spec.channels
                        &&& call_ensures(
                            K::io_mode,
                            (&after.kernel(),),
                            after.prepared()->0.io_mode,
                        )
                        &&& call_ensures(
                            K::sidechain_inputs,
                            (&after.kernel(),),
                            after.prepared()->0.sidechain_inputs,
                        )
                    }
                },
            },
        }
    }

    /// What processing `x` makes of the wrapper and of the output.
    pub open spec fn processed(&self, x: BlockView<T>, after: &Self, output: Seq<Seq<T>>) -> bool {
        let b = Block { x: x.input, key: x.key, events: x.events, frames: x.frames, pos: x.pos };
        &&& after.model() == kernel_after::<T, K>(self.model(), self.bank(), b, b.frames)
        &&& after.bank() == bank_after(self.bank(), b.events, b.frames, b.frames, b.pos)
        &&& output == driven_output::<T, K>(self.model(), self.bank(), b, x.output.len())
        &&& after.prepared() == self.prepared()
        &&& after.kernel().standing() == self.kernel().standing()
    }

    /// How a direct parameter write is answered, and what it makes of the wrapper.
    pub open spec fn assigned(
        &self,
        id: ParamId,
        value: T::Real,
        after: &Self,
        answer: Result<(), ParamSetError<T::Real>>,
    ) -> bool {
        &&& answer == write_outcome(self.bank(), id, value)
        &&& after.bank() == (if answer is Ok {
            bank_pinned(self.bank(), id, value)
        } else {
            self.bank()
        })
        &&& after.kernel() == self.kernel()
        &&& after.prepared() == self.prepared()
    }

    /// `after` is this wrapper with some of its latency or tail drained.
    pub open spec fn emptied(&self, after: &Self) -> bool {
        &&& K::rest(after.model()) == K::rest(self.model())
        &&& after.bank() == self.bank()
        &&& after.prepared() == self.prepared()
        &&& after.kernel().standing() == self.kernel().standing()
    }

    /// `after` is this wrapper returned to its state after `prepare`.
    pub open spec fn restored(&self, after: &Self) -> bool {
        &&& after.model() == K::rest(self.model())
        &&& after.bank() == bank_rested(self.bank())
        &&& after.prepared() == self.prepared()
        &&& after.kernel().standing() == self.kernel().standing()
    }
}

impl<T: Sample, K: Kernel<T>> Processor<T> for KernelProcessor<K, T> {
    open spec fn inv(&self) -> bool {
        &&& self.kernel().inv()
        &&& sound_bank(self.bank())
        &&& self.prepared() is Some ==> self.bank().len() == K::Params::COUNT
    }

    open spec fn admits(&self, g: Geometry) -> bool {
        &&& self.prepared() is Some
        &&& self.kernel().accepts(g.mode, g.channels, g.buses)
        &&& g.frames <= self.prepared()->0.max_block
        &&& on_timeline(g.pos, g.frames as int)
    }

    open spec fn drained(&self) -> bool {
        K::drained(self.model())
    }

    open spec fn standing(&self) -> Standing<T::Real> {
        let own = self.kernel().standing();
        Standing {
            footprint: saturated(
                own.footprint as nat + bank_bytes::<T::Real>(self.bank().len()) as nat,
            ),
            ..own
        }
    }

    fn prepare(&mut self, spec: ProcessSpec) -> (r: Result<(), DspError>)
        ensures
            exists|info: &[ParamInfo<T::Real>]| #[trigger]
                call_ensures(K::param_info, (&old(self).kernel(),), info) && old(self).readied(
                    spec,
                    info@,
                    final(self),
                    r,
                ) && (wrapper_outcome(K::Params::COUNT, info@, spec) matches Ok(bytes) ==> exists|
                    k: &mut K,
                    a: Result<(), DspError>,
                | #[trigger]
                    call_ensures(K::prepare, (k, kernel_share(spec, bytes)), a) && *k
                        == old(self).kernel() && *final(k) == final(self).kernel()),
    {
        self.prepared = None;
        let info = self.kernel.param_info();
        assert(call_ensures(K::param_info, (&old(self).kernel(),), info));
        if K::Params::COUNT != info.len() {
            return Err(DspError::InvalidParam("typed parameter count must match param_info"));
        }
        match validate_param_info(info) {
            Err(e) => {
                return Err(e);
            },
            Ok(()) => {},
        }
        let bank_bytes = match MemoryLayout::new().array::<Smoother<T::Real>>(info.len()).preflight(
            spec.max_memory,
        ) {
            Err(e) => {
                return Err(e);
            },
            Ok(n) => n,
        };
        let kernel_spec = match spec.max_memory {
            Some(cap) => ProcessSpec { max_memory: Some(cap - bank_bytes), ..spec },
            None => spec,
        };
        // The bank is built before the kernel is touched and installed only
        // once every check has passed.
        let bank = SmootherBank::new(info, &spec);
        assert(kernel_spec == kernel_share(spec, bank_bytes));
        let answer = self.kernel.prepare(kernel_spec);
        assert(exists|k: &mut K| #[trigger]
            call_ensures(K::prepare, (k, kernel_spec), answer) && *k == old(self).kernel()
                && *final(k) == self.kernel());
        match answer {
            Err(e) => {
                return Err(e);
            },
            Ok(()) => {},
        }
        let ghost (mode, buses) = choose|mode: IoMode, buses: nat|
            #[trigger] self.kernel.accepts(mode, kernel_spec.channels as nat, buses);
        let ghost mut held = 0usize;
        // Kernels need not honor their share, so the total is checked again.
        if let Some(cap) = spec.max_memory {
            let own = self.kernel.memory_footprint();
            assert(call_ensures(K::memory_footprint, (&self.kernel(),), own));
            proof {
                held = own;
            }
            match own.checked_add(bank_bytes) {
                None => {
                    return Err(DspError::OverBudget { needed: usize::MAX, cap });
                },
                Some(total) => {
                    if total > cap {
                        return Err(DspError::OverBudget { needed: total, cap });
                    }
                },
            }
        }
        self.bank = bank;
        let io_mode = self.kernel.io_mode();
        let sidechain_inputs = self.kernel.sidechain_inputs();
        self.prepared =
        Some(
            PreparedContract {
                max_block: spec.max_block,
                channels: spec.channels,
                io_mode,
                sidechain_inputs,
            },
        );
        proof {
            if spec.max_memory is Some {
                assert(call_ensures(K::memory_footprint, (&self.kernel(),), held));
            }
            assert(self.kernel().accepts(mode, spec.channels as nat, buses));
        }
        Ok(())
    }

    fn reset(&mut self)
        ensures
            old(self).restored(final(self)),
    {
        self.kernel.reset();
        self.bank.reset();
    }

    fn latency(&self) -> (r: usize)
        ensures
            call_ensures(K::latency, (&self.kernel(),), r),
    {
        self.kernel.latency()
    }

    fn tail(&self) -> (r: Tail)
        ensures
            call_ensures(K::tail, (&self.kernel(),), r),
    {
        self.kernel.tail()
    }

    fn io_mode(&self) -> (r: IoMode)
        ensures
            call_ensures(K::io_mode, (&self.kernel(),), r),
    {
        self.kernel.io_mode()
    }

    fn memory_footprint(&self) -> (r: usize)
        ensures
            exists|own: usize| #[trigger]
                call_ensures(K::memory_footprint, (&self.kernel(),), own) && r == (if own
                    + bank_bytes::<T::Real>(self.bank().len()) > usize::MAX {
                    usize::MAX
                } else {
                    (own + bank_bytes::<T::Real>(self.bank().len())) as usize
                }),
    {
        let own = self.kernel.memory_footprint();
        assert(call_ensures(K::memory_footprint, (&self.kernel(),), own));
        own.saturating_add(self.bank.footprint())
    }

    fn param_info(&self) -> (r: &[ParamInfo<T::Real>])
        ensures
            call_ensures(K::param_info, (&self.kernel(),), r),
    {
        self.kernel.param_info()
    }

    fn sidechain_inputs(&self) -> (r: usize)
        ensures
            call_ensures(K::sidechain_inputs, (&self.kernel(),), r),
    {
        self.kernel.sidechain_inputs()
    }

    fn set_parameter_immediate(&mut self, id: ParamId, value: T::Real) -> (r: Result<
        (),
        ParamSetError<T::Real>,
    >)
        ensures
            old(self).assigned(id, value, final(self), r),
    {
        self.bank.set_immediate(id, value)
    }

    fn process(&mut self, ctx: &mut ProcessContext<'_, '_, T>)
        ensures
            old(self).processed(old(ctx).seen(), final(self), final(ctx).main.output()),
    {
        // That zero is finite keeps every smoother in its range.
        let _ = T::Real::zero();
        drive(&mut self.kernel, &mut self.bank, ctx);
        proof {
            let x = old(ctx).seen();
            let b = Block { x: x.input, key: x.key, events: x.events, frames: x.frames, pos: x.pos };
            assert(b == driven_block(*old(ctx)));
            lemma_bank_after_sound(old(self).bank(), b.events, b.frames, b.frames, b.pos);
        }
    }

    fn flush(&mut self, out: &mut AudioBlockMut<'_, '_, T>) -> (r: Produced)
        ensures
            exists|k: &mut K, o: &mut AudioBlockMut<'_, '_, T>| #[trigger]
                call_ensures(K::flush, (k, o), r) && *k == old(self).kernel() && *final(k)
                    == final(self).kernel() && *o == *old(out) && *final(o) == *final(out),
            old(self).emptied(final(self)),
    {
        proof {
            let g = choose|g: Geometry|
                #[trigger] old(self).admits(g) && g.channels == old(out).samples().len();
            assert(self.kernel.accepts(g.mode, old(out).samples().len(), g.buses));
        }
        self.kernel.flush(out)
    }
}

proof fn lemma_short_bus<T>(sidechain: Seq<AudioBlock<'_, '_, T>>, frames: usize, from: int)
    requires
        0 <= from <= sidechain.len() <= usize::MAX,
    ensures
        match short_bus(sidechain, frames, from) {
            Some(bus) => from <= bus < sidechain.len() && sidechain[bus as int].length() < frames
                && forall|k: int|
                from <= k < bus ==> frames <= (#[trigger] sidechain[k]).length(),
            None => forall|k: int|
                from <= k < sidechain.len() ==> frames <= (#[trigger] sidechain[k]).length(),
        },
    decreases sidechain.len() - from,
{
    if from < sidechain.len() && sidechain[from].length() >= frames {
        lemma_short_bus(sidechain, frames, from + 1);
    }
}

/// A block is without fault exactly where it has the prepared shape: the prepared form, no more
/// frames than prepared, as many channels as prepared on each side, as many sidechain buses as
/// declared, and its frame count on the main signal and at least that on every bus.
pub proof fn blocks_of_the_prepared_shape_have_no_fault<T: Sample>(
    p: PreparedContract,
    ctx: ProcessContext<'_, '_, T>,
)
    requires
        ctx.sidechain@.len() <= usize::MAX,
    ensures
        geometry_fault(p, ctx) is None <==> {
            &&& ctx.frames <= p.max_block
            &&& ctx.main.mode() == p.io_mode
            &&& ctx.main.length() == ctx.frames
            &&& ctx.main.output().len() == p.channels
            &&& ctx.main is Split ==> ctx.main->input.length() == ctx.frames
                && ctx.main.input().len() == p.channels
            &&& ctx.sidechain@.len() == p.sidechain_inputs
            &&& forall|bus: int|
                0 <= bus < ctx.sidechain@.len() ==> ctx.frames <= (
                #[trigger] ctx.sidechain@[bus]).length()
        },
{
    lemma_short_bus(ctx.sidechain@, ctx.frames, 0);
}

/// A fault names what it is about: the two numbers that it gives are those of the block and of
/// the preparation, and they do not agree.
pub proof fn faults_name_what_differs<T: Sample>(
    p: PreparedContract,
    ctx: ProcessContext<'_, '_, T>,
)
    requires
        ctx.sidechain@.len() <= usize::MAX,
        ctx.main.output().len() <= usize::MAX,
    ensures
        match geometry_fault(p, ctx) {
            Some(GeometryFault::BlockTooLong { given, prepared }) => given == ctx.frames && prepared
                == p.max_block && prepared < given,
            Some(GeometryFault::WrongForm) => ctx.main.mode() != p.io_mode,
            Some(GeometryFault::InPlaceFrames { given, frames }) => ctx.main is InPlace && given
                == ctx.main.length() && frames == ctx.frames && given != frames,
            Some(GeometryFault::OutputOnlyFrames { given, frames }) => ctx.main is OutputOnly
                && given == ctx.main.length() && frames == ctx.frames && given != frames,
            Some(GeometryFault::InputFrames { given, frames }) => ctx.main is Split && given
                == ctx.main->input.length() && frames == ctx.frames && given != frames,
            Some(GeometryFault::OutputFrames { given, frames }) => ctx.main is Split && given
                == ctx.main.length() && frames == ctx.frames && given != frames,
            Some(GeometryFault::MainChannels { given, prepared }) => given
                == ctx.main.output().len() && prepared == p.channels && given != prepared,
            Some(GeometryFault::SplitChannels) => ctx.main is Split && ctx.main.input().len()
                != ctx.main.output().len(),
            Some(GeometryFault::SidechainBuses { given, declared }) => given
                == ctx.sidechain@.len() && declared == p.sidechain_inputs && given != declared,
            Some(GeometryFault::SidechainFrames { bus, given, frames }) => bus
                < ctx.sidechain@.len() && given == ctx.sidechain@[bus as int].length() && frames
                == ctx.frames && given < frames,
            Some(_) => false,
            None => true,
        },
{
    lemma_short_bus(ctx.sidechain@, ctx.frames, 0);
}

} // verus!
