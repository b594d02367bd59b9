//! Replaying a stream through a processor.

use crate::contract::block::{
    exclusive_planes, rectangular, shared_planes, AudioBlock, AudioBlockMut, Io, IoMode,
};
use crate::contract::context::ProcessContext;
use crate::contract::error::DspError;
use crate::contract::param::ParamEvent;
use crate::contract::spec::ProcessSpec;
use crate::contract::traits::{sorted_events, BlockView, Geometry, Processor};
use crate::dsp::memory::{filled_rows, rows};
use crate::host::{acceptable, shape_of};
use crate::number::{nil, Real, Sample};
use crate::testing::harness::{
    block_end, block_events, block_events_stay_sorted, cut_out, cut_planes, end_of, events_in,
    signal_frames, Contract,
};
use vstd::prelude::*;

verus! {

/// Lend the samples `[lo, hi)` of a buffer.
fn lend_one<'a, T>(buffer: &'a mut Vec<T>, lo: usize, hi: usize) -> (r: &'a mut [T])
    requires
        lo <= hi <= old(buffer)@.len(),
    ensures
        r@ == old(buffer)@.subrange(lo as int, hi as int),
        final(buffer)@ == old(buffer)@.subrange(0, lo as int) + (final(r)@ + old(
            buffer,
        )@.subrange(hi as int, old(buffer)@.len() as int)),
{
    let (before, from) = buffer.as_mut_slice().split_at_mut(lo);
    let (run, after) = from.split_at_mut(hi - lo);
    assert(run@ =~= old(buffer)@.subrange(lo as int, hi as int));
    assert(after@ =~= old(buffer)@.subrange(hi as int, old(buffer)@.len() as int));
    run
}

/// Lend the frames `[lo, hi)` of every buffer.
fn lend<'a, T>(buffers: &'a mut [Vec<T>], lo: usize, hi: usize) -> (r: Vec<&'a mut [T]>)
    requires
        lo <= hi,
        forall|ch: int|
            0 <= ch < old(buffers)@.len() ==> hi <= (#[trigger] old(buffers)@[ch])@.len(),
    ensures
        r@.len() == old(buffers)@.len(),
        final(buffers)@.len() == old(buffers)@.len(),
        exclusive_planes(r@) == cut_out(rows(old(buffers)@), lo as int, hi as int),
        forall|ch: int|
            0 <= ch < r@.len() ==> (#[trigger] final(buffers)@[ch])@ == old(
                buffers,
            )@[ch]@.subrange(0, lo as int) + (final(r@[ch])@ + old(buffers)@[ch]@.subrange(
                hi as int,
                old(buffers)@[ch]@.len() as int,
            )),
{
    let n: usize = buffers.len();
    let ghost all = buffers@;
    let mut rest = buffers;
    let mut r: Vec<&'a mut [T]> = Vec::new();
    let mut ch: usize = 0;
    while ch < n
        invariant
            0 <= ch <= n,
            n == all.len(),
            all == old(buffers)@,
            lo <= hi,
            forall|k: int| 0 <= k < n ==> hi <= (#[trigger] all[k])@.len(),
            r@.len() == ch,
            rest@ == all.skip(ch as int),
            final(buffers)@.len() >= ch,
            final(rest)@ == final(buffers)@.skip(ch as int),
            forall|k: int|
                0 <= k < ch ==> #[trigger] exclusive_planes(r@)[k] == all[k]@.subrange(
                    lo as int,
                    hi as int,
                ),
            forall|k: int|
                0 <= k < ch ==> (#[trigger] final(buffers)@[k])@ == all[k]@.subrange(0, lo as int)
                    + (final(r@[k])@ + all[k]@.subrange(hi as int, all[k]@.len() as int)),
        decreases n - ch,
    {
        let (first, tail) = rest.split_at_mut(1);
        assert(final(buffers)@.skip(ch as int) == final(first)@ + final(tail)@);
        let ghost lent = r@;
        r.push(lend_one(&mut first[0], lo, hi));
        proof {
            let left = final(buffers)@.skip(ch as int);
            assert(left.len() == 1 + final(tail)@.len());
            assert(left[0] == final(buffers)@[ch as int]);
            assert forall|k: int| 0 <= k < final(tail)@.len() implies final(tail)@[k]
                == final(buffers)@.skip(ch + 1)[k] by {
                assert(left[k + 1] == final(tail)@[k]);
            }
            assert(final(tail)@ =~= final(buffers)@.skip(ch + 1));
            assert forall|k: int| 0 <= k < ch + 1 implies #[trigger] exclusive_planes(r@)[k]
                == all[k]@.subrange(lo as int, hi as int) by {
                if k < ch {
                    assert(exclusive_planes(r@)[k] == exclusive_planes(lent)[k]);
                }
            }
            assert forall|k: int| 0 <= k < ch + 1 implies (#[trigger] final(buffers)@[k])@
                == all[k]@.subrange(0, lo as int) + (final(r@[k])@ + all[k]@.subrange(
                hi as int,
                all[k]@.len() as int,
            )) by {
                if k < ch {
                    assert(r@[k] == lent[k]);
                }
            }
        }
        rest = tail;
        ch += 1;
    }
    assert(exclusive_planes(r@) =~= cut_out(rows(all), lo as int, hi as int));
    r
}

/// The shape of a block at `pos`.
pub open spec fn block_shape(
    mode: IoMode,
    channels: nat,
    buses: nat,
    frames: nat,
    pos: int,
) -> Geometry {
    Geometry { mode, channels, buses, frames, pos }
}

/// The frame count of the block `[lo, hi)`: a signal without channels has none.
pub open spec fn part_frames(channels: nat, lo: int, hi: int) -> nat {
    if channels == 0 {
        0
    } else {
        (hi - lo) as nat
    }
}

/// What a processor is shown of `main` at `pos`.
pub open spec fn view_of<T: Sample>(
    main: Io<'_, '_, T>,
    keys: Seq<AudioBlock<'_, '_, T>>,
    events: Seq<ParamEvent<T::Real>>,
    pos: int,
) -> BlockView<T> {
    BlockView {
        mode: main.mode(),
        input: main.input(),
        output: main.output(),
        key: Seq::new(keys.len(), |bus: int| keys[bus].samples()),
        events,
        frames: main.length() as nat,
        pos,
    }
}

/// Process one block at `pos`.
fn play<'view, 'samples, T: Sample, P: Processor<T>>(
    proc: &mut P,
    main: Io<'view, 'samples, T>,
    keys: &'view [AudioBlock<'view, 'samples, T>],
    events: &'view [ParamEvent<T::Real>],
    pos: u64,
)
    requires
        old(proc).inv(),
        acceptable(main, keys@, events@),
        old(proc).admits(shape_of(main, keys@.len(), pos)),
    ensures
        final(proc).inv(),
        exists|p: &mut P, c: &mut ProcessContext<'view, 'samples, T>| #[trigger]
            call_ensures(P::process, (p, c), ()) && *p == *old(proc) && *final(p) == *final(proc)
                && c.seen() == view_of(main, keys@, events@, pos as int)
                && final(c).main.output() == exclusive_planes(final(main.table())@),
        rectangular(exclusive_planes(final(main.table())@), main.length() as nat),
        final(main.table())@.len() == main.output().len(),
        forall|ch: int|
            0 <= ch < main.output().len() ==> final(#[trigger] final(main.table())@[ch])@
                == final(main.plane(ch))@,
        forall|g: Geometry| old(proc).admits(g) ==> #[trigger] final(proc).admits(g),
{
    let mut ctx = ProcessContext::from_io(main, pos).with_sidechains(keys).with_events(events);
    assert(ctx.geometry() == shape_of(main, keys@.len(), pos));
    assert(ctx.seen().key =~= view_of(main, keys@, events@, pos as int).key);
    proc.process(&mut ctx);
    proof {
        ctx.main.table_settles();
        ctx.main.shows_its_planes();
        assert forall|ch: int| 0 <= ch < main.output().len() implies final(
            #[trigger] final(main.table())@[ch]
        )@ == final(main.plane(ch))@ by {
            assert(ctx.main.plane(ch) == final(main.table())@[ch]);
        }
    }
}

/// Process the frames `[lo, hi)` of `buffers`, from `input` where the signal is
/// split.
fn play_range<T: Sample, P: Processor<T>>(
    proc: &mut P,
    mode: IoMode,
    input: &[&[T]],
    buffers: &mut Vec<Vec<T>>,
    keys: &[AudioBlock<'_, '_, T>],
    events: &[ParamEvent<T::Real>],
    lo: usize,
    hi: usize,
    Ghost(frames): Ghost<nat>,
)
    requires
        lo < hi <= frames,
        rectangular(rows(old(buffers)@), frames),
        mode == IoMode::Split ==> input@.len() == old(buffers)@.len() && rectangular(
            shared_planes(input@),
            (hi - lo) as nat,
        ),
        forall|bus: int|
            0 <= bus < keys@.len() ==> (#[trigger] keys@[bus]).wf() && hi - lo
                <= keys@[bus].length(),
        sorted_events(events@),
        frames <= u64::MAX,
        old(proc).inv(),
        old(proc).admits(
            block_shape(
                mode,
                old(buffers)@.len(),
                keys@.len(),
                part_frames(old(buffers)@.len(), lo as int, hi as int),
                lo as int,
            ),
        ),
    ensures
        final(proc).inv(),
        final(buffers)@.len() == old(buffers)@.len(),
        rectangular(rows(final(buffers)@), frames),
        exists|p: &mut P, c: &mut ProcessContext<'_, '_, T>| #[trigger]
            call_ensures(P::process, (p, c), ()) && *p == *old(proc) && *final(p) == *final(proc)
                && c.seen() == (BlockView {
                mode,
                input: match mode {
                    IoMode::InPlace => cut_out(rows(old(buffers)@), lo as int, hi as int),
                    IoMode::OutputOnly => Seq::empty(),
                    IoMode::Split => shared_planes(input@),
                },
                output: cut_out(rows(old(buffers)@), lo as int, hi as int),
                key: Seq::new(keys@.len(), |bus: int| keys@[bus].samples()),
                events: events@,
                frames: part_frames(old(buffers)@.len(), lo as int, hi as int),
                pos: lo as int,
            }) && final(c).main.output() == cut_out(rows(final(buffers)@), lo as int, hi as int),
        forall|ch: int, i: int|
            0 <= ch < old(buffers)@.len() && 0 <= i < frames && !(lo <= i < hi)
                ==> #[trigger] rows(final(buffers)@)[ch][i] == rows(old(buffers)@)[ch][i],
        forall|g: Geometry| old(proc).admits(g) ==> #[trigger] final(proc).admits(g),
{
    let ghost before = rows(buffers@);
    let ghost part = cut_out(before, lo as int, hi as int);
    assert forall|ch: int|
        0 <= ch < buffers@.len() implies hi <= (#[trigger] buffers@[ch])@.len() by {
        assert(before[ch].len() == frames);
    }
    let mut planes = lend(buffers.as_mut_slice(), lo, hi);
    let ghost lent = planes@;
    let block = AudioBlockMut::new(planes.as_mut_slice());
    let main = match mode {
        IoMode::InPlace => Io::InPlace(block),
        IoMode::OutputOnly => Io::OutputOnly(block),
        IoMode::Split => Io::Split { input: AudioBlock::new(input), output: block },
    };
    proof {
        main.shows_its_planes();
        assert(main.output() == part);
    }
    play(proc, main, keys, events, lo as u64);
    let ghost written = exclusive_planes(planes@);
    proof {
        assert(has_resolved(planes));
        assert forall|ch: int| 0 <= ch < before.len() implies #[trigger] written[ch]
            == final(lent[ch])@ by {
            assert(has_resolved(planes@[ch]));
            assert(final(planes@[ch])@ == final(lent[ch])@);
        }
    }
    proof {
        assert forall|ch: int| 0 <= ch < before.len() implies #[trigger] rows(buffers@)[ch]
            == before[ch].subrange(0, lo as int) + (written[ch] + before[ch].subrange(
            hi as int,
            frames as int,
        )) by {
            assert(before[ch].len() == frames);
            assert(buffers@[ch]@ == rows(buffers@)[ch]);
        }
        assert forall|ch: int| 0 <= ch < before.len() implies (#[trigger] rows(buffers@)[ch]).len()
            == frames && cut_out(rows(buffers@), lo as int, hi as int)[ch] == written[ch] by {
            assert(before[ch].len() == frames);
            assert(written[ch].len() == hi - lo);
            assert(cut_out(rows(buffers@), lo as int, hi as int)[ch] =~= written[ch]);
        }
        assert(cut_out(rows(buffers@), lo as int, hi as int) =~= written);
        assert forall|ch: int, i: int|
            0 <= ch < before.len() && 0 <= i < frames && !(lo <= i < hi) implies #[trigger] rows(
            buffers@,
        )[ch][i] == before[ch][i] by {
            assert(before[ch].len() == frames);
            assert(written[ch].len() == hi - lo);
        }
    }
}

// ---------------------------------------------------------------------------
// Streams
// ---------------------------------------------------------------------------

/// A stream to replay: the form of its signal, what is read, what is written
/// over, the sidechain buses, and the events on its timeline.
pub struct Stream<T: Sample> {
    pub mode: IoMode,
    pub input: Seq<Seq<T>>,
    pub output: Seq<Seq<T>>,
    pub key: Seq<Seq<Seq<T>>>,
    pub events: Seq<ParamEvent<T::Real>>,
    pub frames: nat,
}

/// What a processor is shown of the frames `[lo, hi)` of a stream.
pub open spec fn shown<T: Sample>(s: Stream<T>, lo: int, hi: int) -> BlockView<T> {
    BlockView {
        mode: s.mode,
        input: cut_out(s.input, lo, hi),
        output: cut_out(s.output, lo, hi),
        key: Seq::new(s.key.len(), |bus: int| cut_out(s.key[bus], lo, hi)),
        events: events_in(s.events, lo, hi),
        frames: part_frames(s.output.len(), lo, hi),
        pos: lo,
    }
}

/// How a stream was replayed: where its blocks begin and end, and the states of
/// the processor between them.
pub struct Run<P> {
    pub cuts: Seq<int>,
    pub states: Seq<P>,
}

impl<P> Run<P> {
    /// The number of blocks.
    pub open spec fn blocks(self) -> int {
        self.cuts.len() - 1
    }

    /// Block `k` starts where block `k - 1` ended and is cut after `block` frames.
    pub open spec fn cut_at(self, k: int, block: int, frames: int) -> bool {
        0 <= self.cuts[k] < self.cuts[k + 1] <= frames && self.cuts[k + 1] == end_of(
            self.cuts[k],
            block,
            frames,
        )
    }

    /// The blocks cover the frames up to `to`, from state `first` to state `last`.
    pub open spec fn spans(self, first: P, last: P, block: int, to: int, frames: int) -> bool {
        &&& self.cuts.len() >= 1
        &&& self.states.len() == self.cuts.len()
        &&& self.cuts[0] == 0
        &&& self.cuts.last() == to
        &&& self.states[0] == first
        &&& self.states.last() == last
        &&& forall|k: int| 0 <= k < self.blocks() ==> #[trigger] self.cut_at(k, block, frames)
    }

    /// The blocks cover a whole stream.
    pub open spec fn covers<T: Sample>(self, first: P, last: P, block: int, s: Stream<T>) -> bool {
        self.spans(first, last, block, s.frames as int, s.frames as int)
    }

    /// Block `k` starts where block `k - 1` ended.
    pub open spec fn goes_on(self, k: int, frames: int) -> bool {
        0 <= self.cuts[k] <= self.cuts[k + 1] <= frames
    }

    /// The blocks are consecutive and cover `frames` frames, whatever their sizes.
    pub open spec fn divides(self, frames: int) -> bool {
        &&& self.cuts.len() >= 1
        &&& self.states.len() == self.cuts.len()
        &&& self.cuts[0] == 0
        &&& self.cuts.last() == frames
        &&& forall|k: int| 0 <= k < self.blocks() ==> #[trigger] self.goes_on(k, frames)
    }

    /// Blocks of one size are consecutive blocks.
    pub proof fn covering_divides<T: Sample>(self, first: P, last: P, block: int, s: Stream<T>)
        requires
            self.covers(first, last, block, s),
        ensures
            self.divides(s.frames as int),
    {
        assert forall|k: int| 0 <= k < self.blocks() implies #[trigger] self.goes_on(
            k,
            s.frames as int,
        ) by {
            assert(self.cut_at(k, block, s.frames as int));
        }
    }

    /// What the processor is shown in block `k`.
    pub open spec fn view<T: Sample>(self, s: Stream<T>, k: int) -> BlockView<T> {
        shown(s, self.cuts[k], self.cuts[k + 1])
    }

    /// Block `k` of a signal.
    pub open spec fn part<T>(self, signal: Seq<Seq<T>>, k: int) -> Seq<Seq<T>> {
        cut_out(signal, self.cuts[k], self.cuts[k + 1])
    }
}

/// Blocks of a run end at or before its end.
proof fn lemma_cuts_rise<P>(
    run: Run<P>,
    first: P,
    last: P,
    block: int,
    to: int,
    frames: int,
    k: int,
)
    requires
        run.spans(first, last, block, to, frames),
        0 <= k < run.cuts.len(),
    ensures
        0 <= run.cuts[k] <= to,
    decreases run.cuts.len() - k,
{
    if k < run.blocks() {
        assert(run.cut_at(k, block, frames));
        lemma_cuts_rise(run, first, last, block, to, frames, k + 1);
    } else if k > 0 {
        assert(run.cut_at(k - 1, block, frames));
    }
}

/// Writing from `pos` on leaves an earlier part as it was.
proof fn lemma_part_stays<T>(
    now: Seq<Seq<T>>,
    held: Seq<Seq<T>>,
    frames: nat,
    lo: int,
    hi: int,
    pos: int,
)
    requires
        0 <= lo <= hi <= pos <= frames,
        rectangular(now, frames),
        rectangular(held, frames),
        held.len() == now.len(),
        forall|ch: int, i: int|
            0 <= ch < now.len() && 0 <= i < pos ==> #[trigger] now[ch][i] == held[ch][i],
    ensures
        cut_out(now, lo, hi) == cut_out(held, lo, hi),
{
    assert forall|ch: int| 0 <= ch < now.len() implies cut_out(now, lo, hi)[ch] == cut_out(
        held,
        lo,
        hi,
    )[ch] by {
        assert(now[ch].len() == frames);
        assert(held[ch].len() == frames);
        assert(cut_out(now, lo, hi)[ch] =~= cut_out(held, lo, hi)[ch]);
    }
    assert(cut_out(now, lo, hi) =~= cut_out(held, lo, hi));
}

/// The buses that a sidechain makes.
pub open spec fn buses<T>(sidechain: Option<&[Vec<T>]>) -> Seq<Seq<Seq<T>>> {
    match sidechain {
        Some(bus) => seq![rows(bus@)],
        None => Seq::empty(),
    }
}

/// A processor takes every block of up to `block` frames of a stream.
pub open spec fn takes_blocks<T: Sample, P: Processor<T>>(p: P, s: Stream<T>, block: int) -> bool {
    forall|n: nat, pos: int|
        n <= block && 0 <= pos <= pos + n <= s.frames ==> #[trigger] p.admits(
            block_shape(s.mode, s.output.len(), s.key.len(), n, pos),
        )
}

/// The channels cover the stream and events are sorted.
pub open spec fn replayable<T: Sample>(s: Stream<T>) -> bool {
    &&& rectangular(s.output, s.frames)
    &&& s.mode == IoMode::InPlace ==> s.input == s.output
    &&& s.mode == IoMode::OutputOnly ==> s.input.len() == 0
    &&& s.mode == IoMode::Split ==> s.input.len() == s.output.len()
    &&& forall|ch: int| 0 <= ch < s.input.len() ==> s.frames <= (#[trigger] s.input[ch]).len()
    &&& forall|bus: int, ch: int|
        0 <= bus < s.key.len() && 0 <= ch < s.key[bus].len() ==> s.frames <= (
        #[trigger] s.key[bus][ch]).len()
    &&& forall|bus: int| 0 <= bus < s.key.len() ==> (#[trigger] s.key[bus]).len() > 0
    &&& sorted_events(s.events)
    &&& s.frames <= usize::MAX
}

/// Replay a stream in blocks of `block` frames.
fn replay<T: Sample, P: Processor<T>>(
    proc: &mut P,
    mode: IoMode,
    input: &[Vec<T>],
    buffers: Vec<Vec<T>>,
    sidechain: Option<&[Vec<T>]>,
    events: &[ParamEvent<T::Real>],
    frames: usize,
    block: usize,
    Ghost(s): Ghost<Stream<T>>,
) -> (out: Vec<Vec<T>>)
    requires
        block >= 1,
        old(proc).inv(),
        s.mode == mode,
        s.output == rows(buffers@),
        mode == IoMode::Split ==> s.input == rows(input@),
        s.key == buses(sidechain),
        s.events == events@,
        s.frames == frames,
        replayable(s),
        takes_blocks(*old(proc), s, block as int),
    ensures
        final(proc).inv(),
        out@.len() == buffers@.len(),
        rectangular(rows(out@), frames as nat),
        exists|run: Run<P>| #[trigger]
            run.covers(*old(proc), *final(proc), block as int, s)
                && forall|k: int|
                0 <= k < run.blocks() && #[trigger] run.cut_at(k, block as int, s.frames as int)
                    ==> exists|p: &mut P, c: &mut ProcessContext<'_, '_, T>| #[trigger]
                    call_ensures(P::process, (p, c), ()) && *p == run.states[k]
                        && *final(p) == run.states[k + 1]
                        && c.seen() == run.view(s, k)
                        && final(c).main.output() == run.part(rows(out@), k),
        forall|g: Geometry| old(proc).admits(g) ==> #[trigger] final(proc).admits(g),
{
    let mut buffers = buffers;
    let mut pos: usize = 0;
    let ghost mut run = Run { cuts: seq![0int], states: seq![*proc] };
    while pos < frames
        invariant
            0 <= pos <= frames,
            frames == s.frames,
            block >= 1,
            proc.inv(),
            s.mode == mode,
            mode == IoMode::Split ==> s.input == rows(input@),
            s.key == buses(sidechain),
            s.events == events@,
            replayable(s),
            takes_blocks(*old(proc), s, block as int),
            buffers@.len() == s.output.len(),
            rectangular(rows(buffers@), frames as nat),
            forall|ch: int, i: int|
                0 <= ch < s.output.len() && pos <= i < frames ==> #[trigger] rows(buffers@)[ch][i]
                    == s.output[ch][i],
            forall|g: Geometry| old(proc).admits(g) ==> #[trigger] proc.admits(g),
            run.spans(*old(proc), *proc, block as int, pos as int, frames as int),
            forall|k: int|
                0 <= k < run.blocks() && #[trigger] run.cut_at(k, block as int, frames as int)
                    ==> exists|p: &mut P, c: &mut ProcessContext<'_, '_, T>| #[trigger]
                    call_ensures(P::process, (p, c), ()) && *p == run.states[k] && *final(p)
                        == run.states[k + 1] && c.seen() == run.view(s, k) && final(c).main.output()
                        == run.part(rows(buffers@), k),
        decreases frames - pos,
    {
        let end: usize = block_end(pos, block, frames);
        let evs = block_events(events, pos, end);
        proof {
            block_events_stay_sorted(events@, pos as int, end as int);
        }
        let none: &[Vec<T>] = &[];
        let inputs = match mode {
            IoMode::Split => input,
            _ => none,
        };
        assert forall|k: int|
            0 <= k < inputs@.len() implies end <= (#[trigger] inputs@[k])@.len() by {
            assert(s.input[k] == inputs@[k]@);
        }
        let planes = cut_planes(inputs, pos, end);
        proof {
            if let Some(bus) = sidechain {
                assert(s.key[0] == rows(bus@));
                assert forall|k: int|
                    0 <= k < bus@.len() implies end <= (#[trigger] bus@[k])@.len() by {
                    assert(s.key[0][k] == bus@[k]@);
                }
            }
        }
        let key_planes = match sidechain {
            Some(bus) => cut_planes(bus, pos, end),
            None => Vec::new(),
        };
        let mut keys: Vec<AudioBlock<'_, '_, T>> = Vec::new();
        if sidechain.is_some() {
            proof {
                let bus = s.key[0];
                assert(bus.len() > 0);
                assert forall|k: int| 0 <= k < bus.len() implies (#[trigger] shared_planes(
                    key_planes@,
                )[k]).len() == end - pos by {
                    assert(s.key[0][k].len() >= frames);
                }
            }
            keys.push(AudioBlock::new(key_planes.as_slice()));
        }
        let ghost before = *proc;
        let ghost held = rows(buffers@);
        let ghost x = shown(s, pos as int, end as int);
        proof {
            let part = cut_out(held, pos as int, end as int);
            assert forall|k: int| 0 <= k < part.len() implies part[k] == x.output[k] by {
                assert(held[k].len() == frames);
                assert(s.output[k].len() == frames);
                assert(part[k] =~= x.output[k]);
            }
            assert(part =~= x.output);
            assert(Seq::new(keys@.len(), |bus: int| keys@[bus].samples()) =~= x.key);
            let cut = shared_planes(planes@);
            assert(cut.len() == inputs@.len());
            assert forall|k: int| 0 <= k < cut.len() implies (#[trigger] cut[k]).len() == end
                - pos by {
                assert(s.input[k] == inputs@[k]@);
                assert(s.input[k].len() >= frames);
            }
            assert(mode == IoMode::OutputOnly ==> Seq::<Seq<T>>::empty() =~= x.input);
            let n = part_frames(s.output.len(), pos as int, end as int);
            assert(old(proc).admits(
                block_shape(s.mode, s.output.len(), s.key.len(), n, pos as int),
            ));
        }
        play_range(
            proc,
            mode,
            planes.as_slice(),
            &mut buffers,
            keys.as_slice(),
            evs.as_slice(),
            pos,
            end,
            Ghost(frames as nat),
        );
        proof {
            let now = rows(buffers@);
            let longer = Run { cuts: run.cuts.push(end as int), states: run.states.push(*proc) };
            assert forall|k: int| 0 <= k < longer.blocks() implies #[trigger] longer.cut_at(
                k,
                block as int,
                frames as int,
            ) by {
                if k < run.blocks() {
                    assert(run.cut_at(k, block as int, frames as int));
                }
            }
            assert forall|k: int|
                0 <= k < longer.blocks() && #[trigger] longer.cut_at(
                    k,
                    block as int,
                    frames as int,
                ) implies exists|p: &mut P, c: &mut ProcessContext<'_, '_, T>|
                #[trigger] call_ensures(P::process, (p, c), ()) && *p == longer.states[k]
                    && *final(p) == longer.states[k + 1] && c.seen() == longer.view(s, k)
                    && final(c).main.output() == longer.part(now, k) by {
                if k < run.blocks() {
                    lemma_cuts_rise(
                        run,
                        *old(proc),
                        before,
                        block as int,
                        pos as int,
                        frames as int,
                        k + 1,
                    );
                    assert(run.cut_at(k, block as int, frames as int));
                    assert(longer.view(s, k) == run.view(s, k));
                    lemma_part_stays(
                        now,
                        held,
                        frames as nat,
                        run.cuts[k],
                        run.cuts[k + 1],
                        pos as int,
                    );
                    assert(longer.part(now, k) == run.part(held, k));
                    assert(longer.states[k] == run.states[k]);
                    assert(longer.states[k + 1] == run.states[k + 1]);
                } else {
                    assert(longer.view(s, k) == x);
                    assert(longer.part(now, k) == cut_out(now, pos as int, end as int));
                    assert(longer.states[k] == before);
                    assert(longer.states[k + 1] == *proc);
                }
            }
            run = longer;
        }
        pos = end;
    }
    assert(run.covers(*old(proc), *proc, block as int, s));
    buffers
}

/// A signal that is processed in place.
pub open spec fn direct<T: Sample>(
    input: Seq<Vec<T>>,
    events: Seq<ParamEvent<T::Real>>,
) -> Stream<T> {
    let x = rows(input);
    Stream {
        mode: IoMode::InPlace,
        input: x,
        output: x,
        key: Seq::empty(),
        events,
        frames: signal_frames(x),
    }
}

/// A signal that is processed in place beside one sidechain bus.
pub open spec fn keyed<T: Sample>(
    input: Seq<Vec<T>>,
    sidechain: Seq<Vec<T>>,
    events: Seq<ParamEvent<T::Real>>,
) -> Stream<T> {
    Stream { key: seq![rows(sidechain)], ..direct(input, events) }
}

/// `frames` frames of silence over `channels` channels.
pub open spec fn silent<T: Sample>(channels: nat, frames: nat) -> Seq<Seq<T>> {
    Seq::new(channels, |ch: int| Seq::new(frames, |i: int| T::stored(nil())))
}

impl Contract {
    /// A signal that is read on one side and written over this contract's channels
    /// on the other.
    pub open spec fn through<T: Sample>(&self, input: Seq<Vec<T>>) -> Stream<T> {
        let x = rows(input);
        Stream {
            mode: IoMode::Split,
            input: x,
            output: silent(self.spec.channels as nat, signal_frames(x)),
            key: Seq::empty(),
            events: Seq::empty(),
            frames: signal_frames(x),
        }
    }

    /// `frames` frames that a source writes over this contract's channels.
    pub open spec fn drawn<T: Sample>(
        &self,
        frames: usize,
        events: Seq<ParamEvent<T::Real>>,
    ) -> Stream<T> {
        Stream {
            mode: IoMode::OutputOnly,
            input: Seq::empty(),
            output: silent(self.spec.channels as nat, frames as nat),
            key: Seq::empty(),
            events,
            frames: frames as nat,
        }
    }
}

/// A copy of planar buffers.
pub(crate) fn copied<T: Copy>(signal: &[Vec<T>]) -> (r: Vec<Vec<T>>)
    ensures
        rows(r@) == rows(signal@),
        r@.len() == signal@.len(),
{
    let mut r: Vec<Vec<T>> = Vec::new();
    let mut ch: usize = 0;
    while ch < signal.len()
        invariant
            0 <= ch <= signal@.len(),
            r@.len() == ch,
            forall|k: int| 0 <= k < ch ==> (#[trigger] r@[k])@ == signal@[k]@,
        decreases signal@.len() - ch,
    {
        let n: usize = signal[ch].len();
        let mut plane: Vec<T> = Vec::with_capacity(n);
        let mut i: usize = 0;
        while i < n
            invariant
                0 <= i <= n,
                ch < signal@.len(),
                n == signal@[ch as int]@.len(),
                plane@ =~= signal@[ch as int]@.take(i as int),
            decreases n - i,
        {
            plane.push(signal[ch][i]);
            i += 1;
        }
        assert(plane@ =~= signal@[ch as int]@);
        r.push(plane);
        ch += 1;
    }
    assert(rows(r@) =~= rows(signal@));
    r
}

/// The frame count of planar buffers.
pub(crate) fn frame_count<T>(signal: &[Vec<T>]) -> (r: usize)
    ensures
        r == signal_frames(rows(signal@)),
{
    if signal.len() > 0 {
        signal[0].len()
    } else {
        0
    }
}

/// Silent buffers.
fn silence<T: Sample>(channels: usize, frames: usize) -> (r: Vec<Vec<T>>)
    ensures
        rows(r@) == silent::<T>(channels as nat, frames as nat),
        r@.len() == channels,
{
    let r = filled_rows(T::from_real(T::Real::zero()), frames, channels);
    assert(rows(r@) =~= silent::<T>(channels as nat, frames as nat));
    r
}

/// A freshly built and prepared processor.
pub(crate) fn prepared<T: Sample, P: Processor<T>, F: Fn() -> P>(make: F, spec: ProcessSpec) -> (r: Result<
    P,
    DspError,
>)
    requires
        call_requires(make, ()),
        forall|p: P| #[trigger] call_ensures(make, (), p) ==> p.inv(),
    ensures
        match r {
            Ok(p) => p.inv() && exists|q: &mut P|
                call_ensures(make, (), *q) && #[trigger] call_ensures(
                    P::prepare,
                    (q, spec),
                    Ok(()),
                ) && *final(q) == p,
            Err(e) => exists|q: &mut P|
                call_ensures(make, (), *q) && #[trigger] call_ensures(
                    P::prepare,
                    (q, spec),
                    Err(e),
                ),
        },
{
    let mut p = make();
    let answer = p.prepare(spec);
    match answer {
        Err(e) => {
            return Err(e);
        },
        Ok(done) => {
            assert(done == ());
        },
    }
    assert(answer == Ok::<(), DspError>(()));
    Ok(p)
}

impl Contract {
    /// Run `input` through a freshly built and prepared processor, in place.
    pub fn run<T: Sample, P: Processor<T>, F: Fn() -> P>(
        &self,
        make: F,
        input: &[Vec<T>],
        events: &[ParamEvent<T::Real>],
        block: usize,
    ) -> (r: Result<Vec<Vec<T>>, DspError>)
        requires
            block >= 1,
            replayable(direct(input@, events@)),
            call_requires(make, ()),
            forall|p: P| #[trigger] call_ensures(make, (), p) ==> p.inv(),
            forall|q: &mut P| #[trigger]
                call_ensures(P::prepare, (q, self.spec), Ok(())) ==> takes_blocks(
                    *final(q),
                    direct(input@, events@),
                    block as int,
                ),
        ensures
            r matches Ok(out) ==> out@.len() == direct(input@, events@).output.len()
                && rectangular(rows(out@), direct(input@, events@).frames) && exists|q: &mut P|
                call_ensures(make, (), *q) && #[trigger] call_ensures(
                    P::prepare,
                    (q, self.spec),
                    Ok(()),
                ) && exists|run: Run<P>| #[trigger]
                    run.covers(*final(q), run.states.last(), block as int, direct(input@, events@))
                        && forall|k: int|
                        0 <= k < run.blocks() && #[trigger] run.cut_at(
                            k,
                            block as int,
                            direct(input@, events@).frames as int,
                        ) ==> exists|p: &mut P, c: &mut ProcessContext<'_, '_, T>| #[trigger]
                            call_ensures(P::process, (p, c), ()) && *p == run.states[k]
                                && *final(p) == run.states[k + 1]
                                && c.seen() == run.view(direct(input@, events@), k)
                                && final(c).main.output() == run.part(rows(out@), k),
            r matches Err(e) ==> exists|q: &mut P|
                call_ensures(make, (), *q) && #[trigger] call_ensures(
                    P::prepare,
                    (q, self.spec),
                    Err(e),
                ),
    {
        match prepared(make, self.spec) {
            Err(e) => Err(e),
            Ok(proc) => {
                let ghost fresh = proc;
                let mut proc = proc;
                let out = self.run_reusing(&mut proc, input, events, block);
                let r: Result<Vec<Vec<T>>, DspError> = Ok(out);
                assert(exists|run: Run<P>| #[trigger]
                    run.covers(fresh, run.states.last(), block as int, direct(input@, events@))
                        && forall|k: int|
                        0 <= k < run.blocks() && #[trigger] run.cut_at(
                            k,
                            block as int,
                            direct(input@, events@).frames as int,
                        ) ==> exists|p: &mut P, c: &mut ProcessContext<'_, '_, T>| #[trigger]
                            call_ensures(P::process, (p, c), ()) && *p == run.states[k]
                                && *final(p) == run.states[k + 1]
                                && c.seen() == run.view(direct(input@, events@), k)
                                && final(c).main.output() == run.part(rows(r->Ok_0@), k));
                r
            },
        }
    }

    /// Drive a prepared processor in place.
    pub fn run_reusing<T: Sample, P: Processor<T>>(
        &self,
        proc: &mut P,
        input: &[Vec<T>],
        events: &[ParamEvent<T::Real>],
        block: usize,
    ) -> (r: Vec<Vec<T>>)
        requires
            block >= 1,
            old(proc).inv(),
            replayable(direct(input@, events@)),
            takes_blocks(*old(proc), direct(input@, events@), block as int),
        ensures
            final(proc).inv(),
            exists|run: Run<P>| #[trigger]
                run.covers(*old(proc), *final(proc), block as int, direct(input@, events@))
                    && forall|k: int|
                    0 <= k < run.blocks() && #[trigger] run.cut_at(
                        k,
                        block as int,
                        direct(input@, events@).frames as int,
                    ) ==> exists|p: &mut P, c: &mut ProcessContext<'_, '_, T>| #[trigger]
                        call_ensures(P::process, (p, c), ()) && *p == run.states[k]
                            && *final(p) == run.states[k + 1]
                            && c.seen() == run.view(direct(input@, events@), k)
                            && final(c).main.output() == run.part(rows(r@), k),
            rectangular(rows(r@), direct(input@, events@).frames),
            r@.len() == direct(input@, events@).output.len(),
            forall|g: Geometry| old(proc).admits(g) ==> #[trigger] final(proc).admits(g),
    {
        let frames: usize = frame_count(input);
        replay(
            proc,
            IoMode::InPlace,
            input,
            copied(input),
            None,
            events,
            frames,
            block,
            Ghost(direct(input@, events@)),
        )
    }

    /// Run `input` through a freshly built and prepared processor with one sidechain
    /// bus.
    pub fn run_with_sidechain<T: Sample, P: Processor<T>, F: Fn() -> P>(
        &self,
        make: F,
        input: &[Vec<T>],
        sidechain: &[Vec<T>],
        events: &[ParamEvent<T::Real>],
        block: usize,
    ) -> (r: Result<Vec<Vec<T>>, DspError>)
        requires
            block >= 1,
            replayable(keyed(input@, sidechain@, events@)),
            call_requires(make, ()),
            forall|p: P| #[trigger] call_ensures(make, (), p) ==> p.inv(),
            forall|q: &mut P| #[trigger]
                call_ensures(P::prepare, (q, self.spec), Ok(())) ==> takes_blocks(
                    *final(q),
                    keyed(input@, sidechain@, events@),
                    block as int,
                ),
        ensures
            r matches Ok(out) ==> out@.len() == keyed(input@, sidechain@, events@).output.len()
                && rectangular(rows(out@), keyed(input@, sidechain@, events@).frames)
                && exists|q: &mut P|
                call_ensures(make, (), *q) && #[trigger] call_ensures(
                    P::prepare,
                    (q, self.spec),
                    Ok(()),
                ) && exists|run: Run<P>| #[trigger]
                    run.covers(
                        *final(q),
                        run.states.last(),
                        block as int,
                        keyed(input@, sidechain@, events@),
                    ) && forall|k: int|
                        0 <= k < run.blocks() && #[trigger] run.cut_at(
                            k,
                            block as int,
                            keyed(input@, sidechain@, events@).frames as int,
                        ) ==> exists|p: &mut P, c: &mut ProcessContext<'_, '_, T>| #[trigger]
                            call_ensures(P::process, (p, c), ()) && *p == run.states[k]
                                && *final(p) == run.states[k + 1]
                                && c.seen() == run.view(keyed(input@, sidechain@, events@), k)
                                && final(c).main.output() == run.part(rows(out@), k),
            r matches Err(e) ==> exists|q: &mut P|
                call_ensures(make, (), *q) && #[trigger] call_ensures(
                    P::prepare,
                    (q, self.spec),
                    Err(e),
                ),
    {
        match prepared(make, self.spec) {
            Err(e) => Err(e),
            Ok(proc) => {
                let ghost fresh = proc;
                let mut proc = proc;
                let out = self.run_with_sidechain_reusing(
                    &mut proc,
                    input,
                    sidechain,
                    events,
                    block,
                );
                let r: Result<Vec<Vec<T>>, DspError> = Ok(out);
                assert(exists|run: Run<P>| #[trigger]
                    run.covers(
                        fresh,
                        run.states.last(),
                        block as int,
                        keyed(input@, sidechain@, events@),
                    ) && forall|k: int|
                        0 <= k < run.blocks() && #[trigger] run.cut_at(
                            k,
                            block as int,
                            keyed(input@, sidechain@, events@).frames as int,
                        ) ==> exists|p: &mut P, c: &mut ProcessContext<'_, '_, T>| #[trigger]
                            call_ensures(P::process, (p, c), ()) && *p == run.states[k]
                                && *final(p) == run.states[k + 1]
                                && c.seen() == run.view(keyed(input@, sidechain@, events@), k)
                                && final(c).main.output() == run.part(rows(r->Ok_0@), k));
                r
            },
        }
    }

    /// Drive a prepared processor with one sidechain bus.
    pub fn run_with_sidechain_reusing<T: Sample, P: Processor<T>>(
        &self,
        proc: &mut P,
        input: &[Vec<T>],
        sidechain: &[Vec<T>],
        events: &[ParamEvent<T::Real>],
        block: usize,
    ) -> (r: Vec<Vec<T>>)
        requires
            block >= 1,
            old(proc).inv(),
            replayable(keyed(input@, sidechain@, events@)),
            takes_blocks(*old(proc), keyed(input@, sidechain@, events@), block as int),
        ensures
            final(proc).inv(),
            exists|run: Run<P>| #[trigger]
                run.covers(
                    *old(proc),
                    *final(proc),
                    block as int,
                    keyed(input@, sidechain@, events@),
                ) && forall|k: int|
                    0 <= k < run.blocks() && #[trigger] run.cut_at(
                        k,
                        block as int,
                        keyed(input@, sidechain@, events@).frames as int,
                    ) ==> exists|p: &mut P, c: &mut ProcessContext<'_, '_, T>| #[trigger]
                        call_ensures(P::process, (p, c), ()) && *p == run.states[k]
                            && *final(p) == run.states[k + 1]
                            && c.seen() == run.view(keyed(input@, sidechain@, events@), k)
                            && final(c).main.output() == run.part(rows(r@), k),
            rectangular(rows(r@), keyed(input@, sidechain@, events@).frames),
            r@.len() == keyed(input@, sidechain@, events@).output.len(),
            forall|g: Geometry| old(proc).admits(g) ==> #[trigger] final(proc).admits(g),
    {
        let frames: usize = frame_count(input);
        replay(
            proc,
            IoMode::InPlace,
            input,
            copied(input),
            Some(sidechain),
            events,
            frames,
            block,
            Ghost(keyed(input@, sidechain@, events@)),
        )
    }

    /// Run `input` through a freshly built and prepared processor with split signals.
    pub fn run_split<T: Sample, P: Processor<T>, F: Fn() -> P>(
        &self,
        make: F,
        input: &[Vec<T>],
        block: usize,
    ) -> (r: Result<Vec<Vec<T>>, DspError>)
        requires
            block >= 1,
            replayable(self.through(input@)),
            call_requires(make, ()),
            forall|p: P| #[trigger] call_ensures(make, (), p) ==> p.inv(),
            forall|q: &mut P| #[trigger]
                call_ensures(P::prepare, (q, self.spec), Ok(())) ==> takes_blocks(
                    *final(q),
                    self.through(input@),
                    block as int,
                ),
        ensures
            r matches Ok(out) ==> out@.len() == self.through(input@).output.len()
                && rectangular(rows(out@), self.through(input@).frames) && exists|q: &mut P|
                call_ensures(make, (), *q) && #[trigger] call_ensures(
                    P::prepare,
                    (q, self.spec),
                    Ok(()),
                ) && exists|run: Run<P>| #[trigger]
                    run.covers(*final(q), run.states.last(), block as int, self.through(input@))
                        && forall|k: int|
                        0 <= k < run.blocks() && #[trigger] run.cut_at(
                            k,
                            block as int,
                            self.through(input@).frames as int,
                        ) ==> exists|p: &mut P, c: &mut ProcessContext<'_, '_, T>| #[trigger]
                            call_ensures(P::process, (p, c), ()) && *p == run.states[k]
                                && *final(p) == run.states[k + 1]
                                && c.seen() == run.view(self.through(input@), k)
                                && final(c).main.output() == run.part(rows(out@), k),
            r matches Err(e) ==> exists|q: &mut P|
                call_ensures(make, (), *q) && #[trigger] call_ensures(
                    P::prepare,
                    (q, self.spec),
                    Err(e),
                ),
    {
        match prepared(make, self.spec) {
            Err(e) => Err(e),
            Ok(proc) => {
                let ghost fresh = proc;
                let mut proc = proc;
                let out = self.run_split_reusing(&mut proc, input, block);
                let r: Result<Vec<Vec<T>>, DspError> = Ok(out);
                assert(exists|run: Run<P>| #[trigger]
                    run.covers(fresh, run.states.last(), block as int, self.through(input@))
                        && forall|k: int|
                        0 <= k < run.blocks() && #[trigger] run.cut_at(
                            k,
                            block as int,
                            self.through(input@).frames as int,
                        ) ==> exists|p: &mut P, c: &mut ProcessContext<'_, '_, T>| #[trigger]
                            call_ensures(P::process, (p, c), ()) && *p == run.states[k]
                                && *final(p) == run.states[k + 1]
                                && c.seen() == run.view(self.through(input@), k)
                                && final(c).main.output() == run.part(rows(r->Ok_0@), k));
                r
            },
        }
    }

    /// Drive a prepared processor with split signals.
    pub fn run_split_reusing<T: Sample, P: Processor<T>>(
        &self,
        proc: &mut P,
        input: &[Vec<T>],
        block: usize,
    ) -> (r: Vec<Vec<T>>)
        requires
            block >= 1,
            old(proc).inv(),
            replayable(self.through(input@)),
            takes_blocks(*old(proc), self.through(input@), block as int),
        ensures
            final(proc).inv(),
            exists|run: Run<P>| #[trigger]
                run.covers(*old(proc), *final(proc), block as int, self.through(input@))
                    && forall|k: int|
                    0 <= k < run.blocks() && #[trigger] run.cut_at(
                        k,
                        block as int,
                        self.through(input@).frames as int,
                    ) ==> exists|p: &mut P, c: &mut ProcessContext<'_, '_, T>| #[trigger]
                        call_ensures(P::process, (p, c), ()) && *p == run.states[k]
                            && *final(p) == run.states[k + 1]
                            && c.seen() == run.view(self.through(input@), k)
                            && final(c).main.output() == run.part(rows(r@), k),
            rectangular(rows(r@), self.through(input@).frames),
            r@.len() == self.through(input@).output.len(),
            forall|g: Geometry| old(proc).admits(g) ==> #[trigger] final(proc).admits(g),
    {
        let frames: usize = frame_count(input);
        let none: &[ParamEvent<T::Real>] = &[];
        assert(none@ =~= Seq::empty());
        replay(
            proc,
            IoMode::Split,
            input,
            silence(self.spec.channels, frames),
            None,
            none,
            frames,
            block,
            Ghost(self.through(input@)),
        )
    }

    /// Drive a freshly built and prepared source for `frames` frames.
    pub fn generate<T: Sample, P: Processor<T>, F: Fn() -> P>(
        &self,
        make: F,
        frames: usize,
        events: &[ParamEvent<T::Real>],
        block: usize,
    ) -> (r: Result<Vec<Vec<T>>, DspError>)
        requires
            block >= 1,
            replayable(self.drawn::<T>(frames, events@)),
            call_requires(make, ()),
            forall|p: P| #[trigger] call_ensures(make, (), p) ==> p.inv(),
            forall|q: &mut P| #[trigger]
                call_ensures(P::prepare, (q, self.spec), Ok(())) ==> takes_blocks(
                    *final(q),
                    self.drawn::<T>(frames, events@),
                    block as int,
                ),
        ensures
            r matches Ok(out) ==> out@.len() == self.drawn::<T>(frames, events@).output.len()
                && rectangular(rows(out@), self.drawn::<T>(frames, events@).frames)
                && exists|q: &mut P|
                call_ensures(make, (), *q) && #[trigger] call_ensures(
                    P::prepare,
                    (q, self.spec),
                    Ok(()),
                ) && exists|run: Run<P>| #[trigger]
                    run.covers(
                        *final(q),
                        run.states.last(),
                        block as int,
                        self.drawn::<T>(frames, events@),
                    ) && forall|k: int|
                        0 <= k < run.blocks() && #[trigger] run.cut_at(
                            k,
                            block as int,
                            self.drawn::<T>(frames, events@).frames as int,
                        ) ==> exists|p: &mut P, c: &mut ProcessContext<'_, '_, T>| #[trigger]
                            call_ensures(P::process, (p, c), ()) && *p == run.states[k]
                                && *final(p) == run.states[k + 1]
                                && c.seen() == run.view(self.drawn::<T>(frames, events@), k)
                                && final(c).main.output() == run.part(rows(out@), k),
            r matches Err(e) ==> exists|q: &mut P|
                call_ensures(make, (), *q) && #[trigger] call_ensures(
                    P::prepare,
                    (q, self.spec),
                    Err(e),
                ),
    {
        match prepared(make, self.spec) {
            Err(e) => Err(e),
            Ok(proc) => {
                let ghost fresh = proc;
                let mut proc = proc;
                let out = self.generate_reusing(&mut proc, frames, events, block);
                let r: Result<Vec<Vec<T>>, DspError> = Ok(out);
                assert(exists|run: Run<P>| #[trigger]
                    run.covers(
                        fresh,
                        run.states.last(),
                        block as int,
                        self.drawn::<T>(frames, events@),
                    ) && forall|k: int|
                        0 <= k < run.blocks() && #[trigger] run.cut_at(
                            k,
                            block as int,
                            self.drawn::<T>(frames, events@).frames as int,
                        ) ==> exists|p: &mut P, c: &mut ProcessContext<'_, '_, T>| #[trigger]
                            call_ensures(P::process, (p, c), ()) && *p == run.states[k]
                                && *final(p) == run.states[k + 1]
                                && c.seen() == run.view(self.drawn::<T>(frames, events@), k)
                                && final(c).main.output() == run.part(rows(r->Ok_0@), k));
                r
            },
        }
    }

    /// Drive a prepared source for `frames` frames.
    pub fn generate_reusing<T: Sample, P: Processor<T>>(
        &self,
        proc: &mut P,
        frames: usize,
        events: &[ParamEvent<T::Real>],
        block: usize,
    ) -> (r: Vec<Vec<T>>)
        requires
            block >= 1,
            old(proc).inv(),
            replayable(self.drawn::<T>(frames, events@)),
            takes_blocks(*old(proc), self.drawn::<T>(frames, events@), block as int),
        ensures
            final(proc).inv(),
            exists|run: Run<P>| #[trigger]
                run.covers(*old(proc), *final(proc), block as int, self.drawn::<T>(frames, events@))
                    && forall|k: int|
                    0 <= k < run.blocks() && #[trigger] run.cut_at(
                        k,
                        block as int,
                        self.drawn::<T>(frames, events@).frames as int,
                    ) ==> exists|p: &mut P, c: &mut ProcessContext<'_, '_, T>| #[trigger]
                        call_ensures(P::process, (p, c), ()) && *p == run.states[k]
                            && *final(p) == run.states[k + 1]
                            && c.seen() == run.view(self.drawn::<T>(frames, events@), k)
                            && final(c).main.output() == run.part(rows(r@), k),
            rectangular(rows(r@), self.drawn::<T>(frames, events@).frames),
            r@.len() == self.drawn::<T>(frames, events@).output.len(),
            forall|g: Geometry| old(proc).admits(g) ==> #[trigger] final(proc).admits(g),
    {
        let none: &[Vec<T>] = &[];
        replay(
            proc,
            IoMode::OutputOnly,
            none,
            silence(self.spec.channels, frames),
            None,
            events,
            frames,
            block,
            Ghost(self.drawn::<T>(frames, events@)),
        )
    }
}

} // verus!
