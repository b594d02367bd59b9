//! Per-block context, fixed-parameter sub-blocks, and status types.

use crate::contract::block::{
    exclusive_planes, frames_of, rectangular, shared_planes, AudioBlock, AudioBlockMut, Io, IoMode,
};
use crate::contract::param::ParamEvent;
use crate::number::Sample;
use vstd::prelude::*;

verus! {

/// Output that continues after input ends.
#[derive(Clone, Copy, Debug, PartialEq, Eq, Structural)]
pub enum Tail {
    /// No tail.
    Absent,
    /// At most this many tail frames remain. Stop earlier when a drain is done.
    Frames(usize),
    /// Does not complete on its own. The host must cap the drain.
    Infinite,
}

/// Frames produced and whether the producer is finished.
#[must_use]
#[derive(Clone, Copy, Debug, PartialEq, Eq, Structural)]
pub struct Produced {
    /// Frames written this call.
    pub frames: usize,
    /// `true` once the producer has no more to give.
    pub done: bool,
}

/// How many frames these calls brought in all.
pub open spec fn delivered(calls: Seq<Produced>) -> nat
    decreases calls.len(),
{
    if calls.len() == 0 {
        0
    } else {
        delivered(calls.drop_last()) + calls.last().frames as nat
    }
}

/// Calls that count what they deliver, up to a bound, deliver no more than is left of
/// it.
pub proof fn counted_calls_stay_within(calls: Seq<Produced>, counts: Seq<nat>, bound: nat)
    requires
        counts.len() == calls.len() + 1,
        forall|k: int|
            0 <= k < calls.len() ==> counts[k] + (#[trigger] calls[k]).frames <= counts[k + 1],
        counts.last() <= bound,
    ensures
        counts[0] + delivered(calls) <= counts.last(),
        counts[0] + delivered(calls) <= bound,
    decreases calls.len(),
{
    if calls.len() > 0 {
        let (early, before) = (calls.drop_last(), counts.drop_last());
        assert(counts[calls.len() - 1] + calls[calls.len() - 1].frames <= counts[calls.len()
            as int]);
        assert forall|k: int| 0 <= k < early.len() implies before[k] + (
        #[trigger] early[k]).frames <= before[k + 1] by {
            assert(calls[k] == early[k]);
        }
        counted_calls_stay_within(early, before, before.last());
    }
}

/// Calls that bring what they count, and something as long as anything is left, bring
/// exactly what is counted, and all of it after as many calls as there were frames left.
pub proof fn eager_calls_finish(calls: Seq<Produced>, counts: Seq<nat>, bound: nat)
    requires
        counts.len() == calls.len() + 1,
        counts[0] <= bound,
        forall|k: int|
            0 <= k < calls.len() ==> {
                &&& counts[k] + (#[trigger] calls[k]).frames == counts[k + 1]
                &&& counts[k + 1] <= bound
                &&& counts[k] < bound ==> calls[k].frames >= 1
            },
    ensures
        counts[0] + delivered(calls) == counts.last(),
        counts.last() == bound || counts.last() >= counts[0] + calls.len(),
    decreases calls.len(),
{
    if calls.len() > 0 {
        let (early, before) = (calls.drop_last(), counts.drop_last());
        assert forall|k: int| 0 <= k < early.len() implies {
            &&& before[k] + (#[trigger] early[k]).frames == before[k + 1]
            &&& before[k + 1] <= bound
            &&& before[k] < bound ==> early[k].frames >= 1
        } by {
            assert(calls[k] == early[k]);
        }
        eager_calls_finish(early, before, bound);
        let last = calls[calls.len() - 1];
        assert(counts[calls.len() - 1] + last.frames == counts[calls.len() as int]);
    }
}

/// Everything a processor is handed for one block.
#[derive(Debug)]
pub struct ProcessContext<'view, 'samples, T: Sample> {
    /// The main signal in its declared shape.
    pub main: Io<'view, 'samples, T>,
    /// Read-only key inputs, one per declared sidechain bus.
    pub sidechain: &'view [AudioBlock<'view, 'samples, T>],
    /// Sample-stamped parameter changes sorted by nondecreasing offset.
    pub events: &'view [ParamEvent<T::Real>],
    /// Frame count of this block.
    pub frames: usize,
    /// Absolute frame index of this block's first frame, since stream start.
    pub sample_pos: u64,
}

/// A context without sidechains or events over `main`.
pub open spec fn plain_context<T: Sample>(
    ctx: ProcessContext<'_, '_, T>,
    main: Io<'_, '_, T>,
    sample_pos: u64,
) -> bool {
    &&& ctx.main == main
    &&& ctx.sidechain@.len() == 0
    &&& ctx.events@.len() == 0
    &&& ctx.frames == main.length()
    &&& ctx.sample_pos == sample_pos
}

impl<'view, 'samples, T: Sample> ProcessContext<'view, 'samples, T> {
    /// Build a context from an already-selected main signal.
    ///
    /// `sample_pos` is the absolute frame index of this block's first frame on
    /// the stream timeline; the parameter-smoothing grid is anchored to it.
    /// Sidechains and parameter events start out empty.
    pub fn from_io(main: Io<'view, 'samples, T>, sample_pos: u64) -> (r: Self)
        requires
            main.wf(),
        ensures
            plain_context(r, main, sample_pos),
    {
        let frames: usize = match &main {
            Io::InPlace(block) => block.frames(),
            Io::OutputOnly(output) => output.frames(),
            Io::Split { input, output } => output.frames(),
        };
        Self { main, sidechain: &[], events: &[], frames, sample_pos }
    }

    /// Build an in-place context over mutable channel planes of equal length.
    pub fn in_place(planes: &'view mut [&'samples mut [T]], sample_pos: u64) -> (r: Self)
        requires
            rectangular(exclusive_planes(old(planes)@), frames_of(exclusive_planes(old(planes)@))),
        ensures
            r.main.mode() == IoMode::InPlace,
            r.main.output() == exclusive_planes(old(planes)@),
            r.main.wf(),
            r.main.table()@ == old(planes)@,
            final(planes)@ == final(r.main.table())@,
            plain_context(r, r.main, sample_pos),
    {
        Self::from_io(Io::InPlace(AudioBlockMut::new(planes)), sample_pos)
    }

    /// Build an output-only context over mutable channel planes of equal length.
    pub fn output_only(planes: &'view mut [&'samples mut [T]], sample_pos: u64) -> (r: Self)
        requires
            rectangular(exclusive_planes(old(planes)@), frames_of(exclusive_planes(old(planes)@))),
        ensures
            r.main.mode() == IoMode::OutputOnly,
            r.main.output() == exclusive_planes(old(planes)@),
            r.main.wf(),
            r.main.table()@ == old(planes)@,
            final(planes)@ == final(r.main.table())@,
            plain_context(r, r.main, sample_pos),
    {
        Self::from_io(Io::OutputOnly(AudioBlockMut::new(planes)), sample_pos)
    }

    /// Build a split context over disjoint input and output channel planes of
    /// equal length.
    pub fn split(
        input: &'view [&'samples [T]],
        output: &'view mut [&'samples mut [T]],
        sample_pos: u64,
    ) -> (r: Self)
        requires
            rectangular(shared_planes(input@), frames_of(shared_planes(input@))),
            rectangular(exclusive_planes(old(output)@), frames_of(exclusive_planes(old(output)@))),
            frames_of(shared_planes(input@)) == frames_of(exclusive_planes(old(output)@)),
        ensures
            r.main.mode() == IoMode::Split,
            r.main.input() == shared_planes(input@),
            r.main.output() == exclusive_planes(old(output)@),
            r.main.wf(),
            r.main.table()@ == old(output)@,
            final(output)@ == final(r.main.table())@,
            plain_context(r, r.main, sample_pos),
    {
        Self::from_io(
            Io::Split { input: AudioBlock::new(input), output: AudioBlockMut::new(output) },
            sample_pos,
        )
    }

    /// Attach sample-stamped parameter events to this block.
    pub fn with_events(self, events: &'view [ParamEvent<T::Real>]) -> (r: Self)
        ensures
            r == (ProcessContext { events, ..self }),
    {
        ProcessContext {
            main: self.main,
            sidechain: self.sidechain,
            events,
            frames: self.frames,
            sample_pos: self.sample_pos,
        }
    }

    /// Attach sidechain buses to this block.
    pub fn with_sidechains(self, sidechain: &'view [AudioBlock<'view, 'samples, T>]) -> (r: Self)
        ensures
            r == (ProcessContext { sidechain, ..self }),
    {
        ProcessContext {
            main: self.main,
            sidechain,
            events: self.events,
            frames: self.frames,
            sample_pos: self.sample_pos,
        }
    }
}

/// The contiguous fixed-parameter range that a kernel renders.
///
/// A sub-block owns no plane table. It reborrows the main signal, the
/// sidechains, and the range `[start, start + len)`; accessors restrict to that
/// range.
#[derive(Debug)]
pub struct SubBlock<'r, 'view, 'samples, T> {
    pub io: &'r mut Io<'view, 'samples, T>,
    pub sc: &'r [AudioBlock<'view, 'samples, T>],
    pub start: usize,
    pub len: usize,
}

/// The range `[start, start + len)` of every channel.
pub open spec fn windows<T>(planes: Seq<Seq<T>>, start: int, len: int) -> Seq<Seq<T>> {
    Seq::new(planes.len(), |ch: int| planes[ch].subrange(start, start + len))
}

/// `plane` with the samples from `start` on replaced by `window`.
pub open spec fn spliced<T>(plane: Seq<T>, start: int, window: Seq<T>) -> Seq<T> {
    plane.subrange(0, start) + (window + plane.subrange(start + window.len(), plane.len() as int))
}

/// Every channel of `planes` with its window from `start` on replaced.
pub open spec fn overlaid<T>(planes: Seq<Seq<T>>, start: int, run: Seq<Seq<T>>) -> Seq<Seq<T>> {
    Seq::new(planes.len(), |ch: int| spliced(planes[ch], start, run[ch]))
}

impl<'r, 'view, 'samples, T> SubBlock<'r, 'view, 'samples, T> {
    /// The range lies inside the main signal and every sidechain bus.
    pub open spec fn wf(&self) -> bool {
        &&& self.io.wf()
        &&& self.start + self.len <= self.io.length()
        &&& forall|bus: int|
            0 <= bus < self.sc@.len() ==> (#[trigger] self.sc@[bus]).wf() && self.start + self.len
                <= self.sc@[bus].length()
    }

    /// The channel count of the main signal.
    pub open spec fn width(&self) -> nat {
        self.io.output().len()
    }

    /// The output side restricted to this range.
    pub open spec fn out_run(&self) -> Seq<Seq<T>> {
        windows(self.io.output(), self.start as int, self.len as int)
    }

    /// The input side restricted to this range.
    pub open spec fn in_run(&self) -> Seq<Seq<T>> {
        windows(self.io.input(), self.start as int, self.len as int)
    }

    /// The sidechain buses restricted to this range.
    pub open spec fn key_run(&self) -> Seq<Seq<Seq<T>>> {
        Seq::new(
            self.sc@.len(),
            |bus: int| windows(self.sc@[bus].samples(), self.start as int, self.len as int),
        )
    }

    /// The same range over the same signal, with other output samples.
    pub open spec fn rerun(&self, after: &Self, run: Seq<Seq<T>>) -> bool {
        &&& self.io.rewritten(after.io, overlaid(self.io.output(), self.start as int, run))
        &&& after.sc == self.sc
        &&& after.start == self.start
        &&& after.len == self.len
    }

    /// The range frame count.
    pub fn frames(&self) -> (r: usize)
        ensures
            r == self.len,
    {
        self.len
    }

    /// The channel count of the main signal.
    pub fn channels(&self) -> (r: usize)
        ensures
            r == self.width(),
    {
        match &*self.io {
            Io::InPlace(b) => b.channels(),
            Io::OutputOnly(output) => output.channels(),
            Io::Split { input, output } => output.channels(),
        }
    }

    /// The in-place main channel `ch`, restricted to this range.
    pub fn channel_mut(&mut self, ch: usize) -> (r: &mut [T])
        requires
            old(self).wf(),
            old(self).io.mode() == IoMode::InPlace,
            ch < old(self).io.output().len(),
        ensures
            r@ == old(self).out_run()[ch as int],
            final(r)@.len() == r@.len() ==> old(self).rerun(
                final(self),
                old(self).out_run().update(ch as int, final(r)@),
            ),
            *final(final(self).io) == *final(old(self).io),
            final(final(self).io.table())@ == final(old(self).io.table())@,
            forall|c: int|
                0 <= c < old(self).io.output().len() ==> final(#[trigger] final(self).io.plane(c))@
                    == final(old(self).io.plane(c))@,
    {
        self.output_mut(ch)
    }

    /// The input channel `ch`, restricted to this range.
    pub fn input(&self, ch: usize) -> (r: &[T])
        requires
            self.wf(),
            self.io.mode() != IoMode::OutputOnly,
            ch < self.io.input().len(),
        ensures
            r@ == self.in_run()[ch as int],
    {
        let start: usize = self.start;
        let end: usize = self.start + self.len;
        match &*self.io {
            Io::Split { input, output } => &input.channel(ch)[start..end],
            Io::InPlace(b) => &b.channel(ch)[start..end],
            Io::OutputOnly(b) => &b.channel(ch)[start..end],
        }
    }

    /// The output channel `ch`, restricted to this range.
    pub fn output_mut(&mut self, ch: usize) -> (r: &mut [T])
        requires
            old(self).wf(),
            ch < old(self).io.output().len(),
        ensures
            r@ == old(self).out_run()[ch as int],
            final(r)@.len() == r@.len() ==> old(self).rerun(
                final(self),
                old(self).out_run().update(ch as int, final(r)@),
            ),
            *final(final(self).io) == *final(old(self).io),
            final(final(self).io.table())@ == final(old(self).io.table())@,
            forall|c: int|
                0 <= c < old(self).io.output().len() ==> final(#[trigger] final(self).io.plane(c))@
                    == final(old(self).io.plane(c))@,
    {
        let start: usize = self.start;
        let len: usize = self.len;
        let ghost plane = self.io.output()[ch as int];
        proof {
            lemma_overlay_one(
                self.io.output(),
                self.io.length() as nat,
                start as int,
                len as int,
                ch as int,
            );
        }
        let block = match &mut *self.io {
            Io::InPlace(b) => b,
            Io::OutputOnly(output) => output,
            Io::Split { input, output } => output,
        };
        let (head, rest) = block.channel_mut(ch).split_at_mut(start);
        let (run, tail) = rest.split_at_mut(len);
        assert(tail@ =~= plane.subrange(start + len, plane.len() as int));
        run
    }

    /// The disjoint input and output for channel `ch`.
    pub fn split_channel(&mut self, ch: usize) -> (r: (&[T], &mut [T]))
        requires
            old(self).wf(),
            old(self).io.mode() == IoMode::Split,
            ch < old(self).io.input().len(),
            ch < old(self).io.output().len(),
        ensures
            r.0@ == old(self).in_run()[ch as int],
            r.1@ == old(self).out_run()[ch as int],
            final(r.1)@.len() == r.1@.len() ==> old(self).rerun(
                final(self),
                old(self).out_run().update(ch as int, final(r.1)@),
            ),
            *final(final(self).io) == *final(old(self).io),
            final(final(self).io.table())@ == final(old(self).io.table())@,
            forall|c: int|
                0 <= c < old(self).io.output().len() ==> final(#[trigger] final(self).io.plane(c))@
                    == final(old(self).io.plane(c))@,
    {
        let start: usize = self.start;
        let len: usize = self.len;
        let ghost plane = self.io.output()[ch as int];
        proof {
            lemma_overlay_one(
                self.io.output(),
                self.io.length() as nat,
                start as int,
                len as int,
                ch as int,
            );
        }
        match &mut *self.io {
            Io::Split { input, output } => {
                let (head, rest) = output.channel_mut(ch).split_at_mut(start);
                let (run, tail) = rest.split_at_mut(len);
                assert(tail@ =~= plane.subrange(start + len, plane.len() as int));
                (&input.channel(ch)[start..start + len], run)
            },
            Io::InPlace(b) => {
                assert(false);
                (&[], b.channel_mut(ch))
            },
            Io::OutputOnly(b) => {
                assert(false);
                (&[], b.channel_mut(ch))
            },
        }
    }

    /// Sidechain bus `bus`, channel `ch`, restricted to this range.
    pub fn sidechain(&self, bus: usize, ch: usize) -> (r: &[T])
        requires
            self.wf(),
            bus < self.sc@.len(),
            ch < self.sc@[bus as int].samples().len(),
        ensures
            r@ == self.key_run()[bus as int][ch as int],
    {
        let start: usize = self.start;
        let end: usize = self.start + self.len;
        &self.sc[bus].channel(ch)[start..end]
    }

    /// The number of sidechain buses supplied this block.
    pub fn sidechain_buses(&self) -> (r: usize)
        ensures
            r == self.sc@.len(),
    {
        self.sc.len()
    }

    /// The channel count of sidechain bus `bus`.
    pub fn sidechain_channels(&self, bus: usize) -> (r: usize)
        requires
            bus < self.sc@.len(),
        ensures
            r == self.sc@[bus as int].samples().len(),
    {
        self.sc[bus].channels()
    }
}

/// Replacing the window of one channel replaces that plane and no other.
proof fn lemma_overlay_one<T>(planes: Seq<Seq<T>>, frames: nat, start: int, len: int, ch: int)
    requires
        rectangular(planes, frames),
        0 <= start,
        0 <= len,
        start + len <= frames,
        0 <= ch < planes.len(),
    ensures
        forall|w: Seq<T>|
            w.len() == len ==> #[trigger] overlaid(
                planes,
                start,
                windows(planes, start, len).update(ch, w),
            ) == planes.update(ch, spliced(planes[ch], start, w)),
{
    assert forall|w: Seq<T>| w.len() == len implies #[trigger] overlaid(
        planes,
        start,
        windows(planes, start, len).update(ch, w),
    ) == planes.update(ch, spliced(planes[ch], start, w)) by {
        let run = windows(planes, start, len).update(ch, w);
        assert forall|c: int| 0 <= c < planes.len() implies overlaid(planes, start, run)[c]
            == planes.update(ch, spliced(planes[ch], start, w))[c] by {
            if c != ch {
                assert(run[c] == planes[c].subrange(start, start + len));
                assert(spliced(planes[c], start, run[c]) =~= planes[c]);
            }
        }
        assert(overlaid(planes, start, run) =~= planes.update(ch, spliced(planes[ch], start, w)));
    }
}

} // verus!
