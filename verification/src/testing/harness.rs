//! How a test host cuts a stream into blocks.
//!
//! A host that replays one stream under several block sizes hands each block
//! the events that fall into it, with offsets from the start of the block.

use crate::contract::block::{rectangular, shared_planes, AudioBlock};
use crate::contract::param::{ParamEvent, ParamId};
use crate::contract::spec::ProcessSpec;
use crate::contract::traits::{sorted_events, Measurer};
use crate::dsp::memory::rows;
use crate::number::Sample;
use vstd::prelude::*;
use vstd::slice::slice_subrange;

verus! {

/// What the processors of a test are prepared for, and the block sizes that a
/// stream is replayed under.
#[derive(Clone, Debug)]
pub struct Contract {
    /// The spec that every processor is prepared for.
    pub spec: ProcessSpec,
    /// Host block sizes that a stream is replayed under.
    pub block_sizes: Vec<usize>,
}

impl Default for Contract {
    /// Stereo at 48 kHz, with block sizes around the control-rate grid.
    fn default() -> (r: Self)
        ensures
            r.spec == (ProcessSpec {
                sample_rate: 48_000,
                channels: 2,
                max_block: 8192,
                max_memory: None,
            }),
            r.block_sizes@ == seq![1usize, 7, 32, 33, 64, 65, 128, 257, 999],
    {
        let block_sizes: Vec<usize> = vec![1, 7, 32, 33, 64, 65, 128, 257, 999];
        assert(block_sizes@ =~= seq![1usize, 7, 32, 33, 64, 65, 128, 257, 999]);
        Self {
            spec: ProcessSpec { sample_rate: 48_000, channels: 2, max_block: 8192, max_memory: None },
            block_sizes,
        }
    }
}

/// An event stamped on the timeline of a whole stream.
pub fn ev<R>(at: u32, param: ParamId, value: R) -> (r: ParamEvent<R>)
    ensures
        r == (ParamEvent { offset: at, param, value }),
{
    ParamEvent { offset: at, param, value }
}

// ---------------------------------------------------------------------------
// Blocks
// ---------------------------------------------------------------------------

/// The end of the block that starts at `pos`.
pub open spec fn end_of(pos: int, block: int, frames: int) -> int {
    if pos + block < frames {
        pos + block
    } else {
        frames
    }
}

/// The end of the block that starts at `pos`, in a stream of `frames` frames
/// that is cut every `block` frames.
pub fn block_end(pos: usize, block: usize, frames: usize) -> (r: usize)
    requires
        block >= 1,
        pos <= frames,
    ensures
        r == end_of(pos as int, block as int, frames as int),
        pos < frames ==> pos < r <= frames,
{
    if block < frames - pos {
        pos + block
    } else {
        frames
    }
}

/// The event falls into `[lo, hi)`.
pub open spec fn falls_into<R>(e: ParamEvent<R>, lo: int, hi: int) -> bool {
    lo <= e.offset < hi
}

/// The event with its offset counted from `lo`.
pub open spec fn rebased<R>(e: ParamEvent<R>, lo: int) -> ParamEvent<R> {
    ParamEvent { offset: (e.offset - lo) as u32, param: e.param, value: e.value }
}

/// The events that fall into `[lo, hi)`, with offsets counted from `lo`.
pub open spec fn events_in<R>(events: Seq<ParamEvent<R>>, lo: int, hi: int) -> Seq<ParamEvent<R>>
    decreases events.len(),
{
    if events.len() == 0 {
        Seq::empty()
    } else {
        let before = events_in(events.drop_last(), lo, hi);
        if falls_into(events.last(), lo, hi) {
            before.push(rebased(events.last(), lo))
        } else {
            before
        }
    }
}

/// The events of the block `[lo, hi)`, with offsets counted from its start.
pub fn block_events<R: Copy>(events: &[ParamEvent<R>], lo: usize, hi: usize) -> (r: Vec<
    ParamEvent<R>,
>)
    ensures
        r@ == events_in(events@, lo as int, hi as int),
{
    let mut out: Vec<ParamEvent<R>> = Vec::new();
    let mut i: usize = 0;
    while i < events.len()
        invariant
            0 <= i <= events@.len(),
            out@ == events_in(events@.take(i as int), lo as int, hi as int),
        decreases events@.len() - i,
    {
        let e = events[i];
        proof {
            assert(events@.take(i + 1).drop_last() =~= events@.take(i as int));
        }
        if e.offset as usize >= lo && (e.offset as usize) < hi {
            out.push(
                ParamEvent {
                    offset: (e.offset as usize - lo) as u32,
                    param: e.param,
                    value: e.value,
                },
            );
        }
        i += 1;
    }
    assert(events@.take(i as int) =~= events@);
    out
}

/// Events with offsets counted from `by` frames earlier.
pub open spec fn delayed<R>(events: Seq<ParamEvent<R>>, by: int) -> Seq<ParamEvent<R>> {
    Seq::new(
        events.len(),
        |i: int|
            ParamEvent {
                offset: (events[i].offset + by) as u32,
                param: events[i].param,
                value: events[i].value,
            },
    )
}

/// Cutting a block in two loses no event and reorders none: the events of the
/// whole are those of its first part followed by those of its second.
pub proof fn cutting_keeps_every_event<R>(
    events: Seq<ParamEvent<R>>,
    lo: int,
    mid: int,
    hi: int,
)
    requires
        0 <= lo <= mid <= hi,
        sorted_events(events),
    ensures
        events_in(events, lo, hi) == events_in(events, lo, mid) + delayed(
            events_in(events, mid, hi),
            mid - lo,
        ),
    decreases events.len(),
{
    let whole = events_in(events, lo, hi);
    let first = events_in(events, lo, mid);
    let second = delayed(events_in(events, mid, hi), mid - lo);
    if events.len() == 0 {
        assert(whole =~= first + second);
    } else {
        let init = events.drop_last();
        let e = events.last();
        assert(sorted_events(init));
        cutting_keeps_every_event(init, lo, mid, hi);
        if falls_into(e, lo, mid) {
            assert forall|i: int| 0 <= i < init.len() implies !falls_into(
                #[trigger] init[i],
                mid,
                hi,
            ) by {
                assert(events[i].offset <= events[events.len() - 1].offset);
            }
            lemma_none_falls(init, mid, hi);
            assert(whole =~= first + second);
        } else if falls_into(e, mid, hi) {
            assert(second =~= delayed(events_in(init, mid, hi), mid - lo).push(rebased(e, lo)));
            assert(whole =~= first + second);
        } else {
            assert(whole =~= first + second);
        }
    }
}

proof fn lemma_none_falls<R>(events: Seq<ParamEvent<R>>, lo: int, hi: int)
    requires
        forall|i: int| 0 <= i < events.len() ==> !falls_into(#[trigger] events[i], lo, hi),
    ensures
        events_in(events, lo, hi).len() == 0,
    decreases events.len(),
{
    if events.len() > 0 {
        let init = events.drop_last();
        assert forall|i: int| 0 <= i < init.len() implies !falls_into(#[trigger] init[i], lo, hi) by {
            assert(init[i] == events[i]);
        }
        assert(!falls_into(events[events.len() - 1], lo, hi));
        lemma_none_falls(init, lo, hi);
    }
}

/// The events of a block are sorted where those of the stream are, and their
/// offsets lie in the block.
pub proof fn block_events_stay_sorted<R>(events: Seq<ParamEvent<R>>, lo: int, hi: int)
    requires
        0 <= lo,
        sorted_events(events),
    ensures
        sorted_events(events_in(events, lo, hi)),
        forall|i: int|
            0 <= i < events_in(events, lo, hi).len() ==> (#[trigger] events_in(
                events,
                lo,
                hi,
            )[i]).offset < hi - lo,
        forall|i: int|
            0 <= i < events_in(events, lo, hi).len() && events.len() > 0 ==> (
            #[trigger] events_in(events, lo, hi)[i]).offset + lo <= events.last().offset,
    decreases events.len(),
{
    if events.len() > 0 {
        let init = events.drop_last();
        assert(sorted_events(init));
        block_events_stay_sorted(init, lo, hi);
        if init.len() > 0 {
            assert(events[init.len() - 1].offset <= events[events.len() - 1].offset);
        }
    }
}

// ---------------------------------------------------------------------------
// Meters
// ---------------------------------------------------------------------------

/// The frames `[lo, hi)` of every channel.
pub open spec fn cut_out<T>(signal: Seq<Seq<T>>, lo: int, hi: int) -> Seq<Seq<T>> {
    Seq::new(signal.len(), |ch: int| signal[ch].subrange(lo, hi))
}

/// The state of a meter after a signal of `frames` frames, from frame `pos` on,
/// in blocks of `block` frames.
pub open spec fn observed_in_blocks<T: Sample, M: Measurer<T>>(
    m: M::Model,
    signal: Seq<Seq<T>>,
    frames: int,
    block: int,
    pos: int,
) -> M::Model
    decreases frames - pos,
{
    if pos >= frames || block < 1 {
        m
    } else {
        let end = end_of(pos, block, frames);
        observed_in_blocks::<T, M>(
            M::observed(m, cut_out(signal, pos, end)),
            signal,
            frames,
            block,
            end,
        )
    }
}

/// The number of frames of a signal.
pub open spec fn signal_frames<T>(signal: Seq<Seq<T>>) -> nat {
    if signal.len() == 0 {
        0
    } else {
        signal[0].len()
    }
}

/// The frames `[lo, hi)` of every channel.
pub fn cut_planes<'a, T>(signal: &'a [Vec<T>], lo: usize, hi: usize) -> (r: Vec<&'a [T]>)
    requires
        lo <= hi,
        forall|ch: int| 0 <= ch < signal@.len() ==> hi <= (#[trigger] signal@[ch])@.len(),
    ensures
        shared_planes(r@) == cut_out(rows(signal@), lo as int, hi as int),
{
    let ghost part = cut_out(rows(signal@), lo as int, hi as int);
    let mut planes: Vec<&'a [T]> = Vec::new();
    let mut ch: usize = 0;
    while ch < signal.len()
        invariant
            0 <= ch <= signal@.len(),
            lo <= hi,
            forall|k: int| 0 <= k < signal@.len() ==> hi <= (#[trigger] signal@[k])@.len(),
            part == cut_out(rows(signal@), lo as int, hi as int),
            planes@.len() == ch,
            forall|k: int| 0 <= k < ch ==> (#[trigger] planes@[k])@ == part[k],
        decreases signal@.len() - ch,
    {
        planes.push(slice_subrange(signal[ch].as_slice(), lo, hi));
        ch += 1;
    }
    assert(shared_planes(planes@) =~= part);
    planes
}

/// Feed `signal` to a meter in blocks of `block` frames.
pub fn observe_blocks<T: Sample, M: Measurer<T>>(meter: &mut M, signal: &[Vec<T>], block: usize)
    requires
        block >= 1,
        rectangular(rows(signal@), signal_frames(rows(signal@))),
        old(meter).inv(),
        forall|frames: nat|
            frames <= block && frames <= signal_frames(rows(signal@)) ==> #[trigger] old(
                meter,
            ).admits(signal@.len(), frames),
    ensures
        final(meter).inv(),
        final(meter).model() == observed_in_blocks::<T, M>(
            old(meter).model(),
            rows(signal@),
            signal_frames(rows(signal@)) as int,
            block as int,
            0,
        ),
{
    let ghost x = rows(signal@);
    let channels: usize = signal.len();
    let frames: usize = if channels > 0 {
        signal[0].len()
    } else {
        0
    };
    let mut pos: usize = 0;
    while pos < frames
        invariant
            0 <= pos <= frames,
            block >= 1,
            channels == signal@.len(),
            x == rows(signal@),
            rectangular(x, frames as nat),
            meter.inv(),
            forall|n: nat|
                n <= block && n <= frames ==> #[trigger] meter.admits(signal@.len(), n),
            observed_in_blocks::<T, M>(
                old(meter).model(),
                x,
                frames as int,
                block as int,
                0,
            ) == observed_in_blocks::<T, M>(
                meter.model(),
                x,
                frames as int,
                block as int,
                pos as int,
            ),
        decreases frames - pos,
    {
        let end: usize = block_end(pos, block, frames);
        assert forall|k: int|
            0 <= k < signal@.len() implies end <= (#[trigger] signal@[k])@.len() by {
            assert(x[k].len() == frames);
        }
        let planes = cut_planes(signal, pos, end);
        let ghost part = cut_out(x, pos as int, end as int);
        assert forall|k: int| 0 <= k < part.len() implies (#[trigger] part[k]).len() == end
            - pos by {
            assert(x[k].len() == frames);
        }
        let b = AudioBlock::new(planes.as_slice());
        assert(meter.admits(signal@.len(), (end - pos) as nat));
        meter.observe(b);
        pos = end;
    }
}

} // verus!
