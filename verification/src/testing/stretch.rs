//! What a driver of a rate changer decides and keeps between calls.

use crate::contract::block::rectangular;
use crate::contract::context::Produced;
use crate::contract::source::{owned_planes, RingSource};
use crate::testing::harness::signal_frames;
use vstd::prelude::*;

verus! {

/// A quarter of the slack of [`whole_stretch_block`].
pub const STRETCH_SLACK: usize = 1024;

/// What follows a call of a rate changer.
#[derive(Clone, Copy, Debug, PartialEq, Eq, Structural)]
pub enum StretchStep {
    /// Offer another block.
    Again,
    /// The input ended and the internal buffers drained.
    Done,
    /// Nothing came out, and there is no input left that could bring more.
    Stalled,
}

/// What follows a call that produced `produced` and left `remaining` input frames.
pub fn stretch_step(produced: Produced, remaining: usize) -> (r: StretchStep)
    ensures
        r == StretchStep::Done <==> produced.done,
        r == StretchStep::Stalled <==> !produced.done && produced.frames == 0 && remaining == 0,
{
    if produced.done {
        StretchStep::Done
    } else if produced.frames > 0 || remaining > 0 {
        StretchStep::Again
    } else {
        StretchStep::Stalled
    }
}

/// A source over `data` that returns at most `cap` frames per pull. Zero means
/// unlimited.
pub fn stretch_source<T: Copy>(data: Vec<Vec<T>>, cap: usize) -> (r: RingSource<T>)
    requires
        rectangular(owned_planes(data@), signal_frames(owned_planes(data@))),
    ensures
        r.wf(),
        r.contents() == owned_planes(data@),
        r.length() == signal_frames(owned_planes(data@)),
        r.cursor() == 0,
        r.cap() == (if cap == 0 {
            usize::MAX
        } else {
            cap
        }),
{
    if cap == 0 || cap == usize::MAX {
        RingSource::new(data)
    } else {
        RingSource::with_chunk_cap(data, cap)
    }
}

/// Add the first `n` samples of every channel of `stage` to `out`.
pub fn keep_front<T: Copy>(out: &mut Vec<Vec<T>>, stage: &[Vec<T>], n: usize)
    requires
        old(out)@.len() == stage@.len(),
        forall|ch: int| 0 <= ch < stage@.len() ==> n <= (#[trigger] stage@[ch])@.len(),
    ensures
        final(out)@.len() == old(out)@.len(),
        forall|ch: int|
            0 <= ch < stage@.len() ==> (#[trigger] final(out)@[ch])@ == old(out)@[ch]@
                + stage@[ch]@.subrange(0, n as int),
{
    let mut ch: usize = 0;
    while ch < stage.len()
        invariant
            0 <= ch <= stage@.len(),
            out@.len() == stage@.len(),
            out@.len() == old(out)@.len(),
            forall|c: int| 0 <= c < stage@.len() ==> n <= (#[trigger] stage@[c])@.len(),
            forall|c: int|
                0 <= c < ch ==> (#[trigger] out@[c])@ == old(out)@[c]@ + stage@[c]@.subrange(
                    0,
                    n as int,
                ),
            forall|c: int| ch <= c < out@.len() ==> #[trigger] out@[c] == old(out)@[c],
        decreases stage@.len() - ch,
    {
        let ghost from = out@[ch as int]@;
        assert(n <= stage@[ch as int]@.len());
        let mut i: usize = 0;
        while i < n
            invariant
                0 <= i <= n,
                ch < stage@.len(),
                n <= stage@[ch as int]@.len(),
                out@.len() == stage@.len(),
                out@.len() == old(out)@.len(),
                out@[ch as int]@ == from + stage@[ch as int]@.subrange(0, i as int),
                forall|c: int|
                    0 <= c < ch ==> (#[trigger] out@[c])@ == old(out)@[c]@ + stage@[c]@.subrange(
                        0,
                        n as int,
                    ),
                forall|c: int| ch < c < out@.len() ==> #[trigger] out@[c] == old(out)@[c],
            decreases n - i,
        {
            out[ch].push(stage[ch][i]);
            assert(out@[ch as int]@ =~= from + stage@[ch as int]@.subrange(0, i + 1));
            i += 1;
        }
        ch += 1;
    }
}

/// The output block that holds the whole output of a rate changer over `frames`
/// input frames at up to twice their length.
pub fn whole_stretch_block(frames: usize) -> (r: usize)
    requires
        2 * frames + 4 * STRETCH_SLACK <= usize::MAX,
    ensures
        r == 2 * frames + 4 * STRETCH_SLACK,
{
    2 * frames + 4 * STRETCH_SLACK
}

} // verus!
