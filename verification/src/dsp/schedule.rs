//! What a block makes of the smoother bank and the kernel, frame by frame.
//!
//! Every frame first latches the targets stamped on it, steps the bank if the
//! frame stands on the 32-frame control grid, and is then rendered with the
//! values the bank holds. Since the grid is anchored to the absolute timeline,
//! dividing a stream into blocks in another way changes nothing.

use crate::contract::context::{windows, SubBlock};
use crate::contract::param::{ParamEvent, ParamId, Smoothing};
use crate::contract::traits::{column, key_column, sorted_events, FrameModel, Params};
use crate::dsp::smoother::{
    bank_operations_keep_the_range, bank_rested, bank_retargeted, bank_stepped, bank_values,
    indistinguishable, lemma_same_slots, operations_cannot_distinguish,
    operations_keep_the_parameter, retargeted, same_parameter, slot, slot_from, sound, sound_bank,
    stepped, Smoother,
};
use crate::number::{clamped, clamped_is_within, nil, within, Order, Real, Sample};
use vstd::prelude::*;

verus! {

/// The bank after one event of a block of `frames` frames.
pub open spec fn event_applied<R: Real>(
    bank: Seq<Smoother<R>>,
    e: ParamEvent<R>,
    frames: nat,
) -> Seq<Smoother<R>> {
    if e.offset < frames && e.value.finite() {
        bank_retargeted(bank, e.param, e.value)
    } else {
        bank
    }
}

/// The bank after the events from index `from` up to `to`.
pub open spec fn latched<R: Real>(
    bank: Seq<Smoother<R>>,
    events: Seq<ParamEvent<R>>,
    from: int,
    to: int,
    frames: nat,
) -> Seq<Smoother<R>>
    decreases to - from,
{
    if from >= to {
        bank
    } else {
        event_applied(latched(bank, events, from, to - 1, frames), events[to - 1], frames)
    }
}

/// The index of the first event, from `k` on, stamped at frame `i` or later.
pub open spec fn cut_from<R>(events: Seq<ParamEvent<R>>, k: int, i: int) -> int
    decreases events.len() - k,
{
    if k < events.len() && events[k].offset < i {
        cut_from(events, k + 1, i)
    } else {
        k
    }
}

/// The index of the first event stamped at frame `i` or later.
pub open spec fn cut<R>(events: Seq<ParamEvent<R>>, i: int) -> int {
    cut_from(events, 0, i)
}

/// A frame at this absolute position stands on the control grid.
pub open spec fn on_grid(pos: int) -> bool {
    pos % 32 == 0
}

/// The bank that frame `i` is rendered with, from the bank before it.
pub open spec fn framed_bank<R: Real>(
    bank: Seq<Smoother<R>>,
    events: Seq<ParamEvent<R>>,
    i: int,
    frames: nat,
    pos: int,
) -> Seq<Smoother<R>> {
    let b = latched(bank, events, cut(events, i), cut(events, i + 1), frames);
    if on_grid(pos + i) {
        bank_stepped(b)
    } else {
        b
    }
}

/// The bank after the first `n` frames of a block.
pub open spec fn bank_after<R: Real>(
    bank: Seq<Smoother<R>>,
    events: Seq<ParamEvent<R>>,
    n: nat,
    frames: nat,
    pos: int,
) -> Seq<Smoother<R>>
    decreases n,
{
    if n == 0 {
        bank
    } else {
        framed_bank(bank_after(bank, events, (n - 1) as nat, frames, pos), events, n - 1, frames, pos)
    }
}

/// The parameters that frame `i` is rendered with.
pub open spec fn frame_params<T: Sample, K: FrameModel<T>>(
    bank: Seq<Smoother<T::Real>>,
    events: Seq<ParamEvent<T::Real>>,
    i: int,
    frames: nat,
    pos: int,
) -> K::Params {
    K::Params::load(bank_values(bank_after(bank, events, (i + 1) as nat, frames, pos)))
}

/// A block as the driver sees it: input, sidechains, events, length, position.
pub struct Block<T: Sample> {
    pub x: Seq<Seq<T>>,
    pub key: Seq<Seq<Seq<T>>>,
    pub events: Seq<ParamEvent<T::Real>>,
    pub frames: nat,
    pub pos: int,
}

/// The kernel state after the first `n` frames of a block.
pub open spec fn kernel_after<T: Sample, K: FrameModel<T>>(
    m: K::Model,
    bank: Seq<Smoother<T::Real>>,
    b: Block<T>,
    n: nat,
) -> K::Model
    decreases n,
{
    if n == 0 {
        m
    } else {
        K::next(
            kernel_after::<T, K>(m, bank, b, (n - 1) as nat),
            frame_params::<T, K>(bank, b.events, n - 1, b.frames, b.pos),
            column(b.x, n - 1),
            key_column(b.key, n - 1),
        )
    }
}

/// Frame `i` of the output of a block.
pub open spec fn frame_out<T: Sample, K: FrameModel<T>>(
    m: K::Model,
    bank: Seq<Smoother<T::Real>>,
    b: Block<T>,
    i: int,
) -> Seq<T> {
    K::emit(
        kernel_after::<T, K>(m, bank, b, i as nat),
        frame_params::<T, K>(bank, b.events, i, b.frames, b.pos),
        column(b.x, i),
        key_column(b.key, i),
    )
}

// ---------------------------------------------------------------------------
// Latching
// ---------------------------------------------------------------------------

pub proof fn lemma_cut_from<R>(events: Seq<ParamEvent<R>>, k: int, i: int)
    requires
        0 <= k <= events.len(),
        sorted_events(events),
        forall|j: int| 0 <= j < k ==> (#[trigger] events[j]).offset < i,
    ensures
        k <= cut_from(events, k, i) <= events.len(),
        forall|j: int|
            0 <= j < cut_from(events, k, i) ==> (#[trigger] events[j]).offset < i,
        forall|j: int|
            cut_from(events, k, i) <= j < events.len() ==> (#[trigger] events[j]).offset >= i,
    decreases events.len() - k,
{
    if k < events.len() && events[k].offset < i {
        lemma_cut_from(events, k + 1, i);
    }
}

/// Exactly the events before the cut are stamped earlier.
pub proof fn lemma_cut<R>(events: Seq<ParamEvent<R>>, i: int)
    requires
        sorted_events(events),
    ensures
        0 <= cut(events, i) <= events.len(),
        forall|j: int| 0 <= j < cut(events, i) ==> (#[trigger] events[j]).offset < i,
        forall|j: int|
            cut(events, i) <= j < events.len() ==> (#[trigger] events[j]).offset >= i,
{
    lemma_cut_from(events, 0, i);
}

/// An index that separates earlier from later stamps is the cut.
pub proof fn lemma_cut_is<R>(events: Seq<ParamEvent<R>>, i: int, c: int)
    requires
        sorted_events(events),
        0 <= c <= events.len(),
        forall|j: int| 0 <= j < c ==> (#[trigger] events[j]).offset < i,
        c < events.len() ==> events[c].offset >= i,
    ensures
        c == cut(events, i),
{
    lemma_cut(events, i);
    let d = cut(events, i);
    if c < d {
        assert(events[c].offset < i);
    } else if d < c {
        assert(events[d].offset < i);
        assert(events[d].offset >= i);
    }
}

pub proof fn lemma_cut_monotone<R>(events: Seq<ParamEvent<R>>, i: int, j: int)
    requires
        sorted_events(events),
        i <= j,
    ensures
        cut(events, i) <= cut(events, j),
{
    lemma_cut(events, i);
    lemma_cut(events, j);
    if cut(events, j) < cut(events, i) {
        let k = cut(events, j);
        assert(events[k].offset < i);
        assert(events[k].offset >= j);
    }
}

/// Latching up to `b` and then up to `c` is latching up to `c`.
pub proof fn lemma_latched_splits<R: Real>(
    bank: Seq<Smoother<R>>,
    events: Seq<ParamEvent<R>>,
    a: int,
    b: int,
    c: int,
    frames: nat,
)
    requires
        a <= b <= c,
    ensures
        latched(latched(bank, events, a, b, frames), events, b, c, frames) == latched(
            bank,
            events,
            a,
            c,
            frames,
        ),
    decreases c - b,
{
    if b < c {
        lemma_latched_splits(bank, events, a, b, c - 1, frames);
    }
}

/// Latching changes no current value and keeps the bank sound.
pub proof fn lemma_latched_keeps_values<R: Real>(
    bank: Seq<Smoother<R>>,
    events: Seq<ParamEvent<R>>,
    a: int,
    b: int,
    frames: nat,
)
    requires
        sound_bank(bank),
        nil::<R>().finite(),
    ensures
        bank_values(latched(bank, events, a, b, frames)) == bank_values(bank),
        latched(bank, events, a, b, frames).len() == bank.len(),
        sound_bank(latched(bank, events, a, b, frames)),
    decreases b - a,
{
    if a < b {
        lemma_latched_keeps_values(bank, events, a, b - 1, frames);
        let prev = latched(bank, events, a, b - 1, frames);
        let e = events[b - 1];
        if e.value.finite() {
            bank_operations_keep_the_range(prev, e.param, e.value);
        }
        assert(bank_values(event_applied(prev, e, frames)) =~= bank_values(prev));
    }
}

proof fn lemma_slot_of<R>(bank: Seq<Smoother<R>>, id: ParamId, from: nat)
    requires
        forall|i: int| 0 <= i < bank.len() ==> (#[trigger] bank[i]).id.0 == i,
        from <= id.0,
    ensures
        slot_from(bank, id, from) == (if id.0 < bank.len() {
            id.0 as nat
        } else {
            bank.len()
        }),
    decreases bank.len() - from,
{
    if from < bank.len() && from != id.0 {
        lemma_slot_of(bank, id, from + 1);
    }
}

proof fn lemma_latched_keeps_parameters<R: Real>(
    bank: Seq<Smoother<R>>,
    events: Seq<ParamEvent<R>>,
    a: int,
    b: int,
    frames: nat,
    k: int,
)
    requires
        0 <= k < bank.len(),
    ensures
        latched(bank, events, a, b, frames).len() == bank.len(),
        latched(bank, events, a, b, frames)[k].id == bank[k].id,
        latched(bank, events, a, b, frames)[k].range == bank[k].range,
    decreases b - a,
{
    if a < b {
        lemma_latched_keeps_parameters(bank, events, a, b - 1, frames, k);
    }
}

/// The event takes hold of parameter `k`: it is stamped inside the block and carries a finite
/// value for it.
pub open spec fn concerns<R: Real>(e: ParamEvent<R>, k: int, frames: nat) -> bool {
    e.param.0 == k && e.offset < frames && e.value.finite()
}

/// The last event of a parameter counts: of the events `a..b`, the one that is the last to
/// concern parameter `k` sets its target, brought into the range of that parameter.
pub proof fn the_last_event_of_a_parameter_counts<R: Real>(
    bank: Seq<Smoother<R>>,
    events: Seq<ParamEvent<R>>,
    a: int,
    b: int,
    j: int,
    k: int,
    frames: nat,
)
    requires
        sound_bank(bank),
        nil::<R>().finite(),
        forall|i: int| 0 <= i < bank.len() ==> (#[trigger] bank[i]).id.0 == i,
        0 <= k < bank.len(),
        a <= j < b,
        concerns(events[j], k, frames),
        forall|i: int| j < i < b ==> !concerns(#[trigger] events[i], k, frames),
    ensures
        latched(bank, events, a, b, frames)[k].target.alike(
            clamped(events[j].value, bank[k].range.0, bank[k].range.1),
        ),
    decreases b - j,
{
    let was = latched(bank, events, a, b - 1, frames);
    let e = events[b - 1];
    lemma_latched_keeps_values(bank, events, a, b - 1, frames);
    assert forall|i: int| 0 <= i < was.len() implies (#[trigger] was[i]).id.0 == i by {
        lemma_latched_keeps_parameters(bank, events, a, b - 1, frames, i);
    }
    lemma_latched_keeps_parameters(bank, events, a, b - 1, frames, k);
    lemma_slot_of(was, e.param, 0);
    if j == b - 1 {
        assert(sound(was[k]));
        clamped_is_within(e.value, was[k].range.0, was[k].range.1);
    } else {
        the_last_event_of_a_parameter_counts(bank, events, a, b - 1, j, k, frames);
        assert(!concerns(events[b - 1], k, frames));
    }
}

/// Events that do not concern a parameter leave it alone.
pub proof fn other_events_leave_a_parameter_alone<R: Real>(
    bank: Seq<Smoother<R>>,
    events: Seq<ParamEvent<R>>,
    a: int,
    b: int,
    k: int,
    frames: nat,
)
    requires
        forall|i: int| 0 <= i < bank.len() ==> (#[trigger] bank[i]).id.0 == i,
        0 <= k < bank.len(),
        forall|i: int| a <= i < b ==> !concerns(#[trigger] events[i], k, frames),
    ensures
        latched(bank, events, a, b, frames)[k] == bank[k],
    decreases b - a,
{
    if a < b {
        let was = latched(bank, events, a, b - 1, frames);
        let e = events[b - 1];
        other_events_leave_a_parameter_alone(bank, events, a, b - 1, k, frames);
        lemma_latched_keeps_parameters(bank, events, a, b - 1, frames, k);
        assert forall|i: int| 0 <= i < was.len() implies (#[trigger] was[i]).id.0 == i by {
            lemma_latched_keeps_parameters(bank, events, a, b - 1, frames, i);
        }
        lemma_slot_of(was, e.param, 0);
        assert(!concerns(events[b - 1], k, frames));
    }
}

/// Two stretches of events that apply alike latch alike.
pub proof fn lemma_latched_alike<R: Real>(
    bank: Seq<Smoother<R>>,
    e1: Seq<ParamEvent<R>>,
    a1: int,
    n1: nat,
    e2: Seq<ParamEvent<R>>,
    a2: int,
    n2: nat,
    count: nat,
)
    requires
        forall|k: int|
            0 <= k < count ==> {
                &&& (#[trigger] e1[a1 + k]).param == e2[a2 + k].param
                &&& e1[a1 + k].value == e2[a2 + k].value
                &&& (e1[a1 + k].offset < n1) == (e2[a2 + k].offset < n2)
            },
    ensures
        latched(bank, e1, a1, a1 + count, n1) == latched(bank, e2, a2, a2 + count, n2),
    decreases count,
{
    if count > 0 {
        lemma_latched_alike(bank, e1, a1, n1, e2, a2, n2, (count - 1) as nat);
        assert(e1[a1 + (count - 1)].param == e2[a2 + (count - 1)].param);
    }
}

/// The bank stays sound and keeps its length over a block.
pub proof fn lemma_bank_after_sound<R: Real>(
    bank: Seq<Smoother<R>>,
    events: Seq<ParamEvent<R>>,
    n: nat,
    frames: nat,
    pos: int,
)
    requires
        sound_bank(bank),
        nil::<R>().finite(),
    ensures
        sound_bank(bank_after(bank, events, n, frames, pos)),
        bank_after(bank, events, n, frames, pos).len() == bank.len(),
    decreases n,
{
    if n > 0 {
        lemma_bank_after_sound(bank, events, (n - 1) as nat, frames, pos);
        let b = bank_after(bank, events, (n - 1) as nat, frames, pos);
        lemma_latched_keeps_values(b, events, cut(events, n - 1), cut(events, n as int), frames);
        let l = latched(b, events, cut(events, n - 1), cut(events, n as int), frames);
        bank_operations_keep_the_range(l, ParamId(0), nil::<R>());
    }
}

/// Between grid boundaries the bank only latches, and its values stand still.
pub proof fn lemma_between_boundaries<R: Real>(
    bank: Seq<Smoother<R>>,
    events: Seq<ParamEvent<R>>,
    start: nat,
    n: nat,
    frames: nat,
    pos: int,
)
    requires
        sound_bank(bank),
        nil::<R>().finite(),
        sorted_events(events),
        start <= n,
        forall|i: int| start <= i < n ==> !#[trigger] on_grid(pos + i),
    ensures
        bank_after(bank, events, n, frames, pos) == latched(
            bank_after(bank, events, start, frames, pos),
            events,
            cut(events, start as int),
            cut(events, n as int),
            frames,
        ),
        bank_values(bank_after(bank, events, n, frames, pos)) == bank_values(
            bank_after(bank, events, start, frames, pos),
        ),
    decreases n - start,
{
    let b0 = bank_after(bank, events, start, frames, pos);
    lemma_bank_after_sound(bank, events, start, frames, pos);
    if start < n {
        lemma_between_boundaries(bank, events, start, (n - 1) as nat, frames, pos);
        assert(!on_grid(pos + (n - 1)));
        lemma_cut_monotone(events, start as int, n - 1);
        lemma_cut_monotone(events, n - 1, n as int);
        lemma_latched_splits(
            b0,
            events,
            cut(events, start as int),
            cut(events, n - 1),
            cut(events, n as int),
            frames,
        );
        lemma_latched_keeps_values(
            b0,
            events,
            cut(events, start as int),
            cut(events, n as int),
            frames,
        );
    } else {
        assert(latched(b0, events, cut(events, start as int), cut(events, n as int), frames) == b0);
    }
}

/// Targets take effect on the control grid: up to boundary `g`, the values that
/// frames are rendered with stand still, and at `g` the bank steps toward every
/// target stamped since the previous boundary up to and on `g` itself.
///
/// So a target takes effect at the first boundary at or after its stamp.
pub proof fn targets_take_effect_on_the_grid<R: Real>(
    bank: Seq<Smoother<R>>,
    events: Seq<ParamEvent<R>>,
    start: nat,
    g: nat,
    i: nat,
    frames: nat,
    pos: int,
)
    requires
        sound_bank(bank),
        nil::<R>().finite(),
        sorted_events(events),
        start <= i < g,
        forall|k: int| start <= k < g ==> !#[trigger] on_grid(pos + k),
        on_grid(pos + g),
    ensures
        bank_values(bank_after(bank, events, (i + 1) as nat, frames, pos)) == bank_values(
            bank_after(bank, events, start, frames, pos),
        ),
        bank_after(bank, events, (g + 1) as nat, frames, pos) == bank_stepped(
            latched(
                bank_after(bank, events, start, frames, pos),
                events,
                cut(events, start as int),
                cut(events, g as int + 1),
                frames,
            ),
        ),
{
    lemma_between_boundaries(bank, events, start, (i + 1) as nat, frames, pos);
    lemma_between_boundaries(bank, events, start, g, frames, pos);
    lemma_cut_monotone(events, start as int, g as int);
    lemma_cut_monotone(events, g as int, g as int + 1);
    lemma_latched_splits(
        bank_after(bank, events, start, frames, pos),
        events,
        cut(events, start as int),
        cut(events, g as int),
        cut(events, g as int + 1),
        frames,
    );
}

/// From any frame on, the next boundary is less than 32 frames away.
pub proof fn boundaries_come_every_32_frames(pos: int, i: int)
    ensures
        exists|g: int| i <= g < i + 32 && #[trigger] on_grid(pos + g),
{
    let g = i + (32 - (pos + i) % 32) % 32;
    assert(on_grid(pos + g));
}

// ---------------------------------------------------------------------------
// Runs
// ---------------------------------------------------------------------------

/// Where run `j` of a block of `frames` frames at `pos` starts: the first at the start of
/// the block, the others at the boundaries after it. The place after the last run is the
/// end of the block.
pub open spec fn run_start(pos: int, frames: int, j: int) -> int {
    let at = if j == 0 {
        0
    } else {
        32 * j - pos % 32
    };
    if at < frames {
        at
    } else {
        frames
    }
}

/// How many runs a block of `frames` frames at `pos` is rendered in.
pub open spec fn run_count(pos: int, frames: int) -> int {
    if frames == 0 {
        0
    } else {
        (pos % 32 + frames + 31) / 32
    }
}

/// The block has a run `j`.
pub open spec fn is_run(pos: int, frames: int, j: int) -> bool {
    0 <= j < run_count(pos, frames)
}

/// The runs of a block lie end to end and cover it. Each lies inside one cell of the
/// control grid, so that it has at most 32 frames, and all but the first start on the
/// grid. A block without frames has no run.
pub proof fn runs_tile_the_block(pos: int, frames: int, j: int)
    requires
        0 <= pos,
        0 <= frames,
    ensures
        run_count(pos, frames) == 0 <==> frames == 0,
        run_start(pos, frames, 0) == 0,
        run_start(pos, frames, run_count(pos, frames)) == frames,
        is_run(pos, frames, j) ==> {
            let (lo, hi) = (run_start(pos, frames, j), run_start(pos, frames, j + 1));
            &&& 0 <= lo < hi <= frames
            &&& 1 <= hi - lo <= 32
            &&& (pos + lo) % 32 + (hi - lo) <= 32
            &&& j > 0 ==> on_grid(pos + lo)
            &&& hi == frames || on_grid(pos + hi)
        },
{
}

/// What a kernel is shown in run `j` of a block that starts with the smoothers `bank`:
/// the range, its part of the input and of the sidechains, and the parameters of its
/// frames.
pub open spec fn shown_run<T: Sample, K: FrameModel<T>>(
    io: &SubBlock<'_, '_, '_, T>,
    params: K::Params,
    bank: Seq<Smoother<T::Real>>,
    b: Block<T>,
    j: int,
) -> bool {
    let lo = run_start(b.pos, b.frames as int, j);
    let len = run_start(b.pos, b.frames as int, j + 1) - lo;
    &&& io.start == lo
    &&& io.len == len
    &&& io.in_run() == windows(b.x, lo, len)
    &&& io.key_run() == Seq::new(b.key.len(), |bus: int| windows(b.key[bus], lo, len))
    &&& params == frame_params::<T, K>(bank, b.events, lo, b.frames, b.pos)
}

/// `states` leads from `first` to `last` in `n` steps.
pub open spec fn leads<K>(states: Seq<K>, first: K, last: K, n: int) -> bool {
    &&& states.len() == n + 1
    &&& states[0] == first
    &&& states.last() == last
}

// ---------------------------------------------------------------------------
// Block division
// ---------------------------------------------------------------------------

/// The first `a` frames of a signal.
pub open spec fn head<T>(planes: Seq<Seq<T>>, a: int) -> Seq<Seq<T>> {
    Seq::new(planes.len(), |ch: int| planes[ch].subrange(0, a))
}

/// The frames of a signal from `a` on.
pub open spec fn rest_from<T>(planes: Seq<Seq<T>>, a: int) -> Seq<Seq<T>> {
    Seq::new(planes.len(), |ch: int| planes[ch].subrange(a, planes[ch].len() as int))
}

/// The events of the first `a` frames.
pub open spec fn early_events<R>(events: Seq<ParamEvent<R>>, a: nat) -> Seq<ParamEvent<R>> {
    events.subrange(0, cut(events, a as int))
}

/// The events from frame `a` on, stamped relative to it.
pub open spec fn late_events<R>(events: Seq<ParamEvent<R>>, a: nat) -> Seq<ParamEvent<R>> {
    Seq::new(
        (events.len() - cut(events, a as int)) as nat,
        |i: int|
            ParamEvent {
                offset: (events[cut(events, a as int) + i].offset - a) as u32,
                ..events[cut(events, a as int) + i]
            },
    )
}

/// The block of the first `a` frames.
pub open spec fn first_part<T: Sample>(b: Block<T>, a: nat) -> Block<T> {
    Block {
        x: head(b.x, a as int),
        key: Seq::new(b.key.len(), |k: int| head(b.key[k], a as int)),
        events: early_events(b.events, a),
        frames: a,
        pos: b.pos,
    }
}

/// The block of the frames from `a` on.
pub open spec fn second_part<T: Sample>(b: Block<T>, a: nat) -> Block<T> {
    Block {
        x: rest_from(b.x, a as int),
        key: Seq::new(b.key.len(), |k: int| rest_from(b.key[k], a as int)),
        events: late_events(b.events, a),
        frames: (b.frames - a) as nat,
        pos: b.pos + a,
    }
}

/// Channels cover the block, and events are sorted.
pub open spec fn well_shaped<T: Sample>(b: Block<T>) -> bool {
    &&& sorted_events(b.events)
    &&& forall|ch: int| 0 <= ch < b.x.len() ==> (#[trigger] b.x[ch]).len() >= b.frames
    &&& forall|k: int, ch: int|
        0 <= k < b.key.len() && 0 <= ch < b.key[k].len() ==> (#[trigger] b.key[k][ch]).len()
            >= b.frames
}

proof fn lemma_early_cut<R>(events: Seq<ParamEvent<R>>, a: nat, i: int)
    requires
        sorted_events(events),
        i <= a,
    ensures
        sorted_events(early_events(events, a)),
        cut(early_events(events, a), i) == cut(events, i),
{
    lemma_cut(events, a as int);
    lemma_cut(events, i);
    lemma_cut_monotone(events, i, a as int);
    let e1 = early_events(events, a);
    assert forall|p: int, q: int| 0 <= p <= q < e1.len() implies (#[trigger] e1[p]).offset <= (
    #[trigger] e1[q]).offset by {
        assert(events[p].offset <= events[q].offset);
    }
    assert forall|j: int| 0 <= j < cut(events, i) implies (#[trigger] e1[j]).offset < i by {
        assert(events[j].offset < i);
    }
    if cut(events, i) < e1.len() {
        assert(events[cut(events, i)].offset >= i);
    }
    lemma_cut_is(e1, i, cut(events, i));
}

proof fn lemma_late_cut<R>(events: Seq<ParamEvent<R>>, a: nat, i: int)
    requires
        sorted_events(events),
        0 <= i,
    ensures
        sorted_events(late_events(events, a)),
        cut(late_events(events, a), i) == cut(events, a + i) - cut(events, a as int),
        cut(events, a as int) <= cut(events, a + i) <= events.len(),
{
    lemma_cut(events, a as int);
    lemma_cut(events, a + i);
    lemma_cut_monotone(events, a as int, a + i);
    let c = cut(events, a as int);
    let d = cut(events, a + i);
    let e2 = late_events(events, a);
    assert forall|j: int| 0 <= j < e2.len() implies (#[trigger] e2[j]).offset == events[c + j].offset
        - a by {
        assert(events[c + j].offset >= a);
    }
    assert forall|p: int, q: int| 0 <= p <= q < e2.len() implies (#[trigger] e2[p]).offset <= (
    #[trigger] e2[q]).offset by {
        assert(events[c + p].offset <= events[c + q].offset);
    }
    assert forall|j: int| 0 <= j < d - c implies (#[trigger] e2[j]).offset < i by {
        assert(events[c + j].offset < a + i);
    }
    if d - c < e2.len() {
        assert(e2[d - c].offset == events[d].offset - a);
    }
    lemma_cut_is(e2, i, d - c);
}

/// Up to frame `a`, a bank follows the events before it alone.
pub proof fn lemma_first_bank<R: Real>(
    bank: Seq<Smoother<R>>,
    events: Seq<ParamEvent<R>>,
    a: nat,
    n: nat,
    frames: nat,
    pos: int,
)
    requires
        sorted_events(events),
        n <= a <= frames,
    ensures
        bank_after(bank, early_events(events, a), n, a, pos) == bank_after(
            bank,
            events,
            n,
            frames,
            pos,
        ),
    decreases n,
{
    if n > 0 {
        lemma_first_bank(bank, events, a, (n - 1) as nat, frames, pos);
        let e1 = early_events(events, a);
        let b = bank_after(bank, events, (n - 1) as nat, frames, pos);
        lemma_early_cut(events, a, n - 1);
        lemma_early_cut(events, a, n as int);
        lemma_cut(events, n - 1);
        lemma_cut(events, n as int);
        lemma_cut_monotone(events, n - 1, n as int);
        lemma_cut_monotone(events, n as int, a as int);
        let c = cut(events, n - 1);
        let d = cut(events, n as int);
        lemma_cut(events, a as int);
        assert forall|k: int| 0 <= k < d - c implies {
            &&& (#[trigger] e1[c + k]).param == events[c + k].param
            &&& e1[c + k].value == events[c + k].value
            &&& (e1[c + k].offset < a) == (events[c + k].offset < frames)
        } by {
            assert(events[c + k].offset < n);
        }
        lemma_latched_alike(b, e1, c, a, events, c, frames, (d - c) as nat);
    }
}

/// From frame `a` on, a bank follows the events after it, counted from there.
pub proof fn lemma_second_bank<R: Real>(
    bank: Seq<Smoother<R>>,
    events: Seq<ParamEvent<R>>,
    a: nat,
    n: nat,
    frames: nat,
    pos: int,
)
    requires
        sorted_events(events),
        a + n <= frames,
    ensures
        bank_after(
            bank_after(bank, events, a, frames, pos),
            late_events(events, a),
            n,
            (frames - a) as nat,
            pos + a,
        ) == bank_after(bank, events, a + n, frames, pos),
    decreases n,
{
    if n > 0 {
        lemma_second_bank(bank, events, a, (n - 1) as nat, frames, pos);
        let e2 = late_events(events, a);
        let m = (a + n - 1) as nat;
        let b = bank_after(bank, events, m, frames, pos);
        lemma_late_cut(events, a, n - 1);
        lemma_late_cut(events, a, n as int);
        lemma_cut_monotone(events, m as int, m as int + 1);
        lemma_cut(events, a as int);
        let z = cut(events, a as int);
        let c = cut(events, m as int);
        let d = cut(events, m as int + 1);
        assert forall|k: int| 0 <= k < d - c implies {
            &&& (#[trigger] e2[(c - z) + k]).param == events[c + k].param
            &&& e2[(c - z) + k].value == events[c + k].value
            &&& (e2[(c - z) + k].offset < (frames - a) as nat) == (events[c + k].offset < frames)
        } by {
            assert(events[z + ((c - z) + k)].offset >= a);
        }
        lemma_latched_alike(
            b,
            e2,
            c - z,
            (frames - a) as nat,
            events,
            c,
            frames,
            (d - c) as nat,
        );
        assert(pos + a + (n - 1) == pos + m);
    }
}

/// How a host divides a stream into blocks does not show: processing a block is
/// processing its first `a` frames and then the others, each with the events
/// that fall into them.
pub proof fn block_division_does_not_show<T: Sample, K: FrameModel<T>>(
    m: K::Model,
    bank: Seq<Smoother<T::Real>>,
    b: Block<T>,
    a: nat,
)
    requires
        well_shaped(b),
        a <= b.frames,
    ensures
        ({
            let b1 = first_part(b, a);
            let b2 = second_part(b, a);
            let bank1 = bank_after(bank, b1.events, a, a, b1.pos);
            let m1 = kernel_after::<T, K>(m, bank, b1, a);
            &&& bank_after(bank1, b2.events, b2.frames, b2.frames, b2.pos) == bank_after(
                bank,
                b.events,
                b.frames,
                b.frames,
                b.pos,
            )
            &&& kernel_after::<T, K>(m1, bank1, b2, b2.frames) == kernel_after::<T, K>(
                m,
                bank,
                b,
                b.frames,
            )
            &&& forall|i: int|
                0 <= i < a ==> #[trigger] frame_out::<T, K>(m, bank, b1, i) == frame_out::<T, K>(
                    m,
                    bank,
                    b,
                    i,
                )
            &&& forall|i: int|
                0 <= i < b2.frames ==> #[trigger] frame_out::<T, K>(m1, bank1, b2, i)
                    == frame_out::<T, K>(m, bank, b, a + i)
        }),
{
    let b1 = first_part(b, a);
    let b2 = second_part(b, a);
    let bank1 = bank_after(bank, b1.events, a, a, b1.pos);
    let m1 = kernel_after::<T, K>(m, bank, b1, a);
    lemma_first_bank(bank, b.events, a, a, b.frames, b.pos);
    lemma_second_bank(bank, b.events, a, b2.frames, b.frames, b.pos);
    lemma_first_kernel::<T, K>(m, bank, b, a, a);
    lemma_second_kernel::<T, K>(m, bank, b, a, b2.frames);
    assert forall|i: int| 0 <= i < a implies #[trigger] frame_out::<T, K>(m, bank, b1, i)
        == frame_out::<T, K>(m, bank, b, i) by {
        lemma_first_kernel::<T, K>(m, bank, b, a, i as nat);
        lemma_first_bank(bank, b.events, a, (i + 1) as nat, b.frames, b.pos);
        lemma_first_columns(b, a, i);
    }
    assert forall|i: int| 0 <= i < b2.frames implies #[trigger] frame_out::<T, K>(m1, bank1, b2, i)
        == frame_out::<T, K>(m, bank, b, a + i) by {
        lemma_second_kernel::<T, K>(m, bank, b, a, i as nat);
        lemma_second_bank(bank, b.events, a, (i + 1) as nat, b.frames, b.pos);
        lemma_second_columns(b, a, i);
    }
}

proof fn lemma_first_columns<T: Sample>(b: Block<T>, a: nat, i: int)
    requires
        well_shaped(b),
        0 <= i < a <= b.frames,
    ensures
        column(first_part(b, a).x, i) == column(b.x, i),
        key_column(first_part(b, a).key, i) == key_column(b.key, i),
{
    let b1 = first_part(b, a);
    assert forall|ch: int| 0 <= ch < b.x.len() implies column(b1.x, i)[ch] == column(b.x, i)[ch] by {
        assert(b.x[ch].len() >= b.frames);
    }
    assert(column(b1.x, i) =~= column(b.x, i));
    assert forall|k: int| 0 <= k < b.key.len() implies key_column(b1.key, i)[k] == key_column(
        b.key,
        i,
    )[k] by {
        assert forall|ch: int| 0 <= ch < b.key[k].len() implies column(b1.key[k], i)[ch] == column(
            b.key[k],
            i,
        )[ch] by {
            assert(b.key[k][ch].len() >= b.frames);
        }
        assert(column(b1.key[k], i) =~= column(b.key[k], i));
    }
    assert(key_column(b1.key, i) =~= key_column(b.key, i));
}

proof fn lemma_second_columns<T: Sample>(b: Block<T>, a: nat, i: int)
    requires
        well_shaped(b),
        a <= b.frames,
        0 <= i < b.frames - a,
    ensures
        column(second_part(b, a).x, i) == column(b.x, a + i),
        key_column(second_part(b, a).key, i) == key_column(b.key, a + i),
{
    let b2 = second_part(b, a);
    assert forall|ch: int| 0 <= ch < b.x.len() implies column(b2.x, i)[ch] == column(
        b.x,
        a + i,
    )[ch] by {
        assert(b.x[ch].len() >= b.frames);
    }
    assert(column(b2.x, i) =~= column(b.x, a + i));
    assert forall|k: int| 0 <= k < b.key.len() implies key_column(b2.key, i)[k] == key_column(
        b.key,
        a + i,
    )[k] by {
        assert forall|ch: int| 0 <= ch < b.key[k].len() implies column(b2.key[k], i)[ch] == column(
            b.key[k],
            a + i,
        )[ch] by {
            assert(b.key[k][ch].len() >= b.frames);
        }
        assert(column(b2.key[k], i) =~= column(b.key[k], a + i));
    }
    assert(key_column(b2.key, i) =~= key_column(b.key, a + i));
}

proof fn lemma_first_kernel<T: Sample, K: FrameModel<T>>(
    m: K::Model,
    bank: Seq<Smoother<T::Real>>,
    b: Block<T>,
    a: nat,
    n: nat,
)
    requires
        well_shaped(b),
        n <= a <= b.frames,
    ensures
        kernel_after::<T, K>(m, bank, first_part(b, a), n) == kernel_after::<T, K>(m, bank, b, n),
    decreases n,
{
    if n > 0 {
        lemma_first_kernel::<T, K>(m, bank, b, a, (n - 1) as nat);
        lemma_first_bank(bank, b.events, a, n, b.frames, b.pos);
        lemma_first_columns(b, a, n - 1);
    }
}

proof fn lemma_second_kernel<T: Sample, K: FrameModel<T>>(
    m: K::Model,
    bank: Seq<Smoother<T::Real>>,
    b: Block<T>,
    a: nat,
    n: nat,
)
    requires
        well_shaped(b),
        a + n <= b.frames,
    ensures
        kernel_after::<T, K>(
            kernel_after::<T, K>(m, bank, first_part(b, a), a),
            bank_after(bank, first_part(b, a).events, a, a, b.pos),
            second_part(b, a),
            n,
        ) == kernel_after::<T, K>(m, bank, b, a + n),
    decreases n,
{
    lemma_first_bank(bank, b.events, a, a, b.frames, b.pos);
    if n == 0 {
        lemma_first_kernel::<T, K>(m, bank, b, a, a);
    } else {
        lemma_second_kernel::<T, K>(m, bank, b, a, (n - 1) as nat);
        lemma_second_bank(bank, b.events, a, n, b.frames, b.pos);
        lemma_second_columns(b, a, n - 1);
    }
}

// ---------------------------------------------------------------------------
// Reset
// ---------------------------------------------------------------------------

/// Two banks that no sequence of operations can tell apart.
pub open spec fn indistinguishable_banks<R: Real>(a: Seq<Smoother<R>>, b: Seq<Smoother<R>>) -> bool {
    &&& a.len() == b.len()
    &&& forall|i: int| 0 <= i < a.len() ==> indistinguishable(#[trigger] a[i], b[i])
}

/// Two banks declared by the same metadata.
pub open spec fn same_parameters<R: Real>(a: Seq<Smoother<R>>, b: Seq<Smoother<R>>) -> bool {
    &&& a.len() == b.len()
    &&& forall|i: int| 0 <= i < a.len() ==> same_parameter(#[trigger] a[i], b[i])
}

proof fn lemma_latched_same<R: Real>(
    bank: Seq<Smoother<R>>,
    other: Seq<Smoother<R>>,
    events: Seq<ParamEvent<R>>,
    a: int,
    c: int,
    frames: nat,
)
    ensures
        same_parameters(latched(bank, events, a, c, frames), bank),
        indistinguishable_banks(bank, other) ==> indistinguishable_banks(
            latched(bank, events, a, c, frames),
            latched(other, events, a, c, frames),
        ),
    decreases c - a,
{
    if a < c {
        lemma_latched_same(bank, other, events, a, c - 1, frames);
        let l1 = latched(bank, events, a, c - 1, frames);
        let l2 = latched(other, events, a, c - 1, frames);
        let e = events[c - 1];
        let k = slot(l1, e.param) as int;
        if k < l1.len() {
            assert(same_parameter(l1[k], bank[k]));
            operations_keep_the_parameter(l1[k], e.value);
        }
        if indistinguishable_banks(bank, other) {
            assert forall|i: int| 0 <= i < l1.len() implies (#[trigger] l1[i]).id == l2[i].id by {
                assert(indistinguishable(l1[i], l2[i]));
            }
            lemma_same_slots(l1, l2, e.param, 0);
            if k < l1.len() {
                assert(indistinguishable(l1[k], l2[k]));
                operations_cannot_distinguish(l1[k], l2[k], e.value);
            }
        }
    }
}

/// Processing keeps what is declared, and keeps indistinguishable banks
/// indistinguishable.
pub proof fn banks_evolve_alike<R: Real>(
    bank: Seq<Smoother<R>>,
    other: Seq<Smoother<R>>,
    events: Seq<ParamEvent<R>>,
    n: nat,
    frames: nat,
    pos: int,
)
    ensures
        same_parameters(bank_after(bank, events, n, frames, pos), bank),
        indistinguishable_banks(bank, other) ==> indistinguishable_banks(
            bank_after(bank, events, n, frames, pos),
            bank_after(other, events, n, frames, pos),
        ),
    decreases n,
{
    if n > 0 {
        banks_evolve_alike(bank, other, events, (n - 1) as nat, frames, pos);
        let b1 = bank_after(bank, events, (n - 1) as nat, frames, pos);
        let b2 = bank_after(other, events, (n - 1) as nat, frames, pos);
        let c = cut(events, n - 1);
        let d = cut(events, n as int);
        lemma_latched_same(b1, b2, events, c, d, frames);
        let l1 = latched(b1, events, c, d, frames);
        let l2 = latched(b2, events, c, d, frames);
        assert forall|i: int| 0 <= i < l1.len() implies same_parameter(
            #[trigger] bank_stepped(l1)[i],
            bank[i],
        ) && same_parameter(l1[i], bank[i]) by {
            assert(same_parameter(l1[i], b1[i]));
            assert(same_parameter(b1[i], bank[i]));
            operations_keep_the_parameter(l1[i], nil());
        }
        assert forall|i: int|
            0 <= i < l1.len() && indistinguishable_banks(bank, other) implies indistinguishable(
            #[trigger] bank_stepped(l1)[i],
            bank_stepped(l2)[i],
        ) by {
            assert(indistinguishable(l1[i], l2[i]));
            operations_cannot_distinguish(l1[i], l2[i], nil());
        }
    }
}

/// Rendering forgets nothing that a reset restores.
pub open spec fn rendering_keeps_rest<T: Sample, K: FrameModel<T>>() -> bool {
    &&& forall|m: K::Model, p: K::Params, x: Seq<T>, key: Seq<Seq<T>>| #[trigger]
        K::rest(K::next(m, p, x, key)) == K::rest(m)
    &&& forall|m: K::Model| #[trigger] K::rest(K::rest(m)) == K::rest(m)
}

/// After a reset, whatever was processed before, a processor renders every
/// later block as it would have right after it was prepared: `m` and `bank` are
/// the state it was prepared to, `x` is what was processed before the reset,
/// and `y` is what is processed after it.
pub proof fn reset_restores_the_prepared_state<T: Sample, K: FrameModel<T>>(
    m: K::Model,
    bank: Seq<Smoother<T::Real>>,
    x: Block<T>,
    y: Block<T>,
    i: int,
)
    requires
        rendering_keeps_rest::<T, K>(),
        K::rest(m) == m,
        indistinguishable_banks(bank_rested(bank), bank),
        0 <= i < y.frames,
    ensures
        ({
            let used = kernel_after::<T, K>(m, bank, x, x.frames);
            let used_bank = bank_after(bank, x.events, x.frames, x.frames, x.pos);
            &&& K::rest(used) == m
            &&& indistinguishable_banks(bank_rested(used_bank), bank)
            &&& frame_out::<T, K>(K::rest(used), bank_rested(used_bank), y, i) == frame_out::<T, K>(
                m,
                bank,
                y,
                i,
            )
        }),
{
    let used = kernel_after::<T, K>(m, bank, x, x.frames);
    let used_bank = bank_after(bank, x.events, x.frames, x.frames, x.pos);
    lemma_kernel_keeps_rest::<T, K>(m, bank, x, x.frames);
    banks_evolve_alike(bank, bank, x.events, x.frames, x.frames, x.pos);
    let r = bank_rested(used_bank);
    assert forall|k: int| 0 <= k < r.len() implies indistinguishable(#[trigger] r[k], bank[k]) by {
        assert(same_parameter(used_bank[k], bank[k]));
        assert(indistinguishable(bank_rested(bank)[k], bank[k]));
    }
    lemma_indistinguishable_blocks::<T, K>(m, r, bank, y, i as nat);
    lemma_indistinguishable_params::<T, K>(r, bank, y, i);
}

/// Rendering a block keeps what a reset restores.
pub proof fn lemma_kernel_keeps_rest<T: Sample, K: FrameModel<T>>(
    m: K::Model,
    bank: Seq<Smoother<T::Real>>,
    b: Block<T>,
    n: nat,
)
    requires
        rendering_keeps_rest::<T, K>(),
    ensures
        K::rest(kernel_after::<T, K>(m, bank, b, n)) == K::rest(m),
    decreases n,
{
    if n > 0 {
        lemma_kernel_keeps_rest::<T, K>(m, bank, b, (n - 1) as nat);
    }
}

/// Banks that cannot be told apart render with the same parameters.
pub proof fn lemma_indistinguishable_params<T: Sample, K: FrameModel<T>>(
    bank: Seq<Smoother<T::Real>>,
    other: Seq<Smoother<T::Real>>,
    b: Block<T>,
    i: int,
)
    requires
        0 <= i,
        indistinguishable_banks(bank, other),
    ensures
        frame_params::<T, K>(bank, b.events, i, b.frames, b.pos) == frame_params::<T, K>(
            other,
            b.events,
            i,
            b.frames,
            b.pos,
        ),
{
    banks_evolve_alike(bank, other, b.events, (i + 1) as nat, b.frames, b.pos);
    let b1 = bank_after(bank, b.events, (i + 1) as nat, b.frames, b.pos);
    let b2 = bank_after(other, b.events, (i + 1) as nat, b.frames, b.pos);
    assert forall|k: int| 0 <= k < b1.len() implies bank_values(b1)[k] == bank_values(b2)[k] by {
        assert(indistinguishable(b1[k], b2[k]));
    }
    assert(bank_values(b1) =~= bank_values(b2));
}

/// Banks that cannot be told apart take a kernel to the same state.
pub proof fn lemma_indistinguishable_blocks<T: Sample, K: FrameModel<T>>(
    m: K::Model,
    bank: Seq<Smoother<T::Real>>,
    other: Seq<Smoother<T::Real>>,
    b: Block<T>,
    n: nat,
)
    requires
        indistinguishable_banks(bank, other),
    ensures
        kernel_after::<T, K>(m, bank, b, n) == kernel_after::<T, K>(m, other, b, n),
    decreases n,
{
    if n > 0 {
        lemma_indistinguishable_blocks::<T, K>(m, bank, other, b, (n - 1) as nat);
        lemma_indistinguishable_params::<T, K>(bank, other, b, n - 1);
    }
}

// ---------------------------------------------------------------------------
// One target
// ---------------------------------------------------------------------------

/// The first grid boundary at or after frame `i` of a stream.
pub open spec fn boundary_from(i: int) -> int {
    (i + 31) / 32 * 32
}

/// One target of an unsmoothed parameter acts from the first grid boundary at or after
/// its stamp: before it a stream is rendered with the value from before, and from it
/// on with the target. A target that compares equal to the value changes nothing.
pub proof fn a_target_acts_from_its_boundary<R: Real>(
    bank: Seq<Smoother<R>>,
    e: ParamEvent<R>,
    frames: nat,
    f: nat,
)
    requires
        sound_bank(bank),
        nil::<R>().finite(),
        slot(bank, e.param) < bank.len(),
        bank[slot(bank, e.param) as int].shape == Smoothing::Step,
        bank[slot(bank, e.param) as int].cur == bank[slot(bank, e.param) as int].target,
        e.value.finite(),
        within(
            e.value,
            bank[slot(bank, e.param) as int].range.0,
            bank[slot(bank, e.param) as int].range.1,
        ),
        e.offset < frames,
        f < frames,
    ensures
        ({
            let j = slot(bank, e.param) as int;
            bank_values(bank_after(bank, seq![e], (f + 1) as nat, frames, 0))[j] == (if f
                >= boundary_from(e.offset as int) && !e.value.alike(bank[j].target) {
                e.value
            } else {
                bank[j].cur
            })
        }),
{
    lemma_one_target(bank, e, frames, (f + 1) as nat);
}

proof fn lemma_one_target<R: Real>(
    bank: Seq<Smoother<R>>,
    e: ParamEvent<R>,
    frames: nat,
    n: nat,
)
    requires
        sound_bank(bank),
        nil::<R>().finite(),
        slot(bank, e.param) < bank.len(),
        bank[slot(bank, e.param) as int].shape == Smoothing::Step,
        bank[slot(bank, e.param) as int].cur == bank[slot(bank, e.param) as int].target,
        e.value.finite(),
        within(
            e.value,
            bank[slot(bank, e.param) as int].range.0,
            bank[slot(bank, e.param) as int].range.1,
        ),
        e.offset < frames,
        n <= frames,
    ensures
        ({
            let j = slot(bank, e.param) as int;
            let b = bank_after(bank, seq![e], n, frames, 0);
            let t = retargeted(bank[j], e.value);
            &&& b.len() == bank.len()
            &&& b[j] == (if n <= e.offset {
                bank[j]
            } else if n <= boundary_from(e.offset as int) {
                t
            } else {
                Smoother { cur: t.target, ..t }
            })
        }),
    decreases n,
{
    let j = slot(bank, e.param) as int;
    let events = seq![e];
    let t = retargeted(bank[j], e.value);
    banks_evolve_alike(bank, bank, events, n, frames, 0);
    if n > 0 {
        let i = n - 1;
        lemma_one_target(bank, e, frames, i as nat);
        let b = bank_after(bank, events, i as nat, frames, 0);
        banks_evolve_alike(bank, bank, events, i as nat, frames, 0);
        assert forall|k: int| 0 <= k < b.len() implies (#[trigger] b[k]).id == bank[k].id by {
            assert(same_parameter(b[k], bank[k]));
        }
        lemma_same_slots(b, bank, e.param, 0);
        lemma_cut_is(events, i, if i <= e.offset {
            0
        } else {
            1
        });
        lemma_cut_is(events, i + 1, if i + 1 <= e.offset {
            0
        } else {
            1
        });
        let c = cut(events, i);
        let d = cut(events, i + 1);
        let l = latched(b, events, c, d, frames);
        if i == e.offset {
            assert(latched(b, events, 0, 0, frames) == b);
            assert(l == event_applied(b, e, frames));
            assert(l[j] == t);
        } else {
            assert(l == b);
        }
        let done = Smoother { cur: t.target, ..t };
        assert(sound(bank[j]));
        assert(stepped(bank[j]) == bank[j]);
        assert(stepped(t) == done);
        assert(stepped(done) == done);
        assert(on_grid(i) && i < e.offset ==> i < boundary_from(e.offset as int));
        assert(on_grid(i) && e.offset <= i <= boundary_from(e.offset as int) ==> i
            == boundary_from(e.offset as int));
        assert(on_grid(boundary_from(e.offset as int)));
    }
}

} // verus!
