//! An in-memory [`Source`].

use crate::contract::block::{frames_of, rectangular, AudioBlockMut};
use crate::contract::context::Produced;
use crate::contract::traits::Source;
use vstd::prelude::*;

verus! {

/// Plays owned planar buffers front to back.
#[derive(Clone, Debug)]
pub struct RingSource<T> {
    /// Channel by channel, all of equal length.
    data: Vec<Vec<T>>,
    channels: usize,
    /// Frames per channel.
    len: usize,
    /// Next frame to emit.
    read: usize,
    /// Maximum frames returned per pull. `usize::MAX` means unlimited.
    chunk_cap: usize,
}

/// The samples of owned planes.
pub open spec fn owned_planes<T>(data: Seq<Vec<T>>) -> Seq<Seq<T>> {
    Seq::new(data.len(), |ch: int| data[ch]@)
}

/// The frames of `planes` from `read` on.
pub open spec fn unread<T>(planes: Seq<Seq<T>>, read: int) -> Seq<Seq<T>> {
    Seq::new(planes.len(), |ch: int| planes[ch].subrange(read, planes[ch].len() as int))
}

/// How many frames one pull returns: as many as are left, as fit, and as are allowed.
pub open spec fn pull_size(left: nat, room: nat, cap: nat) -> nat {
    if room <= left && room <= cap {
        room
    } else if left <= cap {
        left
    } else {
        cap
    }
}

impl<T> RingSource<T> {
    /// Everything the source plays, channel by channel.
    pub closed spec fn contents(&self) -> Seq<Seq<T>> {
        owned_planes(self.data@)
    }

    /// Frames per channel.
    pub closed spec fn length(&self) -> usize {
        self.len
    }

    /// The next frame to play.
    pub closed spec fn cursor(&self) -> usize {
        self.read
    }

    /// The most frames that one pull returns.
    pub closed spec fn cap(&self) -> usize {
        self.chunk_cap
    }

    /// Channels are equally long and the cursor is inside them.
    pub closed spec fn wf(&self) -> bool {
        &&& rectangular(self.contents(), self.len as nat)
        &&& self.channels == self.data@.len()
        &&& self.len == frames_of(self.contents())
        &&& self.read <= self.len
        &&& self.chunk_cap >= 1
    }
}

/// A plane with its first samples replaced by `front`.
pub open spec fn fronted<T>(plane: Seq<T>, front: Seq<T>) -> Seq<T> {
    front + plane.subrange(front.len() as int, plane.len() as int)
}

/// One pull into a block with `room` frames that holds `before`: as many frames as are
/// left, as fit, and as are allowed come from the cursor on, into the channels of the
/// source. Everything else in the block stays, and the source moves its cursor only.
pub open spec fn pulled<T>(
    s: RingSource<T>,
    room: usize,
    before: Seq<Seq<T>>,
    r: Produced,
    after: RingSource<T>,
    out: Seq<Seq<T>>,
) -> bool {
    let n = pull_size((s.length() - s.cursor()) as nat, room as nat, s.cap() as nat);
    &&& r.frames == n
    &&& r.done == (after.cursor() == s.length())
    &&& after.cursor() == s.cursor() + n
    &&& after.contents() == s.contents()
    &&& after.length() == s.length()
    &&& after.cap() == s.cap()
    &&& after.wf()
    &&& out == Seq::new(
        before.len(),
        |ch: int|
            if ch < s.contents().len() {
                fronted(before[ch], s.contents()[ch].subrange(s.cursor() as int, s.cursor() + n))
            } else {
                before[ch]
            },
    )
}

impl<T: Copy> RingSource<T> {
    /// Build from owned planar buffers of equal length.
    pub fn new(data: Vec<Vec<T>>) -> (r: Self)
        requires
            rectangular(owned_planes(data@), frames_of(owned_planes(data@))),
        ensures
            r.wf(),
            r.contents() == owned_planes(data@),
            r.length() == frames_of(owned_planes(data@)),
            r.cursor() == 0,
            r.cap() == usize::MAX,
    {
        let channels: usize = data.len();
        let len: usize = if channels > 0 {
            data[0].len()
        } else {
            0
        };
        Self { data, channels, len, read: 0, chunk_cap: usize::MAX }
    }

    /// Build with a maximum number of frames per pull, at least one.
    pub fn with_chunk_cap(data: Vec<Vec<T>>, cap: usize) -> (r: Self)
        requires
            rectangular(owned_planes(data@), frames_of(owned_planes(data@))),
        ensures
            r.wf(),
            r.contents() == owned_planes(data@),
            r.length() == frames_of(owned_planes(data@)),
            r.cursor() == 0,
            r.cap() == (if cap == 0 {
                1usize
            } else {
                cap
            }),
    {
        let mut r = Self::new(data);
        r.chunk_cap = if cap == 0 {
            1
        } else {
            cap
        };
        r
    }

    /// Frames not yet pulled.
    pub fn remaining(&self) -> (r: usize)
        requires
            self.wf(),
        ensures
            r == self.length() - self.cursor(),
    {
        self.len - self.read
    }

    /// Rewind to the start.
    pub fn rewind(&mut self)
        requires
            old(self).wf(),
        ensures
            final(self).wf(),
            final(self).cursor() == 0,
            final(self).contents() == old(self).contents(),
            final(self).length() == old(self).length(),
            final(self).cap() == old(self).cap(),
    {
        self.read = 0;
    }
}

/// Copy the first `n` samples of `src` from `from` on into `dst`.
fn copy_front<T: Copy>(dst: &mut [T], src: &Vec<T>, from: usize, n: usize)
    requires
        n <= old(dst)@.len(),
        from + n <= src@.len(),
    ensures
        final(dst)@.len() == old(dst)@.len(),
        final(dst)@.subrange(0, n as int) == src@.subrange(from as int, from + n),
        forall|i: int| n <= i < old(dst)@.len() ==> final(dst)@[i] == old(dst)@[i],
{
    let total: usize = src.len();
    let mut i: usize = 0;
    while i < n
        invariant
            total == src@.len(),
            0 <= i <= n <= dst@.len(),
            dst@.len() == old(dst)@.len(),
            from + n <= src@.len(),
            forall|j: int| 0 <= j < i ==> #[trigger] dst@[j] == src@[from + j],
            forall|j: int| i <= j < dst@.len() ==> #[trigger] dst@[j] == old(dst)@[j],
        decreases n - i,
    {
        dst[i] = src[from + i];
        i += 1;
    }
    assert(dst@.subrange(0, n as int) =~= src@.subrange(from as int, from + n));
}

impl<T: Copy> Source<T> for RingSource<T> {
    open spec fn pending(&self) -> Seq<Seq<T>> {
        unread(self.contents(), self.cursor() as int)
    }

    open spec fn inv(&self) -> bool {
        self.wf()
    }

    fn channels(&self) -> (r: usize) {
        self.channels
    }

    fn pull(&mut self, out: &mut AudioBlockMut<'_, '_, T>) -> (r: Produced)
        ensures
            pulled(
                *old(self),
                old(out).length(),
                old(out).samples(),
                r,
                *final(self),
                final(out).samples(),
            ),
    {
        let avail: usize = self.len - self.read;
        let room: usize = out.frames();
        let mut n: usize = room;
        if avail < n {
            n = avail;
        }
        if self.chunk_cap < n {
            n = self.chunk_cap;
        }
        let ghost before = out.samples();
        let ghost planes = self.contents();
        let mut ch: usize = 0;
        while ch < self.channels
            invariant
                0 <= ch <= self.channels,
                *self == *old(self),
                self.wf(),
                planes == self.contents(),
                self.read + n <= self.len,
                n <= room,
                before == old(out).samples(),
                rectangular(before, room as nat),
                out.samples().len() == before.len(),
                self.channels <= before.len(),
                out.length() == old(out).length(),
                final(out.table())@ == final(old(out).table())@,
                forall|c: int|
                    0 <= c < before.len() ==> final(#[trigger] out.plane(c))@
                        == final(old(out).plane(c))@,
                forall|c: int|
                    0 <= c < before.len() ==> (#[trigger] out.samples()[c]).len() == room
                        && forall|i: int|
                        n <= i < room ==> out.samples()[c][i] == before[c][i],
                forall|c: int|
                    ch <= c < before.len() ==> #[trigger] out.samples()[c] == before[c],
                forall|c: int|
                    0 <= c < ch ==> (#[trigger] out.samples()[c]).subrange(0, n as int)
                        == planes[c].subrange(self.read as int, self.read + n),
            decreases self.channels - ch,
        {
            assert(planes[ch as int].len() == self.len);
            let ghost earlier = out.samples();
            assert(earlier[ch as int].len() == room);
            copy_front(out.channel_mut(ch), &self.data[ch], self.read, n);
            assert forall|c: int| 0 <= c < before.len() implies (#[trigger] out.samples()[c]).len()
                == room && forall|i: int|
                n <= i < room ==> out.samples()[c][i] == before[c][i] by {
                assert(earlier[c].len() == room);
            }
            assert forall|c: int| 0 <= c < ch + 1 implies (#[trigger] out.samples()[c]).subrange(
                0,
                n as int,
            ) == planes[c].subrange(self.read as int, self.read + n) by {
                if c < ch {
                    assert(out.samples()[c] == earlier[c]);
                }
            }
            ch += 1;
        }
        self.read = self.read + n;
        proof {
            assert(self.contents() == planes);
            let at = old(self).cursor() as int;
            let expected = Seq::new(
                before.len(),
                |c: int|
                    if c < planes.len() {
                        fronted(before[c], planes[c].subrange(at, at + n))
                    } else {
                        before[c]
                    },
            );
            assert forall|c: int| 0 <= c < before.len() implies (#[trigger] out.samples()[c])
                == expected[c] by {
                assert(out.samples()[c].len() == room);
                assert(before[c].len() == room);
                if c < planes.len() {
                    assert(planes[c].len() == self.len);
                    let front = planes[c].subrange(at, at + n);
                    assert(out.samples()[c].subrange(0, n as int) == front);
                    assert forall|j: int| 0 <= j < n implies out.samples()[c][j] == front[j] by {
                        assert(out.samples()[c].subrange(0, n as int)[j] == front[j]);
                    }
                    assert(out.samples()[c] =~= fronted(before[c], front));
                }
            }
            assert(out.samples() =~= expected);
            let old_pending = old(self).pending();
            assert forall|c: int| 0 <= c < old_pending.len() implies {
                &&& n <= (#[trigger] old_pending[c]).len()
                &&& out.samples()[c].subrange(0, n as int) == old_pending[c].subrange(0, n as int)
                &&& self.pending()[c] == old_pending[c].subrange(
                    n as int,
                    old_pending[c].len() as int,
                )
            } by {
                assert(planes[c].len() == self.len);
                let at = old(self).cursor() as int;
                assert(old_pending[c].subrange(0, n as int) =~= planes[c].subrange(at, at + n));
                assert(self.pending()[c] =~= old_pending[c].subrange(
                    n as int,
                    old_pending[c].len() as int,
                ));
            }
        }
        Produced { frames: n, done: self.read >= self.len }
    }
}

// ---------------------------------------------------------------------------
// Runs of pulls
// ---------------------------------------------------------------------------

/// Consecutive pulls: pull `k` takes the source from `states[k]` to `states[k + 1]` and
/// the block from `befores[k]` to `outs[k]`.
pub open spec fn pulled_in_turn<T>(
    states: Seq<RingSource<T>>,
    rooms: Seq<usize>,
    befores: Seq<Seq<Seq<T>>>,
    calls: Seq<Produced>,
    outs: Seq<Seq<Seq<T>>>,
) -> bool {
    &&& states.len() == calls.len() + 1
    &&& rooms.len() == calls.len()
    &&& befores.len() == calls.len()
    &&& outs.len() == calls.len()
    &&& states[0].wf()
    &&& forall|k: int|
        0 <= k < calls.len() ==> {
            &&& pulled(
                states[k],
                rooms[k],
                befores[k],
                #[trigger] calls[k],
                states[k + 1],
                outs[k],
            )
            &&& befores[k].len() >= states[0].contents().len()
            &&& rectangular(befores[k], rooms[k] as nat)
        }
}

/// What the pulls brought of channel `ch`, joined.
pub open spec fn brought<T>(calls: Seq<Produced>, outs: Seq<Seq<Seq<T>>>, ch: int) -> Seq<T>
    decreases calls.len(),
{
    if calls.len() == 0 {
        Seq::empty()
    } else {
        brought(calls.drop_last(), outs.drop_last(), ch) + outs.last()[ch].subrange(
            0,
            calls.last().frames as int,
        )
    }
}

proof fn lemma_turns<T>(
    states: Seq<RingSource<T>>,
    rooms: Seq<usize>,
    befores: Seq<Seq<Seq<T>>>,
    calls: Seq<Produced>,
    outs: Seq<Seq<Seq<T>>>,
    k: int,
)
    requires
        pulled_in_turn(states, rooms, befores, calls, outs),
        0 <= k <= calls.len(),
    ensures
        states[k].wf(),
        states[k].contents() == states[0].contents(),
        states[k].length() == states[0].length(),
        states[k].cap() == states[0].cap(),
        states[0].cursor() <= states[k].cursor() <= states[0].length(),
        (forall|j: int| 0 <= j < rooms.len() ==> #[trigger] rooms[j] >= 1) ==> {
            ||| states[k].cursor() == states[0].length()
            ||| states[k].cursor() >= states[0].cursor() + k
        },
    decreases k,
{
    if k > 0 {
        lemma_turns(states, rooms, befores, calls, outs, k - 1);
        let call = calls[k - 1];
        assert(pulled(
            states[k - 1],
            rooms[k - 1],
            befores[k - 1],
            call,
            states[k],
            outs[k - 1],
        ));
        if forall|j: int| 0 <= j < rooms.len() ==> #[trigger] rooms[j] >= 1 {
            assert(rooms[k - 1] >= 1);
        }
    }
}

proof fn lemma_brought<T>(
    states: Seq<RingSource<T>>,
    rooms: Seq<usize>,
    befores: Seq<Seq<Seq<T>>>,
    calls: Seq<Produced>,
    outs: Seq<Seq<Seq<T>>>,
    ch: int,
    n: nat,
)
    requires
        pulled_in_turn(states, rooms, befores, calls, outs),
        0 <= ch < states[0].contents().len(),
        n <= calls.len(),
    ensures
        brought(calls.take(n as int), outs.take(n as int), ch)
            == states[0].contents()[ch].subrange(
            states[0].cursor() as int,
            states[n as int].cursor() as int,
        ),
    decreases n,
{
    let plane = states[0].contents()[ch];
    let (at, end) = (states[0].cursor() as int, states[n as int].cursor() as int);
    lemma_turns(states, rooms, befores, calls, outs, n as int);
    assert(plane.len() == states[0].length());
    if n > 0 {
        let k = n - 1;
        lemma_turns(states, rooms, befores, calls, outs, k);
        lemma_brought(states, rooms, befores, calls, outs, ch, k as nat);
        let call = calls[k];
        assert(pulled(states[k], rooms[k], befores[k], call, states[k + 1], outs[k]));
        assert(calls.take(n as int).drop_last() =~= calls.take(k));
        assert(outs.take(n as int).drop_last() =~= outs.take(k));
        assert(befores[k][ch].len() == rooms[k]);
        let mid = states[k].cursor() as int;
        assert(outs[k][ch].subrange(0, call.frames as int) =~= plane.subrange(mid, end));
        assert(plane.subrange(at, mid) + plane.subrange(mid, end) =~= plane.subrange(at, end));
    } else {
        assert(plane.subrange(at, at) =~= Seq::empty());
    }
}

/// A run of pulls plays the source: what it brings of a channel joins to the channel's
/// data, from the first cursor to the last, nothing lost or repeated. Into blocks with
/// room for a frame or more, the last of at least as many pulls as there are frames left,
/// and of at least one, is done and has brought everything. A pull after one that was done
/// brings nothing, says so, and writes nothing.
pub proof fn pulls_join_to_the_data<T>(
    states: Seq<RingSource<T>>,
    rooms: Seq<usize>,
    befores: Seq<Seq<Seq<T>>>,
    calls: Seq<Produced>,
    outs: Seq<Seq<Seq<T>>>,
    ch: int,
)
    requires
        pulled_in_turn(states, rooms, befores, calls, outs),
        0 <= ch < states[0].contents().len(),
    ensures
        states.last().cursor() <= states[0].length(),
        brought(calls, outs, ch) == states[0].contents()[ch].subrange(
            states[0].cursor() as int,
            states.last().cursor() as int,
        ),
        calls.len() >= 1 && calls.len() >= states[0].length() - states[0].cursor() && (forall|
            k: int,
        |
            0 <= k < rooms.len() ==> #[trigger] rooms[k] >= 1) ==> {
            &&& calls.last().done
            &&& brought(calls, outs, ch) == states[0].contents()[ch].subrange(
                states[0].cursor() as int,
                states[0].length() as int,
            )
        },
        calls.len() >= 1 && calls.last().done ==> brought(calls, outs, ch)
            == states[0].contents()[ch].subrange(
            states[0].cursor() as int,
            states[0].length() as int,
        ),
        forall|k: int|
            0 <= k < calls.len() - 1 && (#[trigger] calls[k]).done ==> {
                &&& calls[k + 1] == (Produced { frames: 0, done: true })
                &&& outs[k + 1] == befores[k + 1]
            },
{
    let n = calls.len();
    lemma_turns(states, rooms, befores, calls, outs, n as int);
    lemma_brought(states, rooms, befores, calls, outs, ch, n);
    assert(calls.take(n as int) =~= calls);
    assert(outs.take(n as int) =~= outs);
    if n > 0 {
        lemma_turns(states, rooms, befores, calls, outs, n - 1);
        let call = calls[n - 1];
        assert(pulled(
            states[n - 1],
            rooms[n - 1],
            befores[n - 1],
            call,
            states[n as int],
            outs[n - 1],
        ));
    }
    assert forall|k: int| 0 <= k < calls.len() - 1 && (#[trigger] calls[k]).done implies calls[k
        + 1] == (Produced { frames: 0, done: true }) && outs[k + 1] == befores[k + 1] by {
        lemma_turns(states, rooms, befores, calls, outs, k);
        lemma_turns(states, rooms, befores, calls, outs, k + 1);
        let next = calls[k + 1];
        assert(pulled(
            states[k + 1],
            rooms[k + 1],
            befores[k + 1],
            next,
            states[k + 2],
            outs[k + 1],
        ));
        let (held, now) = (befores[k + 1], outs[k + 1]);
        assert forall|c: int| 0 <= c < held.len() implies now[c] == held[c] by {
            assert(held[c].len() == rooms[k + 1]);
            assert(now[c] =~= held[c]);
        }
        assert(now =~= held);
    }
}

/// Two sources that hold the same, under the same cap, and stand at the same frame play
/// alike: every run of pulls answers alike, writes alike, and leaves as much. A rewound
/// source stands at the first frame, as one that was just built does.
pub proof fn equal_sources_play_alike<T>(
    a: Seq<RingSource<T>>,
    b: Seq<RingSource<T>>,
    rooms: Seq<usize>,
    befores: Seq<Seq<Seq<T>>>,
    calls_a: Seq<Produced>,
    calls_b: Seq<Produced>,
    outs_a: Seq<Seq<Seq<T>>>,
    outs_b: Seq<Seq<Seq<T>>>,
    k: int,
)
    requires
        pulled_in_turn(a, rooms, befores, calls_a, outs_a),
        pulled_in_turn(b, rooms, befores, calls_b, outs_b),
        a[0].contents() == b[0].contents(),
        a[0].length() == b[0].length(),
        a[0].cap() == b[0].cap(),
        a[0].cursor() == b[0].cursor(),
        0 <= k <= rooms.len(),
    ensures
        a[k].contents() == b[k].contents(),
        a[k].length() == b[k].length(),
        a[k].cap() == b[k].cap(),
        a[k].cursor() == b[k].cursor(),
        k > 0 ==> calls_a[k - 1] == calls_b[k - 1] && outs_a[k - 1] == outs_b[k - 1],
    decreases k,
{
    if k > 0 {
        equal_sources_play_alike(
            a,
            b,
            rooms,
            befores,
            calls_a,
            calls_b,
            outs_a,
            outs_b,
            k - 1,
        );
        let (p, q) = (calls_a[k - 1], calls_b[k - 1]);
        assert(pulled(a[k - 1], rooms[k - 1], befores[k - 1], p, a[k], outs_a[k - 1]));
        assert(pulled(b[k - 1], rooms[k - 1], befores[k - 1], q, b[k], outs_b[k - 1]));
    }
}

} // verus!
