//! Delay lines in ring storage.

use crate::dsp::wedge::slot;
use vstd::prelude::*;

verus! {

/// The place that sample `i` of a run takes in a ring of `len` places, where
/// the run starts at place `start`.
pub open spec fn place(len: usize, start: usize, i: int) -> int {
    (start + i) % (len as int)
}

pub fn place_of(len: usize, start: usize, i: usize) -> (r: usize)
    requires
        start < len,
    ensures
        r == place(len, start, i as int),
        r < len,
{
    let k: usize = i % len;
    let room: usize = len - start;
    let r: usize = if k < room {
        start + k
    } else {
        k - room
    };
    proof {
        vstd::arithmetic::div_mod::lemma_add_mod_noop_right(start as int, i as int, len as int);
        if k < room {
            vstd::arithmetic::div_mod::lemma_small_mod((start + k) as nat, len as nat);
        } else {
            vstd::arithmetic::div_mod::lemma_mod_sub_multiples_vanish(
                (start + k) as int,
                len as int,
            );
            vstd::arithmetic::div_mod::lemma_small_mod((k - room) as nat, len as nat);
        }
    }
    r
}

/// The next sample takes the next place.
pub proof fn lemma_place_next(len: usize, start: usize, i: int)
    requires
        start < len,
        0 <= i,
    ensures
        0 <= place(len, start, i) < len,
        place(len, start, 0) == start,
        place(len, start, i + 1) == slot(place(len, start, i), 1, len as int),
        place(len, start, i + 1) == (place(len, start, i) + 1) % (len as int),
{
    let n = len as int;
    let p = place(len, start, i);
    vstd::arithmetic::div_mod::lemma_mod_bound(start + i, n);
    vstd::arithmetic::div_mod::lemma_small_mod(start as nat, len as nat);
    vstd::arithmetic::div_mod::lemma_add_mod_noop_right(1, start + i, n);
    if p + 1 < n {
        vstd::arithmetic::div_mod::lemma_small_mod((p + 1) as nat, len as nat);
    } else {
        vstd::arithmetic::div_mod::lemma_mod_self_0(n);
    }
}

/// What a delay line holds, oldest first: the ring read from `pos` on.
pub open spec fn queued<R>(ring: Seq<R>, pos: int) -> Seq<R> {
    Seq::new(ring.len(), |i: int| ring[slot(pos, i, ring.len() as int)])
}

/// A delay line after `x`: the oldest sample has left.
pub open spec fn advanced<R>(queue: Seq<R>, x: R) -> Seq<R> {
    queue.push(x).drop_first()
}

/// Replacing the oldest sample in the ring and stepping on is taking in a new
/// sample.
pub proof fn lemma_ring_is_queue<R>(ring: Seq<R>, pos: int, x: R)
    requires
        0 <= pos < ring.len(),
    ensures
        queued(ring.update(pos, x), slot(pos, 1, ring.len() as int)) == advanced(
            queued(ring, pos),
            x,
        ),
        queued(ring, pos)[0] == ring[pos],
{
    let n = ring.len() as int;
    let a = queued(ring.update(pos, x), slot(pos, 1, n));
    let b = advanced(queued(ring, pos), x);
    assert forall|i: int| 0 <= i < n implies a[i] == b[i] by {
        if i < n - 1 {
            assert(b[i] == queued(ring, pos)[i + 1]);
        }
    }
    assert(a =~= b);
}

} // verus!
