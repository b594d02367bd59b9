//! A sliding minimum in constant time per value.

use crate::dsp::memory::filled;
use crate::number::{at_most, at_most_of, Order, Real};
use vstd::prelude::*;

verus! {

/// The least of the values `log[lo..=hi]`, and the latest of them where several
/// are alike.
pub open spec fn least<R: Real>(log: Seq<R>, lo: int, hi: int) -> R
    decreases hi - lo,
{
    if hi <= lo {
        log[hi]
    } else {
        let m = least(log, lo, hi - 1);
        if at_most(log[hi], m) {
            log[hi]
        } else {
            m
        }
    }
}

/// The first of the `span + 1` frames that end with frame `n`.
pub open spec fn window_start(n: int, span: int) -> int {
    if n <= span {
        0
    } else {
        n - span
    }
}

/// The least of the `span + 1` values that end with value `n`, or of as many as
/// there are.
pub open spec fn window_least<R: Real>(log: Seq<R>, span: int, n: int) -> R {
    least(log, window_start(n, span), n)
}

/// The windowed minimum is one of the values in the window, and none of them is
/// smaller.
pub proof fn least_is_the_minimum<R: Real>(log: Seq<R>, lo: int, hi: int)
    requires
        0 <= lo <= hi < log.len(),
        forall|i: int| lo <= i <= hi ==> (#[trigger] log[i]).finite(),
    ensures
        exists|i: int| lo <= i <= hi && least(log, lo, hi) == #[trigger] log[i],
        forall|i: int| lo <= i <= hi ==> at_most(least(log, lo, hi), #[trigger] log[i]),
    decreases hi - lo,
{
    if hi > lo {
        least_is_the_minimum(log, lo, hi - 1);
        let m = least(log, lo, hi - 1);
        let k = choose|i: int| lo <= i <= hi - 1 && m == #[trigger] log[i];
        assert(log[k].finite() && log[hi].finite());
        if at_most(log[hi], m) {
            assert(least(log, lo, hi) == log[hi]);
        } else {
            assert(least(log, lo, hi) == log[k]);
        }
    } else {
        assert(least(log, lo, hi) == log[hi]);
    }
}

/// A value that is at most all before it and less than all after it is the
/// latest least.
proof fn lemma_latest_least<R: Real>(log: Seq<R>, lo: int, hi: int, p: int)
    requires
        0 <= lo <= p <= hi < log.len(),
        forall|i: int| lo <= i <= hi ==> (#[trigger] log[i]).finite(),
        forall|i: int| lo <= i <= p ==> log[p].rank() <= (#[trigger] log[i]).rank(),
        forall|i: int| p < i <= hi ==> log[p].rank() < (#[trigger] log[i]).rank(),
    ensures
        least(log, lo, hi) == log[p],
    decreases hi - lo,
{
    assert(log[p].finite() && log[hi].finite());
    if hi > lo {
        if p == hi {
            least_is_the_minimum(log, lo, hi - 1);
            let m = least(log, lo, hi - 1);
            let k = choose|i: int| lo <= i <= hi - 1 && m == #[trigger] log[i];
            assert(log[k].finite());
        } else {
            lemma_latest_least(log, lo, hi - 1, p);
        }
    }
}

/// A frame number as it is counted in 64 bits.
pub open spec fn counted(n: int) -> int {
    n % 0x1_0000_0000_0000_0000
}

/// An ascending wedge of minima in ring storage.
///
/// Entry by entry the wedge holds the least value, the least after that, and so
/// on up to the newest value. Its front is the minimum over the last `look + 1`
/// values.
#[derive(Clone)]
pub struct Wedge<R> {
    pub look: usize,
    /// Frame number of each entry, counted in 64 bits.
    pub idx: Vec<u64>,
    /// Value of each entry.
    pub val: Vec<R>,
    /// Ring position of the front.
    pub head: usize,
    /// Number of live entries.
    pub len: usize,
    /// Values taken in since the last reset, counted in 64 bits.
    pub frame: u64,
    /// Every value taken in since the last reset.
    pub log: Ghost<Seq<R>>,
    /// Where in the log the live entries stand.
    pub live: Ghost<Seq<int>>,
}

/// The ring position `k` places behind `head`.
pub open spec fn slot(head: int, k: int, cap: int) -> int {
    if head + k < cap {
        head + k
    } else {
        head + k - cap
    }
}

fn slot_of(head: usize, k: usize, cap: usize) -> (r: usize)
    requires
        head < cap,
        k <= cap,
    ensures
        r == slot(head as int, k as int, cap as int),
        k < cap ==> r < cap,
{
    if k < cap - head {
        head + k
    } else {
        k - (cap - head)
    }
}

impl<R: Real> Wedge<R> {
    /// The values taken in since the last reset.
    pub open spec fn taken(&self) -> Seq<R> {
        self.log@
    }

    pub open spec fn cap(&self) -> int {
        self.val@.len() as int
    }

    /// The storage is there.
    pub open spec fn ready(&self) -> bool {
        self.val@.len() == self.look + 1
    }

    /// Storage of `look + 1` entries, or none yet, that holds the wedge of the
    /// log.
    pub open spec fn wf(&self) -> bool {
        let n = self.log@.len() as int;
        &&& self.idx@.len() == self.val@.len()
        &&& self.ready() || (self.val@.len() == 0 && n == 0)
        &&& self.live@.len() == self.len
        &&& self.frame == counted(n)
        &&& self.ready() ==> self.head < self.cap()
        &&& self.len <= self.cap()
        &&& forall|i: int| 0 <= i < n ==> (#[trigger] self.log@[i]).finite()
        &&& n == 0 ==> self.len == 0
        &&& n > 0 ==> {
            &&& self.len > 0
            &&& self.live@[self.len - 1] == n - 1
            &&& self.live@[0] >= window_start(n - 1, self.look as int)
        }
        &&& self.threaded()
        &&& self.covering(window_start(n - 1, self.look as int))
        &&& self.stored()
    }

    /// Live entries are in the log, in order, with ascending values.
    pub open spec fn threaded(&self) -> bool {
        &&& forall|k: int|
            0 <= k < self.live@.len() ==> 0 <= #[trigger] self.live@[k] < self.log@.len()
        &&& forall|j: int, k: int|
            0 <= j < k < self.live@.len() ==> #[trigger] self.live@[j] < #[trigger] self.live@[k]
                && self.log@[self.live@[j]].rank() < self.log@[self.live@[k]].rank()
    }

    /// Entry `k` is at most every value from `lo` on that no earlier entry comes
    /// after.
    pub open spec fn covers(&self, lo: int, k: int) -> bool {
        forall|i: int|
            lo <= i <= self.live@[k] && (k > 0 ==> self.live@[k - 1] < i)
                ==> self.log@[self.live@[k]].rank() <= (#[trigger] self.log@[i]).rank()
    }

    /// Every entry covers the values between it and the one before it.
    pub open spec fn covering(&self, lo: int) -> bool {
        forall|k: int| 0 <= k < self.live@.len() ==> #[trigger] self.covers(lo, k)
    }

    /// The ring holds the live entries.
    pub open spec fn stored(&self) -> bool {
        forall|k: int|
            0 <= k < self.live@.len() ==> {
                let s = slot(self.head as int, k, self.cap());
                &&& self.idx@[s] == counted(#[trigger] self.live@[k])
                &&& self.val@[s] == self.log@[self.live@[k]]
            }
    }

    /// A wedge without storage.
    pub fn empty() -> (r: Self)
        ensures
            r.wf(),
            r.taken().len() == 0,
            r.look == 0,
            r.val@.len() == 0,
    {
        Wedge {
            look: 0,
            idx: Vec::new(),
            val: Vec::new(),
            head: 0,
            len: 0,
            frame: 0,
            log: Ghost(Seq::empty()),
            live: Ghost(Seq::empty()),
        }
    }

    /// A wedge over the last `look + 1` values.
    pub fn new(look: usize) -> (r: Self)
        requires
            look < usize::MAX,
        ensures
            r.wf(),
            r.ready(),
            r.look == look,
            r.taken() == Seq::<R>::empty(),
    {
        Wedge {
            look,
            idx: filled(0u64, look + 1),
            val: filled(R::zero(), look + 1),
            head: 0,
            len: 0,
            frame: 0,
            log: Ghost(Seq::empty()),
            live: Ghost(Seq::empty()),
        }
    }

    /// Forget every value.
    pub fn reset(&mut self)
        requires
            old(self).wf(),
        ensures
            final(self).wf(),
            final(self).look == old(self).look,
            final(self).idx@ == old(self).idx@,
            final(self).val@ == old(self).val@,
            final(self).taken() == Seq::<R>::empty(),
    {
        self.head = 0;
        self.len = 0;
        self.frame = 0;
        proof {
            self.log@ = Seq::empty();
            self.live@ = Seq::empty();
        }
    }

    /// Take in one value and return the minimum over the window that ends with
    /// it.
    pub fn push(&mut self, value: R) -> (r: R)
        requires
            old(self).wf(),
            old(self).ready(),
            value.finite(),
        ensures
            final(self).wf(),
            final(self).ready(),
            final(self).look == old(self).look,
            final(self).val@.len() == old(self).val@.len(),
            final(self).taken() == old(self).taken().push(value),
            r == window_least(
                final(self).taken(),
                old(self).look as int,
                old(self).taken().len() as int,
            ),
            r.finite(),
    {
        let n: u64 = self.frame;
        let ghost n0 = self.log@.len() as int;
        let ghost lo = window_start(n0, self.look as int);
        self.drop_undercut(value);
        let ghost kept = self.live@.len() as int;
        let ghost mid = *self;
        proof {
            assert forall|k: int| 0 <= k < self.live@.len() implies window_start(
                n0 - 1,
                self.look as int,
            ) <= #[trigger] self.live@[k] < n0 by {
                assert(self.live@[k] == old(self).live@[k]);
                if k > 0 {
                    assert(old(self).live@[0] < old(self).live@[k]);
                }
            }
            assert forall|k: int| 0 <= k < self.live@.len() implies {
                let s = slot(self.head as int, k, self.cap());
                &&& self.idx@[s] == counted(#[trigger] self.live@[k])
                &&& self.val@[s] == self.log@[self.live@[k]]
            } by {
                assert(self.live@[k] == old(self).live@[k]);
            }
        }
        self.drop_expired();
        let ghost gone = kept - self.live@.len();
        proof {
            assert(self.live@ =~= old(self).live@.subrange(gone, kept));
            assert forall|k: int| 0 <= k < gone implies #[trigger] old(self).live@[k] < lo by {
                assert(mid.live@[k] == old(self).live@[k]);
            }
            assert(gone < kept ==> self.live@[0] == old(self).live@[gone]);
            lemma_room(*old(self), *self, gone, kept);
        }
        let cap: usize = self.val.len();
        let back: usize = slot_of(self.head, self.len, cap);
        let ghost young = *self;
        self.idx.set(back, n);
        self.val.set(back, value);
        self.len = self.len + 1;
        self.frame = self.frame.wrapping_add(1);
        proof {
            self.log@ = self.log@.push(value);
            self.live@ = self.live@.push(n0);
            lemma_counted_next(n0);
            lemma_stored_append(young, *self, value, back as int);
            assert(self.live@ =~= old(self).live@.subrange(gone, kept).push(n0));
            lemma_pushed(*old(self), *self, value, gone, kept);
        }
        let r = self.val[self.head];
        proof {
            let g = self.log@;
            let p = self.live@[0];
            assert(slot(self.head as int, 0, self.cap()) == self.head);
            assert(r == g[p]);
            assert(self.covers(lo, 0));
            assert forall|i: int| p < i <= n0 implies g[p].rank() < (#[trigger] g[i]).rank() by {
                lemma_behind_front(*self, i, lo);
            }
            lemma_latest_least(g, lo, n0, p);
        }
        r
    }

    /// Drop the entries that `value` undercuts: they are not smaller and expire
    /// sooner.
    fn drop_undercut(&mut self, value: R)
        requires
            old(self).wf(),
            old(self).ready(),
            value.finite(),
        ensures
            final(self).look == old(self).look,
            final(self).idx@ == old(self).idx@,
            final(self).val@ == old(self).val@,
            final(self).head == old(self).head,
            final(self).frame == old(self).frame,
            final(self).log@ == old(self).log@,
            final(self).len <= old(self).len,
            final(self).live@ == old(self).live@.subrange(0, final(self).len as int),
            final(self).len > 0 ==> old(self).log@[old(self).live@[final(self).len - 1]].rank()
                < value.rank(),
            forall|k: int|
                final(self).len <= k < old(self).len ==> value.rank() <= old(self).log@[
                    #[trigger] old(self).live@[k]].rank(),
    {
        let cap: usize = self.val.len();
        proof {
            assert(self.live@ =~= old(self).live@.subrange(0, self.len as int));
        }
        while self.len > 0
            invariant
                cap == self.val@.len(),
                self.look == old(self).look,
                self.idx@ == old(self).idx@,
                self.val@ == old(self).val@,
                self.head == old(self).head,
                self.frame == old(self).frame,
                self.head < cap,
                self.len <= old(self).len,
                old(self).len <= cap,
                old(self).wf(),
                self.log@ == old(self).log@,
                self.live@ == old(self).live@.subrange(0, self.len as int),
                value.finite(),
                forall|k: int|
                    self.len <= k < old(self).len ==> value.rank() <= old(self).log@[
                        #[trigger] old(self).live@[k]].rank(),
            ensures
                self.len > 0 ==> old(self).log@[old(self).live@[self.len - 1]].rank()
                    < value.rank(),
            decreases self.len,
        {
            let back: usize = slot_of(self.head, self.len - 1, cap);
            proof {
                let k = self.len - 1;
                assert(self.val@[back as int] == old(self).log@[old(self).live@[k]]);
                assert(old(self).log@[old(self).live@[k]].finite());
            }
            if at_most_of(value, self.val[back]) {
                self.len = self.len - 1;
                proof {
                    self.live@ = old(self).live@.subrange(0, self.len as int);
                }
            } else {
                break;
            }
        }
    }

    /// Drop the front entries that the window has passed.
    fn drop_expired(&mut self)
        requires
            old(self).val@.len() == old(self).look + 1,
            old(self).idx@.len() == old(self).val@.len(),
            old(self).head < old(self).cap(),
            old(self).len <= old(self).cap(),
            old(self).len == old(self).live@.len(),
            old(self).frame == counted(old(self).log@.len() as int),
            old(self).stored(),
            forall|k: int|
                0 <= k < old(self).live@.len() ==> window_start(
                    old(self).log@.len() - 1,
                    old(self).look as int,
                ) <= #[trigger] old(self).live@[k] < old(self).log@.len(),
        ensures
            final(self).look == old(self).look,
            final(self).idx@ == old(self).idx@,
            final(self).val@ == old(self).val@,
            final(self).frame == old(self).frame,
            final(self).log@ == old(self).log@,
            final(self).head < final(self).cap(),
            final(self).len == final(self).live@.len(),
            final(self).len <= old(self).len,
            final(self).live@ == old(self).live@.subrange(
                old(self).len - final(self).len,
                old(self).len as int,
            ),
            final(self).stored(),
            forall|k: int|
                0 <= k < old(self).len - final(self).len ==> #[trigger] old(self).live@[k]
                    < window_start(old(self).log@.len() as int, old(self).look as int),
            final(self).len > 0 ==> final(self).live@[0] >= window_start(
                old(self).log@.len() as int,
                old(self).look as int,
            ),
    {
        let cap: usize = self.val.len();
        let n: u64 = self.frame;
        let ghost n0 = self.log@.len() as int;
        let ghost kept = self.live@;
        let ghost mut gone: int = 0;
        assert(self.live@ =~= kept.subrange(0, kept.len() as int));
        while self.len > 0 && n.wrapping_sub(self.idx[self.head]) > self.look as u64
            invariant
                cap == self.val@.len(),
                cap == self.look + 1,
                cap == self.idx@.len(),
                self.look == old(self).look,
                self.idx@ == old(self).idx@,
                self.val@ == old(self).val@,
                self.frame == old(self).frame,
                self.log@ == old(self).log@,
                n == counted(n0),
                n0 == old(self).log@.len(),
                kept == old(self).live@,
                kept.len() == old(self).len,
                self.head < cap,
                self.len <= cap,
                0 <= gone <= kept.len(),
                self.len == kept.len() - gone,
                self.live@ == kept.subrange(gone, kept.len() as int),
                self.stored(),
                forall|k: int|
                    0 <= k < kept.len() ==> window_start(n0 - 1, self.look as int)
                        <= #[trigger] kept[k] < n0,
                forall|k: int|
                    0 <= k < gone ==> #[trigger] kept[k] < window_start(n0, self.look as int),
            decreases self.len,
        {
            let ghost before = self.live@;
            let ghost head0 = self.head as int;
            proof {
                assert(before[0] == kept[gone]);
                assert(self.idx@[slot(head0, 0, self.cap())] == counted(before[0]));
                lemma_counted_age(n0, before[0]);
            }
            self.head = slot_of(self.head, 1, cap);
            self.len = self.len - 1;
            proof {
                gone = gone + 1;
                self.live@ = kept.subrange(gone, kept.len() as int);
                assert forall|k: int| 0 <= k < self.live@.len() implies {
                    let s = slot(self.head as int, k, self.cap());
                    &&& self.idx@[s] == counted(#[trigger] self.live@[k])
                    &&& self.val@[s] == self.log@[self.live@[k]]
                } by {
                    assert(self.live@[k] == before[k + 1]);
                    assert(slot(self.head as int, k, self.cap()) == slot(
                        head0,
                        k + 1,
                        self.cap(),
                    ));
                }
            }
        }
        proof {
            if self.len > 0 {
                assert(self.live@[0] == kept[gone]);
                assert(self.idx@[slot(self.head as int, 0, self.cap())] == counted(self.live@[0]));
                lemma_counted_age(n0, self.live@[0]);
            }
        }
    }
}

/// Dropping entries at both ends leaves a free place.
proof fn lemma_room<R: Real>(before: Wedge<R>, young: Wedge<R>, gone: int, kept: int)
    requires
        before.wf(),
        before.ready(),
        0 <= gone <= kept <= before.live@.len(),
        young.live@ == before.live@.subrange(gone, kept),
        young.live@.len() > 0 ==> young.live@[0] >= window_start(
            before.log@.len() as int,
            before.look as int,
        ),
    ensures
        young.live@.len() <= before.look,
{
    let live = young.live@;
    if live.len() > 0 {
        assert forall|i: int, j: int| 0 <= i < j < live.len() implies #[trigger] live[i]
            < #[trigger] live[j] by {
            assert(live[i] == before.live@[gone + i]);
            assert(live[j] == before.live@[gone + j]);
        }
        lemma_threaded_spread(live, live.len() - 1);
        assert(live[live.len() - 1] == before.live@[kept - 1]);
    }
}

/// Writing the free place behind the last entry appends to the ring.
proof fn lemma_stored_append<R: Real>(before: Wedge<R>, after: Wedge<R>, value: R, back: int)
    requires
        before.stored(),
        before.head < before.cap(),
        before.idx@.len() == before.val@.len(),
        before.live@.len() < before.cap(),
        forall|k: int|
            0 <= k < before.live@.len() ==> 0 <= #[trigger] before.live@[k] < before.log@.len(),
        back == slot(before.head as int, before.live@.len() as int, before.cap()),
        after.head == before.head,
        after.log@ == before.log@.push(value),
        after.live@ == before.live@.push(before.log@.len() as int),
        after.idx@ == before.idx@.update(back, before.frame),
        before.frame == counted(before.log@.len() as int),
        after.val@ == before.val@.update(back, value),
    ensures
        after.stored(),
{
    assert forall|k: int| 0 <= k < after.live@.len() implies {
        let s = slot(after.head as int, k, after.cap());
        &&& after.idx@[s] == counted(#[trigger] after.live@[k])
        &&& after.val@[s] == after.log@[after.live@[k]]
    } by {
        if k < before.live@.len() {
            assert(after.live@[k] == before.live@[k]);
            assert(slot(after.head as int, k, after.cap()) != back);
        }
    }
}

/// The wedge after a value: what it undercut is gone at the back and what has
/// expired is gone at the front.
proof fn lemma_pushed<R: Real>(
    before: Wedge<R>,
    after: Wedge<R>,
    value: R,
    gone: int,
    kept: int,
)
    requires
        before.wf(),
        before.ready(),
        value.finite(),
        0 <= gone <= kept <= before.live@.len(),
        after.log@ == before.log@.push(value),
        after.live@ == before.live@.subrange(gone, kept).push(before.log@.len() as int),
        kept > 0 ==> before.log@[before.live@[kept - 1]].rank() < value.rank(),
        forall|k: int|
            kept <= k < before.live@.len() ==> value.rank() <= before.log@[
                #[trigger] before.live@[k]].rank(),
        forall|k: int|
            0 <= k < gone ==> #[trigger] before.live@[k] < window_start(
                before.log@.len() as int,
                before.look as int,
            ),
        gone < kept ==> before.live@[gone] >= window_start(
            before.log@.len() as int,
            before.look as int,
        ),
    ensures
        after.threaded(),
        after.covering(window_start(before.log@.len() as int, before.look as int)),
        after.live@[0] >= window_start(before.log@.len() as int, before.look as int),
{
    let g0 = before.log@;
    let g = after.log@;
    let n0 = g0.len() as int;
    let lo = window_start(n0, before.look as int);
    let count = kept - gone;
    assert forall|k: int| 0 <= k < count implies #[trigger] after.live@[k] == before.live@[gone
        + k] by {}
    assert(after.live@[count] == n0);
    assert forall|k: int| 0 <= k < after.live@.len() implies 0 <= #[trigger] after.live@[k]
        < after.log@.len() by {
        if k < count {
            assert(after.live@[k] == before.live@[gone + k]);
        }
    }
    assert forall|j: int, k: int| 0 <= j < k < after.live@.len() implies #[trigger] after.live@[j]
        < #[trigger] after.live@[k] && after.log@[after.live@[j]].rank()
        < after.log@[after.live@[k]].rank() by {
        assert(after.live@[j] == before.live@[gone + j]);
        if k < count {
            assert(after.live@[k] == before.live@[gone + k]);
        } else {
            assert(gone + j <= kept - 1);
            if gone + j < kept - 1 {
                assert(before.live@[gone + j] < before.live@[kept - 1]);
            }
        }
    }
    assert forall|k: int| 0 <= k < after.live@.len() implies #[trigger] after.covers(lo, k) by {
        assert forall|i: int|
            lo <= i <= after.live@[k] && (k > 0 ==> after.live@[k - 1]
                < i) implies after.log@[after.live@[k]].rank() <= (#[trigger] after.log@[i]).rank() by {
            if k < count {
                let at = gone + k;
                assert(after.live@[k] == before.live@[at]);
                if k > 0 {
                    assert(after.live@[k - 1] == before.live@[at - 1]);
                } else if at > 0 {
                    assert(before.live@[at - 1] < lo);
                }
                assert(before.covers(window_start(n0 - 1, before.look as int), at));
                assert(g[i] == g0[i]);
            } else if i < n0 {
                if count > 0 {
                    assert(after.live@[k - 1] == before.live@[kept - 1]);
                } else if kept > 0 {
                    assert(before.live@[kept - 1] < lo);
                }
                lemma_covered_by(before, i, kept);
                let j = choose|j: int|
                    kept <= j < before.live@.len() && g0[#[trigger] before.live@[j]].rank()
                        <= g0[i].rank();
                assert(value.rank() <= g0[before.live@[j]].rank());
                assert(g[i] == g0[i]);
            }
        }
    }
}

/// Entries of a thread are at least as far apart as their places.
proof fn lemma_threaded_spread(live: Seq<int>, k: int)
    requires
        0 <= k < live.len(),
        forall|i: int, j: int| 0 <= i < j < live.len() ==> #[trigger] live[i] < #[trigger] live[j],
    ensures
        live[k] >= live[0] + k,
    decreases k,
{
    if k > 0 {
        lemma_threaded_spread(live, k - 1);
        assert(live[k - 1] < live[k]);
    }
}

/// A value that comes after place `from - 1` of the wedge is at least the entry
/// at some later place.
proof fn lemma_covered_by<R: Real>(w: Wedge<R>, i: int, from: int)
    requires
        w.wf(),
        0 <= from <= w.live@.len(),
        0 <= i < w.log@.len(),
        window_start(w.log@.len() - 1, w.look as int) <= i,
        from > 0 ==> w.live@[from - 1] < i,
    ensures
        from < w.live@.len(),
        exists|k: int|
            from <= k < w.live@.len() && w.log@[#[trigger] w.live@[k]].rank() <= w.log@[i].rank(),
    decreases w.live@.len() - from,
{
    assert(w.live@[w.len - 1] == w.log@.len() - 1);
    if from == w.live@.len() {
        assert(false);
    }
    if i <= w.live@[from] {
        assert(w.covers(window_start(w.log@.len() - 1, w.look as int), from));
        assert(w.log@[w.live@[from]].rank() <= w.log@[i].rank());
    } else {
        lemma_covered_by(w, i, from + 1);
    }
}

/// Values behind the front of a wedge are greater than it.
proof fn lemma_behind_front<R: Real>(w: Wedge<R>, i: int, lo: int)
    requires
        w.threaded(),
        w.covering(lo),
        w.live@.len() > 0,
        w.live@[w.live@.len() - 1] == w.log@.len() - 1,
        w.live@[0] >= lo,
        w.live@[0] < i < w.log@.len(),
    ensures
        w.log@[w.live@[0]].rank() < w.log@[i].rank(),
{
    lemma_behind_place(w, i, lo, 0);
}

proof fn lemma_behind_place<R: Real>(w: Wedge<R>, i: int, lo: int, k: int)
    requires
        w.threaded(),
        w.covering(lo),
        0 <= k < w.live@.len(),
        w.live@[w.live@.len() - 1] == w.log@.len() - 1,
        w.live@[0] >= lo,
        w.live@[k] < i < w.log@.len(),
    ensures
        w.log@[w.live@[0]].rank() < w.log@[i].rank(),
    decreases w.live@.len() - k,
{
    assert(k + 1 < w.live@.len());
    assert(w.live@[0] <= w.live@[k]);
    assert(w.live@[0] < w.live@[k + 1]);
    if i <= w.live@[k + 1] {
        assert(w.covers(lo, k + 1));
        assert(w.log@[w.live@[k + 1]].rank() <= w.log@[i].rank());
    } else {
        lemma_behind_place(w, i, lo, k + 1);
    }
}

/// The age of an entry, counted in 64 bits.
proof fn lemma_counted_age(n: int, i: int)
    requires
        0 <= i <= n,
    ensures
        ({
            let a = counted(n) as u64;
            let b = counted(i) as u64;
            n - i <= u64::MAX ==> a.wrapping_sub(b) == n - i
        }),
{
    if n - i <= u64::MAX {
        vstd::arithmetic::div_mod::lemma_fundamental_div_mod(n, 0x1_0000_0000_0000_0000);
        vstd::arithmetic::div_mod::lemma_fundamental_div_mod(i, 0x1_0000_0000_0000_0000);
        let qn = n / 0x1_0000_0000_0000_0000;
        let qi = i / 0x1_0000_0000_0000_0000;
        assert(qn == qi || qn == qi + 1) by (nonlinear_arith)
            requires
                0 <= i <= n,
                n - i < 0x1_0000_0000_0000_0000,
                qn == n / 0x1_0000_0000_0000_0000,
                qi == i / 0x1_0000_0000_0000_0000,
        ;
    }
}

proof fn lemma_counted_next(n: int)
    requires
        0 <= n,
    ensures
        ({
            let a = counted(n) as u64;
            a.wrapping_add(1) == counted(n + 1)
        }),
{
}

} // verus!
