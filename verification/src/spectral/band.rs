//! Framing and overlap-add of one channel of a spectral band filter.
//!
//! A lane collects input until a frame is full. The frame is windowed and
//! transformed, bins outside the band are zeroed, and the frame goes back
//! through the window into an overlap-add accumulator. One hop of finalized
//! samples then waits to be read, and the next frame starts one hop later.

use crate::dsp::delay::{place, place_of};
use crate::dsp::memory::{filled, refill};
use crate::dsp::sanitize::{finite_or_zero, sane};
use crate::number::{nil, Real};
use crate::spectral::fft::{
    bins_of, real_ends, sane_bins, signal_of, spectrum_of, Complex, Fft, Transform,
};
use crate::spectral::stft::windowed;
use vstd::prelude::*;

verus! {

// ---------------------------------------------------------------------------
// Model
// ---------------------------------------------------------------------------

/// What the frames of a band filter have in common.
#[verifier::ext_equal]
pub struct BandPlan<R> {
    /// Samples between frames.
    pub hop: nat,
    /// The analysis window; its length is the frame size.
    pub analysis: Seq<R>,
    pub synthesis: Seq<R>,
    /// Reciprocals of the window overlap over one hop.
    pub inverse: Seq<R>,
    /// The first and the last bin that are kept.
    pub lo: int,
    pub hi: int,
}

impl<R> BandPlan<R> {
    /// The frame size.
    pub open spec fn size(self) -> nat {
        self.analysis.len()
    }
}

/// The state of one channel.
#[verifier::ext_equal]
pub struct BandState<R> {
    /// Input collected for the next frame.
    pub pending: Seq<R>,
    /// The overlap-add accumulator, from the next finalized sample on.
    pub sum: Seq<R>,
    /// Finalized output that has not been read.
    pub ready: Seq<R>,
}

/// Bins with those outside the band zeroed.
pub open spec fn banded<R: Real>(bins: Seq<Complex<R>>, lo: int, hi: int) -> Seq<Complex<R>> {
    Seq::new(
        bins.len(),
        |b: int|
            if b < lo || b > hi {
                Complex { re: nil(), im: nil() }
            } else {
                bins[b]
            },
    )
}

/// A frame of input after the band has been cut out of it.
pub open spec fn filtered<R: Real, B: Transform<R>>(p: BandPlan<R>, frame: Seq<R>) -> Seq<R> {
    signal_of::<R, B>(
        p.size(),
        banded(spectrum_of::<R, B>(windowed(frame, 0, p.analysis)), p.lo, p.hi),
    )
}

/// The accumulator with a filtered frame added under the synthesis window.
pub open spec fn summed<R: Real>(p: BandPlan<R>, sum: Seq<R>, frame: Seq<R>) -> Seq<R> {
    Seq::new(sum.len(), |i: int| sum[i].sum(sane(frame[i]).prod(p.synthesis[i])))
}

/// The hop of output that a full accumulator finalizes.
pub open spec fn finalized<R: Real>(p: BandPlan<R>, sum: Seq<R>) -> Seq<R> {
    Seq::new(p.hop, |k: int| sane(sum[k].prod(p.inverse[k])))
}

/// `s` moved on by `hop` samples, with silence behind.
pub open spec fn moved_on<R: Real>(s: Seq<R>, hop: nat) -> Seq<R> {
    Seq::new(
        s.len(),
        |i: int|
            if i + hop < s.len() {
                s[i + hop]
            } else {
                nil()
            },
    )
}

/// A lane whose frame is full, after that frame.
pub open spec fn fired<R: Real, B: Transform<R>>(p: BandPlan<R>, s: BandState<R>) -> BandState<R> {
    let sum = summed(p, s.sum, filtered::<R, B>(p, s.pending));
    BandState {
        pending: s.pending.skip(p.hop as int),
        sum: moved_on(sum, p.hop),
        ready: s.ready + finalized(p, sum),
    }
}

/// A lane after it has taken in `x`.
pub open spec fn taken<R: Real, B: Transform<R>>(
    p: BandPlan<R>,
    s: BandState<R>,
    x: R,
) -> BandState<R> {
    let s = BandState { pending: s.pending.push(x), ..s };
    if s.pending.len() == p.size() {
        fired::<R, B>(p, s)
    } else {
        s
    }
}

/// What a lane delivers next.
pub open spec fn head<R: Real>(s: BandState<R>) -> R {
    if s.ready.len() > 0 {
        sane(s.ready[0])
    } else {
        nil()
    }
}

/// A lane whose next output has been read.
pub open spec fn popped<R>(s: BandState<R>) -> BandState<R> {
    if s.ready.len() > 0 {
        BandState { ready: s.ready.drop_first(), ..s }
    } else {
        s
    }
}

/// A lane one frame later: output is read before `x` is taken in.
pub open spec fn lane_next<R: Real, B: Transform<R>>(
    p: BandPlan<R>,
    s: BandState<R>,
    x: R,
) -> BandState<R> {
    taken::<R, B>(p, popped(s), x)
}

/// A lane after the first `n` samples of `x`.
pub open spec fn lane_after<R: Real, B: Transform<R>>(
    p: BandPlan<R>,
    s: BandState<R>,
    x: Seq<R>,
    n: nat,
) -> BandState<R>
    decreases n,
{
    if n == 0 {
        s
    } else {
        lane_next::<R, B>(p, lane_after::<R, B>(p, s, x, (n - 1) as nat), x[n - 1])
    }
}

/// A lane that has seen nothing.
pub open spec fn lane_rest<R: Real>(size: nat) -> BandState<R> {
    BandState { pending: Seq::empty(), sum: Seq::new(size, |i: int| nil()), ready: Seq::empty() }
}

/// A lane collects less than a frame, and what waits to be read lasts exactly
/// until the next frame is full.
pub open spec fn lane_steady<R>(p: BandPlan<R>, s: BandState<R>) -> bool {
    &&& 1 <= p.hop <= p.size()
    &&& s.pending.len() < p.size()
    &&& s.sum.len() == p.size()
    &&& s.ready.len() == 0 || s.ready.len() == p.size() - s.pending.len()
}

// ---------------------------------------------------------------------------
// Laws
// ---------------------------------------------------------------------------

/// A lane stays steady, whatever it takes in.
pub proof fn lanes_stay_steady<R: Real, B: Transform<R>>(
    p: BandPlan<R>,
    s: BandState<R>,
    x: Seq<R>,
    n: nat,
)
    requires
        lane_steady(p, s),
    ensures
        lane_steady(p, lane_after::<R, B>(p, s, x, n)),
    decreases n,
{
    if n > 0 {
        lanes_stay_steady::<R, B>(p, s, x, (n - 1) as nat);
    }
}

/// No more than one frame's worth of output ever waits, and right after a frame
/// it is exactly one hop.
pub proof fn output_waits_within_a_frame<R>(p: BandPlan<R>, s: BandState<R>)
    requires
        lane_steady(p, s),
    ensures
        s.ready.len() <= p.size(),
        s.ready.len() > 0 && s.pending.len() == p.size() - p.hop ==> s.ready.len() == p.hop,
{
}

/// The position of a lane that started at rest, after `n` samples: nothing is
/// ready for one window, and from then on there always is.
pub proof fn output_starts_after_one_window<R: Real, B: Transform<R>>(
    p: BandPlan<R>,
    x: Seq<R>,
    n: nat,
)
    requires
        1 <= p.hop <= p.size(),
    ensures
        lane_after::<R, B>(p, lane_rest(p.size()), x, n).ready.len() > 0 <==> n >= p.size(),
        lane_after::<R, B>(p, lane_rest(p.size()), x, n).ready.len() <= p.hop,
        n < p.size() ==> lane_after::<R, B>(p, lane_rest(p.size()), x, n).pending.len() == n,
    decreases n,
{
    if n > 0 {
        let before = lane_after::<R, B>(p, lane_rest(p.size()), x, (n - 1) as nat);
        output_starts_after_one_window::<R, B>(p, x, (n - 1) as nat);
        lanes_stay_steady::<R, B>(p, lane_rest(p.size()), x, (n - 1) as nat);
        assert(n >= p.size() + 1 ==> before.ready.len() > 0);
    }
}

/// Until one window has gone in, silence comes out.
pub proof fn latency_is_silent<R: Real, B: Transform<R>>(p: BandPlan<R>, x: Seq<R>, n: nat)
    requires
        1 <= p.hop <= p.size(),
        n < p.size(),
    ensures
        head(lane_after::<R, B>(p, lane_rest(p.size()), x, n)) == nil::<R>(),
{
    output_starts_after_one_window::<R, B>(p, x, n);
}

/// How a signal is cut into blocks does not show: taking in `a` and then `b` is
/// taking in `a + b`.
pub proof fn band_blocks_join<R: Real, B: Transform<R>>(
    p: BandPlan<R>,
    s: BandState<R>,
    a: Seq<R>,
    b: Seq<R>,
    n: nat,
)
    requires
        n <= b.len(),
    ensures
        lane_after::<R, B>(p, s, a + b, a.len() + n) == lane_after::<R, B>(
            p,
            lane_after::<R, B>(p, s, a, a.len()),
            b,
            n,
        ),
    decreases n,
{
    if n > 0 {
        band_blocks_join::<R, B>(p, s, a, b, (n - 1) as nat);
        assert((a + b)[a.len() + n - 1] == b[n - 1]);
    } else {
        lemma_prefix_is_enough::<R, B>(p, s, a, b, a.len());
    }
}

proof fn lemma_prefix_is_enough<R: Real, B: Transform<R>>(
    p: BandPlan<R>,
    s: BandState<R>,
    a: Seq<R>,
    b: Seq<R>,
    n: nat,
)
    requires
        n <= a.len(),
    ensures
        lane_after::<R, B>(p, s, a + b, n) == lane_after::<R, B>(p, s, a, n),
    decreases n,
{
    if n > 0 {
        lemma_prefix_is_enough::<R, B>(p, s, a, b, (n - 1) as nat);
    }
}

// ---------------------------------------------------------------------------
// Storage
// ---------------------------------------------------------------------------

/// What waits in a ring from place `start` on.
pub open spec fn waiting<R>(ring: Seq<R>, start: usize, len: nat) -> Seq<R> {
    Seq::new(len, |i: int| ring[place(ring.len() as usize, start, i)])
}

proof fn lemma_place_apart(len: usize, start: usize, i: int, j: int)
    requires
        start < len,
        0 <= i < j < len,
    ensures
        0 <= place(len, start, i) < len,
        place(len, start, i) != place(len, start, j),
{
    let n = len as int;
    assert forall|k: int| 0 <= k < n implies #[trigger] place(len, start, k) == (if start + k < n {
        start + k
    } else {
        start + k - n
    }) by {
        if start + k < n {
            vstd::arithmetic::div_mod::lemma_small_mod((start + k) as nat, len as nat);
        } else {
            vstd::arithmetic::div_mod::lemma_mod_sub_multiples_vanish(start + k, n);
            vstd::arithmetic::div_mod::lemma_small_mod((start + k - n) as nat, len as nat);
        }
    }
    assert(place(len, start, i) != place(len, start, j));
}

/// Reading one sample leaves the rest waiting.
pub proof fn lemma_read_one<R>(ring: Seq<R>, start: usize, len: nat)
    requires
        start < ring.len() <= usize::MAX,
        len > 0,
    ensures
        waiting(ring, place(ring.len() as usize, start, 1) as usize, (len - 1) as nat) == waiting(
            ring,
            start,
            len,
        ).drop_first(),
        waiting(ring, start, len)[0] == ring[start as int],
        0 <= place(ring.len() as usize, start, 1) < ring.len(),
{
    let n = ring.len() as int;
    let next = place(ring.len() as usize, start, 1);
    vstd::arithmetic::div_mod::lemma_mod_bound(start + 1, n);
    vstd::arithmetic::div_mod::lemma_small_mod(start as nat, ring.len());
    assert forall|i: int| 0 <= i < len - 1 implies waiting(
        ring,
        next as usize,
        (len - 1) as nat,
    )[i] == waiting(ring, start, len).drop_first()[i] by {
        vstd::arithmetic::div_mod::lemma_add_mod_noop_right(i, start + 1, n);
    }
    assert(waiting(ring, next as usize, (len - 1) as nat) =~= waiting(
        ring,
        start,
        len,
    ).drop_first());
}

/// Constants of a prepared filter.
#[derive(Debug)]
pub struct BandDesign<R> {
    pub hop: usize,
    pub w_a: Vec<R>,
    pub w_s: Vec<R>,
    /// Reciprocal window overlap over one hop.
    pub inv_wsum: Vec<R>,
    /// The first bin that is kept.
    pub bin_lo: usize,
    /// The last bin that is kept.
    pub bin_hi: usize,
}

impl<R: Real> BandDesign<R> {
    pub open spec fn plan(&self) -> BandPlan<R> {
        BandPlan {
            hop: self.hop as nat,
            analysis: self.w_a@,
            synthesis: self.w_s@,
            inverse: self.inv_wsum@,
            lo: self.bin_lo as int,
            hi: self.bin_hi as int,
        }
    }

    pub open spec fn fits(&self, size: nat) -> bool {
        &&& self.w_a@.len() == size
        &&& self.w_s@.len() == size
        &&& self.inv_wsum@.len() == self.hop
        &&& 1 <= self.hop <= size
        &&& size + self.hop <= usize::MAX
    }
}

/// A transform with the buffers that one frame passes through.
#[derive(Debug)]
pub struct BandWork<R: Real, B: Transform<R>> {
    pub fft: Fft<R, B>,
    pub frame: Vec<R>,
    pub spectrum: Vec<Complex<R>>,
}

impl<R: Real, B: Transform<R>> BandWork<R, B> {
    pub open spec fn fits(&self, size: nat) -> bool {
        &&& self.fft.wf()
        &&& self.fft.n == size
        &&& self.frame@.len() == size
        &&& self.spectrum@.len() == bins_of(size)
    }

    /// Cut the band out of the first `size` samples of `input`; the result
    /// stands in `frame`.
    fn filter(&mut self, input: &[R], d: &BandDesign<R>)
        requires
            old(self).fits(input@.len()),
            d.fits(input@.len()),
        ensures
            final(self).fits(input@.len()),
            final(self).fft.scratch == old(self).fft.scratch,
            final(self).frame@ == filtered::<R, B>(d.plan(), input@),
    {
        let n: usize = input.len();
        let mut i: usize = 0;
        while i < n
            invariant
                0 <= i <= n,
                n == input@.len(),
                self.fits(n as nat),
                self.fft.scratch == old(self).fft.scratch,
                d.fits(n as nat),
                forall|k: int|
                    0 <= k < i ==> #[trigger] self.frame@[k] == sane(input@[k]).prod(d.w_a@[k]),
            decreases n - i,
        {
            self.frame.set(i, finite_or_zero(input[i]).times(d.w_a[i]));
            i += 1;
        }
        assert(self.frame@ =~= windowed(input@, 0, d.w_a@));
        self.fft.forward(self.frame.as_mut_slice(), self.spectrum.as_mut_slice());
        let ghost bins = self.spectrum@;
        let count: usize = self.spectrum.len();
        let mut b: usize = 0;
        while b < count
            invariant
                0 <= b <= count,
                count == bins.len(),
                self.fits(n as nat),
                self.fft.scratch == old(self).fft.scratch,
                self.spectrum@.len() == count,
                forall|k: int|
                    0 <= k < b ==> #[trigger] self.spectrum@[k] == banded(
                        bins,
                        d.bin_lo as int,
                        d.bin_hi as int,
                    )[k],
                forall|k: int| b <= k < count ==> #[trigger] self.spectrum@[k] == bins[k],
            decreases count - b,
        {
            if b < d.bin_lo || b > d.bin_hi {
                self.spectrum.set(b, Complex::new(R::zero(), R::zero()));
            }
            b += 1;
        }
        assert(self.spectrum@ =~= banded(bins, d.bin_lo as int, d.bin_hi as int));
        // That zero is finite makes sane bins of the zeroed ones.
        let _ = R::zero();
        assert(real_ends(n as nat, sane_bins(self.spectrum@)));
        self.fft.inverse(self.spectrum.as_mut_slice(), self.frame.as_mut_slice());
    }
}

/// The buffers of one channel.
#[derive(Debug)]
pub struct BandLane<R> {
    /// Input collected for the next frame.
    pub frame_in: Vec<R>,
    /// Overlap-add accumulator.
    pub acc: Vec<R>,
    /// Ring of finalized output.
    pub fifo: Vec<R>,
}

impl<R: Real> BandLane<R> {
    /// The state that these buffers hold where `filled` samples are collected
    /// and `len` samples wait from place `start` of the ring on.
    pub open spec fn state(&self, filled: usize, start: usize, len: usize) -> BandState<R> {
        BandState {
            pending: self.frame_in@.take(filled as int),
            sum: self.acc@,
            ready: waiting(self.fifo@, start, len as nat),
        }
    }

    pub open spec fn fits(&self, size: nat, hop: nat) -> bool {
        &&& self.frame_in@.len() == size
        &&& self.acc@.len() == size
        &&& self.fifo@.len() == size + hop
        &&& size + hop <= usize::MAX
    }

    /// Empty buffers.
    pub fn new(size: usize, hop: usize) -> (r: Self)
        requires
            size + hop <= usize::MAX,
        ensures
            r.fits(size as nat, hop as nat),
            r.state(0, 0, 0) == lane_rest::<R>(size as nat),
    {
        let zero = R::zero();
        let r = BandLane {
            frame_in: filled(zero, size),
            acc: filled(zero, size),
            fifo: filled(zero, size + hop),
        };
        assert(r.state(0, 0, 0) =~= lane_rest::<R>(size as nat));
        r
    }

    /// Take the full frame through the band and finalize one hop, which starts
    /// waiting at place `start` of the ring. The frame that follows keeps what
    /// lies behind the hop.
    pub fn fire<B: Transform<R>>(
        &mut self,
        work: &mut BandWork<R, B>,
        d: &BandDesign<R>,
        start: usize,
    )
        requires
            old(self).fits(old(work).fft.n as nat, d.hop as nat),
            old(work).fits(old(work).fft.n as nat),
            d.fits(old(work).fft.n as nat),
            start < old(work).fft.n + d.hop,
        ensures
            final(self).fits(old(work).fft.n as nat, d.hop as nat),
            final(work).fits(old(work).fft.n as nat),
            final(work).fft.n == old(work).fft.n,
            final(work).fft.scratch == old(work).fft.scratch,
            final(self).state((old(work).fft.n - d.hop) as usize, start, d.hop) == fired::<R, B>(
                d.plan(),
                old(self).state(old(work).fft.n, start, 0),
            ),
    {
        let n: usize = self.frame_in.len();
        let h: usize = d.hop;
        let cap: usize = n + h;
        let ghost before = old(self).state(n, start, 0);
        assert(self.frame_in@ =~= self.frame_in@.take(n as int));
        work.filter(self.frame_in.as_slice(), d);
        let ghost cut = filtered::<R, B>(d.plan(), before.pending);
        let ghost sum = summed(d.plan(), before.sum, cut);
        let mut i: usize = 0;
        while i < n
            invariant
                0 <= i <= n,
                n == old(work).fft.n,
                h == d.hop,
                self.fits(n as nat, h as nat),
                work.fits(n as nat),
                work.fft.scratch == old(work).fft.scratch,
                d.fits(n as nat),
                self.frame_in@ == old(self).frame_in@,
                before.sum.len() == n,
                work.frame@ == cut,
                sum == summed(d.plan(), before.sum, cut),
                forall|k: int| 0 <= k < i ==> #[trigger] self.acc@[k] == sum[k],
                forall|k: int| i <= k < n ==> #[trigger] self.acc@[k] == before.sum[k],
            decreases n - i,
        {
            assert(self.acc@[i as int] == before.sum[i as int]);
            let v = self.acc[i].plus(finite_or_zero(work.frame[i]).times(d.w_s[i]));
            self.acc.set(i, v);
            i += 1;
        }
        assert(self.acc@ =~= sum);
        let mut k: usize = 0;
        while k < h
            invariant
                0 <= k <= h,
                n == old(work).fft.n,
                h == d.hop,
                cap == n + h,
                start < cap,
                self.fits(n as nat, h as nat),
                d.fits(n as nat),
                self.frame_in@ == old(self).frame_in@,
                self.acc@ == sum,
                forall|j: int|
                    0 <= j < k ==> #[trigger] self.fifo@[place(cap, start, j)] == finalized(
                        d.plan(),
                        sum,
                    )[j],
            decreases h - k,
        {
            let y = finite_or_zero(self.acc[k].times(d.inv_wsum[k]));
            let at: usize = place_of(cap, start, k);
            self.fifo.set(at, y);
            assert forall|j: int| 0 <= j < k + 1 implies #[trigger] self.fifo@[place(
                cap,
                start,
                j,
            )] == finalized(d.plan(), sum)[j] by {
                if j < k {
                    lemma_place_apart(cap, start, j, k as int);
                }
            }
            k += 1;
        }
        let zero = R::zero();
        let mut m: usize = 0;
        while m < n
            invariant
                0 <= m <= n,
                n == old(work).fft.n,
                h == d.hop,
                1 <= h <= n,
                zero == nil::<R>(),
                self.fits(n as nat, h as nat),
                sum.len() == n,
                before.pending == old(self).frame_in@,
                forall|j: int|
                    0 <= j < m && j < n - h ==> #[trigger] self.frame_in@[j]
                        == before.pending[j + h],
                forall|j: int| m <= j < n ==> #[trigger] self.frame_in@[j] == before.pending[j],
                forall|j: int| 0 <= j < m ==> #[trigger] self.acc@[j] == moved_on(sum, h as nat)[j],
                forall|j: int| m <= j < n ==> #[trigger] self.acc@[j] == sum[j],
                forall|j: int|
                    0 <= j < h ==> #[trigger] self.fifo@[place(cap, start, j)] == finalized(
                        d.plan(),
                        sum,
                    )[j],
            decreases n - m,
        {
            if m < n - h {
                assert(self.frame_in@[m + h] == before.pending[m + h]);
                assert(self.acc@[m + h] == sum[m + h]);
                let x = self.frame_in[m + h];
                let a = self.acc[m + h];
                self.frame_in.set(m, x);
                self.acc.set(m, a);
            } else {
                self.acc.set(m, zero);
            }
            m += 1;
        }
        assert(self.state((n - h) as usize, start, h) =~= fired::<R, B>(d.plan(), before));
    }

    /// Silence in every buffer.
    pub fn clear(&mut self)
        ensures
            final(self).frame_in@.len() == old(self).frame_in@.len(),
            final(self).acc@.len() == old(self).acc@.len(),
            final(self).fifo@.len() == old(self).fifo@.len(),
            final(self).state(0, 0, 0) == lane_rest::<R>(old(self).acc@.len()),
    {
        let zero = R::zero();
        refill(&mut self.frame_in, zero);
        refill(&mut self.acc, zero);
        refill(&mut self.fifo, zero);
        assert(self.state(0, 0, 0) =~= lane_rest::<R>(old(self).acc@.len()));
    }
}

} // verus!
