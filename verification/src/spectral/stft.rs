//! Short-time Fourier analysis and synthesis of whole signals.
//!
//! [`Stft::analyze`] converts a signal into one spectrum per hop.
//! [`Stft::synthesize`] transforms spectra back and overlap-adds them. Both
//! allocate per call and are meant for offline use.

use crate::dsp::memory::{filled, rows};
use crate::dsp::sanitize::{finite_or_zero, sane};
use crate::number::{nil, Order, Real};
use crate::spectral::fft::{
    bins_of, real_ends, sane_bins, signal_of, spectrum_of, Complex, Fft, Transform,
};
use crate::spectral::window::{window_of, Window};
use vstd::prelude::*;

verus! {

/// How many frames cover `len` samples, `hop` apart.
pub open spec fn frames_over(len: nat, hop: nat) -> nat {
    if len == 0 {
        0
    } else {
        ((len - 1) / (hop as int) + 1) as nat
    }
}

/// The samples from `start` on under a window, with silence past the end.
pub open spec fn windowed<R: Real>(signal: Seq<R>, start: int, window: Seq<R>) -> Seq<R> {
    Seq::new(
        window.len(),
        |i: int|
            if start + i < signal.len() {
                sane(signal[start + i]).prod(window[i])
            } else {
                nil()
            },
    )
}

/// Products of two windows, sample by sample.
pub open spec fn products<R: Real>(a: Seq<R>, b: Seq<R>) -> Seq<R> {
    Seq::new(a.len(), |i: int| a[i].prod(b[i]))
}

/// What frames that are `hop` apart add up to at sample `p`, each weighted by a
/// window, over the first `k` of them.
pub open spec fn overlap_added<R: Real>(
    frames: Seq<Seq<R>>,
    window: Seq<R>,
    hop: int,
    p: int,
    k: nat,
) -> R
    decreases k,
{
    if k == 0 {
        nil()
    } else {
        let before = overlap_added(frames, window, hop, p, (k - 1) as nat);
        let i = p - (k - 1) * hop;
        if 0 <= i < window.len() {
            before.sum(sane(frames[k - 1][i]).prod(window[i]))
        } else {
            before
        }
    }
}

/// What `k` copies of a weight that are `hop` apart add up to at sample `p`.
pub open spec fn weight_added<R: Real>(weight: Seq<R>, hop: int, p: int, k: nat) -> R
    decreases k,
{
    if k == 0 {
        nil()
    } else {
        let before = weight_added(weight, hop, p, (k - 1) as nat);
        let i = p - (k - 1) * hop;
        if 0 <= i < weight.len() {
            before.sum(weight[i])
        } else {
            before
        }
    }
}

/// A sample divided by its accumulated weight, where that is above the floor.
pub open spec fn normalized<R: Real>(sample: R, weight: R) -> R {
    sane(
        if R::decimal_of(1, -9).below(weight) {
            sample.quot(weight)
        } else {
            sample
        },
    )
}

/// How many samples `count` frames of `size` samples cover, `hop` apart.
pub open spec fn covered(count: nat, hop: nat, size: nat) -> nat {
    if count == 0 {
        0
    } else {
        ((count - 1) * hop + size) as nat
    }
}

/// The signal of some spectra: transformed back, windowed, overlap-added, and
/// divided by the accumulated window products.
pub open spec fn synthesized<R: Real, B: Transform<R>>(
    spectra: Seq<Seq<Complex<R>>>,
    window: Seq<R>,
    hop: nat,
) -> Seq<R> {
    let n = window.len();
    let frames = Seq::new(spectra.len(), |m: int| signal_of::<R, B>(n, spectra[m]));
    Seq::new(
        covered(spectra.len(), hop, n),
        |p: int|
            normalized(
                overlap_added(frames, window, hop as int, p, spectra.len()),
                weight_added(products(window, window), hop as int, p, spectra.len()),
            ),
    )
}

/// An offline analyzer and synthesizer at a fixed size and hop.
#[derive(Debug)]
pub struct Stft<R: Real, B: Transform<R>> {
    pub fft: Fft<R, B>,
    pub analysis: Vec<R>,
    pub synthesis: Vec<R>,
    /// Reconstruction weight per sample, `analysis * synthesis`.
    pub wprod: Vec<R>,
    pub hop: usize,
}

/// The products of two windows.
pub fn multiply<R: Real>(a: &[R], b: &[R]) -> (r: Vec<R>)
    requires
        a@.len() == b@.len(),
    ensures
        r@ == products(a@, b@),
{
    let mut out: Vec<R> = Vec::new();
    let mut i: usize = 0;
    while i < a.len()
        invariant
            0 <= i <= a@.len(),
            a@.len() == b@.len(),
            out@ =~= products(a@, b@).take(i as int),
        decreases a@.len() - i,
    {
        out.push(a[i].times(b[i]));
        i += 1;
    }
    assert(products(a@, b@).take(i as int) =~= products(a@, b@));
    out
}

impl<R: Real, B: Transform<R>> Stft<R, B> {
    pub open spec fn wf(&self) -> bool {
        &&& self.fft.wf()
        &&& self.analysis@.len() == self.fft.n
        &&& self.synthesis@ == self.analysis@
        &&& self.wprod@ == products(self.analysis@, self.synthesis@)
        &&& 1 <= self.hop <= self.fft.n
    }

    /// An analyzer of frame `size` at `hop` samples, using `window` for both
    /// analysis and synthesis.
    pub fn new(size: usize, hop: usize, window: Window) -> (r: Self)
        requires
            size >= 1,
            1 <= hop <= size,
        ensures
            r.wf(),
            r.fft.n == size,
            r.hop == hop,
            r.analysis@ == window_of::<R>(window, size as nat),
    {
        let analysis: Vec<R> = window.make(size);
        let synthesis: Vec<R> = window.make(size);
        let wprod = multiply(analysis.as_slice(), synthesis.as_slice());
        Self { fft: Fft::new(size), analysis, synthesis, wprod, hop }
    }

    /// The frame size.
    pub fn size(&self) -> (r: usize)
        requires
            self.wf(),
        ensures
            r == self.fft.n,
    {
        self.analysis.len()
    }

    /// The hop between frames.
    pub fn hop(&self) -> (r: usize)
        ensures
            r == self.hop,
    {
        self.hop
    }

    /// Bins per frame.
    pub fn num_bins(&self) -> (r: usize)
        requires
            self.wf(),
        ensures
            r == bins_of(self.fft.n as nat),
    {
        self.fft.num_bins()
    }

    /// How many frames [`analyze`](Self::analyze) yields for `len` samples.
    pub fn num_frames(&self, len: usize) -> (r: usize)
        requires
            self.wf(),
        ensures
            r == frames_over(len as nat, self.hop as nat),
    {
        if len == 0 {
            0
        } else {
            assert((len - 1) / (self.hop as int) <= len - 1) by (nonlinear_arith)
                requires
                    self.hop >= 1,
                    len >= 1,
            ;
            (len - 1) / self.hop + 1
        }
    }

    /// Analyze `signal` into one spectrum per hop. Frames are padded with
    /// silence past the end.
    pub fn analyze(&mut self, signal: &[R]) -> (r: Vec<Vec<Complex<R>>>)
        requires
            old(self).wf(),
        ensures
            final(self).wf(),
            final(self).fft.n == old(self).fft.n,
            final(self).hop == old(self).hop,
            final(self).analysis == old(self).analysis,
            rows(r@) == Seq::new(
                frames_over(signal@.len(), old(self).hop as nat),
                |m: int|
                    spectrum_of::<R, B>(
                        windowed(signal@, m * old(self).hop, old(self).analysis@),
                    ),
            ),
    {
        let n: usize = self.size();
        let frames: usize = self.num_frames(signal.len());
        let bins: usize = self.num_bins();
        let ghost w = self.analysis@;
        let mut out: Vec<Vec<Complex<R>>> = Vec::new();
        let mut frame: Vec<R> = filled(R::zero(), n);
        let mut m: usize = 0;
        let mut start: usize = 0;
        assert(0 * self.hop == 0);
        while m < frames
            invariant
                0 <= m <= frames,
                frames == frames_over(signal@.len(), self.hop as nat),
                m < frames ==> start == m * self.hop,
                self.wf(),
                self.fft.n == old(self).fft.n,
                self.hop == old(self).hop,
                self.analysis == old(self).analysis,
                w == self.analysis@,
                n == w.len(),
                n == self.fft.n,
                bins == bins_of(n as nat),
                frame@.len() == n,
                out@.len() == m,
                forall|k: int|
                    0 <= k < m ==> (#[trigger] out@[k])@ == spectrum_of::<R, B>(
                        windowed(signal@, k * self.hop, w),
                    ),
            decreases frames - m,
        {
            proof {
                // Each frame starts inside the signal.
                assert(m * self.hop <= signal@.len() - 1) by (nonlinear_arith)
                    requires
                        m <= (signal@.len() - 1) / (self.hop as int),
                        self.hop >= 1,
                ;
            }
            let len: usize = signal.len();
            let left: usize = len - start;
            let mut i: usize = 0;
            while i < n
                invariant
                    0 <= i <= n,
                    n == frame@.len(),
                    n == self.analysis@.len(),
                    w == self.analysis@,
                    start + left == len,
                    len == signal@.len(),
                    forall|k: int|
                        0 <= k < i ==> #[trigger] frame@[k] == windowed(
                            signal@,
                            start as int,
                            w,
                        )[k],
                decreases n - i,
            {
                let v = if i < left {
                    finite_or_zero(signal[start + i]).times(self.analysis[i])
                } else {
                    R::zero()
                };
                frame.set(i, v);
                i += 1;
            }
            assert(frame@ =~= windowed(signal@, m * self.hop, w));
            let mut spectrum: Vec<Complex<R>> = filled(Complex::new(R::zero(), R::zero()), bins);
            self.fft.forward(frame.as_mut_slice(), spectrum.as_mut_slice());
            out.push(spectrum);
            m += 1;
            if m < frames {
                proof {
                    assert(m * self.hop <= signal@.len() - 1) by (nonlinear_arith)
                        requires
                            m <= (signal@.len() - 1) / (self.hop as int),
                            self.hop >= 1,
                    ;
                    assert(m * self.hop == (m - 1) * self.hop + self.hop) by (nonlinear_arith);
                }
                start = start + self.hop;
            }
        }
        assert(rows(out@) =~= Seq::new(
            frames_over(signal@.len(), old(self).hop as nat),
            |m: int|
                spectrum_of::<R, B>(windowed(signal@, m * old(self).hop, old(self).analysis@)),
        ));
        out
    }

    /// Synthesize a signal from spectra by transforming back, applying the
    /// window, overlap-adding, and dividing by the window overlap.
    pub fn synthesize(&mut self, frames: &[Vec<Complex<R>>]) -> (r: Vec<R>)
        requires
            old(self).wf(),
            forall|m: int|
                0 <= m < frames@.len() ==> (#[trigger] frames@[m])@.len() == bins_of(
                    old(self).fft.n as nat,
                ) && real_ends(old(self).fft.n as nat, sane_bins(frames@[m]@)),
            covered(frames@.len(), old(self).hop as nat, old(self).fft.n as nat) <= usize::MAX,
        ensures
            final(self).wf(),
            final(self).fft.n == old(self).fft.n,
            final(self).hop == old(self).hop,
            final(self).analysis == old(self).analysis,
            r@ == synthesized::<R, B>(rows(frames@), old(self).analysis@, old(self).hop as nat),
    {
        let n: usize = self.size();
        if frames.len() == 0 {
            let r: Vec<R> = Vec::new();
            assert(r@ =~= synthesized::<R, B>(rows(frames@), self.analysis@, self.hop as nat));
            return r;
        }
        let count: usize = frames.len();
        let hop: usize = self.hop;
        let ghost w = self.analysis@;
        let ghost turned = Seq::new(
            frames@.len(),
            |m: int| signal_of::<R, B>(n as nat, rows(frames@)[m]),
        );
        assert(0 <= (count - 1) * hop) by (nonlinear_arith)
            requires
                count >= 1,
        ;
        let total: usize = (count - 1) * hop + n;
        let mut out: Vec<R> = filled(R::zero(), total);
        let mut wsum: Vec<R> = filled(R::zero(), total);
        let mut spectrum: Vec<Complex<R>> = Vec::new();
        let mut frame: Vec<R> = filled(R::zero(), n);
        let mut m: usize = 0;
        let mut start: usize = 0;
        assert(0 * hop == 0);
        while m < count
            invariant
                0 <= m <= count,
                count == frames@.len(),
                m < count ==> start == m * hop,
                total == (count - 1) * hop + n,
                self.wf(),
                self.fft.n == old(self).fft.n,
                self.hop == old(self).hop,
                self.hop == hop,
                self.analysis == old(self).analysis,
                w == self.analysis@,
                n == w.len(),
                n == self.fft.n,
                frame@.len() == n,
                out@.len() == total,
                wsum@.len() == total,
                turned == Seq::new(
                    frames@.len(),
                    |m: int| signal_of::<R, B>(n as nat, rows(frames@)[m]),
                ),
                forall|k: int|
                    0 <= k < frames@.len() ==> (#[trigger] frames@[k])@.len() == bins_of(n as nat)
                        && real_ends(n as nat, sane_bins(frames@[k]@)),
                forall|p: int|
                    0 <= p < total ==> #[trigger] out@[p] == overlap_added(
                        turned,
                        w,
                        hop as int,
                        p,
                        m as nat,
                    ),
                forall|p: int|
                    0 <= p < total ==> #[trigger] wsum@[p] == weight_added(
                        products(w, w),
                        hop as int,
                        p,
                        m as nat,
                    ),
            decreases count - m,
        {
            assert(frames@[m as int]@.len() == bins_of(n as nat));
            spectrum.clear();
            let fr = &frames[m];
            let mut b: usize = 0;
            while b < fr.len()
                invariant
                    0 <= b <= fr@.len(),
                    spectrum@ =~= fr@.take(b as int),
                decreases fr@.len() - b,
            {
                spectrum.push(fr[b]);
                b += 1;
            }
            assert(spectrum@ =~= rows(frames@)[m as int]);
            self.fft.inverse(spectrum.as_mut_slice(), frame.as_mut_slice());
            assert(frame@ == turned[m as int]);
            assert(m * hop + n <= (count - 1) * hop + n) by (nonlinear_arith)
                requires
                    m <= count - 1,
                    hop >= 0,
            ;
            let ghost out_before = out@;
            let ghost wsum_before = wsum@;
            let mut i: usize = 0;
            while i < n
                invariant
                    0 <= i <= n,
                    start + n <= total,
                    n == frame@.len(),
                    n == self.synthesis@.len(),
                    n == self.wprod@.len(),
                    w == self.synthesis@,
                    self.wprod@ == products(w, w),
                    out@.len() == total,
                    wsum@.len() == total,
                    out_before.len() == total,
                    wsum_before.len() == total,
                    forall|p: int|
                        0 <= p < total && !(start <= p < start + i) ==> #[trigger] out@[p]
                            == out_before[p],
                    forall|p: int|
                        0 <= p < total && !(start <= p < start + i) ==> #[trigger] wsum@[p]
                            == wsum_before[p],
                    forall|p: int|
                        start <= p < start + i ==> #[trigger] out@[p] == out_before[p].sum(
                            sane(frame@[p - start]).prod(w[p - start]),
                        ),
                    forall|p: int|
                        start <= p < start + i ==> #[trigger] wsum@[p] == wsum_before[p].sum(
                            products(w, w)[p - start],
                        ),
                decreases n - i,
            {
                let at: usize = start + i;
                assert(out@[at as int] == out_before[at as int]);
                assert(wsum@[at as int] == wsum_before[at as int]);
                let o = out[at].plus(finite_or_zero(frame[i]).times(self.synthesis[i]));
                let ws = wsum[at].plus(self.wprod[i]);
                out.set(at, o);
                wsum.set(at, ws);
                i += 1;
            }
            m += 1;
            if m < count {
                proof {
                    assert(m * hop == (m - 1) * hop + hop) by (nonlinear_arith);
                    assert(m * hop + n <= (count - 1) * hop + n) by (nonlinear_arith)
                        requires
                            m <= count - 1,
                            hop >= 0,
                    ;
                }
                start = start + hop;
            }
        }
        let floor = R::decimal(1, -9);
        let ghost added = out@;
        let mut p: usize = 0;
        while p < total
            invariant
                0 <= p <= total,
                out@.len() == total,
                wsum@.len() == total,
                added.len() == total,
                floor == R::decimal_of(1, -9),
                forall|k: int|
                    0 <= k < p ==> #[trigger] out@[k] == normalized(added[k], wsum@[k]),
                forall|k: int| p <= k < total ==> #[trigger] out@[k] == added[k],
            decreases total - p,
        {
            assert(out@[p as int] == added[p as int]);
            let o = if floor.less(wsum[p]) {
                out[p].over(wsum[p])
            } else {
                out[p]
            };
            out.set(p, finite_or_zero(o));
            p += 1;
        }
        assert(rows(frames@).len() == frames@.len());
        assert(turned =~= Seq::new(
            rows(frames@).len(),
            |m: int| signal_of::<R, B>(w.len(), rows(frames@)[m]),
        ));
        assert(out@ =~= synthesized::<R, B>(rows(frames@), w, hop as nat));
        out
    }
}

/// Every sample of a signal falls into one of its frames.
pub proof fn frames_cover_the_signal(len: nat, hop: nat, size: nat, p: nat)
    requires
        1 <= hop <= size,
        p < len,
    ensures
        exists|m: int|
            0 <= m < frames_over(len, hop) && #[trigger] (m * hop) <= p && p < m * hop + size,
{
    let m = p as int / hop as int;
    assert(m * hop <= p < m * hop + hop && 0 <= m <= (len - 1) / (hop as int)) by (nonlinear_arith)
        requires
            m == p as int / hop as int,
            hop >= 1,
            p < len,
            0 <= p,
    ;
    assert(m * hop <= p);
}

/// What is synthesized from the frames of a signal is at least as long as the
/// signal, and exceeds it by less than a frame.
pub proof fn synthesis_spans_the_signal(len: nat, hop: nat, size: nat)
    requires
        1 <= hop <= size,
        len > 0,
    ensures
        len <= covered(frames_over(len, hop), hop, size) < len + size,
{
    let q = (len - 1) / (hop as int);
    assert(0 <= q && q * hop <= len - 1 < q * hop + hop) by (nonlinear_arith)
        requires
            q == (len - 1) / (hop as int),
            hop >= 1,
            len >= 1,
    ;
}

} // verus!
