//! Real-input transforms of fixed size.
//!
//! [`Fft`] sanitizes what goes in and out and normalizes the inverse. The
//! transform itself comes from a [`Transform`] backend that the host chooses.

use crate::dsp::memory::{bytes_of, joined, saturated};
use crate::dsp::sanitize::{finite_or_zero, sane};
use crate::number::{nil, unit, Order, Real};
use std::marker::PhantomData;
use vstd::layout::size_of;
use vstd::prelude::*;

verus! {

/// A complex bin.
#[derive(Debug, PartialEq)]
pub struct Complex<R> {
    pub re: R,
    pub im: R,
}

impl<R: Copy> Copy for Complex<R> {

}

impl<R: Copy> Clone for Complex<R> {
    fn clone(&self) -> (r: Self)
        ensures
            r == *self,
    {
        *self
    }
}

impl<R: Real> Complex<R> {
    /// A bin with these parts.
    pub fn new(re: R, im: R) -> (r: Self)
        ensures
            r == (Complex { re, im }),
    {
        Complex { re, im }
    }
}

/// The number of bins of a real transform of `n` samples.
pub open spec fn bins_of(n: nat) -> nat {
    n / 2 + 1
}

/// The bins that have no mirror image are real: the first one, and for an even
/// size the last one.
pub open spec fn real_ends<R: Real>(n: nat, bins: Seq<Complex<R>>) -> bool {
    &&& bins[0].im.alike(nil())
    &&& n % 2 == 0 ==> bins[(n / 2) as int].im.alike(nil())
}

/// A real-input transform of fixed size.
///
/// Forward and inverse are functions of the size and of what is handed in.
pub trait Transform<R: Real>: Sized {
    /// The planned size.
    open spec fn length(&self) -> nat {
        arbitrary()
    }

    /// The bins of `n` samples.
    open spec fn analysis(n: nat, x: Seq<R>) -> Seq<Complex<R>> {
        arbitrary()
    }

    /// The `n` samples of some bins, scaled by `n`.
    open spec fn synthesis(n: nat, bins: Seq<Complex<R>>) -> Seq<R> {
        arbitrary()
    }

    /// Scratch bins that a forward and an inverse transform of size `n` need.
    open spec fn scratch(n: nat) -> (usize, usize) {
        arbitrary()
    }

    /// Plan a transform of `n` samples.
    fn plan(n: usize) -> (r: Self)
        requires
            n >= 1,
        ensures
            r.length() == n,
    ;

    /// Scratch bins that forward and inverse need.
    fn scratch_lengths(&self) -> (r: (usize, usize))
        ensures
            r == Self::scratch(self.length()),
    ;

    /// Allocate the scratch.
    fn allocate_scratch(&mut self)
        ensures
            final(self).length() == old(self).length(),
    ;

    /// Transform samples into bins. The samples are overwritten.
    fn forward(&mut self, input: &mut [R], spectrum: &mut [Complex<R>])
        requires
            old(input)@.len() == old(self).length(),
            old(spectrum)@.len() == bins_of(old(self).length()),
        ensures
            final(self).length() == old(self).length(),
            final(input)@.len() == old(input)@.len(),
            final(spectrum)@ == Self::analysis(old(self).length(), old(input)@),
            final(spectrum)@.len() == old(spectrum)@.len(),
            old(self).length() >= 1 ==> real_ends(old(self).length(), final(spectrum)@),
    ;

    /// Transform bins into samples. The bins are overwritten.
    fn inverse(&mut self, spectrum: &mut [Complex<R>], output: &mut [R])
        requires
            old(output)@.len() == old(self).length(),
            old(spectrum)@.len() == bins_of(old(self).length()),
            real_ends(old(self).length(), old(spectrum)@),
        ensures
            final(self).length() == old(self).length(),
            final(spectrum)@.len() == old(spectrum)@.len(),
            final(output)@ == Self::synthesis(old(self).length(), old(spectrum)@),
            final(output)@.len() == old(output)@.len(),
    ;
}

/// Samples with what is not finite replaced by silence.
pub open spec fn sane_samples<R: Real>(x: Seq<R>) -> Seq<R> {
    Seq::new(x.len(), |i: int| sane(x[i]))
}

/// Bins with what is not finite replaced by zero.
pub open spec fn sane_bins<R: Real>(x: Seq<Complex<R>>) -> Seq<Complex<R>> {
    Seq::new(x.len(), |i: int| Complex { re: sane(x[i].re), im: sane(x[i].im) })
}

/// The bins of `x`.
pub open spec fn spectrum_of<R: Real, B: Transform<R>>(x: Seq<R>) -> Seq<Complex<R>> {
    B::analysis(x.len(), sane_samples(x))
}

/// The `n` samples of some bins, normalized.
pub open spec fn signal_of<R: Real, B: Transform<R>>(n: nat, bins: Seq<Complex<R>>) -> Seq<R> {
    let raw = B::synthesis(n, sane_bins(bins));
    let scale = unit::<R>().quot(R::natural(n as u64));
    Seq::new(n, |i: int| sane(raw[i].prod(scale)))
}

/// A real-input transform of fixed size `n`.
///
/// Forward maps `n` real samples to `n/2 + 1` complex bins. Inverse maps them
/// back and normalizes by `1/n`.
#[derive(Debug)]
pub struct Fft<R: Real, B: Transform<R>> {
    pub n: usize,
    pub backend: B,
    /// Scratch bins that have been allocated.
    pub scratch: usize,
    pub number: PhantomData<R>,
}

impl<R: Real, B: Transform<R>> Fft<R, B> {
    pub open spec fn wf(&self) -> bool {
        &&& self.n >= 1
        &&& self.backend.length() == self.n
    }

    /// Plan a transform of size `n` and allocate its scratch.
    pub fn new(n: usize) -> (r: Self)
        requires
            n >= 1,
        ensures
            r.wf(),
            r.n == n,
            r.scratch == saturated(B::scratch(n as nat).0 as nat + B::scratch(n as nat).1 as nat),
    {
        let mut fft = Self::plan(n);
        fft.allocate_scratch();
        fft
    }

    /// Plan a transform without allocating the scratch.
    pub fn plan(n: usize) -> (r: Self)
        requires
            n >= 1,
        ensures
            r.wf(),
            r.n == n,
            r.scratch == 0,
    {
        Self { n, backend: B::plan(n), scratch: 0, number: PhantomData }
    }

    /// Scratch bins that forward and inverse need.
    pub fn scratch_lengths(&self) -> (r: (usize, usize))
        requires
            self.wf(),
        ensures
            r == B::scratch(self.n as nat),
    {
        self.backend.scratch_lengths()
    }

    /// Allocate the scratch.
    pub fn allocate_scratch(&mut self)
        requires
            old(self).wf(),
        ensures
            final(self).wf(),
            final(self).n == old(self).n,
            final(self).scratch == saturated(
                B::scratch(old(self).n as nat).0 as nat + B::scratch(old(self).n as nat).1 as nat,
            ),
    {
        let (fwd, inv) = self.backend.scratch_lengths();
        self.scratch = joined(fwd, inv);
        self.backend.allocate_scratch();
    }

    /// Bytes of the allocated scratch.
    pub fn scratch_footprint(&self) -> (r: usize)
        ensures
            r == saturated(self.scratch as nat * size_of::<Complex<R>>()),
    {
        bytes_of::<Complex<R>>(self.scratch)
    }

    /// The transform size.
    pub fn size(&self) -> (r: usize)
        ensures
            r == self.n,
    {
        self.n
    }

    /// The number of bins that a forward transform produces.
    pub fn num_bins(&self) -> (r: usize)
        requires
            self.wf(),
        ensures
            r == bins_of(self.n as nat),
    {
        self.n / 2 + 1
    }

    /// Transform `input` into `spectrum`. The input is overwritten.
    pub fn forward(&mut self, input: &mut [R], spectrum: &mut [Complex<R>])
        requires
            old(self).wf(),
            old(input)@.len() == old(self).n,
            old(spectrum)@.len() == bins_of(old(self).n as nat),
        ensures
            final(self).wf(),
            final(self).n == old(self).n,
            final(self).scratch == old(self).scratch,
            final(input)@.len() == old(input)@.len(),
            final(spectrum)@.len() == old(spectrum)@.len(),
            final(spectrum)@ == spectrum_of::<R, B>(old(input)@),
            real_ends(old(self).n as nat, final(spectrum)@),
    {
        let n: usize = input.len();
        let mut i: usize = 0;
        while i < n
            invariant
                0 <= i <= n,
                n == old(input)@.len(),
                input@.len() == n,
                forall|k: int| 0 <= k < i ==> #[trigger] input@[k] == sane(old(input)@[k]),
                forall|k: int| i <= k < n ==> #[trigger] input@[k] == old(input)@[k],
            decreases n - i,
        {
            assert(input@[i as int] == old(input)@[i as int]);
            let v = finite_or_zero(input[i]);
            input[i] = v;
            i += 1;
        }
        assert(input@ =~= sane_samples(old(input)@));
        self.backend.forward(input, spectrum);
    }

    /// Transform `spectrum` into `output`, normalized. The spectrum is
    /// overwritten.
    pub fn inverse(&mut self, spectrum: &mut [Complex<R>], output: &mut [R])
        requires
            old(self).wf(),
            old(output)@.len() == old(self).n,
            old(spectrum)@.len() == bins_of(old(self).n as nat),
            real_ends(old(self).n as nat, sane_bins(old(spectrum)@)),
        ensures
            final(self).wf(),
            final(self).n == old(self).n,
            final(self).scratch == old(self).scratch,
            final(spectrum)@.len() == old(spectrum)@.len(),
            final(output)@ == signal_of::<R, B>(old(self).n as nat, old(spectrum)@),
    {
        let bins: usize = spectrum.len();
        let mut i: usize = 0;
        while i < bins
            invariant
                0 <= i <= bins,
                bins == old(spectrum)@.len(),
                spectrum@.len() == bins,
                forall|k: int|
                    0 <= k < i ==> #[trigger] spectrum@[k] == (Complex {
                        re: sane(old(spectrum)@[k].re),
                        im: sane(old(spectrum)@[k].im),
                    }),
                forall|k: int| i <= k < bins ==> #[trigger] spectrum@[k] == old(spectrum)@[k],
            decreases bins - i,
        {
            assert(spectrum@[i as int] == old(spectrum)@[i as int]);
            let b = spectrum[i];
            spectrum[i] = Complex { re: finite_or_zero(b.re), im: finite_or_zero(b.im) };
            i += 1;
        }
        assert(spectrum@ =~= sane_bins(old(spectrum)@));
        self.backend.inverse(spectrum, output);
        let n: usize = output.len();
        let scale = R::one().over(R::from_u64(n as u64));
        let ghost raw = output@;
        let mut j: usize = 0;
        while j < n
            invariant
                0 <= j <= n,
                n == raw.len(),
                output@.len() == n,
                scale == unit::<R>().quot(R::natural(n as u64)),
                forall|k: int| 0 <= k < j ==> #[trigger] output@[k] == sane(raw[k].prod(scale)),
                forall|k: int| j <= k < n ==> #[trigger] output@[k] == raw[k],
            decreases n - j,
        {
            assert(output@[j as int] == raw[j as int]);
            let v = finite_or_zero(output[j].times(scale));
            output[j] = v;
            j += 1;
        }
        assert(output@ =~= signal_of::<R, B>(n as nat, old(spectrum)@));
    }
}

} // verus!
