//! A plain discrete Fourier transform.

use crate::number::{nil, Real};
use crate::spectral::fft::{bins_of, Complex, Transform};
use vstd::prelude::*;

verus! {

/// The transform by its definition, for hosts without a fast one.
///
/// Work grows with the square of the size.
#[derive(Debug)]
pub struct DirectDft {
    n: usize,
}

/// The angle of bin `k` at sample `i`, of `n`.
pub open spec fn phase<R: Real>(k: u64, i: u64, n: u64) -> R {
    R::decimal_of(6283185307179586, -15).prod(R::natural(k).prod(R::natural(i))).quot(
        R::natural(n),
    )
}

/// The real part of bin `k` over the first `m` samples.
pub open spec fn bin_re<R: Real>(x: Seq<R>, k: u64, m: nat) -> R
    decreases m,
{
    if m == 0 {
        nil()
    } else {
        bin_re(x, k, (m - 1) as nat).sum(
            x[m - 1].prod(phase::<R>(k, (m - 1) as u64, x.len() as u64).cosine()),
        )
    }
}

/// The imaginary part of bin `k` over the first `m` samples.
pub open spec fn bin_im<R: Real>(x: Seq<R>, k: u64, m: nat) -> R
    decreases m,
{
    if m == 0 {
        nil()
    } else {
        bin_im(x, k, (m - 1) as nat).diff(
            x[m - 1].prod(phase::<R>(k, (m - 1) as u64, x.len() as u64).sine()),
        )
    }
}

/// The imaginary part of bin `k`: none where the bin has no mirror image.
pub open spec fn mirrored_im<R: Real>(x: Seq<R>, k: nat, n: nat) -> R {
    if k == 0 || 2 * k == n {
        nil()
    } else {
        bin_im(x, k as u64, x.len())
    }
}

/// What bin `k` adds to sample `i`: twice its real part where it has a mirror
/// image.
pub open spec fn partial<R: Real>(b: Complex<R>, k: nat, i: u64, n: nat) -> R {
    let angle = phase::<R>(k as u64, i, n as u64);
    let once = b.re.prod(angle.cosine()).diff(b.im.prod(angle.sine()));
    if k == 0 || 2 * k == n {
        once
    } else {
        once.sum(once)
    }
}

/// Sample `i` of `n` from the first `m` bins.
pub open spec fn sample_from<R: Real>(bins: Seq<Complex<R>>, i: u64, n: nat, m: nat) -> R
    decreases m,
{
    if m == 0 {
        nil()
    } else {
        sample_from(bins, i, n, (m - 1) as nat).sum(partial(bins[m - 1], (m - 1) as nat, i, n))
    }
}

fn phase_of<R: Real>(k: usize, i: usize, n: usize) -> (r: R)
    ensures
        r == phase::<R>(k as u64, i as u64, n as u64),
{
    R::decimal(6283185307179586, -15).times(R::from_u64(k as u64).times(R::from_u64(i as u64))).over(
        R::from_u64(n as u64),
    )
}

impl<R: Real> Transform<R> for DirectDft {
    closed spec fn length(&self) -> nat {
        self.n as nat
    }

    open spec fn analysis(n: nat, x: Seq<R>) -> Seq<Complex<R>> {
        Seq::new(
            bins_of(n),
            |k: int|
                Complex { re: bin_re(x, k as u64, x.len()), im: mirrored_im(x, k as nat, n) },
        )
    }

    open spec fn synthesis(n: nat, bins: Seq<Complex<R>>) -> Seq<R> {
        Seq::new(n, |i: int| sample_from(bins, i as u64, n, bins.len()))
    }

    open spec fn scratch(n: nat) -> (usize, usize) {
        (0, 0)
    }

    fn plan(n: usize) -> (r: Self) {
        DirectDft { n }
    }

    fn scratch_lengths(&self) -> (r: (usize, usize)) {
        (0, 0)
    }

    fn allocate_scratch(&mut self) {
    }

    fn forward(&mut self, input: &mut [R], spectrum: &mut [Complex<R>]) {
        let n: usize = self.n;
        let bins: usize = spectrum.len();
        let zero = R::zero();
        let mut k: usize = 0;
        while k < bins
            invariant
                0 <= k <= bins,
                zero == nil::<R>(),
                n == input@.len(),
                input@ == old(input)@,
                n == old(self).n,
                self.n == n,
                bins == spectrum@.len(),
                bins == bins_of(n as nat),
                forall|j: int|
                    0 <= j < k ==> #[trigger] spectrum@[j] == (Complex {
                        re: bin_re(input@, j as u64, n as nat),
                        im: mirrored_im(input@, j as nat, n as nat),
                    }),
            decreases bins - k,
        {
            let mut re = R::zero();
            let mut im = R::zero();
            let mut i: usize = 0;
            while i < n
                invariant
                    0 <= i <= n,
                    n == input@.len(),
                    re == bin_re(input@, k as u64, i as nat),
                    im == bin_im(input@, k as u64, i as nat),
                decreases n - i,
            {
                let angle: R = phase_of(k, i, n);
                re = re.plus(input[i].times(angle.cos()));
                im = im.minus(input[i].times(angle.sin()));
                i += 1;
            }
            if k == 0 || n - k == k {
                im = zero;
            }
            spectrum[k] = Complex { re, im };
            k += 1;
        }
        assert(spectrum@ =~= <Self as Transform<R>>::analysis(n as nat, input@));
    }

    fn inverse(&mut self, spectrum: &mut [Complex<R>], output: &mut [R]) {
        let n: usize = self.n;
        let bins: usize = spectrum.len();
        let mut i: usize = 0;
        while i < n
            invariant
                0 <= i <= n,
                n == output@.len(),
                n == old(self).n,
                self.n == n,
                bins == spectrum@.len(),
                spectrum@ == old(spectrum)@,
                bins == bins_of(n as nat),
                forall|j: int|
                    0 <= j < i ==> #[trigger] output@[j] == sample_from(
                        spectrum@,
                        j as u64,
                        n as nat,
                        bins as nat,
                    ),
            decreases n - i,
        {
            let mut acc = R::zero();
            let mut k: usize = 0;
            while k < bins
                invariant
                    0 <= k <= bins,
                    bins == spectrum@.len(),
                    bins == bins_of(n as nat),
                    acc == sample_from(spectrum@, i as u64, n as nat, k as nat),
                decreases bins - k,
            {
                let angle: R = phase_of(k, i, n);
                let b = spectrum[k];
                let once = b.re.times(angle.cos()).minus(b.im.times(angle.sin()));
                let part = if k == 0 || n - k == k {
                    once
                } else {
                    once.plus(once)
                };
                acc = acc.plus(part);
                k += 1;
            }
            output[i] = acc;
            i += 1;
        }
        assert(output@ =~= <Self as Transform<R>>::synthesis(n as nat, spectrum@));
    }
}

} // verus!
