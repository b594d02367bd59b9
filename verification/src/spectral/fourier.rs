//! The plain transform as a Fourier sum.

use crate::dsp::algebra::{lemma_rotate, lemma_scaled, lemma_swap, lemma_times, sum_of};
use crate::number::{lemma_ratio, lemma_unrounded, unit, unrounded, Real};
use crate::spectral::dft::{bin_im, bin_re, partial, phase, sample_from, DirectDft};
use crate::spectral::fft::{
    bins_of, sane_bins, sane_samples, signal_of, spectrum_of, Complex,
};
use crate::spectral::window::{window_at, Window};
use vstd::prelude::*;

verus! {

/// The angle of bin `k` at sample `i` is their product's share of a full turn.
pub proof fn angles_are_shares_of_a_turn<R: Real>(
    k: u64,
    i: u64,
    n: u64,
    of: spec_fn(R) -> real,
)
    requires
        unrounded::<R>(of),
        n > 0,
    ensures
        of(phase::<R>(k, i, n)) * (n as real) == of(R::decimal_of(6283185307179586, -15)) * ((
        k as real) * (i as real)),
{
    lemma_unrounded::<R>(of);
    let fits = |x: real| true;
    assert(fits(k as real) && fits(i as real) && fits(n as real));
    let top = R::decimal_of(6283185307179586, -15).prod(R::natural(k).prod(R::natural(i)));
    lemma_ratio(of(phase::<R>(k, i, n)), of(top), n as real);
}

/// A bin is the sum of the samples turned by its angles: where arithmetic never rounds, the
/// real part takes the cosines and the imaginary part minus the sines.
pub proof fn bins_are_fourier_sums<R: Real>(
    x: Seq<R>,
    k: u64,
    m: nat,
    of: spec_fn(R) -> real,
)
    requires
        unrounded::<R>(of),
    ensures
        of(bin_re(x, k, m)) == sum_of(
            |i: int| of(x[i]) * of(phase::<R>(k, i as u64, x.len() as u64).cosine()),
            m,
        ),
        of(bin_im(x, k, m)) == -sum_of(
            |i: int| of(x[i]) * of(phase::<R>(k, i as u64, x.len() as u64).sine()),
            m,
        ),
    decreases m,
{
    lemma_unrounded::<R>(of);
    if m > 0 {
        bins_are_fourier_sums(x, k, (m - 1) as nat, of);
    }
}

/// What bin `k` of `n` counts for in a real signal: once where it has no mirror image, and
/// twice otherwise.
pub open spec fn multiplicity(k: int, n: nat) -> real {
    if k == 0 || 2 * k == n {
        1real
    } else {
        2real
    }
}

/// A sample is the sum of the bins turned back, each counted with its mirror image.
pub proof fn samples_are_fourier_sums<R: Real>(
    bins: Seq<Complex<R>>,
    i: u64,
    n: nat,
    m: nat,
    of: spec_fn(R) -> real,
)
    requires
        unrounded::<R>(of),
        m <= bins.len() <= u64::MAX,
    ensures
        of(sample_from(bins, i, n, m)) == sum_of(
            |k: int|
                multiplicity(k, n) * (of(bins[k].re) * of(
                    phase::<R>(k as u64, i, n as u64).cosine(),
                ) - of(bins[k].im) * of(phase::<R>(k as u64, i, n as u64).sine())),
            m,
        ),
    decreases m,
{
    lemma_unrounded::<R>(of);
    if m > 0 {
        samples_are_fourier_sums(bins, i, n, (m - 1) as nat, of);
        let k = m - 1;
        let angle = phase::<R>(k as u64, i, n as u64);
        let once = of(bins[k].re) * of(angle.cosine()) - of(bins[k].im) * of(angle.sine());
        assert(1real * once == once && 2real * once == once + once);
        assert(of(partial(bins[k], k as nat, i, n)) == multiplicity(k, n) * once);
    }
}

/// The windows are related by their cosines. Where arithmetic never rounds, a rectangular
/// window is one; a Hann window is half of one less the cosine; a Hamming window is eight
/// hundredths and 92 hundredths of it; a Blackman window has the second cosine; and a Hann
/// window is the square of the sine window where the sine of half an angle is.
pub proof fn windows_are_related<R: Real>(i: u64, n: u64, of: spec_fn(R) -> real)
    requires
        unrounded::<R>(of),
        n > 0,
        of(R::decimal_of(54, -2)) * 100real == 54real,
        of(R::decimal_of(46, -2)) * 100real == 46real,
        of(R::decimal_of(42, -2)) * 100real == 42real,
        of(R::decimal_of(8, -2)) * 100real == 8real,
        ({
            let x = R::decimal_of(6283185307179586, -15).prod(R::natural(i)).quot(R::natural(n));
            let s = of(R::decimal_of(5, -1).prod(x).sine());
            2real * (s * s) == 1real - of(x.cosine())
        }),
    ensures
        ({
            let x = R::decimal_of(6283185307179586, -15).prod(R::natural(i)).quot(R::natural(n));
            let c = of(x.cosine());
            let c2 = of(R::decimal_of(2, 0).prod(x).cosine());
            let hann = of(window_at::<R>(Window::Hann, i, n));
            let sine = of(window_at::<R>(Window::Sine, i, n));
            &&& of(x) * (n as real) == of(R::decimal_of(6283185307179586, -15)) * (i as real)
            &&& of(window_at::<R>(Window::Rectangular, i, n)) == 1real
            &&& 2real * hann == 1real - c
            &&& 100real * of(window_at::<R>(Window::Hamming, i, n)) == 8real + 92real * hann
            &&& 100real * of(window_at::<R>(Window::Blackman, i, n)) == 42real - 50real * c + 8real
                * c2
            &&& sine * sine == hann
        }),
{
    lemma_unrounded::<R>(of);
    let fits = |x: real| true;
    assert(fits(i as real) && fits(n as real));
    let top = R::decimal_of(6283185307179586, -15).prod(R::natural(i));
    let x = top.quot(R::natural(n));
    lemma_ratio(of(x), of(top), n as real);
    let c = of(x.cosine());
    let c2 = of(R::decimal_of(2, 0).prod(x).cosine());
    let (h, m, e) = (
        of(R::decimal_of(46, -2)),
        of(R::decimal_of(54, -2)),
        of(R::decimal_of(8, -2)),
    );
    lemma_rotate(100real, h, c);
    lemma_scaled(100real, h, c);
    lemma_scaled(100real, e, c2);
    lemma_swap(100real, h);
    lemma_swap(100real, e);
    lemma_times(h * 100real, 46real, c);
    lemma_times(e * 100real, 8real, c2);
}

/// The inverse transform is normalized by the size, and what the plain transform gives for a
/// bin is its Fourier sum, with no imaginary part where the bin has no mirror image.
pub proof fn plain_transform_is_normalized<R: Real>(
    n: nat,
    x: Seq<R>,
    bins: Seq<Complex<R>>,
    i: int,
    k: int,
    of: spec_fn(R) -> real,
)
    requires
        unrounded::<R>(of),
        1 <= n <= u64::MAX,
        x.len() == n,
        0 <= i < n,
        0 <= k < bins_of(n),
        forall|a: R| #[trigger] a.finite(),
    ensures
        of(signal_of::<R, DirectDft>(n, bins)[i]) * (n as int as real) == of(
            sample_from(bins, i as u64, n, bins.len()),
        ),
        spectrum_of::<R, DirectDft>(x).len() == bins_of(n),
        of(spectrum_of::<R, DirectDft>(x)[k].re) == of(bin_re(x, k as u64, n)),
        of(spectrum_of::<R, DirectDft>(x)[k].im) == if k == 0 || 2 * k == n {
            0real
        } else {
            of(bin_im(x, k as u64, n))
        },
{
    lemma_unrounded::<R>(of);
    let fits = |x: real| true;
    assert(fits(n as u64 as real));
    assert(sane_bins(bins) =~= bins) by {
        assert forall|b: int| 0 <= b < bins.len() implies sane_bins(bins)[b] == bins[b] by {
            assert(bins[b].re.finite() && bins[b].im.finite());
        }
    }
    assert(sane_samples(x) =~= x) by {
        assert forall|b: int| 0 <= b < x.len() implies sane_samples(x)[b] == x[b] by {
            assert(x[b].finite());
        }
    }
    let scale = unit::<R>().quot(R::natural(n as u64));
    lemma_ratio(of(scale), 1real, n as u64 as real);
    let raw = sample_from(bins, i as u64, n, bins.len());
    let y = raw.prod(scale);
    assert(y.finite());
    let (a, s, c) = (of(raw), of(scale), n as int as real);
    assert((a * s) * c == a * (s * c)) by (nonlinear_arith);
    lemma_times(s * c, 1real, a);
    lemma_swap(a, s * c);
    assert(1real * a == a);
}

} // verus!
