//! The K-weighting filter as a filter.

use crate::analysis::loudness::{
    highpass_at, section_next, section_out, shelf_at, weighted_next, weighted_out, BiquadState,
    KWeighting,
};
use crate::dsp::algebra::{lemma_negate, lemma_scaled, lemma_spread, lemma_times};
use crate::dsp::sanitize::flushed;
use crate::number::{lemma_cancel, lemma_ratio, lemma_unrounded, unrounded, Real};
use vstd::prelude::*;

verus! {

/// Nothing is flushed.
pub open spec fn keeps<R: Real>(of: spec_fn(R) -> real) -> bool {
    forall|a: R| of(#[trigger] flushed(a)) == of(a)
}

/// A section obeys the transfer function of its coefficients: where arithmetic never rounds,
/// three samples in a row, from any state, satisfy
/// `y[n] + a1 y[n-1] + a2 y[n-2] = b0 x[n] + b1 x[n-1] + b2 x[n-2]`.
pub proof fn sections_obey_the_transfer_function<R: Real>(
    s: BiquadState<R>,
    x2: R,
    x1: R,
    x0: R,
    of: spec_fn(R) -> real,
)
    requires
        unrounded::<R>(of),
        keeps::<R>(of),
    ensures
        ({
            let c = s.coeffs;
            let s1 = section_next(s, x2);
            let s0 = section_next(s1, x1);
            let (y2, y1, y0) = (
                of(section_out(s, x2)),
                of(section_out(s1, x1)),
                of(section_out(s0, x0)),
            );
            &&& s0.coeffs == c
            &&& y0 + of(c.a1) * y1 + of(c.a2) * y2 == of(c.b0) * of(x0) + of(c.b1) * of(x1) + of(
                c.b2,
            ) * of(x2)
        }),
{
    lemma_unrounded::<R>(of);
}

/// The weighting is its two sections one after the other: the shelf hears the input, and the
/// high-pass what the shelf gives.
pub proof fn weighting_cascades_its_sections<R: Real>(k: KWeighting<R>, x: R)
    ensures
        weighted_out(k, x) == section_out(k.highpass, section_out(k.shelf, x)),
        weighted_next(k, x).shelf == section_next(k.shelf, x),
        weighted_next(k, x).highpass == section_next(k.highpass, section_out(k.shelf, x)),
{
}

/// The curve of the weighting at both ends of the band. Where arithmetic never rounds, the
/// shelf lets a constant through and lifts the alternation at half the rate by its gain of
/// almost four decibels; the high-pass takes a constant out.
pub proof fn weighting_meets_its_curve<R: Real>(fs: R, of: spec_fn(R) -> real)
    requires
        unrounded::<R>(of),
        ({
            let pi = R::decimal_of(3141592653589793, -15);
            let k = of(pi.prod(R::decimal_of(1681974450955533, -12)).quot(fs).tangent());
            let h = of(pi.prod(R::decimal_of(3813547087602444, -14)).quot(fs).tangent());
            let (q, p) = (
                of(R::decimal_of(7071752369554196, -16)),
                of(R::decimal_of(5003270373238773, -16)),
            );
            &&& q != 0real && p != 0real
            &&& 1real + k / q + k * k != 0real
            &&& 1real + h / p + h * h != 0real
        }),
    ensures
        ({
            let s = shelf_at(fs);
            let lift = of(
                R::decimal_of(10, 0).power(
                    R::decimal_of(3999843853973347, -15).quot(R::decimal_of(20, 0)),
                ),
            );
            &&& of(s.b0) + of(s.b1) + of(s.b2) == 1real + of(s.a1) + of(s.a2)
            &&& of(s.b0) - of(s.b1) + of(s.b2) == lift * (1real - of(s.a1) + of(s.a2))
        }),
        ({
            let h = highpass_at(fs);
            &&& of(h.b0) + of(h.b1) + of(h.b2) == 0real
            &&& of(h.b0) == of(h.b2)
        }),
{
    lemma_unrounded::<R>(of);
    let pi = R::decimal_of(3141592653589793, -15);
    let kr = pi.prod(R::decimal_of(1681974450955533, -12)).quot(fs).tangent();
    let (k, q) = (of(kr), of(R::decimal_of(7071752369554196, -16)));
    let lift = R::decimal_of(10, 0).power(
        R::decimal_of(3999843853973347, -15).quot(R::decimal_of(20, 0)),
    );
    let vb = lift.power(R::decimal_of(4996667741545416, -16));
    let vh = of(lift);
    let side = (of(vb) * k) / q;
    let kk = k * k;
    let a0 = 1real + k / q + kk;
    let s = shelf_at(fs);
    let (b0, b1, b2, a1, a2) = (of(s.b0), of(s.b1), of(s.b2), of(s.a1), of(s.a2));
    lemma_ratio(b0, vh + side + kk, a0);
    lemma_ratio(b1, 2real * (kk - vh), a0);
    lemma_ratio(b2, vh - side + kk, a0);
    lemma_ratio(a1, 2real * (kk - 1real), a0);
    lemma_ratio(a2, 1real - k / q + kk, a0);
    lemma_spread(b0, b1, b2, 0real, 0real, a0);
    lemma_spread(1real, a1, a2, 0real, 0real, a0);
    lemma_spread(b0, -b1, b2, 0real, 0real, a0);
    lemma_spread(1real, -a1, a2, 0real, 0real, a0);
    lemma_negate(b1, a0);
    lemma_negate(a1, a0);
    assert(0real * a0 == 0real && 1real * a0 == a0);
    lemma_cancel(b0 + b1 + b2, 1real + a1 + a2, a0);
    let top = 1real - a1 + a2;
    assert(top * a0 == 4real);
    lemma_scaled(vh, top, a0);
    lemma_times(top * a0, 4real, vh);
    assert(vh * (top * a0) == (top * a0) * vh) by (nonlinear_arith);
    assert((b0 - b1 + b2) * a0 == 4real * vh);
    lemma_cancel(b0 - b1 + b2, vh * top, a0);
    let hr = pi.prod(R::decimal_of(3813547087602444, -14)).quot(fs).tangent();
    let (h, p) = (of(hr), of(R::decimal_of(5003270373238773, -16)));
    let d = 1real + h / p + h * h;
    let f = highpass_at(fs);
    lemma_ratio(of(f.b0), 1real, d);
    lemma_ratio(of(f.b1), -2real, d);
    lemma_ratio(of(f.b2), 1real, d);
    lemma_spread(of(f.b0), of(f.b1), of(f.b2), 0real, 0real, d);
    assert(0real * d == 0real);
    lemma_cancel(of(f.b0) + of(f.b1) + of(f.b2), 0real, d);
}

} // verus!
