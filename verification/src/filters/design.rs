//! What the coefficients of a biquad are designed for.
//!
//! The laws here relate coefficients to the response that they give and to the design
//! that they come from.

use crate::contract::context::Produced;
use crate::contract::param::ParamInfo;
use crate::contract::traits::FrameModel;
use crate::dsp::algebra::{
    lemma_complex_quotient, lemma_norm, lemma_pass_poles, lemma_pass_zeros, lemma_peak_zeros,
    lemma_shelf, lemma_spread, lemma_swap, lemma_times,
};
use crate::dsp::lanes::{heads, lane_after, lane_run, lanes_after, lanes_run, LaneStep};
use crate::dsp::sanitize::lemma_flushing_keeps;
use crate::filters::biquad::{
    angular, biquad_drain, cutoff_in_band, decayed, declared_tail, raw_shape, rbj, response, stable,
    state_peak, two, Biquad, BiquadCoeffs, BiquadKind, BiquadModel, BiquadParams, FilterStep,
    RingStep, State,
};
use crate::filters::moving_average::tap_scale;
use crate::fixed::{fixed_point_flushes_nothing, Fixed, ONE};
use crate::number::{
    at_most, exact, lemma_cancel, lemma_compare, lemma_ratio, lemma_readings, lemma_unrounded,
    logarithmic, nil, ordered, size, smaller, unit, unrounded, whole_usize, within, Order, Real,
    Sample,
};
use vstd::arithmetic::div_mod::lemma_fundamental_div_mod;
use vstd::prelude::*;

verus! {

/// The response at `w` is that of the transfer function with these coefficients: where
/// arithmetic never rounds, times the denominator at `w` it is the numerator there, as complex
/// numbers.
pub proof fn response_is_the_transfer_function<R: Real>(
    c: BiquadCoeffs<R>,
    w: R,
    of: spec_fn(R) -> real,
)
    requires
        unrounded::<R>(of),
        ({
            let w2 = R::decimal_of(2, 0).prod(w);
            let den_re = 1real + of(c.a1) * of(w.cosine()) + of(c.a2) * of(w2.cosine());
            let den_im = of(c.a1) * of(w.sine()) + of(c.a2) * of(w2.sine());
            den_re != 0real || den_im != 0real
        }),
    ensures
        ({
            let w2 = R::decimal_of(2, 0).prod(w);
            let den_re = 1real + of(c.a1) * of(w.cosine()) + of(c.a2) * of(w2.cosine());
            let den_im = -(of(c.a1) * of(w.sine()) + of(c.a2) * of(w2.sine()));
            let num_re = of(c.b0) + of(c.b1) * of(w.cosine()) + of(c.b2) * of(w2.cosine());
            let num_im = -(of(c.b1) * of(w.sine()) + of(c.b2) * of(w2.sine()));
            let (re, im) = (of(response(c, w).0), of(response(c, w).1));
            &&& re * den_re - im * den_im == num_re
            &&& re * den_im + im * den_re == num_im
        }),
{
    lemma_unrounded::<R>(of);
    let w2 = R::decimal_of(2, 0).prod(w);
    let dr = 1real + of(c.a1) * of(w.cosine()) + of(c.a2) * of(w2.cosine());
    let di = -(of(c.a1) * of(w.sine()) + of(c.a2) * of(w2.sine()));
    let nr = of(c.b0) + of(c.b1) * of(w.cosine()) + of(c.b2) * of(w2.cosine());
    let ni = -(of(c.b1) * of(w.sine()) + of(c.b2) * of(w2.sine()));
    let (re, im) = (of(response(c, w).0), of(response(c, w).1));
    let den_re = unit::<R>().sum(c.a1.prod(w.cosine())).sum(c.a2.prod(w2.cosine()));
    let den_im = c.a1.prod(w.sine()).sum(c.a2.prod(w2.sine())).opposite();
    let num_re = c.b0.sum(c.b1.prod(w.cosine())).sum(c.b2.prod(w2.cosine()));
    let num_im = c.b1.prod(w.sine()).sum(c.b2.prod(w2.sine())).opposite();
    assert(of(den_re) == dr && of(den_im) == di && of(num_re) == nr && of(num_im) == ni);
    let denom = den_re.prod(den_re).sum(den_im.prod(den_im));
    assert(of(denom) == dr * dr + di * di);
    let d = of(denom);
    assert(dr * dr >= 0real && di * di >= 0real) by (nonlinear_arith);
    assert(dr != 0real ==> dr * dr > 0real) by (nonlinear_arith);
    assert(di != 0real ==> di * di > 0real) by (nonlinear_arith);
    let top_re = num_re.prod(den_re).sum(num_im.prod(den_im));
    let top_im = num_im.prod(den_re).diff(num_re.prod(den_im));
    assert(of(top_re) == nr * dr + ni * di && of(top_im) == ni * dr - nr * di);
    assert(re == of(top_re) / d && im == of(top_im) / d);
    lemma_ratio(re, of(top_re), d);
    lemma_ratio(im, of(top_im), d);
    lemma_complex_quotient(re, im, nr, ni, dr, di, d);
    lemma_cancel(re * dr - im * di, nr, d);
    lemma_cancel(re * di + im * dr, ni, d);
}

/// The angle of a frequency is its share of a full turn per sample.
pub proof fn angles_are_shares_of_a_turn<R: Real>(f: R, fs: R, of: spec_fn(R) -> real)
    requires
        unrounded::<R>(of),
        of(fs) != 0real,
    ensures
        of(angular(f, fs)) * of(fs) == 2real * of(R::decimal_of(3141592653589793, -15)) * of(f),
{
    lemma_unrounded::<R>(of);
    let top = R::decimal_of(2, 0).prod(R::decimal_of(3141592653589793, -15)).prod(f);
    lemma_ratio(of(angular(f, fs)), of(top), of(fs));
}

/// A shape's coefficients are its design. Where arithmetic never rounds:
///
/// - The poles of a low-pass, a high-pass and a peak lie at the angle of `f0` with the
///   bandwidth that `q` gives; a peak's gain widens it.
/// - A low-pass lets a constant through as it is and takes out the alternation at half the
///   rate; a high-pass does the opposite.
/// - A peak lets both through as they are, and lifts its centre by the gain.
/// - A low shelf lifts a constant by the gain and lets the alternation through; a high
///   shelf does the opposite.
pub proof fn shapes_meet_their_design<R: Real>(
    kind: BiquadKind,
    fs: R,
    f0: R,
    q: R,
    gain_db: R,
    of: spec_fn(R) -> real,
)
    requires
        unrounded::<R>(of),
        of(q) != 0real,
        ({
            let w0 = angular(f0, fs);
            let amp = of(R::decimal_of(10, 0).power(gain_db.quot(R::decimal_of(40, 0))));
            let root = of(R::decimal_of(10, 0).power(gain_db.quot(R::decimal_of(40, 0))).root());
            let (c, bw) = (of(w0.cosine()), of(w0.sine()) / (2real * of(q)));
            let side = 2real * root * bw;
            &&& amp != 0real
            &&& kind is Lowpass || kind is Highpass ==> 1real + bw != 0real
            &&& kind is Peaking ==> 1real + bw / amp != 0real
            &&& kind is LowShelf ==> (amp + 1real) + (amp - 1real) * c + side != 0real
            &&& kind is HighShelf ==> (amp + 1real) - (amp - 1real) * c + side != 0real
        }),
    ensures
        ({
            let k = rbj(kind, fs, f0, q, gain_db);
            let (b0, b1, b2) = (of(k.b0), of(k.b1), of(k.b2));
            let (a1, a2) = (of(k.a1), of(k.a2));
            let w0 = angular(f0, fs);
            let amp = of(R::decimal_of(10, 0).power(gain_db.quot(R::decimal_of(40, 0))));
            &&& kind is Lowpass || kind is Highpass || kind is Peaking ==> {
                a1 == -(1real + a2) * of(w0.cosine())
            }
            &&& kind is Lowpass || kind is Highpass ==> {
                (1real - a2) * (2real * of(q)) == (1real + a2) * of(w0.sine())
            }
            &&& kind is Lowpass ==> {
                &&& b0 + b1 + b2 == 1real + a1 + a2
                &&& b0 - b1 + b2 == 0real
                &&& b0 == b2
            }
            &&& kind is Highpass ==> {
                &&& b0 + b1 + b2 == 0real
                &&& b0 - b1 + b2 == 1real - a1 + a2
                &&& b0 == b2
            }
            &&& kind is Peaking ==> {
                &&& b0 + b1 + b2 == 1real + a1 + a2
                &&& b0 - b1 + b2 == 1real - a1 + a2
                &&& b0 - b2 == amp * amp * (1real - a2)
                &&& amp * (1real - a2) * (2real * of(q)) == (1real + a2) * of(w0.sine())
            }
            &&& kind is LowShelf ==> {
                &&& b0 + b1 + b2 == amp * amp * (1real + a1 + a2)
                &&& b0 - b1 + b2 == 1real - a1 + a2
                &&& b0 - b2 == amp * (1real - a2)
            }
            &&& kind is HighShelf ==> {
                &&& b0 + b1 + b2 == 1real + a1 + a2
                &&& b0 - b1 + b2 == amp * amp * (1real - a1 + a2)
                &&& b0 - b2 == amp * (1real - a2)
            }
        }),
{
    lemma_unrounded::<R>(of);
    let w0 = angular(f0, fs);
    let amp = R::decimal_of(10, 0).power(gain_db.quot(R::decimal_of(40, 0)));
    let alpha = w0.sine().quot(two::<R>().prod(q));
    let (c, s, bw, g) = (of(w0.cosine()), of(w0.sine()), of(alpha), of(amp));
    let two_q = 2real * of(q);
    lemma_ratio(bw, s, two_q);
    let shape = raw_shape(kind, w0, alpha, amp);
    let inv = unit::<R>().quot(shape.3);
    let n = of(inv);
    let k = rbj(kind, fs, f0, q, gain_db);
    let rt = of(amp.root());
    let (a1, a2) = (of(k.a1), of(k.a2));
    let (b0, b1, b2) = (of(k.b0), of(k.b1), of(k.b2));
    match kind {
        BiquadKind::Lowpass => {
            lemma_ratio(n, 1real, 1real + bw);
            lemma_pass_poles(c, s, bw, two_q, n, a1, a2);
            lemma_pass_zeros(1real - c, n, b0, b1, b2);
            assert((1real - c) * n == n - c * n) by (nonlinear_arith);
        },
        BiquadKind::Highpass => {
            lemma_ratio(n, 1real, 1real + bw);
            lemma_pass_poles(c, s, bw, two_q, n, a1, a2);
            assert(-(1real + c) * n == -((1real + c) * n)) by (nonlinear_arith);
            lemma_pass_zeros(1real + c, n, b0, -b1, b2);
            assert((1real + c) * n == n + c * n) by (nonlinear_arith);
        },
        BiquadKind::Peaking => {
            let wide = bw / g;
            lemma_ratio(wide, bw, g);
            lemma_ratio(n, 1real, 1real + wide);
            lemma_times(wide * g, bw, two_q);
            assert(wide * (g * two_q) == (wide * g) * two_q) by (nonlinear_arith);
            lemma_pass_poles(c, s, wide, g * two_q, n, a1, a2);
            lemma_peak_zeros(g, bw, wide, n, b0, b2, a2);
            assert(g * (1real - a2) * two_q == (1real - a2) * (g * two_q)) by (nonlinear_arith);
        },
        BiquadKind::LowShelf => {
            let side = 2real * rt * bw;
            lemma_ratio(n, 1real, (g + 1real) + (g - 1real) * c + side);
            lemma_shelf(g, c, side, n, b0, b1, b2, a1, a2);
        },
        BiquadKind::HighShelf => {
            let side = 2real * rt * bw;
            lemma_ratio(n, 1real, (g + 1real) - (g - 1real) * c + side);
            assert((g - 1real) * (-c) == -((g - 1real) * c)) by (nonlinear_arith);
            assert((g + 1real) * (-c) == -((g + 1real) * c)) by (nonlinear_arith);
            let (near, far) = ((g - 1real) + (g + 1real) * c, (g - 1real) - (g + 1real) * c);
            assert(-((-2real * g * near) * n) == (2real * g * near) * n) by (nonlinear_arith);
            assert(-((2real * far) * n) == (-2real * far) * n) by (nonlinear_arith);
            lemma_shelf(g, -c, side, n, b0, -b1, b2, -a1, a2);
        },
    }
}

/// What the recursion is fed with fits: the products, and their sums in the order in
/// which they are taken.
pub open spec fn terms_fit(
    fits: spec_fn(real) -> bool,
    b0x0: real,
    b1x1: real,
    b2x2: real,
    a1y1: real,
    a2y2: real,
) -> bool {
    &&& fits(b0x0) && fits(b1x1) && fits(b2x2) && fits(a1y1) && fits(a2y2)
    &&& fits(b0x0 + b1x1)
    &&& fits(b0x0 + b1x1 + b2x2)
    &&& fits(b0x0 + b1x1 + b2x2 - a1y1)
    &&& fits(b0x0 + b1x1 + b2x2 - a1y1 - a2y2)
}

/// One sample through the recursion, where arithmetic is exact.
proof fn lemma_filter_step<T: Sample>(
    c: BiquadCoeffs<T::Real>,
    i: int,
    s: State<T::Real>,
    x: T,
    of: spec_fn(T::Real) -> real,
    fits: spec_fn(real) -> bool,
)
    requires
        exact::<T::Real>(of, fits),
        ordered::<T::Real>(of, fits),
        fits(0real),
        T::Real::decimal_of(1, -30).finite(),
        x.value().finite(),
        terms_fit(
            fits,
            of(c.b0) * of(x.value()),
            of(c.b1) * of(s.x1),
            of(c.b2) * of(s.x2),
            of(c.a1) * of(s.y1),
            of(c.a2) * of(s.y2),
        ),
        ({
            let y = of(c.b0) * of(x.value()) + of(c.b1) * of(s.x1) + of(c.b2) * of(s.x2) - of(c.a1)
                * of(s.y1) - of(c.a2) * of(s.y2);
            y == 0real || of(T::Real::decimal_of(1, -30)) <= size(y)
        }),
    ensures
        ({
            let step = FilterStep { c };
            let after = <FilterStep<T::Real> as LaneStep<T>>::next(&step, i, s, x);
            &&& after.x1 == x.value() && after.x2 == s.x1 && after.y2 == s.y1
            &&& <FilterStep<T::Real> as LaneStep<T>>::out(&step, i, s, x) == T::stored(after.y1)
            &&& of(after.y1) == of(c.b0) * of(x.value()) + of(c.b1) * of(s.x1) + of(c.b2) * of(
                s.x2,
            ) - of(c.a1) * of(s.y1) - of(c.a2) * of(s.y2)
        }),
{
    let x0 = x.value();
    let y = c.b0.prod(x0).sum(c.b1.prod(s.x1)).sum(c.b2.prod(s.x2)).diff(c.a1.prod(s.y1)).diff(
        c.a2.prod(s.y2),
    );
    assert(of(y) == of(c.b0) * of(x.value()) + of(c.b1) * of(s.x1) + of(c.b2) * of(s.x2) - of(
        c.a1,
    ) * of(s.y1) - of(c.a2) * of(s.y2));
    lemma_flushing_keeps(y, of, fits);
}

/// The output before it is stored that a channel gives for sample `k` of `xs`.
pub open spec fn output_at<T: Sample>(
    c: BiquadCoeffs<T::Real>,
    s: State<T::Real>,
    xs: Seq<T>,
    k: int,
) -> T::Real {
    lane_after::<T, FilterStep<T::Real>>(FilterStep { c }, s, xs, (k + 1) as nat).y1
}

/// The rendered signal obeys the transfer function of its coefficients. Where arithmetic
/// is exact, every output from the third on satisfies
/// `y[n] + a1 y[n-1] + a2 y[n-2] = b0 x[n] + b1 x[n-1] + b2 x[n-2]`, whatever state the
/// channel started from, and what is written is that output as it is stored.
pub proof fn rendering_obeys_the_transfer_function<T: Sample>(
    c: BiquadCoeffs<T::Real>,
    s: State<T::Real>,
    xs: Seq<T>,
    n: int,
    of: spec_fn(T::Real) -> real,
    fits: spec_fn(real) -> bool,
)
    requires
        exact::<T::Real>(of, fits),
        ordered::<T::Real>(of, fits),
        fits(0real),
        T::Real::decimal_of(1, -30).finite(),
        2 <= n < xs.len(),
        xs[n].value().finite() && xs[n - 1].value().finite() && xs[n - 2].value().finite(),
        ({
            let (x0, x1, x2) = (of(xs[n].value()), of(xs[n - 1].value()), of(xs[n - 2].value()));
            let y1 = of(output_at::<T>(c, s, xs, n - 1));
            let y2 = of(output_at::<T>(c, s, xs, n - 2));
            let y = of(c.b0) * x0 + of(c.b1) * x1 + of(c.b2) * x2 - of(c.a1) * y1 - of(c.a2) * y2;
            &&& terms_fit(
                fits,
                of(c.b0) * x0,
                of(c.b1) * x1,
                of(c.b2) * x2,
                of(c.a1) * y1,
                of(c.a2) * y2,
            )
            &&& y == 0real || of(T::Real::decimal_of(1, -30)) <= size(y)
        }),
    ensures
        ({
            let (x0, x1, x2) = (of(xs[n].value()), of(xs[n - 1].value()), of(xs[n - 2].value()));
            let y0 = of(output_at::<T>(c, s, xs, n));
            let y1 = of(output_at::<T>(c, s, xs, n - 1));
            let y2 = of(output_at::<T>(c, s, xs, n - 2));
            y0 + of(c.a1) * y1 + of(c.a2) * y2 == of(c.b0) * x0 + of(c.b1) * x1 + of(c.b2) * x2
        }),
        lane_run::<T, FilterStep<T::Real>>(FilterStep { c }, s, xs)[n] == T::stored(
            output_at::<T>(c, s, xs, n),
        ),
{
    let step = FilterStep { c };
    let before = lane_after::<T, FilterStep<T::Real>>(step, s, xs, n as nat);
    reveal_with_fuel(lane_after, 3);
    assert(before.x1 == xs[n - 1].value() && before.x2 == xs[n - 2].value());
    assert(before.y1 == output_at::<T>(c, s, xs, n - 1));
    assert(before.y2 == output_at::<T>(c, s, xs, n - 2));
    lemma_filter_step::<T>(c, n, before, xs[n], of, fits);
}

/// A constant stays. Where arithmetic is exact, a channel whose past inputs are `x` and
/// whose past outputs are `y`, with `y (1 + a1 + a2) = x (b0 + b1 + b2)`, answers `x` with
/// `y` again: what a constant settles at is the response at zero.
pub proof fn constants_settle_at_the_response_to_them<T: Sample>(
    c: BiquadCoeffs<T::Real>,
    i: int,
    s: State<T::Real>,
    x: T,
    of: spec_fn(T::Real) -> real,
    fits: spec_fn(real) -> bool,
)
    requires
        exact::<T::Real>(of, fits),
        ordered::<T::Real>(of, fits),
        fits(0real),
        T::Real::decimal_of(1, -30).finite(),
        x.value().finite(),
        of(s.x1) == of(x.value()) && of(s.x2) == of(x.value()),
        of(s.y2) == of(s.y1),
        of(s.y1) * (1real + of(c.a1) + of(c.a2)) == of(x.value()) * (of(c.b0) + of(c.b1) + of(
            c.b2,
        )),
        terms_fit(
            fits,
            of(c.b0) * of(x.value()),
            of(c.b1) * of(s.x1),
            of(c.b2) * of(s.x2),
            of(c.a1) * of(s.y1),
            of(c.a2) * of(s.y2),
        ),
        of(s.y1) == 0real || of(T::Real::decimal_of(1, -30)) <= size(of(s.y1)),
    ensures
        ({
            let step = FilterStep { c };
            let after = <FilterStep<T::Real> as LaneStep<T>>::next(&step, i, s, x);
            &&& of(after.x1) == of(x.value()) && of(after.x2) == of(x.value())
            &&& of(after.y1) == of(s.y1) && of(after.y2) == of(s.y1)
            &&& <FilterStep<T::Real> as LaneStep<T>>::out(&step, i, s, x) == T::stored(after.y1)
        }),
{
    let (vx, vy) = (of(x.value()), of(s.y1));
    let (b0, b1, b2) = (of(c.b0), of(c.b1), of(c.b2));
    let (a1, a2) = (of(c.a1), of(c.a2));
    lemma_spread(b0, b1, b2, 0real, 0real, vx);
    lemma_spread(1real, a1, a2, 0real, 0real, vy);
    lemma_swap(vx, b0 + b1 + b2);
    lemma_swap(vy, 1real + a1 + a2);
    assert(0real * vx == 0real && 0real * vy == 0real && 1real * vy == vy);
    lemma_times(of(s.x1), vx, b1);
    lemma_swap(b1, vx);
    assert(b0 * vx + b1 * vx + b2 * vx - a1 * vy - a2 * vy == vy);
    lemma_filter_step::<T>(c, i, s, x, of, fits);
}

/// Filtering silence is ringing out: on fixed-point numbers, a silent sample leads a
/// channel to the same state, and to the same output, as a drained frame.
pub proof fn filtering_silence_rings_out(
    c: BiquadCoeffs<Fixed>,
    i: int,
    s: State<Fixed>,
    x: Fixed,
    y: Fixed,
)
    requires
        x.raw == 0,
    ensures
        ({
            let (filter, ring) = (FilterStep { c }, RingStep { c });
            &&& <FilterStep<Fixed> as LaneStep<Fixed>>::next(&filter, i, s, x) == <RingStep<
                Fixed,
            > as LaneStep<Fixed>>::next(&ring, i, s, y)
            &&& <FilterStep<Fixed> as LaneStep<Fixed>>::out(&filter, i, s, x) == <RingStep<
                Fixed,
            > as LaneStep<Fixed>>::out(&ring, i, s, y)
        }),
{
    assert(c.b0.raw * 0 == 0);
    assert(c.b0.prod(x).raw == 0);
    let first = c.b1.prod(s.x1);
    assert(c.b0.prod(x).sum(first) == first);
}

/// Parameters in range are used as they are: a frame is filtered with the coefficients of the
/// kind, the rate and these parameters, on every channel, where the cutoff lies between 1 Hz
/// and just below half the rate.
pub proof fn parameters_in_range_set_the_coefficients<T: Sample>(
    m: BiquadModel<T::Real>,
    p: BiquadParams<T::Real>,
    x: Seq<T>,
    c: int,
)
    requires
        m.setup.rate >= 3,
        m.setup.params.len() == 3,
        within(p.cutoff_hz, m.setup.params[0].range.0, m.setup.params[0].range.1),
        within(p.q, m.setup.params[1].range.0, m.setup.params[1].range.1),
        within(p.gain_db, m.setup.params[2].range.0, m.setup.params[2].range.1),
        within(
            p.cutoff_hz,
            unit(),
            m.setup.fs.prod(T::Real::decimal_of(5, -1)).prod(T::Real::decimal_of(999, -3)),
        ),
        0 <= c < x.len(),
        x.len() == m.state.len(),
    ensures
        ({
            let k = rbj(m.setup.kind, m.setup.fs, p.cutoff_hz, p.q, p.gain_db);
            let step = FilterStep { c: k };
            &&& <Biquad<T> as FrameModel<T>>::next(m, p, x, Seq::empty()).coeffs == k
            &&& <Biquad<T> as FrameModel<T>>::next(m, p, x, Seq::empty()).state[c]
                == <FilterStep<T::Real> as LaneStep<T>>::next(&step, 0, m.state[c], x[c])
            &&& <Biquad<T> as FrameModel<T>>::emit(m, p, x, Seq::empty())[c] == <FilterStep<
                T::Real,
            > as LaneStep<T>>::out(&step, 0, m.state[c], x[c])
        }),
{
}

/// A filter counts as stable exactly where both its poles lie inside the unit circle: the
/// last coefficient is less than one in magnitude, and the first less than one more than it.
pub proof fn stability_is_the_triangle<R: Real>(
    c: BiquadCoeffs<R>,
    of: spec_fn(R) -> real,
    fits: spec_fn(real) -> bool,
)
    requires
        exact::<R>(of, fits),
        ordered::<R>(of, fits),
        fits(1real),
        fits(of(c.a1)) && fits(of(c.a2)) && fits(1real + of(c.a2)),
    ensures
        stable(c) <==> size(of(c.a2)) < 1real && size(of(c.a1)) < 1real + of(c.a2),
{
    lemma_readings(of, fits);
    let one = unit::<R>();
    lemma_compare(c.a2, one, of, fits);
    lemma_compare(c.a1, one, of, fits);
    lemma_compare(c.a2.magnitude(), one, of, fits);
    lemma_compare(c.a1.magnitude(), one.sum(c.a2), of, fits);
}

/// The magnitude that is read out is that of the transfer function: where arithmetic never
/// rounds and the hypotenuse is exact, its square times the square of the denominator's
/// magnitude is the square of the numerator's.
pub proof fn magnitudes_are_of_the_transfer_function<R: Real>(
    c: BiquadCoeffs<R>,
    w: R,
    r: R,
    of: spec_fn(R) -> real,
)
    requires
        unrounded::<R>(of),
        call_ensures(BiquadCoeffs::<R>::magnitude, (&c, w), r),
        forall|a: R, b: R|
            of(#[trigger] a.hypotenuse(b)) * of(a.hypotenuse(b)) == of(a) * of(a) + of(b) * of(b),
        ({
            let w2 = R::decimal_of(2, 0).prod(w);
            let den_re = 1real + of(c.a1) * of(w.cosine()) + of(c.a2) * of(w2.cosine());
            let den_im = of(c.a1) * of(w.sine()) + of(c.a2) * of(w2.sine());
            den_re != 0real || den_im != 0real
        }),
    ensures
        ({
            let w2 = R::decimal_of(2, 0).prod(w);
            let den_re = 1real + of(c.a1) * of(w.cosine()) + of(c.a2) * of(w2.cosine());
            let den_im = -(of(c.a1) * of(w.sine()) + of(c.a2) * of(w2.sine()));
            let num_re = of(c.b0) + of(c.b1) * of(w.cosine()) + of(c.b2) * of(w2.cosine());
            let num_im = -(of(c.b1) * of(w.sine()) + of(c.b2) * of(w2.sine()));
            (of(r) * of(r)) * (den_re * den_re + den_im * den_im) == num_re * num_re + num_im
                * num_im
        }),
{
    response_is_the_transfer_function(c, w, of);
    let w2 = R::decimal_of(2, 0).prod(w);
    let den_re = 1real + of(c.a1) * of(w.cosine()) + of(c.a2) * of(w2.cosine());
    let den_im = -(of(c.a1) * of(w.sine()) + of(c.a2) * of(w2.sine()));
    let num_re = of(c.b0) + of(c.b1) * of(w.cosine()) + of(c.b2) * of(w2.cosine());
    let num_im = -(of(c.b1) * of(w.sine()) + of(c.b2) * of(w2.sine()));
    let (re, im) = (of(response(c, w).0), of(response(c, w).1));
    lemma_norm(re, im, den_re, den_im);
    lemma_magnitude(re, im, den_re, den_im, num_re, num_im, of(r) * of(r));
}

proof fn lemma_magnitude(
    re: real,
    im: real,
    dr: real,
    di: real,
    nr: real,
    ni: real,
    sq: real,
)
    requires
        re * dr - im * di == nr,
        re * di + im * dr == ni,
        sq == re * re + im * im,
    ensures
        sq * (dr * dr + di * di) == nr * nr + ni * ni,
{
    lemma_norm(re, im, dr, di);
    let (x, y) = (re * dr - im * di, re * di + im * dr);
    lemma_times(x, nr, x);
    lemma_times(x, nr, nr);
    lemma_swap(nr, x);
    lemma_times(y, ni, y);
    lemma_times(y, ni, ni);
    lemma_swap(ni, y);
    lemma_times(sq, re * re + im * im, dr * dr + di * di);
}

/// The weight of a tap of a moving average is one part of the taps.
pub proof fn taps_share_unity<R: Real>(taps: usize, of: spec_fn(R) -> real)
    requires
        unrounded::<R>(of),
        taps > 0,
    ensures
        of(tap_scale::<R>(taps)) * (taps as real) == 1real,
{
    lemma_unrounded::<R>(of);
    let fits = |x: real| true;
    assert(fits(taps as u64 as real));
    lemma_ratio(of(tap_scale::<R>(taps)), 1real, taps as real);
}

/// Cutoffs are kept in band: whatever is asked for, a biquad runs between 1 Hz and 999
/// thousandths of half the rate, and a cutoff in that band is kept.
pub proof fn cutoffs_are_kept_in_band<R: Real>(f0: R, fs: R)
    requires
        unit::<R>().finite(),
        fs.prod(R::decimal_of(5, -1)).prod(R::decimal_of(999, -3)).finite(),
        at_most(unit(), fs.prod(R::decimal_of(5, -1)).prod(R::decimal_of(999, -3))),
    ensures
        within(
            cutoff_in_band(f0, fs),
            unit(),
            fs.prod(R::decimal_of(5, -1)).prod(R::decimal_of(999, -3)),
        ),
        within(f0, unit(), fs.prod(R::decimal_of(5, -1)).prod(R::decimal_of(999, -3)))
            ==> cutoff_in_band(f0, fs) == f0,
{
}

/// A drain does not end before every value of the state has decayed: where all are finite,
/// a decayed state holds no magnitude at or above a millionth.
pub proof fn decayed_states_are_small<R: Real>(s: Seq<State<R>>, c: int)
    requires
        nil::<R>().finite() && R::decimal_of(1, -6).finite(),
        decayed(s),
        0 <= c < s.len(),
        forall|k: int|
            0 <= k < s.len() ==> {
                let t = #[trigger] s[k];
                t.x1.magnitude().finite() && t.x2.magnitude().finite() && t.y1.magnitude().finite()
                    && t.y2.magnitude().finite()
            },
    ensures
        s[c].x1.magnitude().below(R::decimal_of(1, -6)),
        s[c].x2.magnitude().below(R::decimal_of(1, -6)),
        s[c].y1.magnitude().below(R::decimal_of(1, -6)),
        s[c].y2.magnitude().below(R::decimal_of(1, -6)),
{
    lemma_state_peak(s, s.len() as int, c);
}

proof fn lemma_state_peak<R: Real>(s: Seq<State<R>>, n: int, c: int)
    requires
        nil::<R>().finite(),
        0 <= n <= s.len(),
        forall|k: int|
            0 <= k < s.len() ==> {
                let t = #[trigger] s[k];
                t.x1.magnitude().finite() && t.x2.magnitude().finite() && t.y1.magnitude().finite()
                    && t.y2.magnitude().finite()
            },
    ensures
        state_peak(s, n).finite(),
        0 <= c < n ==> {
            let p = state_peak(s, n).rank();
            &&& s[c].x1.magnitude().rank() <= p
            &&& s[c].x2.magnitude().rank() <= p
            &&& s[c].y1.magnitude().rank() <= p
            &&& s[c].y2.magnitude().rank() <= p
        },
    decreases n,
{
    if n > 0 {
        lemma_state_peak(s, n - 1, c);
        let t = s[n - 1];
        assert(t.x1.magnitude().finite());
    }
}

/// A product of fixed-point numbers is short of the true one by less than one step.
proof fn lemma_floored_product(a: Fixed, b: Fixed)
    requires
        -0x10_0000_0000 <= a.raw <= 0x10_0000_0000,
        -0x10_0000_0000_0000 <= b.raw <= 0x10_0000_0000_0000,
    ensures
        -0x100_0000_0000_0000 <= a.prod(b).raw <= 0x100_0000_0000_0000,
        a.prod(b).raw * ONE <= a.raw * b.raw < a.prod(b).raw * ONE + ONE,
{
    let p = a.raw * b.raw;
    assert(-0x100_0000_0000_0000_0000_0000 <= p <= 0x100_0000_0000_0000_0000_0000)
        by (nonlinear_arith)
        requires
            p == a.raw * b.raw,
            -0x10_0000_0000 <= a.raw <= 0x10_0000_0000,
            -0x10_0000_0000_0000 <= b.raw <= 0x10_0000_0000_0000,
    ;
    lemma_fundamental_div_mod(p, ONE as int);
}

/// The rendered signal obeys the transfer function of its coefficients on every fixed-point
/// signal: with coefficients of at most sixteen and values of at most about a million, the
/// two sides of `y[n] + a1 y[n-1] + a2 y[n-2] = b0 x[n] + b1 x[n-1] + b2 x[n-2]` differ by less
/// than three steps of the representation.
pub proof fn fixed_point_rendering_stays_near_the_transfer_function(
    c: BiquadCoeffs<Fixed>,
    i: int,
    s: State<Fixed>,
    x: Fixed,
)
    requires
        -0x10_0000_0000 <= c.b0.raw <= 0x10_0000_0000,
        -0x10_0000_0000 <= c.b1.raw <= 0x10_0000_0000,
        -0x10_0000_0000 <= c.b2.raw <= 0x10_0000_0000,
        -0x10_0000_0000 <= c.a1.raw <= 0x10_0000_0000,
        -0x10_0000_0000 <= c.a2.raw <= 0x10_0000_0000,
        -0x10_0000_0000_0000 <= x.raw <= 0x10_0000_0000_0000,
        -0x10_0000_0000_0000 <= s.x1.raw <= 0x10_0000_0000_0000,
        -0x10_0000_0000_0000 <= s.x2.raw <= 0x10_0000_0000_0000,
        -0x10_0000_0000_0000 <= s.y1.raw <= 0x10_0000_0000_0000,
        -0x10_0000_0000_0000 <= s.y2.raw <= 0x10_0000_0000_0000,
    ensures
        ({
            let after = <FilterStep<Fixed> as LaneStep<Fixed>>::next(&FilterStep { c }, i, s, x);
            let gap = after.y1.raw * ONE + c.a1.raw * s.y1.raw + c.a2.raw * s.y2.raw - (c.b0.raw
                * x.raw + c.b1.raw * s.x1.raw + c.b2.raw * s.x2.raw);
            &&& after.x1 == x && after.x2 == s.x1 && after.y2 == s.y1
            &&& -3 * ONE < gap < 3 * ONE
        }),
{
    lemma_floored_product(c.b0, x);
    lemma_floored_product(c.b1, s.x1);
    lemma_floored_product(c.b2, s.x2);
    lemma_floored_product(c.a1, s.y1);
    lemma_floored_product(c.a2, s.y2);
    let y = c.b0.prod(x).sum(c.b1.prod(s.x1)).sum(c.b2.prod(s.x2)).diff(c.a1.prod(s.y1)).diff(
        c.a2.prod(s.y2),
    );
    assert(y.raw == c.b0.prod(x).raw + c.b1.prod(s.x1).raw + c.b2.prod(s.x2).raw - c.a1.prod(
        s.y1,
    ).raw - c.a2.prod(s.y2).raw);
    fixed_point_flushes_nothing(y);
}

/// The declared tail outlasts the slowest decay: where arithmetic never rounds and rounding
/// up gives at least the number, the decay of the slowest pole over the tail covers the way
/// from a thousand to a millionth.
pub proof fn tails_outlast_the_slowest_pole<R: Real>(
    params: Seq<ParamInfo<R>>,
    fs: R,
    of: spec_fn(R) -> real,
    ln: spec_fn(real) -> real,
)
    requires
        unrounded::<R>(of),
        logarithmic::<R>(of, ln),
        of(R::decimal_of(1, -6)) > 0real,
        of(R::decimal_of(1, 3)) == 1000real,
        forall|a: R| of(a) <= whole_usize(#[trigger] a.ceiling()) as real,
        ({
            let low = angular(cutoff_in_band(params[0].range.0, fs), fs).sine();
            let high = angular(cutoff_in_band(params[0].range.1, fs), fs).sine();
            let amp = R::decimal_of(10, 0).power(params[2].range.1.quot(R::decimal_of(40, 0)));
            let bw = smaller(low, high).quot(
                R::decimal_of(2, 0).prod(params[1].range.1).prod(amp),
            );
            let radius = of(unit::<R>().diff(bw).quot(unit::<R>().sum(bw)).root());
            radius > 0real && ln(radius) < 0real
        }),
    ensures
        ({
            let low = angular(cutoff_in_band(params[0].range.0, fs), fs).sine();
            let high = angular(cutoff_in_band(params[0].range.1, fs), fs).sine();
            let amp = R::decimal_of(10, 0).power(params[2].range.1.quot(R::decimal_of(40, 0)));
            let bw = smaller(low, high).quot(
                R::decimal_of(2, 0).prod(params[1].range.1).prod(amp),
            );
            let radius = of(unit::<R>().diff(bw).quot(unit::<R>().sum(bw)).root());
            (declared_tail(params, fs) as real) * (-ln(radius)) >= ln(
                1000real / of(R::decimal_of(1, -6)),
            )
        }),
{
    lemma_unrounded::<R>(of);
    let low = angular(cutoff_in_band(params[0].range.0, fs), fs).sine();
    let high = angular(cutoff_in_band(params[0].range.1, fs), fs).sine();
    let amp = R::decimal_of(10, 0).power(params[2].range.1.quot(R::decimal_of(40, 0)));
    let bw = smaller(low, high).quot(R::decimal_of(2, 0).prod(params[1].range.1).prod(amp));
    let root = unit::<R>().diff(bw).quot(unit::<R>().sum(bw)).root();
    let tiny = of(R::decimal_of(1, -6));
    let way = R::decimal_of(1, 3).quot(R::decimal_of(1, -6));
    let k = root.logarithm().opposite();
    let frames = way.logarithm().quot(k);
    let t = -ln(of(root));
    assert(of(k) == t);
    lemma_ratio(of(frames), of(way.logarithm()), t);
    let n = whole_usize(frames.ceiling());
    assert(of(frames) <= n as real);
    let (a, b) = (of(frames), n as real);
    assert(a * t <= b * t) by (nonlinear_arith)
        requires
            a <= b,
            t > 0real,
    ;
    lemma_ratio(of(way), of(R::decimal_of(1, 3)), tiny);
    assert(of(way) > 0real) by (nonlinear_arith)
        requires
            of(way) * tiny == 1000real,
            tiny > 0real,
    ;
}

/// A state of small values has decayed: a drain goes on no longer than it must.
pub proof fn small_states_have_decayed<R: Real>(s: Seq<State<R>>)
    requires
        nil::<R>().finite() && R::decimal_of(1, -6).finite(),
        nil::<R>().below(R::decimal_of(1, -6)),
        forall|k: int|
            0 <= k < s.len() ==> {
                let t = #[trigger] s[k];
                t.x1.magnitude().below(R::decimal_of(1, -6))
                    && t.x2.magnitude().below(R::decimal_of(1, -6))
                    && t.y1.magnitude().below(R::decimal_of(1, -6))
                    && t.y2.magnitude().below(R::decimal_of(1, -6))
            },
    ensures
        decayed(s),
{
    lemma_small_peak(s, s.len() as int);
}

proof fn lemma_small_peak<R: Real>(s: Seq<State<R>>, n: int)
    requires
        0 <= n <= s.len(),
        nil::<R>().below(R::decimal_of(1, -6)),
        forall|k: int|
            0 <= k < s.len() ==> {
                let t = #[trigger] s[k];
                t.x1.magnitude().below(R::decimal_of(1, -6))
                    && t.x2.magnitude().below(R::decimal_of(1, -6))
                    && t.y1.magnitude().below(R::decimal_of(1, -6))
                    && t.y2.magnitude().below(R::decimal_of(1, -6))
            },
    ensures
        state_peak(s, n).below(R::decimal_of(1, -6)),
    decreases n,
{
    if n > 0 {
        lemma_small_peak(s, n - 1);
        let t = s[n - 1];
        assert(t.x1.magnitude().below(R::decimal_of(1, -6)));
    }
}

/// `frames` silent frames on `channels` channels.
pub open spec fn silence(channels: nat, frames: nat) -> Seq<Seq<Fixed>> {
    Seq::new(channels, |ch: int| Seq::new(frames, |i: int| Fixed { raw: 0 }))
}

proof fn lemma_ringing_lane(
    c: BiquadCoeffs<Fixed>,
    s: State<Fixed>,
    xs: Seq<Fixed>,
    frames: nat,
    n: nat,
)
    requires
        n <= frames,
    ensures
        lane_after::<Fixed, RingStep<Fixed>>(RingStep { c }, s, xs, n) == lane_after::<
            Fixed,
            FilterStep<Fixed>,
        >(FilterStep { c }, s, Seq::new(frames, |i: int| Fixed { raw: 0 }), n),
    decreases n,
{
    if n > 0 {
        let still = Seq::new(frames, |i: int| Fixed { raw: 0 });
        lemma_ringing_lane(c, s, xs, frames, (n - 1) as nat);
        let was = lane_after::<Fixed, FilterStep<Fixed>>(
            FilterStep { c },
            s,
            still,
            (n - 1) as nat,
        );
        filtering_silence_rings_out(c, n - 1, was, still[n - 1], xs[n - 1]);
    }
}

/// Draining is filtering silence: on fixed-point numbers, a drain writes what the last
/// coefficients make of silence and leaves the state behind that. It fills its room until it is
/// done, and it is done exactly when the tail is over or the state has decayed.
pub proof fn draining_is_filtering_silence(
    m: BiquadModel<Fixed>,
    room: usize,
    before: Seq<Seq<Fixed>>,
    r: Produced,
    after: BiquadModel<Fixed>,
    out: Seq<Seq<Fixed>>,
)
    requires
        biquad_drain::<Fixed>(m, room, before, r, after, out),
        m.flushed <= m.setup.tail_bound,
        before.len() == m.state.len(),
        forall|ch: int| 0 <= ch < before.len() ==> room <= (#[trigger] before[ch]).len(),
    ensures
        ({
            let still = silence(before.len(), r.frames as nat);
            let step = FilterStep { c: m.coeffs };
            &&& heads(out, r.frames as int) == lanes_run::<Fixed, FilterStep<Fixed>>(
                step,
                m.state,
                still,
            )
            &&& after.state == lanes_after::<Fixed, FilterStep<Fixed>>(
                step,
                m.state,
                still,
                r.frames as nat,
            )
            &&& !r.done ==> r.frames == room
            &&& r.done ==> m.flushed + r.frames == m.setup.tail_bound || decayed(after.state)
            &&& decayed(after.state) ==> r.done
            &&& m.flushed + r.frames == m.setup.tail_bound ==> r.done
        }),
{
    let n = r.frames as nat;
    let still = silence(before.len(), n);
    let (step, ring) = (FilterStep { c: m.coeffs }, RingStep { c: m.coeffs });
    let told = lanes_run::<Fixed, FilterStep<Fixed>>(step, m.state, still);
    let state = lanes_after::<Fixed, FilterStep<Fixed>>(step, m.state, still, n);
    let part = heads(before, n as int);
    if m.flushed >= m.setup.tail_bound || decayed(m.state) {
        assert(heads(out, 0) =~= told) by {
            assert forall|ch: int| 0 <= ch < before.len() implies heads(out, 0)[ch]
                == told[ch] by {
                assert(heads(out, 0)[ch] =~= told[ch]);
            }
        }
        assert(m.state =~= state);
    } else {
        let rung = lanes_run::<Fixed, RingStep<Fixed>>(ring, m.state, part);
        assert forall|ch: int| 0 <= ch < before.len() implies rung[ch] == told[ch] by {
            assert forall|i: int| 0 <= i < n implies rung[ch][i] == told[ch][i] by {
                lemma_ringing_lane(m.coeffs, m.state[ch], part[ch], n, i as nat);
                assert(still[ch] =~= Seq::new(n, |i: int| Fixed { raw: 0 }));
                filtering_silence_rings_out(
                    m.coeffs,
                    i,
                    lane_after::<Fixed, FilterStep<Fixed>>(step, m.state[ch], still[ch], i as nat),
                    still[ch][i],
                    part[ch][i],
                );
            }
            assert(rung[ch] =~= told[ch]);
        }
        assert(rung =~= told);
        assert forall|ch: int| 0 <= ch < before.len() implies after.state[ch] == state[ch] by {
            lemma_ringing_lane(m.coeffs, m.state[ch], part[ch], n, n);
            assert(still[ch] =~= Seq::new(n, |i: int| Fixed { raw: 0 }));
        }
        assert(after.state =~= state);
    }
}

} // verus!
