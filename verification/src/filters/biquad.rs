//! Second-order filters and frequency-response readouts.
//!
//! [`Biquad`] implements low-pass, high-pass, low-shelf, high-shelf, and peaking
//! shapes in Direct Form I. Every shape declares cutoff, quality, and gain;
//! low-pass and high-pass ignore the gain. Recursive state below a denormal
//! floor is flushed to zero.

use crate::contract::block::{AudioBlockMut, IoMode};
use crate::contract::context::{counted_calls_stay_within, delivered, Produced, SubBlock, Tail};
use crate::contract::error::DspError;
use crate::contract::param::{conventional, ParamId, ParamInfo, Unit};
use crate::contract::spec::ProcessSpec;
use crate::contract::traits::{kernel_answers_stand, FrameModel, Kernel, Params, Standing};
use crate::dsp::lanes::{
    drain_lanes, heads, lane_states, lanes_after, lanes_next, lanes_out, lanes_run,
    lemma_lanes_are_frames, lemma_same_start, run_lanes, LaneStep,
};
use crate::dsp::memory::{bytes_of, empty_plan, filled, refill, saturated, MemoryLayout};
use crate::dsp::sanitize::{finite_or_zero, flush_denormal, flushed, sane};
use crate::dsp::schedule::rendering_keeps_rest;
use crate::dsp::smoother::SmootherBank;
use crate::fixed::{fixed_point_unity, Fixed};
use crate::number::{
    at_most, at_most_of, clamp_to, clamped, larger, max_of, min_of, nil, smaller, to_usize, unit,
    whole_usize, Order, Real, Sample,
};
use vstd::layout::size_of;
use vstd::prelude::*;

verus! {

/// Smoothed parameter values for [`Biquad`].
#[derive(Debug, PartialEq)]
pub struct BiquadParams<R> {
    /// Cutoff or center frequency in Hz.
    pub cutoff_hz: R,
    /// Quality factor, which controls resonance or transition shape.
    pub q: R,
    /// Shelf or peak gain in dB.
    pub gain_db: R,
}

impl<R: Copy> Copy for BiquadParams<R> {

}

impl<R: Copy> Clone for BiquadParams<R> {
    fn clone(&self) -> (r: Self)
        ensures
            r == *self,
    {
        *self
    }
}

impl<R: Real> BiquadParams<R> {
    /// Number of the id of `cutoff_hz`.
    pub const CUTOFF_HZ: u32 = 0;

    /// Number of the id of `q`.
    pub const Q: u32 = 1;

    /// Number of the id of `gain_db`.
    pub const GAIN_DB: u32 = 2;
}

impl<R: Real> Params<R> for BiquadParams<R> {
    const COUNT: usize = 3;

    open spec fn load(values: Seq<R>) -> Self {
        BiquadParams { cutoff_hz: values[0], q: values[1], gain_db: values[2] }
    }

    fn from_bank(bank: &SmootherBank<R>) -> (r: Self) {
        match (bank.value_at(0), bank.value_at(1), bank.value_at(2)) {
            (Some(cutoff_hz), Some(q), Some(gain_db)) => BiquadParams { cutoff_hz, q, gain_db },
            _ => BiquadParams { cutoff_hz: R::zero(), q: R::zero(), gain_db: R::zero() },
        }
    }
}

/// Response shape.
#[derive(Clone, Copy, Debug, PartialEq, Eq, Structural)]
#[non_exhaustive]
pub enum BiquadKind {
    /// 12 dB/octave low-pass.
    Lowpass,
    /// 12 dB/octave high-pass.
    Highpass,
    /// Low-frequency shelf: boosts or cuts below the corner.
    LowShelf,
    /// High-frequency shelf: boosts or cuts above the corner.
    HighShelf,
    /// Peaking filter: boosts or cuts around the center.
    Peaking,
}

/// Construction settings for [`Biquad`].
#[derive(Debug, PartialEq)]
pub struct BiquadSettings<R> {
    /// Filter response shape.
    pub kind: BiquadKind,
    /// Initial cutoff or center frequency in Hz.
    pub cutoff_hz: R,
    /// Initial quality factor or shelf transition control.
    pub q: R,
    /// Initial shelf or peak gain in dB.
    pub gain_db: R,
}

impl<R: Copy> Copy for BiquadSettings<R> {

}

impl<R: Copy> Clone for BiquadSettings<R> {
    fn clone(&self) -> (r: Self)
        ensures
            r == *self,
    {
        *self
    }
}

/// Default settings of a shape: 1 kHz, quality `1/sqrt(2)`, and 0 dB.
pub open spec fn default_settings<R: Real>(kind: BiquadKind) -> BiquadSettings<R> {
    BiquadSettings {
        kind,
        cutoff_hz: R::decimal_of(1000, 0),
        q: R::decimal_of(7071067811865476, -16),
        gain_db: nil(),
    }
}

impl<R: Real> BiquadSettings<R> {
    /// Default low-pass settings.
    pub fn new() -> (r: Self)
        ensures
            r == default_settings::<R>(BiquadKind::Lowpass),
    {
        Self {
            kind: BiquadKind::Lowpass,
            cutoff_hz: R::decimal(1000, 0),
            q: R::decimal(7071067811865476, -16),
            gain_db: R::zero(),
        }
    }

    /// Low-pass settings.
    pub fn lowpass() -> (r: Self)
        ensures
            r == default_settings::<R>(BiquadKind::Lowpass),
    {
        Self::new()
    }

    /// High-pass settings.
    pub fn highpass() -> (r: Self)
        ensures
            r == default_settings::<R>(BiquadKind::Highpass),
    {
        Self::new().kind(BiquadKind::Highpass)
    }

    /// Low-shelf settings.
    pub fn low_shelf() -> (r: Self)
        ensures
            r == default_settings::<R>(BiquadKind::LowShelf),
    {
        Self::new().kind(BiquadKind::LowShelf)
    }

    /// High-shelf settings.
    pub fn high_shelf() -> (r: Self)
        ensures
            r == default_settings::<R>(BiquadKind::HighShelf),
    {
        Self::new().kind(BiquadKind::HighShelf)
    }

    /// Peaking-filter settings.
    pub fn peaking() -> (r: Self)
        ensures
            r == default_settings::<R>(BiquadKind::Peaking),
    {
        Self::new().kind(BiquadKind::Peaking)
    }

    /// Set the response shape.
    pub fn kind(self, kind: BiquadKind) -> (r: Self)
        ensures
            r == (BiquadSettings { kind, ..self }),
    {
        BiquadSettings { kind, ..self }
    }

    /// Set the initial cutoff or center frequency in Hz.
    pub fn cutoff_hz(self, cutoff_hz: R) -> (r: Self)
        ensures
            r == (BiquadSettings { cutoff_hz, ..self }),
    {
        BiquadSettings { cutoff_hz, ..self }
    }

    /// Set the initial quality factor or shelf transition control.
    pub fn q(self, q: R) -> (r: Self)
        ensures
            r == (BiquadSettings { q, ..self }),
    {
        BiquadSettings { q, ..self }
    }

    /// Set the initial shelf or peak gain in dB.
    pub fn gain_db(self, gain_db: R) -> (r: Self)
        ensures
            r == (BiquadSettings { gain_db, ..self }),
    {
        BiquadSettings { gain_db, ..self }
    }
}

impl<R: Real> Default for BiquadSettings<R> {
    fn default() -> (r: Self)
        ensures
            r == default_settings::<R>(BiquadKind::Lowpass),
    {
        Self::new()
    }
}

// ---------------------------------------------------------------------------
// Coefficients
// ---------------------------------------------------------------------------

/// Normalized biquad coefficients and response readouts.
#[derive(Debug, PartialEq)]
pub struct BiquadCoeffs<R> {
    /// Feed-forward coefficient for `x[n]`.
    pub b0: R,
    /// Feed-forward coefficient for `x[n-1]`.
    pub b1: R,
    /// Feed-forward coefficient for `x[n-2]`.
    pub b2: R,
    /// Feedback coefficient for `y[n-1]`.
    pub a1: R,
    /// Feedback coefficient for `y[n-2]`.
    pub a2: R,
}

impl<R: Copy> Copy for BiquadCoeffs<R> {

}

impl<R: Copy> Clone for BiquadCoeffs<R> {
    fn clone(&self) -> (r: Self)
        ensures
            r == *self,
    {
        *self
    }
}

/// Two.
pub open spec fn two<R: Real>() -> R {
    R::decimal_of(2, 0)
}

/// Pi.
pub open spec fn pi<R: Real>() -> R {
    R::decimal_of(3141592653589793, -15)
}

/// `2 pi f / fs`, in radians per sample.
pub open spec fn angular<R: Real>(f: R, fs: R) -> R {
    two::<R>().prod(pi()).prod(f).quot(fs)
}

/// Unnormalized coefficients `(b0, b1, b2, a0, a1, a2)` of a shape at angle
/// `w0`, where `alpha` is the bandwidth term and `a` the amplitude.
pub open spec fn raw_shape<R: Real>(kind: BiquadKind, w0: R, alpha: R, a: R) -> (R, R, R, R, R, R) {
    let one = unit::<R>();
    let c = w0.cosine();
    let half = R::decimal_of(5, -1);
    let minus_two = R::decimal_of(-2, 0);
    let am1 = a.diff(one);
    let ap1 = a.sum(one);
    let beta = two::<R>().prod(a.root()).prod(alpha);
    match kind {
        BiquadKind::Lowpass => (
            one.diff(c).prod(half),
            one.diff(c),
            one.diff(c).prod(half),
            one.sum(alpha),
            minus_two.prod(c),
            one.diff(alpha),
        ),
        BiquadKind::Highpass => (
            one.sum(c).prod(half),
            one.sum(c).opposite(),
            one.sum(c).prod(half),
            one.sum(alpha),
            minus_two.prod(c),
            one.diff(alpha),
        ),
        BiquadKind::Peaking => (
            one.sum(alpha.prod(a)),
            minus_two.prod(c),
            one.diff(alpha.prod(a)),
            one.sum(alpha.quot(a)),
            minus_two.prod(c),
            one.diff(alpha.quot(a)),
        ),
        BiquadKind::LowShelf => (
            a.prod(ap1.diff(am1.prod(c)).sum(beta)),
            two::<R>().prod(a).prod(am1.diff(ap1.prod(c))),
            a.prod(ap1.diff(am1.prod(c)).diff(beta)),
            ap1.sum(am1.prod(c)).sum(beta),
            minus_two.prod(am1.sum(ap1.prod(c))),
            ap1.sum(am1.prod(c)).diff(beta),
        ),
        BiquadKind::HighShelf => (
            a.prod(ap1.sum(am1.prod(c)).sum(beta)),
            minus_two.prod(a).prod(am1.sum(ap1.prod(c))),
            a.prod(ap1.sum(am1.prod(c)).diff(beta)),
            ap1.diff(am1.prod(c)).sum(beta),
            two::<R>().prod(am1.diff(ap1.prod(c))),
            ap1.diff(am1.prod(c)).diff(beta),
        ),
    }
}

/// The normalized coefficients of a shape.
pub open spec fn rbj<R: Real>(kind: BiquadKind, fs: R, f0: R, q: R, gain_db: R) -> BiquadCoeffs<R> {
    let w0 = angular(f0, fs);
    let alpha = w0.sine().quot(two::<R>().prod(q));
    let a = R::decimal_of(10, 0).power(gain_db.quot(R::decimal_of(40, 0)));
    let (b0, b1, b2, a0, a1, a2) = raw_shape(kind, w0, alpha, a);
    let inv = unit::<R>().quot(a0);
    BiquadCoeffs {
        b0: b0.prod(inv),
        b1: b1.prod(inv),
        b2: b2.prod(inv),
        a1: a1.prod(inv),
        a2: a2.prod(inv),
    }
}

/// Both poles are strictly inside the unit circle.
pub open spec fn stable<R: Real>(c: BiquadCoeffs<R>) -> bool {
    c.a2.magnitude().below(unit()) && c.a1.magnitude().below(unit::<R>().sum(c.a2))
}

/// The inputs are inside the filter domain.
pub open spec fn in_domain<R: Real>(fs: R, f0: R, q: R, gain_db: R) -> bool {
    &&& fs.finite() && f0.finite() && q.finite() && gain_db.finite()
    &&& !at_most(fs, nil()) && !at_most(f0, nil())
    &&& !at_most(fs.prod(R::decimal_of(5, -1)), f0)
    &&& !at_most(q, nil())
}

/// Every coefficient is finite.
pub open spec fn finite_coeffs<R: Real>(c: BiquadCoeffs<R>) -> bool {
    c.b0.finite() && c.b1.finite() && c.b2.finite() && c.a1.finite() && c.a2.finite()
}

/// The complex response at `w` radians per sample, as real and imaginary part.
pub open spec fn response<R: Real>(c: BiquadCoeffs<R>, w: R) -> (R, R) {
    let (cos1, sin1) = (w.cosine(), w.sine());
    let w2 = two::<R>().prod(w);
    let (cos2, sin2) = (w2.cosine(), w2.sine());
    let num_re = c.b0.sum(c.b1.prod(cos1)).sum(c.b2.prod(cos2));
    let num_im = c.b1.prod(sin1).sum(c.b2.prod(sin2)).opposite();
    let den_re = unit::<R>().sum(c.a1.prod(cos1)).sum(c.a2.prod(cos2));
    let den_im = c.a1.prod(sin1).sum(c.a2.prod(sin2)).opposite();
    let denom = den_re.prod(den_re).sum(den_im.prod(den_im));
    (
        num_re.prod(den_re).sum(num_im.prod(den_im)).quot(denom),
        num_im.prod(den_re).diff(num_re.prod(den_im)).quot(denom),
    )
}

impl<R: Real> BiquadCoeffs<R> {
    /// Checked coefficients for `kind` at cutoff or center `f0` Hz.
    ///
    /// Every value must be finite, the rate positive, the frequency between zero
    /// and half the rate, the quality positive, and the resulting coefficients
    /// finite and stable.
    pub fn try_rbj(kind: BiquadKind, fs: R, f0: R, q: R, gain_db: R) -> (r: Result<Self, DspError>)
        ensures
            !in_domain(fs, f0, q, gain_db) ==> r == Err::<Self, _>(
                DspError::InvalidParam(
                    "biquad coefficient inputs must be finite and inside the filter domain",
                ),
            ),
            in_domain(fs, f0, q, gain_db) ==> r == ({
                let c = rbj(kind, fs, f0, q, gain_db);
                if finite_coeffs(c) && stable(c) {
                    Ok(c)
                } else {
                    Err(
                        DspError::InvalidParam(
                            "biquad inputs must produce finite stable coefficients",
                        ),
                    )
                }
            }),
    {
        let zero = R::zero();
        if !fs.is_finite() || !f0.is_finite() || !q.is_finite() || !gain_db.is_finite()
            || at_most_of(fs, zero) || at_most_of(f0, zero) || at_most_of(
            fs.times(R::decimal(5, -1)),
            f0,
        ) || at_most_of(q, zero) {
            return Err(
                DspError::InvalidParam(
                    "biquad coefficient inputs must be finite and inside the filter domain",
                ),
            );
        }
        let c = Self::rbj_unchecked(kind, fs, f0, q, gain_db);
        if !c.b0.is_finite() || !c.b1.is_finite() || !c.b2.is_finite() || !c.a1.is_finite()
            || !c.a2.is_finite() || !c.is_stable() {
            return Err(
                DspError::InvalidParam("biquad inputs must produce finite stable coefficients"),
            );
        }
        Ok(c)
    }

    fn rbj_unchecked(kind: BiquadKind, fs: R, f0: R, q: R, gain_db: R) -> (r: Self)
        ensures
            r == rbj(kind, fs, f0, q, gain_db),
    {
        let one = R::one();
        let two = R::decimal(2, 0);
        let minus_two = R::decimal(-2, 0);
        let half = R::decimal(5, -1);
        let w0 = two.times(R::decimal(3141592653589793, -15)).times(f0).over(fs);
        let c = w0.cos();
        let s = w0.sin();
        let alpha = s.over(two.times(q));
        // Shelf and peak amplitude.
        let a = R::decimal(10, 0).pow(gain_db.over(R::decimal(40, 0)));
        let (b0, b1, b2, a0, a1, a2) = match kind {
            BiquadKind::Lowpass => {
                let body = one.minus(c);
                (
                    body.times(half),
                    body,
                    body.times(half),
                    one.plus(alpha),
                    minus_two.times(c),
                    one.minus(alpha),
                )
            },
            BiquadKind::Highpass => {
                let body = one.plus(c);
                (
                    body.times(half),
                    body.neg(),
                    body.times(half),
                    one.plus(alpha),
                    minus_two.times(c),
                    one.minus(alpha),
                )
            },
            BiquadKind::Peaking => (
                one.plus(alpha.times(a)),
                minus_two.times(c),
                one.minus(alpha.times(a)),
                one.plus(alpha.over(a)),
                minus_two.times(c),
                one.minus(alpha.over(a)),
            ),
            BiquadKind::LowShelf => {
                let am1 = a.minus(one);
                let ap1 = a.plus(one);
                let beta = two.times(a.sqrt()).times(alpha);
                (
                    a.times(ap1.minus(am1.times(c)).plus(beta)),
                    two.times(a).times(am1.minus(ap1.times(c))),
                    a.times(ap1.minus(am1.times(c)).minus(beta)),
                    ap1.plus(am1.times(c)).plus(beta),
                    minus_two.times(am1.plus(ap1.times(c))),
                    ap1.plus(am1.times(c)).minus(beta),
                )
            },
            BiquadKind::HighShelf => {
                let am1 = a.minus(one);
                let ap1 = a.plus(one);
                let beta = two.times(a.sqrt()).times(alpha);
                (
                    a.times(ap1.plus(am1.times(c)).plus(beta)),
                    minus_two.times(a).times(am1.plus(ap1.times(c))),
                    a.times(ap1.plus(am1.times(c)).minus(beta)),
                    ap1.minus(am1.times(c)).plus(beta),
                    two.times(am1.minus(ap1.times(c))),
                    ap1.minus(am1.times(c)).minus(beta),
                )
            },
        };
        let inv = one.over(a0);
        Self {
            b0: b0.times(inv),
            b1: b1.times(inv),
            b2: b2.times(inv),
            a1: a1.times(inv),
            a2: a2.times(inv),
        }
    }

    /// The complex response at `w` radians per sample, as real and imaginary
    /// part.
    fn eval(&self, w: R) -> (r: (R, R))
        ensures
            r == response(*self, w),
    {
        let (cos1, sin1) = (w.cos(), w.sin());
        let w2 = R::decimal(2, 0).times(w);
        let (cos2, sin2) = (w2.cos(), w2.sin());
        let num_re = self.b0.plus(self.b1.times(cos1)).plus(self.b2.times(cos2));
        let num_im = self.b1.times(sin1).plus(self.b2.times(sin2)).neg();
        let den_re = R::one().plus(self.a1.times(cos1)).plus(self.a2.times(cos2));
        let den_im = self.a1.times(sin1).plus(self.a2.times(sin2)).neg();
        let denom = den_re.times(den_re).plus(den_im.times(den_im));
        (
            num_re.times(den_re).plus(num_im.times(den_im)).over(denom),
            num_im.times(den_re).minus(num_re.times(den_im)).over(denom),
        )
    }

    /// Linear magnitude of the response at `w` radians per sample.
    pub fn magnitude(&self, w: R) -> (r: R)
        ensures
            r == response(*self, w).0.hypotenuse(response(*self, w).1),
    {
        let (re, im) = self.eval(w);
        re.hypot(im)
    }

    /// Phase in radians of the response at `w` radians per sample.
    pub fn phase(&self, w: R) -> (r: R)
        ensures
            r == response(*self, w).1.angle(response(*self, w).0),
    {
        let (re, im) = self.eval(w);
        im.atan2(re)
    }

    /// Approximate group delay in samples at `w` radians per sample, by a fixed
    /// central difference.
    pub fn group_delay(&self, w: R) -> (r: R)
        ensures
            r == ({
                let step = R::decimal_of(1, -4);
                let (re_hi, im_hi) = response(*self, w.sum(step));
                let (re_lo, im_lo) = response(*self, w.diff(step));
                let re = re_hi.prod(re_lo).sum(im_hi.prod(im_lo));
                let im = im_hi.prod(re_lo).diff(re_hi.prod(im_lo));
                im.angle(re).opposite().quot(two::<R>().prod(step))
            }),
    {
        let step = R::decimal(1, -4);
        let (re_hi, im_hi) = self.eval(w.plus(step));
        let (re_lo, im_lo) = self.eval(w.minus(step));
        // The argument of H(w + step) times the conjugate of H(w - step) avoids
        // phase-wrap artifacts.
        let re = re_hi.times(re_lo).plus(im_hi.times(im_lo));
        let im = im_hi.times(re_lo).minus(re_hi.times(im_lo));
        im.atan2(re).neg().over(R::decimal(2, 0).times(step))
    }

    /// Whether both poles are strictly inside the unit circle.
    pub fn is_stable(&self) -> (r: bool)
        ensures
            r == stable(*self),
    {
        self.a2.abs().less(R::one()) && self.a1.abs().less(R::one().plus(self.a2))
    }
}

/// The gain does not enter the coefficients of a low-pass or high-pass.
pub proof fn gain_is_ignored_by_pass_shapes<R: Real>(
    kind: BiquadKind,
    fs: R,
    f0: R,
    q: R,
    gain_db: R,
    other: R,
)
    requires
        kind == BiquadKind::Lowpass || kind == BiquadKind::Highpass,
    ensures
        rbj(kind, fs, f0, q, gain_db) == rbj(kind, fs, f0, q, other),
{
}

/// Scaling `x` by `y` loses nothing when `x` is halved first: doubling brings the
/// product back, and doubling and negating brings back that of `-x`.
pub open spec fn halves_exactly<R: Real>(x: R, y: R) -> bool {
    let halved = x.prod(R::decimal_of(5, -1)).prod(y);
    &&& two::<R>().prod(halved) == x.prod(y)
    &&& R::decimal_of(-2, 0).prod(halved) == x.opposite().prod(y)
}

/// The numerator of a low-pass or high-pass is a square: its outer coefficients are
/// equal, and where halving is exact the middle one is twice the outer one, negated in
/// a high-pass.
pub proof fn pass_numerators_are_squares<R: Real>(fs: R, f0: R, q: R, gain_db: R)
    ensures
        ({
            let c = rbj(BiquadKind::Lowpass, fs, f0, q, gain_db);
            let w0 = angular(f0, fs);
            let alpha = w0.sine().quot(two::<R>().prod(q));
            let inv = unit::<R>().quot(unit::<R>().sum(alpha));
            &&& c.b2 == c.b0
            &&& halves_exactly(unit::<R>().diff(w0.cosine()), inv) ==> c.b1 == two::<R>().prod(c.b0)
        }),
        ({
            let c = rbj(BiquadKind::Highpass, fs, f0, q, gain_db);
            let w0 = angular(f0, fs);
            let alpha = w0.sine().quot(two::<R>().prod(q));
            let inv = unit::<R>().quot(unit::<R>().sum(alpha));
            &&& c.b2 == c.b0
            &&& halves_exactly(unit::<R>().sum(w0.cosine()), inv) ==> c.b1 == R::decimal_of(
                -2,
                0,
            ).prod(c.b0)
        }),
        ({
            let low = rbj(BiquadKind::Lowpass, fs, f0, q, gain_db);
            let high = rbj(BiquadKind::Highpass, fs, f0, q, gain_db);
            low.a1 == high.a1 && low.a2 == high.a2
        }),
{
}

/// A peak has one middle coefficient above and below, at every gain. Where its amplitude
/// neither scales nor divides the bandwidth, as an amplitude of one does at no gain, the
/// last coefficients are equal too, and the filter lets everything through.
pub proof fn a_flat_peak_passes_everything<R: Real>(fs: R, f0: R, q: R, gain_db: R)
    ensures
        ({
            let c = rbj(BiquadKind::Peaking, fs, f0, q, gain_db);
            let alpha = angular(f0, fs).sine().quot(two::<R>().prod(q));
            let a = R::decimal_of(10, 0).power(gain_db.quot(R::decimal_of(40, 0)));
            let a0 = unit::<R>().sum(alpha.quot(a));
            &&& c.b1 == c.a1
            &&& alpha.prod(a) == alpha.quot(a) ==> {
                &&& c.b2 == c.a2
                &&& c.b0 == a0.prod(unit::<R>().quot(a0))
            }
        }),
{
}

/// On fixed-point numbers a peak of no gain is flat: its coefficients are pairwise equal.
pub proof fn fixed_point_peaks_of_no_gain_are_flat(fs: Fixed, f0: Fixed, q: Fixed)
    ensures
        ({
            let c = rbj(BiquadKind::Peaking, fs, f0, q, nil());
            c.b1 == c.a1 && c.b2 == c.a2
        }),
{
    let alpha = angular(f0, fs).sine().quot(two::<Fixed>().prod(q));
    fixed_point_unity(alpha);
    a_flat_peak_passes_everything(fs, f0, q, nil());
}

// ---------------------------------------------------------------------------
// The recursion
// ---------------------------------------------------------------------------

/// One channel's Direct Form I state.
#[derive(Debug)]
pub struct State<R> {
    pub x1: R,
    pub x2: R,
    pub y1: R,
    pub y2: R,
}

impl<R: Copy> Copy for State<R> {

}

impl<R: Copy> Clone for State<R> {
    fn clone(&self) -> (r: Self)
        ensures
            r == *self,
    {
        *self
    }
}

/// A channel that has seen nothing but silence.
pub open spec fn silent_state<R: Real>() -> State<R> {
    State { x1: nil(), x2: nil(), y1: nil(), y2: nil() }
}

/// The output for the input `x0`.
pub open spec fn filtered<R: Real>(c: BiquadCoeffs<R>, s: State<R>, x0: R) -> R {
    flushed(
        c.b0.prod(x0).sum(c.b1.prod(s.x1)).sum(c.b2.prod(s.x2)).diff(c.a1.prod(s.y1)).diff(
            c.a2.prod(s.y2),
        ),
    )
}

/// The output for silent input.
pub open spec fn ringing<R: Real>(c: BiquadCoeffs<R>, s: State<R>) -> R {
    flushed(
        c.b1.prod(s.x1).sum(c.b2.prod(s.x2)).diff(c.a1.prod(s.y1)).diff(c.a2.prod(s.y2)),
    )
}

/// The state after input `x0` and output `y0`.
pub open spec fn shifted<R: Real>(s: State<R>, x0: R, y0: R) -> State<R> {
    State { x1: x0, x2: s.x1, y1: y0, y2: s.y1 }
}

/// Filtering with constant coefficients.
pub struct FilterStep<R> {
    pub c: BiquadCoeffs<R>,
}

impl<T: Sample> LaneStep<T> for FilterStep<T::Real> {
    type Lane = State<T::Real>;

    type State = State<T::Real>;

    open spec fn state(lane: State<T::Real>) -> State<T::Real> {
        lane
    }

    open spec fn fits(&self, s: State<T::Real>) -> bool {
        true
    }

    open spec fn next(&self, i: int, s: State<T::Real>, x: T) -> State<T::Real> {
        shifted(s, sane(x.value()), filtered(self.c, s, sane(x.value())))
    }

    open spec fn out(&self, i: int, s: State<T::Real>, x: T) -> T {
        T::stored(filtered(self.c, s, sane(x.value())))
    }

    proof fn step_keeps_fit(&self, i: int, s: State<T::Real>, x: T) {
    }

    fn step(&self, i: usize, lane: &mut State<T::Real>, x: T) -> (y: T) {
        let c = self.c;
        let s = *lane;
        let x0 = finite_or_zero(x.to_real());
        let y0 = flush_denormal(
            c.b0.times(x0).plus(c.b1.times(s.x1)).plus(c.b2.times(s.x2)).minus(
                c.a1.times(s.y1),
            ).minus(c.a2.times(s.y2)),
        );
        *lane = State { x1: x0, x2: s.x1, y1: y0, y2: s.y1 };
        T::from_real(y0)
    }
}

/// Ringing out with constant coefficients.
pub struct RingStep<R> {
    pub c: BiquadCoeffs<R>,
}

impl<T: Sample> LaneStep<T> for RingStep<T::Real> {
    type Lane = State<T::Real>;

    type State = State<T::Real>;

    open spec fn state(lane: State<T::Real>) -> State<T::Real> {
        lane
    }

    open spec fn fits(&self, s: State<T::Real>) -> bool {
        true
    }

    open spec fn next(&self, i: int, s: State<T::Real>, x: T) -> State<T::Real> {
        shifted(s, nil(), ringing(self.c, s))
    }

    open spec fn out(&self, i: int, s: State<T::Real>, x: T) -> T {
        T::stored(ringing(self.c, s))
    }

    proof fn step_keeps_fit(&self, i: int, s: State<T::Real>, x: T) {
    }

    fn step(&self, i: usize, lane: &mut State<T::Real>, x: T) -> (y: T) {
        let c = self.c;
        let s = *lane;
        let y0 = flush_denormal(
            c.b1.times(s.x1).plus(c.b2.times(s.x2)).minus(c.a1.times(s.y1)).minus(
                c.a2.times(s.y2),
            ),
        );
        *lane = State { x1: T::Real::zero(), x2: s.x1, y1: y0, y2: s.y1 };
        T::from_real(y0)
    }
}

// ---------------------------------------------------------------------------
// The kernel
// ---------------------------------------------------------------------------

/// A biquad with automatable cutoff, quality, and gain.
///
/// Coefficients are recomputed once per range. The effective cutoff is clamped
/// to `1.0..=0.999 * Nyquist`.
///
/// The tail is a constant upper bound from the declared range extremes: the
/// slowest pole pair that the ranges allow, decaying from `1e3` to `1e-6`. A
/// drain continues the recursion with silent input and the coefficients that
/// rendering used last; it is done once every state value is below `1e-6` or the
/// bound is reached. New input starts a new drain.
#[derive(Clone, Debug)]
pub struct Biquad<T: Sample> {
    pub kind: BiquadKind,
    /// Cutoff, quality, and gain. Every shape declares all three.
    pub params: [ParamInfo<T::Real>; 3],
    /// Prepared sample rate, or zero.
    pub rate: u32,
    pub fs: T::Real,
    pub state: Vec<State<T::Real>>,
    /// Coefficients that rendering used last.
    pub flush_coeffs: BiquadCoeffs<T::Real>,
    /// Declared worst-case tail frames, set when preparing.
    pub tail_bound: usize,
    /// Tail frames drained since the last input or reset.
    pub flushed: usize,
}

/// What configures a biquad.
pub struct BiquadSetup<R> {
    pub kind: BiquadKind,
    pub params: Seq<ParamInfo<R>>,
    pub rate: u32,
    pub fs: R,
    pub tail_bound: usize,
}

/// The state of a biquad.
pub struct BiquadModel<R> {
    pub setup: BiquadSetup<R>,
    pub state: Seq<State<R>>,
    pub coeffs: BiquadCoeffs<R>,
    pub flushed: usize,
}

/// `f0` brought between 1 Hz and just below half the rate.
pub open spec fn cutoff_in_band<R: Real>(f0: R, fs: R) -> R {
    clamped(f0, unit(), fs.prod(R::decimal_of(5, -1)).prod(R::decimal_of(999, -3)))
}

/// The coefficients in use for these parameter values.
pub open spec fn runtime<R: Real>(u: BiquadSetup<R>, f0: R, q: R, gain_db: R) -> BiquadCoeffs<R> {
    rbj(
        u.kind,
        u.fs,
        cutoff_in_band(clamped(f0, u.params[0].range.0, u.params[0].range.1), u.fs),
        clamped(q, u.params[1].range.0, u.params[1].range.1),
        clamped(gain_db, u.params[2].range.0, u.params[2].range.1),
    )
}

/// The coefficients that a drain uses before anything was rendered.
pub open spec fn resting_coeffs<R: Real>(
    u: BiquadSetup<R>,
    held: BiquadCoeffs<R>,
) -> BiquadCoeffs<R> {
    if u.rate >= 3 {
        runtime(u, u.params[0].default, u.params[1].default, u.params[2].default)
    } else {
        held
    }
}

/// The declared tail: the slowest reachable pole pair is the peaking one at the
/// largest quality and gain, at whichever cutoff extreme has the smaller sine.
pub open spec fn declared_tail<R: Real>(params: Seq<ParamInfo<R>>, fs: R) -> usize {
    let w_lo = angular(cutoff_in_band(params[0].range.0, fs), fs);
    let w_hi = angular(cutoff_in_band(params[0].range.1, fs), fs);
    let a_max = R::decimal_of(10, 0).power(params[2].range.1.quot(R::decimal_of(40, 0)));
    let alpha = smaller(w_lo.sine(), w_hi.sine()).quot(
        two::<R>().prod(params[1].range.1).prod(a_max),
    );
    let r = unit::<R>().diff(alpha).quot(unit::<R>().sum(alpha)).root();
    whole_usize(
        R::decimal_of(1, 3).quot(R::decimal_of(1, -6)).logarithm().quot(
            r.logarithm().opposite(),
        ).ceiling(),
    )
}

/// The largest magnitude among the states of the first `n` channels.
pub open spec fn state_peak<R: Real>(s: Seq<State<R>>, n: int) -> R
    decreases n,
{
    if n <= 0 {
        nil()
    } else {
        let t = s[n - 1];
        larger(
            larger(
                larger(
                    larger(state_peak(s, n - 1), t.x1.magnitude()),
                    t.x2.magnitude(),
                ),
                t.y1.magnitude(),
            ),
            t.y2.magnitude(),
        )
    }
}

/// Every state value has decayed below the floor.
pub open spec fn decayed<R: Real>(s: Seq<State<R>>) -> bool {
    state_peak(s, s.len() as int).below(R::decimal_of(1, -6))
}

/// The parameters that a biquad declares.
pub open spec fn biquad_params<R: Real>(s: BiquadSettings<R>) -> Seq<ParamInfo<R>> {
    seq![
        conventional(
            ParamId(0),
            "cutoff",
            (R::decimal_of(10, 0), R::decimal_of(24000, 0)),
            s.cutoff_hz,
            Unit::Hz,
        ),
        conventional(
            ParamId(1),
            "q",
            (R::decimal_of(1, -1), R::decimal_of(16, 0)),
            s.q,
            Unit::Q,
        ),
        conventional(
            ParamId(2),
            "gain",
            (R::decimal_of(-24, 0), R::decimal_of(24, 0)),
            s.gain_db,
            Unit::Db,
        ),
    ]
}

/// Coefficients that leave the signal as it is.
pub open spec fn passing_coeffs<R: Real>() -> BiquadCoeffs<R> {
    BiquadCoeffs { b0: unit(), b1: nil(), b2: nil(), a1: nil(), a2: nil() }
}

impl<T: Sample> Biquad<T> {
    /// What configures this filter.
    pub open spec fn setup(&self) -> BiquadSetup<T::Real> {
        BiquadSetup {
            kind: self.kind,
            params: self.params@,
            rate: self.rate,
            fs: self.fs,
            tail_bound: self.tail_bound,
        }
    }

    /// A filter as configured from `s` and not yet prepared.
    pub open spec fn configured_by(&self, s: BiquadSettings<T::Real>) -> bool {
        &&& self.setup() == (BiquadSetup {
            kind: s.kind,
            params: biquad_params(s),
            rate: 0,
            fs: nil(),
            tail_bound: 0,
        })
        &&& self.state@ == Seq::<State<T::Real>>::empty()
        &&& self.flush_coeffs == passing_coeffs::<T::Real>()
        &&& self.flushed == 0
    }

    /// A low-pass biquad with default settings.
    pub fn new() -> (r: Self)
        ensures
            r.configured_by(default_settings::<T::Real>(BiquadKind::Lowpass)),
    {
        Self::with_settings(BiquadSettings::new())
    }

    /// A biquad configured from `settings`.
    pub fn with_settings(settings: BiquadSettings<T::Real>) -> (r: Self)
        ensures
            r.configured_by(settings),
    {
        let params = [
            ParamInfo::new(
                ParamId(BiquadParams::<T::Real>::CUTOFF_HZ),
                "cutoff",
                (T::Real::decimal(10, 0), T::Real::decimal(24000, 0)),
                settings.cutoff_hz,
                Unit::Hz,
            ),
            ParamInfo::new(
                ParamId(BiquadParams::<T::Real>::Q),
                "q",
                (T::Real::decimal(1, -1), T::Real::decimal(16, 0)),
                settings.q,
                Unit::Q,
            ),
            ParamInfo::new(
                ParamId(BiquadParams::<T::Real>::GAIN_DB),
                "gain",
                (T::Real::decimal(-24, 0), T::Real::decimal(24, 0)),
                settings.gain_db,
                Unit::Db,
            ),
        ];
        let zero = T::Real::zero();
        Self {
            kind: settings.kind,
            params,
            rate: 0,
            fs: zero,
            state: Vec::new(),
            flush_coeffs: BiquadCoeffs {
                b0: T::Real::one(),
                b1: zero,
                b2: zero,
                a1: zero,
                a2: zero,
            },
            tail_bound: 0,
            flushed: 0,
        }
    }

    /// A low-pass biquad.
    pub fn lowpass() -> (r: Self)
        ensures
            r.configured_by(default_settings::<T::Real>(BiquadKind::Lowpass)),
    {
        Self::with_settings(BiquadSettings::lowpass())
    }

    /// A high-pass biquad.
    pub fn highpass() -> (r: Self)
        ensures
            r.configured_by(default_settings::<T::Real>(BiquadKind::Highpass)),
    {
        Self::with_settings(BiquadSettings::highpass())
    }

    /// A low-shelf biquad.
    pub fn low_shelf() -> (r: Self)
        ensures
            r.configured_by(default_settings::<T::Real>(BiquadKind::LowShelf)),
    {
        Self::with_settings(BiquadSettings::low_shelf())
    }

    /// A high-shelf biquad.
    pub fn high_shelf() -> (r: Self)
        ensures
            r.configured_by(default_settings::<T::Real>(BiquadKind::HighShelf)),
    {
        Self::with_settings(BiquadSettings::high_shelf())
    }

    /// A peaking biquad.
    pub fn peaking() -> (r: Self)
        ensures
            r.configured_by(default_settings::<T::Real>(BiquadKind::Peaking)),
    {
        Self::with_settings(BiquadSettings::peaking())
    }

    /// Restore the drain coefficients to the declared defaults and clear the
    /// drained-frame counter.
    fn reset_flush_state(&mut self)
        ensures
            final(self).flushed == 0,
            final(self).flush_coeffs == resting_coeffs(old(self).setup(), old(self).flush_coeffs),
            final(self).setup() == old(self).setup(),
            final(self).state == old(self).state,
    {
        self.flushed = 0;
        if self.rate >= 3 {
            self.flush_coeffs =
            self.runtime_coeffs(
                self.params[0].default,
                self.params[1].default,
                self.params[2].default,
            );
        }
    }

    /// The coefficients this filter would use at cutoff or center `f0`, quality
    /// `q`, and `gain_db`, clamped exactly as they are during rendering.
    pub fn try_coeffs(&self, f0: T::Real, q: T::Real, gain_db: T::Real) -> (r: Result<
        BiquadCoeffs<T::Real>,
        DspError,
    >)
        ensures
            self.fs.below(T::Real::decimal_of(3, 0)) ==> r == Err::<BiquadCoeffs<T::Real>, _>(
                DspError::UnsupportedSpec("biquad coefficient readouts require prepare"),
            ),
            !self.fs.below(T::Real::decimal_of(3, 0)) && !(f0.finite() && q.finite()
                && gain_db.finite()) ==> r == Err::<BiquadCoeffs<T::Real>, _>(
                DspError::InvalidParam("biquad coefficient readout inputs must be finite"),
            ),
            !self.fs.below(T::Real::decimal_of(3, 0)) && f0.finite() && q.finite()
                && gain_db.finite() ==> r == Ok::<_, DspError>(
                runtime(self.setup(), f0, q, gain_db),
            ),
    {
        if self.fs.less(T::Real::decimal(3, 0)) {
            return Err(DspError::UnsupportedSpec("biquad coefficient readouts require prepare"));
        }
        if !f0.is_finite() || !q.is_finite() || !gain_db.is_finite() {
            return Err(DspError::InvalidParam("biquad coefficient readout inputs must be finite"));
        }
        Ok(self.runtime_coeffs(f0, q, gain_db))
    }

    /// Convert a frequency in Hz to radians per sample for the readouts.
    pub fn omega(&self, f_hz: T::Real) -> (r: T::Real)
        ensures
            r == angular(f_hz, self.fs),
    {
        T::Real::decimal(2, 0).times(T::Real::decimal(3141592653589793, -15)).times(f_hz).over(
            self.fs,
        )
    }

    /// Clamp a requested cutoff between 1 Hz and just below half the rate.
    pub fn clamp_cutoff(&self, f0: T::Real) -> (r: T::Real)
        ensures
            r == cutoff_in_band(f0, self.fs),
    {
        clamp_to(
            f0,
            T::Real::one(),
            self.fs.times(T::Real::decimal(5, -1)).times(T::Real::decimal(999, -3)),
        )
    }

    fn runtime_coeffs(&self, f0: T::Real, q: T::Real, gain_db: T::Real) -> (r: BiquadCoeffs<T::Real>)
        ensures
            r == runtime(self.setup(), f0, q, gain_db),
    {
        let f0 = clamp_to(f0, self.params[0].range.0, self.params[0].range.1);
        let q = clamp_to(q, self.params[1].range.0, self.params[1].range.1);
        let gain_db = clamp_to(gain_db, self.params[2].range.0, self.params[2].range.1);
        BiquadCoeffs::rbj_unchecked(self.kind, self.fs, self.clamp_cutoff(f0), q, gain_db)
    }

    /// The largest magnitude in the state.
    fn peak(&self) -> (r: T::Real)
        ensures
            r == state_peak(self.state@, self.state@.len() as int),
    {
        let mut m = T::Real::zero();
        let mut i: usize = 0;
        while i < self.state.len()
            invariant
                0 <= i <= self.state@.len(),
                m == state_peak(self.state@, i as int),
            decreases self.state@.len() - i,
        {
            let s = self.state[i];
            m = max_of(max_of(max_of(max_of(m, s.x1.abs()), s.x2.abs()), s.y1.abs()), s.y2.abs());
            i += 1;
        }
        m
    }

    /// The declared tail for the prepared rate.
    fn tail_frames(&self) -> (r: usize)
        ensures
            r == declared_tail(self.params@, self.fs),
    {
        let w_lo = self.omega(self.clamp_cutoff(self.params[0].range.0));
        let w_hi = self.omega(self.clamp_cutoff(self.params[0].range.1));
        let sin_min = min_of(w_lo.sin(), w_hi.sin());
        let q_max = self.params[1].range.1;
        let a_max = T::Real::decimal(10, 0).pow(
            self.params[2].range.1.over(T::Real::decimal(40, 0)),
        );
        let alpha = sin_min.over(T::Real::decimal(2, 0).times(q_max).times(a_max));
        let r = T::Real::one().minus(alpha).over(T::Real::one().plus(alpha)).sqrt();
        to_usize(
            T::Real::decimal(1, 3).over(T::Real::decimal(1, -6)).ln().over(r.ln().neg()).ceil(),
        )
    }
}

impl<T: Sample> Default for Biquad<T> {
    fn default() -> (r: Self)
        ensures
            r.configured_by(default_settings::<T::Real>(BiquadKind::Lowpass)),
    {
        Self::new()
    }
}

/// The coefficients a frame is filtered with.
pub open spec fn frame_coeffs<R: Real>(m: BiquadModel<R>, p: BiquadParams<R>) -> BiquadCoeffs<R> {
    if m.setup.rate >= 3 {
        runtime(m.setup, p.cutoff_hz, p.q, p.gain_db)
    } else {
        m.coeffs
    }
}

impl<T: Sample> FrameModel<T> for Biquad<T> {
    type Params = BiquadParams<T::Real>;

    type Model = BiquadModel<T::Real>;

    open spec fn next(
        m: BiquadModel<T::Real>,
        p: BiquadParams<T::Real>,
        x: Seq<T>,
        key: Seq<Seq<T>>,
    ) -> BiquadModel<T::Real> {
        let step = FilterStep { c: frame_coeffs(m, p) };
        BiquadModel {
            setup: m.setup,
            state: lanes_next::<T, FilterStep<T::Real>>(step, 0, m.state, x),
            coeffs: step.c,
            flushed: 0,
        }
    }

    open spec fn emit(
        m: BiquadModel<T::Real>,
        p: BiquadParams<T::Real>,
        x: Seq<T>,
        key: Seq<Seq<T>>,
    ) -> Seq<T> {
        lanes_out::<T, FilterStep<T::Real>>(FilterStep { c: frame_coeffs(m, p) }, 0, m.state, x)
    }

    open spec fn rest(m: BiquadModel<T::Real>) -> BiquadModel<T::Real> {
        BiquadModel {
            setup: m.setup,
            state: Seq::new(m.state.len(), |c: int| silent_state()),
            coeffs: resting_coeffs(m.setup, m.coeffs),
            flushed: 0,
        }
    }

    open spec fn drained(m: BiquadModel<T::Real>) -> bool {
        m.flushed >= m.setup.tail_bound
    }
}

/// A reset restores a biquad whatever it has filtered.
pub proof fn biquad_reset_restores<T: Sample>()
    ensures
        rendering_keeps_rest::<T, Biquad<T>>(),
{
    assert forall|
        m: BiquadModel<T::Real>,
        p: BiquadParams<T::Real>,
        x: Seq<T>,
        key: Seq<Seq<T>>,
    | #[trigger] <Biquad<T> as FrameModel<T>>::rest(
        <Biquad<T> as FrameModel<T>>::next(m, p, x, key),
    ) == <Biquad<T> as FrameModel<T>>::rest(m) by {
        assert(<Biquad<T> as FrameModel<T>>::rest(
            <Biquad<T> as FrameModel<T>>::next(m, p, x, key),
        ).state =~= <Biquad<T> as FrameModel<T>>::rest(m).state);
    }
    assert forall|m: BiquadModel<T::Real>| #[trigger] <Biquad<T> as FrameModel<T>>::rest(
        <Biquad<T> as FrameModel<T>>::rest(m),
    ) == <Biquad<T> as FrameModel<T>>::rest(m) by {
        assert(<Biquad<T> as FrameModel<T>>::rest(<Biquad<T> as FrameModel<T>>::rest(m)).state
            =~= <Biquad<T> as FrameModel<T>>::rest(m).state);
    }
}

/// What a drain of up to `room` frames makes of a biquad and of the first
/// frames of the output, which held `before`.
pub open spec fn biquad_drain<T: Sample>(
    m: BiquadModel<T::Real>,
    room: usize,
    before: Seq<Seq<T>>,
    r: Produced,
    after: BiquadModel<T::Real>,
    out: Seq<Seq<T>>,
) -> bool {
    let bound = m.setup.tail_bound;
    if m.flushed >= bound || decayed(m.state) {
        &&& r == (Produced { frames: 0, done: true })
        &&& after == (BiquadModel { flushed: bound, ..m })
        &&& out == before
    } else {
        let step = RingStep { c: m.coeffs };
        let want = if room <= bound - m.flushed {
            room as int
        } else {
            bound - m.flushed
        };
        let state = lanes_after::<T, RingStep<T::Real>>(
            step,
            m.state,
            heads(before, want),
            want as nat,
        );
        &&& r.frames == want
        &&& r.done == (m.flushed + want >= bound || decayed(state))
        &&& after == (BiquadModel {
            state,
            flushed: if r.done {
                bound
            } else {
                (m.flushed + want) as usize
            },
            ..m
        })
        &&& heads(out, want) == lanes_run::<T, RingStep<T::Real>>(
            step,
            m.state,
            heads(before, want),
        )
    }
}

/// However a drain is divided, it never delivers more than the declared tail.
pub proof fn biquad_drains_within_its_tail<T: Sample>(
    m: BiquadModel<T::Real>,
    room: usize,
    before: Seq<Seq<T>>,
    r: Produced,
    after: BiquadModel<T::Real>,
    out: Seq<Seq<T>>,
)
    requires
        biquad_drain::<T>(m, room, before, r, after, out),
        m.flushed <= m.setup.tail_bound,
    ensures
        r.frames <= room,
        m.flushed + r.frames <= after.flushed <= m.setup.tail_bound,
        r.done <==> after.flushed == m.setup.tail_bound,
{
}

/// A whole drain stays within the tail: whatever the sizes of its calls, a drain from
/// its start delivers at most the declared tail, and a call that finds it done brings
/// nothing more.
pub proof fn biquad_drains_no_more_than_its_tail<T: Sample>(
    models: Seq<BiquadModel<T::Real>>,
    rooms: Seq<usize>,
    calls: Seq<Produced>,
    before: Seq<Seq<Seq<T>>>,
    outs: Seq<Seq<Seq<T>>>,
)
    requires
        models.len() == calls.len() + 1,
        forall|k: int|
            0 <= k < calls.len() ==> biquad_drain::<T>(
                models[k],
                rooms[k],
                before[k],
                #[trigger] calls[k],
                models[k + 1],
                outs[k],
            ),
        models[0].flushed <= models[0].setup.tail_bound,
    ensures
        models[0].flushed + delivered(calls) <= models[0].setup.tail_bound,
        forall|k: int|
            0 <= k < calls.len() - 1 && (#[trigger] calls[k]).done ==> calls[k + 1].frames == 0
                && calls[k + 1].done,
{
    let counts = Seq::new(models.len(), |k: int| models[k].flushed as nat);
    assert forall|k: int| 0 <= k < calls.len() implies counts[k] + (#[trigger] calls[k]).frames
        <= counts[k + 1] && (calls[k].done ==> counts[k + 1] == models[0].setup.tail_bound) by {
        lemma_drain_stays::<T>(models, rooms, calls, before, outs, k);
        biquad_drains_within_its_tail::<T>(
            models[k],
            rooms[k],
            before[k],
            calls[k],
            models[k + 1],
            outs[k],
        );
    }
    lemma_drain_stays::<T>(models, rooms, calls, before, outs, calls.len() as int);
    counted_calls_stay_within(calls, counts, models[0].setup.tail_bound as nat);
    assert forall|k: int| 0 <= k < calls.len() - 1 && (#[trigger] calls[k]).done implies calls[k
        + 1].frames == 0 && calls[k + 1].done by {
        lemma_drain_stays::<T>(models, rooms, calls, before, outs, k + 1);
        let next = calls[k + 1];
        assert(biquad_drain::<T>(
            models[k + 1],
            rooms[k + 1],
            before[k + 1],
            next,
            models[k + 2],
            outs[k + 1],
        ));
    }
}

proof fn lemma_drain_stays<T: Sample>(
    models: Seq<BiquadModel<T::Real>>,
    rooms: Seq<usize>,
    calls: Seq<Produced>,
    before: Seq<Seq<Seq<T>>>,
    outs: Seq<Seq<Seq<T>>>,
    k: int,
)
    requires
        models.len() == calls.len() + 1,
        forall|j: int|
            0 <= j < calls.len() ==> biquad_drain::<T>(
                models[j],
                rooms[j],
                before[j],
                #[trigger] calls[j],
                models[j + 1],
                outs[j],
            ),
        models[0].flushed <= models[0].setup.tail_bound,
        0 <= k <= calls.len(),
    ensures
        models[k].setup == models[0].setup,
        models[k].flushed <= models[0].setup.tail_bound,
    decreases k,
{
    if k > 0 {
        lemma_drain_stays::<T>(models, rooms, calls, before, outs, k - 1);
        let call = calls[k - 1];
        assert(biquad_drain::<T>(
            models[k - 1],
            rooms[k - 1],
            before[k - 1],
            call,
            models[k],
            outs[k - 1],
        ));
    }
}

impl<T: Sample> Kernel<T> for Biquad<T> {
    open spec fn model(&self) -> BiquadModel<T::Real> {
        BiquadModel {
            setup: self.setup(),
            state: self.state@,
            coeffs: self.flush_coeffs,
            flushed: self.flushed,
        }
    }

    open spec fn accepts(&self, mode: IoMode, channels: nat, buses: nat) -> bool {
        mode == IoMode::InPlace && self.rate >= 3 && self.state@.len() == channels
    }

    open spec fn outcome(&self, spec: ProcessSpec) -> Result<(), DspError> {
        if spec.sample_rate < 3 {
            Err(DspError::UnsupportedSpec("sample rate must be at least 3"))
        } else {
            empty_plan().array(spec.channels as nat, size_of::<State<T::Real>>()).verdict(
                spec.max_memory,
            )
        }
    }

    open spec fn made(&self, spec: ProcessSpec) -> BiquadModel<T::Real> {
        let fs = T::Real::natural(spec.sample_rate as u64);
        let setup = BiquadSetup {
            kind: self.kind,
            params: self.params@,
            rate: spec.sample_rate,
            fs,
            tail_bound: declared_tail(self.params@, fs),
        };
        BiquadModel {
            setup,
            state: Seq::new(spec.channels as nat, |c: int| silent_state()),
            coeffs: resting_coeffs(setup, self.flush_coeffs),
            flushed: 0,
        }
    }

    open spec fn standing(&self) -> Standing<T::Real> {
        Standing {
            latency: 0,
            tail: Tail::Frames(self.tail_bound),
            io_mode: IoMode::InPlace,
            footprint: saturated(self.state@.len() * size_of::<State<T::Real>>()),
            info: self.params@,
            sidechain_inputs: 0,
        }
    }

    fn prepare(&mut self, spec: ProcessSpec) -> (r: Result<(), DspError>)
        ensures
            final(self).kind == old(self).kind,
            final(self).params == old(self).params,
            r is Ok ==> {
                &&& final(self).rate == spec.sample_rate
                &&& final(self).fs == T::Real::natural(spec.sample_rate as u64)
                &&& final(self).state@ == Seq::new(
                    spec.channels as nat,
                    |c: int| silent_state::<T::Real>(),
                )
                &&& final(self).tail_bound == declared_tail(old(self).params@, final(self).fs)
            },
            r is Err ==> *final(self) == *old(self),
    {
        // Below 3 Hz the cutoff band inverts.
        if spec.sample_rate < 3 {
            return Err(DspError::UnsupportedSpec("sample rate must be at least 3"));
        }
        match MemoryLayout::new().array::<State<T::Real>>(spec.channels).preflight(
            spec.max_memory,
        ) {
            Err(e) => {
                return Err(e);
            },
            Ok(_) => {},
        }
        let zero = T::Real::zero();
        let silent = State { x1: zero, x2: zero, y1: zero, y2: zero };
        self.rate = spec.sample_rate;
        self.fs = T::Real::from_u64(spec.sample_rate as u64);
        self.state = filled(silent, spec.channels);
        self.tail_bound = self.tail_frames();
        self.reset_flush_state();
        proof {
            assert(self.state@ =~= Seq::new(
                spec.channels as nat,
                |c: int| silent_state::<T::Real>(),
            ));
            assert(self.model().state =~= <Self as FrameModel<T>>::rest(self.model()).state);
            assert(self.accepts(IoMode::InPlace, spec.channels as nat, 0));
        }
        Ok(())
    }

    fn reset(&mut self)
        ensures
            final(self).setup() == old(self).setup(),
    {
        let zero = T::Real::zero();
        let silent = State { x1: zero, x2: zero, y1: zero, y2: zero };
        refill(&mut self.state, silent);
        self.reset_flush_state();
        assert(self.model().state =~= <Self as FrameModel<T>>::rest(old(self).model()).state);
    }

    fn tail(&self) -> (r: Tail)
        ensures
            r == Tail::Frames(self.tail_bound),
    {
        Tail::Frames(self.tail_bound)
    }

    fn io_mode(&self) -> (r: IoMode)
        ensures
            r == IoMode::InPlace,
    {
        IoMode::InPlace
    }

    fn memory_footprint(&self) -> (r: usize)
        ensures
            r == saturated(self.state@.len() * size_of::<State<T::Real>>()),
    {
        bytes_of::<State<T::Real>>(self.state.len())
    }

    fn param_info(&self) -> (r: &[ParamInfo<T::Real>])
        ensures
            r@ == self.params@,
    {
        self.params.as_slice()
    }

    fn render(&mut self, io: &mut SubBlock<'_, '_, '_, T>, params: &BiquadParams<T::Real>)
        ensures
            final(self).setup() == old(self).setup(),
    {
        // New input starts a new drain.
        self.flushed = 0;
        let c = self.runtime_coeffs(params.cutoff_hz, params.q, params.gain_db);
        // A drain continues with the coefficients that rendering used last.
        self.flush_coeffs = c;
        let step = FilterStep { c };
        proof {
            let u = self.setup();
            let p = *params;
            let wrap = |s: Seq<State<T::Real>>, i: int|
                BiquadModel { setup: u, state: s, coeffs: c, flushed: 0 };
            let m = old(self).model();
            let other = wrap(m.state, 0);
            lemma_same_start::<T, Self>(
                m,
                other,
                p,
                io.in_run(),
                io.key_run(),
                io.io.output().len(),
                io.len as nat,
            );
            assert forall|t: Seq<State<T::Real>>, i: int, x: Seq<T>, k: Seq<Seq<T>>|
                t.len() == m.state.len() && x.len() == t.len() && 0
                    <= i implies #[trigger] <Self as FrameModel<T>>::next(wrap(t, i), p, x, k)
                == wrap(lanes_next::<T, FilterStep<T::Real>>(step, i, t, x), i + 1) by {
                assert(lanes_next::<T, FilterStep<T::Real>>(step, i, t, x) =~= lanes_next::<
                    T,
                    FilterStep<T::Real>,
                >(step, 0, t, x));
            }
            assert forall|t: Seq<State<T::Real>>, i: int, x: Seq<T>, k: Seq<Seq<T>>|
                t.len() == m.state.len() && x.len() == t.len() && 0
                    <= i implies #[trigger] <Self as FrameModel<T>>::emit(wrap(t, i), p, x, k)
                == lanes_out::<T, FilterStep<T::Real>>(step, i, t, x) by {
                assert(lanes_out::<T, FilterStep<T::Real>>(step, i, t, x) =~= lanes_out::<
                    T,
                    FilterStep<T::Real>,
                >(step, 0, t, x));
            }
            lemma_lanes_are_frames::<T, Self, FilterStep<T::Real>>(
                step,
                wrap,
                m.state,
                p,
                io.in_run(),
                io.key_run(),
                io.in_run(),
                io.len as nat,
            );
            assert(lane_states::<T, FilterStep<T::Real>>(self.state@) =~= m.state);
        }
        run_lanes::<T, FilterStep<T::Real>>(&step, &mut self.state, io);
        proof {
            assert(lane_states::<T, FilterStep<T::Real>>(self.state@) =~= self.state@);
        }
    }

    fn flush(&mut self, out: &mut AudioBlockMut<'_, '_, T>) -> (r: Produced)
        ensures
            biquad_drain(
                old(self).model(),
                old(out).length(),
                old(out).samples(),
                r,
                final(self).model(),
                final(out).samples(),
            ),
            r.done ==> <Self as FrameModel<T>>::drained(final(self).model()),
            final(self).setup() == old(self).setup(),
    {
        let bound: usize = self.tail_bound;
        let floor = T::Real::decimal(1, -6);
        let ghost m = self.model();
        if self.flushed >= bound || self.peak().less(floor) {
            self.flushed = bound;
            assert(<Self as FrameModel<T>>::rest(self.model()).state =~= <Self as FrameModel<
                T,
            >>::rest(m).state);
            return Produced { frames: 0, done: true };
        }
        let room: usize = out.frames();
        let left: usize = bound - self.flushed;
        let want: usize = if room <= left {
            room
        } else {
            left
        };
        let step = RingStep { c: self.flush_coeffs };
        drain_lanes::<T, RingStep<T::Real>>(&step, &mut self.state, out, want);
        proof {
            assert(lane_states::<T, RingStep<T::Real>>(m.state) =~= m.state);
            assert(lane_states::<T, RingStep<T::Real>>(self.state@) =~= self.state@);
        }
        self.flushed = self.flushed + want;
        // The tail is done once every state value is below the floor or the
        // declared bound has been drained.
        let done: bool = self.flushed >= bound || self.peak().less(floor);
        if done {
            self.flushed = bound;
        }
        assert(<Self as FrameModel<T>>::rest(self.model()).state =~= <Self as FrameModel<T>>::rest(
            m,
        ).state);
        Produced { frames: want, done }
    }
}

/// What the kernel answers about itself stays as `prepare` left it.
pub proof fn biquad_answers_stand<T: Sample>()
    ensures
        kernel_answers_stand::<T, Biquad<T>>(),
{
}

} // verus!
