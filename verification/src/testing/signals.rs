//! Reference signals for snapshots.

use crate::dsp::algebra::lemma_swap;
use crate::dsp::memory::rows;
use crate::number::{exact, lemma_unrounded, unrounded, Real, Sample};
use vstd::prelude::*;

verus! {

/// A reference signal.
pub trait Wave<R: Real> {
    /// Sample `i` of channel `ch`.
    open spec fn at(&self, ch: u64, i: u64) -> R {
        arbitrary()
    }

    /// Sample `i` of channel `ch`.
    fn sample(&self, ch: u64, i: u64) -> (r: R)
        ensures
            r == self.at(ch, i),
    ;
}

/// Two channels of a wave.
pub open spec fn stereo<T: Sample, W: Wave<T::Real>>(wave: W, frames: nat) -> Seq<Seq<T>> {
    Seq::new(2, |ch: int| Seq::new(frames, |i: int| T::stored(wave.at(ch as u64, i as u64))))
}

fn render_stereo<T: Sample, W: Wave<T::Real>>(wave: W, frames: usize) -> (r: Vec<Vec<T>>)
    ensures
        rows(r@) == stereo::<T, W>(wave, frames as nat),
{
    let mut out: Vec<Vec<T>> = Vec::new();
    let mut ch: usize = 0;
    while ch < 2
        invariant
            0 <= ch <= 2,
            out@.len() == ch,
            forall|k: int|
                0 <= k < ch ==> (#[trigger] out@[k])@ == stereo::<T, W>(wave, frames as nat)[k],
        decreases 2 - ch,
    {
        let mut plane: Vec<T> = Vec::with_capacity(frames);
        let mut i: usize = 0;
        while i < frames
            invariant
                0 <= i <= frames,
                plane@ =~= Seq::new(
                    i as nat,
                    |j: int| T::stored(wave.at(ch as u64, j as u64)),
                ),
            decreases frames - i,
        {
            plane.push(T::from_real(wave.sample(ch as u64, i as u64)));
            i += 1;
        }
        assert(plane@ =~= stereo::<T, W>(wave, frames as nat)[ch as int]);
        out.push(plane);
        ch += 1;
    }
    assert(rows(out@) =~= stereo::<T, W>(wave, frames as nat));
    out
}

/// A tone at another frequency and level on each channel.
pub struct Tone<R> {
    /// Angular frequency of the first channel.
    pub w: R,
    /// What each further channel adds to it.
    pub w_step: R,
    /// Amplitude of the first channel.
    pub amp: R,
    /// What each further channel takes off it.
    pub amp_step: R,
}

impl<R: Real> Wave<R> for Tone<R> {
    open spec fn at(&self, ch: u64, i: u64) -> R {
        let w = self.w.sum(self.w_step.prod(R::natural(ch)));
        let amp = self.amp.diff(self.amp_step.prod(R::natural(ch)));
        R::natural(i).prod(w).sine().prod(amp)
    }

    fn sample(&self, ch: u64, i: u64) -> (r: R) {
        let c = R::from_u64(ch);
        let w = self.w.plus(self.w_step.times(c));
        let amp = self.amp.minus(self.amp_step.times(c));
        R::from_u64(i).times(w).sin().times(amp)
    }
}

/// A linear chirp.
pub struct Sweep<R> {
    /// Angular frequency at the start of the first channel.
    pub w: R,
    /// What each further channel adds to it.
    pub w_step: R,
    /// How fast the frequency rises.
    pub rate: R,
    pub amp: R,
}

impl<R: Real> Wave<R> for Sweep<R> {
    open spec fn at(&self, ch: u64, i: u64) -> R {
        let w = self.w.sum(self.w_step.prod(R::natural(ch)));
        let t = R::natural(i);
        w.prod(t).sum(R::decimal_of(5, -1).prod(self.rate).prod(t).prod(t)).sine().prod(self.amp)
    }

    fn sample(&self, ch: u64, i: u64) -> (r: R) {
        let w = self.w.plus(self.w_step.times(R::from_u64(ch)));
        let t = R::from_u64(i);
        w.times(t).plus(R::decimal(5, -1).times(self.rate).times(t).times(t)).sin().times(self.amp)
    }
}

/// The tone of [`tone_stereo`].
pub open spec fn reference_tone<R: Real>() -> Tone<R> {
    Tone {
        w: R::decimal_of(11, -3),
        w_step: R::decimal_of(6, -3),
        amp: R::decimal_of(7, -1),
        amp_step: R::decimal_of(8, -2),
    }
}

/// A tone on two channels below full scale.
pub fn tone_stereo<T: Sample>(frames: usize) -> (r: Vec<Vec<T>>)
    ensures
        rows(r@) == stereo::<T, Tone<T::Real>>(reference_tone(), frames as nat),
{
    render_stereo(
        Tone {
            w: T::Real::decimal(11, -3),
            w_step: T::Real::decimal(6, -3),
            amp: T::Real::decimal(7, -1),
            amp_step: T::Real::decimal(8, -2),
        },
        frames,
    )
}

/// The chirp of [`sweep_stereo`].
pub open spec fn reference_sweep<R: Real>() -> Sweep<R> {
    Sweep {
        w: R::decimal_of(10, -3),
        w_step: R::decimal_of(3, -3),
        rate: R::decimal_of(2, -5),
        amp: R::decimal_of(6, -1),
    }
}

/// A linear chirp on two channels below full scale.
pub fn sweep_stereo<T: Sample>(frames: usize) -> (r: Vec<Vec<T>>)
    ensures
        rows(r@) == stereo::<T, Sweep<T::Real>>(reference_sweep(), frames as nat),
{
    render_stereo(
        Sweep {
            w: T::Real::decimal(10, -3),
            w_step: T::Real::decimal(3, -3),
            rate: T::Real::decimal(2, -5),
            amp: T::Real::decimal(6, -1),
        },
        frames,
    )
}

/// A tone at one level on each channel.
pub struct LoudTone<R> {
    /// Angular frequency of the first channel.
    pub w: R,
    /// What each further channel adds to it.
    pub w_step: R,
    pub amp: R,
}

impl<R: Real> Wave<R> for LoudTone<R> {
    open spec fn at(&self, ch: u64, i: u64) -> R {
        let w = self.w.sum(self.w_step.prod(R::natural(ch)));
        R::natural(i).prod(w).sine().prod(self.amp)
    }

    fn sample(&self, ch: u64, i: u64) -> (r: R) {
        let w = self.w.plus(self.w_step.times(R::from_u64(ch)));
        R::from_u64(i).times(w).sin().times(self.amp)
    }
}

/// The tone of [`loud_stereo`].
pub open spec fn reference_loud<R: Real>() -> LoudTone<R> {
    LoudTone { w: R::decimal_of(20, -3), w_step: R::decimal_of(5, -3), amp: R::decimal_of(18, -1) }
}

/// A tone on two channels above full scale.
pub fn loud_stereo<T: Sample>(frames: usize) -> (r: Vec<Vec<T>>)
    ensures
        rows(r@) == stereo::<T, LoudTone<T::Real>>(reference_loud(), frames as nat),
{
    render_stereo(
        LoudTone {
            w: T::Real::decimal(20, -3),
            w_step: T::Real::decimal(5, -3),
            amp: T::Real::decimal(18, -1),
        },
        frames,
    )
}

/// What the reference tones are. Where arithmetic never rounds, sample `i` of a channel is a
/// level times the sine of `i` times an angle; each further channel turns faster, by the same
/// angle, and the first tone is lower there by the same level.
///
/// The angles are what is returned.
pub proof fn tones_turn_by_their_angles<T: Sample>(
    frames: nat,
    ch: int,
    i: int,
    of: spec_fn(T::Real) -> real,
) -> (angles: (T::Real, T::Real))
    requires
        unrounded::<T::Real>(of),
        frames <= u64::MAX,
        0 <= ch < 2,
        0 <= i < frames,
    ensures
        ({
            let (c, t) = (ch as real, i as real);
            &&& of(angles.0) == t * (of(T::Real::decimal_of(11, -3)) + c * of(
                T::Real::decimal_of(6, -3),
            ))
            &&& exists|y: T::Real|
                stereo::<T, Tone<T::Real>>(reference_tone(), frames)[ch][i] == #[trigger] T::stored(
                    y,
                ) && of(y) == of(angles.0.sine()) * (of(T::Real::decimal_of(7, -1)) - c * of(
                    T::Real::decimal_of(8, -2),
                ))
            &&& of(angles.1) == t * (of(T::Real::decimal_of(20, -3)) + c * of(
                T::Real::decimal_of(5, -3),
            ))
            &&& exists|y: T::Real|
                stereo::<T, LoudTone<T::Real>>(reference_loud(), frames)[ch][i]
                    == #[trigger] T::stored(y) && of(y) == of(angles.1.sine()) * of(
                    T::Real::decimal_of(18, -1),
                )
        }),
{
    lemma_unrounded::<T::Real>(of);
    let (c, n) = (T::Real::natural(ch as u64), T::Real::natural(i as u64));
    lemma_naturals::<T::Real>(ch as u64, i as u64, of);
    let tone = reference_tone::<T::Real>();
    let loud = reference_loud::<T::Real>();
    lemma_swap(of(tone.w_step), of(c));
    lemma_swap(of(tone.amp_step), of(c));
    lemma_swap(of(loud.w_step), of(c));
    let first = n.prod(tone.w.sum(tone.w_step.prod(c)));
    let second = n.prod(loud.w.sum(loud.w_step.prod(c)));
    let (a, b) = (tone.at(ch as u64, i as u64), loud.at(ch as u64, i as u64));
    assert(of(a) == of(first.sine()) * of(tone.amp.diff(tone.amp_step.prod(c))));
    assert(stereo::<T, Tone<T::Real>>(tone, frames)[ch][i] == T::stored(a));
    assert(stereo::<T, LoudTone<T::Real>>(loud, frames)[ch][i] == T::stored(b));
    (first, second)
}

/// What the reference chirp is. Where arithmetic never rounds, sample `i` of a channel is a
/// level times the sine of an angle, which the next sample goes on from by the angle of the
/// channel and `i` and a half times what the angle grows by.
///
/// The two angles are what is returned.
pub proof fn chirps_rise_steadily<T: Sample>(
    frames: nat,
    ch: int,
    i: int,
    of: spec_fn(T::Real) -> real,
) -> (angles: (T::Real, T::Real))
    requires
        unrounded::<T::Real>(of),
        frames <= u64::MAX,
        0 <= ch < 2,
        0 <= i < i + 1 < frames,
    ensures
        ({
            let wave = stereo::<T, Sweep<T::Real>>(reference_sweep(), frames)[ch];
            let (c, t) = (ch as real, i as real);
            let level = of(T::Real::decimal_of(6, -1));
            let rate = of(T::Real::decimal_of(2, -5));
            &&& i == 0 ==> of(angles.0) == 0real
            &&& of(angles.1) - of(angles.0) == of(T::Real::decimal_of(10, -3)) + c * of(
                T::Real::decimal_of(3, -3),
            ) + (t + 1real / 2real) * rate
            &&& exists|y: T::Real|
                wave[i] == #[trigger] T::stored(y) && of(y) == of(angles.0.sine()) * level
            &&& exists|y: T::Real|
                wave[i + 1] == #[trigger] T::stored(y) && of(y) == of(angles.1.sine()) * level
        }),
{
    lemma_unrounded::<T::Real>(of);
    let c = T::Real::natural(ch as u64);
    lemma_naturals::<T::Real>(ch as u64, i as u64, of);
    lemma_naturals::<T::Real>(ch as u64, (i + 1) as u64, of);
    let sweep = reference_sweep::<T::Real>();
    let w = sweep.w.sum(sweep.w_step.prod(c));
    lemma_swap(of(sweep.w_step), of(c));
    let half = T::Real::decimal_of(5, -1).prod(sweep.rate);
    let (s, t) = (T::Real::natural(i as u64), T::Real::natural((i + 1) as u64));
    let first = w.prod(s).sum(half.prod(s).prod(s));
    let second = w.prod(t).sum(half.prod(t).prod(t));
    lemma_chirp(of(w), of(half), of(s));
    let rate = of(sweep.rate);
    assert(2real * of(half) == rate) by (nonlinear_arith)
        requires
            of(half) == (1real / 2real) * rate,
    ;
    lemma_twice(of(half), of(s), rate);
    if i == 0 {
        assert(of(w) * 0real == 0real && of(half) * 0real == 0real) by (nonlinear_arith);
    }
    assert(of(t) == of(s) + 1real);
    let (a, b) = (sweep.at(ch as u64, i as u64), sweep.at(ch as u64, (i + 1) as u64));
    assert(of(a) == of(first.sine()) * of(sweep.amp));
    assert(of(b) == of(second.sine()) * of(sweep.amp));
    let wave = stereo::<T, Sweep<T::Real>>(sweep, frames)[ch];
    assert(wave[i] == T::stored(a) && wave[i + 1] == T::stored(b));
    (first, second)
}

proof fn lemma_naturals<R: Real>(a: u64, b: u64, of: spec_fn(R) -> real)
    requires
        unrounded::<R>(of),
    ensures
        of(R::natural(a)) == a as real,
        of(R::natural(b)) == b as real,
{
    let fits = |x: real| true;
    assert(exact::<R>(of, fits));
    assert(fits(a as real) && fits(b as real));
}

/// How far an angle that grows moves in one step.
proof fn lemma_chirp(w: real, half: real, s: real)
    ensures
        w * (s + 1real) + (half * (s + 1real)) * (s + 1real) - (w * s + (half * s) * s) == w + 2real
            * (half * s) + half,
{
    let x = half * s;
    assert(half * (s + 1real) == x + half) by (nonlinear_arith)
        requires
            x == half * s,
    ;
    assert((x + half) * (s + 1real) == x * s + x + half * s + half) by (nonlinear_arith);
    assert(w * (s + 1real) == w * s + w) by (nonlinear_arith);
}

proof fn lemma_twice(half: real, s: real, rate: real)
    requires
        2real * half == rate,
    ensures
        2real * (half * s) + half == (s + 1real / 2real) * rate,
{
    assert(2real * (half * s) + half == (s + 1real / 2real) * (2real * half)) by (nonlinear_arith);
}

} // verus!
