//! How oscillators run through their cycles, and what the waves and the noise are.

use crate::contract::traits::FrameModel;
use crate::dsp::algebra::lemma_times;
use crate::dsp::rng::{bipolar_fraction, unit_fraction, xorshift};
use crate::generators::poly_blep::{
    cycle_increment, residual, wave, PolyBlepOsc, PolyBlepOscModel, PolyBlepOscParams, Waveform,
};
use crate::generators::sine::{sine_increment, SineOsc, SineOscModel, SineOscParams};
use crate::generators::tone::top_frequency;
use crate::number::{
    at_most, lemma_ratio, lemma_unrounded, nil, unit, unrounded, within, Order, Real, Sample,
};
use vstd::prelude::*;

verus! {

/// A sine oscillator after `n` frames with the parameters `p`.
pub open spec fn sine_after<T: Sample>(
    m: SineOscModel<T::Real>,
    p: SineOscParams<T::Real>,
    n: nat,
) -> SineOscModel<T::Real>
    decreases n,
{
    if n == 0 {
        m
    } else {
        <SineOsc<T> as FrameModel<T>>::next(
            sine_after::<T>(m, p, (n - 1) as nat),
            p,
            Seq::empty(),
            Seq::empty(),
        )
    }
}

/// A sine oscillator runs at its frequency. Where arithmetic never rounds, `n` frames move
/// the phase by `n` times the frequency's share of a full turn per frame, less whole turns;
/// every channel gets the amplitude times the sine of the phase.
pub proof fn sine_runs_at_its_frequency<T: Sample>(
    m: SineOscModel<T::Real>,
    p: SineOscParams<T::Real>,
    n: nat,
    of: spec_fn(T::Real) -> real,
) -> (turns: int)
    requires
        unrounded::<T::Real>(of),
        of(m.fs) != 0real,
        p.frequency_hz.finite() && top_frequency(m.fs).finite(),
        !top_frequency(m.fs).below(p.frequency_hz),
    ensures
        ({
            let turn = of(T::Real::decimal_of(6283185307179586, -15));
            let step = of(sine_increment(p.frequency_hz, m.fs));
            let after = sine_after::<T>(m, p, n);
            &&& step * of(m.fs) == turn * of(p.frequency_hz)
            &&& after.fs == m.fs
            &&& 0 <= turns <= n
            &&& of(after.phase) == of(m.phase) + (n as int as real) * step - (turns as real) * turn
            &&& forall|c: int|
                0 <= c < usize::MAX ==> #[trigger] <SineOsc<T> as FrameModel<T>>::emit(
                    after,
                    p,
                    Seq::empty(),
                    Seq::empty(),
                )[c] == T::stored(p.amplitude.prod(after.phase.sine()))
        }),
    decreases n,
{
    lemma_unrounded::<T::Real>(of);
    let tau = T::Real::decimal_of(6283185307179586, -15);
    let turn = of(tau);
    let inc = sine_increment(p.frequency_hz, m.fs);
    let step = of(inc);
    lemma_ratio(step, of(tau.prod(p.frequency_hz)), of(m.fs));
    if n == 0 {
        assert(0real * step == 0real && 0real * turn == 0real) by (nonlinear_arith);
        0
    } else {
        let k = (n - 1) as int;
        let before = sine_runs_at_its_frequency::<T>(m, p, (n - 1) as nat, of);
        let was = sine_after::<T>(m, p, (n - 1) as nat);
        assert((k as real) * step + step == ((k + 1) as real) * step) by (nonlinear_arith);
        let moved = was.phase.sum(inc);
        if at_most(tau, moved) {
            assert((before as real) * turn + turn == ((before + 1) as real) * turn)
                by (nonlinear_arith);
            before + 1
        } else {
            before
        }
    }
}

/// A waveform oscillator after `n` frames with the parameters `p`.
pub open spec fn wave_after<T: Sample>(
    m: PolyBlepOscModel<T::Real>,
    p: PolyBlepOscParams<T::Real>,
    n: nat,
) -> PolyBlepOscModel<T::Real>
    decreases n,
{
    if n == 0 {
        m
    } else {
        <PolyBlepOsc<T> as FrameModel<T>>::next(
            wave_after::<T>(m, p, (n - 1) as nat),
            p,
            Seq::empty(),
            Seq::empty(),
        )
    }
}

/// A waveform oscillator runs at its frequency. Where arithmetic never rounds, `n` frames
/// move the phase by `n` times the frequency over the rate, less whole cycles; every channel
/// gets the amplitude times the wave at the phase.
pub proof fn waves_run_at_their_frequency<T: Sample>(
    m: PolyBlepOscModel<T::Real>,
    p: PolyBlepOscParams<T::Real>,
    n: nat,
    of: spec_fn(T::Real) -> real,
) -> (cycles: int)
    requires
        unrounded::<T::Real>(of),
        of(m.fs) != 0real,
        p.frequency_hz.finite() && top_frequency(m.fs).finite(),
        !top_frequency(m.fs).below(p.frequency_hz),
        within(p.frequency_hz.quot(m.fs), nil(), T::Real::decimal_of(5, -1)),
    ensures
        ({
            let step = of(cycle_increment(p.frequency_hz, m.fs));
            let after = wave_after::<T>(m, p, n);
            &&& step * of(m.fs) == of(p.frequency_hz)
            &&& after.fs == m.fs && after.kind == m.kind
            &&& 0 <= cycles <= n
            &&& of(after.phase) == of(m.phase) + (n as int as real) * step - cycles as real
            &&& forall|c: int|
                0 <= c < usize::MAX ==> #[trigger] <PolyBlepOsc<T> as FrameModel<T>>::emit(
                    after,
                    p,
                    Seq::empty(),
                    Seq::empty(),
                )[c] == T::stored(
                    p.amplitude.prod(wave(m.kind, after.phase, p.frequency_hz.quot(m.fs))),
                )
        }),
    decreases n,
{
    lemma_unrounded::<T::Real>(of);
    let inc = cycle_increment(p.frequency_hz, m.fs);
    assert(inc == p.frequency_hz.quot(m.fs));
    let step = of(inc);
    lemma_ratio(step, of(p.frequency_hz), of(m.fs));
    if n == 0 {
        assert(0real * step == 0real) by (nonlinear_arith);
        0
    } else {
        let k = (n - 1) as int;
        let before = waves_run_at_their_frequency::<T>(m, p, (n - 1) as nat, of);
        let was = wave_after::<T>(m, p, (n - 1) as nat);
        assert((k as real) * step + step == ((k + 1) as real) * step) by (nonlinear_arith);
        if at_most(unit(), was.phase.sum(inc)) {
            before + 1
        } else {
            before
        }
    }
}

/// The residual rounds a step off over one increment on either side: where arithmetic never
/// rounds, it is minus the square of what is missing to a full increment after the step, the
/// square of it before the step, and nothing elsewhere.
pub proof fn residual_is_a_rounded_step<R: Real>(t: R, dt: R, of: spec_fn(R) -> real)
    requires
        unrounded::<R>(of),
        of(dt) != 0real,
    ensures
        t.below(dt) ==> of(residual(t, dt)) == -((1real - of(t) / of(dt)) * (1real - of(t) / of(
            dt,
        ))),
        !t.below(dt) && unit::<R>().diff(dt).below(t) ==> of(residual(t, dt)) == (1real + (of(t)
            - 1real) / of(dt)) * (1real + (of(t) - 1real) / of(dt)),
        !t.below(dt) && !unit::<R>().diff(dt).below(t) ==> of(residual(t, dt)) == 0real,
{
    lemma_unrounded::<R>(of);
    let a = of(t) / of(dt);
    let b = (of(t) - 1real) / of(dt);
    assert(a + a - a * a - 1real == -((1real - a) * (1real - a))) by (nonlinear_arith);
    assert(b * b + b + b + 1real == (1real + b) * (1real + b)) by (nonlinear_arith);
}

/// Away from its steps a wave is the plain one: a sawtooth rises from minus one to one over
/// a cycle, and a square is one in the first half and minus one in the second. At its steps
/// it differs from that by the residual alone.
pub proof fn waves_are_plain_away_from_their_steps<R: Real>(
    p: R,
    dt: R,
    of: spec_fn(R) -> real,
)
    requires
        unrounded::<R>(of),
    ensures
        of(wave(Waveform::Saw, p, dt)) == 2real * of(p) - 1real - of(residual(p, dt)),
        !p.below(dt) && !unit::<R>().diff(dt).below(p) ==> of(wave(Waveform::Saw, p, dt)) == 2real
            * of(p) - 1real,
        ({
            let half = R::decimal_of(5, -1);
            let across = if at_most(unit(), p.sum(half)) {
                p.diff(half)
            } else {
                p.sum(half)
            };
            let level = if p.below(half) {
                1real
            } else {
                -1real
            };
            &&& of(wave(Waveform::Square, p, dt)) == level + of(residual(p, dt)) - of(
                residual(across, dt),
            )
            &&& !p.below(dt) && !unit::<R>().diff(dt).below(p) && !across.below(dt) && !unit::<
                R,
            >().diff(dt).below(across) ==> of(wave(Waveform::Square, p, dt)) == level
        }),
{
    lemma_unrounded::<R>(of);
    let fits = |x: real| true;
    assert(fits((-1int) as real));
    assert((-1int) as real == -1real);
    assert(of(R::decimal_of(-1, 0)) == -1real);
}

/// Uniform fractions lie in the unit interval, and noise in twice it around zero: where
/// arithmetic never rounds, a fraction is the top 53 bits over their count.
pub proof fn fractions_are_uniform_places<R: Real>(x: u64, of: spec_fn(R) -> real)
    requires
        unrounded::<R>(of),
    ensures
        of(unit_fraction::<R>(x)) * 9007199254740992real == (x >> 11) as int as real,
        0real <= of(unit_fraction::<R>(x)) < 1real,
        of(bipolar_fraction::<R>(x)) == 2real * of(unit_fraction::<R>(x)) - 1real,
        -1real <= of(bipolar_fraction::<R>(x)) < 1real,
{
    lemma_unrounded::<R>(of);
    let fits = |x: real| true;
    let top = x >> 11;
    assert(top < 0x20_0000_0000_0000) by (bit_vector)
        requires
            top == x >> 11,
    ;
    assert(fits(top as real) && fits(0x20_0000_0000_0000u64 as real));
    assert(of(R::natural(top)) == top as real);
    let count = R::natural(0x20_0000_0000_0000);
    assert(of(count) == 9007199254740992real);
    let inv = unit::<R>().quot(count);
    let (n, k) = (of(R::natural(top)), of(inv));
    lemma_ratio(k, 1real, 9007199254740992real);
    assert(of(unit_fraction::<R>(x)) == n * k);
    assert((n * k) * 9007199254740992real == n * (k * 9007199254740992real)) by (nonlinear_arith);
    lemma_times(k * 9007199254740992real, 1real, n);
    assert(n * (k * 9007199254740992real) == (k * 9007199254740992real) * n) by (nonlinear_arith);
    assert(1real * n == n);
    assert(of(unit_fraction::<R>(x)) * 9007199254740992real == n);
    assert((0int as real) <= n < (9007199254740992int as real));
}

/// Noise stays within its amplitude: where arithmetic never rounds, the product of a
/// positive amplitude and a bipolar fraction lies from minus the amplitude up to, but not
/// at, the amplitude.
pub proof fn noise_stays_within_its_amplitude<R: Real>(
    amplitude: R,
    s: u64,
    of: spec_fn(R) -> real,
)
    requires
        unrounded::<R>(of),
        of(amplitude) > 0real,
    ensures
        -of(amplitude) <= of(amplitude.prod(bipolar_fraction::<R>(xorshift(s)))) < of(amplitude),
{
    lemma_unrounded::<R>(of);
    fractions_are_uniform_places::<R>(xorshift(s), of);
    let (a, f) = (of(amplitude), of(bipolar_fraction::<R>(xorshift(s))));
    assert(-a <= a * f < a) by (nonlinear_arith)
        requires
            a > 0real,
            -1real <= f < 1real,
    ;
}

/// Oscillators run no faster than 999 thousandths of half the rate: a frequency above that
/// steps as that one does.
pub proof fn oscillators_stay_below_half_the_rate<R: Real>(
    frequency_hz: R,
    fs: R,
    of: spec_fn(R) -> real,
)
    requires
        unrounded::<R>(of),
        frequency_hz.finite() && top_frequency(fs).finite(),
        top_frequency(fs).below(frequency_hz),
        of(R::decimal_of(999, -3)) * 1000real == 999real,
    ensures
        of(top_frequency(fs)) * 2000real == 999real * of(fs),
        sine_increment(frequency_hz, fs) == sine_increment(top_frequency(fs), fs),
        cycle_increment(frequency_hz, fs) == cycle_increment(top_frequency(fs), fs),
{
    lemma_unrounded::<R>(of);
    let (f, k) = (of(fs), of(R::decimal_of(999, -3)));
    assert((f * (1real / 2real)) * k * 2000real == f * (k * 1000real)) by (nonlinear_arith);
    lemma_times(k * 1000real, 999real, f);
    assert(f * (k * 1000real) == (k * 1000real) * f) by (nonlinear_arith);
}

} // verus!
