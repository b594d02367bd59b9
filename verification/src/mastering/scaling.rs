//! What gains, factors and quantizers do to a sample.

use crate::contract::spec::ProcessSpec;
use crate::contract::traits::{FrameModel, Kernel, NoParams};
use crate::dsp::algebra::{lemma_rotate, lemma_spread, lemma_times};
use crate::dsp::level::linear_of;
use crate::dynamics::curves::decibels_are_twenty_to_a_decade;
use crate::dsp::rng::xorshift;
use crate::generators::phases::fractions_are_uniform_places;
use crate::mastering::dither::{level_of, triangular, Dither, DitherModel};
use crate::mastering::gain::{Gain, GainParams};
use crate::mastering::scale::Scale;
use crate::number::{
    lemma_ratio, lemma_unrounded, logarithmic, size, splits, unit, unrounded, within, Order, Real,
    Sample,
};
use vstd::arithmetic::power2::{
    lemma2_to64, lemma_pow2_pos, lemma_pow2_strictly_increases, pow2,
};
use vstd::bits::lemma_u64_shl_is_mul;
use vstd::prelude::*;

verus! {

/// A gain adds its decibels to the level of every sample: where arithmetic never rounds, a
/// sample is stored times an amplitude whose logarithm is a twentieth of the gain times that
/// of ten, the same on every channel.
pub proof fn gains_add_their_decibels<T: Sample>(
    p: GainParams<T::Real>,
    x: Seq<T>,
    c: int,
    of: spec_fn(T::Real) -> real,
    ln: spec_fn(real) -> real,
) -> (y: T::Real)
    requires
        unrounded::<T::Real>(of),
        logarithmic::<T::Real>(of, ln),
        0 <= c < x.len(),
        x[c].value().finite(),
        of(x[c].value()) > 0real,
        of(x[c].value().logarithm10()) * of(T::Real::decimal_of(2302585092994046, -15)) == ln(
            of(x[c].value()),
        ),
    ensures
        <Gain<T> as FrameModel<T>>::emit((), p, x, Seq::empty())[c] == T::stored(y),
        20real * ln(of(y)) == 20real * ln(of(x[c].value())) + of(p.gain_db) * of(
            T::Real::decimal_of(2302585092994046, -15),
        ),
{
    lemma_unrounded::<T::Real>(of);
    let v = x[c].value();
    let g = linear_of(p.gain_db);
    decibels_are_twenty_to_a_decade::<T::Real>(p.gain_db, v, of, ln);
    assert(splits(ln, of(v), of(g)));
    v.prod(g)
}

/// A scale multiplies every sample by its factor.
pub proof fn scales_multiply_by_their_factor<T: Sample>(
    factor: T::Real,
    x: Seq<T>,
    c: int,
    of: spec_fn(T::Real) -> real,
) -> (y: T::Real)
    requires
        unrounded::<T::Real>(of),
        0 <= c < x.len(),
        x[c].value().finite(),
    ensures
        <Scale<T> as FrameModel<T>>::emit(factor, NoParams, x, Seq::empty())[c] == T::stored(y),
        of(y) == of(factor) * of(x[c].value()),
{
    lemma_unrounded::<T::Real>(of);
    let y = x[c].value().prod(factor);
    let (a, b) = (of(x[c].value()), of(factor));
    assert(a * b == b * a) by (nonlinear_arith);
    y
}

/// Triangular noise lies strictly between minus one and one, and is the difference of two
/// uniform fractions.
pub proof fn triangular_noise_spans_two_levels<R: Real>(s: u64, of: spec_fn(R) -> real)
    requires
        unrounded::<R>(of),
    ensures
        -1real < of(triangular::<R>(s)) < 1real,
{
    lemma_unrounded::<R>(of);
    fractions_are_uniform_places::<R>(xorshift(s), of);
    fractions_are_uniform_places::<R>(xorshift(xorshift(s)), of);
}

/// Dither quantizes to the nearest level after at most one level of noise: where arithmetic
/// never rounds and rounding goes to a nearest whole number, what a sample inside the range
/// is stored as differs from it by at most one and a half steps.
pub proof fn dither_stays_near_the_sample<T: Sample>(
    m: DitherModel<T::Real>,
    x: Seq<T>,
    c: int,
    of: spec_fn(T::Real) -> real,
) -> (y: T::Real)
    requires
        unrounded::<T::Real>(of),
        0 <= c < x.len(),
        m.rngs.len() == x.len(),
        x[c].value().finite(),
        of(m.step) > 0real,
        of(m.step) * of(m.inv) == 1real,
        ({
            let aim = x[c].value().sum(triangular::<T::Real>(m.rngs[c]).prod(m.step)).prod(m.inv);
            &&& 2real * size(of(aim.rounded()) - of(aim)) <= 1real
            &&& within(aim.rounded(), m.inv.opposite(), m.inv.diff(unit()))
        }),
    ensures
        <Dither<T> as FrameModel<T>>::emit(m, NoParams, x, Seq::empty())[c] == T::stored(y),
        2real * size(of(y) - of(x[c].value())) <= 3real * of(m.step),
{
    lemma_unrounded::<T::Real>(of);
    let v = x[c].value();
    let noise = triangular::<T::Real>(m.rngs[c]);
    triangular_noise_spans_two_levels::<T::Real>(m.rngs[c], of);
    let moved = v.sum(noise.prod(m.step));
    let aim = moved.prod(m.inv);
    let level = level_of(v, m.rngs[c], m.step, m.inv);
    assert(level == aim.rounded());
    let y = level.prod(m.step);
    let (s, i, t) = (of(m.step), of(m.inv), of(moved));
    let off = of(level) - of(aim);
    lemma_spread(of(aim), off, 0real, 0real, 0real, s);
    assert(0real * s == 0real);
    lemma_rotate(t, i, s);
    assert((t * s) * i == t * (s * i)) by (nonlinear_arith);
    lemma_times(s * i, 1real, t);
    assert(t * (s * i) == (s * i) * t) by (nonlinear_arith);
    assert(1real * t == t);
    assert(of(aim) * s == t);
    assert(of(y) == t + off * s);
    assert(2real * (off * s) <= s && 2real * (off * s) >= -s) by (nonlinear_arith)
        requires
            s > 0real,
            -1real <= 2real * off <= 1real,
    ;
    let n = of(noise);
    assert(-s <= n * s <= s) by (nonlinear_arith)
        requires
            s > 0real,
            -1real < n < 1real,
    ;
    assert(t == of(v) + n * s);
    y
}

/// A quantizer of `bits` bits has `2^(bits - 1)` levels above zero, and its step is one part
/// of that many.
pub proof fn quantizers_divide_unity<T: Sample>(
    d: Dither<T>,
    spec: ProcessSpec,
    of: spec_fn(T::Real) -> real,
)
    requires
        unrounded::<T::Real>(of),
        1 <= d.bits <= 32,
    ensures
        ({
            let m = <Dither<T> as Kernel<T>>::made(&d, spec);
            &&& of(m.inv) == pow2((d.bits - 1) as nat) as int as real
            &&& of(m.step) * of(m.inv) == 1real
        }),
{
    lemma_unrounded::<T::Real>(of);
    let shift = (d.bits - 1) as u64;
    let levels = 1u64 << ((d.bits - 1) as u32);
    lemma2_to64();
    lemma_pow2_strictly_increases(shift as nat, 32);
    lemma_u64_shl_is_mul(1, shift);
    lemma_pow2_pos((d.bits - 1) as nat);
    assert(levels == 1u64 << shift);
    let fits = |x: real| true;
    assert(fits(levels as real));
    let m = <Dither<T> as Kernel<T>>::made(&d, spec);
    lemma_ratio(of(m.step), 1real, of(m.inv));
}

} // verus!
