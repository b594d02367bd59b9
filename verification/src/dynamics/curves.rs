//! What the static curves do to a level, on the scale of logarithms.

use crate::contract::traits::FrameModel;
use crate::dsp::algebra::{lemma_negate, lemma_scaled, lemma_spread, lemma_swap, lemma_times};
use crate::dsp::level::{decibels, linear_of};
use crate::dynamics::compressor::{compressor_gain, Compressor, CompressorParams};
use crate::dynamics::expander::{expander_gain, Expander, ExpanderParams};
use crate::dynamics::gate::{gate_gain, Gate, GateParams};
use crate::dynamics::shared::{env_floor, DynamicsModel};
use crate::number::{
    at_most, larger, lemma_ratio, lemma_unrounded, logarithmic, splits, unit, unrounded, Order,
    Real, Sample,
};
use vstd::prelude::*;

verus! {

/// Decibels are twenty per factor of ten: where arithmetic never rounds, the logarithm of
/// the amplitude of `db` decibels is a twentieth of `db` times that of ten, and the decibels
/// of an amplitude are twenty times its logarithm over that of ten.
pub proof fn decibels_are_twenty_to_a_decade<R: Real>(
    db: R,
    x: R,
    of: spec_fn(R) -> real,
    ln: spec_fn(real) -> real,
)
    requires
        unrounded::<R>(of),
        logarithmic::<R>(of, ln),
        of(x.logarithm10()) * of(R::decimal_of(2302585092994046, -15)) == ln(of(x)),
    ensures
        of(linear_of(db)) > 0real,
        ln(of(linear_of(db))) * 20real == of(db) * of(R::decimal_of(2302585092994046, -15)),
        of(decibels(x)) * of(R::decimal_of(2302585092994046, -15)) == 20real * ln(of(x)),
{
    lemma_unrounded::<R>(of);
    assert(20int as real == 20real);
    let twenty = R::decimal_of(20, 0);
    assert(of(twenty) == 20real);
    let ln10 = R::decimal_of(2302585092994046, -15);
    let per = ln10.quot(twenty);
    lemma_ratio(of(per), of(ln10), 20real);
    let e = db.prod(per);
    assert(of(e) == of(db) * of(per));
    assert(ln(of(linear_of(db))) == of(e));
    lemma_swap(of(db), of(per));
    lemma_scaled(1real, of(per), of(db));
    let (d, k, l) = (of(db), of(per), of(ln10));
    assert((d * k) * 20real == d * (k * 20real)) by (nonlinear_arith);
    lemma_times(k * 20real, l, d);
    lemma_swap(d, l);
    lemma_swap(d, k * 20real);
    let g = of(x.logarithm10());
    assert((20real * g) * l == 20real * (g * l)) by (nonlinear_arith);
}

/// A compressor divides what a level is above the threshold by the ratio: where arithmetic
/// never rounds, the level that comes out, less the makeup gain, is above the threshold by
/// what came in above it over the ratio.
pub proof fn compression_divides_by_the_ratio<R: Real>(
    p: CompressorParams<R>,
    env: R,
    of: spec_fn(R) -> real,
    ln: spec_fn(real) -> real,
)
    requires
        unrounded::<R>(of),
        logarithmic::<R>(of, ln),
        of(env) > 0real,
        of(p.ratio) != 0real,
        p.ratio.finite() && unit::<R>().finite() && !p.ratio.below(unit()),
        !at_most(env, linear_of(p.threshold_db)),
    ensures
        ({
            let threshold = ln(of(linear_of(p.threshold_db)));
            let makeup = ln(of(linear_of(p.makeup_db)));
            let gain = of(compressor_gain(p, env));
            &&& gain > 0real
            &&& (ln(of(env)) + ln(gain) - makeup - threshold) * of(p.ratio) == ln(of(env))
                - threshold
        }),
{
    lemma_unrounded::<R>(of);
    let (thresh, makeup) = (linear_of(p.threshold_db), linear_of(p.makeup_db));
    let one = unit::<R>();
    assert(larger(p.ratio, one) == p.ratio);
    let inv = one.quot(p.ratio);
    let slope = one.diff(inv);
    let over = env.quot(thresh);
    let (e, t, mk) = (of(env), of(thresh), of(makeup));
    assert(t > 0real && mk > 0real);
    assert(of(over) == e / t);
    assert(e / t > 0real) by {
        lemma_ratio(e / t, e, t);
        lemma_positive_factor(e / t, t);
    }
    assert(splits(ln, e, t));
    let d = ln(e) - ln(t);
    let arg = slope.opposite().prod(over.logarithm());
    let s = of(slope);
    assert(of(arg) == (-s) * d);
    lemma_negate(s, d);
    let part = arg.exponential();
    assert(splits(ln, mk, of(part)));
    let gain = compressor_gain(p, env);
    assert(of(gain) == mk * of(part));
    lemma_positive_product(mk, of(part));
    assert(ln(of(gain)) == ln(mk) - s * d);
    let (i, r) = (of(inv), of(p.ratio));
    lemma_ratio(i, 1real, r);
    assert(s == 1real - i);
    lemma_spread(1real, -i, 0real, 0real, 0real, d);
    lemma_negate(i, d);
    assert(0real * d == 0real && 1real * d == d);
    assert(ln(e) + ln(of(gain)) - ln(mk) - ln(t) == i * d);
    lemma_rotate_out(i, d, r);
}

proof fn lemma_rotate_out(i: real, d: real, r: real)
    requires
        i * r == 1real,
    ensures
        (i * d) * r == d,
{
    assert((i * d) * r == (i * r) * d) by (nonlinear_arith);
    lemma_times(i * r, 1real, d);
    assert(1real * d == d);
}

proof fn lemma_positive_factor(q: real, t: real)
    requires
        q * t > 0real,
        t > 0real,
    ensures
        q > 0real,
{
    assert(q > 0real) by (nonlinear_arith)
        requires
            q * t > 0real,
            t > 0real,
    ;
}

proof fn lemma_positive_product(a: real, b: real)
    requires
        a > 0real,
        b > 0real,
    ensures
        a * b > 0real,
{
    assert(a * b > 0real) by (nonlinear_arith)
        requires
            a > 0real,
            b > 0real,
    ;
}

/// An expander multiplies what a level is below the threshold by the ratio: where arithmetic
/// never rounds, the level that comes out is below the threshold by what came in below it
/// times the ratio.
pub proof fn expansion_multiplies_by_the_ratio<R: Real>(
    p: ExpanderParams<R>,
    env: R,
    of: spec_fn(R) -> real,
    ln: spec_fn(real) -> real,
)
    requires
        unrounded::<R>(of),
        logarithmic::<R>(of, ln),
        of(env) > 0real,
        p.ratio.finite() && unit::<R>().finite() && !p.ratio.below(unit()),
        env.finite() && env_floor::<R>().finite() && !env.below(env_floor()),
        !at_most(linear_of(p.threshold_db), env),
    ensures
        ({
            let threshold = ln(of(linear_of(p.threshold_db)));
            let gain = of(expander_gain(p, env));
            &&& gain > 0real
            &&& ln(of(env)) + ln(gain) - threshold == of(p.ratio) * (ln(of(env)) - threshold)
        }),
{
    lemma_unrounded::<R>(of);
    let thresh = linear_of(p.threshold_db);
    assert(larger(p.ratio, unit()) == p.ratio);
    assert(larger(env, env_floor()) == env);
    lemma_expansion(p.ratio, env, thresh, of, ln);
}

proof fn lemma_expansion<R: Real>(
    ratio: R,
    env: R,
    thresh: R,
    of: spec_fn(R) -> real,
    ln: spec_fn(real) -> real,
)
    requires
        unrounded::<R>(of),
        logarithmic::<R>(of, ln),
        of(env) > 0real,
        of(thresh) > 0real,
    ensures
        ({
            let gain = of(ratio.diff(unit()).prod(env.quot(thresh).logarithm()).exponential());
            &&& gain > 0real
            &&& ln(of(env)) + ln(gain) - ln(of(thresh)) == of(ratio) * (ln(of(env)) - ln(
                of(thresh),
            ))
        }),
{
    lemma_unrounded::<R>(of);
    let (e, t, r) = (of(env), of(thresh), of(ratio));
    assert(e / t > 0real) by {
        lemma_ratio(e / t, e, t);
        lemma_positive_factor(e / t, t);
    }
    assert(splits(ln, e, t));
    let d = ln(e) - ln(t);
    let arg = ratio.diff(unit()).prod(env.quot(thresh).logarithm());
    assert(of(arg) == (r - 1real) * d);
    lemma_spread(r, -1real, 0real, 0real, 0real, d);
    lemma_negate(1real, d);
    assert(0real * d == 0real && 1real * d == d);
}

/// A gate is an expander that stops at its range: its gain is that of an expander with the
/// same threshold and ratio, or that of the range where the range is larger.
pub proof fn gates_expand_down_to_their_range<R: Real>(p: GateParams<R>, env: R)
    ensures
        ({
            let open = expander_gain(
                ExpanderParams { threshold_db: p.threshold_db, ratio: p.ratio },
                env,
            );
            gate_gain(p, env) == if at_most(linear_of(p.threshold_db), env) {
                open
            } else {
                larger(open, linear_of(p.range_db))
            }
        }),
{
}

/// The dynamics processors apply one gain to all channels of a frame: that of their curve at
/// the envelope the frame leads to.
pub proof fn frames_take_one_gain<T: Sample>(
    m: DynamicsModel<T::Real>,
    compressor: CompressorParams<T::Real>,
    expander: ExpanderParams<T::Real>,
    gate: GateParams<T::Real>,
    x: Seq<T>,
    key: Seq<Seq<T>>,
    c: int,
)
    requires
        0 <= c < x.len(),
        x[c].value().finite(),
    ensures
        <Compressor<T> as FrameModel<T>>::emit(m, compressor, x, key)[c] == T::stored(
            x[c].value().prod(
                compressor_gain(
                    compressor,
                    <Compressor<T> as FrameModel<T>>::next(m, compressor, x, key).env,
                ),
            ),
        ),
        <Expander<T> as FrameModel<T>>::emit(m, expander, x, key)[c] == T::stored(
            x[c].value().prod(
                expander_gain(
                    expander,
                    <Expander<T> as FrameModel<T>>::next(m, expander, x, key).env,
                ),
            ),
        ),
        <Gate<T> as FrameModel<T>>::emit(m, gate, x, key)[c] == T::stored(
            x[c].value().prod(
                gate_gain(gate, <Gate<T> as FrameModel<T>>::next(m, gate, x, key).env),
            ),
        ),
{
}

} // verus!
