//! The paths that smoothed parameters take.

use crate::contract::param::{denormalized, normalized, ParamInfo, Smoothing, ValueScale};
use crate::dsp::algebra::{lemma_negate, lemma_spread, lemma_swap, lemma_times};
use crate::dsp::smoother::{fresh, retargeted, smoothing_steps, smoothing_time, stepped, Smoother};
use crate::number::{
    clamped, larger, lemma_ratio, lemma_unrounded, logarithmic, nil, size, smaller, splits, unit,
    unrounded, within, Order, Real,
};
use vstd::prelude::*;

verus! {

/// Magnitudes and signs are those of the readings.
pub open spec fn signed<R: Real>(of: spec_fn(R) -> real) -> bool {
    &&& forall|a: R| of(#[trigger] a.magnitude()) == size(of(a))
    &&& forall|a: R, b: R|
        of(b) != 0real ==> of(#[trigger] a.signed_as(b)) == if of(b) < 0real {
            -size(of(a))
        } else {
            size(of(a))
        }
}

/// The steps of a smoothing time: where arithmetic never rounds, as many as there are spans
/// of 32 frames in the time.
pub proof fn steps_are_spans_of_the_grid<R: Real>(
    smoothing_ms: R,
    sample_rate: u32,
    of: spec_fn(R) -> real,
)
    requires
        unrounded::<R>(of),
        of(R::decimal_of(1, -3)) * 1000real == 1real,
    ensures
        of(smoothing_steps(smoothing_ms, sample_rate)) * 32000real == of(smoothing_ms) * (
        sample_rate as real),
{
    lemma_unrounded::<R>(of);
    let fits = |x: real| true;
    assert(fits(sample_rate as u64 as real) && fits(32u64 as real));
    let rate = R::natural(sample_rate as u64);
    assert(of(rate) == sample_rate as real);
    let grid = R::natural(32);
    assert(of(grid) == 32real);
    let (m, k, r) = (of(smoothing_ms), of(R::decimal_of(1, -3)), of(rate));
    let s = of(smoothing_steps(smoothing_ms, sample_rate));
    lemma_ratio(s, (m * k) * r, 32real);
    assert(((m * k) * r) * 1000real == (m * r) * (k * 1000real)) by (nonlinear_arith);
    lemma_times(k * 1000real, 1real, m * r);
    lemma_swap(m * r, k * 1000real);
    assert(1real * (m * r) == m * r);
}

/// A linear ramp is straight: where arithmetic never rounds, a new target spreads the
/// distance evenly over the steps, and each step but the last moves by that much toward the
/// target.
pub proof fn linear_ramps_are_straight<R: Real>(
    s: Smoother<R>,
    value: R,
    of: spec_fn(R) -> real,
)
    requires
        unrounded::<R>(of),
        signed::<R>(of),
        s.shape == Smoothing::Linear,
        of(s.steps) > 0real,
    ensures
        ({
            let aim = clamped(value, s.range.0, s.range.1);
            let to = retargeted(s, value);
            !aim.alike(s.target) ==> {
                &&& to.target == aim && to.cur == s.cur
                &&& to.updates_remaining == s.steps.ceiling().whole()
                &&& of(to.step_delta) * of(s.steps) == size(of(aim) - of(s.cur))
            }
        }),
        ({
            let next = s.cur.sum(s.step_delta.signed_as(s.target.diff(s.cur)));
            !s.cur.alike(s.target) && s.updates_remaining > 1 && of(s.target) != of(s.cur)
                && next.finite() && within(next, s.range.0, s.range.1) ==> of(stepped(s).cur)
                == of(s.cur) + if of(s.target) < of(s.cur) {
                -size(of(s.step_delta))
            } else {
                size(of(s.step_delta))
            }
        }),
        !s.cur.alike(s.target) && s.updates_remaining <= 1 && s.target.finite() && within(
            s.target,
            s.range.0,
            s.range.1,
        ) ==> stepped(s).cur == s.target,
{
    lemma_unrounded::<R>(of);
    let aim = clamped(value, s.range.0, s.range.1);
    let d = aim.diff(s.cur).magnitude();
    lemma_ratio(of(d.quot(s.steps)), of(d), of(s.steps));
}

/// A one-pole ramp covers a fixed share of the distance per step: where arithmetic never
/// rounds, that of a coefficient whose complement is the exponential of a number that, times
/// the steps, is minus one.
pub proof fn one_pole_ramps_cover_a_share<R: Real>(
    s: Smoother<R>,
    info: ParamInfo<R>,
    sample_rate: u32,
    of: spec_fn(R) -> real,
) -> (arg: R)
    requires
        unrounded::<R>(of),
        s.shape == Smoothing::OnePole,
        info.smoothing == Smoothing::OnePole,
        of(smoothing_steps(smoothing_time(info), sample_rate)) != 0real,
        ({
            let next = s.cur.sum(s.target.diff(s.cur).prod(s.coeff));
            next.finite() && within(next, s.range.0, s.range.1)
        }),
    ensures
        of(stepped(s).cur) == of(s.cur) + (of(s.target) - of(s.cur)) * of(s.coeff),
        of(fresh(info, sample_rate).coeff) == 1real - of(arg.exponential()),
        of(arg) * of(smoothing_steps(smoothing_time(info), sample_rate)) == -1real,
{
    lemma_unrounded::<R>(of);
    let steps = smoothing_steps(smoothing_time(info), sample_rate);
    let one = unit::<R>();
    let arg = one.opposite().quot(steps);
    lemma_ratio(of(arg), -1real, of(steps));
    arg
}

/// An exponential ramp is straight on the scale of logarithms: where arithmetic never rounds,
/// a new target between positive values spreads the ratio evenly over the steps, and each
/// step but the last moves by one such factor toward the target.
pub proof fn exponential_ramps_are_straight_in_logarithms<R: Real>(
    s: Smoother<R>,
    value: R,
    of: spec_fn(R) -> real,
    ln: spec_fn(real) -> real,
)
    requires
        unrounded::<R>(of),
        signed::<R>(of),
        logarithmic::<R>(of, ln),
        s.shape == Smoothing::Exponential,
        of(s.steps) > 0real,
        of(s.cur) > 0real,
    ensures
        ({
            let aim = clamped(value, s.range.0, s.range.1);
            let to = retargeted(s, value);
            !aim.alike(s.target) && nil::<R>().below(s.cur) && nil::<R>().below(aim) && of(aim)
                > 0real ==> {
                &&& to.target == aim && to.cur == s.cur
                &&& of(to.coeff) > 0real
                &&& ln(of(to.coeff)) * of(s.steps) == size(ln(of(aim)) - ln(of(s.cur)))
            }
        }),
        ({
            let up = s.cur.prod(s.coeff);
            of(s.coeff) > 0real && !s.target.alike(s.cur) && s.updates_remaining > 1
                && s.cur.below(s.target) && smaller(up, s.target) == up && up.finite() && within(
                up,
                s.range.0,
                s.range.1,
            ) ==> ln(of(stepped(s).cur)) == ln(of(s.cur)) + ln(of(s.coeff))
        }),
        ({
            let down = s.cur.quot(s.coeff);
            of(s.coeff) > 0real && !s.target.alike(s.cur) && s.updates_remaining > 1
                && !s.cur.below(s.target) && s.target.below(s.cur) && larger(down, s.target) == down
                && down.finite() && within(down, s.range.0, s.range.1) ==> ln(of(stepped(s).cur))
                == ln(of(s.cur)) - ln(of(s.coeff))
        }),
{
    lemma_unrounded::<R>(of);
    let aim = clamped(value, s.range.0, s.range.1);
    let d = aim.logarithm().diff(s.cur.logarithm()).magnitude();
    let per = d.quot(s.steps);
    lemma_ratio(of(per), of(d), of(s.steps));
    assert(ln(of(per.exponential())) == of(per));
    assert(splits(ln, of(s.cur), of(s.coeff)));
}

/// Mapping to the unit interval and back gives the value again, inside the range: where
/// arithmetic never rounds, exactly on a linear scale, and by its logarithm on a logarithmic
/// one. In between the value stands for its share of the range, counted from the low end.
pub proof fn mapping_round_trips<R: Real>(
    info: ParamInfo<R>,
    value: R,
    of: spec_fn(R) -> real,
    ln: spec_fn(real) -> real,
)
    requires
        unrounded::<R>(of),
        logarithmic::<R>(of, ln),
        within(value, info.range.0, info.range.1),
        !value.alike(info.range.0) && !value.alike(info.range.1),
        within(normalized(info, value), nil(), unit()),
        !normalized(info, value).alike(nil()) && !normalized(info, value).alike(unit()),
        info.value_scale == ValueScale::Linear ==> of(info.range.0) != of(info.range.1),
        info.value_scale == ValueScale::Logarithmic ==> of(value) > 0real && of(info.range.0)
            > 0real && of(info.range.1) > 0real && ln(of(info.range.0)) != ln(of(info.range.1)),
    ensures
        info.value_scale == ValueScale::Linear ==> of(normalized(info, value)) * (of(info.range.1)
            - of(info.range.0)) == of(value) - of(info.range.0),
        info.value_scale == ValueScale::Logarithmic ==> of(normalized(info, value)) * (ln(
            of(info.range.1),
        ) - ln(of(info.range.0))) == ln(of(value)) - ln(of(info.range.0)),
        info.value_scale == ValueScale::Linear ==> of(
            denormalized(info, normalized(info, value)),
        ) == of(value),
        info.value_scale == ValueScale::Logarithmic ==> ln(
            of(denormalized(info, normalized(info, value))),
        ) == ln(of(value)),
{
    lemma_unrounded::<R>(of);
    let (lo, hi) = info.range;
    let f = normalized(info, value);
    if info.value_scale == ValueScale::Linear {
        let (l, h, v) = (of(lo), of(hi), of(value));
        if hi.diff(lo).finite() {
            lemma_ratio(of(f), v - l, h - l);
        } else {
            let g = of(f);
            let (vh, lh, hh) = (v * (1real / 2real), l * (1real / 2real), h * (1real / 2real));
            assert(hh - lh != 0real);
            lemma_ratio(g, vh - lh, hh - lh);
            assert(g * (h - l) == v - l) by {
                let w = hh - lh;
                assert(h - l == 2real * w);
                assert(g * (2real * w) == 2real * (g * w)) by (nonlinear_arith);
            }
        }
        lemma_between(l, h, of(f), v);
    } else {
        let (l, h, v) = (ln(of(lo)), ln(of(hi)), ln(of(value)));
        lemma_ratio(of(f), v - l, h - l);
        lemma_between(l, h, of(f), v);
    }
}

proof fn lemma_between(l: real, h: real, f: real, v: real)
    requires
        f * (h - l) == v - l,
    ensures
        l * (1real - f) + h * f == v,
{
    lemma_swap(f, h - l);
    lemma_spread(h, -l, 0real, 0real, 0real, f);
    lemma_negate(l, f);
    assert(0real * f == 0real);
    assert(l * (1real - f) == l - l * f) by (nonlinear_arith);
}

} // verus!
