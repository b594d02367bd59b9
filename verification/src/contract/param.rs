//! Parameter identity, declared metadata, and runtime events.

use crate::number::{at_most, clamp_to, clamped, nil, unit, Order, Real};
use crate::text::{decimal_text, push_decimal};
use vstd::prelude::*;
use vstd::string::StringExecFns;

verus! {

/// A parameter's stable identity within a processor.
#[derive(Clone, Copy, Debug, PartialEq, Eq, Hash, Structural)]
pub struct ParamId(pub u32);

/// The physical unit of a parameter.
#[derive(Clone, Copy, Debug, PartialEq, Eq, Structural)]
#[non_exhaustive]
pub enum Unit {
    /// Decibels.
    Db,
    /// Frequency in Hz.
    Hz,
    /// Time in milliseconds.
    Ms,
    /// Resonance or quality factor.
    Q,
    /// A dimensionless linear value.
    Linear,
}

/// How a raw parameter value ramps toward a new target.
///
/// Each shape makes its own use of [`ParamInfo::smoothing_ms`]. With
/// `steps = smoothing_ms * 1e-3 * sample_rate / 32`, the number of control-rate
/// steps in one smoothing time, the update per control step is as follows. A ramp
/// of less than one step arrives with the first.
#[derive(Clone, Copy, Debug, PartialEq, Eq, Structural)]
#[non_exhaustive]
pub enum Smoothing {
    /// No smoothing: the value jumps at the next control-rate boundary.
    Step,
    /// Constant ramp, `abs(target - cur) / steps` per control step, snapping on
    /// arrival no later than the `ceil(steps)` control update.
    Linear,
    /// One-pole approach, `(target - cur) * (1 - exp(-1 / steps))` per control
    /// step, so that `smoothing_ms` is the time constant. The target is approached
    /// but reached only asymptotically.
    OnePole,
    /// Log-domain ramp by a constant factor per control step, snapping on
    /// arrival no later than the `ceil(steps)` update. It requires a strictly
    /// positive range minimum.
    Exponential,
}

impl Smoothing {
    /// The default ramp shape for a unit: frequencies ramp in the log domain,
    /// everything else ramps linearly over the raw value.
    pub fn default_for(unit: Unit) -> (r: Self)
        ensures
            r == (if unit == Unit::Hz {
                Smoothing::Exponential
            } else {
                Smoothing::Linear
            }),
    {
        match unit {
            Unit::Hz => Smoothing::Exponential,
            Unit::Db | Unit::Ms | Unit::Q | Unit::Linear => Smoothing::Linear,
        }
    }
}

/// How a host maps a physical parameter value to and from `[0, 1]`.
#[derive(Clone, Copy, Debug, PartialEq, Eq, Structural)]
#[non_exhaustive]
pub enum ValueScale {
    /// Uniform spacing in the physical value.
    Linear,
    /// Uniform spacing in the logarithm of a strictly positive value.
    Logarithmic,
}

impl ValueScale {
    /// The conventional mapping for `unit`: frequency is logarithmic and all
    /// other units are linear.
    pub fn default_for(unit: Unit) -> (r: Self)
        ensures
            r == (if unit == Unit::Hz {
                ValueScale::Logarithmic
            } else {
                ValueScale::Linear
            }),
    {
        match unit {
            Unit::Hz => ValueScale::Logarithmic,
            Unit::Db | Unit::Ms | Unit::Q | Unit::Linear => ValueScale::Linear,
        }
    }
}

/// Declared metadata for one automatable parameter.
#[derive(Debug)]
pub struct ParamInfo<R> {
    /// Stable identity.
    pub id: ParamId,
    /// Human-readable name.
    pub name: &'static str,
    /// Inclusive `(min, max)` range. Runtime values are clamped to it.
    pub range: (R, R),
    /// Default value.
    pub default: R,
    /// Physical unit.
    pub unit: Unit,
    /// Physical-to-normalized mapping used by generic hosts.
    pub value_scale: ValueScale,
    /// Ramp shape.
    pub smoothing: Smoothing,
    /// Smoothing time in milliseconds; its meaning depends on the shape.
    pub smoothing_ms: R,
}

impl<R: Copy> Copy for ParamInfo<R> {

}

impl<R: Copy> Clone for ParamInfo<R> {
    fn clone(&self) -> (r: Self)
        ensures
            r == *self,
    {
        *self
    }
}

/// `value` as a fraction of the declared range, where it is inside it.
pub open spec fn fraction<R: Real>(info: ParamInfo<R>, value: R) -> R {
    let (lo, hi) = info.range;
    match info.value_scale {
        ValueScale::Linear => if hi.diff(lo).finite() {
            value.diff(lo).quot(hi.diff(lo))
        } else {
            let half = R::decimal_of(5, -1);
            value.prod(half).diff(lo.prod(half)).quot(hi.prod(half).diff(lo.prod(half)))
        },
        ValueScale::Logarithmic => value.logarithm().diff(lo.logarithm()).quot(
            hi.logarithm().diff(lo.logarithm()),
        ),
    }
}

/// The physical value at `fraction` of the declared range.
pub open spec fn physical<R: Real>(info: ParamInfo<R>, fraction: R) -> R {
    let (lo, hi) = info.range;
    let rest = unit::<R>().diff(fraction);
    match info.value_scale {
        ValueScale::Linear => lo.prod(rest).sum(hi.prod(fraction)),
        ValueScale::Logarithmic => lo.logarithm().prod(rest).sum(
            hi.logarithm().prod(fraction),
        ).exponential(),
    }
}

/// The normalized value: exact at both ends of the range.
pub open spec fn normalized<R: Real>(info: ParamInfo<R>, value: R) -> R {
    let v = clamped(value, info.range.0, info.range.1);
    if v.alike(info.range.0) {
        nil()
    } else if v.alike(info.range.1) {
        unit()
    } else {
        fraction(info, v)
    }
}

/// The physical value: exact at both ends of the unit interval.
pub open spec fn denormalized<R: Real>(info: ParamInfo<R>, value: R) -> R {
    let n = clamped(value, nil::<R>(), unit::<R>());
    if n.alike(nil()) {
        info.range.0
    } else if n.alike(unit()) {
        info.range.1
    } else {
        physical(info, n)
    }
}

/// A declaration with the mapping and the smoothing that `unit` calls for.
pub open spec fn conventional<R: Real>(
    id: ParamId,
    name: &'static str,
    range: (R, R),
    default: R,
    unit: Unit,
) -> ParamInfo<R> {
    ParamInfo {
        id,
        name,
        range,
        default,
        unit,
        value_scale: if unit == Unit::Hz {
            ValueScale::Logarithmic
        } else {
            ValueScale::Linear
        },
        smoothing: if unit == Unit::Hz {
            Smoothing::Exponential
        } else {
            Smoothing::Linear
        },
        smoothing_ms: R::decimal_of(5, 0),
    }
}

impl<R: Real> ParamInfo<R> {
    /// Declare a parameter with conventional mapping and smoothing defaults.
    ///
    /// Construction keeps the supplied values; preparing a processor validates
    /// them.
    pub fn new(
        id: ParamId,
        name: &'static str,
        range: (R, R),
        default: R,
        unit: Unit,
    ) -> (r: Self)
        ensures
            r == conventional(id, name, range, default, unit),
    {
        Self {
            id,
            name,
            range,
            default,
            unit,
            value_scale: ValueScale::default_for(unit),
            smoothing: Smoothing::default_for(unit),
            smoothing_ms: R::decimal(5, 0),
        }
    }

    /// Override the parameter's smoothing shape.
    pub fn with_smoothing(self, smoothing: Smoothing) -> (r: Self)
        ensures
            r == (ParamInfo { smoothing, ..self }),
    {
        ParamInfo { smoothing, ..self }
    }

    /// Override the parameter's smoothing time in milliseconds.
    pub fn with_smoothing_ms(self, smoothing_ms: R) -> (r: Self)
        ensures
            r == (ParamInfo { smoothing_ms, ..self }),
    {
        ParamInfo { smoothing_ms, ..self }
    }

    /// Override the physical-to-normalized mapping.
    pub fn with_value_scale(self, value_scale: ValueScale) -> (r: Self)
        ensures
            r == (ParamInfo { value_scale, ..self }),
    {
        ParamInfo { value_scale, ..self }
    }

    /// Map a physical value into `[0, 1]`.
    ///
    /// Finite values are clamped to the declared range; other values are
    /// rejected.
    pub fn normalize(&self, value: R) -> (r: Result<R, ParamValueError<R>>)
        requires
            at_most(self.range.0, self.range.1),
        ensures
            !value.finite() ==> r == Err::<R, _>(ParamValueError { param: self.id, value }),
            value.finite() ==> r == Ok::<_, ParamValueError<R>>(normalized(*self, value)),
    {
        if !value.is_finite() {
            return Err(ParamValueError { param: self.id, value });
        }
        let (lo, hi) = self.range;
        let value = clamp_to(value, lo, hi);
        if value.equals(lo) {
            return Ok(R::zero());
        }
        if value.equals(hi) {
            return Ok(R::one());
        }
        Ok(
            match self.value_scale {
                ValueScale::Linear => {
                    let span = hi.minus(lo);
                    if span.is_finite() {
                        value.minus(lo).over(span)
                    } else {
                        // Halving both differences keeps a finite range that
                        // crosses nearly the whole domain from overflowing.
                        let half = R::decimal(5, -1);
                        value.times(half).minus(lo.times(half)).over(
                            hi.times(half).minus(lo.times(half)),
                        )
                    }
                },
                ValueScale::Logarithmic => {
                    let min_ln = lo.ln();
                    value.ln().minus(min_ln).over(hi.ln().minus(min_ln))
                },
            },
        )
    }

    /// Map a normalized value into the declared physical range.
    ///
    /// Finite values are clamped to `[0, 1]`; other values are rejected.
    pub fn denormalize(&self, normalized: R) -> (r: Result<R, ParamValueError<R>>)
        ensures
            !normalized.finite() ==> r == Err::<R, _>(
                ParamValueError { param: self.id, value: normalized },
            ),
            normalized.finite() ==> r == Ok::<_, ParamValueError<R>>(
                denormalized(*self, normalized),
            ),
    {
        if !normalized.is_finite() {
            return Err(ParamValueError { param: self.id, value: normalized });
        }
        let n = clamp_to(normalized, R::zero(), R::one());
        let (lo, hi) = self.range;
        if n.equals(R::zero()) {
            return Ok(lo);
        }
        if n.equals(R::one()) {
            return Ok(hi);
        }
        let rest = R::one().minus(n);
        Ok(
            match self.value_scale {
                ValueScale::Linear => lo.times(rest).plus(hi.times(n)),
                ValueScale::Logarithmic => lo.ln().times(rest).plus(hi.ln().times(n)).exp(),
            },
        )
    }
}

/// Both ends of a declared range map to the ends of the unit interval exactly,
/// and values outside it map as the nearest end does.
pub proof fn mapping_is_exact_at_the_ends<R: Real>(info: ParamInfo<R>, value: R)
    requires
        info.range.0.finite(),
        info.range.1.finite(),
        info.range.0.below(info.range.1),
        value.finite(),
        nil::<R>().finite(),
        unit::<R>().finite(),
        nil::<R>().below(unit()),
    ensures
        !info.range.0.below(value) ==> normalized(info, value) == nil::<R>(),
        !value.below(info.range.1) ==> normalized(info, value) == unit::<R>(),
        denormalized(info, nil()) == info.range.0,
        denormalized(info, unit()) == info.range.1,
{
}

/// A sample-stamped parameter change within a block.
///
/// Offsets are sorted and less than the block's frame count, and values are
/// finite. The stamp selects the first control-grid boundary at or after it.
/// Unknown ids are ignored; non-finite and out-of-block events are skipped.
#[derive(Debug, PartialEq)]
pub struct ParamEvent<R> {
    /// Frame offset within the block.
    pub offset: u32,
    /// Which parameter changes.
    pub param: ParamId,
    /// The new target value.
    pub value: R,
}

impl<R: Copy> Copy for ParamEvent<R> {

}

impl<R: Copy> Clone for ParamEvent<R> {
    fn clone(&self) -> (r: Self)
        ensures
            r == *self,
    {
        *self
    }
}

/// Failure returned by direct parameter writes.
#[derive(Debug)]
pub enum ParamSetError<R> {
    /// The processor did not declare this parameter id.
    UnknownParam(ParamId),
    /// The supplied value was not finite.
    NonFiniteValue {
        /// Which parameter was being written.
        param: ParamId,
        /// The rejected value.
        value: R,
    },
}

impl<R: Copy> Copy for ParamSetError<R> {

}

impl<R: Copy> Clone for ParamSetError<R> {
    fn clone(&self) -> (r: Self)
        ensures
            r == *self,
    {
        *self
    }
}

impl<R> ParamSetError<R> {
    /// The message that [`message`](ParamSetError::message) returns.
    pub open spec fn text(&self, shown: Seq<char>) -> Seq<char> {
        match *self {
            ParamSetError::UnknownParam(id) => "unknown parameter id "@ + decimal_text(id.0 as nat),
            ParamSetError::NonFiniteValue { param, value } => "non-finite value "@ + shown
                + " for parameter id "@ + decimal_text(param.0 as nat),
        }
    }

    /// One line for a person to read. `shown` is the rejected value as the host
    /// writes numbers.
    pub fn message(&self, shown: &str) -> (r: String)
        ensures
            r@ == self.text(shown@),
    {
        match self {
            ParamSetError::UnknownParam(id) => {
                let mut r = String::from_str("unknown parameter id ");
                push_decimal(&mut r, id.0 as u64);
                r
            },
            ParamSetError::NonFiniteValue { param, value } => {
                let mut r = String::from_str("non-finite value ");
                r.append(shown);
                r.append(" for parameter id ");
                push_decimal(&mut r, param.0 as u64);
                r
            },
        }
    }
}

/// A value that normalized parameter mapping rejected.
#[derive(Debug)]
pub struct ParamValueError<R> {
    /// The parameter whose mapping rejected the value.
    pub param: ParamId,
    /// The rejected value.
    pub value: R,
}

impl<R: Copy> Copy for ParamValueError<R> {

}

impl<R: Copy> Clone for ParamValueError<R> {
    fn clone(&self) -> (r: Self)
        ensures
            r == *self,
    {
        *self
    }
}

impl<R> ParamValueError<R> {
    /// One line for a person to read. `shown` is the rejected value as the host
    /// writes numbers.
    pub fn message(&self, shown: &str) -> (r: String)
        ensures
            r@ == "non-finite value "@ + shown@ + " for parameter id "@ + decimal_text(
                self.param.0 as nat,
            ),
    {
        let mut r = String::from_str("non-finite value ");
        r.append(shown);
        r.append(" for parameter id ");
        push_decimal(&mut r, self.param.0 as u64);
        r
    }
}

} // verus!
