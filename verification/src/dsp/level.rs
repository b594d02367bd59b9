//! Decibels and linear amplitude.

use crate::number::{larger, max_of, nil, Order, Real};
use vstd::prelude::*;

verus! {

/// The natural logarithm of ten over twenty.
pub open spec fn ln10_over_20<R: Real>() -> R {
    R::decimal_of(2302585092994046, -15).quot(R::decimal_of(20, 0))
}

/// `10^(db / 20)`.
pub open spec fn linear_of<R: Real>(db: R) -> R {
    db.prod(ln10_over_20()).exponential()
}

/// `20 * log10(x)`, with no floor and no domain guard.
pub open spec fn decibels<R: Real>(x: R) -> R {
    R::decimal_of(20, 0).prod(x.logarithm10())
}

/// Convert a decibel gain to a linear amplitude factor.
pub fn db_to_linear<R: Real>(db: R) -> (r: R)
    ensures
        r == linear_of(db),
{
    db.times(R::decimal(2302585092994046, -15).over(R::decimal(20, 0))).exp()
}

/// Amplitude ratio to decibels. Callers apply their own domain policy.
pub fn amplitude_to_db<R: Real>(x: R) -> (r: R)
    ensures
        r == decibels(x),
{
    R::decimal(20, 0).times(x.log10())
}

/// Convert a linear amplitude to decibels, bounded below by `floor_db`.
///
/// Non-positive and non-finite amplitudes return the floor. The floor is finite
/// or negative infinity, which means no floor.
pub fn linear_to_db_floor<R: Real>(x: R, floor_db: R) -> (r: R)
    requires
        floor_db.finite() || floor_db.alike(R::unbounded().opposite()),
    ensures
        r == (if x.finite() && nil::<R>().below(x) {
            larger(decibels(x), floor_db)
        } else {
            floor_db
        }),
{
    if x.is_finite() && R::zero().less(x) {
        max_of(amplitude_to_db(x), floor_db)
    } else {
        floor_db
    }
}

} // verus!
