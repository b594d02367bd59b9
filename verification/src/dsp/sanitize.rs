//! Sample sanitization at processing boundaries.

use crate::number::{exact, lemma_compare, lemma_readings, nil, ordered, size, Order, Real};
use vstd::prelude::*;

verus! {

/// `x` where it is finite, otherwise silence.
pub open spec fn sane<R: Real>(x: R) -> R {
    if x.finite() {
        x
    } else {
        nil()
    }
}

/// A sane value, with magnitudes under the denormal floor flushed to zero.
pub open spec fn flushed<R: Real>(x: R) -> R {
    if sane(x).magnitude().below(R::decimal_of(1, -30)) {
        nil()
    } else {
        sane(x)
    }
}

/// Return `x` if it is finite, otherwise silence.
pub fn finite_or_zero<R: Real>(x: R) -> (r: R)
    ensures
        r == sane(x),
        r.finite(),
{
    if x.is_finite() {
        x
    } else {
        R::zero()
    }
}

/// Return a finite recursive-state value, flushing denormals to zero.
pub fn flush_denormal<R: Real>(x: R) -> (r: R)
    ensures
        r == flushed(x),
        r.finite(),
{
    let x = finite_or_zero(x);
    if x.abs().less(R::denormal_floor()) {
        R::zero()
    } else {
        x
    }
}

/// Sanitizing gives a finite value and is idempotent.
pub proof fn sanitizing_is_final<R: Real>(x: R)
    requires
        nil::<R>().finite(),
    ensures
        sane(x).finite(),
        flushed(x).finite(),
        sane(sane(x)) == sane(x),
        sane(flushed(x)) == flushed(x),
{
}

/// Flushing keeps what is not under the denormal floor.
pub proof fn lemma_flushing_keeps<R: Real>(
    x: R,
    of: spec_fn(R) -> real,
    fits: spec_fn(real) -> bool,
)
    requires
        exact::<R>(of, fits),
        ordered::<R>(of, fits),
        fits(0real),
        fits(of(x)),
        R::decimal_of(1, -30).finite(),
        of(x) == 0real || of(R::decimal_of(1, -30)) <= size(of(x)),
    ensures
        of(flushed(x)) == of(x),
{
    let floor = R::decimal_of(1, -30);
    lemma_readings(of, fits);
    lemma_compare(x, floor, of, fits);
    lemma_compare(x.magnitude(), floor, of, fits);
}

} // verus!
