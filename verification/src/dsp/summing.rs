//! Sums in a fixed order, plain and compensated.

use crate::number::{at_most, at_most_of, nil, Real};
use vstd::prelude::*;

verus! {

/// The correction after `value` is added to `sum`: what rounding lost, taken
/// from the smaller operand.
pub open spec fn compensated<R: Real>(sum: R, correction: R, value: R) -> R {
    let next = sum.sum(value);
    if at_most(value.magnitude(), sum.magnitude()) {
        correction.sum(sum.diff(next).sum(value))
    } else {
        correction.sum(value.diff(next).sum(sum))
    }
}

/// Add `value` to `sum` and what rounding lost to `correction`.
pub fn compensated_add<R: Real>(sum: &mut R, correction: &mut R, value: R)
    ensures
        *final(sum) == old(sum).sum(value),
        *final(correction) == compensated(*old(sum), *old(correction), value),
{
    let next = (*sum).plus(value);
    if at_most_of(value.abs(), (*sum).abs()) {
        *correction = (*correction).plus((*sum).minus(next).plus(value));
    } else {
        *correction = (*correction).plus(value.minus(next).plus(*sum));
    }
    *sum = next;
}

/// The first `n` elements of `xs`, summed in order.
pub open spec fn total<R: Real>(xs: Seq<R>, n: nat) -> R
    decreases n,
{
    if n == 0 {
        nil()
    } else {
        total(xs, (n - 1) as nat).sum(xs[n - 1])
    }
}

/// The sum of `xs`, in order.
pub fn total_of<R: Real>(xs: &[R]) -> (r: R)
    ensures
        r == total(xs@, xs@.len()),
{
    let mut acc = R::zero();
    let mut i: usize = 0;
    while i < xs.len()
        invariant
            0 <= i <= xs@.len(),
            acc == total(xs@, i as nat),
        decreases xs@.len() - i,
    {
        acc = acc.plus(xs[i]);
        i += 1;
    }
    acc
}

/// `whole` counts some numbers in units of a step, and among those sums are exact as
/// long as they stay within `limit` steps of zero.
#[verifier::opaque]
pub open spec fn sums_exactly<R: Real>(whole: spec_fn(R) -> Option<int>, limit: int) -> bool {
    &&& whole(nil()) == Some(0int)
    &&& forall|x: R, y: R|
        #![trigger x.sum(y)]
        whole(x) is Some && whole(y) is Some && -limit <= whole(x)->0 + whole(y)->0 <= limit
            ==> whole(x.sum(y)) == Some(whole(x)->0 + whole(y)->0)
    &&& forall|x: R, y: R|
        #![trigger x.diff(y)]
        whole(x) is Some && whole(y) is Some && -limit <= whole(x)->0 - whole(y)->0 <= limit
            ==> whole(x.diff(y)) == Some(whole(x)->0 - whole(y)->0)
    &&& forall|x: R|
        #![trigger x.opposite()]
        whole(x) is Some && -limit <= whole(x)->0 <= limit ==> whole(x.opposite()) == Some(
            -whole(x)->0,
        )
}

/// The steps of the elements of `xs` from `from` to before `to`, summed.
pub open spec fn counted<R>(whole: spec_fn(R) -> Option<int>, xs: Seq<R>, from: int, to: int) -> int
    decreases to - from,
{
    if to <= from {
        0
    } else {
        counted(whole, xs, from, to - 1) + whole(xs[to - 1])->0
    }
}

/// Every element of `xs` is counted, and lies within `bound` steps of zero.
pub open spec fn counted_within<R>(
    whole: spec_fn(R) -> Option<int>,
    xs: Seq<R>,
    bound: int,
) -> bool {
    forall|i: int|
        #![trigger xs[i]]
        0 <= i < xs.len() ==> whole(xs[i]) is Some && -bound <= whole(xs[i])->0 <= bound
}

/// A sum of bounded elements is bounded.
pub proof fn lemma_counted_bound<R>(
    whole: spec_fn(R) -> Option<int>,
    xs: Seq<R>,
    from: int,
    to: int,
    bound: int,
)
    requires
        counted_within(whole, xs, bound),
        0 <= from <= to <= xs.len(),
    ensures
        -(bound * (to - from)) <= counted(whole, xs, from, to) <= bound * (to - from),
    decreases to - from,
{
    if from < to {
        lemma_counted_bound(whole, xs, from, to - 1, bound);
        assert(-bound <= whole(xs[to - 1])->0 <= bound);
        assert(bound * (to - from) == bound * (to - 1 - from) + bound) by (nonlinear_arith);
    } else {
        assert(bound * (to - from) == 0) by (nonlinear_arith)
            requires
                to == from,
        ;
    }
}

/// A sum parts from its first element.
pub proof fn lemma_counted_first<R>(
    whole: spec_fn(R) -> Option<int>,
    xs: Seq<R>,
    from: int,
    to: int,
)
    requires
        from < to,
    ensures
        counted(whole, xs, from, to) == whole(xs[from])->0 + counted(whole, xs, from + 1, to),
    decreases to - from,
{
    if from + 1 < to {
        lemma_counted_first(whole, xs, from, to - 1);
    } else {
        reveal_with_fuel(counted, 2);
    }
}

/// Two runs of equal elements have one sum.
pub proof fn lemma_counted_alike<R>(
    whole: spec_fn(R) -> Option<int>,
    xs: Seq<R>,
    from: int,
    ys: Seq<R>,
    start: int,
    n: nat,
)
    requires
        forall|i: int| #![trigger xs[from + i]] 0 <= i < n ==> xs[from + i] == ys[start + i],
    ensures
        counted(whole, xs, from, from + n) == counted(whole, ys, start, start + n),
    decreases n,
{
    if n > 0 {
        lemma_counted_alike(whole, xs, from, ys, start, (n - 1) as nat);
        assert(xs[from + (n - 1)] == ys[start + (n - 1)]);
    }
}

/// Where sums are exact, nothing is lost and the correction stays nothing.
pub proof fn exact_sums_need_no_correction<R: Real>(
    whole: spec_fn(R) -> Option<int>,
    limit: int,
    sum: R,
    correction: R,
    value: R,
)
    requires
        sums_exactly(whole, limit),
        whole(sum) is Some,
        whole(value) is Some,
        whole(correction) == Some(0int),
        -limit <= whole(sum)->0 <= limit,
        -limit <= whole(value)->0 <= limit,
        -limit <= whole(sum)->0 + whole(value)->0 <= limit,
    ensures
        whole(sum.sum(value)) == Some(whole(sum)->0 + whole(value)->0),
        whole(compensated(sum, correction, value)) == Some(0int),
{
    reveal(sums_exactly);
    let next = sum.sum(value);
    assert(whole(sum.diff(next)) == Some(-(whole(value)->0)));
    assert(whole(sum.diff(next).sum(value)) == Some(0int));
    assert(whole(value.diff(next)) == Some(-(whole(sum)->0)));
    assert(whole(value.diff(next).sum(sum)) == Some(0int));
}

/// Where sums are exact, summing in order gives the sum.
pub proof fn totals_are_exact<R: Real>(
    whole: spec_fn(R) -> Option<int>,
    limit: int,
    xs: Seq<R>,
    bound: int,
    n: nat,
)
    requires
        sums_exactly(whole, limit),
        counted_within(whole, xs, bound),
        0 <= bound,
        n <= xs.len(),
        bound * n <= limit,
    ensures
        whole(total(xs, n)) == Some(counted(whole, xs, 0, n as int)),
    decreases n,
{
    reveal(sums_exactly);
    if n > 0 {
        assert(bound * (n - 1) <= bound * n) by (nonlinear_arith)
            requires
                0 <= bound,
        ;
        totals_are_exact(whole, limit, xs, bound, (n - 1) as nat);
        lemma_counted_bound(whole, xs, 0, n as int, bound);
        assert(whole(xs[n - 1]) is Some);
        assert(total(xs, n) == total(xs, (n - 1) as nat).sum(xs[n - 1]));
    }
}

} // verus!
