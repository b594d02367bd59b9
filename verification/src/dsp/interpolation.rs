//! What the oversampler interpolates with.

use crate::dsp::algebra::{lemma_spread, lemma_sums_agree, sum_of};
use crate::dsp::oversample::{
    normalized_prototype, phase_table, prototype, prototype_sum, shifted_in, weighted,
};
use crate::number::{lemma_ratio, lemma_unrounded, unrounded, Real};
use vstd::prelude::*;

verus! {

/// An interpolated value is the sum of the weighted inputs.
pub proof fn interpolation_is_a_weighted_sum<R: Real>(
    weights: Seq<R>,
    line: Seq<R>,
    n: nat,
    of: spec_fn(R) -> real,
)
    requires
        unrounded::<R>(of),
    ensures
        of(weighted(weights, line, n)) == sum_of(|k: int| of(weights[k]) * of(line[k]), n),
    decreases n,
{
    lemma_unrounded::<R>(of);
    if n > 0 {
        interpolation_is_a_weighted_sum(weights, line, (n - 1) as nat, of);
    }
}

/// The line holds the newest input first, and the others behind it in order.
pub proof fn lines_shift_in_from_the_front<R: Real>(line: Seq<R>, x: R, i: int)
    requires
        x.finite(),
        0 <= i < line.len(),
    ensures
        shifted_in(line, x).len() == line.len(),
        shifted_in(line, x)[i] == if i == 0 {
            x
        } else {
            line[i - 1]
        },
{
}

/// The phases take the coefficients of the prototype in turn: tap `k` of phase `ph` is
/// coefficient `ph + k * factor`. Where arithmetic never rounds, all coefficients together
/// sum to the factor, which is unity gain per phase on average.
pub proof fn prototypes_have_unity_gain<R: Real>(
    factor: u64,
    len: u64,
    of: spec_fn(R) -> real,
)
    requires
        unrounded::<R>(of),
        of(prototype_sum::<R>(factor, len, len as nat)) != 0real,
    ensures
        sum_of(|i: int| of(normalized_prototype::<R>(factor, len, i as u64)), len as nat)
            == factor as real,
{
    lemma_unrounded::<R>(of);
    let fits = |x: real| true;
    assert(fits(factor as real));
    let total = prototype_sum::<R>(factor, len, len as nat);
    let scale = R::natural(factor).quot(total);
    lemma_ratio(of(scale), factor as real, of(total));
    lemma_scaled_sum::<R>(factor, len, len as nat, of(scale), of);
    let k = of(scale);
    let f = |i: int| of(prototype::<R>(factor, len, i as u64)) * k;
    let g = |i: int| of(normalized_prototype::<R>(factor, len, i as u64));
    assert forall|i: int| 0 <= i < len implies #[trigger] g(i) == f(i) by {}
    lemma_sums_agree(g, f, len as nat);
    assert(of(total) * k == k * of(total)) by (nonlinear_arith);
}

proof fn lemma_scaled_sum<R: Real>(
    factor: u64,
    len: u64,
    n: nat,
    k: real,
    of: spec_fn(R) -> real,
)
    requires
        unrounded::<R>(of),
        n <= len,
    ensures
        sum_of(|i: int| of(prototype::<R>(factor, len, i as u64)) * k, n) == of(
            prototype_sum::<R>(factor, len, n),
        ) * k,
    decreases n,
{
    lemma_unrounded::<R>(of);
    if n > 0 {
        lemma_scaled_sum::<R>(factor, len, (n - 1) as nat, k, of);
        let before = of(prototype_sum::<R>(factor, len, (n - 1) as nat));
        let last = of(prototype::<R>(factor, len, (n - 1) as u64));
        lemma_spread(before, last, 0real, 0real, 0real, k);
        assert(0real * k == 0real);
    } else {
        assert(0real * k == 0real);
    }
}

/// The prototype is split into phases without loss: tap `k` of phase `ph` is coefficient
/// `ph + k * factor`.
pub proof fn phases_interleave_the_prototype<R: Real>(factor: nat, taps: nat, ph: int, k: int)
    requires
        0 <= ph < factor,
        0 <= k < taps,
    ensures
        phase_table::<R>(factor, taps)[ph][k] == normalized_prototype::<R>(
            factor as u64,
            (factor * taps) as u64,
            (ph + k * factor) as u64,
        ),
{
}

} // verus!
