//! What the meters measure.

use crate::analysis::clip::clipped_count;
use crate::analysis::fold::folded;
use crate::analysis::level::{energy_step, rms, CrestMeter, CrestModel, RmsMeter, RmsModel};
use crate::analysis::mean::{mean_of, sum_step, MeanMeter, MeanModel};
use crate::contract::block::frames_of;
use crate::contract::traits::Measurer;
use crate::dsp::algebra::{lemma_sums_agree, sum_of};
use crate::dsp::summing::total;
use crate::number::{at_most, lemma_ratio, lemma_unrounded, unrounded, Real, Sample};
use vstd::prelude::*;

verus! {

/// Every sample of the block is finite, and every channel has `frames` of them.
pub open spec fn sound_block<T: Sample>(x: Seq<Seq<T>>, frames: nat) -> bool {
    &&& forall|c: int| 0 <= c < x.len() ==> (#[trigger] x[c]).len() == frames
    &&& forall|c: int, i: int|
        0 <= c < x.len() && 0 <= i < frames ==> (#[trigger] x[c][i]).value().finite()
}

/// The sum of the squares of a channel.
pub open spec fn squares<T: Sample>(of: spec_fn(T::Real) -> real, xs: Seq<T>, n: nat) -> real {
    sum_of(|i: int| of(xs[i].value()) * of(xs[i].value()), n)
}

/// The sum of a channel.
pub open spec fn plain_sum<T: Sample>(of: spec_fn(T::Real) -> real, xs: Seq<T>, n: nat) -> real {
    sum_of(|i: int| of(xs[i].value()), n)
}

proof fn lemma_squares<T: Sample>(acc: T::Real, xs: Seq<T>, n: nat, of: spec_fn(T::Real) -> real)
    requires
        unrounded::<T::Real>(of),
        n <= xs.len(),
        forall|i: int| 0 <= i < n ==> (#[trigger] xs[i]).value().finite(),
    ensures
        of(folded(acc, xs, energy_step::<T>(), n)) == of(acc) + squares::<T>(of, xs, n),
    decreases n,
{
    lemma_unrounded::<T::Real>(of);
    if n > 0 {
        lemma_squares::<T>(acc, xs, (n - 1) as nat, of);
        assert(xs[n - 1].value().finite());
    }
}

proof fn lemma_plain_sum<T: Sample>(acc: T::Real, xs: Seq<T>, n: nat, of: spec_fn(T::Real) -> real)
    requires
        unrounded::<T::Real>(of),
        n <= xs.len(),
        forall|i: int| 0 <= i < n ==> (#[trigger] xs[i]).value().finite(),
    ensures
        of(folded(acc, xs, sum_step::<T>(), n)) == of(acc) + plain_sum::<T>(of, xs, n),
    decreases n,
{
    lemma_unrounded::<T::Real>(of);
    if n > 0 {
        lemma_plain_sum::<T>(acc, xs, (n - 1) as nat, of);
        assert(xs[n - 1].value().finite());
    }
}

proof fn lemma_total_reads<R: Real>(xs: Seq<R>, n: nat, of: spec_fn(R) -> real)
    requires
        unrounded::<R>(of),
        n <= xs.len(),
    ensures
        of(total(xs, n)) == sum_of(|c: int| of(xs[c]), n),
    decreases n,
{
    lemma_unrounded::<R>(of);
    if n > 0 {
        lemma_total_reads(xs, (n - 1) as nat, of);
    }
}

/// A root-mean-square meter reads the root of the mean square. Where arithmetic never
/// rounds, after one block on a cleared meter the reading is the root of a number that,
/// times the number of samples, is the sum of the squares of all of them.
pub proof fn rms_is_the_root_of_the_mean_square<T: Sample>(
    m: RmsModel<T::Real>,
    x: Seq<Seq<T>>,
    of: spec_fn(T::Real) -> real,
) -> (mean: T::Real)
    requires
        unrounded::<T::Real>(of),
        x.len() == m.sums.len(),
        x.len() > 0,
        0 < frames_of(x) * x.len() <= u64::MAX,
        sound_block::<T>(x, frames_of(x)),
    ensures
        ({
            let after = <RmsMeter<T> as Measurer<T>>::observed(
                <RmsMeter<T> as Measurer<T>>::cleared(m),
                x,
            );
            &&& <RmsMeter<T> as Measurer<T>>::reading(after) == mean.root()
            &&& of(mean) * ((frames_of(x) * x.len()) as int as real) == sum_of(
                |c: int| squares::<T>(of, x[c], frames_of(x)),
                x.len(),
            )
        }),
{
    lemma_unrounded::<T::Real>(of);
    let rest = <RmsMeter<T> as Measurer<T>>::cleared(m);
    let after = <RmsMeter<T> as Measurer<T>>::observed(rest, x);
    let count = (frames_of(x) * x.len()) as u64;
    assert(after.count == count);
    let sum = total(after.sums, after.sums.len());
    lemma_total_reads(after.sums, after.sums.len(), of);
    let f = |c: int| of(after.sums[c]);
    let g = |c: int| squares::<T>(of, x[c], frames_of(x));
    assert forall|c: int| 0 <= c < x.len() implies #[trigger] f(c) == g(c) by {
        assert(x[c].len() == frames_of(x));
        assert forall|i: int| 0 <= i < x[c].len() implies (#[trigger] x[c][i]).value().finite() by {
        }
        lemma_squares::<T>(rest.sums[c], x[c], x[c].len(), of);
    }
    lemma_sums_agree(f, g, x.len());
    let mean = sum.quot(T::Real::natural(count));
    lemma_counts::<T::Real>(count, of);
    lemma_ratio(of(mean), of(sum), of(T::Real::natural(count)));
    assert(count as real == (frames_of(x) * x.len()) as int as real);
    mean
}

/// Whole numbers read as themselves.
pub proof fn lemma_counts<R: Real>(n: u64, of: spec_fn(R) -> real)
    requires
        unrounded::<R>(of),
    ensures
        of(R::natural(n)) == n as real,
        n > 0 ==> of(R::natural(n)) > 0real,
{
    let fits = |x: real| true;
    assert(fits(n as real));
}

/// The crest factor is the peak over the root mean square, where there is one.
pub proof fn crest_is_peak_over_rms<T: Sample>(
    m: CrestModel<T::Real>,
    of: spec_fn(T::Real) -> real,
)
    requires
        unrounded::<T::Real>(of),
        m.count > 0,
        ({
            let level = <RmsMeter<T> as Measurer<T>>::reading(
                RmsModel { sums: m.sums, count: m.count },
            );
            !at_most(level, T::Real::decimal_of(0, 0)) && of(level) != 0real
        }),
    ensures
        of(<CrestMeter<T> as Measurer<T>>::reading(m)) * of(
            <RmsMeter<T> as Measurer<T>>::reading(RmsModel { sums: m.sums, count: m.count }),
        ) == of(m.peak),
{
    lemma_unrounded::<T::Real>(of);
    let level = rms(m.sums, m.count);
    lemma_ratio(of(m.peak.quot(level)), of(m.peak), of(level));
}

/// A mean meter holds the mean of each channel: where arithmetic never rounds, after one
/// block on a cleared meter the mean times the frames is the sum of the channel.
pub proof fn means_are_sums_over_frames<T: Sample>(
    m: MeanModel<T::Real>,
    x: Seq<Seq<T>>,
    c: int,
    of: spec_fn(T::Real) -> real,
)
    requires
        unrounded::<T::Real>(of),
        x.len() == m.sums.len(),
        0 <= c < x.len(),
        0 < frames_of(x) <= u64::MAX,
        sound_block::<T>(x, frames_of(x)),
    ensures
        ({
            let after = <MeanMeter<T> as Measurer<T>>::observed(
                <MeanMeter<T> as Measurer<T>>::cleared(m),
                x,
            );
            of(mean_of(after, c)) * (frames_of(x) as int as real) == plain_sum::<T>(
                of,
                x[c],
                frames_of(x),
            )
        }),
{
    lemma_unrounded::<T::Real>(of);
    let rest = <MeanMeter<T> as Measurer<T>>::cleared(m);
    let after = <MeanMeter<T> as Measurer<T>>::observed(rest, x);
    let count = frames_of(x) as u64;
    assert(after.frames == count);
    assert(x[c].len() == frames_of(x));
    assert forall|i: int| 0 <= i < x[c].len() implies (#[trigger] x[c][i]).value().finite() by {}
    lemma_plain_sum::<T>(rest.sums[c], x[c], x[c].len(), of);
    lemma_counts::<T::Real>(count, of);
    lemma_ratio(of(mean_of(after, c)), of(after.sums[c]), of(T::Real::natural(count)));
    assert(count as real == frames_of(x) as int as real);
}

/// What a clip meter counts of a channel is the number of its samples whose magnitude
/// reaches the threshold.
pub proof fn clips_are_samples_at_the_threshold<T: Sample>(threshold: T::Real, xs: Seq<T>, n: nat)
    requires
        n <= xs.len(),
        forall|i: int| 0 <= i < n ==> (#[trigger] xs[i]).value().finite(),
    ensures
        clipped_count::<T>(threshold, xs, n) == xs.take(n as int).filter(
            |x: T| at_most(threshold, x.value().magnitude()),
        ).len(),
    decreases n,
{
    reveal(Seq::filter);
    let head = xs.take(n as int);
    if n > 0 {
        clips_are_samples_at_the_threshold::<T>(threshold, xs, (n - 1) as nat);
        assert(head.drop_last() =~= xs.take(n - 1));
        assert(head.last() == xs[n - 1]);
        assert(xs[n - 1].value().finite());
    }
}

} // verus!
