//! What a windowed root-mean-square meter measures.

use crate::analysis::measures::{lemma_counts, sound_block};
use crate::analysis::spans::span_start;
use crate::analysis::windowed_rms::{ring_after, rings_total, WindowedModel, WindowedRmsMeter};
use crate::contract::block::frames_of;
use crate::contract::traits::Measurer;
use crate::dsp::algebra::{lemma_sum_changes, lemma_sums_agree, sum_of};
use crate::dsp::summing::total;
use crate::filters::moving_average::lemma_places_differ;
use crate::number::{lemma_ratio, lemma_unrounded, nil, unrounded, Real, Sample};
use vstd::arithmetic::div_mod::{lemma_mod_bound, lemma_mod_sub_multiples_vanish, lemma_small_mod};
use vstd::prelude::*;

verus! {

/// The sum of the squares of the last `size` of the first `n` samples of a channel.
pub open spec fn recent_squares<T: Sample>(
    of: spec_fn(T::Real) -> real,
    xs: Seq<T>,
    n: int,
    size: int,
) -> real {
    let f = |i: int| of(xs[i].value()) * of(xs[i].value());
    sum_of(f, n as nat) - sum_of(f, span_start(n, size) as nat)
}

proof fn lemma_ring_sums<T: Sample>(
    of: spec_fn(T::Real) -> real,
    ring: Seq<T::Real>,
    xs: Seq<T>,
    n: nat,
)
    requires
        unrounded::<T::Real>(of),
        1 <= ring.len() <= usize::MAX,
        forall|j: int| 0 <= j < ring.len() ==> #[trigger] ring[j] == nil::<T::Real>(),
        n <= xs.len(),
        forall|i: int| 0 <= i < n ==> (#[trigger] xs[i]).value().finite(),
    ensures
        ({
            let after = ring_after::<T>(ring, 0, xs, n);
            let size = ring.len() as int;
            &&& after.len() == size
            &&& forall|i: int|
                #![trigger xs[i]]
                0 <= i < n && n - size <= i ==> after[i % size] == xs[i].value().prod(
                    xs[i].value(),
                )
            &&& forall|j: int| n <= j < size ==> #[trigger] after[j] == nil::<T::Real>()
            &&& sum_of(|j: int| of(after[j]), size as nat) == recent_squares::<T>(
                of,
                xs,
                n as int,
                size,
            )
        }),
    decreases n,
{
    lemma_unrounded::<T::Real>(of);
    let t = ring.len() as int;
    let f = |i: int| of(xs[i].value()) * of(xs[i].value());
    let after = ring_after::<T>(ring, 0, xs, n);
    if n == 0 {
        lemma_zeros(|j: int| of(after[j]), t as nat);
    } else {
        lemma_ring_sums::<T>(of, ring, xs, (n - 1) as nat);
        let before = ring_after::<T>(ring, 0, xs, (n - 1) as nat);
        let v = xs[n - 1].value();
        assert(v.finite());
        let pos = (n - 1) % t;
        lemma_mod_bound(n - 1, t);
        assert(after == before.update(pos, v.prod(v)));
        let out = before[pos];
        if n <= t {
            lemma_small_mod((n - 1) as nat, t as nat);
            assert(out == nil::<T::Real>());
        } else {
            lemma_mod_sub_multiples_vanish(n - 1, t);
            assert(xs[n - 1 - t].value().finite());
            assert(out == xs[n - 1 - t].value().prod(xs[n - 1 - t].value()));
        }
        let (was, now) = (|j: int| of(before[j]), |j: int| of(after[j]));
        assert forall|j: int| 0 <= j < t && j != pos implies #[trigger] was(j) == now(j) by {}
        lemma_sum_changes(was, now, pos, t as nat);
        assert(was(pos) == of(out) && now(pos) == of(v) * of(v));
        assert(sum_of(f, n) == sum_of(f, (n - 1) as nat) + f(n - 1));
        if n > t {
            assert(sum_of(f, (n - t) as nat) == sum_of(f, (n - t - 1) as nat) + f(n - t - 1));
        }
        assert forall|i: int|
            #![trigger xs[i]]
            0 <= i < n && n - t <= i implies after[i % t] == xs[i].value().prod(
            xs[i].value(),
        ) by {
            lemma_mod_bound(i, t);
            if i < n - 1 {
                lemma_places_differ(i, n - 1, t);
            }
        }
        assert forall|j: int| n <= j < t implies #[trigger] after[j] == nil::<T::Real>() by {
            lemma_small_mod((n - 1) as nat, t as nat);
            assert(before[j] == nil::<T::Real>());
        }
    }
}

proof fn lemma_zeros(f: spec_fn(int) -> real, n: nat)
    requires
        forall|j: int| 0 <= j < n ==> #[trigger] f(j) == 0real,
    ensures
        sum_of(f, n) == 0real,
    decreases n,
{
    if n > 0 {
        lemma_zeros(f, (n - 1) as nat);
    }
}

proof fn lemma_total_reads<R: Real>(of: spec_fn(R) -> real, ring: Seq<R>, n: nat)
    requires
        unrounded::<R>(of),
    ensures
        of(total(ring, n)) == sum_of(|j: int| of(ring[j]), n),
    decreases n,
{
    lemma_unrounded::<R>(of);
    if n > 0 {
        lemma_total_reads(of, ring, (n - 1) as nat);
    }
}

proof fn lemma_rings_read<R: Real>(of: spec_fn(R) -> real, rings: Seq<Seq<R>>, n: nat)
    requires
        unrounded::<R>(of),
    ensures
        of(rings_total(rings, n)) == sum_of(
            |c: int| sum_of(|j: int| of(rings[c][j]), rings[c].len()),
            n,
        ),
    decreases n,
{
    lemma_unrounded::<R>(of);
    if n > 0 {
        lemma_rings_read(of, rings, (n - 1) as nat);
        lemma_total_reads(of, rings[n - 1], rings[n - 1].len());
        let g = |c: int| sum_of(|j: int| of(rings[c][j]), rings[c].len());
        assert(g(n - 1) == sum_of(|j: int| of(rings[n - 1][j]), rings[n - 1].len()));
    }
}

/// A windowed meter reads the root of the mean square over its window. Where arithmetic never
/// rounds, after one block on a cleared meter the reading is the root of a number that, times
/// the samples in the window, is the sum of the squares of the last ones of every channel.
pub proof fn windowed_rms_spans_the_last_samples<T: Sample>(
    m: WindowedModel<T::Real>,
    x: Seq<Seq<T>>,
    of: spec_fn(T::Real) -> real,
) -> (mean: T::Real)
    requires
        unrounded::<T::Real>(of),
        m.window >= 1,
        x.len() == m.rings.len(),
        x.len() >= 1,
        forall|c: int| 0 <= c < m.rings.len() ==> (#[trigger] m.rings[c]).len() == m.window,
        sound_block::<T>(x, frames_of(x)),
        1 <= frames_of(x),
        x.len() * m.window <= usize::MAX,
    ensures
        ({
            let after = <WindowedRmsMeter<T> as Measurer<T>>::observed(
                <WindowedRmsMeter<T> as Measurer<T>>::cleared(m),
                x,
            );
            let n = frames_of(x) as int;
            let held = if n < m.window {
                n
            } else {
                m.window as int
            };
            &&& <WindowedRmsMeter<T> as Measurer<T>>::reading(after) == mean.root()
            &&& of(mean) * ((x.len() * held) as real) == sum_of(
                |c: int| recent_squares::<T>(of, x[c], n, m.window as int),
                x.len(),
            )
        }),
{
    lemma_unrounded::<T::Real>(of);
    let rest = <WindowedRmsMeter<T> as Measurer<T>>::cleared(m);
    let after = <WindowedRmsMeter<T> as Measurer<T>>::observed(rest, x);
    let n = frames_of(x) as int;
    let held = if n < m.window {
        n
    } else {
        m.window as int
    };
    assert(after.filled == held);
    assert(0 < x.len() * held <= x.len() * m.window) by (nonlinear_arith)
        requires
            1 <= held <= m.window,
            1 <= x.len(),
    ;
    lemma_rings_read(of, after.rings, after.rings.len());
    let f = |c: int| sum_of(|j: int| of(after.rings[c][j]), after.rings[c].len());
    let g = |c: int| recent_squares::<T>(of, x[c], n, m.window as int);
    assert forall|c: int| 0 <= c < x.len() implies #[trigger] f(c) == g(c) by {
        assert(m.rings[c].len() == m.window);
        assert(x[c].len() == n);
        assert forall|i: int| 0 <= i < n implies (#[trigger] x[c][i]).value().finite() by {}
        lemma_ring_sums::<T>(of, rest.rings[c], x[c], n as nat);
        assert(after.rings[c] == ring_after::<T>(rest.rings[c], 0, x[c], n as nat));
    }
    lemma_sums_agree(f, g, x.len());
    let count = (x.len() * held) as u64;
    let sum = rings_total(after.rings, after.rings.len());
    lemma_counts::<T::Real>(count, of);
    let mean = sum.quot(T::Real::natural(count));
    lemma_ratio(of(mean), of(sum), of(T::Real::natural(count)));
    assert(count as real == (x.len() * held) as real);
    mean
}

} // verus!
