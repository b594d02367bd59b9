//! Reconstruction: what is analyzed and synthesized again comes back.

use crate::analysis::spans::{blocks_by, lemma_block_count};
use crate::dsp::algebra::{lemma_spread, lemma_swap, lemma_times, sum_of};
use crate::dsp::sanitize::sane;
use crate::number::{lemma_cancel, lemma_ratio, lemma_unrounded, nil, unrounded, Order, Real};
use crate::spectral::band::{
    banded, filtered, finalized, head, lane_after, lane_rest, popped, summed, taken, BandPlan,
    BandState,
};
use crate::spectral::fft::{signal_of, spectrum_of, Transform};
use crate::spectral::spectral_filter::SpectralFilterSettings;
use crate::spectral::window::{hops_in, overlap_at, overlap_gain, window_of};
use crate::spectral::stft::{
    frames_over, overlap_added, products, synthesized, synthesis_spans_the_signal, weight_added,
    windowed,
};
use vstd::prelude::*;

verus! {

/// Transforming `n` samples and back loses nothing.
pub open spec fn lossless<R: Real, B: Transform<R>>(of: spec_fn(R) -> real, n: nat) -> bool {
    forall|x: Seq<R>, i: int|
        x.len() == n && 0 <= i < n ==> of(
            #[trigger] signal_of::<R, B>(n, spectrum_of::<R, B>(x))[i],
        ) == of(x[i])
}

/// Every number is finite.
pub open spec fn all_finite<R: Real>() -> bool {
    forall|a: R| #[trigger] a.finite()
}

/// What a frame brings back at a sample under the synthesis window is the sample times the
/// window twice.
proof fn lemma_overlap<R: Real, B: Transform<R>>(
    of: spec_fn(R) -> real,
    signal: Seq<R>,
    window: Seq<R>,
    hop: nat,
    frames: Seq<Seq<R>>,
    p: int,
    k: nat,
)
    requires
        unrounded::<R>(of),
        all_finite::<R>(),
        lossless::<R, B>(of, window.len()),
        k <= frames.len(),
        0 <= p < signal.len(),
        forall|m: int|
            0 <= m < frames.len() ==> #[trigger] frames[m] == signal_of::<R, B>(
                window.len(),
                spectrum_of::<R, B>(windowed(signal, m * hop, window)),
            ),
    ensures
        of(overlap_added(frames, window, hop as int, p, k)) == of(
            weight_added(products(window, window), hop as int, p, k),
        ) * of(signal[p]),
    decreases k,
{
    lemma_unrounded::<R>(of);
    let s = of(signal[p]);
    let weight = products(window, window);
    if k > 0 {
        lemma_overlap::<R, B>(of, signal, window, hop, frames, p, (k - 1) as nat);
        let i = p - (k - 1) * hop;
        let w0 = of(weight_added(weight, hop as int, p, (k - 1) as nat));
        if 0 <= i < window.len() {
            let cut = windowed(signal, (k - 1) * hop, window);
            assert(frames[k - 1] == signal_of::<R, B>(window.len(), spectrum_of::<R, B>(cut)));
            assert(cut.len() == window.len());
            assert(signal[p].finite());
            assert(cut[i] == signal[p].prod(window[i]));
            let w = of(window[i]);
            assert(frames[k - 1][i].finite());
            assert(of(frames[k - 1][i]) == s * w);
            assert((s * w) * w == (w * w) * s) by (nonlinear_arith);
            lemma_spread(w0, w * w, 0real, 0real, 0real, s);
            assert(0real * s == 0real);
            assert(of(weight[i]) == w * w);
        }
    } else {
        assert(0real * s == 0real);
    }
}

/// Analysis and synthesis reconstruct the signal. Where arithmetic never rounds and the
/// transform loses nothing, what is synthesized from the spectra of a signal is the signal,
/// wherever the accumulated window products are above the floor.
pub proof fn synthesis_reconstructs_the_signal<R: Real, B: Transform<R>>(
    of: spec_fn(R) -> real,
    signal: Seq<R>,
    window: Seq<R>,
    hop: nat,
    p: int,
)
    requires
        unrounded::<R>(of),
        all_finite::<R>(),
        lossless::<R, B>(of, window.len()),
        1 <= hop <= window.len(),
        0 <= p < signal.len(),
        ({
            let weight = weight_added(
                products(window, window),
                hop as int,
                p,
                frames_over(signal.len(), hop),
            );
            R::decimal_of(1, -9).below(weight) && of(weight) != 0real
        }),
    ensures
        ({
            let spectra = Seq::new(
                frames_over(signal.len(), hop),
                |m: int| spectrum_of::<R, B>(windowed(signal, m * hop, window)),
            );
            let back = synthesized::<R, B>(spectra, window, hop);
            &&& p < back.len()
            &&& of(back[p]) == of(signal[p])
        }),
{
    lemma_unrounded::<R>(of);
    let count = frames_over(signal.len(), hop);
    let spectra = Seq::new(
        count,
        |m: int| spectrum_of::<R, B>(windowed(signal, m * hop, window)),
    );
    let n = window.len();
    let frames = Seq::new(spectra.len(), |m: int| signal_of::<R, B>(n, spectra[m]));
    synthesis_spans_the_signal(signal.len(), hop, n);
    lemma_overlap::<R, B>(of, signal, window, hop, frames, p, count);
    let sum = overlap_added(frames, window, hop as int, p, count);
    let weight = weight_added(products(window, window), hop as int, p, count);
    let back = synthesized::<R, B>(spectra, window, hop);
    assert(sum.quot(weight).finite());
    assert(back[p] == sum.quot(weight));
    lemma_ratio(of(back[p]), of(sum), of(weight));
    lemma_swap(of(weight), of(signal[p]));
    lemma_cancel(of(back[p]), of(signal[p]), of(weight));
}

/// The filtered frames of a stream, one every hop.
pub open spec fn stream_frames<R: Real, B: Transform<R>>(
    p: BandPlan<R>,
    x: Seq<R>,
    count: nat,
) -> Seq<Seq<R>> {
    Seq::new(
        count,
        |m: int| filtered::<R, B>(p, x.subrange(m * p.hop, m * p.hop + p.size())),
    )
}

/// Sample `q` of the output stream: what the frames that reach it add up to under the
/// synthesis window, times the reciprocal of the overlap at its place in the hop.
pub open spec fn stream_out<R: Real>(p: BandPlan<R>, frames: Seq<Seq<R>>, q: int) -> R {
    sane(
        overlap_added(
            frames,
            p.synthesis,
            p.hop as int,
            q,
            (q / p.hop as int + 1) as nat,
        ).prod(p.inverse[q % p.hop as int]),
    )
}

proof fn lemma_beyond_reach<R: Real>(frames: Seq<Seq<R>>, window: Seq<R>, hop: int, q: int, k: nat)
    requires
        hop >= 1,
        q >= (k - 1) * hop + window.len(),
    ensures
        overlap_added(frames, window, hop, q, k) == nil::<R>(),
    decreases k,
{
    if k > 0 {
        assert((k - 1) * hop == (k - 2) * hop + hop) by (nonlinear_arith);
        lemma_beyond_reach(frames, window, hop, q, (k - 1) as nat);
    }
}

/// What a lane holds after `n` samples of a stream.
spec fn follows<R: Real>(
    p: BandPlan<R>,
    s: BandState<R>,
    x: Seq<R>,
    frames: Seq<Seq<R>>,
    n: nat,
) -> bool {
    let size = p.size() as int;
    let hop = p.hop as int;
    let j = blocks_by(n as int, size, hop);
    let gone = if n < size {
        0
    } else {
        n - size
    };
    &&& s.pending == x.subrange(j * hop, n as int)
    &&& s.sum.len() == size
    &&& forall|i: int|
        0 <= i < size ==> #[trigger] s.sum[i] == overlap_added(
            frames,
            p.synthesis,
            hop,
            j * hop + i,
            j as nat,
        )
    &&& s.ready.len() == j * hop - gone
    &&& forall|i: int|
        0 <= i < s.ready.len() ==> #[trigger] s.ready[i] == stream_out(p, frames, gone + i)
}

proof fn lemma_place(j: int, hop: int, k: int)
    requires
        0 <= j,
        1 <= hop,
        0 <= k < hop,
    ensures
        (j * hop + k) / hop == j,
        (j * hop + k) % hop == k,
{
    vstd::arithmetic::div_mod::lemma_fundamental_div_mod_converse(j * hop + k, hop, j, k);
}

proof fn lemma_follows<R: Real, B: Transform<R>>(
    p: BandPlan<R>,
    x: Seq<R>,
    count: nat,
    n: nat,
)
    requires
        1 <= p.hop <= p.size(),
        p.synthesis.len() == p.size(),
        n <= x.len(),
        blocks_by(n as int, p.size() as int, p.hop as int) <= count,
    ensures
        follows(
            p,
            lane_after::<R, B>(p, lane_rest(p.size()), x, n),
            x,
            stream_frames::<R, B>(p, x, count),
            n,
        ),
    decreases n,
{
    let size = p.size() as int;
    let hop = p.hop as int;
    let frames = stream_frames::<R, B>(p, x, count);
    let j = blocks_by(n as int, size, hop);
    if n == 0 {
        assert(0 * hop == 0);
        let rest = lane_rest::<R>(p.size());
        assert(rest.pending =~= x.subrange(0, 0));
    } else {
        let was = blocks_by(n - 1, size, hop);
        let d = n - size;
        if d >= 1 {
            lemma_block_count(d, hop);
        } else if d == 0 {
            vstd::arithmetic::div_mod::lemma_div_basics(hop);
            vstd::arithmetic::div_mod::lemma_small_mod(0, hop as nat);
        }
        assert(was <= j <= was + 1);
        lemma_follows::<R, B>(p, x, count, (n - 1) as nat);
        let before = lane_after::<R, B>(p, lane_rest(p.size()), x, (n - 1) as nat);
        let read = popped(before);
        let gone = if n < size {
            0
        } else {
            n - size
        };
        lemma_room(n - 1, size, hop);
        assert(read.ready.len() == was * hop - gone);
        assert forall|i: int| 0 <= i < read.ready.len() implies #[trigger] read.ready[i]
            == stream_out(p, frames, gone + i) by {
            if n - 1 >= size {
                assert(read.ready[i] == before.ready[i + 1]);
            } else {
                assert(before.ready.len() == 0 || read.ready[i] == before.ready[i]);
            }
        }
        let full = BandState { pending: read.pending.push(x[n - 1]), ..read };
        assert(full.pending =~= x.subrange(was * hop, n as int));
        let after = taken::<R, B>(p, read, x[n - 1]);
        assert(full.pending.len() == n - was * hop);
        if j == was + 1 {
            assert(was * hop == d) by {
                if d >= 1 {
                    assert((d / hop) * hop == d);
                }
                assert(was == d / hop);
            }
            assert(full.pending.len() == size);
            assert(frames[was] == filtered::<R, B>(p, full.pending)) by {
                assert(full.pending =~= x.subrange(was * hop, was * hop + size));
            }
            assert((was + 1) * hop == was * hop + hop) by (nonlinear_arith);
            let sum = summed(p, full.sum, filtered::<R, B>(p, full.pending));
            assert forall|i: int| 0 <= i < size implies #[trigger] sum[i] == overlap_added(
                frames,
                p.synthesis,
                hop,
                was * hop + i,
                (was + 1) as nat,
            ) by {
                assert(full.sum[i] == overlap_added(
                    frames,
                    p.synthesis,
                    hop,
                    was * hop + i,
                    was as nat,
                ));
            }
            assert(after.pending =~= x.subrange(j * hop, n as int));
            assert forall|i: int| 0 <= i < size implies #[trigger] after.sum[i] == overlap_added(
                frames,
                p.synthesis,
                hop,
                j * hop + i,
                j as nat,
            ) by {
                if i + hop < size {
                    assert(after.sum[i] == sum[i + hop]);
                } else {
                    lemma_beyond_reach(frames, p.synthesis, hop, j * hop + i, j as nat);
                }
            }
            let last = finalized(p, sum);
            assert(after.ready == read.ready + last);
            assert forall|i: int| 0 <= i < after.ready.len() implies #[trigger] after.ready[i]
                == stream_out(p, frames, gone + i) by {
                if i >= read.ready.len() {
                    let k = i - read.ready.len();
                    assert(after.ready[i] == last[k]);
                    lemma_place(was, hop, k);
                    assert(gone + i == was * hop + k);
                    assert(last[k] == sane(sum[k].prod(p.inverse[k])));
                } else {
                    assert(after.ready[i] == read.ready[i]);
                }
            }
        } else {
            assert(j == was);
            lemma_not_full(n as int, size, hop);
            assert(full.pending.len() != size);
            assert(after == full);
        }
    }
}

/// How far the frames of `n` samples reach: past what has been read, and no more than a
/// frame before the next one.
proof fn lemma_room(n: int, size: int, hop: int)
    requires
        0 <= n,
        1 <= hop <= size,
    ensures
        n >= size ==> blocks_by(n, size, hop) * hop > n - size,
        n < size ==> blocks_by(n, size, hop) * hop == 0,
        n - blocks_by(n, size, hop) * hop < size,
        blocks_by(n, size, hop) * hop <= n,
{
    if n >= size {
        vstd::arithmetic::div_mod::lemma_fundamental_div_mod(n - size, hop);
        vstd::arithmetic::div_mod::lemma_mod_bound(n - size, hop);
        let q = (n - size) / hop;
        assert((q + 1) * hop == hop * q + hop) by (nonlinear_arith);
    } else {
        assert(0 * hop == 0);
    }
}

proof fn lemma_not_full(n: int, size: int, hop: int)
    requires
        1 <= n,
        1 <= hop <= size,
        blocks_by(n, size, hop) == blocks_by(n - 1, size, hop),
    ensures
        n - blocks_by(n, size, hop) * hop != size,
{
    lemma_room(n, size, hop);
}

/// The filter is an overlap-add, one window late. After `n` samples of a stream from rest, a
/// lane delivers sample `n - size` of the output stream: the sum of the filtered frames that
/// reach it, under the synthesis window, times the reciprocal of the overlap at its place.
pub proof fn streams_are_overlap_added<R: Real, B: Transform<R>>(
    p: BandPlan<R>,
    x: Seq<R>,
    count: nat,
    n: nat,
)
    requires
        1 <= p.hop <= p.size() <= n,
        p.synthesis.len() == p.size(),
        n <= x.len(),
        blocks_by(n as int, p.size() as int, p.hop as int) <= count,
    ensures
        head(lane_after::<R, B>(p, lane_rest(p.size()), x, n)) == sane(
            stream_out(p, stream_frames::<R, B>(p, x, count), n - p.size()),
        ),
{
    lemma_follows::<R, B>(p, x, count, n);
    lemma_room(n as int, p.size() as int, p.hop as int);
    let s = lane_after::<R, B>(p, lane_rest(p.size()), x, n);
    assert(s.ready[0] == stream_out(p, stream_frames::<R, B>(p, x, count), n - p.size() + 0));
}

/// The share of the overlap that place `t` hops after place `k` of a hop has.
spec fn share<R: Real>(of: spec_fn(R) -> real, weight: Seq<R>, hop: int, k: int, t: int) -> real {
    if 0 <= t * hop + k < weight.len() {
        of(weight[t * hop + k])
    } else {
        0real
    }
}

proof fn lemma_weights_read<R: Real>(
    of: spec_fn(R) -> real,
    weight: Seq<R>,
    hop: int,
    j: int,
    k: int,
    n: nat,
)
    requires
        unrounded::<R>(of),
        1 <= hop,
        0 <= k < hop,
        n <= j + 1,
    ensures
        of(weight_added(weight, hop, j * hop + k, n)) == sum_of(
            |t: int| share(of, weight, hop, k, t),
            (j + 1) as nat,
        ) - sum_of(|t: int| share(of, weight, hop, k, t), (j + 1 - n) as nat),
    decreases n,
{
    lemma_unrounded::<R>(of);
    if n > 0 {
        lemma_weights_read(of, weight, hop, j, k, (n - 1) as nat);
        let t = j - (n - 1);
        assert(j * hop + k - (n - 1) * hop == t * hop + k) by (nonlinear_arith)
            requires
                t == j - (n - 1),
        ;
    }
}

proof fn lemma_overlap_reads<R: Real>(
    of: spec_fn(R) -> real,
    weight: Seq<R>,
    hop: int,
    k: int,
    n: nat,
)
    requires
        unrounded::<R>(of),
        1 <= hop,
        0 <= k < hop,
    ensures
        of(overlap_at(weight, hop, k, n)) == sum_of(|t: int| share(of, weight, hop, k, t), n),
    decreases n,
{
    lemma_unrounded::<R>(of);
    if n > 0 {
        lemma_overlap_reads(of, weight, hop, k, (n - 1) as nat);
        assert(0 <= (n - 1) * hop) by (nonlinear_arith)
            requires
                1 <= n,
                1 <= hop,
        ;
    }
}

proof fn lemma_nothing_past<R: Real>(
    of: spec_fn(R) -> real,
    weight: Seq<R>,
    hop: int,
    k: int,
    from: nat,
    n: nat,
)
    requires
        1 <= hop,
        0 <= k,
        from <= n,
        from * hop >= weight.len(),
    ensures
        sum_of(|t: int| share(of, weight, hop, k, t), n) == sum_of(
            |t: int| share(of, weight, hop, k, t),
            from,
        ),
    decreases n,
{
    if n > from {
        lemma_nothing_past(of, weight, hop, k, from, (n - 1) as nat);
        assert((n - 1) * hop >= from * hop) by (nonlinear_arith)
            requires
                n - 1 >= from,
                1 <= hop,
        ;
    }
}

proof fn lemma_stream_overlap<R: Real, B: Transform<R>>(
    of: spec_fn(R) -> real,
    p: BandPlan<R>,
    x: Seq<R>,
    count: nat,
    q: int,
    k: nat,
)
    requires
        unrounded::<R>(of),
        all_finite::<R>(),
        lossless::<R, B>(of, p.size()),
        p.synthesis == p.analysis,
        1 <= p.hop <= p.size(),
        p.lo <= 0,
        forall|f: Seq<R>|
            f.len() == p.size() ==> (#[trigger] spectrum_of::<R, B>(f)).len() <= p.hi + 1,
        0 <= q < x.len(),
        k <= count,
        k >= 1 ==> (k - 1) * p.hop + p.size() <= x.len(),
    ensures
        of(
            overlap_added(
                stream_frames::<R, B>(p, x, count),
                p.synthesis,
                p.hop as int,
                q,
                k,
            ),
        ) == of(weight_added(products(p.analysis, p.analysis), p.hop as int, q, k)) * of(x[q]),
    decreases k,
{
    lemma_unrounded::<R>(of);
    let frames = stream_frames::<R, B>(p, x, count);
    let window = p.analysis;
    let hop = p.hop as int;
    let s = of(x[q]);
    let weight = products(window, window);
    if k > 0 {
        assert((k - 2) * hop + hop == (k - 1) * hop) by (nonlinear_arith);
        lemma_stream_overlap::<R, B>(of, p, x, count, q, (k - 1) as nat);
        let m = k - 1;
        let i = q - m * hop;
        let w0 = of(weight_added(weight, hop, q, (k - 1) as nat));
        if 0 <= i < window.len() {
            assert(0 <= m * hop) by (nonlinear_arith)
                requires
                    0 <= m,
                    1 <= hop,
            ;
            let frame = x.subrange(m * hop, m * hop + p.size());
            let cut = windowed(frame, 0, window);
            let bins = spectrum_of::<R, B>(cut);
            assert(bins.len() <= p.hi + 1);
            assert(banded(bins, p.lo, p.hi) =~= bins);
            assert(frames[m] == filtered::<R, B>(p, frame));
            assert(frames[m] == signal_of::<R, B>(p.size(), bins));
            assert(frame[i] == x[q]);
            assert(x[q].finite());
            assert(cut[i] == x[q].prod(window[i]));
            let w = of(window[i]);
            assert(frames[m][i].finite());
            assert(of(frames[m][i]) == s * w);
            assert((s * w) * w == (w * w) * s) by (nonlinear_arith);
            lemma_spread(w0, w * w, 0real, 0real, 0real, s);
            assert(0real * s == 0real);
            assert(of(weight[i]) == w * w);
        }
    } else {
        assert(0real * s == 0real);
    }
}

/// A band of everything passes everything. Where arithmetic never rounds and the transform
/// loses nothing, a plan that keeps every bin, with one window for analysis and synthesis and
/// the reciprocals of its overlap, gives back the stream: sample `q` of the output is sample
/// `q` of the input, from the sample on that every frame that could reach it has.
pub proof fn whole_bands_pass_the_stream<R: Real, B: Transform<R>>(
    of: spec_fn(R) -> real,
    p: BandPlan<R>,
    x: Seq<R>,
    count: nat,
    q: int,
)
    requires
        unrounded::<R>(of),
        all_finite::<R>(),
        lossless::<R, B>(of, p.size()),
        p.synthesis == p.analysis,
        1 <= p.hop <= p.size(),
        p.lo <= 0,
        forall|f: Seq<R>|
            f.len() == p.size() ==> (#[trigger] spectrum_of::<R, B>(f)).len() <= p.hi + 1,
        p.inverse.len() == p.hop,
        forall|k: int|
            0 <= k < p.hop ==> of(#[trigger] p.inverse[k]) * of(
                overlap_gain(products(p.analysis, p.analysis), p.hop)[k],
            ) == 1real,
        0 <= q,
        q / p.hop as int + 1 >= hops_in(p.size() as int, p.hop as int),
        q / p.hop as int + 1 <= count,
        (q / p.hop as int) * p.hop + p.size() <= x.len(),
    ensures
        of(stream_out(p, stream_frames::<R, B>(p, x, count), q)) == of(x[q]),
{
    lemma_unrounded::<R>(of);
    let hop = p.hop as int;
    let size = p.size() as int;
    let j = q / hop;
    let k = q % hop;
    vstd::arithmetic::div_mod::lemma_fundamental_div_mod(q, hop);
    vstd::arithmetic::div_mod::lemma_mod_bound(q, hop);
    vstd::arithmetic::div_mod::lemma_div_pos_is_pos(q, hop);
    assert(j * hop == hop * j) by (nonlinear_arith);
    assert(q == j * hop + k);
    let weight = products(p.analysis, p.analysis);
    let frames = stream_frames::<R, B>(p, x, count);
    let n = (j + 1) as nat;
    lemma_stream_overlap::<R, B>(of, p, x, count, q, n);
    lemma_weights_read(of, weight, hop, j, k, n);
    let hops = hops_in(size, hop);
    vstd::arithmetic::div_mod::lemma_fundamental_div_mod(size + hop - 1, hop);
    vstd::arithmetic::div_mod::lemma_mod_bound(size + hop - 1, hop);
    assert(hops * hop == hop * hops) by (nonlinear_arith);
    assert(hops * hop >= size);
    assert(hops >= 0) by {
        vstd::arithmetic::div_mod::lemma_div_pos_is_pos(size + hop - 1, hop);
    }
    lemma_overlap_reads(of, weight, hop, k, hops as nat);
    lemma_nothing_past(of, weight, hop, k, hops as nat, n);
    let g = of(overlap_gain(weight, p.hop)[k]);
    let a = overlap_added(frames, p.synthesis, hop, q, n);
    assert(of(a) == g * of(x[q]));
    let y = a.prod(p.inverse[k]);
    assert(y.finite());
    let (v, b) = (of(x[q]), of(p.inverse[k]));
    assert((g * v) * b == (b * g) * v) by (nonlinear_arith);
    lemma_times(b * g, 1real, v);
    assert(1real * v == v);
}

/// A plan undoes the overlap of its window: it uses one window for analysis and synthesis,
/// the hop of the settings, and, where arithmetic never rounds, reciprocals of the overlap
/// of the window with itself.
pub proof fn plans_undo_their_overlap<R: Real>(
    settings: SpectralFilterSettings<R>,
    rate: u32,
    k: int,
    of: spec_fn(R) -> real,
)
    requires
        unrounded::<R>(of),
        0 <= k < settings.hop,
        ({
            let w = window_of::<R>(settings.window, settings.size as nat);
            of(overlap_gain(products(w, w), settings.hop as nat)[k]) != 0real
        }),
    ensures
        ({
            let w = window_of::<R>(settings.window, settings.size as nat);
            let plan = settings.plan(rate);
            &&& plan.analysis == w && plan.synthesis == w
            &&& plan.hop == settings.hop && plan.size() == settings.size
            &&& plan.inverse.len() == settings.hop
            &&& of(plan.inverse[k]) * of(overlap_gain(products(w, w), settings.hop as nat)[k])
                == 1real
        }),
{
    lemma_unrounded::<R>(of);
    let gain = settings.overlap()[k];
    lemma_ratio(of(settings.plan(rate).inverse[k]), 1real, of(gain));
}

} // verus!
