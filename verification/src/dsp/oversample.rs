//! Polyphase oversampling for inter-sample peak detection.
//!
//! A signal's true peak can occur between samples and exceed every sample value.
//! [`PolyphaseUpsampler`] upsamples by an integer factor and reports the largest
//! magnitude among the interpolated phases. It is a detector, not a signal-path
//! filter; a finite stream ends with
//! [`drain_peak`](PolyphaseUpsampler::drain_peak).

use crate::dsp::memory::{bytes_of, filled, refill, saturated};
use crate::dsp::sanitize::{finite_or_zero, sane};
use crate::number::{larger, max_of, nil, unit, Order, Real};
use vstd::layout::size_of;
use vstd::prelude::*;

verus! {

/// Pi.
pub open spec fn pi<R: Real>() -> R {
    R::decimal_of(3141592653589793, -15)
}

/// Coefficient `i` of a windowed-sinc prototype of `len` coefficients for an
/// oversampling `factor`, before normalization.
pub open spec fn prototype<R: Real>(factor: u64, len: u64, i: u64) -> R {
    let two = R::decimal_of(2, 0);
    let half = R::decimal_of(5, -1);
    let denom = R::natural((len - 1) as u64);
    let center = denom.quot(two);
    let t = R::natural(i).diff(center).quot(R::natural(factor));
    let sinc = if t.magnitude().below(R::decimal_of(1, -12)) {
        unit()
    } else {
        pi::<R>().prod(t).sine().quot(pi::<R>().prod(t))
    };
    let hann = if nil::<R>().below(denom) {
        half.diff(half.prod(two.prod(pi()).prod(R::natural(i)).quot(denom).cosine()))
    } else {
        unit()
    };
    sinc.prod(hann)
}

/// The sum of the first `n` prototype coefficients.
pub open spec fn prototype_sum<R: Real>(factor: u64, len: u64, n: nat) -> R
    decreases n,
{
    if n == 0 {
        nil()
    } else {
        prototype_sum::<R>(factor, len, (n - 1) as nat).sum(prototype(factor, len, (n - 1) as u64))
    }
}

/// Coefficient `i` normalized to unity gain per phase.
pub open spec fn normalized_prototype<R: Real>(factor: u64, len: u64, i: u64) -> R {
    prototype::<R>(factor, len, i).prod(
        R::natural(factor).quot(prototype_sum(factor, len, len as nat)),
    )
}

/// The phases: phase `ph` takes every `factor`-th coefficient from `ph` on.
pub open spec fn phase_table<R: Real>(factor: nat, taps: nat) -> Seq<Seq<R>> {
    Seq::new(
        factor,
        |ph: int|
            Seq::new(
                taps,
                |k: int|
                    normalized_prototype(
                        factor as u64,
                        (factor * taps) as u64,
                        (ph + k * factor) as u64,
                    ),
            ),
    )
}

/// The weighted sum of the first `n` delayed samples.
pub open spec fn weighted<R: Real>(weights: Seq<R>, delay: Seq<R>, n: nat) -> R
    decreases n,
{
    if n == 0 {
        nil()
    } else {
        weighted(weights, delay, (n - 1) as nat).sum(weights[n - 1].prod(delay[n - 1]))
    }
}

/// The largest magnitude among the outputs of the first `n` phases.
pub open spec fn phase_peak<R: Real>(phases: Seq<Seq<R>>, delay: Seq<R>, n: nat) -> R
    decreases n,
{
    if n == 0 {
        nil()
    } else {
        let peak = phase_peak(phases, delay, (n - 1) as nat);
        let a = weighted(phases[n - 1], delay, delay.len()).magnitude();
        if peak.below(a) {
            a
        } else {
            peak
        }
    }
}

/// The delay line after the sample `x`: newest first.
pub open spec fn shifted_in<R: Real>(delay: Seq<R>, x: R) -> Seq<R> {
    Seq::new(
        delay.len(),
        |i: int|
            if i == 0 {
                sane(x)
            } else {
                delay[i - 1]
            },
    )
}

/// The delay line after `n` silent samples.
pub open spec fn drained_line<R: Real>(delay: Seq<R>, n: nat) -> Seq<R>
    decreases n,
{
    if n == 0 {
        delay
    } else {
        shifted_in(drained_line(delay, (n - 1) as nat), nil())
    }
}

/// The largest peak that `n` silent samples bring out.
pub open spec fn drained_peak<R: Real>(phases: Seq<Seq<R>>, delay: Seq<R>, n: nat) -> R
    decreases n,
{
    if n == 0 {
        nil()
    } else {
        larger(
            drained_peak(phases, delay, (n - 1) as nat),
            phase_peak(phases, drained_line(delay, n), phases.len()),
        )
    }
}

/// `a / b` rounded up.
pub open spec fn ceil_div(a: int, b: int) -> int {
    (a + b - 1) / b
}

/// A single-channel oversampler that reports inter-sample peaks.
#[derive(Clone, Debug)]
pub struct PolyphaseUpsampler<R> {
    /// Taps per phase.
    taps: usize,
    /// Coefficients, phase by phase.
    phases: Vec<Vec<R>>,
    /// The last inputs, newest first.
    delay: Vec<R>,
}

impl<R: Real> PolyphaseUpsampler<R> {
    /// The coefficients, phase by phase.
    pub closed spec fn table(&self) -> Seq<Seq<R>> {
        Seq::new(self.phases@.len(), |ph: int| self.phases@[ph]@)
    }

    /// The last inputs, newest first.
    pub closed spec fn line(&self) -> Seq<R> {
        self.delay@
    }

    /// Taps per phase.
    pub closed spec fn span(&self) -> usize {
        self.taps
    }

    /// At least one phase, and every phase as long as the delay line.
    pub closed spec fn wf(&self) -> bool {
        &&& self.taps >= 1
        &&& self.phases@.len() >= 1
        &&& self.phases@.len() * self.taps <= usize::MAX
        &&& self.delay@.len() == self.taps
        &&& forall|ph: int| 0 <= ph < self.phases@.len() ==> (#[trigger] self.phases@[ph])@.len() == self.taps
    }

    /// The sizes that a valid oversampler has.
    pub proof fn valid_sizes(&self)
        requires
            self.wf(),
        ensures
            self.span() >= 1,
            self.table().len() >= 1,
            self.line().len() == self.span(),
            self.table().len() * self.span() <= usize::MAX,
    {
    }

    /// Build an oversampler with `factor` phases and `taps_per_phase` taps per
    /// phase.
    pub fn new(factor: usize, taps_per_phase: usize) -> (r: Self)
        requires
            factor >= 1,
            taps_per_phase >= 1,
            factor * taps_per_phase <= usize::MAX,
        ensures
            r.wf(),
            r.span() == taps_per_phase,
            r.table() == phase_table::<R>(factor as nat, taps_per_phase as nat),
            r.line() == Seq::new(taps_per_phase as nat, |i: int| nil::<R>()),
    {
        let m: usize = factor;
        let p: usize = taps_per_phase;
        assert(m * p >= 1) by (nonlinear_arith)
            requires
                m >= 1,
                p >= 1,
        ;
        let len: usize = m * p;
        let two = R::decimal(2, 0);
        let half = R::decimal(5, -1);
        let pi = R::decimal(3141592653589793, -15);
        let denom = R::from_u64((len - 1) as u64);
        let center = denom.over(two);
        let mut proto: Vec<R> = Vec::with_capacity(len);
        let mut sum = R::zero();
        let mut i: usize = 0;
        while i < len
            invariant
                0 <= i <= len,
                1 <= len,
                two == R::decimal_of(2, 0),
                half == R::decimal_of(5, -1),
                pi == self::pi::<R>(),
                denom == R::natural((len - 1) as u64),
                center == denom.quot(two),
                proto@.len() == i,
                forall|j: int|
                    0 <= j < i ==> #[trigger] proto@[j] == prototype::<R>(
                        m as u64,
                        len as u64,
                        j as u64,
                    ),
                sum == prototype_sum::<R>(m as u64, len as u64, i as nat),
            decreases len - i,
        {
            // Sinc low-pass at the input Nyquist in the upsampled grid.
            let t = R::from_u64(i as u64).minus(center).over(R::from_u64(m as u64));
            let sinc = if t.abs().less(R::decimal(1, -12)) {
                R::one()
            } else {
                pi.times(t).sin().over(pi.times(t))
            };
            let hann = if R::zero().less(denom) {
                half.minus(
                    half.times(two.times(pi).times(R::from_u64(i as u64)).over(denom).cos()),
                )
            } else {
                R::one()
            };
            let h = sinc.times(hann);
            proto.push(h);
            sum = sum.plus(h);
            i += 1;
        }
        let scale = R::from_u64(m as u64).over(sum);
        let mut phases: Vec<Vec<R>> = Vec::with_capacity(m);
        let ghost want = phase_table::<R>(m as nat, p as nat);
        let mut ph: usize = 0;
        while ph < m
            invariant
                0 <= ph <= m,
                len == m * p,
                proto@.len() == len,
                scale == R::natural(m as u64).quot(
                    prototype_sum(m as u64, len as u64, len as nat),
                ),
                forall|j: int|
                    0 <= j < len ==> #[trigger] proto@[j] == prototype::<R>(
                        m as u64,
                        len as u64,
                        j as u64,
                    ),
                want == phase_table::<R>(m as nat, p as nat),
                phases@.len() == ph,
                forall|q: int| 0 <= q < ph ==> (#[trigger] phases@[q])@ == want[q],
            decreases m - ph,
        {
            let mut row: Vec<R> = Vec::with_capacity(p);
            let mut k: usize = 0;
            while k < p
                invariant
                    0 <= k <= p,
                    0 <= ph < m,
                    len == m * p,
                    proto@.len() == len,
                    scale == R::natural(m as u64).quot(
                        prototype_sum(m as u64, len as u64, len as nat),
                    ),
                    forall|j: int|
                        0 <= j < len ==> #[trigger] proto@[j] == prototype::<R>(
                            m as u64,
                            len as u64,
                            j as u64,
                        ),
                    want == phase_table::<R>(m as nat, p as nat),
                    row@.len() == k,
                    forall|j: int| 0 <= j < k ==> #[trigger] row@[j] == want[ph as int][j],
                decreases p - k,
            {
                assert(0 <= k * m && ph + k * m < m * p) by (nonlinear_arith)
                    requires
                        0 <= k < p,
                        0 <= ph < m,
                ;
                let at: usize = ph + k * m;
                row.push(proto[at].times(scale));
                k += 1;
            }
            assert(row@ =~= want[ph as int]);
            phases.push(row);
            ph += 1;
        }
        let delay = filled(R::zero(), p);
        let r = Self { taps: p, phases, delay };
        proof {
            assert(r.table() =~= want);
            assert forall|q: int| 0 <= q < r.phases@.len() implies (#[trigger] r.phases@[q])@.len()
                == r.taps by {
                assert(r.phases@[q]@ == want[q]);
            }
        }
        r
    }

    /// The oversampling factor.
    pub fn factor(&self) -> (r: usize)
        ensures
            r == self.table().len(),
    {
        self.phases.len()
    }

    /// Detector group delay in input frames.
    pub fn latency(&self) -> (r: usize)
        requires
            self.wf(),
        ensures
            r == ceil_div(self.table().len() * self.span() - 1, 2 * self.table().len() as int),
    {
        let f: u128 = self.phases.len() as u128;
        let t: u128 = self.taps as u128;
        assert(1 <= f * t <= usize::MAX) by {
            assert(f * t >= 1) by (nonlinear_arith)
                requires
                    f >= 1,
                    t >= 1,
            ;
        }
        let n: u128 = f * t - 1 + 2 * f - 1;
        let d: u128 = 2 * f;
        assert(n / d <= usize::MAX) by (nonlinear_arith)
            requires
                n == f * t - 1 + 2 * f - 1,
                d == 2 * f,
                f >= 1,
                1 <= t <= usize::MAX,
        {
            assert(n < d * (t + 1));
        }
        (n / d) as usize
    }

    /// Silent frames needed to remove every retained input contribution.
    pub fn tail_frames(&self) -> (r: usize)
        requires
            self.wf(),
        ensures
            r == self.span() - 1,
    {
        self.taps - 1
    }

    /// Clear the delay line.
    pub fn reset(&mut self)
        requires
            old(self).wf(),
        ensures
            final(self).wf(),
            final(self).table() == old(self).table(),
            final(self).span() == old(self).span(),
            final(self).line() == Seq::new(old(self).line().len(), |i: int| nil::<R>()),
    {
        refill(&mut self.delay, R::zero());
    }

    /// Push one input sample and return the largest magnitude among the
    /// interpolated outputs.
    pub fn peak_abs(&mut self, x: R) -> (r: R)
        requires
            old(self).wf(),
        ensures
            final(self).wf(),
            final(self).table() == old(self).table(),
            final(self).span() == old(self).span(),
            final(self).line() == shifted_in(old(self).line(), x),
            r == phase_peak(
                old(self).table(),
                shifted_in(old(self).line(), x),
                old(self).table().len(),
            ),
    {
        let x = finite_or_zero(x);
        let taps: usize = self.taps;
        let ghost before = self.delay@;
        // Shift the delay line down by one and put the newest sample in front.
        let mut k: usize = taps;
        while k > 1
            invariant
                1 <= k <= taps,
                taps == before.len(),
                self.delay@.len() == taps,
                self.phases@ == old(self).phases@,
                self.taps == taps,
                forall|j: int| 0 <= j < k ==> #[trigger] self.delay@[j] == before[j],
                forall|j: int| k <= j < taps ==> #[trigger] self.delay@[j] == before[j - 1],
            decreases k,
        {
            k -= 1;
            let moved = self.delay[k - 1];
            self.delay.set(k, moved);
        }
        self.delay.set(0, x);
        let ghost line = self.delay@;
        assert(line =~= shifted_in(before, x));
        let mut peak = R::zero();
        let mut ph: usize = 0;
        while ph < self.phases.len()
            invariant
                0 <= ph <= self.phases@.len(),
                self.wf(),
                self.phases@ == old(self).phases@,
                self.taps == old(self).taps,
                self.delay@ == line,
                peak == phase_peak(self.table(), line, ph as nat),
            decreases self.phases@.len() - ph,
        {
            let mut acc = R::zero();
            let mut i: usize = 0;
            assert(self.phases@[ph as int]@.len() == self.taps);
            while i < self.taps
                invariant
                    0 <= i <= self.taps,
                    0 <= ph < self.phases@.len(),
                    self.wf(),
                    self.phases@[ph as int]@.len() == self.taps,
                    self.delay@ == line,
                    acc == weighted(self.phases@[ph as int]@, line, i as nat),
                decreases self.taps - i,
            {
                acc = acc.plus(self.phases[ph][i].times(self.delay[i]));
                i += 1;
            }
            let a = acc.abs();
            if peak.less(a) {
                peak = a;
            }
            ph += 1;
        }
        assert(self.table() =~= old(self).table());
        peak
    }

    /// Push enough silent frames to complete a finite stream and return the
    /// largest magnitude they bring out.
    pub fn drain_peak(&mut self) -> (r: R)
        requires
            old(self).wf(),
        ensures
            final(self).wf(),
            final(self).table() == old(self).table(),
            final(self).span() == old(self).span(),
            final(self).line() == drained_line(old(self).line(), (old(self).span() - 1) as nat),
            r == drained_peak(old(self).table(), old(self).line(), (old(self).span() - 1) as nat),
    {
        let n: usize = self.tail_frames();
        let mut peak = R::zero();
        let mut i: usize = 0;
        while i < n
            invariant
                0 <= i <= n,
                self.wf(),
                self.table() == old(self).table(),
                self.span() == old(self).span(),
                self.line() == drained_line(old(self).line(), i as nat),
                peak == drained_peak(old(self).table(), old(self).line(), i as nat),
            decreases n - i,
        {
            let p = self.peak_abs(R::zero());
            peak = max_of(peak, p);
            i += 1;
        }
        peak
    }

    /// State bytes for coefficients and delay.
    pub fn footprint(&self) -> (r: usize)
        requires
            self.wf(),
        ensures
            r == saturated(
                saturated(self.table().len() * self.span() as nat + self.span() as nat) as nat
                    * size_of::<R>(),
            ),
    {
        let elements: usize = (self.phases.len() * self.taps).saturating_add(self.taps);
        bytes_of::<R>(elements)
    }
}

/// After a drain nothing of the earlier input is left for a later sample: every
/// place but the oldest holds silence, and the oldest leaves with the next
/// sample.
pub proof fn drained_line_forgets<R: Real>(delay: Seq<R>, n: nat)
    requires
        n < delay.len(),
        nil::<R>().finite(),
    ensures
        drained_line(delay, n).len() == delay.len(),
        forall|i: int| 0 <= i < n ==> #[trigger] drained_line(delay, n)[i] == nil::<R>(),
        forall|i: int|
            n <= i < delay.len() ==> #[trigger] drained_line(delay, n)[i] == delay[i - n],
    decreases n,
{
    if n > 0 {
        drained_line_forgets(delay, (n - 1) as nat);
    }
}

/// Weighing silence gives silence.
pub open spec fn silence_stays<R: Real>(phases: Seq<Seq<R>>) -> bool {
    &&& nil::<R>().finite() && nil::<R>().alike(nil()) && !nil::<R>().below(nil())
    &&& nil::<R>().magnitude() == nil::<R>()
    &&& forall|ph: int, k: int|
        0 <= ph < phases.len() && 0 <= k < phases[ph].len() ==> nil::<R>().sum(
            (#[trigger] phases[ph][k]).prod(nil()),
        ) == nil::<R>()
}

proof fn lemma_silent_line<R: Real>(phases: Seq<Seq<R>>, delay: Seq<R>, n: nat)
    requires
        silence_stays(phases),
        n <= phases.len(),
        forall|ph: int| 0 <= ph < phases.len() ==> (#[trigger] phases[ph]).len() == delay.len(),
        forall|i: int| 0 <= i < delay.len() ==> #[trigger] delay[i] == nil::<R>(),
    ensures
        phase_peak(phases, delay, n) == nil::<R>(),
    decreases n,
{
    if n > 0 {
        lemma_silent_line(phases, delay, (n - 1) as nat);
        lemma_silent_phase(phases, delay, n - 1, delay.len());
    }
}

proof fn lemma_silent_phase<R: Real>(phases: Seq<Seq<R>>, delay: Seq<R>, ph: int, n: nat)
    requires
        silence_stays(phases),
        0 <= ph < phases.len(),
        phases[ph].len() == delay.len(),
        n <= delay.len(),
        forall|i: int| 0 <= i < delay.len() ==> #[trigger] delay[i] == nil::<R>(),
    ensures
        weighted(phases[ph], delay, n) == nil::<R>(),
    decreases n,
{
    if n > 0 {
        lemma_silent_phase(phases, delay, ph, (n - 1) as nat);
        assert(nil::<R>().sum(phases[ph][n - 1].prod(nil())) == nil::<R>());
        assert(delay[n - 1] == nil::<R>());
    }
}

/// Where weighing silence gives silence, a second drain without new input brings out
/// nothing.
pub proof fn a_second_drain_is_silent<R: Real>(phases: Seq<Seq<R>>, delay: Seq<R>, n: nat)
    requires
        silence_stays(phases),
        n < delay.len(),
        forall|ph: int| 0 <= ph < phases.len() ==> (#[trigger] phases[ph]).len() == delay.len(),
    ensures
        drained_peak(phases, drained_line(delay, (delay.len() - 1) as nat), n) == nil::<R>(),
    decreases n,
{
    let first = drained_line(delay, (delay.len() - 1) as nat);
    drained_line_forgets(delay, (delay.len() - 1) as nat);
    if n > 0 {
        a_second_drain_is_silent(phases, delay, (n - 1) as nat);
        let line = drained_line(first, n);
        drained_line_forgets(first, n);
        assert forall|i: int| 0 <= i < line.len() implies #[trigger] line[i] == nil::<R>() by {
            if i >= n {
                assert(line[i] == first[i - n]);
            }
        }
        lemma_silent_line(phases, line, phases.len());
    }
}

} // verus!
