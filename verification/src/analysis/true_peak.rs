//! True-peak meter.

use crate::analysis::fold::{
    folded, folded_lanes, folded_plane, joined_blocks, lemma_folded_joins, lemma_folded_prefix,
    lemma_lanes_join,
};
use crate::analysis::geometry::{meter_contract, meter_fits, PreparedMeterContract};
use crate::contract::block::AudioBlock;
use crate::contract::error::DspError;
use crate::contract::spec::ProcessSpec;
use crate::contract::traits::{meter_answers_stand, Measurer};
use crate::dsp::memory::{empty_plan, saturated, saturation_is_final, scaled, MemoryLayout};
use crate::dsp::oversample::{phase_peak, phase_table, shifted_in, weighted, PolyphaseUpsampler};
use crate::dsp::sanitize::{finite_or_zero, sane};
use crate::number::{at_most, larger, max_of, nil, Order, Real, Sample};
use vstd::layout::size_of;
use vstd::prelude::*;

verus! {

/// Oversampling factor.
pub const FACTOR: usize = 4;

/// Taps per phase.
pub const TAPS: usize = 12;

/// True-peak meter. It oversamples each channel and reports the largest
/// reconstructed magnitude between samples.
///
/// The oversampling filter has a small group delay: the reading describes the
/// input `latency` frames before the most recently observed one, which is
/// 6 frames.
#[derive(Clone, Debug)]
pub struct TruePeakMeter<T: Sample> {
    /// One oversampler per channel.
    pub os: Vec<PolyphaseUpsampler<T::Real>>,
    pub peak: T::Real,
    pub prepared: Option<PreparedMeterContract>,
}

/// The state of a true-peak meter.
#[verifier::ext_equal]
pub struct TruePeakModel<R> {
    pub lines: Seq<Seq<R>>,
    pub peak: R,
}

/// The coefficients of the meter's oversamplers.
pub open spec fn meter_table<R: Real>() -> Seq<Seq<R>> {
    phase_table::<R>(FACTOR as nat, TAPS as nat)
}

/// An oversampler's delay line with one sample taken in.
pub open spec fn line_step<T: Sample>() -> spec_fn(Seq<T::Real>, T) -> Seq<T::Real> {
    |line: Seq<T::Real>, x: T| shifted_in(line, sane(x.value()))
}

/// What one sample reaches: the larger of true peak and sample peak.
pub open spec fn reached<T: Sample>(line: Seq<T::Real>, x: T) -> T::Real {
    larger(
        phase_peak(meter_table::<T::Real>(), shifted_in(line, sane(x.value())), FACTOR as nat),
        sane(x.value()).magnitude(),
    )
}

/// The peak after the first `n` samples of a channel.
pub open spec fn run_peak<T: Sample>(
    peak: T::Real,
    line: Seq<T::Real>,
    xs: Seq<T>,
    n: nat,
) -> T::Real
    decreases n,
{
    if n == 0 {
        peak
    } else {
        larger(
            run_peak::<T>(peak, line, xs, (n - 1) as nat),
            reached::<T>(folded(line, xs, line_step::<T>(), (n - 1) as nat), xs[n - 1]),
        )
    }
}

/// The peak after the first `n` channels of a block.
pub open spec fn block_peak<T: Sample>(
    peak: T::Real,
    lines: Seq<Seq<T::Real>>,
    x: Seq<Seq<T>>,
    n: nat,
) -> T::Real
    decreases n,
{
    if n == 0 {
        peak
    } else {
        run_peak::<T>(
            block_peak::<T>(peak, lines, x, (n - 1) as nat),
            lines[n - 1],
            x[n - 1],
            x[n - 1].len(),
        )
    }
}

/// What sample `i` of channel `c` reaches.
pub open spec fn reached_at<T: Sample>(
    lines: Seq<Seq<T::Real>>,
    x: Seq<Seq<T>>,
    c: int,
    i: int,
) -> T::Real {
    reached::<T>(folded(lines[c], x[c], line_step::<T>(), i as nat), x[c][i])
}

/// Every sample reaches a finite level.
pub open spec fn reaches_finite<T: Sample>(lines: Seq<Seq<T::Real>>, x: Seq<Seq<T>>) -> bool {
    forall|c: int, i: int|
        0 <= c < x.len() && 0 <= i < x[c].len() ==> (#[trigger] reached_at::<T>(
            lines,
            x,
            c,
            i,
        )).finite()
}

/// `p` is the rank of the largest of `from` and what the first `n` channels
/// reach.
spec fn tops<T: Sample>(
    from: int,
    lines: Seq<Seq<T::Real>>,
    x: Seq<Seq<T>>,
    n: nat,
    p: int,
) -> bool {
    &&& from <= p
    &&& forall|c: int, i: int|
        0 <= c < n && 0 <= i < x[c].len() ==> (#[trigger] reached_at::<T>(
            lines,
            x,
            c,
            i,
        )).rank() <= p
    &&& p == from || exists|c: int, i: int|
        0 <= c < n && 0 <= i < x[c].len() && p == (#[trigger] reached_at::<T>(
            lines,
            x,
            c,
            i,
        )).rank()
}

proof fn lemma_run_tops<T: Sample>(
    peak: T::Real,
    lines: Seq<Seq<T::Real>>,
    x: Seq<Seq<T>>,
    c: int,
    n: nat,
)
    requires
        0 <= c < x.len(),
        n <= x[c].len(),
        peak.finite(),
        reaches_finite::<T>(lines, x),
    ensures
        ({
            let p = run_peak::<T>(peak, lines[c], x[c], n);
            &&& p.finite()
            &&& peak.rank() <= p.rank()
            &&& forall|i: int|
                0 <= i < n ==> (#[trigger] reached_at::<T>(lines, x, c, i)).rank() <= p.rank()
            &&& p.rank() == peak.rank() || exists|i: int|
                0 <= i < n && p.rank() == (#[trigger] reached_at::<T>(lines, x, c, i)).rank()
        }),
    decreases n,
{
    if n > 0 {
        lemma_run_tops::<T>(peak, lines, x, c, (n - 1) as nat);
        let before = run_peak::<T>(peak, lines[c], x[c], (n - 1) as nat);
        let a = reached_at::<T>(lines, x, c, n - 1);
        assert(a.finite());
        let p = run_peak::<T>(peak, lines[c], x[c], n);
        assert(p == larger(before, a));
    }
}

proof fn lemma_block_tops<T: Sample>(
    peak: T::Real,
    lines: Seq<Seq<T::Real>>,
    x: Seq<Seq<T>>,
    n: nat,
)
    requires
        n <= x.len(),
        peak.finite(),
        reaches_finite::<T>(lines, x),
    ensures
        block_peak::<T>(peak, lines, x, n).finite(),
        tops::<T>(peak.rank(), lines, x, n, block_peak::<T>(peak, lines, x, n).rank()),
    decreases n,
{
    if n > 0 {
        lemma_block_tops::<T>(peak, lines, x, (n - 1) as nat);
        let before = block_peak::<T>(peak, lines, x, (n - 1) as nat);
        lemma_run_tops::<T>(before, lines, x, n - 1, x[n - 1].len());
    }
}

/// A true-peak meter reads the highest level that the block reaches, at its samples and
/// between them: where all levels are finite, no sample of the block, and none of the values
/// interpolated around it, has a larger magnitude than the reading on a cleared meter.
pub proof fn true_peak_covers_samples_and_what_is_between<T: Sample>(
    m: TruePeakModel<T::Real>,
    x: Seq<Seq<T>>,
    c: int,
    i: int,
    phase: int,
)
    requires
        nil::<T::Real>().finite(),
        0 <= c < x.len(),
        x.len() == m.lines.len(),
        0 <= i < x[c].len(),
        0 <= phase < FACTOR,
        x[c][i].value().finite(),
        ({
            let lines = <TruePeakMeter<T> as Measurer<T>>::cleared(m).lines;
            let line = shifted_in(
                folded(lines[c], x[c], line_step::<T>(), i as nat),
                x[c][i].value(),
            );
            &&& reaches_finite::<T>(lines, x)
            &&& x[c][i].value().magnitude().finite()
            &&& forall|ph: int|
                0 <= ph < FACTOR ==> weighted(
                    #[trigger] meter_table::<T::Real>()[ph],
                    line,
                    line.len(),
                ).magnitude().finite()
        }),
    ensures
        ({
            let rest = <TruePeakMeter<T> as Measurer<T>>::cleared(m);
            let line = shifted_in(
                folded(rest.lines[c], x[c], line_step::<T>(), i as nat),
                x[c][i].value(),
            );
            let peak = <TruePeakMeter<T> as Measurer<T>>::reading(
                <TruePeakMeter<T> as Measurer<T>>::observed(rest, x),
            );
            &&& peak.finite()
            &&& at_most(x[c][i].value().magnitude(), peak)
            &&& at_most(
                weighted(meter_table::<T::Real>()[phase], line, line.len()).magnitude(),
                peak,
            )
        }),
{
    let rest = <TruePeakMeter<T> as Measurer<T>>::cleared(m);
    lemma_block_tops::<T>(nil(), rest.lines, x, x.len());
    let line = shifted_in(
        folded(rest.lines[c], x[c], line_step::<T>(), i as nat),
        x[c][i].value(),
    );
    let level = reached_at::<T>(rest.lines, x, c, i);
    assert(level.finite());
    let top = block_peak::<T>(nil(), rest.lines, x, x.len());
    assert(level.rank() <= top.rank());
    lemma_phases_are_covered(meter_table::<T::Real>(), line, FACTOR as nat, phase);
}

proof fn lemma_phases_are_covered<R: Real>(phases: Seq<Seq<R>>, line: Seq<R>, n: nat, phase: int)
    requires
        nil::<R>().finite(),
        0 <= phase < n,
        forall|ph: int|
            0 <= ph < n ==> weighted(#[trigger] phases[ph], line, line.len()).magnitude().finite(),
    ensures
        phase_peak(phases, line, n).finite(),
        weighted(phases[phase], line, line.len()).magnitude().rank() <= phase_peak(
            phases,
            line,
            n,
        ).rank(),
    decreases n,
{
    assert(weighted(phases[n - 1], line, line.len()).magnitude().finite());
    lemma_phase_peak_is_finite(phases, line, (n - 1) as nat);
    if phase < n - 1 {
        lemma_phases_are_covered(phases, line, (n - 1) as nat, phase);
    }
}

proof fn lemma_phase_peak_is_finite<R: Real>(phases: Seq<Seq<R>>, line: Seq<R>, n: nat)
    requires
        nil::<R>().finite(),
        forall|ph: int|
            0 <= ph < n ==> weighted(#[trigger] phases[ph], line, line.len()).magnitude().finite(),
    ensures
        phase_peak(phases, line, n).finite(),
    decreases n,
{
    if n > 0 {
        assert(weighted(phases[n - 1], line, line.len()).magnitude().finite());
        lemma_phase_peak_is_finite(phases, line, (n - 1) as nat);
    }
}

/// How a signal is divided into blocks does not show in the true peak.
pub proof fn true_peak_blocks_join<T: Sample>(
    m: TruePeakModel<T::Real>,
    x: Seq<Seq<T>>,
    y: Seq<Seq<T>>,
)
    requires
        x.len() == m.lines.len(),
        y.len() == m.lines.len(),
        m.peak.finite(),
        reaches_finite::<T>(m.lines, joined_blocks(x, y)),
    ensures
        ({
            let two = <TruePeakMeter<T> as Measurer<T>>::observed(
                <TruePeakMeter<T> as Measurer<T>>::observed(m, x),
                y,
            );
            let one = <TruePeakMeter<T> as Measurer<T>>::observed(m, joined_blocks(x, y));
            two.lines == one.lines && two.peak.alike(one.peak)
        }),
{
    lemma_lanes_join(m.lines, x, y, line_step::<T>());
    let n = x.len();
    let z = joined_blocks(x, y);
    let mid = folded_lanes(m.lines, x, line_step::<T>());
    let first = block_peak::<T>(m.peak, m.lines, x, n);
    let two = block_peak::<T>(first, mid, y, n);
    let one = block_peak::<T>(m.peak, m.lines, z, n);
    assert forall|c: int, i: int| 0 <= c < n && 0 <= i < x[c].len() implies #[trigger] reached_at::<
        T,
    >(m.lines, x, c, i) == reached_at::<T>(m.lines, z, c, i) by {
        assert(z[c] == x[c] + y[c]);
        lemma_folded_prefix(m.lines[c], x[c], y[c], line_step::<T>(), i as nat);
    }
    assert forall|c: int, i: int| 0 <= c < n && 0 <= i < y[c].len() implies #[trigger] reached_at::<
        T,
    >(mid, y, c, i) == reached_at::<T>(m.lines, z, c, i + x[c].len()) by {
        assert(z[c] == x[c] + y[c]);
        lemma_folded_joins(m.lines[c], x[c], y[c], line_step::<T>(), i as nat);
    }
    assert forall|c: int, i: int| 0 <= c < n && 0 <= i < z[c].len() implies ({
        ||| i < x[c].len() && #[trigger] reached_at::<T>(m.lines, z, c, i) == reached_at::<T>(
            m.lines,
            x,
            c,
            i,
        )
        ||| i >= x[c].len() && reached_at::<T>(m.lines, z, c, i) == reached_at::<T>(
            mid,
            y,
            c,
            i - x[c].len(),
        )
    }) by {
        assert(z[c] == x[c] + y[c]);
        if i >= x[c].len() {
            assert(reached_at::<T>(mid, y, c, i - x[c].len()) == reached_at::<T>(
                m.lines,
                z,
                c,
                i - x[c].len() + x[c].len(),
            ));
        }
    }
    assert forall|c: int, i: int| 0 <= c < n && 0 <= i < x[c].len() implies (
    #[trigger] reached_at::<T>(m.lines, x, c, i)).finite() by {
        assert(z[c] == x[c] + y[c]);
        assert(reached_at::<T>(m.lines, z, c, i).finite());
    }
    assert forall|c: int, i: int| 0 <= c < n && 0 <= i < y[c].len() implies (
    #[trigger] reached_at::<T>(mid, y, c, i)).finite() by {
        assert(z[c] == x[c] + y[c]);
        assert(reached_at::<T>(m.lines, z, c, i + x[c].len()).finite());
    }
    lemma_block_tops::<T>(m.peak, m.lines, x, n);
    lemma_block_tops::<T>(first, mid, y, n);
    lemma_block_tops::<T>(m.peak, m.lines, z, n);
    if one.rank() != m.peak.rank() {
        let (c, i) = choose|c: int, i: int|
            0 <= c < n && 0 <= i < z[c].len() && one.rank() == (#[trigger] reached_at::<T>(
                m.lines,
                z,
                c,
                i,
            )).rank();
        assert(z[c] == x[c] + y[c]);
        if i < x[c].len() {
            assert(reached_at::<T>(m.lines, x, c, i).rank() <= first.rank());
        } else {
            assert(reached_at::<T>(mid, y, c, i - x[c].len()).rank() <= two.rank());
        }
        assert(one.rank() <= two.rank());
    }
    if two.rank() != first.rank() {
        let (c, i) = choose|c: int, i: int|
            0 <= c < n && 0 <= i < y[c].len() && two.rank() == (#[trigger] reached_at::<T>(
                mid,
                y,
                c,
                i,
            )).rank();
        assert(z[c] == x[c] + y[c]);
        assert(reached_at::<T>(m.lines, z, c, i + x[c].len()).rank() <= one.rank());
    } else if first.rank() != m.peak.rank() {
        let (c, i) = choose|c: int, i: int|
            0 <= c < n && 0 <= i < x[c].len() && first.rank() == (#[trigger] reached_at::<T>(
                m.lines,
                x,
                c,
                i,
            )).rank();
        assert(z[c] == x[c] + y[c]);
        assert(reached_at::<T>(m.lines, z, c, i).rank() <= one.rank());
    }
}

impl<T: Sample> TruePeakMeter<T> {
    /// A true-peak meter with 4x oversampling and 12 taps per phase.
    pub fn new() -> (r: Self)
        ensures
            r.os@.len() == 0,
            r.peak == nil::<T::Real>(),
            r.prepared is None,
            <Self as Measurer<T>>::inv(&r),
    {
        Self { os: Vec::new(), peak: T::Real::zero(), prepared: None }
    }

    /// Observe one channel.
    fn observe_channel(&mut self, ch: usize, xs: &[T])
        requires
            ch < old(self).os@.len(),
            <Self as Measurer<T>>::inv(&*old(self)),
        ensures
            <Self as Measurer<T>>::inv(&*final(self)),
            final(self).prepared == old(self).prepared,
            final(self).os@.len() == old(self).os@.len(),
            forall|c: int|
                0 <= c < old(self).os@.len() && c != ch ==> #[trigger] final(self).os@[c] == old(
                    self,
                ).os@[c],
            final(self).os@[ch as int].line() == folded_plane(
                old(self).os@[ch as int].line(),
                xs@,
                line_step::<T>(),
            ),
            final(self).peak == run_peak::<T>(
                old(self).peak,
                old(self).os@[ch as int].line(),
                xs@,
                xs@.len(),
            ),
    {
        let ghost line0 = self.os@[ch as int].line();
        let n: usize = xs.len();
        let mut i: usize = 0;
        while i < n
            invariant
                0 <= i <= n,
                n == xs@.len(),
                ch < self.os@.len(),
                <Self as Measurer<T>>::inv(self),
                self.prepared == old(self).prepared,
                self.os@.len() == old(self).os@.len(),
                line0 == old(self).os@[ch as int].line(),
                forall|c: int|
                    0 <= c < old(self).os@.len() && c != ch ==> #[trigger] self.os@[c] == old(
                        self,
                    ).os@[c],
                self.os@[ch as int].line() == folded(line0, xs@, line_step::<T>(), i as nat),
                self.peak == run_peak::<T>(old(self).peak, line0, xs@, i as nat),
            decreases n - i,
        {
            let v = finite_or_zero(xs[i].to_real());
            assert(self.os@[ch as int].wf());
            let tp = max_of(self.os[ch].peak_abs(v), v.abs());
            self.peak = max_of(self.peak, tp);
            i += 1;
        }
    }
}

impl<T: Sample> Default for TruePeakMeter<T> {
    fn default() -> (r: Self)
        ensures
            r.os@.len() == 0,
            r.peak == nil::<T::Real>(),
            r.prepared is None,
            <Self as Measurer<T>>::inv(&r),
    {
        Self::new()
    }
}

/// A reset undoes observing: whatever was taken in, the meter is back where clearing it
/// before would have left it.
pub proof fn true_peak_reset_restores<T: Sample>(m: TruePeakModel<T::Real>, x: Seq<Seq<T>>)
    ensures
        <TruePeakMeter<T> as Measurer<T>>::cleared(<TruePeakMeter<T> as Measurer<T>>::observed(m, x))
            == <TruePeakMeter<T> as Measurer<T>>::cleared(m),
{
    let seen = <TruePeakMeter<T> as Measurer<T>>::observed(m, x);
    let (a, b) = (
        <TruePeakMeter<T> as Measurer<T>>::cleared(seen).lines,
        <TruePeakMeter<T> as Measurer<T>>::cleared(m).lines,
    );
    assert forall|c: int| 0 <= c < b.len() implies a[c] == b[c] by {
        lemma_line_keeps_its_length::<T>(m.lines[c], x[c], x[c].len());
        assert(a[c] =~= b[c]);
    }
    assert(a =~= b);
}

proof fn lemma_line_keeps_its_length<T: Sample>(line: Seq<T::Real>, xs: Seq<T>, n: nat)
    ensures
        folded(line, xs, line_step::<T>(), n).len() == line.len(),
    decreases n,
{
    if n > 0 {
        lemma_line_keeps_its_length::<T>(line, xs, (n - 1) as nat);
    }
}

impl<T: Sample> Measurer<T> for TruePeakMeter<T> {
    type Reading = T::Real;

    type Model = TruePeakModel<T::Real>;

    open spec fn model(&self) -> TruePeakModel<T::Real> {
        TruePeakModel {
            lines: Seq::new(self.os@.len(), |c: int| self.os@[c].line()),
            peak: self.peak,
        }
    }

    open spec fn observed(m: TruePeakModel<T::Real>, x: Seq<Seq<T>>) -> TruePeakModel<T::Real> {
        TruePeakModel {
            lines: folded_lanes(m.lines, x, line_step::<T>()),
            peak: block_peak::<T>(m.peak, m.lines, x, x.len()),
        }
    }

    open spec fn cleared(m: TruePeakModel<T::Real>) -> TruePeakModel<T::Real> {
        TruePeakModel {
            lines: Seq::new(
                m.lines.len(),
                |c: int| Seq::new(m.lines[c].len(), |i: int| nil::<T::Real>()),
            ),
            peak: nil(),
        }
    }

    open spec fn reading(m: TruePeakModel<T::Real>) -> T::Real {
        m.peak
    }

    open spec fn outcome(&self, spec: ProcessSpec) -> Result<(), DspError> {
        empty_plan().arrays(spec.channels as nat, 60, size_of::<T::Real>()).verdict(
            spec.max_memory,
        )
    }

    open spec fn standing(&self) -> (usize, usize) {
        (6, saturated(self.os@.len() * 60 * size_of::<T::Real>()))
    }

    open spec fn admits(&self, channels: nat, frames: nat) -> bool {
        meter_fits(self.prepared, channels, frames)
    }

    open spec fn inv(&self) -> bool {
        &&& self.prepared matches Some(p) ==> self.os@.len() == p.channels
        &&& forall|c: int|
            0 <= c < self.os@.len() ==> {
                &&& (#[trigger] self.os@[c]).wf()
                &&& self.os@[c].table() == meter_table::<T::Real>()
                &&& self.os@[c].span() == TAPS
            }
    }

    fn prepare(&mut self, spec: ProcessSpec) -> (r: Result<(), DspError>)
        ensures
            r is Ok ==> final(self).os@.len() == spec.channels,
            r is Ok ==> final(self).prepared == Some(meter_contract(spec)),
            r is Ok && spec.max_memory is Some ==> final(self).standing().1
                <= spec.max_memory->0,
            r is Err ==> *final(self) == (TruePeakMeter { prepared: None, ..*old(self) }),
    {
        self.prepared = None;
        match MemoryLayout::new().repeated_array::<T::Real>(
            spec.channels,
            FACTOR * TAPS + TAPS,
        ).preflight(spec.max_memory) {
            Err(e) => {
                return Err(e);
            },
            Ok(_) => {},
        }
        let mut os: Vec<PolyphaseUpsampler<T::Real>> = Vec::with_capacity(spec.channels);
        let mut ch: usize = 0;
        while ch < spec.channels
            invariant
                0 <= ch <= spec.channels,
                os@.len() == ch,
                forall|c: int|
                    0 <= c < ch ==> {
                        &&& (#[trigger] os@[c]).wf()
                        &&& os@[c].table() == meter_table::<T::Real>()
                        &&& os@[c].span() == TAPS
                        &&& os@[c].line() == Seq::new(TAPS as nat, |i: int| nil::<T::Real>())
                    },
            decreases spec.channels - ch,
        {
            os.push(PolyphaseUpsampler::new(FACTOR, TAPS));
            ch += 1;
        }
        self.os = os;
        self.peak = T::Real::zero();
        self.prepared = Some(PreparedMeterContract::new(spec));
        proof {
            let m = self.model();
            let c = <Self as Measurer<T>>::cleared(m);
            assert forall|i: int| 0 <= i < m.lines.len() implies m.lines[i] == c.lines[i] by {
                assert(self.os@[i].line() == Seq::new(TAPS as nat, |j: int| nil::<T::Real>()));
                assert(m.lines[i] =~= c.lines[i]);
            }
            assert(m.lines =~= c.lines);
        }
        proof {
            let (n, size) = (spec.channels as nat, size_of::<T::Real>());
            assert((60 * size) * n == n * 60 * size) by (nonlinear_arith);
            assert(n == 0 ==> n * 60 * size == 0) by (nonlinear_arith);
        }
        Ok(())
    }

    fn reset(&mut self)
        ensures
            final(self).prepared == old(self).prepared,
    {
        let n: usize = self.os.len();
        let mut ch: usize = 0;
        while ch < n
            invariant
                0 <= ch <= n,
                n == self.os@.len(),
                n == old(self).os@.len(),
                self.prepared == old(self).prepared,
                self.inv(),
                old(self).inv(),
                forall|c: int|
                    0 <= c < ch ==> (#[trigger] self.os@[c]).line() == Seq::new(
                        old(self).os@[c].line().len(),
                        |i: int| nil::<T::Real>(),
                    ),
                forall|c: int| ch <= c < n ==> #[trigger] self.os@[c] == old(self).os@[c],
            decreases n - ch,
        {
            assert(self.os@[ch as int] == old(self).os@[ch as int]);
            self.os[ch].reset();
            ch += 1;
        }
        self.peak = T::Real::zero();
        proof {
            let m = self.model();
            let c = <Self as Measurer<T>>::cleared(old(self).model());
            assert forall|i: int| 0 <= i < m.lines.len() implies m.lines[i] == c.lines[i] by {
                assert(self.os@[i].line() == Seq::new(
                    old(self).os@[i].line().len(),
                    |j: int| nil::<T::Real>(),
                ));
                assert(m.lines[i] =~= c.lines[i]);
            }
            assert(m.lines =~= c.lines);
        }
    }

    fn latency(&self) -> (r: usize)
        ensures
            r == 6,
    {
        // The group delay of 48 coefficients at four times the rate, rounded up
        // to a whole input frame.
        let span: usize = FACTOR * TAPS - 1;
        let double: usize = 2 * FACTOR;
        (span + double - 1) / double
    }

    fn memory_footprint(&self) -> (r: usize)
        ensures
            r == saturated(self.os@.len() * 60 * size_of::<T::Real>()),
    {
        proof {
            saturation_is_final(self.os@.len() * 60, size_of::<T::Real>());
        }
        scaled(scaled(self.os.len(), FACTOR * TAPS + TAPS), core::mem::size_of::<T::Real>())
    }

    fn observe(&mut self, block: AudioBlock<'_, '_, T>)
        ensures
            final(self).prepared == old(self).prepared,
    {
        let n: usize = block.channels();
        let ghost x = block.samples();
        let ghost m = self.model();
        let mut ch: usize = 0;
        while ch < n
            invariant
                0 <= ch <= n,
                n == x.len(),
                x == block.samples(),
                n == self.os@.len(),
                n == old(self).os@.len(),
                m == old(self).model(),
                self.inv(),
                self.prepared == old(self).prepared,
                self.peak == block_peak::<T>(m.peak, m.lines, x, ch as nat),
                forall|c: int|
                    0 <= c < ch ==> (#[trigger] self.os@[c]).line() == folded_plane(
                        m.lines[c],
                        x[c],
                        line_step::<T>(),
                    ),
                forall|c: int| ch <= c < n ==> #[trigger] self.os@[c] == old(self).os@[c],
            decreases n - ch,
        {
            assert(self.os@[ch as int] == old(self).os@[ch as int]);
            assert(m.lines[ch as int] == self.os@[ch as int].line());
            self.observe_channel(ch, block.channel(ch));
            ch += 1;
        }
        proof {
            assert(self.model().lines =~= <Self as Measurer<T>>::observed(m, x).lines);
        }
    }

    fn read(&self) -> (r: T::Real) {
        self.peak
    }
}

/// What the meter answers about itself stays as `prepare` left it.
pub proof fn true_peak_answers_stand<T: Sample>()
    ensures
        meter_answers_stand::<T, TruePeakMeter<T>>(),
{
}

} // verus!
