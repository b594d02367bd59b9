//! Peak, root-mean-square, and crest meters.

use crate::analysis::fold::{
    fold_lanes, fold_planes, folded, folded_lanes, folded_plane, folded_planes, joined_blocks,
    lemma_lanes_join, lemma_tallied_joins, tallied, tally,
};
use crate::analysis::geometry::{meter_contract, meter_fits, PreparedMeterContract};
use crate::contract::block::{frames_of, AudioBlock};
use crate::contract::error::DspError;
use crate::contract::spec::ProcessSpec;
use crate::contract::traits::{meter_answers_stand, Measurer};
use crate::dsp::level::{amplitude_to_db, decibels};
use crate::dsp::memory::{bytes_of, empty_plan, filled, refill, saturated, MemoryLayout};
use crate::dsp::sanitize::{finite_or_zero, sane};
use crate::dsp::summing::{total, total_of};
use crate::number::{at_most, at_most_of, larger, max_of, nil, Order, Real, Sample};
use vstd::layout::size_of;
use vstd::prelude::*;

verus! {

/// Convert a linear amplitude to dBFS.
///
/// Full scale maps to zero. Silence maps to negative infinity.
pub fn linear_to_dbfs<R: Real>(linear: R) -> (r: R)
    ensures
        r == (if at_most(linear, nil()) {
            R::unbounded().opposite()
        } else {
            decibels(linear)
        }),
{
    if at_most_of(linear, R::zero()) {
        R::infinity().neg()
    } else {
        amplitude_to_db(linear)
    }
}

/// The peak with one sample taken in.
pub open spec fn peak_step<T: Sample>() -> spec_fn(T::Real, T) -> T::Real {
    |peak: T::Real, x: T| larger(peak, sane(x.value()).magnitude())
}

/// A sum of squares with one sample taken in.
pub open spec fn energy_step<T: Sample>() -> spec_fn(T::Real, T) -> T::Real {
    |acc: T::Real, x: T| acc.sum(sane(x.value()).prod(sane(x.value())))
}

/// The root of the mean of `count` squares.
pub open spec fn rms<R: Real>(sums: Seq<R>, count: u64) -> R {
    total(sums, sums.len()).quot(R::natural(count)).root()
}

/// The magnitude of a finite number is finite.
pub open spec fn finite_magnitudes<R: Real>() -> bool {
    forall|a: R| a.finite() ==> (#[trigger] a.magnitude()).finite()
}

// ---------------------------------------------------------------------------
// Division into blocks
// ---------------------------------------------------------------------------

/// `p` is a finite number at least `from` and at least every magnitude among the
/// first `n` samples, and it is one of them.
pub open spec fn tops_run<T: Sample>(p: T::Real, from: T::Real, xs: Seq<T>, n: nat) -> bool {
    &&& p.finite()
    &&& from.rank() <= p.rank()
    &&& forall|i: int|
        0 <= i < n ==> sane((#[trigger] xs[i]).value()).magnitude().rank() <= p.rank()
    &&& p.rank() == from.rank() || exists|i: int|
        0 <= i < n && p.rank() == sane((#[trigger] xs[i]).value()).magnitude().rank()
}

proof fn lemma_peak_tops<T: Sample>(from: T::Real, xs: Seq<T>, n: nat)
    requires
        from.finite(),
        nil::<T::Real>().finite(),
        finite_magnitudes::<T::Real>(),
        n <= xs.len(),
    ensures
        tops_run::<T>(folded(from, xs, peak_step::<T>(), n), from, xs, n),
    decreases n,
{
    if n > 0 {
        lemma_peak_tops::<T>(from, xs, (n - 1) as nat);
        let before = folded(from, xs, peak_step::<T>(), (n - 1) as nat);
        let a = sane(xs[n - 1].value()).magnitude();
        assert(a.finite());
        let after = folded(from, xs, peak_step::<T>(), n);
        assert(after == larger(before, a));
        if after.rank() != from.rank() {
            if before.rank() < a.rank() {
                assert(after.rank() == sane(xs[n - 1].value()).magnitude().rank());
            } else {
                assert(after.rank() == before.rank());
            }
        }
    }
}

/// The rank that the peak over the first `n` channels has.
pub open spec fn top_rank<T: Sample>(from: int, x: Seq<Seq<T>>, n: nat, p: int) -> bool {
    &&& from <= p
    &&& forall|c: int, i: int|
        0 <= c < n && 0 <= i < x[c].len() ==> sane((#[trigger] x[c][i]).value()).magnitude().rank()
            <= p
    &&& p == from || exists|c: int, i: int|
        0 <= c < n && 0 <= i < x[c].len() && p == sane(
            (#[trigger] x[c][i]).value(),
        ).magnitude().rank()
}

proof fn lemma_block_peak_tops<T: Sample>(from: T::Real, x: Seq<Seq<T>>, n: nat)
    requires
        from.finite(),
        nil::<T::Real>().finite(),
        finite_magnitudes::<T::Real>(),
        n <= x.len(),
    ensures
        folded_planes(from, x, peak_step::<T>(), n).finite(),
        top_rank::<T>(from.rank(), x, n, folded_planes(from, x, peak_step::<T>(), n).rank()),
    decreases n,
{
    if n > 0 {
        lemma_block_peak_tops::<T>(from, x, (n - 1) as nat);
        let before = folded_planes(from, x, peak_step::<T>(), (n - 1) as nat);
        let xs = x[n - 1];
        lemma_peak_tops::<T>(before, xs, xs.len());
        let p = folded_plane(before, xs, peak_step::<T>());
        assert forall|c: int, i: int| 0 <= c < n && 0 <= i < x[c].len() implies sane(
            (#[trigger] x[c][i]).value(),
        ).magnitude().rank() <= p.rank() by {
            if c == n - 1 {
                assert(x[c][i] == xs[i]);
            }
        }
        if p.rank() != from.rank() {
            if p.rank() == before.rank() {
                let (c, i) = choose|c: int, i: int|
                    0 <= c < n - 1 && 0 <= i < x[c].len() && before.rank() == sane(
                        (#[trigger] x[c][i]).value(),
                    ).magnitude().rank();
                assert(p.rank() == sane(x[c][i].value()).magnitude().rank());
            } else {
                let i = choose|i: int|
                    0 <= i < xs.len() && p.rank() == sane(
                        (#[trigger] xs[i]).value(),
                    ).magnitude().rank();
                assert(p.rank() == sane(x[n - 1][i].value()).magnitude().rank());
            }
        }
    }
}

/// A peak meter reads the loudest sample: after a block on a cleared meter, no sample of the
/// block has a larger magnitude than the reading, and one of them has that magnitude, or
/// the reading is zero.
pub proof fn peak_is_the_loudest_sample<T: Sample>(m: T::Real, x: Seq<Seq<T>>)
    requires
        nil::<T::Real>().finite(),
        finite_magnitudes::<T::Real>(),
        forall|c: int, i: int|
            0 <= c < x.len() && 0 <= i < x[c].len() ==> (#[trigger] x[c][i]).value().finite(),
    ensures
        ({
            let peak = <PeakMeter<T> as Measurer<T>>::reading(
                <PeakMeter<T> as Measurer<T>>::observed(
                    <PeakMeter<T> as Measurer<T>>::cleared(m),
                    x,
                ),
            );
            &&& peak.finite() && nil::<T::Real>().rank() <= peak.rank()
            &&& forall|c: int, i: int|
                0 <= c < x.len() && 0 <= i < x[c].len() ==> at_most(
                    (#[trigger] x[c][i]).value().magnitude(),
                    peak,
                )
            &&& peak.rank() == nil::<T::Real>().rank() || exists|c: int, i: int|
                0 <= c < x.len() && 0 <= i < x[c].len() && (
                #[trigger] x[c][i]).value().magnitude().rank() == peak.rank()
        }),
{
    lemma_block_peak_tops::<T>(nil(), x, x.len());
    let peak = folded_planes(nil(), x, peak_step::<T>(), x.len());
    assert forall|c: int, i: int| 0 <= c < x.len() && 0 <= i < x[c].len() implies at_most(
        (#[trigger] x[c][i]).value().magnitude(),
        peak,
    ) by {
        assert(x[c][i].value().magnitude().finite());
        assert(sane(x[c][i].value()).magnitude().rank() <= peak.rank());
    }
    if peak.rank() != nil::<T::Real>().rank() {
        let (c, i) = choose|c: int, i: int|
            0 <= c < x.len() && 0 <= i < x[c].len() && peak.rank() == sane(
                (#[trigger] x[c][i]).value(),
            ).magnitude().rank();
        assert(x[c][i].value().magnitude().rank() == peak.rank());
    }
}

/// How a signal is divided into blocks does not show in the peak.
pub proof fn peak_blocks_join<T: Sample>(peak: T::Real, x: Seq<Seq<T>>, y: Seq<Seq<T>>)
    requires
        x.len() == y.len(),
        peak.finite(),
        nil::<T::Real>().finite(),
        finite_magnitudes::<T::Real>(),
    ensures
        ({
            let n = x.len();
            let two = folded_planes(
                folded_planes(peak, x, peak_step::<T>(), n),
                y,
                peak_step::<T>(),
                n,
            );
            two.alike(folded_planes(peak, joined_blocks(x, y), peak_step::<T>(), n))
        }),
{
    let n = x.len();
    let z = joined_blocks(x, y);
    let first = folded_planes(peak, x, peak_step::<T>(), n);
    let two = folded_planes(first, y, peak_step::<T>(), n);
    let one = folded_planes(peak, z, peak_step::<T>(), n);
    lemma_block_peak_tops::<T>(peak, x, n);
    lemma_block_peak_tops::<T>(first, y, n);
    lemma_block_peak_tops::<T>(peak, z, n);
    // Every sample of either block stands in the joined one and the other way
    // round.
    if one.rank() != peak.rank() {
        let (c, i) = choose|c: int, i: int|
            0 <= c < n && 0 <= i < z[c].len() && one.rank() == sane(
                (#[trigger] z[c][i]).value(),
            ).magnitude().rank();
        if i < x[c].len() {
            assert(z[c][i] == x[c][i]);
        } else {
            assert(z[c][i] == y[c][i - x[c].len()]);
        }
        assert(one.rank() <= two.rank());
    }
    if two.rank() != first.rank() {
        let (c, i) = choose|c: int, i: int|
            0 <= c < n && 0 <= i < y[c].len() && two.rank() == sane(
                (#[trigger] y[c][i]).value(),
            ).magnitude().rank();
        assert(z[c][i + x[c].len()] == y[c][i]);
        assert(two.rank() <= one.rank());
    } else if first.rank() != peak.rank() {
        let (c, i) = choose|c: int, i: int|
            0 <= c < n && 0 <= i < x[c].len() && first.rank() == sane(
                (#[trigger] x[c][i]).value(),
            ).magnitude().rank();
        assert(z[c][i] == x[c][i]);
        assert(two.rank() <= one.rank());
    }
}

/// Counting the samples of two blocks is counting those of the joined one.
pub proof fn lemma_sample_count_joins<T>(count: u64, x: Seq<Seq<T>>, y: Seq<Seq<T>>)
    requires
        x.len() == y.len(),
    ensures
        tallied(
            tallied(count, frames_of(x) * x.len()),
            frames_of(y) * y.len(),
        ) == tallied(count, frames_of(joined_blocks(x, y)) * x.len()),
{
    lemma_tallied_joins(count, frames_of(x) * x.len(), frames_of(y) * y.len());
    let a = frames_of(x);
    let b = frames_of(y);
    let n = x.len();
    assert(a * n + b * n == (a + b) * n) by (nonlinear_arith);
    if n > 0 {
        assert(joined_blocks(x, y)[0] == x[0] + y[0]);
    }
}

// ---------------------------------------------------------------------------
// Peak
// ---------------------------------------------------------------------------

/// Sample-peak meter.
///
/// Reports the maximum absolute sample observed since the last reset as a linear
/// amplitude. Convert with [`linear_to_dbfs`].
#[derive(Clone, Debug)]
pub struct PeakMeter<T: Sample> {
    pub peak: T::Real,
    pub prepared: Option<PreparedMeterContract>,
}

impl<T: Sample> PeakMeter<T> {
    /// A peak meter reading silence.
    pub fn new() -> (r: Self)
        ensures
            r.peak == nil::<T::Real>(),
            r.prepared is None,
    {
        Self { peak: T::Real::zero(), prepared: None }
    }
}

impl<T: Sample> Default for PeakMeter<T> {
    fn default() -> (r: Self)
        ensures
            r.peak == nil::<T::Real>(),
            r.prepared is None,
    {
        Self::new()
    }
}

/// A reset undoes observing: whatever was taken in, the meter is back where clearing it
/// before would have left it.
pub proof fn peak_reset_restores<T: Sample>(m: T::Real, x: Seq<Seq<T>>)
    ensures
        <PeakMeter<T> as Measurer<T>>::cleared(<PeakMeter<T> as Measurer<T>>::observed(m, x))
            == <PeakMeter<T> as Measurer<T>>::cleared(m),
{
}

impl<T: Sample> Measurer<T> for PeakMeter<T> {
    type Reading = T::Real;

    type Model = T::Real;

    open spec fn model(&self) -> T::Real {
        self.peak
    }

    open spec fn observed(m: T::Real, x: Seq<Seq<T>>) -> T::Real {
        folded_planes(m, x, peak_step::<T>(), x.len())
    }

    open spec fn cleared(m: T::Real) -> T::Real {
        nil()
    }

    open spec fn reading(m: T::Real) -> T::Real {
        m
    }

    open spec fn outcome(&self, spec: ProcessSpec) -> Result<(), DspError> {
        Ok(())
    }

    open spec fn standing(&self) -> (usize, usize) {
        (0, 0)
    }

    open spec fn admits(&self, channels: nat, frames: nat) -> bool {
        meter_fits(self.prepared, channels, frames)
    }

    fn prepare(&mut self, spec: ProcessSpec) -> (r: Result<(), DspError>)
        ensures
            *final(self) == (PeakMeter {
                peak: nil(),
                prepared: Some(meter_contract(spec)),
                ..*old(self)
            }),
    {
        // A reused meter starts the new stream without a stale peak.
        self.peak = T::Real::zero();
        self.prepared = Some(PreparedMeterContract::new(spec));
        Ok(())
    }

    fn reset(&mut self)
        ensures
            *final(self) == (PeakMeter { peak: nil(), ..*old(self) }),
    {
        self.peak = T::Real::zero();
    }

    fn observe(&mut self, block: AudioBlock<'_, '_, T>)
        ensures
            *final(self) == (PeakMeter { peak: final(self).peak, ..*old(self) }),
    {
        let f = |peak: T::Real, x: T| -> (r: T::Real)
            ensures
                r == peak_step::<T>()(peak, x),
            { max_of(peak, finite_or_zero(x.to_real()).abs()) };
        self.peak = fold_planes(self.peak, &block, &f, Ghost(peak_step::<T>()));
    }

    fn read(&self) -> (r: T::Real) {
        self.peak
    }
}

// ---------------------------------------------------------------------------
// Root mean square
// ---------------------------------------------------------------------------

/// Root-mean-square meter over all samples observed since reset.
#[derive(Clone, Debug)]
pub struct RmsMeter<T: Sample> {
    /// Sum of squares, channel by channel.
    pub sum_sq: Vec<T::Real>,
    /// Samples observed over all channels.
    pub count: u64,
    pub prepared: Option<PreparedMeterContract>,
}

/// The state of a root-mean-square meter.
#[verifier::ext_equal]
pub struct RmsModel<R> {
    pub sums: Seq<R>,
    pub count: u64,
}

impl<T: Sample> RmsMeter<T> {
    /// A meter reading silence.
    pub fn new() -> (r: Self)
        ensures
            r.sum_sq@.len() == 0,
            r.count == 0,
            r.prepared is None,
            <Self as Measurer<T>>::inv(&r),
    {
        Self { sum_sq: Vec::new(), count: 0, prepared: None }
    }
}

impl<T: Sample> Default for RmsMeter<T> {
    fn default() -> (r: Self)
        ensures
            r.sum_sq@.len() == 0,
            r.count == 0,
            r.prepared is None,
            <Self as Measurer<T>>::inv(&r),
    {
        Self::new()
    }
}

/// How a signal is divided into blocks does not show in the mean square.
pub proof fn rms_blocks_join<T: Sample>(m: RmsModel<T::Real>, x: Seq<Seq<T>>, y: Seq<Seq<T>>)
    requires
        x.len() == m.sums.len(),
        y.len() == m.sums.len(),
    ensures
        <RmsMeter<T> as Measurer<T>>::observed(
            <RmsMeter<T> as Measurer<T>>::observed(m, x),
            y,
        ) == <RmsMeter<T> as Measurer<T>>::observed(m, joined_blocks(x, y)),
{
    lemma_lanes_join(m.sums, x, y, energy_step::<T>());
    lemma_sample_count_joins(m.count, x, y);
}

/// A reset undoes observing: whatever was taken in, the meter is back where clearing it
/// before would have left it.
pub proof fn rms_reset_restores<T: Sample>(m: RmsModel<T::Real>, x: Seq<Seq<T>>)
    ensures
        <RmsMeter<T> as Measurer<T>>::cleared(<RmsMeter<T> as Measurer<T>>::observed(m, x))
            == <RmsMeter<T> as Measurer<T>>::cleared(m),
{
    let seen = <RmsMeter<T> as Measurer<T>>::observed(m, x);
    assert(<RmsMeter<T> as Measurer<T>>::cleared(seen).sums =~= <RmsMeter<T> as Measurer<T>>::cleared(m).sums);
}

impl<T: Sample> Measurer<T> for RmsMeter<T> {
    type Reading = T::Real;

    type Model = RmsModel<T::Real>;

    open spec fn model(&self) -> RmsModel<T::Real> {
        RmsModel { sums: self.sum_sq@, count: self.count }
    }

    open spec fn observed(m: RmsModel<T::Real>, x: Seq<Seq<T>>) -> RmsModel<T::Real> {
        RmsModel {
            sums: folded_lanes(m.sums, x, energy_step::<T>()),
            count: tallied(m.count, frames_of(x) * x.len()),
        }
    }

    open spec fn cleared(m: RmsModel<T::Real>) -> RmsModel<T::Real> {
        RmsModel { sums: Seq::new(m.sums.len(), |c: int| nil::<T::Real>()), count: 0 }
    }

    open spec fn reading(m: RmsModel<T::Real>) -> T::Real {
        if m.count == 0 {
            nil()
        } else {
            rms(m.sums, m.count)
        }
    }

    open spec fn outcome(&self, spec: ProcessSpec) -> Result<(), DspError> {
        empty_plan().array(spec.channels as nat, size_of::<T::Real>()).verdict(spec.max_memory)
    }

    open spec fn standing(&self) -> (usize, usize) {
        (0, saturated(self.sum_sq@.len() * size_of::<T::Real>()))
    }

    open spec fn admits(&self, channels: nat, frames: nat) -> bool {
        meter_fits(self.prepared, channels, frames)
    }

    open spec fn inv(&self) -> bool {
        self.prepared matches Some(p) ==> self.sum_sq@.len() == p.channels
    }

    fn prepare(&mut self, spec: ProcessSpec) -> (r: Result<(), DspError>)
        ensures
            r is Ok ==> final(self).sum_sq@.len() == spec.channels,
            r is Ok ==> final(self).prepared == Some(meter_contract(spec)),
            r is Ok && spec.max_memory is Some ==> final(self).standing().1
                <= spec.max_memory->0,
            r is Err ==> *final(self) == (RmsMeter { prepared: None, ..*old(self) }),
    {
        self.prepared = None;
        match MemoryLayout::new().array::<T::Real>(spec.channels).preflight(spec.max_memory) {
            Err(e) => {
                return Err(e);
            },
            Ok(_) => {},
        }
        self.sum_sq = filled(T::Real::zero(), spec.channels);
        self.count = 0;
        self.prepared = Some(PreparedMeterContract::new(spec));
        assert(self.model() =~= <Self as Measurer<T>>::cleared(self.model()));
        Ok(())
    }

    fn reset(&mut self)
        ensures
            final(self).prepared == old(self).prepared,
    {
        refill(&mut self.sum_sq, T::Real::zero());
        self.count = 0;
        assert(self.model() =~= <Self as Measurer<T>>::cleared(old(self).model()));
    }

    fn memory_footprint(&self) -> (r: usize)
        ensures
            r == saturated(self.sum_sq@.len() * size_of::<T::Real>()),
    {
        bytes_of::<T::Real>(self.sum_sq.len())
    }

    fn observe(&mut self, block: AudioBlock<'_, '_, T>)
        ensures
            final(self).prepared == old(self).prepared,
    {
        let f = |acc: T::Real, x: T| -> (r: T::Real)
            ensures
                r == energy_step::<T>()(acc, x),
            {
                let v = finite_or_zero(x.to_real());
                acc.plus(v.times(v))
            };
        fold_lanes(&mut self.sum_sq, &block, &f, Ghost(energy_step::<T>()));
        self.count = tally(self.count, block.frames(), block.channels());
    }

    fn read(&self) -> (r: T::Real) {
        if self.count == 0 {
            return T::Real::zero();
        }
        total_of(self.sum_sq.as_slice()).over(T::Real::from_u64(self.count)).sqrt()
    }
}

// ---------------------------------------------------------------------------
// Crest factor
// ---------------------------------------------------------------------------

/// Crest-factor meter. The reading is peak over root mean square as a linear
/// ratio.
#[derive(Clone, Debug)]
pub struct CrestMeter<T: Sample> {
    pub peak: T::Real,
    /// Sum of squares, channel by channel.
    pub sum_sq: Vec<T::Real>,
    /// Samples observed over all channels.
    pub count: u64,
    pub prepared: Option<PreparedMeterContract>,
}

/// The state of a crest meter.
#[verifier::ext_equal]
pub struct CrestModel<R> {
    pub peak: R,
    pub sums: Seq<R>,
    pub count: u64,
}

impl<T: Sample> CrestMeter<T> {
    /// A meter reading silence.
    pub fn new() -> (r: Self)
        ensures
            r.peak == nil::<T::Real>(),
            r.sum_sq@.len() == 0,
            r.count == 0,
            r.prepared is None,
            <Self as Measurer<T>>::inv(&r),
    {
        Self { peak: T::Real::zero(), sum_sq: Vec::new(), count: 0, prepared: None }
    }
}

impl<T: Sample> Default for CrestMeter<T> {
    fn default() -> (r: Self)
        ensures
            r.peak == nil::<T::Real>(),
            r.sum_sq@.len() == 0,
            r.count == 0,
            r.prepared is None,
            <Self as Measurer<T>>::inv(&r),
    {
        Self::new()
    }
}

/// How a signal is divided into blocks does not show in what a crest meter
/// accumulates.
pub proof fn crest_blocks_join<T: Sample>(
    m: CrestModel<T::Real>,
    x: Seq<Seq<T>>,
    y: Seq<Seq<T>>,
)
    requires
        x.len() == m.sums.len(),
        y.len() == m.sums.len(),
        m.peak.finite(),
        nil::<T::Real>().finite(),
        finite_magnitudes::<T::Real>(),
    ensures
        ({
            let two = <CrestMeter<T> as Measurer<T>>::observed(
                <CrestMeter<T> as Measurer<T>>::observed(m, x),
                y,
            );
            let one = <CrestMeter<T> as Measurer<T>>::observed(m, joined_blocks(x, y));
            two.sums == one.sums && two.count == one.count && two.peak.alike(one.peak)
        }),
{
    lemma_lanes_join(m.sums, x, y, energy_step::<T>());
    lemma_sample_count_joins(m.count, x, y);
    peak_blocks_join::<T>(m.peak, x, y);
}

/// A reset undoes observing: whatever was taken in, the meter is back where clearing it
/// before would have left it.
pub proof fn crest_reset_restores<T: Sample>(m: CrestModel<T::Real>, x: Seq<Seq<T>>)
    ensures
        <CrestMeter<T> as Measurer<T>>::cleared(<CrestMeter<T> as Measurer<T>>::observed(m, x))
            == <CrestMeter<T> as Measurer<T>>::cleared(m),
{
    let seen = <CrestMeter<T> as Measurer<T>>::observed(m, x);
    assert(<CrestMeter<T> as Measurer<T>>::cleared(seen).sums =~= <CrestMeter<T> as Measurer<T>>::cleared(m).sums);
}

impl<T: Sample> Measurer<T> for CrestMeter<T> {
    type Reading = T::Real;

    type Model = CrestModel<T::Real>;

    open spec fn model(&self) -> CrestModel<T::Real> {
        CrestModel { peak: self.peak, sums: self.sum_sq@, count: self.count }
    }

    open spec fn observed(m: CrestModel<T::Real>, x: Seq<Seq<T>>) -> CrestModel<T::Real> {
        CrestModel {
            peak: folded_planes(m.peak, x, peak_step::<T>(), x.len()),
            sums: folded_lanes(m.sums, x, energy_step::<T>()),
            count: tallied(m.count, frames_of(x) * x.len()),
        }
    }

    open spec fn cleared(m: CrestModel<T::Real>) -> CrestModel<T::Real> {
        CrestModel {
            peak: nil(),
            sums: Seq::new(m.sums.len(), |c: int| nil::<T::Real>()),
            count: 0,
        }
    }

    open spec fn reading(m: CrestModel<T::Real>) -> T::Real {
        if m.count == 0 || at_most(rms(m.sums, m.count), nil()) {
            nil()
        } else {
            m.peak.quot(rms(m.sums, m.count))
        }
    }

    open spec fn outcome(&self, spec: ProcessSpec) -> Result<(), DspError> {
        empty_plan().array(spec.channels as nat, size_of::<T::Real>()).verdict(spec.max_memory)
    }

    open spec fn standing(&self) -> (usize, usize) {
        (0, saturated(self.sum_sq@.len() * size_of::<T::Real>()))
    }

    open spec fn admits(&self, channels: nat, frames: nat) -> bool {
        meter_fits(self.prepared, channels, frames)
    }

    open spec fn inv(&self) -> bool {
        self.prepared matches Some(p) ==> self.sum_sq@.len() == p.channels
    }

    fn prepare(&mut self, spec: ProcessSpec) -> (r: Result<(), DspError>)
        ensures
            r is Ok ==> final(self).sum_sq@.len() == spec.channels,
            r is Ok ==> final(self).prepared == Some(meter_contract(spec)),
            r is Ok && spec.max_memory is Some ==> final(self).standing().1
                <= spec.max_memory->0,
            r is Err ==> *final(self) == (CrestMeter { prepared: None, ..*old(self) }),
    {
        self.prepared = None;
        match MemoryLayout::new().array::<T::Real>(spec.channels).preflight(spec.max_memory) {
            Err(e) => {
                return Err(e);
            },
            Ok(_) => {},
        }
        self.peak = T::Real::zero();
        self.sum_sq = filled(T::Real::zero(), spec.channels);
        self.count = 0;
        self.prepared = Some(PreparedMeterContract::new(spec));
        assert(self.model() =~= <Self as Measurer<T>>::cleared(self.model()));
        Ok(())
    }

    fn reset(&mut self)
        ensures
            final(self).prepared == old(self).prepared,
    {
        self.peak = T::Real::zero();
        refill(&mut self.sum_sq, T::Real::zero());
        self.count = 0;
        assert(self.model() =~= <Self as Measurer<T>>::cleared(old(self).model()));
    }

    fn memory_footprint(&self) -> (r: usize)
        ensures
            r == saturated(self.sum_sq@.len() * size_of::<T::Real>()),
    {
        bytes_of::<T::Real>(self.sum_sq.len())
    }

    fn observe(&mut self, block: AudioBlock<'_, '_, T>)
        ensures
            final(self).prepared == old(self).prepared,
    {
        let energy = |acc: T::Real, x: T| -> (r: T::Real)
            ensures
                r == energy_step::<T>()(acc, x),
            {
                let v = finite_or_zero(x.to_real());
                acc.plus(v.times(v))
            };
        let level = |peak: T::Real, x: T| -> (r: T::Real)
            ensures
                r == peak_step::<T>()(peak, x),
            { max_of(peak, finite_or_zero(x.to_real()).abs()) };
        fold_lanes(&mut self.sum_sq, &block, &energy, Ghost(energy_step::<T>()));
        self.peak = fold_planes(self.peak, &block, &level, Ghost(peak_step::<T>()));
        self.count = tally(self.count, block.frames(), block.channels());
    }

    fn read(&self) -> (r: T::Real) {
        if self.count == 0 {
            return T::Real::zero();
        }
        let zero = T::Real::zero();
        let rms = total_of(self.sum_sq.as_slice()).over(T::Real::from_u64(self.count)).sqrt();
        if at_most_of(rms, zero) {
            zero
        } else {
            self.peak.over(rms)
        }
    }
}

/// What the meter answers about itself stays as `prepare` left it.
pub proof fn peak_answers_stand<T: Sample>()
    ensures
        meter_answers_stand::<T, PeakMeter<T>>(),
{
}

/// What the meter answers about itself stays as `prepare` left it.
pub proof fn rms_answers_stand<T: Sample>()
    ensures
        meter_answers_stand::<T, RmsMeter<T>>(),
{
}

/// What the meter answers about itself stays as `prepare` left it.
pub proof fn crest_answers_stand<T: Sample>()
    ensures
        meter_answers_stand::<T, CrestMeter<T>>(),
{
}

} // verus!
