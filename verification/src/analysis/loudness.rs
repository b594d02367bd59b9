//! Loudness in LUFS after ITU-R BS.1770.

use crate::analysis::fold::{
    folded, folded_lanes, folded_plane, joined_blocks, lemma_folded_joins, lemma_folded_prefix,
    lemma_lanes_join, tallied,
};
use crate::analysis::geometry::{meter_contract, meter_fits, PreparedMeterContract};
use crate::analysis::rolling::{
    emptied, full_mean, mean_energy, rolled, RollingEnergy, RollingModel,
};
use crate::contract::block::{frames_of, rectangular, AudioBlock};
use crate::contract::error::DspError;
use crate::contract::spec::ProcessSpec;
use crate::contract::traits::{meter_answers_stand, Measurer};
use crate::dsp::memory::{
    bytes_of, empty_plan, filled, joined, saturated, saturation_is_final, MemoryLayout, Plan,
};
use crate::dsp::sanitize::{finite_or_zero, flush_denormal, flushed, sane};
use crate::filters::biquad::BiquadCoeffs;
use crate::number::{
    at_most, at_most_of, larger, max_of, nil, to_usize, unit, whole_usize, Order, Real, Sample,
};
use vstd::layout::size_of;
use vstd::prelude::*;

verus! {

pub const MOMENTARY_MS: u32 = 400;

pub const SHORT_TERM_MS: u32 = 3_000;

pub const INTEGRATED_BLOCK_MS: u32 = 400;

pub const INTEGRATED_HOP_MS: u32 = 100;

pub const MIN_K_WEIGHTING_SAMPLE_RATE: u32 = 3_364;

/// Default integrated-loudness program duration in seconds: three hours.
pub const DEFAULT_MAX_INTEGRATED_SECONDS: u64 = 10_800;

// ---------------------------------------------------------------------------
// K-weighting
// ---------------------------------------------------------------------------

/// The circle constant.
pub open spec fn pi<R: Real>() -> R {
    R::decimal_of(3141592653589793, -15)
}

/// The high shelf of the K-weighting curve at the rate `fs`.
pub open spec fn shelf_at<R: Real>(fs: R) -> BiquadCoeffs<R> {
    let one = unit::<R>();
    let two = R::decimal_of(2, 0);
    let q = R::decimal_of(7071752369554196, -16);
    let k = pi::<R>().prod(R::decimal_of(1681974450955533, -12)).quot(fs).tangent();
    let kk = k.prod(k);
    let vh = R::decimal_of(10, 0).power(
        R::decimal_of(3999843853973347, -15).quot(R::decimal_of(20, 0)),
    );
    let vb = vh.power(R::decimal_of(4996667741545416, -16));
    let a0 = one.sum(k.quot(q)).sum(kk);
    BiquadCoeffs {
        b0: vh.sum(vb.prod(k).quot(q)).sum(kk).quot(a0),
        b1: two.prod(kk.diff(vh)).quot(a0),
        b2: vh.diff(vb.prod(k).quot(q)).sum(kk).quot(a0),
        a1: two.prod(kk.diff(one)).quot(a0),
        a2: one.diff(k.quot(q)).sum(kk).quot(a0),
    }
}

/// The high-pass of the K-weighting curve at the rate `fs`.
pub open spec fn highpass_at<R: Real>(fs: R) -> BiquadCoeffs<R> {
    let one = unit::<R>();
    let two = R::decimal_of(2, 0);
    let q = R::decimal_of(5003270373238773, -16);
    let k = pi::<R>().prod(R::decimal_of(3813547087602444, -14)).quot(fs).tangent();
    let kk = k.prod(k);
    let a0 = one.sum(k.quot(q)).sum(kk);
    BiquadCoeffs {
        b0: one.quot(a0),
        b1: R::decimal_of(-2, 0).quot(a0),
        b2: one.quot(a0),
        a1: two.prod(kk.diff(one)).quot(a0),
        a2: one.diff(k.quot(q)).sum(kk).quot(a0),
    }
}

/// Coefficients of the high shelf.
pub fn k_shelf_coeffs<R: Real>(sample_rate: R) -> (r: BiquadCoeffs<R>)
    ensures
        r == shelf_at(sample_rate),
{
    let one = R::one();
    let two = R::decimal(2, 0);
    let q = R::decimal(7071752369554196, -16);
    let k = R::decimal(3141592653589793, -15).times(R::decimal(1681974450955533, -12)).over(
        sample_rate,
    ).tan();
    let kk = k.times(k);
    let vh = R::decimal(10, 0).pow(R::decimal(3999843853973347, -15).over(R::decimal(20, 0)));
    let vb = vh.pow(R::decimal(4996667741545416, -16));
    let a0 = one.plus(k.over(q)).plus(kk);
    BiquadCoeffs {
        b0: vh.plus(vb.times(k).over(q)).plus(kk).over(a0),
        b1: two.times(kk.minus(vh)).over(a0),
        b2: vh.minus(vb.times(k).over(q)).plus(kk).over(a0),
        a1: two.times(kk.minus(one)).over(a0),
        a2: one.minus(k.over(q)).plus(kk).over(a0),
    }
}

/// Coefficients of the high-pass, normalized to unity in the passband.
pub fn k_highpass_coeffs<R: Real>(sample_rate: R) -> (r: BiquadCoeffs<R>)
    ensures
        r == highpass_at(sample_rate),
{
    let one = R::one();
    let two = R::decimal(2, 0);
    let q = R::decimal(5003270373238773, -16);
    let k = R::decimal(3141592653589793, -15).times(R::decimal(3813547087602444, -14)).over(
        sample_rate,
    ).tan();
    let kk = k.times(k);
    let a0 = one.plus(k.over(q)).plus(kk);
    BiquadCoeffs {
        b0: one.over(a0),
        b1: R::decimal(-2, 0).over(a0),
        b2: one.over(a0),
        a1: two.times(kk.minus(one)).over(a0),
        a2: one.minus(k.over(q)).plus(kk).over(a0),
    }
}

/// A second-order section in transposed form.
#[derive(Debug)]
pub struct BiquadState<R> {
    pub coeffs: BiquadCoeffs<R>,
    pub z1: R,
    pub z2: R,
}

impl<R: Copy> Copy for BiquadState<R> {

}

impl<R: Copy> Clone for BiquadState<R> {
    fn clone(&self) -> (r: Self)
        ensures
            r == *self,
    {
        *self
    }
}

/// The output of a section before denormals are flushed.
pub open spec fn section_raw<R: Real>(s: BiquadState<R>, x: R) -> R {
    s.coeffs.b0.prod(x).sum(s.z1)
}

/// The output of a section.
pub open spec fn section_out<R: Real>(s: BiquadState<R>, x: R) -> R {
    flushed(section_raw(s, x))
}

/// A section after `x`.
pub open spec fn section_next<R: Real>(s: BiquadState<R>, x: R) -> BiquadState<R> {
    let c = s.coeffs;
    let y = section_raw(s, x);
    BiquadState {
        coeffs: c,
        z1: flushed(c.b1.prod(x).diff(c.a1.prod(y)).sum(s.z2)),
        z2: flushed(c.b2.prod(x).diff(c.a2.prod(y))),
    }
}

impl<R: Real> BiquadState<R> {
    fn new(coeffs: BiquadCoeffs<R>) -> (r: Self)
        ensures
            r == (BiquadState { coeffs, z1: nil::<R>(), z2: nil::<R>() }),
    {
        let zero = R::zero();
        BiquadState { coeffs, z1: zero, z2: zero }
    }

    fn process(&mut self, x: R) -> (r: R)
        ensures
            r == section_out(*old(self), x),
            *final(self) == section_next(*old(self), x),
    {
        let c = self.coeffs;
        let y = c.b0.times(x).plus(self.z1);
        let z1 = c.b1.times(x).minus(c.a1.times(y)).plus(self.z2);
        let z2 = c.b2.times(x).minus(c.a2.times(y));
        self.z1 = flush_denormal(z1);
        self.z2 = flush_denormal(z2);
        flush_denormal(y)
    }
}

/// The K-weighting filter of one channel.
#[derive(Debug)]
pub struct KWeighting<R> {
    pub shelf: BiquadState<R>,
    pub highpass: BiquadState<R>,
}

impl<R: Copy> Copy for KWeighting<R> {

}

impl<R: Copy> Clone for KWeighting<R> {
    fn clone(&self) -> (r: Self)
        ensures
            r == *self,
    {
        *self
    }
}

/// The filter output for `x`.
pub open spec fn weighted_out<R: Real>(k: KWeighting<R>, x: R) -> R {
    section_out(k.highpass, section_out(k.shelf, x))
}

/// The filter after `x`.
pub open spec fn weighted_next<R: Real>(k: KWeighting<R>, x: R) -> KWeighting<R> {
    KWeighting {
        shelf: section_next(k.shelf, x),
        highpass: section_next(k.highpass, section_out(k.shelf, x)),
    }
}

/// The filter with nothing in it.
pub open spec fn weighted_rest<R: Real>(k: KWeighting<R>) -> KWeighting<R> {
    KWeighting {
        shelf: BiquadState { coeffs: k.shelf.coeffs, z1: nil(), z2: nil() },
        highpass: BiquadState { coeffs: k.highpass.coeffs, z1: nil(), z2: nil() },
    }
}

impl<R: Real> KWeighting<R> {
    /// A filter at rest for `sample_rate`.
    pub fn new(sample_rate: R) -> (r: Self)
        ensures
            r.shelf.coeffs == shelf_at(sample_rate),
            r.highpass.coeffs == highpass_at(sample_rate),
            r == weighted_rest(r),
    {
        KWeighting {
            shelf: BiquadState::new(k_shelf_coeffs(sample_rate)),
            highpass: BiquadState::new(k_highpass_coeffs(sample_rate)),
        }
    }

    /// Filter one sample.
    pub fn process(&mut self, x: R) -> (r: R)
        ensures
            r == weighted_out(*old(self), x),
            *final(self) == weighted_next(*old(self), x),
    {
        let mid = self.shelf.process(x);
        self.highpass.process(mid)
    }

    /// Forget every sample.
    pub fn reset(&mut self)
        ensures
            *final(self) == weighted_rest(*old(self)),
    {
        self.shelf = BiquadState::new(self.shelf.coeffs);
        self.highpass = BiquadState::new(self.highpass.coeffs);
    }
}

/// A filter with one sample taken in.
pub open spec fn filter_step<T: Sample>() -> spec_fn(KWeighting<T::Real>, T) -> KWeighting<T::Real> {
    |k: KWeighting<T::Real>, x: T| weighted_next(k, sane(x.value()))
}

// ---------------------------------------------------------------------------
// Loudness of energies
// ---------------------------------------------------------------------------

/// The offset of the loudness scale.
pub open spec fn loudness_offset<R: Real>() -> R {
    R::decimal_of(-691, -3)
}

/// The loudness of a mean energy.
pub open spec fn loudness<R: Real>(energy: R) -> R {
    let e = sane(energy);
    if at_most(e, nil()) {
        R::unbounded().opposite()
    } else {
        loudness_offset::<R>().sum(
            R::decimal_of(10, 0).prod(e.logarithm().quot(R::decimal_of(2302585092994046, -15))),
        )
    }
}

/// The mean energy that has a loudness.
pub open spec fn energy_of<R: Real>(lufs: R) -> R {
    R::decimal_of(10, 0).power(lufs.diff(loudness_offset()).quot(R::decimal_of(10, 0)))
}

/// The loudness of a mean energy.
pub fn energy_to_loudness<R: Real>(energy: R) -> (r: R)
    ensures
        r == loudness(energy),
{
    let e = finite_or_zero(energy);
    if at_most_of(e, R::zero()) {
        R::infinity().neg()
    } else {
        R::decimal(-691, -3).plus(
            R::decimal(10, 0).times(e.ln().over(R::decimal(2302585092994046, -15))),
        )
    }
}

/// The mean energy that has a loudness.
pub fn loudness_to_energy<R: Real>(lufs: R) -> (r: R)
    ensures
        r == energy_of(lufs),
{
    R::decimal(10, 0).pow(lufs.minus(R::decimal(-691, -3)).over(R::decimal(10, 0)))
}

/// The sum of those among the first `n` block energies that exceed `threshold`.
pub open spec fn gated_sum<R: Real>(blocks: Seq<R>, threshold: R, n: nat) -> R
    decreases n,
{
    if n == 0 {
        nil()
    } else {
        let e = larger(sane(blocks[n - 1]), nil());
        let before = gated_sum(blocks, threshold, (n - 1) as nat);
        if threshold.below(e) {
            before.sum(e)
        } else {
            before
        }
    }
}

/// How many of the first `n` block energies exceed `threshold`.
pub open spec fn gated_count<R: Real>(blocks: Seq<R>, threshold: R, n: nat) -> nat
    decreases n,
{
    if n == 0 {
        0
    } else {
        gated_count(blocks, threshold, (n - 1) as nat) + if threshold.below(
            larger(sane(blocks[n - 1]), nil()),
        ) {
            1nat
        } else {
            0nat
        }
    }
}

/// No more blocks pass a gate than there are.
pub proof fn gate_passes_at_most_all<R: Real>(blocks: Seq<R>, threshold: R, n: nat)
    ensures
        gated_count(blocks, threshold, n) <= n,
    decreases n,
{
    if n > 0 {
        gate_passes_at_most_all(blocks, threshold, (n - 1) as nat);
    }
}

/// Sum and count of the block energies above `threshold`.
pub fn gated_energy<R: Real>(blocks: &[R], threshold: R) -> (r: (R, usize))
    ensures
        r.0 == gated_sum(blocks@, threshold, blocks@.len()),
        r.1 == gated_count(blocks@, threshold, blocks@.len()),
{
    let zero = R::zero();
    let mut sum = zero;
    let mut count: usize = 0;
    let mut i: usize = 0;
    while i < blocks.len()
        invariant
            0 <= i <= blocks@.len(),
            zero == nil::<R>(),
            sum == gated_sum(blocks@, threshold, i as nat),
            count == gated_count(blocks@, threshold, i as nat),
            count <= i,
        decreases blocks@.len() - i,
    {
        let energy = max_of(finite_or_zero(blocks[i]), zero);
        if threshold.less(energy) {
            sum = sum.plus(energy);
            count = count + 1;
        }
        i += 1;
    }
    (sum, count)
}

/// The mean of the block energies above `threshold`.
pub open spec fn gated_mean<R: Real>(blocks: Seq<R>, threshold: R) -> R {
    gated_sum(blocks, threshold, blocks.len()).quot(
        R::natural(gated_count(blocks, threshold, blocks.len()) as u64),
    )
}

/// The absolute gate as an energy.
pub open spec fn absolute_gate<R: Real>() -> R {
    energy_of(R::decimal_of(-70, 0))
}

/// The threshold that integrated loudness applies: the larger of the absolute one and
/// 10 LU below the loudness of what passes it.
pub open spec fn final_gate<R: Real>(blocks: Seq<R>) -> R {
    larger(
        absolute_gate(),
        energy_of(loudness(gated_mean(blocks, absolute_gate())).diff(R::decimal_of(10, 0))),
    )
}

/// Integrated loudness of a series of block energies.
pub open spec fn integrated<R: Real>(blocks: Seq<R>) -> R {
    if gated_count(blocks, absolute_gate(), blocks.len()) == 0 || gated_count(
        blocks,
        final_gate(blocks),
        blocks.len(),
    ) == 0 {
        R::unbounded().opposite()
    } else {
        loudness(gated_mean(blocks, final_gate(blocks)))
    }
}

/// Integrated loudness of a series of block energies.
pub fn integrated_loudness<R: Real>(blocks: &[R]) -> (r: R)
    ensures
        r == integrated(blocks@),
{
    let absolute = loudness_to_energy(R::decimal(-70, 0));
    let (absolute_sum, absolute_count) = gated_energy(blocks, absolute);
    if absolute_count == 0 {
        return R::infinity().neg();
    }
    let absolute_loudness = energy_to_loudness(
        absolute_sum.over(R::from_u64(absolute_count as u64)),
    );
    let relative = loudness_to_energy(absolute_loudness.minus(R::decimal(10, 0)));
    let threshold = max_of(absolute, relative);
    let (sum, count) = gated_energy(blocks, threshold);
    if count == 0 {
        R::infinity().neg()
    } else {
        energy_to_loudness(sum.over(R::from_u64(count as u64)))
    }
}

// ---------------------------------------------------------------------------
// Sizes and weights
// ---------------------------------------------------------------------------

/// Frames in `millis` milliseconds, rounded, at least one.
pub open spec fn frames_in(sample_rate: u32, millis: u32) -> u64 {
    let frames = (sample_rate * millis + 500) / 1000;
    if frames < 1 {
        1
    } else {
        frames as u64
    }
}

/// Frames in `millis` milliseconds, rounded, at least one.
pub fn frames_for_ms(sample_rate: u32, millis: u32) -> (r: usize)
    ensures
        r == frames_in(sample_rate, millis) as usize,
{
    assert(sample_rate * millis <= 0xFFFF_FFFF * 0xFFFF_FFFF) by (nonlinear_arith)
        requires
            sample_rate <= 0xFFFF_FFFF,
            millis <= 0xFFFF_FFFF,
    ;
    let frames: u64 = (sample_rate as u64 * millis as u64 + 500) / 1000;
    if frames < 1 {
        1
    } else {
        frames as usize
    }
}

/// `n`, or one where it is zero.
pub open spec fn at_least_one(n: usize) -> usize {
    if n == 0 {
        1
    } else {
        n
    }
}

/// How many integrated blocks a program of this duration holds.
pub open spec fn capacity_of<R: Real>(max_integrated_seconds: R) -> Result<usize, DspError> {
    let seconds = max_integrated_seconds;
    let hops = seconds.prod(R::decimal_of(1000, 0)).quot(R::natural(100)).floored();
    let blocks = larger(hops.diff(R::natural(3)), unit());
    if !seconds.finite() || seconds.below(R::decimal_of(4, -1)) {
        Err(
            DspError::InvalidParam("loudness max integrated seconds must be finite and at least 0.4"),
        )
    } else if at_most(R::natural(usize::MAX as u64), blocks) {
        Err(DspError::InvalidParam("loudness max integrated seconds is too large"))
    } else {
        Ok(whole_usize(larger(blocks, unit())))
    }
}

/// How many integrated blocks a program of this duration holds: one of 400 ms
/// every 100 ms.
pub fn integrated_block_capacity<R: Real>(max_integrated_seconds: R) -> (r: Result<usize, DspError>)
    ensures
        r == capacity_of(max_integrated_seconds),
{
    let seconds = max_integrated_seconds;
    if !seconds.is_finite() || seconds.less(R::decimal(4, -1)) {
        return Err(
            DspError::InvalidParam("loudness max integrated seconds must be finite and at least 0.4"),
        );
    }
    let one = R::one();
    let hops = seconds.times(R::decimal(1000, 0)).over(R::from_u64(100)).floor();
    let blocks = max_of(hops.minus(R::from_u64(3)), one);
    if at_most_of(R::from_u64(usize::MAX as u64), blocks) {
        return Err(DspError::InvalidParam("loudness max integrated seconds is too large"));
    }
    Ok(to_usize(max_of(blocks, one)))
}

/// The weight of a surround channel.
pub open spec fn surround<R: Real>() -> R {
    R::decimal_of(141, -2)
}

/// The default weights for a channel count, where they are unambiguous.
pub open spec fn weights_for<R: Real>(channels: nat) -> Option<Seq<R>> {
    let one = unit::<R>();
    if channels == 1 {
        Some(seq![one])
    } else if channels == 2 {
        Some(seq![one, one])
    } else if channels == 3 {
        Some(seq![one, one, one])
    } else if channels == 4 {
        Some(seq![one, one, surround(), surround()])
    } else if channels == 5 {
        Some(seq![one, one, one, surround(), surround()])
    } else {
        None
    }
}

/// The default weights for a channel count, where they are unambiguous.
pub fn default_channel_weights<R: Real>(channels: usize) -> (r: Option<Vec<R>>)
    ensures
        r is Some <==> weights_for::<R>(channels as nat) is Some,
        r matches Some(v) ==> weights_for::<R>(channels as nat) == Some(v@),
{
    let one = R::one();
    let side = R::decimal(141, -2);
    let r: Option<Vec<R>> = match channels {
        1 => Some(vec![one]),
        2 => Some(vec![one, one]),
        3 => Some(vec![one, one, one]),
        4 => Some(vec![one, one, side, side]),
        5 => Some(vec![one, one, one, side, side]),
        _ => None,
    };
    assert(r matches Some(v) ==> v@ =~= weights_for::<R>(channels as nat)->0);
    r
}

/// Settings for [`LoudnessMeter`].
#[derive(Clone, Debug, PartialEq)]
pub struct LoudnessMeterSettings<R> {
    /// Per-channel contribution weights applied after K-weighting.
    ///
    /// Empty uses the default weights for the prepared channel count where that
    /// is unambiguous. Pass explicit weights for layouts with a low-frequency
    /// channel or a non-standard channel order.
    pub channel_weights: Vec<R>,
    /// Maximum program duration retained for exact integrated loudness.
    ///
    /// Once it is exceeded, [`LoudnessReading::integrated_complete`] is false.
    pub max_integrated_seconds: R,
}

impl<R: Real> Default for LoudnessMeterSettings<R> {
    fn default() -> (r: Self)
        ensures
            r.channel_weights@ == Seq::<R>::empty(),
            r.max_integrated_seconds == R::natural(DEFAULT_MAX_INTEGRATED_SECONDS),
    {
        Self {
            channel_weights: Vec::new(),
            max_integrated_seconds: R::from_u64(DEFAULT_MAX_INTEGRATED_SECONDS),
        }
    }
}

impl<R: Real> LoudnessMeterSettings<R> {
    /// Default loudness meter settings.
    pub fn new() -> (r: Self)
        ensures
            r.channel_weights@ == Seq::<R>::empty(),
            r.max_integrated_seconds == R::natural(DEFAULT_MAX_INTEGRATED_SECONDS),
    {
        Self::default()
    }

    /// Settings with explicit per-channel weights.
    pub fn with_channel_weights(channel_weights: Vec<R>) -> (r: Self)
        ensures
            r.channel_weights == channel_weights,
            r.max_integrated_seconds == R::natural(DEFAULT_MAX_INTEGRATED_SECONDS),
    {
        Self { channel_weights, max_integrated_seconds: Self::default().max_integrated_seconds }
    }

    /// Settings with an explicit integrated-loudness duration.
    pub fn with_max_integrated_seconds(max_integrated_seconds: R) -> (r: Self)
        ensures
            r.channel_weights@ == Seq::<R>::empty(),
            r.max_integrated_seconds == max_integrated_seconds,
    {
        Self { channel_weights: Vec::new(), max_integrated_seconds }
    }

    /// Set explicit per-channel weights.
    pub fn channel_weights(self, channel_weights: Vec<R>) -> (r: Self)
        ensures
            r.channel_weights == channel_weights,
            r.max_integrated_seconds == self.max_integrated_seconds,
    {
        Self { channel_weights, max_integrated_seconds: self.max_integrated_seconds }
    }

    /// Set the integrated-loudness history duration in seconds.
    pub fn max_integrated_seconds(self, max_integrated_seconds: R) -> (r: Self)
        ensures
            r.channel_weights == self.channel_weights,
            r.max_integrated_seconds == max_integrated_seconds,
    {
        Self { channel_weights: self.channel_weights, max_integrated_seconds }
    }

    /// Stereo weighting for left and right channels.
    pub fn stereo() -> (r: Self)
        ensures
            r.channel_weights@ == seq![unit::<R>(), unit::<R>()],
            r.max_integrated_seconds == R::natural(DEFAULT_MAX_INTEGRATED_SECONDS),
    {
        let one = R::one();
        let weights = vec![one, one];
        assert(weights@ =~= seq![unit::<R>(), unit::<R>()]);
        Self::with_channel_weights(weights)
    }

    /// Weighting for left, right, center, left surround, and right surround.
    pub fn five_point_zero() -> (r: Self)
        ensures
            r.channel_weights@ == seq![
                unit::<R>(),
                unit::<R>(),
                unit::<R>(),
                surround::<R>(),
                surround::<R>(),
            ],
            r.max_integrated_seconds == R::natural(DEFAULT_MAX_INTEGRATED_SECONDS),
    {
        let one = R::one();
        let side = R::decimal(141, -2);
        let weights = vec![one, one, one, side, side];
        assert(weights@ =~= seq![
            unit::<R>(),
            unit::<R>(),
            unit::<R>(),
            surround::<R>(),
            surround::<R>(),
        ]);
        Self::with_channel_weights(weights)
    }

    /// Weighting for left, right, center, low-frequency effects, left surround,
    /// and right surround.
    pub fn five_point_one() -> (r: Self)
        ensures
            r.channel_weights@ == seq![
                unit::<R>(),
                unit::<R>(),
                unit::<R>(),
                nil::<R>(),
                surround::<R>(),
                surround::<R>(),
            ],
            r.max_integrated_seconds == R::natural(DEFAULT_MAX_INTEGRATED_SECONDS),
    {
        let one = R::one();
        let side = R::decimal(141, -2);
        let weights = vec![one, one, one, R::zero(), side, side];
        assert(weights@ =~= seq![
            unit::<R>(),
            unit::<R>(),
            unit::<R>(),
            nil::<R>(),
            surround::<R>(),
            surround::<R>(),
        ]);
        Self::with_channel_weights(weights)
    }
}

/// How the configured weights fit a channel count.
pub open spec fn weights_outcome<R: Real>(weights: Seq<R>, channels: usize) -> Result<(), DspError> {
    if weights.len() == 0 {
        if 1 <= channels <= 5 {
            Ok(())
        } else {
            Err(
                DspError::InvalidParam(
                    "loudness requires explicit channel weights for this channel count",
                ),
            )
        }
    } else if weights.len() != channels {
        Err(DspError::InvalidParam("loudness channel weight count must match channel count"))
    } else if exists|i: int|
        0 <= i < weights.len() && (!(#[trigger] weights[i]).finite() || weights[i].below(nil())) {
        Err(DspError::InvalidParam("loudness channel weights must be finite and non-negative"))
    } else {
        Ok(())
    }
}

/// Hold the configured weights against a channel count.
pub fn validate_channel_weights<R: Real>(
    settings: &LoudnessMeterSettings<R>,
    channels: usize,
) -> (r: Result<(), DspError>)
    ensures
        r == weights_outcome(settings.channel_weights@, channels),
{
    let n: usize = settings.channel_weights.len();
    if n == 0 {
        if channels < 1 || channels > 5 {
            return Err(
                DspError::InvalidParam(
                    "loudness requires explicit channel weights for this channel count",
                ),
            );
        }
        return Ok(());
    }
    if n != channels {
        return Err(
            DspError::InvalidParam("loudness channel weight count must match channel count"),
        );
    }
    let zero = R::zero();
    let mut i: usize = 0;
    while i < n
        invariant
            0 <= i <= n,
            n == settings.channel_weights@.len(),
            n == channels,
            n > 0,
            zero == nil::<R>(),
            forall|k: int|
                0 <= k < i ==> (#[trigger] settings.channel_weights@[k]).finite()
                    && !settings.channel_weights@[k].below(nil()),
        decreases n - i,
    {
        let weight = settings.channel_weights[i];
        if !weight.is_finite() || weight.less(zero) {
            assert(!settings.channel_weights@[i as int].finite()
                || settings.channel_weights@[i as int].below(nil()));
            return Err(
                DspError::InvalidParam("loudness channel weights must be finite and non-negative"),
            );
        }
        i += 1;
    }
    Ok(())
}

// ---------------------------------------------------------------------------
// Windows and integration
// ---------------------------------------------------------------------------

/// What a loudness meter keeps of the frame energies.
#[verifier::ext_equal]
pub struct Integration<R> {
    pub momentary: RollingModel<R>,
    pub short_term: RollingModel<R>,
    pub block: RollingModel<R>,
    pub block_frames: usize,
    pub hop_frames: usize,
    pub capacity: usize,
    pub overflowed: bool,
    /// Frames taken in, counted in 64 bits.
    pub total: u64,
    /// Mean energies of the integrated blocks so far.
    pub blocks: Seq<R>,
}

/// An integrated block ends with frame number `total`.
pub open spec fn block_ends<R>(t: Integration<R>, total: u64) -> bool {
    total >= t.block_frames && (total - t.block_frames) % (t.hop_frames as int) == 0
}

/// The integration after one frame energy.
pub open spec fn integrated_next<R: Real>(t: Integration<R>, energy: R) -> Integration<R> {
    let total = tallied(t.total, 1);
    let rolled_on = Integration {
        momentary: rolled(t.momentary, energy),
        short_term: rolled(t.short_term, energy),
        block: rolled(t.block, energy),
        total,
        ..t
    };
    match mean_energy(rolled_on.block) {
        Some(mean) if block_ends(t, total) => if t.blocks.len() < t.capacity {
            Integration { blocks: t.blocks.push(mean), ..rolled_on }
        } else {
            Integration { overflowed: true, ..rolled_on }
        },
        _ => rolled_on,
    }
}

/// The integration after the first `n` frame energies.
pub open spec fn integrated_after<R: Real>(
    t: Integration<R>,
    energies: Seq<R>,
    n: nat,
) -> Integration<R>
    decreases n,
{
    if n == 0 {
        t
    } else {
        integrated_next(integrated_after(t, energies, (n - 1) as nat), energies[n - 1])
    }
}

/// The integration with nothing in it.
pub open spec fn integration_cleared<R: Real>(t: Integration<R>) -> Integration<R> {
    Integration {
        momentary: emptied(t.momentary),
        short_term: emptied(t.short_term),
        block: emptied(t.block),
        overflowed: false,
        total: 0,
        blocks: Seq::empty(),
        ..t
    }
}

/// The block history never grows past its capacity, and it is complete exactly
/// as long as nothing was turned away.
pub proof fn history_stays_in_capacity<R: Real>(t: Integration<R>, energies: Seq<R>, n: nat)
    requires
        t.blocks.len() <= t.capacity,
    ensures
        integrated_after(t, energies, n).blocks.len() <= t.capacity,
        integrated_after(t, energies, n).capacity == t.capacity,
        integrated_after(t, energies, n).overflowed && !t.overflowed ==> integrated_after(
            t,
            energies,
            n,
        ).blocks.len() == t.capacity,
        t.overflowed ==> integrated_after(t, energies, n).overflowed,
    decreases n,
{
    if n > 0 {
        history_stays_in_capacity(t, energies, (n - 1) as nat);
    }
}

/// The energy of frame `f` over the first `n` channels: the weighted squares of
/// the filtered samples. A channel without weight adds nothing.
pub open spec fn energy_at<T: Sample>(
    weights: Seq<T::Real>,
    filters: Seq<KWeighting<T::Real>>,
    x: Seq<Seq<T>>,
    f: int,
    n: nat,
) -> T::Real
    decreases n,
{
    if n == 0 {
        nil()
    } else {
        let before = energy_at::<T>(weights, filters, x, f, (n - 1) as nat);
        let w = weights[n - 1];
        let y = weighted_out(
            folded(filters[n - 1], x[n - 1], filter_step::<T>(), f as nat),
            sane(x[n - 1][f].value()),
        );
        if w.alike(nil()) {
            before
        } else {
            before.sum(w.prod(y).prod(y))
        }
    }
}

/// The energies of the frames of a block.
pub open spec fn block_energies<T: Sample>(
    weights: Seq<T::Real>,
    filters: Seq<KWeighting<T::Real>>,
    x: Seq<Seq<T>>,
) -> Seq<T::Real> {
    Seq::new(frames_of(x), |f: int| energy_at::<T>(weights, filters, x, f, weights.len()))
}

/// Momentary, short-term, and integrated loudness in LUFS.
#[derive(Debug, PartialEq)]
pub struct LoudnessReading<R> {
    /// K-weighted loudness over the most recent 400 ms window.
    pub momentary_lufs: R,
    /// K-weighted loudness over the most recent 3 second window.
    pub short_term_lufs: R,
    /// Integrated loudness with absolute and relative gating.
    pub integrated_lufs: R,
    /// Whether integrated loudness covers every integrated block since reset.
    pub integrated_complete: bool,
}

impl<R: Copy> Copy for LoudnessReading<R> {

}

impl<R: Copy> Clone for LoudnessReading<R> {
    fn clone(&self) -> (r: Self)
        ensures
            r == *self,
    {
        *self
    }
}

/// The reading of silence or of an empty meter.
pub open spec fn silent_reading<R: Real>() -> LoudnessReading<R> {
    let floor = R::unbounded().opposite();
    LoudnessReading {
        momentary_lufs: floor,
        short_term_lufs: floor,
        integrated_lufs: floor,
        integrated_complete: true,
    }
}

impl<R: Real> LoudnessReading<R> {
    /// A reading for silence or for an empty meter.
    pub fn silence() -> (r: Self)
        ensures
            r == silent_reading::<R>(),
    {
        let floor = R::infinity().neg();
        Self {
            momentary_lufs: floor,
            short_term_lufs: floor,
            integrated_lufs: floor,
            integrated_complete: true,
        }
    }
}

// ---------------------------------------------------------------------------
// The meter
// ---------------------------------------------------------------------------

/// Loudness meter.
///
/// It applies K-weighting, reports momentary and short-term loudness, and stores
/// one energy per 100 ms hop for exact absolute and relative gating. Integrated
/// history is bounded, so observing does not allocate. Momentary and short-term
/// readings are negative infinity until their windows are full. Preparing
/// requires a rate of at least 3364 Hz so that the shelf stays below half of it.
#[derive(Clone, Debug)]
pub struct LoudnessMeter<T: Sample> {
    pub settings: LoudnessMeterSettings<T::Real>,
    pub filters: Vec<KWeighting<T::Real>>,
    pub inferred_channel_weights: Vec<T::Real>,
    pub momentary: RollingEnergy<T::Real>,
    pub short_term: RollingEnergy<T::Real>,
    pub integrated_block: RollingEnergy<T::Real>,
    pub integrated_block_frames: usize,
    pub integrated_hop_frames: usize,
    pub integrated_block_capacity: usize,
    pub integrated_overflowed: bool,
    pub total_frames: u64,
    pub integrated_blocks: Vec<T::Real>,
    pub frame_energy: Vec<T::Real>,
    pub prepared: Option<PreparedMeterContract>,
}

/// The state of a loudness meter.
#[verifier::ext_equal]
pub struct LoudnessModel<R> {
    pub weights: Seq<R>,
    pub filters: Seq<KWeighting<R>>,
    pub integration: Integration<R>,
}

/// The state bytes of a loudness meter.
pub open spec fn loudness_plan<R: Real>(
    channels: nat,
    max_block: nat,
    momentary: nat,
    short_term: nat,
    block: nat,
    capacity: nat,
) -> Plan {
    let f = size_of::<R>();
    empty_plan().array(channels, size_of::<KWeighting<R>>()).array(channels, f).array(
        max_block,
        f,
    ).array(momentary, f).array(short_term, f).array(block, f).array(capacity, f)
}

/// The state layout of a loudness meter.
pub fn loudness_memory_layout<R: Real>(
    channels: usize,
    max_block: usize,
    momentary_frames: usize,
    short_term_frames: usize,
    integrated_block_frames: usize,
    integrated_block_capacity: usize,
) -> (r: MemoryLayout)
    ensures
        r.plan() == loudness_plan::<R>(
            channels as nat,
            max_block as nat,
            momentary_frames as nat,
            short_term_frames as nat,
            integrated_block_frames as nat,
            integrated_block_capacity as nat,
        ),
{
    MemoryLayout::new().array::<KWeighting<R>>(channels).array::<R>(channels).array::<R>(
        max_block,
    ).array::<R>(momentary_frames).array::<R>(short_term_frames).array::<R>(
        integrated_block_frames,
    ).array::<R>(integrated_block_capacity)
}

/// How a signal is divided into blocks does not show in the loudness.
pub proof fn loudness_blocks_join<T: Sample>(
    m: LoudnessModel<T::Real>,
    x: Seq<Seq<T>>,
    y: Seq<Seq<T>>,
)
    requires
        m.filters.len() == m.weights.len(),
        x.len() == m.filters.len(),
        y.len() == m.filters.len(),
        rectangular(x, frames_of(x)),
        rectangular(y, frames_of(y)),
    ensures
        <LoudnessMeter<T> as Measurer<T>>::observed(
            <LoudnessMeter<T> as Measurer<T>>::observed(m, x),
            y,
        ) == <LoudnessMeter<T> as Measurer<T>>::observed(m, joined_blocks(x, y)),
{
    let z = joined_blocks(x, y);
    let mid = folded_lanes(m.filters, x, filter_step::<T>());
    lemma_lanes_join(m.filters, x, y, filter_step::<T>());
    let ex = block_energies::<T>(m.weights, m.filters, x);
    let ey = block_energies::<T>(m.weights, mid, y);
    let ez = block_energies::<T>(m.weights, m.filters, z);
    if x.len() > 0 {
        assert(z[0] == x[0] + y[0]);
    }
    assert forall|f: int| 0 <= f < ez.len() implies ez[f] == (ex + ey)[f] by {
        lemma_energy_joins::<T>(m.weights, m.filters, x, y, f, m.weights.len());
    }
    assert(ez =~= ex + ey);
    lemma_integration_joins(m.integration, ex, ey, ey.len());
}

proof fn lemma_energy_joins<T: Sample>(
    weights: Seq<T::Real>,
    filters: Seq<KWeighting<T::Real>>,
    x: Seq<Seq<T>>,
    y: Seq<Seq<T>>,
    f: int,
    n: nat,
)
    requires
        n <= filters.len(),
        x.len() == filters.len(),
        y.len() == filters.len(),
        rectangular(x, frames_of(x)),
        rectangular(y, frames_of(y)),
        0 <= f < frames_of(x) + frames_of(y),
    ensures
        f < frames_of(x) ==> energy_at::<T>(weights, filters, joined_blocks(x, y), f, n)
            == energy_at::<T>(weights, filters, x, f, n),
        f >= frames_of(x) ==> energy_at::<T>(weights, filters, joined_blocks(x, y), f, n)
            == energy_at::<T>(
            weights,
            folded_lanes(filters, x, filter_step::<T>()),
            y,
            f - frames_of(x),
            n,
        ),
    decreases n,
{
    if n > 0 {
        lemma_energy_joins::<T>(weights, filters, x, y, f, (n - 1) as nat);
        let c = n - 1;
        assert(x[c].len() == frames_of(x) && y[c].len() == frames_of(y));
        assert(joined_blocks(x, y)[c] == x[c] + y[c]);
        if f < frames_of(x) {
            lemma_folded_prefix(filters[c], x[c], y[c], filter_step::<T>(), f as nat);
        } else {
            lemma_folded_joins(
                filters[c],
                x[c],
                y[c],
                filter_step::<T>(),
                (f - frames_of(x)) as nat,
            );
        }
    }
}

proof fn lemma_integration_joins<R: Real>(t: Integration<R>, a: Seq<R>, b: Seq<R>, n: nat)
    requires
        n <= b.len(),
    ensures
        integrated_after(t, a + b, a.len() + n) == integrated_after(
            integrated_after(t, a, a.len()),
            b,
            n,
        ),
    decreases n,
{
    if n == 0 {
        lemma_integration_prefix(t, a, b, a.len());
    } else {
        lemma_integration_joins(t, a, b, (n - 1) as nat);
        assert((a + b)[a.len() + n - 1] == b[n - 1]);
    }
}

proof fn lemma_integration_prefix<R: Real>(t: Integration<R>, a: Seq<R>, b: Seq<R>, n: nat)
    requires
        n <= a.len(),
    ensures
        integrated_after(t, a + b, n) == integrated_after(t, a, n),
    decreases n,
{
    if n > 0 {
        lemma_integration_prefix(t, a, b, (n - 1) as nat);
        assert((a + b)[n - 1] == a[n - 1]);
    }
}

impl<T: Sample> LoudnessMeter<T> {
    /// The weights in use.
    pub open spec fn weights(&self) -> Seq<T::Real> {
        if self.settings.channel_weights@.len() == 0 {
            self.inferred_channel_weights@
        } else {
            self.settings.channel_weights@
        }
    }

    /// What is kept of the frame energies.
    pub open spec fn integration(&self) -> Integration<T::Real> {
        Integration {
            momentary: self.momentary.model(),
            short_term: self.short_term.model(),
            block: self.integrated_block.model(),
            block_frames: self.integrated_block_frames,
            hop_frames: self.integrated_hop_frames,
            capacity: self.integrated_block_capacity,
            overflowed: self.integrated_overflowed,
            total: self.total_frames,
            blocks: self.integrated_blocks@,
        }
    }

    /// The bytes of filters, weights, frame energies, windows, and history.
    pub open spec fn held_bytes(&self) -> nat {
        self.filters@.len() * size_of::<KWeighting<T::Real>>() + (self.weights().len()
            + self.frame_energy@.len() + self.momentary.ring@.len() + self.short_term.ring@.len()
            + self.integrated_block.ring@.len() + self.integrated_block_capacity as nat) * size_of::<
            T::Real,
        >()
    }

    /// The windows have places and the hop is not empty.
    pub open spec fn windows_ready(&self) -> bool {
        &&& self.momentary.wf() && self.momentary.ring@.len() > 0
        &&& self.short_term.wf() && self.short_term.ring@.len() > 0
        &&& self.integrated_block.wf() && self.integrated_block.ring@.len() > 0
        &&& self.integrated_hop_frames > 0
    }

    /// A meter that is not yet prepared and holds nothing.
    pub open spec fn idle(&self) -> bool {
        let none = RollingModel {
            ring: Seq::empty(),
            pos: 0,
            len: 0,
            sum: nil(),
            compensation: nil(),
            updates: 0,
        };
        &&& self.prepared is None
        &&& self.filters@.len() == 0
        &&& self.inferred_channel_weights@.len() == 0
        &&& self.frame_energy@.len() == 0
        &&& self.integration() =~= (Integration {
            momentary: none,
            short_term: none,
            block: none,
            block_frames: 1,
            hop_frames: 1,
            capacity: 1,
            overflowed: false,
            total: 0,
            blocks: Seq::empty(),
        })
    }

    /// A loudness meter with inferred channel weights.
    pub fn new() -> (r: Self)
        ensures
            r.settings.channel_weights@.len() == 0,
            r.settings.max_integrated_seconds == T::Real::natural(DEFAULT_MAX_INTEGRATED_SECONDS),
            r.idle(),
            <Self as Measurer<T>>::inv(&r),
    {
        Self::with_settings(LoudnessMeterSettings::default())
    }

    /// A loudness meter with explicit settings.
    pub fn with_settings(settings: LoudnessMeterSettings<T::Real>) -> (r: Self)
        ensures
            r.settings == settings,
            r.idle(),
            <Self as Measurer<T>>::inv(&r),
    {
        Self {
            settings,
            filters: Vec::new(),
            inferred_channel_weights: Vec::new(),
            momentary: RollingEnergy::empty(),
            short_term: RollingEnergy::empty(),
            integrated_block: RollingEnergy::empty(),
            integrated_block_frames: 1,
            integrated_hop_frames: 1,
            integrated_block_capacity: 1,
            integrated_overflowed: false,
            total_frames: 0,
            integrated_blocks: Vec::new(),
            frame_energy: Vec::new(),
            prepared: None,
        }
    }

    /// The weight of channel `ch`.
    fn weight(&self, ch: usize) -> (r: T::Real)
        requires
            ch < self.weights().len(),
        ensures
            r == self.weights()[ch as int],
    {
        if self.settings.channel_weights.len() == 0 {
            self.inferred_channel_weights[ch]
        } else {
            self.settings.channel_weights[ch]
        }
    }

    /// Take in the energy of one frame.
    pub fn push_weighted_energy(&mut self, energy: T::Real)
        requires
            old(self).windows_ready(),
        ensures
            final(self).windows_ready(),
            final(self).integration() == integrated_next(old(self).integration(), energy),
            *final(self) == (LoudnessMeter {
                momentary: final(self).momentary,
                short_term: final(self).short_term,
                integrated_block: final(self).integrated_block,
                integrated_overflowed: final(self).integrated_overflowed,
                total_frames: final(self).total_frames,
                integrated_blocks: final(self).integrated_blocks,
                ..*old(self)
            }),
            final(self).momentary.ring@.len() == old(self).momentary.ring@.len(),
            final(self).short_term.ring@.len() == old(self).short_term.ring@.len(),
            final(self).integrated_block.ring@.len() == old(self).integrated_block.ring@.len(),
    {
        self.momentary.push(energy);
        self.short_term.push(energy);
        self.integrated_block.push(energy);
        self.total_frames = self.total_frames.wrapping_add(1);
        let block: u64 = self.integrated_block_frames as u64;
        let hop: u64 = self.integrated_hop_frames as u64;
        if self.total_frames >= block && (self.total_frames - block) % hop == 0 {
            if let Some(mean) = self.integrated_block.average() {
                if self.integrated_blocks.len() < self.integrated_block_capacity {
                    self.integrated_blocks.push(mean);
                } else {
                    self.integrated_overflowed = true;
                }
            }
        }
    }

    /// Filter one channel and add its weighted squares to the frame energies.
    fn weigh_channel(&mut self, ch: usize, xs: &[T], Ghost(x): Ghost<Seq<Seq<T>>>)
        requires
            ch < old(self).filters@.len(),
            ch < old(self).weights().len(),
            ch < x.len(),
            x[ch as int] == xs@,
            xs@.len() <= old(self).frame_energy@.len(),
        ensures
            *final(self) == (LoudnessMeter {
                filters: final(self).filters,
                frame_energy: final(self).frame_energy,
                ..*old(self)
            }),
            final(self).filters@ == old(self).filters@.update(
                ch as int,
                folded_plane(old(self).filters@[ch as int], xs@, filter_step::<T>()),
            ),
            final(self).frame_energy@.len() == old(self).frame_energy@.len(),
            forall|f: int|
                0 <= f < xs@.len() ==> #[trigger] final(self).frame_energy@[f] == weighed::<T>(
                    old(self).frame_energy@[f],
                    old(self).weights()[ch as int],
                    old(self).filters@[ch as int],
                    xs@,
                    f,
                ),
    {
        let weight = self.weight(ch);
        let mute: bool = weight.equals(T::Real::zero());
        let ghost filter0 = self.filters@[ch as int];
        let n: usize = xs.len();
        let mut f: usize = 0;
        assert(self.filters@ =~= old(self).filters@.update(ch as int, filter0));
        while f < n
            invariant
                0 <= f <= n,
                n == xs@.len(),
                ch < self.filters@.len(),
                ch < old(self).filters@.len(),
                weight == old(self).weights()[ch as int],
                mute == weight.alike(nil()),
                filter0 == old(self).filters@[ch as int],
                *self == (LoudnessMeter {
                    filters: self.filters,
                    frame_energy: self.frame_energy,
                    ..*old(self)
                }),
                self.filters@ == old(self).filters@.update(
                    ch as int,
                    folded(filter0, xs@, filter_step::<T>(), f as nat),
                ),
                n <= self.frame_energy@.len(),
                self.frame_energy@.len() == old(self).frame_energy@.len(),
                forall|k: int|
                    0 <= k < f ==> #[trigger] self.frame_energy@[k] == weighed::<T>(
                        old(self).frame_energy@[k],
                        weight,
                        filter0,
                        xs@,
                        k,
                    ),
                forall|k: int|
                    f <= k < n ==> #[trigger] self.frame_energy@[k] == old(self).frame_energy@[k],
            decreases n - f,
        {
            let v = finite_or_zero(xs[f].to_real());
            let y = self.filters[ch].process(v);
            assert(self.filters@ =~= old(self).filters@.update(
                ch as int,
                folded(filter0, xs@, filter_step::<T>(), (f + 1) as nat),
            ));
            if !mute {
                let e = self.frame_energy[f].plus(weight.times(y).times(y));
                self.frame_energy.set(f, e);
            }
            f += 1;
        }
    }
}

/// A frame energy with one channel added.
pub open spec fn weighed<T: Sample>(
    before: T::Real,
    w: T::Real,
    filter: KWeighting<T::Real>,
    xs: Seq<T>,
    f: int,
) -> T::Real {
    let y = weighted_out(
        folded(filter, xs, filter_step::<T>(), f as nat),
        sane(xs[f].value()),
    );
    if w.alike(nil()) {
        before
    } else {
        before.sum(w.prod(y).prod(y))
    }
}

impl<T: Sample> Default for LoudnessMeter<T> {
    fn default() -> (r: Self)
        ensures
            r.settings.channel_weights@.len() == 0,
            r.settings.max_integrated_seconds == T::Real::natural(DEFAULT_MAX_INTEGRATED_SECONDS),
            r.idle(),
            <Self as Measurer<T>>::inv(&r),
    {
        Self::new()
    }
}

/// A reset undoes observing: whatever was taken in, the meter is back where clearing it
/// before would have left it.
pub proof fn loudness_reset_restores<T: Sample>(m: LoudnessModel<T::Real>, x: Seq<Seq<T>>)
    requires
        windows_in_place(m.integration),
    ensures
        <LoudnessMeter<T> as Measurer<T>>::cleared(<LoudnessMeter<T> as Measurer<T>>::observed(m, x))
            == <LoudnessMeter<T> as Measurer<T>>::cleared(m),
{
    let seen = <LoudnessMeter<T> as Measurer<T>>::observed(m, x);
    let (a, b) = (
        <LoudnessMeter<T> as Measurer<T>>::cleared(seen),
        <LoudnessMeter<T> as Measurer<T>>::cleared(m),
    );
    assert forall|c: int| 0 <= c < b.filters.len() implies a.filters[c] == b.filters[c] by {
        lemma_filter_keeps_its_rest::<T>(m.filters[c], x[c], x[c].len());
    }
    assert(a.filters =~= b.filters);
    lemma_integration_keeps_its_rest(
        m.integration,
        block_energies::<T>(m.weights, m.filters, x),
        frames_of(x),
    );
}

proof fn lemma_filter_keeps_its_rest<T: Sample>(k: KWeighting<T::Real>, xs: Seq<T>, n: nat)
    ensures
        weighted_rest(folded(k, xs, filter_step::<T>(), n)) == weighted_rest(k),
    decreases n,
{
    if n > 0 {
        lemma_filter_keeps_its_rest::<T>(k, xs, (n - 1) as nat);
    }
}

/// The windows of an integration write inside their rings.
pub open spec fn windows_in_place<R: Real>(t: Integration<R>) -> bool {
    &&& 0 <= t.momentary.pos < t.momentary.ring.len()
    &&& 0 <= t.short_term.pos < t.short_term.ring.len()
    &&& 0 <= t.block.pos < t.block.ring.len()
}

proof fn lemma_integration_keeps_its_rest<R: Real>(t: Integration<R>, energies: Seq<R>, n: nat)
    requires
        windows_in_place(t),
    ensures
        windows_in_place(integrated_after(t, energies, n)),
        integration_cleared(integrated_after(t, energies, n)) == integration_cleared(t),
    decreases n,
{
    if n > 0 {
        lemma_integration_keeps_its_rest(t, energies, (n - 1) as nat);
        let before = integrated_after(t, energies, (n - 1) as nat);
        let after = integrated_after(t, energies, n);
        assert(emptied(after.momentary).ring =~= emptied(before.momentary).ring);
        assert(emptied(after.short_term).ring =~= emptied(before.short_term).ring);
        assert(emptied(after.block).ring =~= emptied(before.block).ring);
    }
}

impl<T: Sample> Measurer<T> for LoudnessMeter<T> {
    type Reading = LoudnessReading<T::Real>;

    type Model = LoudnessModel<T::Real>;

    open spec fn model(&self) -> LoudnessModel<T::Real> {
        LoudnessModel {
            weights: self.weights(),
            filters: self.filters@,
            integration: self.integration(),
        }
    }

    open spec fn observed(m: LoudnessModel<T::Real>, x: Seq<Seq<T>>) -> LoudnessModel<T::Real> {
        LoudnessModel {
            weights: m.weights,
            filters: folded_lanes(m.filters, x, filter_step::<T>()),
            integration: integrated_after(
                m.integration,
                block_energies::<T>(m.weights, m.filters, x),
                frames_of(x),
            ),
        }
    }

    open spec fn cleared(m: LoudnessModel<T::Real>) -> LoudnessModel<T::Real> {
        LoudnessModel {
            weights: m.weights,
            filters: Seq::new(m.filters.len(), |c: int| weighted_rest(m.filters[c])),
            integration: integration_cleared(m.integration),
        }
    }

    open spec fn reading(m: LoudnessModel<T::Real>) -> LoudnessReading<T::Real> {
        let floor = T::Real::unbounded().opposite();
        LoudnessReading {
            momentary_lufs: match full_mean(m.integration.momentary) {
                Some(e) => loudness(e),
                None => floor,
            },
            short_term_lufs: match full_mean(m.integration.short_term) {
                Some(e) => loudness(e),
                None => floor,
            },
            integrated_lufs: integrated(m.integration.blocks),
            integrated_complete: !m.integration.overflowed,
        }
    }

    open spec fn outcome(&self, spec: ProcessSpec) -> Result<(), DspError> {
        let rate = spec.sample_rate;
        if rate < MIN_K_WEIGHTING_SAMPLE_RATE {
            Err(DspError::UnsupportedSpec("loudness meter sample rate is too low for K-weighting"))
        } else if spec.channels == 0 {
            Err(DspError::UnsupportedSpec("loudness meter requires at least one channel"))
        } else {
            match weights_outcome(self.settings.channel_weights@, spec.channels) {
                Err(e) => Err(e),
                Ok(_) => match capacity_of(self.settings.max_integrated_seconds) {
                    Err(e) => Err(e),
                    Ok(capacity) => loudness_plan::<T::Real>(
                        spec.channels as nat,
                        spec.max_block as nat,
                        (frames_in(rate, MOMENTARY_MS) as usize) as nat,
                        (frames_in(rate, SHORT_TERM_MS) as usize) as nat,
                        (frames_in(rate, INTEGRATED_BLOCK_MS) as usize) as nat,
                        capacity as nat,
                    ).verdict(spec.max_memory),
                },
            }
        }
    }

    open spec fn standing(&self) -> (usize, usize) {
        (0, saturated(self.held_bytes()))
    }

    open spec fn admits(&self, channels: nat, frames: nat) -> bool {
        meter_fits(self.prepared, channels, frames)
    }

    open spec fn inv(&self) -> bool {
        &&& self.momentary.wf() && self.short_term.wf() && self.integrated_block.wf()
        &&& self.prepared matches Some(p) ==> {
            &&& self.windows_ready()
            &&& self.filters@.len() == p.channels
            &&& self.weights().len() == p.channels
            &&& self.frame_energy@.len() == p.max_block
        }
    }

    fn prepare(&mut self, spec: ProcessSpec) -> (r: Result<(), DspError>)
        ensures
            final(self).settings == old(self).settings,
            r is Err ==> *final(self) == (LoudnessMeter { prepared: None, ..*old(self) }),
            r is Ok && spec.max_memory is Some && frames_in(spec.sample_rate, SHORT_TERM_MS)
                <= usize::MAX ==> final(self).standing().1 <= spec.max_memory->0,
            r is Ok ==> {
                let fs = T::Real::natural(spec.sample_rate as u64);
                &&& final(self).filters@.len() == spec.channels
                &&& forall|c: int|
                    0 <= c < spec.channels ==> (#[trigger] final(self).filters@[c]).shelf.coeffs
                        == shelf_at(fs) && final(self).filters@[c].highpass.coeffs == highpass_at(
                        fs,
                    )
                &&& old(self).settings.channel_weights@.len() == 0 ==> Some(final(self).weights())
                    == weights_for::<T::Real>(spec.channels as nat)
                &&& final(self).momentary.ring@.len() == at_least_one(
                    frames_in(spec.sample_rate, MOMENTARY_MS) as usize,
                )
                &&& final(self).short_term.ring@.len() == at_least_one(
                    frames_in(spec.sample_rate, SHORT_TERM_MS) as usize,
                )
                &&& final(self).integrated_block.ring@.len() == at_least_one(
                    frames_in(spec.sample_rate, INTEGRATED_BLOCK_MS) as usize,
                )
                &&& final(self).prepared == Some(meter_contract(spec))
                &&& frames_in(spec.sample_rate, SHORT_TERM_MS) <= usize::MAX ==> Some(
                    final(self).held_bytes(),
                ) == loudness_plan::<T::Real>(
                    spec.channels as nat,
                    spec.max_block as nat,
                    frames_in(spec.sample_rate, MOMENTARY_MS) as nat,
                    frames_in(spec.sample_rate, SHORT_TERM_MS) as nat,
                    frames_in(spec.sample_rate, INTEGRATED_BLOCK_MS) as nat,
                    final(self).integrated_block_capacity as nat,
                ).bytes()
                &&& final(self).integrated_block_frames == frames_in(
                    spec.sample_rate,
                    INTEGRATED_BLOCK_MS,
                ) as usize
                &&& final(self).integrated_hop_frames == at_least_one(
                    frames_in(spec.sample_rate, INTEGRATED_HOP_MS) as usize,
                )
                &&& Ok::<usize, DspError>(final(self).integrated_block_capacity) == capacity_of(
                    old(self).settings.max_integrated_seconds,
                )
            },
    {
        self.prepared = None;
        if spec.sample_rate < MIN_K_WEIGHTING_SAMPLE_RATE {
            return Err(
                DspError::UnsupportedSpec("loudness meter sample rate is too low for K-weighting"),
            );
        }
        let channels: usize = spec.channels;
        if channels == 0 {
            return Err(DspError::UnsupportedSpec("loudness meter requires at least one channel"));
        }
        match validate_channel_weights(&self.settings, channels) {
            Err(e) => {
                return Err(e);
            },
            Ok(_) => {},
        }
        let momentary_frames: usize = frames_for_ms(spec.sample_rate, MOMENTARY_MS);
        let short_term_frames: usize = frames_for_ms(spec.sample_rate, SHORT_TERM_MS);
        let block_frames: usize = frames_for_ms(spec.sample_rate, INTEGRATED_BLOCK_MS);
        let hop_frames: usize = frames_for_ms(spec.sample_rate, INTEGRATED_HOP_MS);
        let capacity: usize = match integrated_block_capacity(
            self.settings.max_integrated_seconds,
        ) {
            Err(e) => {
                return Err(e);
            },
            Ok(n) => n,
        };
        match loudness_memory_layout::<T::Real>(
            channels,
            spec.max_block,
            momentary_frames,
            short_term_frames,
            block_frames,
            capacity,
        ).preflight(spec.max_memory) {
            Err(e) => {
                return Err(e);
            },
            Ok(_) => {},
        }
        if self.settings.channel_weights.len() == 0 {
            match default_channel_weights(channels) {
                Some(weights) => {
                    self.inferred_channel_weights = weights;
                },
                None => {
                    assert(false);
                },
            }
        } else {
            self.inferred_channel_weights = Vec::new();
        }
        self.integrated_block_frames = block_frames;
        self.integrated_hop_frames = if hop_frames == 0 {
            1
        } else {
            hop_frames
        };
        self.integrated_block_capacity = capacity;
        let fs = T::Real::from_u64(spec.sample_rate as u64);
        self.filters = filled(KWeighting::new(fs), channels);
        self.momentary = RollingEnergy::new(momentary_frames);
        self.short_term = RollingEnergy::new(short_term_frames);
        self.integrated_block = RollingEnergy::new(block_frames);
        self.frame_energy = filled(T::Real::zero(), spec.max_block);
        self.integrated_blocks = Vec::with_capacity(capacity);
        self.integrated_overflowed = false;
        self.total_frames = 0;
        self.prepared = Some(PreparedMeterContract::new(spec));
        proof {
            assert(self.model().filters =~= <Self as Measurer<T>>::cleared(self.model()).filters);
            assert(self.integration() =~= integration_cleared(self.integration()));
            if frames_in(spec.sample_rate, SHORT_TERM_MS) <= usize::MAX {
                assert(frames_in(spec.sample_rate, MOMENTARY_MS) <= frames_in(
                    spec.sample_rate,
                    SHORT_TERM_MS,
                ));
                let f = size_of::<T::Real>();
                let (a, b, c) = (channels as nat, spec.max_block as nat, momentary_frames as nat);
                let (d, e, g) = (short_term_frames as nat, block_frames as nat, capacity as nat);
                assert((a + b + c + d + e + g) * f == a * f + b * f + c * f + d * f + e * f + g * f)
                    by (nonlinear_arith);
            }
        }
        Ok(())
    }

    fn reset(&mut self)
        ensures
            final(self).settings == old(self).settings,
            final(self).prepared == old(self).prepared,
    {
        let n: usize = self.filters.len();
        let mut ch: usize = 0;
        while ch < n
            invariant
                0 <= ch <= n,
                n == self.filters@.len(),
                n == old(self).filters@.len(),
                *self == (LoudnessMeter { filters: self.filters, ..*old(self) }),
                forall|c: int|
                    0 <= c < ch ==> #[trigger] self.filters@[c] == weighted_rest(
                        old(self).filters@[c],
                    ),
                forall|c: int| ch <= c < n ==> #[trigger] self.filters@[c] == old(self).filters@[c],
            decreases n - ch,
        {
            assert(self.filters@[ch as int] == old(self).filters@[ch as int]);
            self.filters[ch].reset();
            ch += 1;
        }
        self.momentary.reset();
        self.short_term.reset();
        self.integrated_block.reset();
        self.integrated_blocks.clear();
        self.integrated_overflowed = false;
        self.total_frames = 0;
        proof {
            let c = <Self as Measurer<T>>::cleared(old(self).model());
            assert(self.model().filters =~= c.filters);
            assert(self.integration() =~= c.integration);
        }
    }

    fn memory_footprint(&self) -> (r: usize)
        ensures
            r == saturated(self.held_bytes()),
    {
        let weights: usize = if self.settings.channel_weights.len() == 0 {
            self.inferred_channel_weights.len()
        } else {
            self.settings.channel_weights.len()
        };
        proof {
            let a = self.weights().len();
            let b = self.frame_energy@.len();
            let c = self.momentary.ring@.len();
            let d = self.short_term.ring@.len();
            let e = self.integrated_block.ring@.len();
            let g = self.integrated_block_capacity as nat;
            saturation_is_final(a + b, c);
            saturation_is_final(a + b + c, d);
            saturation_is_final(a + b + c + d, e);
            saturation_is_final(a + b + c + d + e, g);
            saturation_is_final(a + b + c + d + e + g, size_of::<T::Real>());
            let filters = self.filters@.len() * size_of::<KWeighting<T::Real>>();
            let slots = (a + b + c + d + e + g) * size_of::<T::Real>();
            assert(saturated(saturated(filters) as nat + saturated(slots) as nat) == saturated(
                filters + slots,
            ));
        }
        let slots: usize = joined(
            joined(
                joined(
                    joined(joined(weights, self.frame_energy.len()), self.momentary.ring.len()),
                    self.short_term.ring.len(),
                ),
                self.integrated_block.ring.len(),
            ),
            self.integrated_block_capacity,
        );
        joined(bytes_of::<KWeighting<T::Real>>(self.filters.len()), bytes_of::<T::Real>(slots))
    }

    fn observe(&mut self, block: AudioBlock<'_, '_, T>)
        ensures
            final(self).settings == old(self).settings,
            final(self).prepared == old(self).prepared,
    {
        let frames: usize = block.frames();
        let channels: usize = block.channels();
        let ghost x = block.samples();
        let ghost m = self.model();
        let zero = T::Real::zero();
        let mut f: usize = 0;
        while f < frames
            invariant
                0 <= f <= frames,
                zero == nil::<T::Real>(),
                frames <= self.frame_energy@.len(),
                self.frame_energy@.len() == old(self).frame_energy@.len(),
                *self == (LoudnessMeter { frame_energy: self.frame_energy, ..*old(self) }),
                forall|k: int| 0 <= k < f ==> #[trigger] self.frame_energy@[k] == nil::<T::Real>(),
            decreases frames - f,
        {
            self.frame_energy.set(f, zero);
            f += 1;
        }
        let mut ch: usize = 0;
        while ch < channels
            invariant
                0 <= ch <= channels,
                channels == x.len(),
                x == block.samples(),
                block.wf(),
                frames == block.length(),
                m == old(self).model(),
                channels == old(self).filters@.len(),
                channels == self.filters@.len(),
                channels == m.weights.len(),
                frames <= self.frame_energy@.len(),
                self.frame_energy@.len() == old(self).frame_energy@.len(),
                *self == (LoudnessMeter {
                    filters: self.filters,
                    frame_energy: self.frame_energy,
                    ..*old(self)
                }),
                forall|k: int|
                    0 <= k < frames ==> #[trigger] self.frame_energy@[k] == energy_at::<T>(
                        m.weights,
                        m.filters,
                        x,
                        k,
                        ch as nat,
                    ),
                forall|c: int|
                    0 <= c < ch ==> #[trigger] self.filters@[c] == folded_plane(
                        m.filters[c],
                        x[c],
                        filter_step::<T>(),
                    ),
                forall|c: int| ch <= c < channels ==> #[trigger] self.filters@[c] == m.filters[c],
            decreases channels - ch,
        {
            assert(x[ch as int].len() == frames);
            assert(self.filters@[ch as int] == m.filters[ch as int]);
            let ghost before = self.frame_energy@;
            self.weigh_channel(ch, block.channel(ch), Ghost(x));
            proof {
                assert forall|k: int| 0 <= k < frames implies #[trigger] self.frame_energy@[k]
                    == energy_at::<T>(m.weights, m.filters, x, k, (ch + 1) as nat) by {
                    assert(before[k] == energy_at::<T>(m.weights, m.filters, x, k, ch as nat));
                }
            }
            ch += 1;
        }
        let ghost energies = block_energies::<T>(m.weights, m.filters, x);
        let ghost mid = *self;
        let mut i: usize = 0;
        while i < frames
            invariant
                0 <= i <= frames,
                frames == energies.len(),
                frames <= mid.frame_energy@.len(),
                m == old(self).model(),
                self.windows_ready(),
                self.inv(),
                forall|k: int|
                    0 <= k < frames ==> #[trigger] mid.frame_energy@[k] == energies[k],
                *self == (LoudnessMeter {
                    momentary: self.momentary,
                    short_term: self.short_term,
                    integrated_block: self.integrated_block,
                    integrated_overflowed: self.integrated_overflowed,
                    total_frames: self.total_frames,
                    integrated_blocks: self.integrated_blocks,
                    ..mid
                }),
                self.momentary.ring@.len() == mid.momentary.ring@.len(),
                self.short_term.ring@.len() == mid.short_term.ring@.len(),
                self.integrated_block.ring@.len() == mid.integrated_block.ring@.len(),
                self.integration() == integrated_after(m.integration, energies, i as nat),
            decreases frames - i,
        {
            assert(mid.frame_energy@[i as int] == energies[i as int]);
            let energy = self.frame_energy[i];
            self.push_weighted_energy(energy);
            i += 1;
        }
        proof {
            assert(self.model().filters =~= <Self as Measurer<T>>::observed(m, x).filters);
            assert(self.held_bytes() == old(self).held_bytes());
        }
    }

    fn read(&self) -> (r: LoudnessReading<T::Real>) {
        let floor = T::Real::infinity().neg();
        LoudnessReading {
            momentary_lufs: match self.momentary.full_average() {
                Some(e) => energy_to_loudness(e),
                None => floor,
            },
            short_term_lufs: match self.short_term.full_average() {
                Some(e) => energy_to_loudness(e),
                None => floor,
            },
            integrated_lufs: integrated_loudness(self.integrated_blocks.as_slice()),
            integrated_complete: !self.integrated_overflowed,
        }
    }
}

/// What the meter answers about itself stays as `prepare` left it.
pub proof fn loudness_answers_stand<T: Sample>()
    ensures
        meter_answers_stand::<T, LoudnessMeter<T>>(),
{
}

} // verus!
