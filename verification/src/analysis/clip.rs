//! Clip meter.

use crate::analysis::fold::{fold_planes, folded_planes, tallied};
use crate::analysis::geometry::{meter_contract, meter_fits, PreparedMeterContract};
use crate::contract::block::AudioBlock;
use crate::contract::error::DspError;
use crate::contract::spec::ProcessSpec;
use crate::contract::traits::{meter_answers_stand, Measurer};
use crate::dsp::sanitize::{finite_or_zero, sane};
use crate::number::{at_most, at_most_of, nil, unit, Real, Sample};
use vstd::prelude::*;

verus! {

/// Construction settings for [`ClipMeter`].
#[derive(Debug, PartialEq)]
pub struct ClipMeterSettings<R> {
    /// Clip threshold as a linear amplitude. Values at or above it count as
    /// clipped. `prepare` requires a finite positive value.
    pub threshold: R,
}

impl<R: Copy> Copy for ClipMeterSettings<R> {

}

impl<R: Copy> Clone for ClipMeterSettings<R> {
    fn clone(&self) -> (r: Self)
        ensures
            r == *self,
    {
        *self
    }
}

impl<R: Real> Default for ClipMeterSettings<R> {
    fn default() -> (r: Self)
        ensures
            r.threshold == unit::<R>(),
    {
        Self { threshold: R::one() }
    }
}

impl<R: Real> ClipMeterSettings<R> {
    /// Default clip-meter settings.
    pub fn new() -> (r: Self)
        ensures
            r.threshold == unit::<R>(),
    {
        Self::default()
    }

    /// Set the clip threshold as a linear amplitude.
    pub fn threshold(self, threshold: R) -> (r: Self)
        ensures
            r.threshold == threshold,
    {
        Self { threshold }
    }
}

/// Clip meter. It counts samples whose magnitude reaches `threshold` across all
/// channels since reset.
#[derive(Clone, Debug)]
pub struct ClipMeter<T: Sample> {
    pub threshold: T::Real,
    pub count: u64,
    pub prepared: Option<PreparedMeterContract>,
}

/// The state of a clip meter.
pub struct ClipModel<R> {
    pub threshold: R,
    pub count: u64,
}

/// The sample `x` is clipped.
pub open spec fn clipped_sample<T: Sample>(threshold: T::Real, x: T) -> bool {
    at_most(threshold, sane(x.value()).magnitude())
}

/// A count with one sample taken in.
pub open spec fn clip_step<T: Sample>(threshold: T::Real) -> spec_fn(u64, T) -> u64 {
    |c: u64, x: T|
        if clipped_sample::<T>(threshold, x) {
            tallied(c, 1)
        } else {
            c
        }
}

/// How many of the first `n` samples are clipped.
pub open spec fn clipped_count<T: Sample>(threshold: T::Real, xs: Seq<T>, n: nat) -> nat
    decreases n,
{
    if n == 0 {
        0
    } else {
        clipped_count::<T>(threshold, xs, (n - 1) as nat) + if clipped_sample::<T>(
            threshold,
            xs[n - 1],
        ) {
            1nat
        } else {
            0nat
        }
    }
}

/// How many samples of the first `n` channels are clipped.
pub open spec fn clipped_total<T: Sample>(threshold: T::Real, x: Seq<Seq<T>>, n: nat) -> nat
    decreases n,
{
    if n == 0 {
        0
    } else {
        clipped_total::<T>(threshold, x, (n - 1) as nat) + clipped_count::<T>(
            threshold,
            x[n - 1],
            x[n - 1].len(),
        )
    }
}

/// Counting sample by sample adds the clipped samples of the block.
pub proof fn lemma_clip_counts<T: Sample>(threshold: T::Real, c: u64, x: Seq<Seq<T>>, n: nat)
    ensures
        folded_planes(c, x, clip_step::<T>(threshold), n) == tallied(
            c,
            clipped_total::<T>(threshold, x, n),
        ),
    decreases n,
{
    if n > 0 {
        lemma_clip_counts::<T>(threshold, c, x, (n - 1) as nat);
        let before = clipped_total::<T>(threshold, x, (n - 1) as nat);
        lemma_clip_plane::<T>(threshold, tallied(c, before), x[n - 1], x[n - 1].len());
        crate::analysis::fold::lemma_tallied_joins(
            c,
            before,
            clipped_count::<T>(threshold, x[n - 1], x[n - 1].len()),
        );
    }
}

proof fn lemma_clip_plane<T: Sample>(threshold: T::Real, c: u64, xs: Seq<T>, n: nat)
    ensures
        crate::analysis::fold::folded(c, xs, clip_step::<T>(threshold), n) == tallied(
            c,
            clipped_count::<T>(threshold, xs, n),
        ),
    decreases n,
{
    if n > 0 {
        lemma_clip_plane::<T>(threshold, c, xs, (n - 1) as nat);
        crate::analysis::fold::lemma_tallied_joins(
            c,
            clipped_count::<T>(threshold, xs, (n - 1) as nat),
            1,
        );
    }
}

/// How a signal is divided into blocks does not show in the count.
pub proof fn clip_blocks_join<T: Sample>(
    m: ClipModel<T::Real>,
    x: Seq<Seq<T>>,
    y: Seq<Seq<T>>,
)
    requires
        x.len() == y.len(),
    ensures
        <ClipMeter<T> as Measurer<T>>::observed(
            <ClipMeter<T> as Measurer<T>>::observed(m, x),
            y,
        ) == <ClipMeter<T> as Measurer<T>>::observed(
            m,
            crate::analysis::fold::joined_blocks(x, y),
        ),
{
    let t = m.threshold;
    let n = x.len();
    lemma_clipped_joins::<T>(t, x, y, n);
    crate::analysis::fold::lemma_tallied_joins(
        m.count,
        clipped_total::<T>(t, x, n),
        clipped_total::<T>(t, y, n),
    );
}

proof fn lemma_clipped_joins<T: Sample>(
    threshold: T::Real,
    x: Seq<Seq<T>>,
    y: Seq<Seq<T>>,
    n: nat,
)
    requires
        x.len() == y.len(),
        n <= x.len(),
    ensures
        clipped_total::<T>(threshold, crate::analysis::fold::joined_blocks(x, y), n)
            == clipped_total::<T>(threshold, x, n) + clipped_total::<T>(threshold, y, n),
    decreases n,
{
    if n > 0 {
        lemma_clipped_joins::<T>(threshold, x, y, (n - 1) as nat);
        lemma_clipped_run::<T>(threshold, x[n - 1], y[n - 1], y[n - 1].len());
    }
}

proof fn lemma_clipped_run<T: Sample>(threshold: T::Real, xs: Seq<T>, ys: Seq<T>, n: nat)
    requires
        n <= ys.len(),
    ensures
        clipped_count::<T>(threshold, xs + ys, xs.len() + n) == clipped_count::<T>(
            threshold,
            xs,
            xs.len(),
        ) + clipped_count::<T>(threshold, ys, n),
    decreases n,
{
    if n > 0 {
        lemma_clipped_run::<T>(threshold, xs, ys, (n - 1) as nat);
        assert((xs + ys)[xs.len() + n - 1] == ys[n - 1]);
    } else {
        lemma_clipped_prefix::<T>(threshold, xs, ys, xs.len());
    }
}

proof fn lemma_clipped_prefix<T: Sample>(threshold: T::Real, xs: Seq<T>, ys: Seq<T>, n: nat)
    requires
        n <= xs.len(),
    ensures
        clipped_count::<T>(threshold, xs + ys, n) == clipped_count::<T>(threshold, xs, n),
    decreases n,
{
    if n > 0 {
        lemma_clipped_prefix::<T>(threshold, xs, ys, (n - 1) as nat);
        assert((xs + ys)[n - 1] == xs[n - 1]);
    }
}

impl<T: Sample> ClipMeter<T> {
    /// A clip meter configured from `settings`.
    pub fn with_settings(settings: ClipMeterSettings<T::Real>) -> (r: Self)
        ensures
            r.threshold == settings.threshold,
            r.count == 0,
            r.prepared is None,
    {
        Self { threshold: settings.threshold, count: 0, prepared: None }
    }

    /// A clip meter at full scale.
    pub fn new() -> (r: Self)
        ensures
            r.threshold == unit::<T::Real>(),
            r.count == 0,
            r.prepared is None,
    {
        Self::with_settings(ClipMeterSettings::default())
    }

    /// The number of clipped samples observed since the last reset.
    pub fn clipped(&self) -> (r: u64)
        ensures
            r == self.count,
    {
        self.count
    }
}

impl<T: Sample> Default for ClipMeter<T> {
    fn default() -> (r: Self)
        ensures
            r.threshold == unit::<T::Real>(),
            r.count == 0,
            r.prepared is None,
    {
        Self::new()
    }
}

/// A reset undoes observing: whatever was taken in, the meter is back where clearing it
/// before would have left it.
pub proof fn clip_reset_restores<T: Sample>(m: ClipModel<T::Real>, x: Seq<Seq<T>>)
    ensures
        <ClipMeter<T> as Measurer<T>>::cleared(<ClipMeter<T> as Measurer<T>>::observed(m, x))
            == <ClipMeter<T> as Measurer<T>>::cleared(m),
{
}

impl<T: Sample> Measurer<T> for ClipMeter<T> {
    type Reading = u64;

    type Model = ClipModel<T::Real>;

    open spec fn model(&self) -> ClipModel<T::Real> {
        ClipModel { threshold: self.threshold, count: self.count }
    }

    open spec fn observed(m: ClipModel<T::Real>, x: Seq<Seq<T>>) -> ClipModel<T::Real> {
        ClipModel { count: tallied(m.count, clipped_total::<T>(m.threshold, x, x.len())), ..m }
    }

    open spec fn cleared(m: ClipModel<T::Real>) -> ClipModel<T::Real> {
        ClipModel { count: 0, ..m }
    }

    open spec fn reading(m: ClipModel<T::Real>) -> u64 {
        m.count
    }

    open spec fn outcome(&self, spec: ProcessSpec) -> Result<(), DspError> {
        if !self.threshold.finite() || at_most(self.threshold, nil()) {
            Err(DspError::InvalidParam("clip threshold must be finite and positive"))
        } else {
            Ok(())
        }
    }

    open spec fn standing(&self) -> (usize, usize) {
        (0, 0)
    }

    open spec fn admits(&self, channels: nat, frames: nat) -> bool {
        meter_fits(self.prepared, channels, frames)
    }

    fn prepare(&mut self, spec: ProcessSpec) -> (r: Result<(), DspError>)
        ensures
            final(self).threshold == old(self).threshold,
            r is Ok ==> final(self).prepared == Some(meter_contract(spec)),
            r is Err ==> final(self).prepared is None && final(self).count == old(self).count,
    {
        self.prepared = None;
        if !self.threshold.is_finite() || at_most_of(self.threshold, T::Real::zero()) {
            return Err(DspError::InvalidParam("clip threshold must be finite and positive"));
        }
        self.count = 0;
        self.prepared = Some(PreparedMeterContract::new(spec));
        Ok(())
    }

    fn reset(&mut self)
        ensures
            *final(self) == (ClipMeter { count: 0, ..*old(self) }),
    {
        self.count = 0;
    }

    fn observe(&mut self, block: AudioBlock<'_, '_, T>)
        ensures
            *final(self) == (ClipMeter { count: final(self).count, ..*old(self) }),
    {
        let threshold = self.threshold;
        let f = |c: u64, x: T| -> (r: u64)
            ensures
                r == clip_step::<T>(threshold)(c, x),
            {
                if at_most_of(threshold, finite_or_zero(x.to_real()).abs()) {
                    c.wrapping_add(1)
                } else {
                    c
                }
            };
        proof {
            lemma_clip_counts::<T>(
                threshold,
                self.count,
                block.samples(),
                block.samples().len(),
            );
        }
        self.count = fold_planes(self.count, &block, &f, Ghost(clip_step::<T>(threshold)));
    }

    fn read(&self) -> (r: u64) {
        self.count
    }
}

/// What the meter answers about itself stays as `prepare` left it.
pub proof fn clip_answers_stand<T: Sample>()
    ensures
        meter_answers_stand::<T, ClipMeter<T>>(),
{
}

} // verus!
