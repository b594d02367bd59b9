//! Streaming brick-wall band filter in the frequency domain.
//!
//! [`SpectralFilter`] buffers input to its hop, analyzes each frame, zeros bins
//! outside a frequency band, synthesizes the frame, overlap-adds, and emits
//! output as a host-driven [`Processor`].
//!
//! Latency and tail length are one window. `flush` drains the tail.

use crate::contract::block::{AudioBlock, AudioBlockMut, Io, IoMode};
use crate::contract::context::{
    counted_calls_stay_within, delivered, eager_calls_finish, ProcessContext, Produced, Tail,
};
use crate::contract::error::DspError;
use crate::contract::spec::ProcessSpec;
use crate::contract::traits::{
    agree_from, processor_answers_stand, BlockView, Geometry, Processor, Standing,
};
use crate::dsp::delay::place_of;
use crate::dsp::driver::PreparedContract;
use crate::dsp::memory::{
    bytes_of, empty_plan, filled, joined, saturated, saturation_is_final, scaled, MemoryLayout,
    Plan,
};
use crate::dsp::sanitize::{finite_or_zero, sane};
use crate::number::{
    at_most, at_most_of, larger, max_of, nil, to_usize, unit, whole_usize, Order, Real, Sample,
};
use crate::spectral::band::{
    fired, head, lane_after, lane_next, lane_rest, lemma_read_one, popped, taken, BandDesign,
    BandLane, BandPlan, BandState, BandWork,
};
use crate::spectral::fft::{bins_of, Complex, Fft, Transform};
use crate::spectral::stft::{multiply, products};
use crate::spectral::window::{cola_sum, overlap_gain, window_of, Window};
use vstd::layout::size_of;
use vstd::prelude::*;

verus! {

// ---------------------------------------------------------------------------
// Settings
// ---------------------------------------------------------------------------

/// Construction settings for [`SpectralFilter`].
#[derive(Debug, PartialEq)]
pub struct SpectralFilterSettings<R> {
    /// Window size in samples.
    pub size: usize,
    /// Hop between analysis frames in samples.
    pub hop: usize,
    /// Analysis and synthesis window.
    pub window: Window,
    /// Lowest retained bin-center frequency in Hz.
    pub low_hz: R,
    /// Highest retained bin-center frequency in Hz.
    pub high_hz: R,
}

impl<R: Copy> Copy for SpectralFilterSettings<R> {

}

impl<R: Copy> Clone for SpectralFilterSettings<R> {
    fn clone(&self) -> (r: Self)
        ensures
            r == *self,
    {
        *self
    }
}

/// The full band with a Hann window of 1024 samples and a hop of 512.
pub open spec fn default_spectral<R: Real>() -> SpectralFilterSettings<R> {
    SpectralFilterSettings {
        size: 1024,
        hop: 512,
        window: Window::Hann,
        low_hz: nil(),
        high_hz: R::unbounded(),
    }
}

impl<R: Real> Default for SpectralFilterSettings<R> {
    fn default() -> (r: Self)
        ensures
            r == default_spectral::<R>(),
    {
        Self {
            size: 1024,
            hop: 512,
            window: Window::Hann,
            low_hz: R::zero(),
            high_hz: R::infinity(),
        }
    }
}

impl<R: Real> SpectralFilterSettings<R> {
    /// Default full-band settings.
    pub fn new() -> (r: Self)
        ensures
            r == default_spectral::<R>(),
    {
        Self::default()
    }

    /// Set the window size in samples.
    pub fn size(self, size: usize) -> (r: Self)
        ensures
            r == (SpectralFilterSettings { size, ..self }),
    {
        Self { size, ..self }
    }

    /// Set the analysis hop in samples.
    pub fn hop(self, hop: usize) -> (r: Self)
        ensures
            r == (SpectralFilterSettings { hop, ..self }),
    {
        Self { hop, ..self }
    }

    /// Set the analysis and synthesis window.
    pub fn window(self, window: Window) -> (r: Self)
        ensures
            r == (SpectralFilterSettings { window, ..self }),
    {
        Self { window, ..self }
    }

    /// Set the lowest retained bin-center frequency in Hz.
    pub fn low_hz(self, low_hz: R) -> (r: Self)
        ensures
            r == (SpectralFilterSettings { low_hz, ..self }),
    {
        Self { low_hz, ..self }
    }

    /// Set the highest retained bin-center frequency in Hz.
    pub fn high_hz(self, high_hz: R) -> (r: Self)
        ensures
            r == (SpectralFilterSettings { high_hz, ..self }),
    {
        Self { high_hz, ..self }
    }

    /// Retain bin-center frequencies in `[low_hz, high_hz]`.
    pub fn band(self, low_hz: R, high_hz: R) -> (r: Self)
        ensures
            r == (SpectralFilterSettings { low_hz, high_hz, ..self }),
    {
        Self { low_hz, high_hz, ..self }
    }

    /// The first setting that cannot be met at any rate and under any cap.
    pub open spec fn fault(self) -> Option<DspError> {
        if self.size < 2 {
            Some(DspError::InvalidParam("STFT size must be at least 2"))
        } else if self.hop == 0 || self.hop > self.size {
            Some(DspError::InvalidParam("spectral hop must be in 1..=size"))
        } else if !self.low_hz.finite() || self.low_hz.below(nil()) {
            Some(DspError::InvalidParam("low_hz must be finite and non-negative"))
        } else if !self.high_hz.finite() && !self.high_hz.alike(R::unbounded()) {
            Some(DspError::InvalidParam("high_hz must be finite or positive infinity"))
        } else if at_most(self.high_hz, self.low_hz) {
            Some(DspError::InvalidParam("high_hz must exceed low_hz"))
        } else if self.size + self.hop > usize::MAX {
            Some(DspError::InvalidParam("spectral size and hop exceed addressable memory"))
        } else {
            None
        }
    }

    /// The window overlap over one hop.
    pub open spec fn overlap(self) -> Seq<R> {
        let w = window_of::<R>(self.window, self.size as nat);
        overlap_gain(products(w, w), self.hop as nat)
    }

    /// Every phase of the output can be reconstructed.
    pub open spec fn reconstructs(self) -> bool {
        forall|k: int| 0 <= k < self.hop ==> usable_gain(#[trigger] self.overlap()[k])
    }

    /// The constants of a filter at `rate`.
    pub open spec fn plan(self, rate: u32) -> BandPlan<R> {
        let w = window_of::<R>(self.window, self.size as nat);
        let hz_per_bin = R::natural(rate as u64).quot(R::natural(self.size as u64));
        let top = whole_usize(self.high_hz.quot(hz_per_bin).floored());
        let last = bins_of(self.size as nat) - 1;
        BandPlan {
            hop: self.hop as nat,
            analysis: w,
            synthesis: w,
            inverse: Seq::new(self.hop as nat, |k: int| unit::<R>().quot(self.overlap()[k])),
            lo: whole_usize(larger(self.low_hz.quot(hz_per_bin).ceiling(), nil())) as int,
            hi: if top < last {
                top as int
            } else {
                last
            },
        }
    }

    /// The state of a filter for `channels` channels, but for what the
    /// transform needs.
    pub open spec fn state_layout(self, channels: nat) -> Plan {
        let n = self.size as nat;
        let h = self.hop as nat;
        let width = size_of::<R>();
        empty_plan().array(n, width).array(bins_of(n), size_of::<Complex<R>>()).array(
            h,
            width,
        ).array(n, width).array(n, width).arrays(channels, n, width).arrays(channels, n, width).arrays(
            channels,
            n + h,
            width,
        )
    }

    /// The state of a filter for `channels` channels.
    pub open spec fn layout<B: Transform<R>>(self, channels: nat) -> Plan {
        let scratch = B::scratch(self.size as nat);
        self.state_layout(channels).array(scratch.0 as nat, size_of::<Complex<R>>()).array(
            scratch.1 as nat,
            size_of::<Complex<R>>(),
        )
    }

    /// How preparing for `spec` is answered.
    pub open spec fn outcome<B: Transform<R>>(self, spec: ProcessSpec) -> Result<(), DspError> {
        if spec.sample_rate == 0 {
            Err(DspError::UnsupportedSpec("sample rate must be non-zero"))
        } else if self.fault() is Some {
            Err(self.fault()->0)
        } else if self.state_layout(spec.channels as nat).verdict(spec.max_memory) is Err {
            self.state_layout(spec.channels as nat).verdict(spec.max_memory)
        } else if !self.reconstructs() {
            Err(DspError::InvalidParam("window and hop leave an unreconstructable output phase"))
        } else {
            self.layout::<B>(spec.channels as nat).verdict(spec.max_memory)
        }
    }

    fn check(&self) -> (r: Result<(), DspError>)
        ensures
            r == (match self.fault() {
                Some(e) => Err::<(), DspError>(e),
                None => Ok(()),
            }),
    {
        if self.size < 2 {
            return Err(DspError::InvalidParam("STFT size must be at least 2"));
        }
        if self.hop == 0 || self.hop > self.size {
            return Err(DspError::InvalidParam("spectral hop must be in 1..=size"));
        }
        if !self.low_hz.is_finite() || self.low_hz.less(R::zero()) {
            return Err(DspError::InvalidParam("low_hz must be finite and non-negative"));
        }
        // Positive infinity is the unbounded edge of a high-pass. Every other
        // high edge must be finite.
        if !self.high_hz.is_finite() && !self.high_hz.equals(R::infinity()) {
            return Err(DspError::InvalidParam("high_hz must be finite or positive infinity"));
        }
        if at_most_of(self.high_hz, self.low_hz) {
            return Err(DspError::InvalidParam("high_hz must exceed low_hz"));
        }
        if self.hop > usize::MAX - self.size {
            return Err(DspError::InvalidParam("spectral size and hop exceed addressable memory"));
        }
        Ok(())
    }
}

/// The floor of window overlap below which output cannot be reconstructed.
pub open spec fn overlap_floor<R: Real>() -> R {
    R::decimal_of(1, -12)
}

/// The overlap gain is finite and above the floor.
pub open spec fn usable_gain<R: Real>(gain: R) -> bool {
    gain.finite() && !at_most(gain, overlap_floor())
}

/// The floor of window overlap.
pub fn min_overlap_gain<R: Real>() -> (r: R)
    ensures
        r == overlap_floor::<R>(),
{
    R::decimal(1, -12)
}

/// What undoes an overlap gain.
pub fn inverse_overlap_gain<R: Real>(gain: R) -> (r: R)
    requires
        usable_gain(gain),
    ensures
        r == unit::<R>().quot(gain),
{
    R::one().over(gain)
}

fn all_usable<R: Real>(gains: &[R]) -> (r: bool)
    ensures
        r == (forall|k: int| 0 <= k < gains@.len() ==> usable_gain(#[trigger] gains@[k])),
{
    let floor = min_overlap_gain::<R>();
    let mut k: usize = 0;
    while k < gains.len()
        invariant
            0 <= k <= gains@.len(),
            floor == overlap_floor::<R>(),
            forall|j: int| 0 <= j < k ==> usable_gain(#[trigger] gains@[j]),
        decreases gains@.len() - k,
    {
        if !gains[k].is_finite() || at_most_of(gains[k], floor) {
            assert(!usable_gain(gains@[k as int]));
            return false;
        }
        k += 1;
    }
    true
}

fn inverses<R: Real>(gains: &[R]) -> (r: Vec<R>)
    requires
        forall|k: int| 0 <= k < gains@.len() ==> usable_gain(#[trigger] gains@[k]),
    ensures
        r@ == Seq::new(gains@.len(), |k: int| unit::<R>().quot(gains@[k])),
{
    let mut out: Vec<R> = Vec::new();
    let mut k: usize = 0;
    while k < gains.len()
        invariant
            0 <= k <= gains@.len(),
            out@ =~= Seq::new(k as nat, |j: int| unit::<R>().quot(gains@[j])),
            forall|j: int| 0 <= j < gains@.len() ==> usable_gain(#[trigger] gains@[j]),
        decreases gains@.len() - k,
    {
        out.push(inverse_overlap_gain(gains[k]));
        k += 1;
    }
    out
}

// ---------------------------------------------------------------------------
// The filter
// ---------------------------------------------------------------------------

/// A streaming brick-wall band filter.
///
/// Bins whose center falls outside `[low_hz, high_hz]` are zeroed each frame.
/// Events are ignored.
#[derive(Debug)]
pub struct SpectralFilter<T: Sample, B: Transform<T::Real>> {
    pub settings: SpectralFilterSettings<T::Real>,
    /// Constants of the prepared filter.
    pub design: BandDesign<T::Real>,
    /// The transform and the buffers of one frame.
    pub work: BandWork<T::Real, B>,
    /// Persistent buffers, one per channel.
    pub lanes: Vec<BandLane<T::Real>>,
    /// Samples collected for the next frame, which fires at the window size.
    pub wpos: usize,
    /// Place of the next output in the rings.
    pub fifo_head: usize,
    /// Samples that wait in the rings.
    pub fifo_len: usize,
    /// Tail frames drained since the last input.
    pub flushed: usize,
    pub prepared: Option<PreparedContract>,
}

/// The input of a lane: the samples of one channel, with what is not finite
/// replaced by silence.
pub open spec fn lane_input<T: Sample>(plane: Seq<T>) -> Seq<T::Real> {
    Seq::new(plane.len(), |i: int| sane(plane[i].value()))
}

/// `n` samples of silence.
pub open spec fn silence<R: Real>(n: nat) -> Seq<R> {
    Seq::new(n, |i: int| nil())
}

/// Bytes of `a` arrays of `elements` elements of `size` bytes.
pub open spec fn bytes(a: nat, elements: nat, size: nat) -> nat {
    (elements * size) * a
}

impl<T: Sample, B: Transform<T::Real>> SpectralFilter<T, B> {
    /// The state of channel `ch`.
    pub open spec fn lane(&self, ch: int) -> BandState<T::Real> {
        self.lanes@[ch].state(self.wpos, self.fifo_head, self.fifo_len)
    }

    /// The constants that frames are filtered with.
    pub open spec fn plan(&self) -> BandPlan<T::Real> {
        self.design.plan()
    }

    /// Every buffer has its length, and the positions lie in the buffers.
    pub open spec fn shaped(&self) -> bool {
        let n = self.settings.size as nat;
        let h = self.settings.hop as nat;
        &&& self.design.fits(n)
        &&& self.design.hop == h
        &&& self.work.fits(n)
        &&& forall|ch: int| 0 <= ch < self.lanes@.len() ==> (#[trigger] self.lanes@[ch]).fits(n, h)
        &&& self.wpos < n
        &&& self.fifo_head < n + h
        &&& self.flushed <= n
    }

    /// What waits lasts until the next frame is full.
    pub open spec fn steady(&self) -> bool {
        self.fifo_len == 0 || self.fifo_len == self.settings.size - self.wpos
    }

    /// `other` differs from this filter in its running state only.
    pub open spec fn same_setup(&self, other: &Self) -> bool {
        &&& other.settings == self.settings
        &&& other.design == self.design
        &&& other.work.fft.n == self.work.fft.n
        &&& other.work.fft.scratch == self.work.fft.scratch
        &&& other.lanes@.len() == self.lanes@.len()
        &&& other.prepared == self.prepared
    }

    /// The bytes of every buffer.
    pub open spec fn held_bytes(&self) -> nat {
        let n = self.settings.size as nat;
        let h = self.settings.hop as nat;
        let width = size_of::<T::Real>();
        let count = self.lanes@.len();
        bytes(1, self.work.frame@.len(), width) + bytes(
            1,
            self.work.spectrum@.len(),
            size_of::<Complex<T::Real>>(),
        ) + bytes(1, self.design.inv_wsum@.len(), width) + bytes(1, self.design.w_a@.len(), width)
            + bytes(1, self.design.w_s@.len(), width) + bytes(count, n, width) + bytes(
            count,
            n,
            width,
        ) + bytes(count, n + h, width) + bytes(
            1,
            self.work.fft.scratch as nat,
            size_of::<Complex<T::Real>>(),
        )
    }

    /// A filter with `settings` that has not been prepared.
    pub open spec fn blank(&self, settings: SpectralFilterSettings<T::Real>) -> bool {
        &&& self.settings == settings
        &&& self.prepared is None
        &&& self.lanes@.len() == 0
        &&& self.design.w_a@.len() == 0
        &&& self.design.w_s@.len() == 0
        &&& self.design.inv_wsum@.len() == 0
        &&& self.design.hop == 0 && self.design.bin_lo == 0 && self.design.bin_hi == 0
        &&& self.work.fft.wf()
        &&& self.work.fft.n == 2
        &&& self.work.frame@.len() == 0
        &&& self.work.spectrum@.len() == 0
        &&& self.wpos == 0
        &&& self.fifo_head == 0
        &&& self.fifo_len == 0
        &&& self.flushed == 0
    }

    /// A filter with these settings.
    ///
    /// The settings are kept as given; `prepare` rejects what cannot be met.
    pub fn with_settings(settings: SpectralFilterSettings<T::Real>) -> (r: Self)
        ensures
            r.blank(settings),
    {
        Self {
            settings,
            design: BandDesign {
                hop: 0,
                w_a: Vec::new(),
                w_s: Vec::new(),
                inv_wsum: Vec::new(),
                bin_lo: 0,
                bin_hi: 0,
            },
            work: BandWork { fft: Fft::new(2), frame: Vec::new(), spectrum: Vec::new() },
            lanes: Vec::new(),
            wpos: 0,
            fifo_head: 0,
            fifo_len: 0,
            flushed: 0,
            prepared: None,
        }
    }

    /// A band filter using a Hann window.
    pub fn band(size: usize, hop: usize, low_hz: T::Real, high_hz: T::Real) -> (r: Self)
        ensures
            r.blank(
                (SpectralFilterSettings { size, hop, window: Window::Hann, low_hz, high_hz }),
            ),
    {
        Self::with_settings(
            SpectralFilterSettings::new().size(size).hop(hop).band(low_hz, high_hz),
        )
    }

    /// A low-pass filter that keeps DC through `cutoff_hz`.
    pub fn low_pass(size: usize, hop: usize, cutoff_hz: T::Real) -> (r: Self)
        ensures
            r.blank(
                SpectralFilterSettings {
                size,
                hop,
                window: Window::Hann,
                low_hz: nil(),
                high_hz: cutoff_hz,
                },
            ),
    {
        Self::band(size, hop, T::Real::zero(), cutoff_hz)
    }

    /// A high-pass filter that keeps `cutoff_hz` through Nyquist.
    pub fn high_pass(size: usize, hop: usize, cutoff_hz: T::Real) -> (r: Self)
        ensures
            r.blank(
                (SpectralFilterSettings {
                    size,
                    hop,
                    window: Window::Hann,
                    low_hz: cutoff_hz,
                    high_hz: T::Real::unbounded(),
                }),
            ),
    {
        Self::band(size, hop, cutoff_hz, T::Real::infinity())
    }

    /// The configured window size.
    pub fn size(&self) -> (r: usize)
        ensures
            r == self.settings.size,
    {
        self.settings.size
    }

    /// The configured hop between analysis frames.
    pub fn hop(&self) -> (r: usize)
        ensures
            r == self.settings.hop,
    {
        self.settings.hop
    }

    /// How preparing for `spec` is answered, and what it makes of the filter.
    pub open spec fn readied(
        &self,
        spec: ProcessSpec,
        after: &Self,
        answer: Result<(), DspError>,
    ) -> bool {
        &&& answer == self.settings.outcome::<B>(spec)
        &&& answer is Err ==> *after == (SpectralFilter { prepared: None, ..*self })
        &&& answer is Ok ==> {
            &&& after.settings == self.settings
            &&& after.plan() == self.settings.plan(spec.sample_rate)
            &&& after.shaped()
            &&& after.at_rest()
            &&& after.lanes@.len() == spec.channels
            &&& after.held_bytes() == self.settings.layout::<B>(spec.channels as nat).total->0
            &&& spec.max_memory matches Some(cap) ==> after.held_bytes() <= cap
            &&& after.prepared == Some(
                PreparedContract {
                    max_block: spec.max_block,
                    channels: spec.channels,
                    io_mode: IoMode::Split,
                    sidechain_inputs: 0,
                },
            )
        }
    }

    /// Nothing has been taken in since `prepare` or the last reset.
    pub open spec fn at_rest(&self) -> bool {
        &&& forall|ch: int|
            0 <= ch < self.lanes@.len() ==> #[trigger] self.lane(ch) == lane_rest::<T::Real>(
                self.settings.size as nat,
            )
        &&& self.wpos == 0
        &&& self.fifo_head == 0
        &&& self.fifo_len == 0
        &&& self.flushed == 0
    }

    fn configure(&mut self, spec: ProcessSpec) -> (r: Result<(), DspError>)
        requires
            old(self).work.fft.wf(),
        ensures
            old(self).readied(spec, final(self), r),
            final(self).work.fft.wf(),
    {
        self.prepared = None;
        if spec.sample_rate == 0 {
            return Err(DspError::UnsupportedSpec("sample rate must be non-zero"));
        }
        match self.settings.check() {
            Err(e) => {
                return Err(e);
            },
            Ok(()) => {},
        }
        let n: usize = self.settings.size;
        let h: usize = self.settings.hop;
        let bins: usize = n / 2 + 1;
        let channels: usize = spec.channels;
        let state_layout = MemoryLayout::new().array::<T::Real>(n).array::<Complex<T::Real>>(bins).array::<T::Real>(
            h,
        ).array::<T::Real>(n).array::<T::Real>(n).repeated_array::<T::Real>(channels, n).repeated_array::<T::Real>(
            channels,
            n,
        ).repeated_array::<T::Real>(channels, n + h);
        // Oversized state is rejected before the transform is planned. The plan
        // tells how much scratch it needs, which the final check includes.
        match state_layout.preflight(spec.max_memory) {
            Err(e) => {
                return Err(e);
            },
            Ok(_) => {},
        }
        let w_a: Vec<T::Real> = self.settings.window.make(n);
        let w_s: Vec<T::Real> = self.settings.window.make(n);
        let wprod = multiply(w_a.as_slice(), w_s.as_slice());
        let wsum = cola_sum(wprod.as_slice(), h);
        assert(wsum@ == self.settings.overlap());
        if !all_usable(wsum.as_slice()) {
            return Err(
                DspError::InvalidParam("window and hop leave an unreconstructable output phase"),
            );
        }
        let inv_wsum = inverses(wsum.as_slice());
        let mut fft: Fft<T::Real, B> = Fft::plan(n);
        let (fwd_scratch, inv_scratch) = fft.scratch_lengths();
        match state_layout.array::<Complex<T::Real>>(fwd_scratch).array::<Complex<T::Real>>(
            inv_scratch,
        ).preflight(spec.max_memory) {
            Err(e) => {
                return Err(e);
            },
            Ok(_) => {},
        }
        fft.allocate_scratch();
        let hz_per_bin = T::Real::from_u64(spec.sample_rate as u64).over(T::Real::from_u64(n as u64));
        let bin_lo: usize = to_usize(
            max_of(self.settings.low_hz.over(hz_per_bin).ceil(), T::Real::zero()),
        );
        let top: usize = to_usize(self.settings.high_hz.over(hz_per_bin).floor());
        let bin_hi: usize = if top < bins - 1 {
            top
        } else {
            bins - 1
        };
        self.design = BandDesign { hop: h, w_a, w_s, inv_wsum, bin_lo, bin_hi };
        assert(self.design.plan() =~= self.settings.plan(spec.sample_rate));
        self.work = BandWork {
            fft,
            frame: filled(T::Real::zero(), n),
            spectrum: filled(Complex::new(T::Real::zero(), T::Real::zero()), bins),
        };
        let mut lanes: Vec<BandLane<T::Real>> = Vec::new();
        let mut ch: usize = 0;
        while ch < channels
            invariant
                0 <= ch <= channels,
                lanes@.len() == ch,
                n + h <= usize::MAX,
                forall|k: int|
                    0 <= k < ch ==> (#[trigger] lanes@[k]).fits(n as nat, h as nat)
                        && lanes@[k].state(0, 0, 0) == lane_rest::<T::Real>(n as nat),
            decreases channels - ch,
        {
            lanes.push(BandLane::new(n, h));
            ch += 1;
        }
        self.lanes = lanes;
        self.wpos = 0;
        self.fifo_head = 0;
        self.fifo_len = 0;
        self.flushed = 0;
        self.prepared = Some(
            PreparedContract {
                max_block: spec.max_block,
                channels,
                io_mode: IoMode::Split,
                sidechain_inputs: 0,
            },
        );
        proof {
            lemma_scratch_is_exact(
                fwd_scratch as nat,
                inv_scratch as nat,
                size_of::<Complex<T::Real>>(),
                self.settings.state_layout(channels as nat),
            );
            lemma_layout_total::<T::Real>(self.settings, channels as nat);
        }
        Ok(())
    }

    // -----------------------------------------------------------------------
    // Running
    // -----------------------------------------------------------------------

    /// Write the next output of every channel to frame `i` and leave it behind.
    fn emit(&mut self, output: &mut AudioBlockMut<'_, '_, T>, i: usize)
        requires
            old(self).shaped(),
            old(output).wf(),
            old(output).samples().len() == old(self).lanes@.len(),
            i < old(output).length(),
        ensures
            final(self).shaped(),
            old(self).same_setup(final(self)),
            final(self).wpos == old(self).wpos,
            final(self).flushed == old(self).flushed,
            final(self).fifo_len == (if old(self).fifo_len > 0 {
                (old(self).fifo_len - 1) as usize
            } else {
                0
            }),
            forall|ch: int|
                0 <= ch < old(self).lanes@.len() ==> #[trigger] final(self).lane(ch) == popped(
                    old(self).lane(ch),
                ),
            final(output).wf(),
            final(output).length() == old(output).length(),
            final(final(output).table())@ == final(old(output).table())@,
            forall|c: int|
                0 <= c < old(output).samples().len() ==> final(#[trigger] final(output).plane(c))@
                    == final(old(output).plane(c))@,
            final(output).samples().len() == old(output).samples().len(),
            forall|ch: int|
                0 <= ch < old(self).lanes@.len() ==> #[trigger] final(output).samples()[ch]
                    == old(output).samples()[ch].update(
                    i as int,
                    T::stored(head(old(self).lane(ch))),
                ),
    {
        let count: usize = self.lanes.len();
        let cap: usize = self.settings.size + self.settings.hop;
        let mut ch: usize = 0;
        while ch < count
            invariant
                0 <= ch <= count,
                count == self.lanes@.len(),
                *self == *old(self),
                self.shaped(),
                output.length() == old(output).length(),
                old(output).wf(),
                final(output.table())@ == final(old(output).table())@,
                forall|c: int|
                    0 <= c < count ==> final(#[trigger] output.plane(c))@ == final(old(output).plane(c))@,
                output.samples().len() == count,
                old(output).samples().len() == count,
                i < output.length(),
                forall|k: int|
                    0 <= k < ch ==> #[trigger] output.samples()[k]
                        == old(output).samples()[k].update(i as int, T::stored(head(self.lane(k)))),
                forall|k: int|
                    ch <= k < count ==> #[trigger] output.samples()[k] == old(output).samples()[k],
            decreases count - ch,
        {
            assert(self.lanes@[ch as int].fits(
                self.settings.size as nat,
                self.settings.hop as nat,
            ));
            let ghost lane = self.lane(ch as int);
            assert(output.samples()[ch as int] == old(output).samples()[ch as int]);
            let y = if self.fifo_len > 0 {
                proof {
                    lemma_read_one(
                        self.lanes@[ch as int].fifo@,
                        self.fifo_head,
                        self.fifo_len as nat,
                    );
                }
                finite_or_zero(self.lanes[ch].fifo[self.fifo_head])
            } else {
                T::Real::zero()
            };
            assert(y == head(lane));
            let plane = output.channel_mut(ch);
            plane[i] = T::from_real(y);
            ch += 1;
        }
        if self.fifo_len > 0 {
            let next: usize = place_of(cap, self.fifo_head, 1);
            proof {
                assert forall|k: int| 0 <= k < count implies #[trigger] self.lanes@[k].state(
                    self.wpos,
                    next,
                    (self.fifo_len - 1) as usize,
                ) == popped(self.lane(k)) by {
                    assert(self.lanes@[k].fits(
                        self.settings.size as nat,
                        self.settings.hop as nat,
                    ));
                    lemma_read_one(self.lanes@[k].fifo@, self.fifo_head, self.fifo_len as nat);
                }
            }
            self.fifo_head = next;
            self.fifo_len = self.fifo_len - 1;
            assert forall|k: int| 0 <= k < count implies #[trigger] self.lane(k) == popped(
                old(self).lane(k),
            ) by {
                assert(self.lanes@[k].state(self.wpos, next, self.fifo_len) == popped(
                    old(self).lane(k),
                ));
            }
        }
    }

    /// Collect `x` on channel `ch`.
    fn ingest(&mut self, ch: usize, x: T::Real)
        requires
            old(self).shaped(),
            ch < old(self).lanes@.len(),
        ensures
            final(self).shaped(),
            old(self).same_setup(final(self)),
            final(self).wpos == old(self).wpos,
            final(self).flushed == old(self).flushed,
            final(self).fifo_len == old(self).fifo_len,
            final(self).fifo_head == old(self).fifo_head,
            final(self).lanes@[ch as int].frame_in@ == old(
                self,
            ).lanes@[ch as int].frame_in@.update(old(self).wpos as int, x),
            final(self).lanes@[ch as int].acc == old(self).lanes@[ch as int].acc,
            final(self).lanes@[ch as int].fifo == old(self).lanes@[ch as int].fifo,
            forall|k: int|
                0 <= k < old(self).lanes@.len() && k != ch ==> #[trigger] final(self).lanes@[k]
                    == old(self).lanes@[k],
    {
        assert(self.lanes@[ch as int].fits(self.settings.size as nat, self.settings.hop as nat));
        let at: usize = self.wpos;
        let lane = &mut self.lanes[ch];
        lane.frame_in.set(at, x);
    }

    /// Count the collected samples in, and fire a frame where it is full.
    fn advance(&mut self, Ghost(from): Ghost<Seq<BandState<T::Real>>>, Ghost(x): Ghost<Seq<T::Real>>)
        requires
            old(self).shaped(),
            old(self).fifo_len == 0 || old(self).fifo_len == old(self).settings.size - old(
                self,
            ).wpos - 1,
            from.len() == old(self).lanes@.len(),
            x.len() == old(self).lanes@.len(),
            forall|ch: int|
                0 <= ch < old(self).lanes@.len() ==> from[ch] == #[trigger] old(self).lane(ch)
                    && x[ch] == old(self).lanes@[ch].frame_in@[old(self).wpos as int],
        ensures
            final(self).shaped(),
            final(self).steady(),
            old(self).same_setup(final(self)),
            final(self).flushed == old(self).flushed,
            forall|ch: int|
                0 <= ch < old(self).lanes@.len() ==> #[trigger] final(self).lane(ch) == taken::<
                    T::Real,
                    B,
                >(old(self).plan(), from[ch], x[ch]),
    {
        let n: usize = self.settings.size;
        let h: usize = self.settings.hop;
        let count: usize = self.lanes.len();
        let ghost p = self.plan();
        let ghost before = self.lanes@;
        let start: usize = self.fifo_head;
        assert forall|ch: int| 0 <= ch < count implies BandState {
            pending: (#[trigger] from[ch]).pending.push(x[ch]),
            ..from[ch]
        } == before[ch].state((self.wpos + 1) as usize, start, self.fifo_len) by {
            assert(self.lanes@[ch].fits(n as nat, h as nat));
            assert(from[ch] == self.lane(ch));
            assert(before[ch].frame_in@.take(self.wpos + 1) =~= before[ch].frame_in@.take(
                self.wpos as int,
            ).push(x[ch]));
        }
        assert forall|ch: int| 0 <= ch < count implies (#[trigger] from[ch]).pending.len()
            == self.wpos by {
            assert(self.lanes@[ch].fits(n as nat, h as nat));
            assert(from[ch] == self.lane(ch));
        }
        if self.wpos + 1 == n {
            // Everything finalized has been read by the time a frame is full.
            let mut ch: usize = 0;
            while ch < count
                invariant
                    0 <= ch <= count,
                    count == self.lanes@.len(),
                    count == before.len(),
                    n == self.settings.size,
                    h == self.settings.hop,
                    self.shaped(),
                    old(self).same_setup(self),
                    self.flushed == old(self).flushed,
                    self.wpos == n - 1,
                    self.fifo_head == start,
                    self.fifo_len == 0,
                    p == self.plan(),
                    p == old(self).plan(),
                    forall|k: int| ch <= k < count ==> #[trigger] self.lanes@[k] == before[k],
                    forall|k: int|
                        0 <= k < ch ==> (#[trigger] self.lanes@[k]).state(
                            (n - h) as usize,
                            start,
                            h,
                        ) == fired::<T::Real, B>(p, before[k].state(n, start, 0)),
                decreases count - ch,
            {
                assert(self.lanes@[ch as int].fits(n as nat, h as nat));
                assert(self.lanes@[ch as int] == before[ch as int]);
                let lane = &mut self.lanes[ch];
                lane.fire(&mut self.work, &self.design, start);
                ch += 1;
            }
            self.fifo_len = h;
            self.wpos = n - h;
            assert forall|k: int| 0 <= k < count implies #[trigger] self.lane(k) == taken::<T::Real, B>(
                p,
                from[k],
                x[k],
            ) by {
                assert(from[k].pending.len() == n - 1);
                assert(self.lanes@[k].state((n - h) as usize, start, h)
                    == fired::<T::Real, B>(p, before[k].state(n, start, 0)));
            }
        } else {
            self.wpos = self.wpos + 1;
            assert forall|k: int| 0 <= k < count implies #[trigger] self.lane(k) == taken::<T::Real, B>(
                p,
                from[k],
                x[k],
            ) by {
                assert(from[k].pending.len() == self.wpos - 1);
            }
        }
    }

    /// Every channel has moved on by the first `n` samples of its input, and
    /// delivered its output on the way.
    pub open spec fn moved(
        &self,
        after: &Self,
        x: Seq<Seq<T::Real>>,
        n: nat,
        output: Seq<Seq<T>>,
    ) -> bool {
        forall|ch: int|
            0 <= ch < self.lanes@.len() ==> {
                &&& #[trigger] after.lane(ch) == lane_after::<T::Real, B>(
                    self.plan(),
                    self.lane(ch),
                    x[ch],
                    n,
                )
                &&& forall|i: int|
                    0 <= i < n ==> #[trigger] output[ch][i] == T::stored(
                        head(lane_after::<T::Real, B>(self.plan(), self.lane(ch), x[ch], i as nat)),
                    )
            }
    }

    /// Take one frame through every channel: output `i` is written, and what
    /// stands in `input` (silence, without one) is taken in.
    fn step(
        &mut self,
        input: Option<&AudioBlock<'_, '_, T>>,
        output: &mut AudioBlockMut<'_, '_, T>,
        i: usize,
        Ghost(x): Ghost<Seq<Seq<T::Real>>>,
    )
        requires
            old(self).shaped(),
            old(self).steady(),
            old(output).wf(),
            old(output).samples().len() == old(self).lanes@.len(),
            i < old(output).length(),
            x.len() == old(self).lanes@.len(),
            forall|ch: int| 0 <= ch < x.len() ==> i < (#[trigger] x[ch]).len(),
            input matches Some(b) ==> b.wf() && b.samples().len() == old(self).lanes@.len()
                && i < b.length(),
            input matches Some(b) ==> forall|ch: int|
                0 <= ch < x.len() ==> #[trigger] x[ch] == lane_input(b.samples()[ch]),
            input is None ==> forall|ch: int|
                0 <= ch < x.len() ==> (#[trigger] x[ch])[i as int] == nil::<T::Real>(),
        ensures
            final(self).shaped(),
            final(self).steady(),
            old(self).same_setup(final(self)),
            final(self).flushed == old(self).flushed,
            forall|ch: int|
                0 <= ch < old(self).lanes@.len() ==> #[trigger] final(self).lane(ch) == lane_next::<
                    T::Real,
                    B,
                >(old(self).plan(), old(self).lane(ch), x[ch][i as int]),
            final(output).wf(),
            final(output).length() == old(output).length(),
            final(final(output).table())@ == final(old(output).table())@,
            forall|c: int|
                0 <= c < old(output).samples().len() ==> final(#[trigger] final(output).plane(c))@
                    == final(old(output).plane(c))@,
            final(output).samples().len() == old(output).samples().len(),
            forall|ch: int|
                0 <= ch < old(self).lanes@.len() ==> #[trigger] final(output).samples()[ch]
                    == old(output).samples()[ch].update(
                    i as int,
                    T::stored(head(old(self).lane(ch))),
                ),
    {
        let count: usize = self.lanes.len();
        self.emit(output, i);
        let ghost mid = *self;
        let ghost from = Seq::new(count as nat, |ch: int| mid.lane(ch));
        let ghost column = Seq::new(count as nat, |ch: int| x[ch][i as int]);
        let mut ch: usize = 0;
        while ch < count
            invariant
                0 <= ch <= count,
                count == self.lanes@.len(),
                count == x.len(),
                self.shaped(),
                mid.shaped(),
                mid.same_setup(self),
                self.wpos == mid.wpos,
                self.flushed == mid.flushed,
                self.fifo_len == mid.fifo_len,
                self.fifo_head == mid.fifo_head,
                forall|k: int| 0 <= k < x.len() ==> i < (#[trigger] x[k]).len(),
                input matches Some(b) ==> b.wf() && b.samples().len() == count && i < b.length(),
                input matches Some(b) ==> forall|k: int|
                    0 <= k < x.len() ==> #[trigger] x[k] == lane_input(b.samples()[k]),
                input is None ==> forall|k: int|
                    0 <= k < x.len() ==> (#[trigger] x[k])[i as int] == nil::<T::Real>(),
                forall|k: int|
                    0 <= k < count ==> {
                        &&& (#[trigger] self.lanes@[k]).acc == mid.lanes@[k].acc
                        &&& self.lanes@[k].fifo == mid.lanes@[k].fifo
                        &&& self.lanes@[k].frame_in@ == (if k < ch {
                            mid.lanes@[k].frame_in@.update(mid.wpos as int, x[k][i as int])
                        } else {
                            mid.lanes@[k].frame_in@
                        })
                    },
            decreases count - ch,
        {
            let ghost row = x[ch as int];
            let v = match input {
                Some(b) => finite_or_zero(b.channel(ch)[i].to_real()),
                None => T::Real::zero(),
            };
            assert(v == row[i as int]);
            self.ingest(ch, v);
            ch += 1;
        }
        assert forall|k: int| 0 <= k < count implies from[k] == #[trigger] self.lane(k)
            && column[k] == self.lanes@[k].frame_in@[self.wpos as int] by {
            assert(self.lanes@[k].fits(self.settings.size as nat, self.settings.hop as nat));
            assert(mid.lanes@[k].fits(self.settings.size as nat, self.settings.hop as nat));
            assert(self.lanes@[k].frame_in@.take(self.wpos as int)
                =~= mid.lanes@[k].frame_in@.take(self.wpos as int));
            assert(self.lane(k) =~= mid.lane(k));
        }
        self.advance(Ghost(from), Ghost(column));
    }

    /// Take the first `n` frames through every channel.
    fn run(
        &mut self,
        input: Option<&AudioBlock<'_, '_, T>>,
        output: &mut AudioBlockMut<'_, '_, T>,
        n: usize,
        Ghost(x): Ghost<Seq<Seq<T::Real>>>,
    )
        requires
            old(self).shaped(),
            old(self).steady(),
            old(output).wf(),
            old(output).samples().len() == old(self).lanes@.len(),
            n <= old(output).length(),
            x.len() == old(self).lanes@.len(),
            forall|ch: int| 0 <= ch < x.len() ==> n <= (#[trigger] x[ch]).len(),
            input matches Some(b) ==> b.wf() && b.samples().len() == old(self).lanes@.len()
                && n <= b.length(),
            input matches Some(b) ==> forall|ch: int|
                0 <= ch < x.len() ==> #[trigger] x[ch] == lane_input(b.samples()[ch]),
            input is None ==> forall|ch: int|
                0 <= ch < x.len() ==> #[trigger] x[ch] == silence::<T::Real>(n as nat),
        ensures
            final(self).shaped(),
            final(self).steady(),
            old(self).same_setup(final(self)),
            final(self).flushed == old(self).flushed,
            old(self).moved(final(self), x, n as nat, final(output).samples()),
            final(output).wf(),
            final(output).length() == old(output).length(),
            final(final(output).table())@ == final(old(output).table())@,
            forall|c: int|
                0 <= c < old(output).samples().len() ==> final(#[trigger] final(output).plane(c))@
                    == final(old(output).plane(c))@,
            agree_from(old(output).samples(), final(output).samples(), n as int),
    {
        let ghost p = self.plan();
        let ghost count = self.lanes@.len();
        let mut i: usize = 0;
        while i < n
            invariant
                0 <= i <= n,
                count == old(self).lanes@.len(),
                p == old(self).plan(),
                self.shaped(),
                self.steady(),
                old(self).same_setup(self),
                self.flushed == old(self).flushed,
                output.wf(),
                output.samples().len() == count,
                old(output).wf(),
                old(output).samples().len() == count,
                output.length() == old(output).length(),
                n <= output.length(),
                final(output.table())@ == final(old(output).table())@,
                forall|c: int|
                    0 <= c < count ==> final(#[trigger] output.plane(c))@ == final(old(output).plane(c))@,
                x.len() == count,
                forall|ch: int| 0 <= ch < x.len() ==> n <= (#[trigger] x[ch]).len(),
                input matches Some(b) ==> b.wf() && b.samples().len() == count && n <= b.length(),
                input matches Some(b) ==> forall|ch: int|
                    0 <= ch < x.len() ==> #[trigger] x[ch] == lane_input(b.samples()[ch]),
                input is None ==> forall|ch: int|
                    0 <= ch < x.len() ==> #[trigger] x[ch] == silence::<T::Real>(n as nat),
                forall|ch: int|
                    0 <= ch < count ==> #[trigger] self.lane(ch) == lane_after::<T::Real, B>(
                        p,
                        old(self).lane(ch),
                        x[ch],
                        i as nat,
                    ),
                forall|ch: int, j: int|
                    0 <= ch < count && 0 <= j < i ==> #[trigger] output.samples()[ch][j]
                        == T::stored(
                        head(lane_after::<T::Real, B>(p, old(self).lane(ch), x[ch], j as nat)),
                    ),
                forall|ch: int, j: int|
                    0 <= ch < count && i <= j < output.length() ==> #[trigger] output.samples()[ch][j]
                        == old(output).samples()[ch][j],
            decreases n - i,
        {
            let ghost before = *self;
            let ghost written = output.samples();
            assert forall|ch: int| 0 <= ch < count implies written[ch].len() == output.length() by {
                assert(output.samples()[ch].len() == output.length());
            }
            self.step(input, output, i, Ghost(x));
            assert forall|ch: int| 0 <= ch < count implies #[trigger] self.lane(ch) == lane_after::<
                T::Real,
                B,
            >(p, old(self).lane(ch), x[ch], (i + 1) as nat) by {
                assert(before.lane(ch) == lane_after::<T::Real, B>(
                    p,
                    old(self).lane(ch),
                    x[ch],
                    i as nat,
                ));
            }
            assert forall|ch: int, j: int| 0 <= ch < count && 0 <= j < output.length() implies (
            #[trigger] output.samples()[ch][j]) == (if j == i {
                T::stored(head(before.lane(ch)))
            } else {
                written[ch][j]
            }) by {
                assert(output.samples()[ch] == written[ch].update(
                    i as int,
                    T::stored(head(before.lane(ch))),
                ));
            }
            i += 1;
        }
        assert forall|ch: int| 0 <= ch < count implies (#[trigger] output.samples()[ch]).len()
            == old(output).samples()[ch].len() by {
            assert(old(output).samples()[ch].len() == old(output).length());
        }
    }
}

/// The total of the state layout is the sum of its arrays.
proof fn lemma_layout_total<R: Real>(s: SpectralFilterSettings<R>, channels: nat)
    requires
        s.state_layout(channels).total is Some,
    ensures
        ({
            let n = s.size as nat;
            let h = s.hop as nat;
            let width = size_of::<R>();
            s.state_layout(channels).total->0 == bytes(1, n, width) + bytes(
                1,
                bins_of(n),
                size_of::<Complex<R>>(),
            ) + bytes(1, h, width) + bytes(1, n, width) + bytes(1, n, width) + bytes(
                channels,
                n,
                width,
            ) + bytes(channels, n, width) + bytes(channels, n + h, width)
        }),
{
    let n = s.size as nat;
    let h = s.hop as nat;
    if channels == 0 {
        assert((n * size_of::<R>()) * 0 == 0);
        assert(((n + h) * size_of::<R>()) * 0 == 0);
    }
}

/// Scratch that fits the layout was counted in full.
proof fn lemma_scratch_is_exact(a: nat, b: nat, size: nat, p: Plan)
    requires
        p.array(a, size).array(b, size).total is Some,
        p.total is Some,
    ensures
        p.array(a, size).array(b, size).total->0 == p.total->0 + bytes(
            1,
            saturated(a + b) as nat,
            size,
        ),
{
    assert(a * size + b * size == (a + b) * size) by (nonlinear_arith);
    if size > 0 {
        assert(a + b <= (a + b) * size) by (nonlinear_arith)
            requires
                size > 0,
        ;
    } else {
        assert((a + b) * size == 0 && saturated(a + b) as nat * size == 0) by (nonlinear_arith)
            requires
                size == 0,
        ;
    }
}

/// Joining two counts that were brought into range early.
proof fn lemma_joined(x: nat, y: nat)
    ensures
        saturated(saturated(x) as nat + saturated(y) as nat) == saturated(x + y),
{
    saturation_is_final(x, saturated(y) as nat);
    saturation_is_final(y, x);
}

impl<T: Sample, B: Transform<T::Real>> Default for SpectralFilter<T, B> {
    fn default() -> (r: Self)
        ensures
            r.blank(default_spectral()),
    {
        Self::with_settings(SpectralFilterSettings::default())
    }
}

impl<T: Sample, B: Transform<T::Real>> SpectralFilter<T, B> {
    /// Bytes of `elements` numbers on each channel.
    fn lane_bytes(&self, elements: usize) -> (r: usize)
        ensures
            r == saturated(bytes(self.lanes@.len(), elements as nat, size_of::<T::Real>())),
    {
        proof {
            saturation_is_final(elements as nat * size_of::<T::Real>(), self.lanes@.len());
        }
        scaled(bytes_of::<T::Real>(elements), self.lanes.len())
    }

    /// Bytes of every buffer, at most `usize::MAX`.
    fn footprint(&self) -> (r: usize)
        requires
            self.settings.size + self.settings.hop <= usize::MAX || self.lanes@.len() == 0,
        ensures
            r == saturated(self.held_bytes()),
    {
        let n: usize = self.settings.size;
        let h: usize = self.settings.hop;
        let ghost f = size_of::<T::Real>();
        let ghost c = size_of::<Complex<T::Real>>();
        let ghost count = self.lanes@.len();
        let ghost b0 = bytes(1, self.work.frame@.len(), f);
        let ghost b1 = bytes(1, self.work.spectrum@.len(), c);
        let ghost b2 = bytes(1, self.design.inv_wsum@.len(), f);
        let ghost b3 = bytes(1, self.design.w_a@.len(), f);
        let ghost b4 = bytes(1, self.design.w_s@.len(), f);
        let ghost b5 = bytes(count, n as nat, f);
        let ghost b6 = bytes(count, n as nat + h as nat, f);
        let ghost b7 = bytes(1, self.work.fft.scratch as nat, c);
        let mut total: usize = bytes_of::<T::Real>(self.work.frame.len());
        total = joined(total, bytes_of::<Complex<T::Real>>(self.work.spectrum.len()));
        proof {
            lemma_joined(b0, b1);
        }
        total = joined(total, bytes_of::<T::Real>(self.design.inv_wsum.len()));
        proof {
            lemma_joined(b0 + b1, b2);
        }
        total = joined(total, bytes_of::<T::Real>(self.design.w_a.len()));
        proof {
            lemma_joined(b0 + b1 + b2, b3);
        }
        total = joined(total, bytes_of::<T::Real>(self.design.w_s.len()));
        proof {
            lemma_joined(b0 + b1 + b2 + b3, b4);
        }
        if self.lanes.len() > 0 {
            total = joined(total, self.lane_bytes(n));
            proof {
                lemma_joined(b0 + b1 + b2 + b3 + b4, b5);
            }
            total = joined(total, self.lane_bytes(n));
            proof {
                lemma_joined(b0 + b1 + b2 + b3 + b4 + b5, b5);
            }
            total = joined(total, self.lane_bytes(n + h));
            proof {
                lemma_joined(b0 + b1 + b2 + b3 + b4 + b5 + b5, b6);
            }
        } else {
            assert((n as nat * f) * 0 == 0 && ((n as nat + h as nat) * f) * 0 == 0);
        }
        total = joined(total, self.work.fft.scratch_footprint());
        proof {
            lemma_joined(b0 + b1 + b2 + b3 + b4 + b5 + b5 + b6, b7);
        }
        total
    }
}

impl<T: Sample, B: Transform<T::Real>> Processor<T> for SpectralFilter<T, B> {
    open spec fn inv(&self) -> bool {
        &&& self.work.fft.wf()
        &&& forall|ch: int|
            0 <= ch < self.lanes@.len() ==> (#[trigger] self.lanes@[ch]).fits(
                self.settings.size as nat,
                self.settings.hop as nat,
            )
        &&& self.prepared is Some ==> self.shaped() && self.steady()
    }

    open spec fn admits(&self, g: Geometry) -> bool {
        &&& self.prepared is Some
        &&& g.mode == IoMode::Split
        &&& g.channels == self.lanes@.len()
        &&& g.buses == 0
        &&& g.frames <= self.prepared->0.max_block
    }

    open spec fn drained(&self) -> bool {
        self.flushed >= self.settings.size
    }

    open spec fn standing(&self) -> Standing<T::Real> {
        Standing {
            latency: self.settings.size,
            tail: Tail::Frames(self.settings.size),
            io_mode: IoMode::Split,
            footprint: saturated(self.held_bytes()),
            info: Seq::empty(),
            sidechain_inputs: 0,
        }
    }

    fn prepare(&mut self, spec: ProcessSpec) -> (r: Result<(), DspError>)
        ensures
            old(self).readied(spec, final(self), r),
    {
        self.configure(spec)
    }

    fn reset(&mut self)
        ensures
            old(self).same_setup(final(self)),
            final(self).at_rest(),
    {
        let count: usize = self.lanes.len();
        let ghost n = self.settings.size as nat;
        let ghost h = self.settings.hop as nat;
        let mut ch: usize = 0;
        while ch < count
            invariant
                0 <= ch <= count,
                count == self.lanes@.len(),
                n == self.settings.size,
                h == self.settings.hop,
                *self == (SpectralFilter { lanes: self.lanes, ..*old(self) }),
                forall|k: int| 0 <= k < count ==> (#[trigger] self.lanes@[k]).fits(n, h),
                forall|k: int|
                    0 <= k < ch ==> (#[trigger] self.lanes@[k]).state(0, 0, 0) == lane_rest::<
                        T::Real,
                    >(n),
            decreases count - ch,
        {
            assert(self.lanes@[ch as int].fits(n, h));
            let lane = &mut self.lanes[ch];
            lane.clear();
            ch += 1;
        }
        self.wpos = 0;
        self.fifo_head = 0;
        self.fifo_len = 0;
        self.flushed = 0;
    }

    fn latency(&self) -> (r: usize)
        ensures
            r == self.settings.size,
    {
        self.settings.size
    }

    fn tail(&self) -> (r: Tail)
        ensures
            r == Tail::Frames(self.settings.size),
    {
        Tail::Frames(self.settings.size)
    }

    fn io_mode(&self) -> (r: IoMode)
        ensures
            r == IoMode::Split,
    {
        IoMode::Split
    }

    fn memory_footprint(&self) -> (r: usize)
        ensures
            <Self as Processor<T>>::inv(self) ==> r == saturated(self.held_bytes()),
    {
        if self.settings.hop <= usize::MAX - self.settings.size || self.lanes.len() == 0 {
            self.footprint()
        } else {
            assert(<Self as Processor<T>>::inv(self) ==> self.lanes@[0].fits(
                self.settings.size as nat,
                self.settings.hop as nat,
            ));
            usize::MAX
        }
    }

    fn process(&mut self, ctx: &mut ProcessContext<'_, '_, T>)
        ensures
            old(self).processed(old(ctx).seen(), final(self), final(ctx).main.output()),
    {
        let frames: usize = ctx.frames;
        if frames == 0 {
            return;
        }
        // New input starts a new drain.
        self.flushed = 0;
        match &mut ctx.main {
            Io::Split { input, output } => {
                let ghost x = lane_inputs(input.samples());
                self.run(Some(&*input), output, frames, Ghost(x));
            },
            _ => {},
        }
    }

    fn flush(&mut self, out: &mut AudioBlockMut<'_, '_, T>) -> (r: Produced)
        ensures
            old(self).drained_by(old(out).length(), r, final(self), final(out).samples()),
    {
        let left: usize = self.settings.size - self.flushed;
        let frames: usize = out.frames();
        let want: usize = if frames < left {
            frames
        } else {
            left
        };
        let ghost x = silent_inputs::<T::Real>(self.lanes@.len(), want as nat);
        self.run(None, out, want, Ghost(x));
        let ghost ran = *self;
        self.flushed = self.flushed + want;
        assert forall|ch: int| 0 <= ch < self.lanes@.len() implies #[trigger] self.lane(ch)
            == ran.lane(ch) by {
        }
        assert(old(self).moved(self, x, want as nat, out.samples()));
        Produced { frames: want, done: self.flushed >= self.settings.size }
    }
}

/// The inputs of all lanes.
pub open spec fn lane_inputs<T: Sample>(planes: Seq<Seq<T>>) -> Seq<Seq<T::Real>> {
    Seq::new(planes.len(), |ch: int| lane_input(planes[ch]))
}

/// `n` samples of silence on each of `channels` lanes.
pub open spec fn silent_inputs<R: Real>(channels: nat, n: nat) -> Seq<Seq<R>> {
    Seq::new(channels, |ch: int| silence::<R>(n))
}

impl<T: Sample, B: Transform<T::Real>> SpectralFilter<T, B> {
    /// What processing `x` makes of the filter and of the output.
    pub open spec fn processed(&self, x: BlockView<T>, after: &Self, output: Seq<Seq<T>>) -> bool {
        &&& self.same_setup(after)
        &&& self.moved(after, lane_inputs(x.input), x.frames, output)
        &&& after.flushed == (if x.frames == 0 {
            self.flushed
        } else {
            0
        })
    }

    /// What draining into `frames` frames makes of the filter and of the output.
    pub open spec fn drained_by(
        &self,
        frames: usize,
        r: Produced,
        after: &Self,
        output: Seq<Seq<T>>,
    ) -> bool {
        let left = self.settings.size - self.flushed;
        &&& r.frames == (if frames < left {
            frames as int
        } else {
            left
        })
        &&& r.done == (self.flushed + r.frames >= self.settings.size)
        &&& self.same_setup(after)
        &&& self.moved(
            after,
            silent_inputs::<T::Real>(self.lanes@.len(), r.frames as nat),
            r.frames as nat,
            output,
        )
        &&& after.flushed == self.flushed + r.frames
    }
}

/// A whole drain is one window: whatever the sizes of its calls, a drain from its start
/// delivers at most the declared tail, and a call that finds it done brings nothing more.
pub proof fn spectral_drains_no_more_than_its_tail<T: Sample, B: Transform<T::Real>>(
    states: Seq<SpectralFilter<T, B>>,
    rooms: Seq<usize>,
    calls: Seq<Produced>,
    outs: Seq<Seq<Seq<T>>>,
)
    requires
        states.len() == calls.len() + 1,
        forall|k: int|
            0 <= k < calls.len() ==> states[k].drained_by(
                rooms[k],
                #[trigger] calls[k],
                &states[k + 1],
                outs[k],
            ),
        states[0].flushed <= states[0].settings.size,
    ensures
        states[0].flushed + delivered(calls) <= states[0].settings.size,
        forall|k: int|
            0 <= k < calls.len() - 1 && (#[trigger] calls[k]).done ==> calls[k + 1].frames == 0
                && calls[k + 1].done,
{
    let counts = Seq::new(states.len(), |k: int| states[k].flushed as nat);
    assert forall|k: int| 0 <= k < calls.len() implies counts[k] + (#[trigger] calls[k]).frames
        <= counts[k + 1] by {
        lemma_drain_stays::<T, B>(states, rooms, calls, outs, k + 1);
    }
    lemma_drain_stays::<T, B>(states, rooms, calls, outs, calls.len() as int);
    counted_calls_stay_within(calls, counts, states[0].settings.size as nat);
    assert forall|k: int| 0 <= k < calls.len() - 1 && (#[trigger] calls[k]).done implies calls[k
        + 1].frames == 0 && calls[k + 1].done by {
        lemma_drain_stays::<T, B>(states, rooms, calls, outs, k);
        lemma_drain_stays::<T, B>(states, rooms, calls, outs, k + 1);
        let next = calls[k + 1];
        assert(states[k + 1].drained_by(rooms[k + 1], next, &states[k + 2], outs[k + 1]));
    }
}

/// A drain is exactly the tail: calls with room for a frame or more deliver what is left of
/// it, no more and no less, by the time one says that it is done, and one says so after at
/// most as many calls as frames were left.
pub proof fn spectral_drains_exactly_its_tail<T: Sample, B: Transform<T::Real>>(
    states: Seq<SpectralFilter<T, B>>,
    rooms: Seq<usize>,
    calls: Seq<Produced>,
    outs: Seq<Seq<Seq<T>>>,
)
    requires
        states.len() == calls.len() + 1,
        forall|k: int|
            0 <= k < calls.len() ==> states[k].drained_by(
                rooms[k],
                #[trigger] calls[k],
                &states[k + 1],
                outs[k],
            ),
        states[0].flushed <= states[0].settings.size,
        forall|k: int| 0 <= k < calls.len() ==> #[trigger] rooms[k] >= 1,
        calls.len() >= 1,
        calls.len() >= states[0].settings.size - states[0].flushed || calls.last().done,
    ensures
        states[0].flushed + delivered(calls) == states[0].settings.size,
        calls.last().done,
{
    let counts = Seq::new(states.len(), |k: int| states[k].flushed as nat);
    assert forall|k: int| 0 <= k < calls.len() implies {
        &&& counts[k] + (#[trigger] calls[k]).frames == counts[k + 1]
        &&& counts[k + 1] <= states[0].settings.size
        &&& counts[k] < states[0].settings.size ==> calls[k].frames >= 1
        &&& calls[k].done == (counts[k + 1] == states[0].settings.size)
    } by {
        lemma_drain_stays::<T, B>(states, rooms, calls, outs, k);
        lemma_drain_stays::<T, B>(states, rooms, calls, outs, k + 1);
        assert(rooms[k] >= 1);
    }
    eager_calls_finish(calls, counts, states[0].settings.size as nat);
    let last = calls[calls.len() - 1];
    assert(last.done == (counts[calls.len() as int] == states[0].settings.size));
}

proof fn lemma_drain_stays<T: Sample, B: Transform<T::Real>>(
    states: Seq<SpectralFilter<T, B>>,
    rooms: Seq<usize>,
    calls: Seq<Produced>,
    outs: Seq<Seq<Seq<T>>>,
    k: int,
)
    requires
        states.len() == calls.len() + 1,
        forall|j: int|
            0 <= j < calls.len() ==> states[j].drained_by(
                rooms[j],
                #[trigger] calls[j],
                &states[j + 1],
                outs[j],
            ),
        states[0].flushed <= states[0].settings.size,
        0 <= k <= calls.len(),
    ensures
        states[k].settings == states[0].settings,
        states[k].flushed <= states[0].settings.size,
        k > 0 ==> states[k].flushed == states[k - 1].flushed + calls[k - 1].frames,
    decreases k,
{
    if k > 0 {
        lemma_drain_stays::<T, B>(states, rooms, calls, outs, k - 1);
        let call = calls[k - 1];
        assert(states[k - 1].drained_by(rooms[k - 1], call, &states[k], outs[k - 1]));
    }
}

/// A filter that was reset takes in a signal as one that was just prepared does:
/// equal input gives equal output.
pub proof fn spectral_reset_restores<T: Sample, B: Transform<T::Real>>(
    fresh: SpectralFilter<T, B>,
    reset: SpectralFilter<T, B>,
    x: BlockView<T>,
    after_fresh: SpectralFilter<T, B>,
    after_reset: SpectralFilter<T, B>,
    a: Seq<Seq<T>>,
    b: Seq<Seq<T>>,
)
    requires
        fresh.at_rest(),
        reset.at_rest(),
        fresh.same_setup(&reset),
        fresh.processed(x, &after_fresh, a),
        reset.processed(x, &after_reset, b),
    ensures
        forall|ch: int, i: int|
            0 <= ch < fresh.lanes@.len() && 0 <= i < x.frames ==> #[trigger] a[ch][i] == b[ch][i],
        forall|ch: int|
            0 <= ch < fresh.lanes@.len() ==> #[trigger] after_fresh.lane(ch) == after_reset.lane(
                ch,
            ),
{
    assert forall|ch: int, i: int|
        0 <= ch < fresh.lanes@.len() && 0 <= i < x.frames implies #[trigger] a[ch][i]
        == b[ch][i] by {
        assert(fresh.lane(ch) == reset.lane(ch));
        assert(after_fresh.lane(ch) == after_fresh.lane(ch));
        assert(after_reset.lane(ch) == after_reset.lane(ch));
    }
    assert forall|ch: int| 0 <= ch < fresh.lanes@.len() implies #[trigger] after_fresh.lane(ch)
        == after_reset.lane(ch) by {
        assert(fresh.lane(ch) == reset.lane(ch));
    }
}

/// What the filter answers about itself stays as `prepare` left it.
pub proof fn spectral_answers_stand<T: Sample, B: Transform<T::Real>>()
    ensures
        processor_answers_stand::<T, SpectralFilter<T, B>>(),
{
}

} // verus!
