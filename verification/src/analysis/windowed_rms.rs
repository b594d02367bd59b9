//! Sliding-window root-mean-square meter.

use crate::analysis::fold::joined_blocks;
use crate::analysis::geometry::{meter_contract, meter_fits, PreparedMeterContract};
use crate::contract::block::{frames_of, rectangular, AudioBlock};
use crate::contract::error::DspError;
use crate::contract::spec::ProcessSpec;
use crate::contract::traits::{meter_answers_stand, Measurer};
use crate::dsp::delay::{lemma_place_next, place, place_of};
use crate::dsp::memory::{
    bytes_of, empty_plan, filled_rows, refill_rows, saturated, saturation_is_final, scaled,
    MemoryLayout,
};
use crate::dsp::sanitize::{finite_or_zero, sane};
use crate::dsp::summing::{total, total_of};
use crate::number::{nil, Real, Sample};
use vstd::layout::size_of;
use vstd::arithmetic::div_mod::lemma_mod_bound;
use vstd::prelude::*;

verus! {

/// Construction settings for [`WindowedRmsMeter`].
#[derive(Clone, Copy, Debug, PartialEq, Eq, Structural)]
pub struct WindowedRmsMeterSettings {
    /// Sliding-window length in frames. `prepare` requires a nonzero value.
    pub window_frames: usize,
}

impl Default for WindowedRmsMeterSettings {
    fn default() -> (r: Self)
        ensures
            r.window_frames == 512,
    {
        Self { window_frames: 512 }
    }
}

impl WindowedRmsMeterSettings {
    /// Default windowed-RMS settings.
    pub fn new() -> (r: Self)
        ensures
            r.window_frames == 512,
    {
        Self::default()
    }

    /// Set the sliding-window length in frames.
    pub fn window_frames(self, window_frames: usize) -> (r: Self)
        ensures
            r.window_frames == window_frames,
    {
        Self { window_frames }
    }
}

/// Sliding-window RMS meter over the most recent `window` frames.
///
/// Each channel stores a ring of the last squared samples. Reading sums the
/// rings in a fixed order.
#[derive(Clone, Debug)]
pub struct WindowedRmsMeter<T: Sample> {
    pub window: usize,
    /// Per channel, the last `window` squared samples.
    pub rings: Vec<Vec<T::Real>>,
    /// Shared write position.
    pub pos: usize,
    /// Frames seen so far, at most `window`.
    pub filled: usize,
    pub prepared: Option<PreparedMeterContract>,
}

/// The state of a windowed RMS meter.
#[verifier::ext_equal]
pub struct WindowedModel<R> {
    pub window: usize,
    pub rings: Seq<Seq<R>>,
    pub pos: usize,
    pub filled: usize,
}

/// A ring after the first `n` samples of a run, which starts at place `start`.
pub open spec fn ring_after<T: Sample>(
    ring: Seq<T::Real>,
    start: usize,
    xs: Seq<T>,
    n: nat,
) -> Seq<T::Real>
    decreases n,
{
    if n == 0 {
        ring
    } else {
        ring_after::<T>(ring, start, xs, (n - 1) as nat).update(
            place(ring.len() as usize, start, n - 1),
            sane(xs[n - 1].value()).prod(sane(xs[n - 1].value())),
        )
    }
}

/// The sums of the first `n` rings, added in order.
pub open spec fn rings_total<R: Real>(rings: Seq<Seq<R>>, n: nat) -> R
    decreases n,
{
    if n == 0 {
        nil()
    } else {
        rings_total(rings, (n - 1) as nat).sum(total(rings[n - 1], rings[n - 1].len()))
    }
}

proof fn lemma_ring_len<T: Sample>(ring: Seq<T::Real>, start: usize, xs: Seq<T>, n: nat)
    requires
        start < ring.len() <= usize::MAX,
    ensures
        ring_after::<T>(ring, start, xs, n).len() == ring.len(),
    decreases n,
{
    if n > 0 {
        lemma_ring_len::<T>(ring, start, xs, (n - 1) as nat);
        lemma_place_next(ring.len() as usize, start, n - 1);
    }
}

/// A place reached in two parts is the place reached at once.
proof fn lemma_place_adds(len: usize, start: usize, a: int, b: int)
    requires
        start < len,
        0 <= a,
        0 <= b,
    ensures
        place(len, place(len, start, a) as usize, b) == place(len, start, a + b),
{
    lemma_place_next(len, start, a);
    vstd::arithmetic::div_mod::lemma_add_mod_noop_right(b, start + a, len as int);
}

proof fn lemma_ring_joins<T: Sample>(
    ring: Seq<T::Real>,
    start: usize,
    xs: Seq<T>,
    ys: Seq<T>,
    n: nat,
)
    requires
        start < ring.len(),
        ring.len() <= usize::MAX,
        n <= ys.len(),
    ensures
        ring_after::<T>(ring, start, xs + ys, xs.len() + n) == ring_after::<T>(
            ring_after::<T>(ring, start, xs, xs.len()),
            place(ring.len() as usize, start, xs.len() as int) as usize,
            ys,
            n,
        ),
    decreases n,
{
    lemma_ring_len::<T>(ring, start, xs, xs.len());
    lemma_place_next(ring.len() as usize, start, xs.len() as int);
    if n == 0 {
        lemma_ring_prefix::<T>(ring, start, xs, ys, xs.len());
    } else {
        lemma_ring_joins::<T>(ring, start, xs, ys, (n - 1) as nat);
        assert((xs + ys)[xs.len() + n - 1] == ys[n - 1]);
        lemma_place_adds(ring.len() as usize, start, xs.len() as int, n - 1);
    }
}

proof fn lemma_ring_prefix<T: Sample>(
    ring: Seq<T::Real>,
    start: usize,
    xs: Seq<T>,
    ys: Seq<T>,
    n: nat,
)
    requires
        n <= xs.len(),
    ensures
        ring_after::<T>(ring, start, xs + ys, n) == ring_after::<T>(ring, start, xs, n),
    decreases n,
{
    if n > 0 {
        lemma_ring_prefix::<T>(ring, start, xs, ys, (n - 1) as nat);
        assert((xs + ys)[n - 1] == xs[n - 1]);
    }
}

/// How a signal is divided into blocks does not show in the window.
pub proof fn windowed_blocks_join<T: Sample>(
    m: WindowedModel<T::Real>,
    x: Seq<Seq<T>>,
    y: Seq<Seq<T>>,
)
    requires
        m.pos < m.window,
        m.filled <= m.window,
        m.rings.len() > 0,
        rectangular(m.rings, m.window as nat),
        x.len() == m.rings.len(),
        y.len() == m.rings.len(),
        rectangular(x, frames_of(x)),
        rectangular(y, frames_of(y)),
    ensures
        <WindowedRmsMeter<T> as Measurer<T>>::observed(
            <WindowedRmsMeter<T> as Measurer<T>>::observed(m, x),
            y,
        ) == <WindowedRmsMeter<T> as Measurer<T>>::observed(m, joined_blocks(x, y)),
{
    let z = joined_blocks(x, y);
    let mid = <WindowedRmsMeter<T> as Measurer<T>>::observed(m, x);
    let two = <WindowedRmsMeter<T> as Measurer<T>>::observed(mid, y);
    let one = <WindowedRmsMeter<T> as Measurer<T>>::observed(m, z);
    assert(z[0] == x[0] + y[0]);
    lemma_place_adds(m.window, m.pos, frames_of(x) as int, frames_of(y) as int);
    assert forall|c: int| 0 <= c < m.rings.len() implies two.rings[c] == one.rings[c] by {
        assert(m.rings[c].len() == m.window);
        assert(x[c].len() == frames_of(x) && y[c].len() == frames_of(y));
        lemma_ring_joins::<T>(m.rings[c], m.pos, x[c], y[c], y[c].len());
        assert(z[c] == x[c] + y[c]);
    }
    assert(two.rings =~= one.rings);
}

impl<T: Sample> WindowedRmsMeter<T> {
    /// A windowed RMS configured from `settings`.
    pub fn with_settings(settings: WindowedRmsMeterSettings) -> (r: Self)
        ensures
            r.window == settings.window_frames,
            r.rings@.len() == 0,
            r.pos == 0,
            r.filled == 0,
            r.prepared is None,
            <Self as Measurer<T>>::inv(&r),
    {
        Self {
            window: settings.window_frames,
            rings: Vec::new(),
            pos: 0,
            filled: 0,
            prepared: None,
        }
    }

    /// A windowed RMS over the most recent 512 frames.
    pub fn new() -> (r: Self)
        ensures
            r.window == 512,
            r.rings@.len() == 0,
            r.pos == 0,
            r.filled == 0,
            r.prepared is None,
            <Self as Measurer<T>>::inv(&r),
    {
        Self::with_settings(WindowedRmsMeterSettings::default())
    }

    /// Write one channel of a block into its ring.
    fn write_ring(&mut self, ch: usize, xs: &[T])
        requires
            ch < old(self).rings@.len(),
            old(self).rings@[ch as int]@.len() == old(self).window,
            old(self).pos < old(self).window,
        ensures
            *final(self) == (WindowedRmsMeter { rings: final(self).rings, ..*old(self) }),
            final(self).rings@.len() == old(self).rings@.len(),
            forall|c: int|
                0 <= c < old(self).rings@.len() && c != ch ==> #[trigger] final(self).rings@[c]
                    == old(self).rings@[c],
            final(self).rings@[ch as int]@ == ring_after::<T>(
                old(self).rings@[ch as int]@,
                old(self).pos,
                xs@,
                xs@.len(),
            ),
    {
        let window: usize = self.window;
        let start: usize = self.pos;
        let ghost ring0 = self.rings@[ch as int]@;
        let n: usize = xs.len();
        let mut p: usize = start;
        let mut i: usize = 0;
        proof {
            lemma_place_next(window, start, 0);
        }
        while i < n
            invariant
                0 <= i <= n,
                n == xs@.len(),
                start < window,
                start == old(self).pos,
                window == old(self).window,
                ch < self.rings@.len(),
                ring0 == old(self).rings@[ch as int]@,
                ring0.len() == window,
                p == place(window, start, i as int),
                p < window,
                *self == (WindowedRmsMeter { rings: self.rings, ..*old(self) }),
                self.rings@.len() == old(self).rings@.len(),
                forall|c: int|
                    0 <= c < old(self).rings@.len() && c != ch ==> #[trigger] self.rings@[c]
                        == old(self).rings@[c],
                self.rings@[ch as int]@ == ring_after::<T>(ring0, start, xs@, i as nat),
                self.rings@[ch as int]@.len() == window,
            decreases n - i,
        {
            let v = finite_or_zero(xs[i].to_real());
            self.rings[ch].set(p, v.times(v));
            proof {
                lemma_place_next(window, start, i as int);
            }
            p = if window - p == 1 {
                0
            } else {
                p + 1
            };
            i += 1;
        }
    }
}

impl<T: Sample> Default for WindowedRmsMeter<T> {
    fn default() -> (r: Self)
        ensures
            r.window == 512,
            r.rings@.len() == 0,
            r.pos == 0,
            r.filled == 0,
            r.prepared is None,
            <Self as Measurer<T>>::inv(&r),
    {
        Self::new()
    }
}

/// A reset undoes observing: whatever was taken in, the meter is back where clearing it
/// before would have left it.
pub proof fn windowed_reset_restores<T: Sample>(m: WindowedModel<T::Real>, x: Seq<Seq<T>>)
    requires
        m.window > 0,
        forall|c: int| 0 <= c < m.rings.len() ==> (#[trigger] m.rings[c]).len() == m.window,
    ensures
        <WindowedRmsMeter<T> as Measurer<T>>::cleared(<WindowedRmsMeter<T> as Measurer<T>>::observed(m, x))
            == <WindowedRmsMeter<T> as Measurer<T>>::cleared(m),
{
    let seen = <WindowedRmsMeter<T> as Measurer<T>>::observed(m, x);
    let (a, b) = (
        <WindowedRmsMeter<T> as Measurer<T>>::cleared(seen).rings,
        <WindowedRmsMeter<T> as Measurer<T>>::cleared(m).rings,
    );
    assert forall|c: int| 0 <= c < b.len() implies a[c] == b[c] by {
        assert(m.rings[c].len() == m.window);
        lemma_ring_keeps_its_length::<T>(m.rings[c], m.pos, x[c], x[c].len());
        assert(a[c] =~= b[c]);
    }
    assert(a =~= b);
}

proof fn lemma_ring_keeps_its_length<T: Sample>(
    ring: Seq<T::Real>,
    start: usize,
    xs: Seq<T>,
    n: nat,
)
    requires
        0 < ring.len() <= usize::MAX,
    ensures
        ring_after::<T>(ring, start, xs, n).len() == ring.len(),
    decreases n,
{
    if n > 0 {
        lemma_ring_keeps_its_length::<T>(ring, start, xs, (n - 1) as nat);
        lemma_mod_bound(start + n - 1, ring.len() as int);
    }
}

impl<T: Sample> Measurer<T> for WindowedRmsMeter<T> {
    type Reading = T::Real;

    type Model = WindowedModel<T::Real>;

    open spec fn model(&self) -> WindowedModel<T::Real> {
        WindowedModel {
            window: self.window,
            rings: Seq::new(self.rings@.len(), |c: int| self.rings@[c]@),
            pos: self.pos,
            filled: self.filled,
        }
    }

    open spec fn observed(m: WindowedModel<T::Real>, x: Seq<Seq<T>>) -> WindowedModel<T::Real> {
        WindowedModel {
            window: m.window,
            rings: Seq::new(
                m.rings.len(),
                |c: int| ring_after::<T>(m.rings[c], m.pos, x[c], x[c].len()),
            ),
            pos: place(m.window, m.pos, frames_of(x) as int) as usize,
            filled: if m.filled + frames_of(x) >= m.window {
                m.window
            } else {
                (m.filled + frames_of(x)) as usize
            },
        }
    }

    open spec fn cleared(m: WindowedModel<T::Real>) -> WindowedModel<T::Real> {
        WindowedModel {
            window: m.window,
            rings: Seq::new(
                m.rings.len(),
                |c: int| Seq::new(m.rings[c].len(), |i: int| nil::<T::Real>()),
            ),
            pos: 0,
            filled: 0,
        }
    }

    open spec fn reading(m: WindowedModel<T::Real>) -> T::Real {
        if m.filled == 0 || m.rings.len() == 0 {
            nil()
        } else {
            rings_total(m.rings, m.rings.len()).quot(
                T::Real::natural(saturated(m.rings.len() * m.filled as nat) as u64),
            ).root()
        }
    }

    open spec fn outcome(&self, spec: ProcessSpec) -> Result<(), DspError> {
        if self.window == 0 {
            Err(DspError::InvalidParam("windowed RMS window must be nonzero"))
        } else {
            empty_plan().arrays(
                spec.channels as nat,
                self.window as nat,
                size_of::<T::Real>(),
            ).verdict(spec.max_memory)
        }
    }

    open spec fn standing(&self) -> (usize, usize) {
        (0, saturated(self.rings@.len() * (self.window as nat) * size_of::<T::Real>()))
    }

    open spec fn admits(&self, channels: nat, frames: nat) -> bool {
        meter_fits(self.prepared, channels, frames)
    }

    open spec fn inv(&self) -> bool {
        &&& self.filled <= self.window
        &&& forall|c: int|
            0 <= c < self.rings@.len() ==> (#[trigger] self.rings@[c])@.len() == self.window
        &&& self.prepared matches Some(p) ==> self.rings@.len() == p.channels && self.pos
            < self.window
    }

    fn prepare(&mut self, spec: ProcessSpec) -> (r: Result<(), DspError>)
        ensures
            final(self).window == old(self).window,
            r is Ok ==> final(self).rings@.len() == spec.channels,
            r is Ok ==> final(self).prepared == Some(meter_contract(spec)),
            r is Ok && spec.max_memory is Some ==> final(self).standing().1
                <= spec.max_memory->0,
            r is Err ==> *final(self) == (WindowedRmsMeter { prepared: None, ..*old(self) }),
    {
        self.prepared = None;
        if self.window == 0 {
            return Err(DspError::InvalidParam("windowed RMS window must be nonzero"));
        }
        match MemoryLayout::new().repeated_array::<T::Real>(
            spec.channels,
            self.window,
        ).preflight(spec.max_memory) {
            Err(e) => {
                return Err(e);
            },
            Ok(_) => {},
        }
        self.rings = filled_rows(T::Real::zero(), self.window, spec.channels);
        self.pos = 0;
        self.filled = 0;
        self.prepared = Some(PreparedMeterContract::new(spec));
        proof {
            let m = self.model();
            let c = <Self as Measurer<T>>::cleared(m);
            assert forall|i: int| 0 <= i < m.rings.len() implies m.rings[i] == c.rings[i] by {
                assert(self.rings@[i]@ == Seq::new(self.window as nat, |j: int| nil::<T::Real>()));
                assert(m.rings[i] =~= c.rings[i]);
            }
            assert(m.rings =~= c.rings);
        }
        proof {
            let (n, w, size) = (spec.channels as nat, self.window as nat, size_of::<T::Real>());
            assert((w * size) * n == n * w * size) by (nonlinear_arith);
            assert(n == 0 ==> n * w * size == 0) by (nonlinear_arith);
        }
        Ok(())
    }

    fn reset(&mut self)
        ensures
            final(self).window == old(self).window,
            final(self).prepared == old(self).prepared,
    {
        refill_rows(&mut self.rings, T::Real::zero());
        self.pos = 0;
        self.filled = 0;
        proof {
            let m = self.model();
            let c = <Self as Measurer<T>>::cleared(old(self).model());
            assert forall|i: int| 0 <= i < m.rings.len() implies m.rings[i] == c.rings[i] by {
                assert(self.rings@[i]@ == Seq::new(
                    old(self).rings@[i]@.len(),
                    |j: int| nil::<T::Real>(),
                ));
                assert(m.rings[i] =~= c.rings[i]);
            }
            assert(m.rings =~= c.rings);
            assert forall|i: int| 0 <= i < self.rings@.len() implies (
            #[trigger] self.rings@[i])@.len() == self.window by {
                assert(old(self).rings@[i]@.len() == self.window);
            }
        }
    }

    fn memory_footprint(&self) -> (r: usize)
        ensures
            r == saturated(self.rings@.len() * (self.window as nat) * size_of::<T::Real>()),
    {
        proof {
            saturation_is_final(self.rings@.len() * (self.window as nat), size_of::<T::Real>());
        }
        bytes_of::<T::Real>(scaled(self.rings.len(), self.window))
    }

    fn observe(&mut self, block: AudioBlock<'_, '_, T>)
        ensures
            final(self).window == old(self).window,
            final(self).prepared == old(self).prepared,
    {
        let n: usize = block.channels();
        let frames: usize = block.frames();
        let ghost x = block.samples();
        // Each channel walks its ring from the same start position.
        let mut ch: usize = 0;
        while ch < n
            invariant
                0 <= ch <= n,
                n == x.len(),
                x == block.samples(),
                n == self.rings@.len(),
                n == old(self).rings@.len(),
                self.pos < self.window,
                *self == (WindowedRmsMeter { rings: self.rings, ..*old(self) }),
                forall|c: int|
                    0 <= c < n ==> (#[trigger] self.rings@[c])@.len() == self.window,
                forall|c: int|
                    0 <= c < ch ==> (#[trigger] self.rings@[c])@ == ring_after::<T>(
                        old(self).rings@[c]@,
                        old(self).pos,
                        x[c],
                        x[c].len(),
                    ),
                forall|c: int| ch <= c < n ==> #[trigger] self.rings@[c] == old(self).rings@[c],
            decreases n - ch,
        {
            let ghost before = self.rings@;
            self.write_ring(ch, block.channel(ch));
            proof {
                lemma_ring_len::<T>(
                    before[ch as int]@,
                    old(self).pos,
                    x[ch as int],
                    x[ch as int].len(),
                );
            }
            ch += 1;
        }
        self.pos = place_of(self.window, self.pos, frames);
        self.filled = if frames >= self.window - self.filled {
            self.window
        } else {
            self.filled + frames
        };
        proof {
            assert(self.model().rings =~= <Self as Measurer<T>>::observed(
                old(self).model(),
                x,
            ).rings);
        }
    }

    fn read(&self) -> (r: T::Real) {
        if self.filled == 0 || self.rings.len() == 0 {
            return T::Real::zero();
        }
        let n: usize = self.rings.len();
        let mut acc = T::Real::zero();
        let mut ch: usize = 0;
        while ch < n
            invariant
                0 <= ch <= n,
                n == self.rings@.len(),
                acc == rings_total(self.model().rings, ch as nat),
            decreases n - ch,
        {
            acc = acc.plus(total_of(self.rings[ch].as_slice()));
            ch += 1;
        }
        acc.over(T::Real::from_u64(scaled(n, self.filled) as u64)).sqrt()
    }
}

/// What the meter answers about itself stays as `prepare` left it.
pub proof fn windowed_answers_stand<T: Sample>()
    ensures
        meter_answers_stand::<T, WindowedRmsMeter<T>>(),
{
}

} // verus!
