//! The mean energy over a sliding window.

use crate::dsp::memory::{filled, refill};
use crate::dsp::sanitize::{finite_or_zero, sane};
use crate::dsp::summing::{compensated, compensated_add, total};
use crate::number::{larger, max_of, nil, Real};
use vstd::prelude::*;

verus! {

/// A window of energies with their compensated running sum.
///
/// The sum is taken afresh once per turn of the ring, which bounds numerical
/// drift on a schedule that does not depend on block sizes.
#[derive(Clone, Debug)]
pub struct RollingEnergy<R> {
    pub ring: Vec<R>,
    pub pos: usize,
    pub len: usize,
    pub sum: R,
    pub compensation: R,
    pub updates_since_recompute: usize,
}

/// A window as contracts speak of it.
#[verifier::ext_equal]
pub struct RollingModel<R> {
    pub ring: Seq<R>,
    pub pos: int,
    /// Places filled so far.
    pub len: int,
    pub sum: R,
    pub compensation: R,
    /// Energies taken in since the sum was last taken afresh.
    pub updates: int,
}

/// The sum with `value` added.
pub open spec fn summed<R: Real>(m: RollingModel<R>, value: R) -> RollingModel<R> {
    RollingModel {
        sum: m.sum.sum(value),
        compensation: compensated(m.sum, m.compensation, value),
        ..m
    }
}

/// The window with `energy` written over its oldest place, its sum kept current.
pub open spec fn written<R: Real>(m: RollingModel<R>, energy: R) -> RollingModel<R> {
    let e = larger(sane(energy), nil());
    let grown = summed(RollingModel { ring: m.ring.update(m.pos, e), ..m }, e);
    if m.len < m.ring.len() {
        RollingModel { len: m.len + 1, ..grown }
    } else {
        summed(grown, m.ring[m.pos].opposite())
    }
}

/// The window after `energy`.
pub open spec fn rolled<R: Real>(m: RollingModel<R>, energy: R) -> RollingModel<R> {
    let w = written(m, energy);
    let moved = RollingModel {
        pos: if m.pos + 1 == m.ring.len() {
            0
        } else {
            m.pos + 1
        },
        updates: m.updates + 1,
        ..w
    };
    if m.updates + 1 >= m.ring.len() {
        RollingModel {
            sum: total(moved.ring, moved.len as nat),
            compensation: nil(),
            updates: 0,
            ..moved
        }
    } else {
        moved
    }
}

/// The window with nothing in it.
pub open spec fn emptied<R: Real>(m: RollingModel<R>) -> RollingModel<R> {
    RollingModel {
        ring: Seq::new(m.ring.len(), |i: int| nil::<R>()),
        pos: 0,
        len: 0,
        sum: nil(),
        compensation: nil(),
        updates: 0,
    }
}

/// The running sum with its correction, at least zero.
pub open spec fn corrected<R: Real>(m: RollingModel<R>) -> R {
    larger(sane(m.sum.sum(m.compensation)), nil())
}

/// The mean over the places filled, if there are any.
pub open spec fn mean_energy<R: Real>(m: RollingModel<R>) -> Option<R> {
    if m.len == 0 {
        None
    } else {
        Some(corrected(m).quot(R::natural(m.len as u64)))
    }
}

/// The mean over the whole window, once it is full.
pub open spec fn full_mean<R: Real>(m: RollingModel<R>) -> Option<R> {
    if m.len == m.ring.len() {
        mean_energy(m)
    } else {
        None
    }
}

impl<R: Real> RollingEnergy<R> {
    pub open spec fn model(&self) -> RollingModel<R> {
        RollingModel {
            ring: self.ring@,
            pos: self.pos as int,
            len: self.len as int,
            sum: self.sum,
            compensation: self.compensation,
            updates: self.updates_since_recompute as int,
        }
    }

    /// A window without places, or one with its cursor inside.
    pub open spec fn wf(&self) -> bool {
        &&& self.len <= self.ring@.len()
        &&& self.ring@.len() > 0 ==> self.pos < self.ring@.len() && self.updates_since_recompute
            < self.ring@.len()
    }

    /// A window without places.
    pub fn empty() -> (r: Self)
        ensures
            r.wf(),
            r.ring@.len() == 0,
            r.model() == emptied(r.model()),
    {
        let zero = R::zero();
        let r = RollingEnergy {
            ring: Vec::new(),
            pos: 0,
            len: 0,
            sum: zero,
            compensation: zero,
            updates_since_recompute: 0,
        };
        assert(r.model() =~= emptied(r.model()));
        r
    }

    /// A window of `frames` places, at least one.
    pub fn new(frames: usize) -> (r: Self)
        ensures
            r.wf(),
            r.ring@.len() == (if frames == 0 {
                1
            } else {
                frames as nat
            }),
            r.model() == emptied(r.model()),
    {
        let zero = R::zero();
        let places: usize = if frames == 0 {
            1
        } else {
            frames
        };
        let r = RollingEnergy {
            ring: filled(zero, places),
            pos: 0,
            len: 0,
            sum: zero,
            compensation: zero,
            updates_since_recompute: 0,
        };
        assert(r.model() =~= emptied(r.model()));
        r
    }

    /// Forget every energy.
    pub fn reset(&mut self)
        requires
            old(self).wf(),
        ensures
            final(self).wf(),
            final(self).model() == emptied(old(self).model()),
    {
        let zero = R::zero();
        refill(&mut self.ring, zero);
        self.pos = 0;
        self.len = 0;
        self.sum = zero;
        self.compensation = zero;
        self.updates_since_recompute = 0;
        assert(self.model() =~= emptied(old(self).model()));
    }

    /// Take in one energy.
    pub fn push(&mut self, energy: R)
        requires
            old(self).wf(),
            old(self).ring@.len() > 0,
        ensures
            final(self).wf(),
            final(self).model() == rolled(old(self).model(), energy),
            final(self).ring@.len() == old(self).ring@.len(),
    {
        let energy = max_of(finite_or_zero(energy), R::zero());
        let n: usize = self.ring.len();
        if self.len < n {
            self.ring.set(self.pos, energy);
            self.add_to_sum(energy);
            self.len = self.len + 1;
        } else {
            let oldest = self.ring[self.pos];
            self.ring.set(self.pos, energy);
            self.add_to_sum(energy);
            self.add_to_sum(oldest.neg());
        }
        self.pos = if n - self.pos == 1 {
            0
        } else {
            self.pos + 1
        };
        self.updates_since_recompute = self.updates_since_recompute + 1;
        if self.updates_since_recompute >= n {
            self.recompute_sum();
        }
    }

    /// The mean over the places filled, if there are any.
    pub fn average(&self) -> (r: Option<R>)
        ensures
            r == mean_energy(self.model()),
    {
        if self.len == 0 {
            None
        } else {
            Some(self.corrected_sum().over(R::from_u64(self.len as u64)))
        }
    }

    /// The mean over the whole window, once it is full.
    pub fn full_average(&self) -> (r: Option<R>)
        ensures
            r == full_mean(self.model()),
    {
        if self.len == self.ring.len() {
            self.average()
        } else {
            None
        }
    }

    /// Add `value` to the running sum.
    pub fn add_to_sum(&mut self, value: R)
        ensures
            *final(self) == (RollingEnergy {
                sum: final(self).sum,
                compensation: final(self).compensation,
                ..*old(self)
            }),
            final(self).model() == summed(old(self).model(), value),
    {
        compensated_add(&mut self.sum, &mut self.compensation, value);
    }

    /// The running sum with its correction, at least zero.
    pub fn corrected_sum(&self) -> (r: R)
        ensures
            r == corrected(self.model()),
    {
        max_of(finite_or_zero(self.sum.plus(self.compensation)), R::zero())
    }

    fn recompute_sum(&mut self)
        requires
            old(self).len <= old(self).ring@.len(),
        ensures
            *final(self) == (RollingEnergy {
                sum: total(old(self).ring@, old(self).len as nat),
                compensation: nil::<R>(),
                updates_since_recompute: 0,
                ..*old(self)
            }),
    {
        let mut acc = R::zero();
        let mut i: usize = 0;
        while i < self.len
            invariant
                0 <= i <= self.len,
                self.len <= self.ring@.len(),
                *self == *old(self),
                acc == total(self.ring@, i as nat),
            decreases self.len - i,
        {
            acc = acc.plus(self.ring[i]);
            i += 1;
        }
        self.sum = acc;
        self.compensation = R::zero();
        self.updates_since_recompute = 0;
    }
}

} // verus!
