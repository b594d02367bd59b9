//! Whether a processor shows how its stream is cut into blocks, and whether a
//! reset restores it.

use crate::contract::error::DspError;
use crate::contract::param::ParamEvent;
use crate::contract::traits::Processor;
use crate::number::Sample;
use crate::testing::harness::Contract;
use crate::testing::replay::{direct, frame_count, prepared, replayable, takes_blocks};
use vstd::prelude::*;

verus! {

/// The block that takes a stream of `frames` frames whole.
pub open spec fn whole_block(frames: nat) -> usize {
    if frames == 0 {
        1
    } else {
        frames as usize
    }
}

impl Contract {
    /// Some fresh run of `input` in blocks of `block` frames gives `out`.
    pub open spec fn gives<T: Sample, P: Processor<T>, F: Fn() -> P>(
        &self,
        make: F,
        input: &[Vec<T>],
        events: &[ParamEvent<T::Real>],
        block: usize,
        out: Vec<Vec<T>>,
    ) -> bool {
        call_ensures(Contract::run::<T, P, F>, (self, make, input, events, block), Ok(out))
    }

    /// A fresh run of `input` in blocks of the size at `i` may give what `same` takes
    /// for `whole`.
    pub open spec fn agrees_in<
        T: Sample,
        P: Processor<T>,
        F: Fn() -> P,
        E: Fn(&Vec<Vec<T>>, &Vec<Vec<T>>) -> bool,
    >(
        &self,
        make: F,
        input: &[Vec<T>],
        events: &[ParamEvent<T::Real>],
        same: E,
        whole: Vec<Vec<T>>,
        i: int,
    ) -> bool {
        exists|out: Vec<Vec<T>>|
            self.gives::<T, P, F>(make, input, events, self.block_sizes@[i], out)
                && #[trigger] call_ensures(same, (&out, &whole), true)
    }

    /// The first configured block size under which a fresh run of `input` differs, as
    /// `same` tells, from one in a single block.
    pub fn diverging_block<
        T: Sample,
        P: Processor<T>,
        F: Fn() -> P + Copy,
        E: Fn(&Vec<Vec<T>>, &Vec<Vec<T>>) -> bool,
    >(
        &self,
        make: F,
        input: &[Vec<T>],
        events: &[ParamEvent<T::Real>],
        same: E,
    ) -> (r: Result<Option<usize>, DspError>)
        requires
            forall|i: int|
                0 <= i < self.block_sizes@.len() ==> #[trigger] self.block_sizes@[i] >= 1,
            replayable(direct(input@, events@)),
            call_requires(make, ()),
            forall|p: P| #[trigger] call_ensures(make, (), p) ==> p.inv(),
            forall|q: &mut P| #[trigger]
                call_ensures(P::prepare, (q, self.spec), Ok(())) ==> takes_blocks(
                    *final(q),
                    direct(input@, events@),
                    direct(input@, events@).frames as int,
                ),
            forall|a: &Vec<Vec<T>>, b: &Vec<Vec<T>>| #[trigger] call_requires(same, (a, b)),
        ensures
            r matches Ok(None) ==> exists|whole: Vec<Vec<T>>| #[trigger]
                self.gives::<T, P, F>(
                    make,
                    input,
                    events,
                    whole_block(direct(input@, events@).frames),
                    whole,
                ) && forall|i: int|
                    0 <= i < self.block_sizes@.len() ==> #[trigger] self.agrees_in::<T, P, F, E>(
                        make,
                        input,
                    events,
                        same,
                        whole,
                        i,
                    ),
            r matches Ok(Some(b)) ==> exists|whole: Vec<Vec<T>>, k: int, out: Vec<Vec<T>>|
                0 <= k < self.block_sizes@.len() && self.block_sizes@[k] == b
                    && #[trigger] self.gives::<T, P, F>(
                    make,
                    input,
                    events,
                    whole_block(direct(input@, events@).frames),
                    whole,
                ) && #[trigger] self.gives::<T, P, F>(
                    make,
                    input,
                    events,
                    self.block_sizes@[k],
                    out,
                ) && call_ensures(same, (&out, &whole), false) && forall|i: int|
                    0 <= i < k ==> #[trigger] self.agrees_in::<T, P, F, E>(
                        make,
                        input,
                    events,
                        same,
                        whole,
                        i,
                    ),
            r matches Err(e) ==> exists|q: &mut P|
                call_ensures(make, (), *q) && #[trigger] call_ensures(
                    P::prepare,
                    (q, self.spec),
                    Err(e),
                ),
    {
        let frames: usize = frame_count(input);
        let block: usize = if frames == 0 {
            1
        } else {
            frames
        };
        let whole = match self.run(make, input, events, block) {
            Ok(whole) => whole,
            Err(e) => {
                return Err(e);
            },
        };
        let mut k: usize = 0;
        while k < self.block_sizes.len()
            invariant
                0 <= k <= self.block_sizes@.len(),
                block == whole_block(direct(input@, events@).frames),
                forall|i: int|
                    0 <= i < self.block_sizes@.len() ==> #[trigger] self.block_sizes@[i] >= 1,
                replayable(direct(input@, events@)),
                call_requires(make, ()),
                forall|p: P| #[trigger] call_ensures(make, (), p) ==> p.inv(),
                forall|q: &mut P| #[trigger]
                    call_ensures(P::prepare, (q, self.spec), Ok(())) ==> takes_blocks(
                        *final(q),
                        direct(input@, events@),
                        direct(input@, events@).frames as int,
                    ),
                forall|a: &Vec<Vec<T>>, b: &Vec<Vec<T>>| #[trigger] call_requires(same, (a, b)),
                self.gives::<T, P, F>(make, input, events, block, whole),
                forall|i: int|
                    0 <= i < k ==> #[trigger] self.agrees_in::<T, P, F, E>(
                        make,
                        input,
                    events,
                        same,
                        whole,
                        i,
                    ),
            decreases self.block_sizes@.len() - k,
        {
            let out = match self.run(make, input, events, self.block_sizes[k]) {
                Ok(out) => out,
                Err(e) => {
                    return Err(e);
                },
            };
            assert(self.gives::<T, P, F>(make, input, events, self.block_sizes@[k as int], out));
            if !same(&out, &whole) {
                return Ok(Some(self.block_sizes[k]));
            }
            k += 1;
        }
        Ok(None)
    }

    /// Some fresh source that writes blocks of `block` frames gives `out`.
    pub open spec fn generates<T: Sample, P: Processor<T>, F: Fn() -> P>(
        &self,
        make: F,
        frames: usize,
        events: &[ParamEvent<T::Real>],
        block: usize,
        out: Vec<Vec<T>>,
    ) -> bool {
        call_ensures(Contract::generate::<T, P, F>, (self, make, frames, events, block), Ok(out))
    }

    /// A fresh source that writes blocks of the size at `i` may give what `same` takes
    /// for `whole`.
    pub open spec fn agrees_out<
        T: Sample,
        P: Processor<T>,
        F: Fn() -> P,
        E: Fn(&Vec<Vec<T>>, &Vec<Vec<T>>) -> bool,
    >(
        &self,
        make: F,
        frames: usize,
        events: &[ParamEvent<T::Real>],
        same: E,
        whole: Vec<Vec<T>>,
        i: int,
    ) -> bool {
        exists|out: Vec<Vec<T>>|
            self.generates::<T, P, F>(make, frames, events, self.block_sizes@[i], out)
                && #[trigger] call_ensures(same, (&out, &whole), true)
    }

    /// The first configured block size under which a fresh source differs, as `same`
    /// tells, from one that writes a single block.
    pub fn diverging_generator_block<
        T: Sample,
        P: Processor<T>,
        F: Fn() -> P + Copy,
        E: Fn(&Vec<Vec<T>>, &Vec<Vec<T>>) -> bool,
    >(
        &self,
        make: F,
        frames: usize,
        events: &[ParamEvent<T::Real>],
        same: E,
    ) -> (r: Result<Option<usize>, DspError>)
        requires
            forall|i: int|
                0 <= i < self.block_sizes@.len() ==> #[trigger] self.block_sizes@[i] >= 1,
            replayable(self.drawn::<T>(frames, events@)),
            call_requires(make, ()),
            forall|p: P| #[trigger] call_ensures(make, (), p) ==> p.inv(),
            forall|q: &mut P| #[trigger]
                call_ensures(P::prepare, (q, self.spec), Ok(())) ==> takes_blocks(
                    *final(q),
                    self.drawn::<T>(frames, events@),
                    self.drawn::<T>(frames, events@).frames as int,
                ),
            forall|a: &Vec<Vec<T>>, b: &Vec<Vec<T>>| #[trigger] call_requires(same, (a, b)),
        ensures
            r matches Ok(None) ==> exists|whole: Vec<Vec<T>>| #[trigger]
                self.generates::<T, P, F>(
                    make,
                    frames,
                    events,
                    whole_block(self.drawn::<T>(frames, events@).frames),
                    whole,
                ) && forall|i: int|
                    0 <= i < self.block_sizes@.len() ==> #[trigger] self.agrees_out::<T, P, F, E>(
                        make,
                        frames,
                    events,
                        same,
                        whole,
                        i,
                    ),
            r matches Ok(Some(b)) ==> exists|whole: Vec<Vec<T>>, k: int, out: Vec<Vec<T>>|
                0 <= k < self.block_sizes@.len() && self.block_sizes@[k] == b
                    && #[trigger] self.generates::<T, P, F>(
                    make,
                    frames,
                    events,
                    whole_block(self.drawn::<T>(frames, events@).frames),
                    whole,
                ) && #[trigger] self.generates::<T, P, F>(
                    make,
                    frames,
                    events,
                    self.block_sizes@[k],
                    out,
                ) && call_ensures(same, (&out, &whole), false) && forall|i: int|
                    0 <= i < k ==> #[trigger] self.agrees_out::<T, P, F, E>(
                        make,
                        frames,
                    events,
                        same,
                        whole,
                        i,
                    ),
            r matches Err(e) ==> exists|q: &mut P|
                call_ensures(make, (), *q) && #[trigger] call_ensures(
                    P::prepare,
                    (q, self.spec),
                    Err(e),
                ),
    {
        let block: usize = if frames == 0 {
            1
        } else {
            frames
        };
        let whole = match self.generate(make, frames, events, block) {
            Ok(whole) => whole,
            Err(e) => {
                return Err(e);
            },
        };
        let mut k: usize = 0;
        while k < self.block_sizes.len()
            invariant
                0 <= k <= self.block_sizes@.len(),
                block == whole_block(self.drawn::<T>(frames, events@).frames),
                forall|i: int|
                    0 <= i < self.block_sizes@.len() ==> #[trigger] self.block_sizes@[i] >= 1,
                replayable(self.drawn::<T>(frames, events@)),
                call_requires(make, ()),
                forall|p: P| #[trigger] call_ensures(make, (), p) ==> p.inv(),
                forall|q: &mut P| #[trigger]
                    call_ensures(P::prepare, (q, self.spec), Ok(())) ==> takes_blocks(
                        *final(q),
                        self.drawn::<T>(frames, events@),
                        self.drawn::<T>(frames, events@).frames as int,
                    ),
                forall|a: &Vec<Vec<T>>, b: &Vec<Vec<T>>| #[trigger] call_requires(same, (a, b)),
                self.generates::<T, P, F>(make, frames, events, block, whole),
                forall|i: int|
                    0 <= i < k ==> #[trigger] self.agrees_out::<T, P, F, E>(
                        make,
                        frames,
                    events,
                        same,
                        whole,
                        i,
                    ),
            decreases self.block_sizes@.len() - k,
        {
            let out = match self.generate(make, frames, events, self.block_sizes[k]) {
                Ok(out) => out,
                Err(e) => {
                    return Err(e);
                },
            };
            assert(self.generates::<T, P, F>(make, frames, events, self.block_sizes@[k as int], out));
            if !same(&out, &whole) {
                return Ok(Some(self.block_sizes[k]));
            }
            k += 1;
        }
        Ok(None)
    }

    /// Whether a processor that was run and reset gives, as `same` tells, what a fresh
    /// one gives.
    pub fn reset_reproduces<
        T: Sample,
        P: Processor<T>,
        F: Fn() -> P + Copy,
        E: Fn(&Vec<Vec<T>>, &Vec<Vec<T>>) -> bool,
    >(
        &self,
        make: F,
        input: &[Vec<T>],
        events: &[ParamEvent<T::Real>],
        same: E,
    ) -> (r: Result<bool, DspError>)
        requires
            replayable(direct(input@, events@)),
            call_requires(make, ()),
            forall|p: P| #[trigger] call_ensures(make, (), p) ==> p.inv(),
            forall|q: &mut P| #[trigger]
                call_ensures(P::prepare, (q, self.spec), Ok(())) ==> takes_blocks(
                    *final(q),
                    direct(input@, events@),
                    64,
                ),
            forall|a: &Vec<Vec<T>>, b: &Vec<Vec<T>>| #[trigger] call_requires(same, (a, b)),
        ensures
            r matches Ok(kept) ==> exists|
                fresh: Vec<Vec<T>>,
                p: &mut P,
                w: &mut P,
                wear: Vec<Vec<T>>,
                q: &mut P,
                a: &mut P,
                after: Vec<Vec<T>>,
            |
                #[trigger] self.gives::<T, P, F>(make, input, events, 64, fresh)
                    && call_ensures(make, (), *p) && #[trigger] call_ensures(
                    P::prepare,
                    (p, self.spec),
                    Ok(()),
                ) && *w == *final(p) && #[trigger] call_ensures(
                    Contract::run_reusing::<T, P>,
                    (self, w, input, events, 50),
                    wear,
                ) && *q == *final(w) && #[trigger] call_ensures(P::reset, (q,), ())
                    && *a == *final(q) && #[trigger] call_ensures(
                    Contract::run_reusing::<T, P>,
                    (self, a, input, events, 64),
                    after,
                ) && call_ensures(same, (&after, &fresh), kept),
            r matches Err(e) ==> exists|q: &mut P|
                call_ensures(make, (), *q) && #[trigger] call_ensures(
                    P::prepare,
                    (q, self.spec),
                    Err(e),
                ),
    {
        let fresh = match self.run(make, input, events, 64) {
            Ok(fresh) => fresh,
            Err(e) => {
                return Err(e);
            },
        };
        let mut proc = match prepared(make, self.spec) {
            Ok(proc) => proc,
            Err(e) => {
                return Err(e);
            },
        };
        let ghost s0 = proc;
        let _ = self.run_reusing(&mut proc, input, events, 50);
        let ghost s1 = proc;
        assert(exists|w: &mut P, wear: Vec<Vec<T>>| #[trigger]
            call_ensures(Contract::run_reusing::<T, P>, (self, w, input, events, 50), wear) && *w
                == s0 && *final(w) == s1);
        proc.reset();
        let ghost s2 = proc;
        assert(exists|q: &mut P| #[trigger]
            call_ensures(P::reset, (q,), ()) && *q == s1 && *final(q) == s2);
        let after = self.run_reusing(&mut proc, input, events, 64);
        assert(exists|a: &mut P| #[trigger]
            call_ensures(Contract::run_reusing::<T, P>, (self, a, input, events, 64), after) && *a
                == s2);
        assert(self.gives::<T, P, F>(make, input, events, 64, fresh));
        Ok(same(&after, &fresh))
    }
}

} // verus!
