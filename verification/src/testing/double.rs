//! Test doubles for the drain contract.

use crate::contract::block::{AudioBlockMut, IoMode};
use crate::contract::context::{Produced, SubBlock, Tail};
use crate::contract::error::DspError;
use crate::contract::spec::ProcessSpec;
use crate::contract::traits::{
    kernel_answers_stand, model_after, rendered, FrameModel, Kernel, NoParams, Standing,
};
use crate::dsp::lanes::lemma_rerun_none;
use crate::dsp::schedule::rendering_keeps_rest;
use crate::number::{nil, Real, Sample};
use vstd::prelude::*;

verus! {

/// A kernel with a tail that never ends.
///
/// Rendering passes audio through untouched and remembers the newest sample of
/// the first channel. Draining fills every requested frame with that sample,
/// scaled by 0.999 once more each frame, and is never done: a host must bound
/// the frames it asks for.
#[derive(Clone, Debug)]
pub struct InfiniteTailKernel<T: Sample> {
    pub state: T::Real,
}

impl<T: Sample> InfiniteTailKernel<T> {
    /// A kernel with silent state.
    pub fn new() -> (r: Self)
        ensures
            r.state == nil::<T::Real>(),
    {
        Self { state: T::Real::zero() }
    }
}

impl<T: Sample> Default for InfiniteTailKernel<T> {
    fn default() -> (r: Self)
        ensures
            r.state == nil::<T::Real>(),
    {
        Self::new()
    }
}

impl<T: Sample> FrameModel<T> for InfiniteTailKernel<T> {
    type Params = NoParams;

    type Model = T::Real;

    open spec fn next(m: T::Real, p: NoParams, x: Seq<T>, key: Seq<Seq<T>>) -> T::Real {
        if x.len() > 0 {
            x[0].value()
        } else {
            m
        }
    }

    open spec fn emit(m: T::Real, p: NoParams, x: Seq<T>, key: Seq<Seq<T>>) -> Seq<T> {
        x
    }

    open spec fn rest(m: T::Real) -> T::Real {
        nil()
    }
}

/// A reset restores the kernel whatever it has seen.
pub proof fn infinite_tail_reset_restores<T: Sample>()
    ensures
        rendering_keeps_rest::<T, InfiniteTailKernel<T>>(),
{
}

/// The state after `n` frames of the tail.
pub open spec fn decayed<R: Real>(state: R, n: nat) -> R
    decreases n,
{
    if n == 0 {
        state
    } else {
        decayed(state, (n - 1) as nat).prod(R::decimal_of(999, -3))
    }
}

impl<T: Sample> Kernel<T> for InfiniteTailKernel<T> {
    open spec fn model(&self) -> T::Real {
        self.state
    }

    open spec fn accepts(&self, mode: IoMode, channels: nat, buses: nat) -> bool {
        mode == IoMode::InPlace
    }

    open spec fn outcome(&self, spec: ProcessSpec) -> Result<(), DspError> {
        Ok(())
    }

    open spec fn made(&self, spec: ProcessSpec) -> T::Real {
        nil()
    }

    open spec fn standing(&self) -> Standing<T::Real> {
        Standing {
            latency: 0,
            tail: Tail::Infinite,
            io_mode: IoMode::InPlace,
            footprint: 0,
            info: Seq::empty(),
            sidechain_inputs: 0,
        }
    }

    fn prepare(&mut self, spec: ProcessSpec) -> (r: Result<(), DspError>) {
        self.state = T::Real::zero();
        assert(self.accepts(IoMode::InPlace, spec.channels as nat, 0));
        Ok(())
    }

    fn reset(&mut self) {
        self.state = T::Real::zero();
    }

    fn tail(&self) -> (r: Tail)
        ensures
            r == Tail::Infinite,
    {
        Tail::Infinite
    }

    fn render(&mut self, io: &mut SubBlock<'_, '_, '_, T>, params: &NoParams) {
        let ghost m = self.state;
        let ghost x = io.in_run();
        let ghost n = io.len as nat;
        if io.frames() > 0 && io.channels() > 0 {
            let last: usize = io.frames() - 1;
            self.state = io.input(0)[last].to_real();
        }
        proof {
            lemma_rerun_none(io);
            assert(io.out_run() =~= x);
            assert(rendered::<T, Self>(m, *params, x, io.key_run(), io.io.output().len(), n)
                =~= x) by {
                assert forall|ch: int| 0 <= ch < x.len() implies rendered::<T, Self>(
                    m,
                    *params,
                    x,
                    io.key_run(),
                    io.io.output().len(),
                    n,
                )[ch] == x[ch] by {
                    assert(rendered::<T, Self>(
                        m,
                        *params,
                        x,
                        io.key_run(),
                        io.io.output().len(),
                        n,
                    )[ch] =~= x[ch]);
                }
            }
            if x.len() == 0 {
                lemma_nothing_remembered::<T>(m, *params, x, io.key_run(), n);
            }
        }
    }

    fn flush(&mut self, out: &mut AudioBlockMut<'_, '_, T>) -> (r: Produced)
        ensures
            r == (Produced { frames: old(out).length(), done: false }),
            final(self).state == decayed(old(self).state, old(out).length() as nat),
            forall|ch: int, i: int|
                0 <= ch < old(out).samples().len() && 0 <= i < old(out).length()
                    ==> #[trigger] final(out).samples()[ch][i] == T::stored(
                    decayed(old(self).state, (i + 1) as nat),
                ),
    {
        let want: usize = out.frames();
        let channels: usize = out.channels();
        let decay = T::Real::decimal(999, -3);
        let mut i: usize = 0;
        while i < want
            invariant
                0 <= i <= want,
                want == old(out).length(),
                out.length() == want,
                old(out).wf(),
                final(out.table())@ == final(old(out).table())@,
                forall|c: int|
                    0 <= c < channels ==> final(#[trigger] out.plane(c))@
                        == final(old(out).plane(c))@,
                channels == old(out).samples().len(),
                out.samples().len() == channels,
                decay == T::Real::decimal_of(999, -3),
                self.state == decayed(old(self).state, i as nat),
                forall|ch: int|
                    0 <= ch < channels ==> (#[trigger] out.samples()[ch]).len() == want,
                forall|ch: int, j: int|
                    0 <= ch < channels && 0 <= j < i ==> #[trigger] out.samples()[ch][j]
                        == T::stored(decayed(old(self).state, (j + 1) as nat)),
            decreases want - i,
        {
            self.state = self.state.times(decay);
            let ghost before = out.samples();
            let mut ch: usize = 0;
            while ch < channels
                invariant
                    0 <= ch <= channels,
                    i < want,
                    out.length() == want,
                    out.samples().len() == channels,
                    final(out.table())@ == final(old(out).table())@,
                    forall|c: int|
                        0 <= c < channels ==> final(#[trigger] out.plane(c))@
                        == final(old(out).plane(c))@,
                    before.len() == channels,
                    forall|k: int| 0 <= k < channels ==> (#[trigger] before[k]).len() == want,
                    forall|k: int|
                        0 <= k < ch ==> #[trigger] out.samples()[k] == before[k].update(
                            i as int,
                            T::stored(self.state),
                        ),
                    forall|k: int| ch <= k < channels ==> #[trigger] out.samples()[k] == before[k],
                decreases channels - ch,
            {
                assert(out.samples()[ch as int] == before[ch as int]);
                let plane = out.channel_mut(ch);
                plane[i] = T::from_real(self.state);
                ch += 1;
            }
            assert forall|k: int, j: int| 0 <= k < channels && 0 <= j < i + 1 implies (
            #[trigger] out.samples()[k][j]) == T::stored(
                decayed(old(self).state, (j + 1) as nat),
            ) by {
                assert(out.samples()[k] == before[k].update(i as int, T::stored(self.state)));
                assert(j < i ==> before[k][j] == T::stored(
                    decayed(old(self).state, (j + 1) as nat),
                ));
            }
            i += 1;
        }
        Produced { frames: want, done: false }
    }
}

proof fn lemma_nothing_remembered<T: Sample>(
    m: T::Real,
    p: NoParams,
    x: Seq<Seq<T>>,
    key: Seq<Seq<Seq<T>>>,
    n: nat,
)
    requires
        x.len() == 0,
    ensures
        model_after::<T, InfiniteTailKernel<T>>(m, p, x, key, n) == m,
    decreases n,
{
    if n > 0 {
        lemma_nothing_remembered::<T>(m, p, x, key, (n - 1) as nat);
    }
}

/// What the kernel answers about itself stays as `prepare` left it.
pub proof fn infinite_tail_answers_stand<T: Sample>()
    ensures
        kernel_answers_stand::<T, InfiniteTailKernel<T>>(),
{
}

} // verus!
