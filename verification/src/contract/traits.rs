//! Traits for processors, kernels, meters, rate changers, and sources.
//!
//! Most same-rate processors implement [`Kernel`] and are driven by a
//! [`KernelProcessor`](crate::dsp::driver::KernelProcessor). Sources are kernels
//! that overwrite the output. [`VariableRate`] pulls its input and has no
//! parameter automation.

use crate::contract::block::{AudioBlock, AudioBlockMut, IoMode};
use crate::contract::context::{ProcessContext, Produced, SubBlock, Tail};
use crate::contract::error::DspError;
use crate::contract::param::{ParamEvent, ParamId, ParamInfo, ParamSetError};
use crate::contract::spec::ProcessSpec;
use crate::dsp::driver::KernelProcessor;
use crate::dsp::smoother::{bank_values, Smoother, SmootherBank};
use crate::number::{Real, Sample};
use vstd::prelude::*;

verus! {

// ---------------------------------------------------------------------------
// Frames
// ---------------------------------------------------------------------------

/// Frame `i` of a signal: one sample per channel.
pub open spec fn column<T>(planes: Seq<Seq<T>>, i: int) -> Seq<T> {
    Seq::new(planes.len(), |ch: int| planes[ch][i])
}

/// Frame `i` of every sidechain bus.
pub open spec fn key_column<T>(buses: Seq<Seq<Seq<T>>>, i: int) -> Seq<Seq<T>> {
    Seq::new(buses.len(), |bus: int| column(buses[bus], i))
}

/// A signal of `width` channels and `n` frames, given frame by frame.
pub open spec fn from_frames<T>(width: nat, n: nat, frame: spec_fn(int) -> Seq<T>) -> Seq<Seq<T>> {
    Seq::new(width, |ch: int| Seq::new(n, |i: int| frame(i)[ch]))
}

/// `before` and `after` are signals of one shape that agree from frame `from` on.
pub open spec fn agree_from<T>(before: Seq<Seq<T>>, after: Seq<Seq<T>>, from: int) -> bool {
    &&& after.len() == before.len()
    &&& forall|ch: int|
        0 <= ch < before.len() ==> {
            &&& (#[trigger] after[ch]).len() == before[ch].len()
            &&& forall|i: int| from <= i < before[ch].len() ==> after[ch][i] == before[ch][i]
        }
}

// ---------------------------------------------------------------------------
// Parameters
// ---------------------------------------------------------------------------

/// A typed snapshot of smoothed parameter values, loaded once per
/// fixed-parameter run.
///
/// Fields are loaded by declaration index, so the metadata lists the same
/// parameters in the same order with sequential ids starting at zero.
pub trait Params<R: Real>: Copy {
    /// The number of declared parameters.
    const COUNT: usize;

    /// The snapshot of `values`, which are in declaration order.
    open spec fn load(values: Seq<R>) -> Self {
        arbitrary()
    }

    /// Load the current smoothed values from `bank` by declaration index.
    fn from_bank(bank: &SmootherBank<R>) -> (r: Self)
        requires
            bank@.len() == Self::COUNT,
        ensures
            r == Self::load(bank_values(bank@)),
    ;
}

/// The empty parameter set for processors with no automatable parameters.
#[derive(Clone, Copy, Debug, PartialEq, Eq, Structural)]
pub struct NoParams;

impl Default for NoParams {
    fn default() -> (r: Self)
        ensures
            r == NoParams,
    {
        NoParams
    }
}

impl<R: Real> Params<R> for NoParams {
    const COUNT: usize = 0;

    open spec fn load(values: Seq<R>) -> Self {
        NoParams
    }

    fn from_bank(bank: &SmootherBank<R>) -> (r: Self) {
        NoParams
    }
}

// ---------------------------------------------------------------------------
// Processors
// ---------------------------------------------------------------------------

/// What a processor is shown of one block.
pub struct BlockView<T: Sample> {
    pub mode: IoMode,
    pub input: Seq<Seq<T>>,
    pub output: Seq<Seq<T>>,
    pub key: Seq<Seq<Seq<T>>>,
    pub events: Seq<ParamEvent<T::Real>>,
    pub frames: nat,
    pub pos: int,
}

/// The shape of a block and its place: signal form, channels, sidechain buses,
/// frames, and the position of its first frame on the stream timeline.
pub struct Geometry {
    pub mode: IoMode,
    pub channels: nat,
    pub buses: nat,
    pub frames: nat,
    pub pos: int,
}

/// The control-rate boundary that follows a block is a position that can be
/// counted.
pub open spec fn on_timeline(pos: int, frames: int) -> bool {
    frames == 0 || pos + frames + 31 <= u64::MAX
}

/// Event offsets do not decrease.
pub open spec fn sorted_events<R>(events: Seq<ParamEvent<R>>) -> bool {
    forall|i: int, j: int|
        0 <= i <= j < events.len() ==> (#[trigger] events[i]).offset <= (#[trigger] events[j]).offset
}

impl<'view, 'samples, T: Sample> ProcessContext<'view, 'samples, T> {
    /// The sidechain buses, in the length that they have.
    pub open spec fn keys(&self) -> Seq<Seq<Seq<T>>> {
        Seq::new(self.sidechain@.len(), |bus: int| self.sidechain@[bus].samples())
    }

    /// What a processor is shown of this block.
    pub open spec fn seen(&self) -> BlockView<T> {
        BlockView {
            mode: self.main.mode(),
            input: self.main.input(),
            output: self.main.output(),
            key: self.keys(),
            events: self.events@,
            frames: self.frames as nat,
            pos: self.sample_pos as int,
        }
    }

    /// The shape of this block.
    pub open spec fn geometry(&self) -> Geometry {
        Geometry {
            mode: self.main.mode(),
            channels: self.main.output().len(),
            buses: self.sidechain@.len(),
            frames: self.frames as nat,
            pos: self.sample_pos as int,
        }
    }

    /// The frame count is that of the main signal, split sides are equally
    /// wide, every bus covers the block, and events are sorted.
    pub open spec fn wf(&self) -> bool {
        &&& self.main.wf()
        &&& self.frames == self.main.length()
        &&& self.main.mode() == IoMode::Split ==> self.main.input().len()
            == self.main.output().len()
        &&& forall|bus: int|
            0 <= bus < self.sidechain@.len() ==> (#[trigger] self.sidechain@[bus]).wf()
                && self.frames <= self.sidechain@[bus].length()
        &&& sorted_events(self.events@)
    }

    /// The same block with other samples on the output side of its main signal.
    pub open spec fn rewritten(&self, after: &Self, output: Seq<Seq<T>>) -> bool {
        &&& self.main.rewritten(&after.main, output)
        &&& after.sidechain == self.sidechain
        &&& after.events == self.events
        &&& after.frames == self.frames
        &&& after.sample_pos == self.sample_pos
    }
}

/// What a processor answers about itself, and keeps answering until it is prepared
/// again.
pub struct Standing<R> {
    /// Processing latency in frames.
    pub latency: usize,
    /// Output that continues after input ends.
    pub tail: Tail,
    /// Shape that the host provides for the main signal.
    pub io_mode: IoMode,
    /// Internal state in logical reserved payload bytes.
    pub footprint: usize,
    /// The automatable parameters.
    pub info: Seq<ParamInfo<R>>,
    /// Number of sidechain buses expected.
    pub sidechain_inputs: usize,
}

/// A same-rate transform driven by a host.
///
/// Most processors are [`Kernel`]s. Implement this trait directly for
/// block-based processors such as transforms with latency.
pub trait Processor<T: Sample> {
    /// Holds of every value of the type, prepared or not.
    open spec fn inv(&self) -> bool {
        true
    }

    /// The processor is prepared for blocks of this shape at this place.
    open spec fn admits(&self, g: Geometry) -> bool {
        true
    }

    /// A drain has delivered everything; no new input has arrived since.
    open spec fn drained(&self) -> bool {
        false
    }

    /// What the processor answers about itself. Only `prepare` changes it.
    open spec fn standing(&self) -> Standing<T::Real> {
        arbitrary()
    }

    /// Allocate and configure for `spec`.
    fn prepare(&mut self, spec: ProcessSpec) -> (r: Result<(), DspError>)
        requires
            old(self).inv(),
        ensures
            final(self).inv(),
    ;

    /// Return to the state after `prepare`.
    fn reset(&mut self)
        requires
            old(self).inv(),
        ensures
            final(self).inv(),
            forall|g: Geometry| old(self).admits(g) ==> #[trigger] final(self).admits(g),
            final(self).standing() == old(self).standing(),
    ;

    /// Processing latency in frames, constant after `prepare`.
    fn latency(&self) -> (r: usize)
        default_ensures
            r == 0,
    {
        0
    }

    /// Output that continues after input ends.
    fn tail(&self) -> (r: Tail)
        default_ensures
            r == Tail::Absent,
    {
        Tail::Absent
    }

    /// Shape that the host provides for the main signal.
    fn io_mode(&self) -> (r: IoMode)
        default_ensures
            r == IoMode::InPlace,
    {
        IoMode::InPlace
    }

    /// Internal state in logical reserved payload bytes.
    fn memory_footprint(&self) -> (r: usize)
        default_ensures
            r == 0,
    {
        0
    }

    /// The automatable parameters.
    fn param_info(&self) -> (r: &[ParamInfo<T::Real>])
        default_ensures
            r@.len() == 0,
    {
        &[]
    }

    /// Number of sidechain buses expected.
    fn sidechain_inputs(&self) -> (r: usize)
        default_ensures
            r == 0,
    {
        0
    }

    /// Snap a declared parameter's current and target values without a ramp.
    fn set_parameter_immediate(&mut self, id: ParamId, value: T::Real) -> (r: Result<
        (),
        ParamSetError<T::Real>,
    >)
        requires
            old(self).inv(),
        ensures
            final(self).inv(),
            forall|g: Geometry| old(self).admits(g) ==> #[trigger] final(self).admits(g),
            final(self).standing() == old(self).standing(),
        default_ensures
            r == Err::<(), ParamSetError<T::Real>>(ParamSetError::UnknownParam(id)),
            &*final(self) == &*old(self),
    {
        Err(ParamSetError::UnknownParam(id))
    }

    /// Process one block, including its parameter events.
    fn process(&mut self, ctx: &mut ProcessContext<'_, '_, T>)
        requires
            old(self).inv(),
            old(ctx).wf(),
            old(self).admits(old(ctx).geometry()),
        ensures
            final(self).inv(),
            old(ctx).rewritten(final(ctx), final(ctx).main.output()),
            final(ctx).main.output().len() == old(ctx).main.output().len(),
            final(final(ctx).main.table())@ == final(old(ctx).main.table())@,
            forall|c: int|
                0 <= c < old(ctx).main.output().len() ==> final(#[trigger] final(ctx).main.plane(c))@
                    == final(old(ctx).main.plane(c))@,
            forall|g: Geometry| old(self).admits(g) ==> #[trigger] final(self).admits(g),
            final(self).standing() == old(self).standing(),
    ;

    /// Drain latency or tail into `out`, at most `out.frames()` frames per call.
    ///
    /// After a call reports `done`, later calls write nothing and stay done
    /// until new input or a reset starts another drain.
    fn flush(&mut self, out: &mut AudioBlockMut<'_, '_, T>) -> (r: Produced)
        requires
            old(self).inv(),
            old(out).wf(),
            exists|g: Geometry|
                #[trigger] old(self).admits(g) && g.channels == old(out).samples().len(),
        ensures
            final(self).inv(),
            final(out).wf(),
            r.frames <= old(out).length(),
            agree_from(old(out).samples(), final(out).samples(), r.frames as int),
            final(final(out).table())@ == final(old(out).table())@,
            forall|c: int|
                0 <= c < old(out).samples().len() ==> final(#[trigger] final(out).plane(c))@
                    == final(old(out).plane(c))@,
            old(self).drained() ==> r.frames == 0 && r.done && final(self).drained(),
            forall|g: Geometry| old(self).admits(g) ==> #[trigger] final(self).admits(g),
            final(self).standing() == old(self).standing(),
        default_ensures
            r == (Produced { frames: 0, done: true }),
            &*final(self) == &*old(self),
            final(out).samples() == old(out).samples(),
    {
        Produced { frames: 0, done: true }
    }
}

impl<T: Sample, P: Processor<T> + ?Sized> Processor<T> for Box<P> {
    open spec fn inv(&self) -> bool {
        (**self).inv()
    }

    open spec fn admits(&self, g: Geometry) -> bool {
        (**self).admits(g)
    }

    open spec fn drained(&self) -> bool {
        (**self).drained()
    }

    open spec fn standing(&self) -> Standing<T::Real> {
        (**self).standing()
    }

    fn prepare(&mut self, spec: ProcessSpec) -> (r: Result<(), DspError>)
        ensures
            exists|p: &mut P| #[trigger]
                call_ensures(P::prepare, (p, spec), r) && &*p == &**old(self) && &*final(p)
                    == &**final(self),
    {
        let p: &mut P = &mut **self;
        p.prepare(spec)
    }

    fn reset(&mut self)
        ensures
            exists|p: &mut P| #[trigger]
                call_ensures(P::reset, (p,), ()) && &*p == &**old(self) && &*final(p)
                    == &**final(self),
    {
        let p: &mut P = &mut **self;
        p.reset();
    }

    fn latency(&self) -> (r: usize)
        ensures
            call_ensures(P::latency, (&**self,), r),
    {
        (**self).latency()
    }

    fn tail(&self) -> (r: Tail)
        ensures
            call_ensures(P::tail, (&**self,), r),
    {
        (**self).tail()
    }

    fn io_mode(&self) -> (r: IoMode)
        ensures
            call_ensures(P::io_mode, (&**self,), r),
    {
        (**self).io_mode()
    }

    fn memory_footprint(&self) -> (r: usize)
        ensures
            call_ensures(P::memory_footprint, (&**self,), r),
    {
        (**self).memory_footprint()
    }

    fn param_info(&self) -> (r: &[ParamInfo<T::Real>])
        ensures
            call_ensures(P::param_info, (&**self,), r),
    {
        (**self).param_info()
    }

    fn sidechain_inputs(&self) -> (r: usize)
        ensures
            call_ensures(P::sidechain_inputs, (&**self,), r),
    {
        (**self).sidechain_inputs()
    }

    fn set_parameter_immediate(&mut self, id: ParamId, value: T::Real) -> (r: Result<
        (),
        ParamSetError<T::Real>,
    >)
        ensures
            exists|p: &mut P| #[trigger]
                call_ensures(P::set_parameter_immediate, (p, id, value), r) && &*p == &**old(self)
                    && &*final(p) == &**final(self),
    {
        let p: &mut P = &mut **self;
        p.set_parameter_immediate(id, value)
    }

    fn process(&mut self, ctx: &mut ProcessContext<'_, '_, T>)
        ensures
            exists|p: &mut P, c: &mut ProcessContext<'_, '_, T>| #[trigger]
                call_ensures(P::process, (p, c), ()) && &*p == &**old(self) && &*final(p)
                    == &**final(self) && *c == *old(ctx) && *final(c) == *final(ctx),
    {
        let p: &mut P = &mut **self;
        p.process(ctx);
    }

    fn flush(&mut self, out: &mut AudioBlockMut<'_, '_, T>) -> (r: Produced)
        ensures
            exists|p: &mut P, o: &mut AudioBlockMut<'_, '_, T>| #[trigger]
                call_ensures(P::flush, (p, o), r) && &*p == &**old(self) && &*final(p)
                    == &**final(self) && *o == *old(out) && *final(o) == *final(out),
    {
        let p: &mut P = &mut **self;
        p.flush(out)
    }
}

// ---------------------------------------------------------------------------
// Kernels
// ---------------------------------------------------------------------------

/// What a kernel does to one frame.
///
/// [`next`](FrameModel::next) is what a frame makes of the kernel's state and
/// [`emit`](FrameModel::emit) is the frame it writes. Rendering a range is
/// rendering its frames in order, so how a host divides a signal into ranges
/// does not show.
pub trait FrameModel<T: Sample> {
    /// The typed parameter set that rendering reads.
    type Params: Params<T::Real>;

    /// The state that contracts speak of.
    type Model;

    /// The state after the frame `x` with the sidechain frame `key`.
    open spec fn next(
        m: Self::Model,
        p: Self::Params,
        x: Seq<T>,
        key: Seq<Seq<T>>,
    ) -> Self::Model {
        arbitrary()
    }

    /// The frame written for the frame `x` with the sidechain frame `key`.
    open spec fn emit(m: Self::Model, p: Self::Params, x: Seq<T>, key: Seq<Seq<T>>) -> Seq<T> {
        arbitrary()
    }

    /// The state after `prepare`, as any later state remembers it.
    open spec fn rest(m: Self::Model) -> Self::Model {
        arbitrary()
    }

    /// A drain has delivered everything; no new input has arrived since.
    open spec fn drained(m: Self::Model) -> bool {
        false
    }
}

/// A fixed-parameter renderer for a contiguous frame range.
pub trait Kernel<T: Sample>: FrameModel<T> + Sized {
    /// The state of this kernel.
    open spec fn model(&self) -> Self::Model {
        arbitrary()
    }

    /// Holds of every value of the type, prepared or not.
    open spec fn inv(&self) -> bool {
        true
    }

    /// The kernel is prepared for this signal form, channel count, and number
    /// of sidechain buses.
    open spec fn accepts(&self, mode: IoMode, channels: nat, buses: nat) -> bool {
        true
    }

    /// How preparing for `spec` is answered.
    open spec fn outcome(&self, spec: ProcessSpec) -> Result<(), DspError> {
        arbitrary()
    }

    /// What a successful `prepare` for `spec` makes of the state.
    open spec fn made(&self, spec: ProcessSpec) -> Self::Model {
        arbitrary()
    }

    /// What the kernel answers about itself. Only `prepare` changes it, and the
    /// parameters are stable from construction.
    open spec fn standing(&self) -> Standing<T::Real> {
        arbitrary()
    }

    /// Allocate and configure for `spec`.
    fn prepare(&mut self, spec: ProcessSpec) -> (r: Result<(), DspError>)
        requires
            old(self).inv(),
        ensures
            final(self).inv(),
            r == old(self).outcome(spec),
            r is Ok ==> final(self).model() == old(self).made(spec),
            r is Ok ==> final(self).model() == Self::rest(final(self).model()),
            final(self).standing().info == old(self).standing().info,
            r is Ok ==> exists|mode: IoMode, buses: nat|
                #[trigger] final(self).accepts(mode, spec.channels as nat, buses),
    ;

    /// Return to the state after `prepare`.
    fn reset(&mut self)
        requires
            old(self).inv(),
        ensures
            final(self).inv(),
            final(self).model() == Self::rest(old(self).model()),
            forall|mode: IoMode, channels: nat, buses: nat|
                old(self).accepts(mode, channels, buses) ==> #[trigger] final(self).accepts(
                    mode,
                    channels,
                    buses,
                ),
            final(self).standing() == old(self).standing(),
    ;

    /// Processing latency in frames, constant after `prepare`.
    fn latency(&self) -> (r: usize)
        default_ensures
            r == 0,
    {
        0
    }

    /// Output that continues after input ends.
    fn tail(&self) -> (r: Tail)
        default_ensures
            r == Tail::Absent,
    {
        Tail::Absent
    }

    /// Shape that the host provides.
    fn io_mode(&self) -> (r: IoMode)
        default_ensures
            r == IoMode::InPlace,
    {
        IoMode::InPlace
    }

    /// The kernel's own state in logical reserved payload bytes. The smoother
    /// bank is not counted here.
    fn memory_footprint(&self) -> (r: usize)
        default_ensures
            r == 0,
    {
        0
    }

    /// The automatable parameters, in declaration order, stable from
    /// construction.
    fn param_info(&self) -> (r: &[ParamInfo<T::Real>])
        default_ensures
            r@.len() == 0,
    {
        &[]
    }

    /// Number of sidechain buses expected.
    fn sidechain_inputs(&self) -> (r: usize)
        default_ensures
            r == 0,
    {
        0
    }

    /// Wrap as a [`Processor`] that owns the smoother bank.
    fn into_processor(self) -> (r: KernelProcessor<Self, T>)
        ensures
            r.kernel() == self,
            r.bank() == Seq::<Smoother<T::Real>>::empty(),
            r.prepared() is None,
    {
        KernelProcessor::with_sample_type(self)
    }

    /// Render one range with parameter values that are constant over it.
    ///
    /// A range spans at most one control-rate cell of 32 frames.
    fn render(&mut self, io: &mut SubBlock<'_, '_, '_, T>, params: &Self::Params)
        requires
            old(self).inv(),
            old(io).wf(),
            old(io).io.mode() == IoMode::Split ==> old(io).io.input().len()
                == old(io).io.output().len(),
            0 < old(io).len <= 32,
            old(self).accepts(old(io).io.mode(), old(io).io.output().len(), old(io).sc@.len()),
        ensures
            final(self).inv(),
            final(self).model() == model_after::<T, Self>(
                old(self).model(),
                *params,
                old(io).in_run(),
                old(io).key_run(),
                old(io).len as nat,
            ),
            old(io).rerun(
                final(io),
                rendered::<T, Self>(
                    old(self).model(),
                    *params,
                    old(io).in_run(),
                    old(io).key_run(),
                    old(io).io.output().len(),
                    old(io).len as nat,
                ),
            ),
            *final(final(io).io) == *final(old(io).io),
            final(final(io).io.table())@ == final(old(io).io.table())@,
            forall|c: int|
                0 <= c < old(io).io.output().len() ==> final(#[trigger] final(io).io.plane(c))@
                    == final(old(io).io.plane(c))@,
            forall|mode: IoMode, channels: nat, buses: nat|
                old(self).accepts(mode, channels, buses) ==> #[trigger] final(self).accepts(
                    mode,
                    channels,
                    buses,
                ),
            final(self).standing() == old(self).standing(),
    ;

    /// Drain latency or tail into `out`, at most `out.frames()` frames per call.
    fn flush(&mut self, out: &mut AudioBlockMut<'_, '_, T>) -> (r: Produced)
        requires
            old(self).inv(),
            old(out).wf(),
            exists|mode: IoMode, buses: nat|
                #[trigger] old(self).accepts(mode, old(out).samples().len(), buses),
        ensures
            final(self).inv(),
            final(out).wf(),
            r.frames <= old(out).length(),
            agree_from(old(out).samples(), final(out).samples(), r.frames as int),
            final(final(out).table())@ == final(old(out).table())@,
            forall|c: int|
                0 <= c < old(out).samples().len() ==> final(#[trigger] final(out).plane(c))@
                    == final(old(out).plane(c))@,
            Self::drained(old(self).model()) ==> r.frames == 0 && r.done && Self::drained(
                final(self).model(),
            ),
            Self::rest(final(self).model()) == Self::rest(old(self).model()),
            forall|mode: IoMode, channels: nat, buses: nat|
                old(self).accepts(mode, channels, buses) ==> #[trigger] final(self).accepts(
                    mode,
                    channels,
                    buses,
                ),
            final(self).standing() == old(self).standing(),
        default_ensures
            r == (Produced { frames: 0, done: true }),
            *final(self) == *old(self),
            final(out).samples() == old(out).samples(),
    {
        Produced { frames: 0, done: true }
    }
}

/// The state after the first `n` frames of a range.
pub open spec fn model_after<T: Sample, K: FrameModel<T>>(
    m: K::Model,
    p: K::Params,
    x: Seq<Seq<T>>,
    key: Seq<Seq<Seq<T>>>,
    n: nat,
) -> K::Model
    decreases n,
{
    if n == 0 {
        m
    } else {
        K::next(
            model_after::<T, K>(m, p, x, key, (n - 1) as nat),
            p,
            column(x, n - 1),
            key_column(key, n - 1),
        )
    }
}

/// Frame `i` of what a range is rendered to.
pub open spec fn rendered_frame<T: Sample, K: FrameModel<T>>(
    m: K::Model,
    p: K::Params,
    x: Seq<Seq<T>>,
    key: Seq<Seq<Seq<T>>>,
    i: int,
) -> Seq<T> {
    K::emit(model_after::<T, K>(m, p, x, key, i as nat), p, column(x, i), key_column(key, i))
}

/// What a range of `n` frames over `width` channels is rendered to.
pub open spec fn rendered<T: Sample, K: FrameModel<T>>(
    m: K::Model,
    p: K::Params,
    x: Seq<Seq<T>>,
    key: Seq<Seq<Seq<T>>>,
    width: nat,
    n: nat,
) -> Seq<Seq<T>> {
    from_frames(width, n, |i: int| rendered_frame::<T, K>(m, p, x, key, i))
}

// ---------------------------------------------------------------------------
// Meters, rate changers, and sources
// ---------------------------------------------------------------------------

/// An analyzer or meter that observes a signal and produces a measurement.
pub trait Measurer<T: Sample> {
    /// A copyable readout.
    type Reading;

    /// The state that contracts speak of.
    type Model;

    /// The state of this meter.
    open spec fn model(&self) -> Self::Model {
        arbitrary()
    }

    /// The state after observing a block.
    open spec fn observed(m: Self::Model, x: Seq<Seq<T>>) -> Self::Model {
        arbitrary()
    }

    /// The state with nothing accumulated.
    open spec fn cleared(m: Self::Model) -> Self::Model {
        arbitrary()
    }

    /// The measurement that a state stands for.
    open spec fn reading(m: Self::Model) -> Self::Reading {
        arbitrary()
    }

    /// How preparing for `spec` is answered.
    open spec fn outcome(&self, spec: ProcessSpec) -> Result<(), DspError> {
        arbitrary()
    }

    /// The meter is prepared for blocks of `frames` frames over `channels`
    /// channels.
    open spec fn admits(&self, channels: nat, frames: nat) -> bool {
        true
    }

    /// The latency and the bytes held, as the last `prepare` left them.
    open spec fn standing(&self) -> (usize, usize) {
        arbitrary()
    }

    /// Holds of every value of the type, prepared or not.
    open spec fn inv(&self) -> bool {
        true
    }

    /// Allocate and configure for `spec`.
    fn prepare(&mut self, spec: ProcessSpec) -> (r: Result<(), DspError>)
        requires
            old(self).inv(),
        ensures
            final(self).inv(),
            r == old(self).outcome(spec),
            r is Ok ==> final(self).model() == Self::cleared(final(self).model()),
            r is Ok ==> forall|frames: nat|
                frames <= spec.max_block ==> #[trigger] final(self).admits(
                    spec.channels as nat,
                    frames,
                ),
    ;

    /// Clear accumulated state for reuse.
    fn reset(&mut self)
        requires
            old(self).inv(),
        ensures
            final(self).inv(),
            final(self).model() == Self::cleared(old(self).model()),
            final(self).standing() == old(self).standing(),
            forall|channels: nat, frames: nat|
                old(self).admits(channels, frames) ==> #[trigger] final(self).admits(
                    channels,
                    frames,
                ),
    ;

    /// Detector or window group delay in input frames, constant after `prepare`.
    fn latency(&self) -> (r: usize)
        default_ensures
            r == 0,
    {
        0
    }

    /// Internal state in logical reserved payload bytes.
    fn memory_footprint(&self) -> (r: usize)
        default_ensures
            r == 0,
    {
        0
    }

    /// Accumulate over a block of the prepared shape.
    fn observe(&mut self, block: AudioBlock<'_, '_, T>)
        requires
            old(self).inv(),
            block.wf(),
            old(self).admits(block.samples().len(), block.length() as nat),
        ensures
            final(self).inv(),
            final(self).model() == Self::observed(old(self).model(), block.samples()),
            final(self).standing() == old(self).standing(),
            forall|channels: nat, frames: nat|
                old(self).admits(channels, frames) ==> #[trigger] final(self).admits(
                    channels,
                    frames,
                ),
    ;

    /// The current measurement.
    fn read(&self) -> (r: Self::Reading)
        requires
            self.inv(),
        ensures
            r == Self::reading(self.model()),
    ;
}

/// Pull input for a [`VariableRate`]. Fewer frames with `done == false` is an
/// underrun; `done == true` is end of input.
pub trait Source<T> {
    /// What is left to pull, channel by channel.
    open spec fn pending(&self) -> Seq<Seq<T>> {
        arbitrary()
    }

    /// Holds of every value of the type.
    open spec fn inv(&self) -> bool {
        true
    }

    /// Channel count.
    fn channels(&self) -> (r: usize)
        requires
            self.inv(),
        ensures
            r == self.pending().len(),
    ;

    /// Pull up to `out.frames()` input frames into the first channels of `out`. Channels
    /// that the source does not have are left as they are.
    fn pull(&mut self, out: &mut AudioBlockMut<'_, '_, T>) -> (r: Produced)
        requires
            old(self).inv(),
            old(out).wf(),
            old(self).pending().len() <= old(out).samples().len(),
        ensures
            final(self).inv(),
            final(out).wf(),
            r.frames <= old(out).length(),
            agree_from(old(out).samples(), final(out).samples(), r.frames as int),
            final(final(out).table())@ == final(old(out).table())@,
            forall|c: int|
                0 <= c < old(out).samples().len() ==> final(#[trigger] final(out).plane(c))@
                    == final(old(out).plane(c))@,
            final(self).pending().len() == old(self).pending().len(),
            forall|ch: int|
                old(self).pending().len() <= ch < old(out).samples().len()
                    ==> #[trigger] final(out).samples()[ch] == old(out).samples()[ch],
            forall|ch: int|
                0 <= ch < old(self).pending().len() ==> {
                    &&& r.frames <= (#[trigger] old(self).pending()[ch]).len()
                    &&& final(out).samples()[ch].subrange(0, r.frames as int)
                        == old(self).pending()[ch].subrange(0, r.frames as int)
                    &&& final(self).pending()[ch] == old(self).pending()[ch].subrange(
                        r.frames as int,
                        old(self).pending()[ch].len() as int,
                    )
                },
    ;
}

/// A rate changer such as time-stretch or pitch-shift.
///
/// Input and output frame counts may differ. Configuration is fixed at
/// construction and there is no parameter automation.
pub trait VariableRate<T: Sample> {
    /// Allocate and configure for `spec`.
    fn prepare(&mut self, spec: ProcessSpec) -> Result<(), DspError>;

    /// Return to the state after `prepare`.
    fn reset(&mut self);

    /// Processing latency in frames.
    fn latency(&self) -> (r: usize)
        default_ensures
            r == 0,
    {
        0
    }

    /// Internal state in logical reserved payload bytes.
    fn memory_footprint(&self) -> (r: usize)
        default_ensures
            r == 0,
    {
        0
    }

    /// Pull from `input` and write up to `out.frames()` frames. `done` means
    /// that the input ended and internal buffers drained.
    fn process(
        &mut self,
        input: &mut dyn Source<T>,
        out: &mut AudioBlockMut<'_, '_, T>,
    ) -> (r: Produced)
        requires
            old(input).inv(),
            old(out).wf(),
        ensures
            final(input).inv(),
            final(out).wf(),
            r.frames <= old(out).length(),
            agree_from(old(out).samples(), final(out).samples(), r.frames as int),
            final(final(out).table())@ == final(old(out).table())@,
            forall|c: int|
                0 <= c < old(out).samples().len() ==> final(#[trigger] final(out).plane(c))@
                    == final(old(out).plane(c))@,
    ;
}

/// What a processor answers about itself is its standing, so that the answers stay for as
/// long as the standing does.
pub open spec fn processor_answers_stand<T: Sample, P: Processor<T>>() -> bool {
    &&& forall|p: &P, r: usize|
        p.inv() && #[trigger] call_ensures(P::latency, (p,), r)
            ==> r == p.standing().latency
    &&& forall|p: &P, r: Tail|
        p.inv() && #[trigger] call_ensures(P::tail, (p,), r)
            ==> r == p.standing().tail
    &&& forall|p: &P, r: IoMode|
        p.inv() && #[trigger] call_ensures(P::io_mode, (p,), r)
            ==> r == p.standing().io_mode
    &&& forall|p: &P, r: usize|
        p.inv() && #[trigger] call_ensures(P::memory_footprint, (p,), r)
            ==> r == p.standing().footprint
    &&& forall|p: &P, r: &[ParamInfo<T::Real>]|
        p.inv() && #[trigger] call_ensures(P::param_info, (p,), r)
            ==> r@ =~= p.standing().info
    &&& forall|p: &P, r: usize|
        p.inv() && #[trigger] call_ensures(P::sidechain_inputs, (p,), r)
            ==> r == p.standing().sidechain_inputs
}

/// What a kernel answers about itself is its standing.
pub open spec fn kernel_answers_stand<T: Sample, K: Kernel<T>>() -> bool {
    &&& forall|k: &K, r: usize|
        k.inv() && #[trigger] call_ensures(K::latency, (k,), r)
            ==> r == k.standing().latency
    &&& forall|k: &K, r: Tail|
        k.inv() && #[trigger] call_ensures(K::tail, (k,), r)
            ==> r == k.standing().tail
    &&& forall|k: &K, r: IoMode|
        k.inv() && #[trigger] call_ensures(K::io_mode, (k,), r)
            ==> r == k.standing().io_mode
    &&& forall|k: &K, r: usize|
        k.inv() && #[trigger] call_ensures(K::memory_footprint, (k,), r)
            ==> r == k.standing().footprint
    &&& forall|k: &K, r: &[ParamInfo<T::Real>]|
        k.inv() && #[trigger] call_ensures(K::param_info, (k,), r)
            ==> r@ =~= k.standing().info
    &&& forall|k: &K, r: usize|
        k.inv() && #[trigger] call_ensures(K::sidechain_inputs, (k,), r)
            ==> r == k.standing().sidechain_inputs
}

/// What a meter answers about itself is its standing.
pub open spec fn meter_answers_stand<T: Sample, M: Measurer<T>>() -> bool {
    &&& forall|m: &M, r: usize|
        m.inv() && #[trigger] call_ensures(M::latency, (m,), r)
            ==> r == m.standing().0
    &&& forall|m: &M, r: usize|
        m.inv() && #[trigger] call_ensures(M::memory_footprint, (m,), r)
            ==> r == m.standing().1
}

} // verus!
