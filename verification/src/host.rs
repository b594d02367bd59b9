//! A prepared processor together with its timeline.

use crate::contract::block::{
    exclusive_planes, frames_of, rectangular, shared_planes, AudioBlock, AudioBlockMut, Io, IoMode,
};
use crate::contract::context::{ProcessContext, Produced, Tail};
use crate::contract::error::DspError;
use crate::contract::param::{ParamEvent, ParamId, ParamInfo, ParamSetError};
use crate::contract::spec::ProcessSpec;
use crate::contract::traits::{
    agree_from, sorted_events, Geometry, Kernel, Processor,
};
use crate::dsp::driver::{KernelProcessor, PreparedContract};
use crate::number::Sample;
use core::marker::PhantomData;
use vstd::prelude::*;

verus! {

/// Owns a successfully prepared processor, its specification, and the position
/// of the next frame on the stream timeline.
#[derive(Debug)]
pub struct PreparedProcessor<P, T: Sample> {
    processor: P,
    spec: ProcessSpec,
    sample_pos: u64,
    prepared: PreparedContract,
    _sample: PhantomData<T>,
}

/// The position after `frames` frames from `pos`, at most `u64::MAX`.
pub open spec fn advanced_pos(pos: u64, frames: usize) -> u64 {
    if pos + frames > u64::MAX {
        u64::MAX
    } else {
        (pos + frames) as u64
    }
}

/// A block that a prepared processor may be handed.
pub open spec fn acceptable<T: Sample>(
    main: Io<'_, '_, T>,
    sidechains: Seq<AudioBlock<'_, '_, T>>,
    events: Seq<ParamEvent<T::Real>>,
) -> bool {
    &&& main.wf()
    &&& main.mode() == IoMode::Split ==> main.input().len() == main.output().len()
    &&& forall|bus: int|
        0 <= bus < sidechains.len() ==> (#[trigger] sidechains[bus]).wf() && main.length()
            <= sidechains[bus].length()
    &&& sorted_events(events)
}

/// The shape of a block at `pos`.
pub open spec fn shape_of<T>(main: Io<'_, '_, T>, buses: nat, pos: u64) -> Geometry {
    Geometry {
        mode: main.mode(),
        channels: main.output().len(),
        buses,
        frames: main.length() as nat,
        pos: pos as int,
    }
}

/// The context of a block at `pos`.
pub open spec fn context_of<'view, 'samples, T: Sample>(
    ctx: ProcessContext<'view, 'samples, T>,
    main: Io<'view, 'samples, T>,
    sidechains: Seq<AudioBlock<'view, 'samples, T>>,
    events: Seq<ParamEvent<T::Real>>,
    pos: u64,
) -> bool {
    &&& ctx.main == main
    &&& ctx.sidechain@ == sidechains
    &&& ctx.events@ == events
    &&& ctx.frames == main.length()
    &&& ctx.sample_pos == pos
}

impl<P, T: Sample> PreparedProcessor<P, T> {
    /// The wrapped processor.
    pub closed spec fn inner(&self) -> P {
        self.processor
    }

    /// The specification it was prepared for.
    pub closed spec fn prepared_spec(&self) -> ProcessSpec {
        self.spec
    }

    /// The absolute position of the next frame.
    pub closed spec fn position(&self) -> u64 {
        self.sample_pos
    }

    /// The shape of blocks it was prepared for.
    pub closed spec fn shape(&self) -> PreparedContract {
        self.prepared
    }
}

impl<T: Sample, P: Processor<T>> PreparedProcessor<P, T> {
    /// The wrapped processor is valid.
    pub open spec fn wf(&self) -> bool {
        self.inner().inv()
    }

    /// Prepare a processor exactly once and take ownership of it.
    pub fn prepare(processor: P, spec: ProcessSpec) -> (r: Result<Self, DspError>)
        requires
            processor.inv(),
        ensures
            match r {
                Ok(p) => {
                    &&& p.wf()
                    &&& exists|q: &mut P| #[trigger]
                        call_ensures(P::prepare, (q, spec), Ok(())) && *q == processor && *final(q)
                            == p.inner()
                    &&& p.prepared_spec() == spec
                    &&& p.position() == 0
                    &&& p.shape().max_block == spec.max_block
                    &&& p.shape().channels == spec.channels
                    &&& call_ensures(P::io_mode, (&p.inner(),), p.shape().io_mode)
                    &&& call_ensures(P::sidechain_inputs, (&p.inner(),), p.shape().sidechain_inputs)
                },
                Err(e) => exists|q: &mut P| #[trigger]
                    call_ensures(P::prepare, (q, spec), Err(e)) && *q == processor,
            },
    {
        let mut processor = processor;
        let answer = processor.prepare(spec);
        match answer {
            Err(e) => {
                return Err(e);
            },
            Ok(done) => {
                assert(done == ());
            },
        }
        assert(answer == Ok::<(), DspError>(()));
        let io_mode = processor.io_mode();
        let sidechain_inputs = processor.sidechain_inputs();
        assert(call_ensures(P::io_mode, (&processor,), io_mode));
        assert(call_ensures(P::sidechain_inputs, (&processor,), sidechain_inputs));
        let prepared = PreparedContract {
            max_block: spec.max_block,
            channels: spec.channels,
            io_mode,
            sidechain_inputs,
        };
        let ghost readied = processor;
        let r = Self { processor, spec, sample_pos: 0, prepared, _sample: PhantomData };
        assert(r.inner() == readied);
        Ok(r)
    }

    /// The successfully prepared specification.
    pub fn spec(&self) -> (r: &ProcessSpec)
        ensures
            *r == self.prepared_spec(),
    {
        &self.spec
    }

    /// The absolute position of the next processed frame.
    pub fn sample_pos(&self) -> (r: u64)
        ensures
            r == self.position(),
    {
        self.sample_pos
    }

    /// The shape of blocks that processing expects.
    pub fn contract(&self) -> (r: PreparedContract)
        ensures
            r == self.shape(),
    {
        self.prepared
    }

    /// Process one block with explicit main signal, sidechains, and events.
    pub fn process<'view, 'samples>(
        &mut self,
        main: Io<'view, 'samples, T>,
        sidechains: &'view [AudioBlock<'view, 'samples, T>],
        events: &'view [ParamEvent<T::Real>],
    )
        requires
            old(self).wf(),
            acceptable(main, sidechains@, events@),
            old(self).inner().admits(shape_of(main, sidechains@.len(), old(self).position())),
        ensures
            final(self).wf(),
            exists|p: &mut P, c: &mut ProcessContext<'view, 'samples, T>| #[trigger]
                call_ensures(P::process, (p, c), ()) && *p == old(self).inner() && *final(p)
                    == final(self).inner() && context_of(
                    *c,
                    main,
                    sidechains@,
                    events@,
                    old(self).position(),
                ) && final(c).main.output() == exclusive_planes(final(main.table())@),
            final(main.table())@.len() == main.output().len(),
            forall|ch: int|
                0 <= ch < main.output().len() ==> final(#[trigger] final(main.table())@[ch])@
                    == final(main.plane(ch))@,
            final(self).position() == advanced_pos(old(self).position(), main.length()),
            final(self).prepared_spec() == old(self).prepared_spec(),
            final(self).shape() == old(self).shape(),
            forall|g: Geometry|
                old(self).inner().admits(g) ==> #[trigger] final(self).inner().admits(g),
    {
        let mut ctx = ProcessContext::from_io(main, self.sample_pos).with_sidechains(
            sidechains,
        ).with_events(events);
        let frames: usize = ctx.frames;
        assert(ctx.geometry() == shape_of(main, sidechains@.len(), self.sample_pos));
        self.processor.process(&mut ctx);
        proof {
            ctx.main.table_settles();
            ctx.main.shows_its_planes();
            assert forall|ch: int| 0 <= ch < main.output().len() implies final(
                #[trigger] final(main.table())@[ch]
            )@ == final(main.plane(ch))@ by {
                assert(ctx.main.plane(ch) == final(main.table())@[ch]);
            }
        }
        if frames != 0 {
            self.sample_pos = self.sample_pos.saturating_add(frames as u64);
        }
    }

    /// Process an in-place block without sidechains.
    pub fn process_in_place<'view, 'samples>(
        &mut self,
        planes: &'view mut [&'samples mut [T]],
        events: &'view [ParamEvent<T::Real>],
    )
        requires
            old(self).wf(),
            rectangular(exclusive_planes(old(planes)@), frames_of(exclusive_planes(old(planes)@))),
            sorted_events(events@),
            old(self).inner().admits(
                Geometry {
                    mode: IoMode::InPlace,
                    channels: old(planes)@.len(),
                    buses: 0,
                    frames: frames_of(exclusive_planes(old(planes)@)),
                    pos: old(self).position() as int,
                },
            ),
        ensures
            final(self).wf(),
            exists|p: &mut P, c: &mut ProcessContext<'view, 'samples, T>| #[trigger]
                call_ensures(P::process, (p, c), ()) && *p == old(self).inner() && *final(p)
                    == final(self).inner() && context_of(
                    *c,
                    c.main,
                    Seq::empty(),
                    events@,
                    old(self).position(),
                ) && c.main.mode() == IoMode::InPlace
                    && c.main.input() == exclusive_planes(old(planes)@)
                    && c.main.output() == exclusive_planes(old(planes)@) && final(c).main.output()
                    == exclusive_planes(final(planes)@),
            final(planes)@.len() == old(planes)@.len(),
            forall|ch: int|
                0 <= ch < old(planes)@.len() ==> final(#[trigger] final(planes)@[ch])@
                    == final(old(planes)@[ch])@,
            final(self).position() == advanced_pos(
                old(self).position(),
                frames_of(exclusive_planes(old(planes)@)) as usize,
            ),
            final(self).prepared_spec() == old(self).prepared_spec(),
            final(self).shape() == old(self).shape(),
            forall|g: Geometry|
                old(self).inner().admits(g) ==> #[trigger] final(self).inner().admits(g),
    {
        let main = Io::InPlace(AudioBlockMut::new(planes));
        proof {
            main.shows_its_planes();
        }
        let none: &[AudioBlock<'view, 'samples, T>] = &[];
        assert(none@ =~= Seq::empty());
        self.process(main, none, events);
    }

    /// Process an output-only block without sidechains.
    pub fn process_output_only<'view, 'samples>(
        &mut self,
        output: &'view mut [&'samples mut [T]],
        events: &'view [ParamEvent<T::Real>],
    )
        requires
            old(self).wf(),
            rectangular(exclusive_planes(old(output)@), frames_of(exclusive_planes(old(output)@))),
            sorted_events(events@),
            old(self).inner().admits(
                Geometry {
                    mode: IoMode::OutputOnly,
                    channels: old(output)@.len(),
                    buses: 0,
                    frames: frames_of(exclusive_planes(old(output)@)),
                    pos: old(self).position() as int,
                },
            ),
        ensures
            final(self).wf(),
            exists|p: &mut P, c: &mut ProcessContext<'view, 'samples, T>| #[trigger]
                call_ensures(P::process, (p, c), ()) && *p == old(self).inner() && *final(p)
                    == final(self).inner() && context_of(
                    *c,
                    c.main,
                    Seq::empty(),
                    events@,
                    old(self).position(),
                ) && c.main.mode() == IoMode::OutputOnly && c.main.input() == Seq::<Seq<T>>::empty()
                    && c.main.output() == exclusive_planes(old(output)@) && final(c).main.output()
                    == exclusive_planes(final(output)@),
            final(output)@.len() == old(output)@.len(),
            forall|ch: int|
                0 <= ch < old(output)@.len() ==> final(#[trigger] final(output)@[ch])@
                    == final(old(output)@[ch])@,
            final(self).position() == advanced_pos(
                old(self).position(),
                frames_of(exclusive_planes(old(output)@)) as usize,
            ),
            final(self).prepared_spec() == old(self).prepared_spec(),
            final(self).shape() == old(self).shape(),
            forall|g: Geometry|
                old(self).inner().admits(g) ==> #[trigger] final(self).inner().admits(g),
    {
        let main = Io::OutputOnly(AudioBlockMut::new(output));
        proof {
            main.shows_its_planes();
        }
        let none: &[AudioBlock<'view, 'samples, T>] = &[];
        assert(none@ =~= Seq::empty());
        self.process(main, none, events);
    }

    /// Process a split block without sidechains.
    pub fn process_split<'view, 'samples>(
        &mut self,
        input: &'view [&'samples [T]],
        output: &'view mut [&'samples mut [T]],
        events: &'view [ParamEvent<T::Real>],
    )
        requires
            old(self).wf(),
            rectangular(shared_planes(input@), frames_of(shared_planes(input@))),
            frames_of(shared_planes(input@)) == frames_of(exclusive_planes(old(output)@)),
            input@.len() == old(output)@.len(),
            rectangular(exclusive_planes(old(output)@), frames_of(exclusive_planes(old(output)@))),
            sorted_events(events@),
            old(self).inner().admits(
                Geometry {
                    mode: IoMode::Split,
                    channels: old(output)@.len(),
                    buses: 0,
                    frames: frames_of(exclusive_planes(old(output)@)),
                    pos: old(self).position() as int,
                },
            ),
        ensures
            final(self).wf(),
            exists|p: &mut P, c: &mut ProcessContext<'view, 'samples, T>| #[trigger]
                call_ensures(P::process, (p, c), ()) && *p == old(self).inner() && *final(p)
                    == final(self).inner() && context_of(
                    *c,
                    c.main,
                    Seq::empty(),
                    events@,
                    old(self).position(),
                ) && c.main.mode() == IoMode::Split && c.main.input() == shared_planes(input@)
                    && c.main.output() == exclusive_planes(old(output)@) && final(c).main.output()
                    == exclusive_planes(final(output)@),
            final(output)@.len() == old(output)@.len(),
            forall|ch: int|
                0 <= ch < old(output)@.len() ==> final(#[trigger] final(output)@[ch])@
                    == final(old(output)@[ch])@,
            final(self).position() == advanced_pos(
                old(self).position(),
                frames_of(exclusive_planes(old(output)@)) as usize,
            ),
            final(self).prepared_spec() == old(self).prepared_spec(),
            final(self).shape() == old(self).shape(),
            forall|g: Geometry|
                old(self).inner().admits(g) ==> #[trigger] final(self).inner().admits(g),
    {
        let main = Io::Split { input: AudioBlock::new(input), output: AudioBlockMut::new(output) };
        proof {
            main.shows_its_planes();
        }
        let none: &[AudioBlock<'view, 'samples, T>] = &[];
        assert(none@ =~= Seq::empty());
        self.process(main, none, events);
    }

    /// Reset processor state and restart the timeline at zero.
    pub fn restart(&mut self)
        requires
            old(self).wf(),
        ensures
            final(self).wf(),
            exists|p: &mut P| #[trigger]
                call_ensures(P::reset, (p,), ()) && *p == old(self).inner() && *final(p)
                    == final(self).inner(),
            final(self).position() == 0,
            final(self).prepared_spec() == old(self).prepared_spec(),
            final(self).shape() == old(self).shape(),
            forall|g: Geometry|
                old(self).inner().admits(g) ==> #[trigger] final(self).inner().admits(g),
    {
        self.processor.reset();
        self.sample_pos = 0;
    }

    /// Reset processor state and place the next block at `sample_pos`.
    pub fn seek(&mut self, sample_pos: u64)
        requires
            old(self).wf(),
        ensures
            final(self).wf(),
            exists|p: &mut P| #[trigger]
                call_ensures(P::reset, (p,), ()) && *p == old(self).inner() && *final(p)
                    == final(self).inner(),
            final(self).position() == sample_pos,
            final(self).prepared_spec() == old(self).prepared_spec(),
            final(self).shape() == old(self).shape(),
            forall|g: Geometry|
                old(self).inner().admits(g) ==> #[trigger] final(self).inner().admits(g),
    {
        self.processor.reset();
        self.sample_pos = sample_pos;
    }

    /// Snap one declared parameter without a smoothing ramp.
    pub fn set_parameter_immediate(&mut self, id: ParamId, value: T::Real) -> (r: Result<
        (),
        ParamSetError<T::Real>,
    >)
        requires
            old(self).wf(),
        ensures
            final(self).wf(),
            exists|p: &mut P| #[trigger]
                call_ensures(P::set_parameter_immediate, (p, id, value), r) && *p
                    == old(self).inner() && *final(p) == final(self).inner(),
            final(self).position() == old(self).position(),
            final(self).prepared_spec() == old(self).prepared_spec(),
            final(self).shape() == old(self).shape(),
            forall|g: Geometry|
                old(self).inner().admits(g) ==> #[trigger] final(self).inner().admits(g),
    {
        self.processor.set_parameter_immediate(id, value)
    }

    /// Processing latency in frames.
    pub fn latency(&self) -> (r: usize)
        ensures
            call_ensures(P::latency, (&self.inner(),), r),
    {
        self.processor.latency()
    }

    /// Output remaining after input ends.
    pub fn tail(&self) -> (r: Tail)
        ensures
            call_ensures(P::tail, (&self.inner(),), r),
    {
        self.processor.tail()
    }

    /// Prepared main signal form.
    pub fn io_mode(&self) -> (r: IoMode)
        ensures
            call_ensures(P::io_mode, (&self.inner(),), r),
    {
        self.processor.io_mode()
    }

    /// Number of required sidechain buses.
    pub fn sidechain_inputs(&self) -> (r: usize)
        ensures
            call_ensures(P::sidechain_inputs, (&self.inner(),), r),
    {
        self.processor.sidechain_inputs()
    }

    /// Declared automatable parameters.
    pub fn param_info(&self) -> (r: &[ParamInfo<T::Real>])
        ensures
            call_ensures(P::param_info, (&self.inner(),), r),
    {
        self.processor.param_info()
    }

    /// Logical reserved payload bytes.
    pub fn memory_footprint(&self) -> (r: usize)
        ensures
            call_ensures(P::memory_footprint, (&self.inner(),), r),
    {
        self.processor.memory_footprint()
    }

    /// Drain processor-local latency or tail without advancing input time.
    pub fn flush(&mut self, out: &mut AudioBlockMut<'_, '_, T>) -> (r: Produced)
        requires
            old(self).wf(),
            old(out).wf(),
            exists|g: Geometry|
                #[trigger] old(self).inner().admits(g) && g.channels == old(out).samples().len(),
        ensures
            final(self).wf(),
            final(out).wf(),
            r.frames <= old(out).length(),
            agree_from(old(out).samples(), final(out).samples(), r.frames as int),
            old(self).inner().drained() ==> r.frames == 0 && r.done && final(self).inner().drained(),
            exists|p: &mut P, o: &mut AudioBlockMut<'_, '_, T>| #[trigger]
                call_ensures(P::flush, (p, o), r) && *p == old(self).inner() && *final(p)
                    == final(self).inner() && *o == *old(out) && *final(o) == *final(out),
            final(self).position() == old(self).position(),
            final(self).prepared_spec() == old(self).prepared_spec(),
            final(self).shape() == old(self).shape(),
            forall|g: Geometry|
                old(self).inner().admits(g) ==> #[trigger] final(self).inner().admits(g),
    {
        self.processor.flush(out)
    }

    /// Immutable access for processor-specific readouts.
    pub fn processor(&self) -> (r: &P)
        ensures
            *r == self.inner(),
    {
        &self.processor
    }

    /// Consume the wrapper and return the processor for direct host control.
    pub fn into_inner(self) -> (r: P)
        ensures
            r == self.inner(),
    {
        self.processor
    }
}

impl<T: Sample, K: Kernel<T>> PreparedProcessor<KernelProcessor<K, T>, T> {
    /// Wrap and prepare a kernel.
    pub fn prepare_kernel(kernel: K, spec: ProcessSpec) -> (r: Result<Self, DspError>)
        requires
            kernel.inv(),
        ensures
            r is Ok ==> exists|w: &mut KernelProcessor<K, T>| #[trigger]
                call_ensures(
                    <KernelProcessor<K, T> as Processor<T>>::prepare,
                    (w, spec),
                    Ok(()),
                ) && w.kernel() == kernel && w.bank().len() == 0 && w.prepared() is None
                    && *final(w) == r->Ok_0.inner(),
            r is Err ==> exists|w: &mut KernelProcessor<K, T>| #[trigger]
                call_ensures(
                    <KernelProcessor<K, T> as Processor<T>>::prepare,
                    (w, spec),
                    Err(r->Err_0),
                ) && w.kernel() == kernel && w.bank().len() == 0 && w.prepared() is None,
            r matches Ok(p) ==> {
                &&& p.wf()
                &&& p.prepared_spec() == spec
                &&& p.position() == 0
                &&& p.shape().max_block == spec.max_block
                &&& p.shape().channels == spec.channels
                &&& call_ensures(
                    <KernelProcessor<K, T> as Processor<T>>::io_mode,
                    (&p.inner(),),
                    p.shape().io_mode,
                )
                &&& call_ensures(
                    <KernelProcessor<K, T> as Processor<T>>::sidechain_inputs,
                    (&p.inner(),),
                    p.shape().sidechain_inputs,
                )
            },
    {
        Self::prepare_kernel_with_sample_type(kernel, spec)
    }

    /// Wrap and prepare a kernel for an explicit sample type.
    pub fn prepare_kernel_with_sample_type(kernel: K, spec: ProcessSpec) -> (r: Result<
        Self,
        DspError,
    >)
        requires
            kernel.inv(),
        ensures
            r is Ok ==> exists|w: &mut KernelProcessor<K, T>| #[trigger]
                call_ensures(
                    <KernelProcessor<K, T> as Processor<T>>::prepare,
                    (w, spec),
                    Ok(()),
                ) && w.kernel() == kernel && w.bank().len() == 0 && w.prepared() is None
                    && *final(w) == r->Ok_0.inner(),
            r is Err ==> exists|w: &mut KernelProcessor<K, T>| #[trigger]
                call_ensures(
                    <KernelProcessor<K, T> as Processor<T>>::prepare,
                    (w, spec),
                    Err(r->Err_0),
                ) && w.kernel() == kernel && w.bank().len() == 0 && w.prepared() is None,
            r matches Ok(p) ==> {
                &&& p.wf()
                &&& p.prepared_spec() == spec
                &&& p.position() == 0
                &&& p.shape().max_block == spec.max_block
                &&& p.shape().channels == spec.channels
                &&& call_ensures(
                    <KernelProcessor<K, T> as Processor<T>>::io_mode,
                    (&p.inner(),),
                    p.shape().io_mode,
                )
                &&& call_ensures(
                    <KernelProcessor<K, T> as Processor<T>>::sidechain_inputs,
                    (&p.inner(),),
                    p.shape().sidechain_inputs,
                )
            },
    {
        Self::prepare(KernelProcessor::with_sample_type(kernel), spec)
    }
}

/// Positions count frames: however frames are divided into blocks, the position after them is
/// as many frames on, up to the last position.
pub proof fn positions_count_frames(pos: u64, a: usize, b: usize)
    ensures
        pos + a <= u64::MAX ==> advanced_pos(pos, a) == pos + a,
        pos + a > u64::MAX ==> advanced_pos(pos, a) == u64::MAX,
        a + b <= usize::MAX ==> advanced_pos(advanced_pos(pos, a), b) == advanced_pos(
            pos,
            (a + b) as usize,
        ),
{
}

} // verus!
