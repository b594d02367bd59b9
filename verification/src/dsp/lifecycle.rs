//! What holds of a wrapped kernel from one preparation to the next.

use crate::contract::context::Tail;
use crate::contract::param::{ParamId, ParamInfo, ParamSetError};
use crate::contract::spec::ProcessSpec;
use crate::contract::traits::{
    kernel_answers_stand, processor_answers_stand, BlockView, Kernel, Processor,
};
use crate::dsp::driver::{driven_output, KernelProcessor};
use crate::dsp::schedule::{
    banks_evolve_alike, frame_out, indistinguishable_banks, lemma_indistinguishable_blocks,
    lemma_indistinguishable_params, lemma_kernel_keeps_rest, rendering_keeps_rest, same_parameters,
    Block,
};
use crate::dsp::smoother::{
    bank_values, fresh_bank, indistinguishable, reset_is_as_built, same_parameter,
};
use crate::number::Sample;
use vstd::prelude::*;

verus! {

/// One operation other than preparing took `a` to `b`: processing a block, writing
/// a parameter, draining, or resetting.
pub open spec fn used<T: Sample, K: Kernel<T>>(
    a: KernelProcessor<K, T>,
    b: KernelProcessor<K, T>,
) -> bool {
    ||| exists|x: BlockView<T>, output: Seq<Seq<T>>| #[trigger] a.processed(x, &b, output)
    ||| exists|id: ParamId, value: T::Real, answer: Result<(), ParamSetError<T::Real>>| #[trigger]
        a.assigned(id, value, &b, answer)
    ||| a.emptied(&b)
    ||| a.restored(&b)
}

/// Every state of `trace` but the first came from the one before it by an operation
/// other than preparing.
pub open spec fn lived<T: Sample, K: Kernel<T>>(trace: Seq<KernelProcessor<K, T>>) -> bool {
    &&& trace.len() >= 1
    &&& forall|k: int| 0 <= k < trace.len() - 1 ==> used(#[trigger] trace[k], trace[k + 1])
}

/// Equal kernels prepare alike: two wrappers of equal kernels, prepared for one spec,
/// are in the same state, whatever each of them was before.
pub proof fn equal_kernels_prepare_alike<T: Sample, K: Kernel<T>>(
    a: KernelProcessor<K, T>,
    ready_a: KernelProcessor<K, T>,
    b: KernelProcessor<K, T>,
    ready_b: KernelProcessor<K, T>,
    spec: ProcessSpec,
    info: Seq<ParamInfo<T::Real>>,
)
    requires
        a.kernel() == b.kernel(),
        a.readied(spec, info, &ready_a, Ok(())),
        b.readied(spec, info, &ready_b, Ok(())),
    ensures
        ready_a.model() == ready_b.model(),
        ready_a.bank() == ready_b.bank(),
        ready_a.prepared() is Some && ready_b.prepared() is Some,
        ready_a.prepared()->0.max_block == ready_b.prepared()->0.max_block,
        ready_a.prepared()->0.channels == ready_b.prepared()->0.channels,
{
}

/// Wrappers in states that cannot be told apart stay so: one block takes them to the
/// same output and to such states again.
pub proof fn alike_wrappers_stay_alike<T: Sample, K: Kernel<T>>(
    a: KernelProcessor<K, T>,
    after_a: KernelProcessor<K, T>,
    b: KernelProcessor<K, T>,
    after_b: KernelProcessor<K, T>,
    x: BlockView<T>,
    output_a: Seq<Seq<T>>,
    output_b: Seq<Seq<T>>,
)
    requires
        a.model() == b.model(),
        indistinguishable_banks(a.bank(), b.bank()),
        a.processed(x, &after_a, output_a),
        b.processed(x, &after_b, output_b),
    ensures
        output_a == output_b,
        after_a.model() == after_b.model(),
        indistinguishable_banks(after_a.bank(), after_b.bank()),
{
    let y = Block { x: x.input, key: x.key, events: x.events, frames: x.frames, pos: x.pos };
    banks_evolve_alike(a.bank(), b.bank(), y.events, y.frames, y.frames, y.pos);
    lemma_indistinguishable_blocks::<T, K>(a.model(), a.bank(), b.bank(), y, y.frames);
    assert forall|i: int| 0 <= i < y.frames implies frame_out::<T, K>(a.model(), a.bank(), y, i)
        == #[trigger] frame_out::<T, K>(b.model(), b.bank(), y, i) by {
        lemma_indistinguishable_blocks::<T, K>(a.model(), a.bank(), b.bank(), y, i as nat);
        lemma_indistinguishable_params::<T, K>(a.bank(), b.bank(), y, i);
    }
    assert forall|ch: int| 0 <= ch < output_a.len() implies output_a[ch] == output_b[ch] by {
        assert(output_a[ch] =~= output_b[ch]);
    }
    assert(output_a =~= output_b);
}

/// Use keeps what a wrapper was prepared for: the state that a reset restores, the
/// declared parameters, the shape of its blocks, and its answers about itself.
pub proof fn use_keeps_the_preparation<T: Sample, K: Kernel<T>>(
    trace: Seq<KernelProcessor<K, T>>,
    k: int,
)
    requires
        rendering_keeps_rest::<T, K>(),
        lived(trace),
        0 <= k < trace.len(),
    ensures
        K::rest(trace[k].model()) == K::rest(trace[0].model()),
        same_parameters(trace[k].bank(), trace[0].bank()),
        trace[k].prepared() == trace[0].prepared(),
        trace[k].kernel().standing() == trace[0].kernel().standing(),
    decreases k,
{
    if k > 0 {
        use_keeps_the_preparation(trace, k - 1);
        lemma_use_keeps(trace[k - 1], trace[k]);
        let (first, before, now) = (trace[0].bank(), trace[k - 1].bank(), trace[k].bank());
        assert forall|i: int| 0 <= i < now.len() implies same_parameter(
            #[trigger] now[i],
            first[i],
        ) by {
            assert(same_parameter(now[i], before[i]));
            assert(same_parameter(before[i], first[i]));
        }
    }
}

proof fn lemma_use_keeps<T: Sample, K: Kernel<T>>(
    a: KernelProcessor<K, T>,
    b: KernelProcessor<K, T>,
)
    requires
        rendering_keeps_rest::<T, K>(),
        used(a, b),
    ensures
        K::rest(b.model()) == K::rest(a.model()),
        same_parameters(b.bank(), a.bank()),
        b.prepared() == a.prepared(),
        b.kernel().standing() == a.kernel().standing(),
{
    if exists|x: BlockView<T>, output: Seq<Seq<T>>| #[trigger] a.processed(x, &b, output) {
        let (x, output) = choose|x: BlockView<T>, output: Seq<Seq<T>>| #[trigger]
            a.processed(x, &b, output);
        let y = Block { x: x.input, key: x.key, events: x.events, frames: x.frames, pos: x.pos };
        lemma_kernel_keeps_rest::<T, K>(a.model(), a.bank(), y, y.frames);
        banks_evolve_alike(a.bank(), a.bank(), y.events, y.frames, y.frames, y.pos);
    }
}

/// A reset makes a processor a fresh one: whatever was done since it was prepared, a
/// reset brings it to the state of an equal processor that has just been prepared for
/// the same spec. Every later block is written alike, parameters are at their
/// defaults, and the processor's answers about itself are those from before.
pub proof fn reset_equals_a_fresh_processor<T: Sample, K: Kernel<T>>(
    a: KernelProcessor<K, T>,
    trace: Seq<KernelProcessor<K, T>>,
    reset: KernelProcessor<K, T>,
    b: KernelProcessor<K, T>,
    fresh_one: KernelProcessor<K, T>,
    spec: ProcessSpec,
    info: Seq<ParamInfo<T::Real>>,
)
    requires
        rendering_keeps_rest::<T, K>(),
        a.kernel() == b.kernel(),
        lived(trace),
        a.readied(spec, info, &trace[0], Ok(())),
        trace.last().restored(&reset),
        b.readied(spec, info, &fresh_one, Ok(())),
    ensures
        reset.model() == fresh_one.model(),
        indistinguishable_banks(reset.bank(), fresh_one.bank()),
        bank_values(reset.bank()) == bank_values(fresh_bank(info, spec.sample_rate)),
        reset.prepared() == trace[0].prepared(),
        reset.kernel().standing() == trace.last().kernel().standing(),
        forall|y: Block<T>, width: nat| #[trigger]
            driven_output::<T, K>(reset.model(), reset.bank(), y, width) == driven_output::<T, K>(
                fresh_one.model(),
                fresh_one.bank(),
                y,
                width,
            ),
{
    let last = trace.last();
    equal_kernels_prepare_alike(a, trace[0], b, fresh_one, spec, info);
    use_keeps_the_preparation(trace, trace.len() - 1);
    let (r, f) = (reset.bank(), fresh_one.bank());
    assert forall|i: int| 0 <= i < r.len() implies indistinguishable(#[trigger] r[i], f[i]) by {
        assert(same_parameter(last.bank()[i], trace[0].bank()[i]));
        reset_is_as_built(last.bank()[i], info[i], spec.sample_rate);
    }
    assert forall|i: int| 0 <= i < r.len() implies bank_values(r)[i] == bank_values(
        fresh_bank(info, spec.sample_rate),
    )[i] by {
        assert(indistinguishable(r[i], f[i]));
    }
    assert(bank_values(r) =~= bank_values(fresh_bank(info, spec.sample_rate)));
    assert forall|y: Block<T>, width: nat| #[trigger]
        driven_output::<T, K>(reset.model(), r, y, width) == driven_output::<T, K>(
            fresh_one.model(),
            f,
            y,
            width,
        ) by {
        let (p, q) = (
            driven_output::<T, K>(reset.model(), r, y, width),
            driven_output::<T, K>(fresh_one.model(), f, y, width),
        );
        assert forall|i: int| 0 <= i < y.frames implies frame_out::<T, K>(reset.model(), r, y, i)
            == #[trigger] frame_out::<T, K>(fresh_one.model(), f, y, i) by {
            lemma_indistinguishable_blocks::<T, K>(reset.model(), r, f, y, i as nat);
            lemma_indistinguishable_params::<T, K>(r, f, y, i);
        }
        assert forall|ch: int| 0 <= ch < p.len() implies p[ch] == q[ch] by {
            assert(p[ch] =~= q[ch]);
        }
        assert(p =~= q);
    }
}

/// A wrapper answers as its kernel does, with the bank's bytes added: where the kernel's
/// answers are its standing, so are the wrapper's.
pub proof fn wrapped_answers_stand<T: Sample, K: Kernel<T>>()
    requires
        kernel_answers_stand::<T, K>(),
    ensures
        processor_answers_stand::<T, KernelProcessor<K, T>>(),
{
}

/// A boxed processor answers as the one in the box does.
pub proof fn boxed_answers_stand<T: Sample, P: Processor<T>>()
    requires
        processor_answers_stand::<T, P>(),
    ensures
        processor_answers_stand::<T, Box<P>>(),
{
}

/// A wrapper that was prepared under a cap holds no more than the cap.
pub proof fn prepared_footprint_fits<T: Sample, K: Kernel<T>>(
    a: KernelProcessor<K, T>,
    ready: KernelProcessor<K, T>,
    spec: ProcessSpec,
    info: Seq<ParamInfo<T::Real>>,
    cap: usize,
)
    requires
        kernel_answers_stand::<T, K>(),
        a.readied(spec, info, &ready, Ok(())),
        ready.inv(),
        spec.max_memory == Some(cap),
    ensures
        ready.standing().footprint <= cap,
{
}

/// Whatever a host does after `prepare`, latency, tail, I/O shape, footprint, parameters
/// and sidechain buses are answered as right after it.
pub proof fn answers_stay_under_use<T: Sample, K: Kernel<T>>(
    trace: Seq<KernelProcessor<K, T>>,
    k: int,
)
    requires
        rendering_keeps_rest::<T, K>(),
        kernel_answers_stand::<T, K>(),
        lived(trace),
        0 <= k < trace.len(),
        trace[0].inv(),
        trace[k].inv(),
    ensures
        trace[k].standing() == trace[0].standing(),
        processor_answers_stand::<T, KernelProcessor<K, T>>(),
        forall|a: usize, b: usize|
            #[trigger] call_ensures(
                <KernelProcessor<K, T> as Processor<T>>::memory_footprint,
                (&trace[0],),
                a,
            ) && #[trigger] call_ensures(
                <KernelProcessor<K, T> as Processor<T>>::memory_footprint,
                (&trace[k],),
                b,
            ) ==> a == b,
        forall|a: usize, b: usize|
            #[trigger] call_ensures(
                <KernelProcessor<K, T> as Processor<T>>::latency,
                (&trace[0],),
                a,
            ) && #[trigger] call_ensures(
                <KernelProcessor<K, T> as Processor<T>>::latency,
                (&trace[k],),
                b,
            ) ==> a == b,
        forall|a: Tail, b: Tail|
            #[trigger] call_ensures(
                <KernelProcessor<K, T> as Processor<T>>::tail,
                (&trace[0],),
                a,
            ) && #[trigger] call_ensures(
                <KernelProcessor<K, T> as Processor<T>>::tail,
                (&trace[k],),
                b,
            ) ==> a == b,
{
    use_keeps_the_preparation(trace, k);
    wrapped_answers_stand::<T, K>();
}

} // verus!
