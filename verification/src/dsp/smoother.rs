//! Smoothed parameter state.
//!
//! One [`Smoother`] per declared parameter ramps a raw value toward its target
//! at the control rate. [`SmootherBank`] holds them in declaration order.

use crate::contract::error::DspError;
use crate::contract::param::{ParamId, ParamInfo, ParamSetError, Smoothing, ValueScale};
use crate::contract::spec::ProcessSpec;
use crate::dsp::memory::{admission, extended, MemoryLayout};
use crate::dsp::sanitize::{finite_or_zero, sane};
use crate::number::{
    at_most, at_most_of, clamp_to, clamped, clamped_is_within, larger, max_of, min_of, nil, smaller,
    unit, within, zero_corrections, Order, Real,
};
use vstd::layout::size_of;
use vstd::prelude::*;

verus! {

/// Control-rate period in frames.
pub const CR_STEP: u64 = 32;

/// One parameter's smoother. Ramps `cur` toward `target` at the control rate.
#[derive(Debug)]
pub struct Smoother<R> {
    pub id: ParamId,
    pub cur: R,
    pub target: R,
    pub range: (R, R),
    pub default: R,
    /// Control-rate steps over which a ramp is spread.
    pub steps: R,
    pub updates_remaining: u64,
    pub step_delta: R,
    pub shape: Smoothing,
    /// The approach coefficient of a one-pole ramp, or the per-step ratio of the
    /// current exponential ramp.
    pub coeff: R,
}

impl<R: Copy> Copy for Smoother<R> {

}

impl<R: Copy> Clone for Smoother<R> {
    fn clone(&self) -> (r: Self)
        ensures
            r == *self,
    {
        *self
    }
}

// ---------------------------------------------------------------------------
// What one smoother does
// ---------------------------------------------------------------------------

/// The control-rate steps in one smoothing time.
pub open spec fn smoothing_steps<R: Real>(smoothing_ms: R, sample_rate: u32) -> R {
    smoothing_ms.prod(R::decimal_of(1, -3)).prod(R::natural(sample_rate as u64)).quot(
        R::natural(CR_STEP),
    )
}

/// The control-rate steps over which a ramp is spread: a ramp takes at least one.
pub open spec fn ramp_steps<R: Real>(smoothing_ms: R, sample_rate: u32) -> R {
    larger(smoothing_steps(smoothing_ms, sample_rate), unit())
}

/// The smoothing time in use: five milliseconds where the declared one is not
/// finite and positive.
pub open spec fn smoothing_time<R: Real>(p: ParamInfo<R>) -> R {
    if p.smoothing_ms.finite() && nil::<R>().below(p.smoothing_ms) {
        p.smoothing_ms
    } else {
        R::decimal_of(5, 0)
    }
}

/// The default in use: inside the range, or zero where the range is not finite
/// and ordered or the declared default is not finite.
pub open spec fn default_value<R: Real>(p: ParamInfo<R>) -> R {
    let (lo, hi) = p.range;
    if p.default.finite() && lo.finite() && hi.finite() && at_most(lo, hi) {
        clamped(p.default, lo, hi)
    } else {
        nil()
    }
}

/// A smoother at its default.
pub open spec fn fresh<R: Real>(p: ParamInfo<R>, sample_rate: u32) -> Smoother<R> {
    let exact = smoothing_steps(smoothing_time(p), sample_rate);
    Smoother {
        id: p.id,
        cur: default_value(p),
        target: default_value(p),
        range: p.range,
        default: default_value(p),
        steps: ramp_steps(smoothing_time(p), sample_rate),
        updates_remaining: 0,
        step_delta: nil(),
        shape: p.smoothing,
        coeff: if p.smoothing == Smoothing::OnePole {
            unit::<R>().diff(unit::<R>().opposite().quot(exact).exponential())
        } else {
            unit()
        },
    }
}

/// The smoother after a new target. A target like the current one changes
/// nothing, so a ramp in progress is not restarted.
pub open spec fn retargeted<R: Real>(s: Smoother<R>, value: R) -> Smoother<R> {
    let target = clamped(value, s.range.0, s.range.1);
    if target.alike(s.target) {
        s
    } else {
        match s.shape {
            Smoothing::Linear => Smoother {
                target,
                updates_remaining: s.steps.ceiling().whole(),
                step_delta: target.diff(s.cur).magnitude().quot(s.steps),
                ..s
            },
            Smoothing::Exponential => Smoother {
                target,
                updates_remaining: s.steps.ceiling().whole(),
                coeff: if nil::<R>().below(s.cur) && nil::<R>().below(target) {
                    target.logarithm().diff(s.cur.logarithm()).magnitude().quot(
                        s.steps,
                    ).exponential()
                } else {
                    unit()
                },
                ..s
            },
            Smoothing::Step | Smoothing::OnePole => Smoother { target, ..s },
        }
    }
}

/// The smoother snapped to `value` without a ramp.
pub open spec fn pinned<R: Real>(s: Smoother<R>, value: R) -> Smoother<R> {
    let v = clamped(value, s.range.0, s.range.1);
    Smoother { cur: v, target: v, updates_remaining: 0, ..s }
}

/// The smoother returned to its default.
pub open spec fn rested<R: Real>(s: Smoother<R>) -> Smoother<R> {
    Smoother { cur: s.default, target: s.default, updates_remaining: 0, ..s }
}

/// The smoother after the shape's own update, before sanitizing.
pub open spec fn advanced<R: Real>(s: Smoother<R>) -> Smoother<R> {
    match s.shape {
        Smoothing::Step => Smoother { cur: s.target, ..s },
        Smoothing::OnePole => Smoother { cur: s.cur.sum(s.target.diff(s.cur).prod(s.coeff)), ..s },
        Smoothing::Linear => if s.cur.alike(s.target) {
            Smoother { updates_remaining: 0, ..s }
        } else if s.updates_remaining <= 1 {
            Smoother { cur: s.target, updates_remaining: 0, ..s }
        } else {
            Smoother {
                cur: s.cur.sum(s.step_delta.signed_as(s.target.diff(s.cur))),
                updates_remaining: (s.updates_remaining - 1) as u64,
                ..s
            }
        },
        Smoothing::Exponential => if s.target.alike(s.cur) {
            Smoother { updates_remaining: 0, ..s }
        } else if s.updates_remaining <= 1 {
            Smoother { cur: s.target, updates_remaining: 0, ..s }
        } else if s.cur.below(s.target) {
            Smoother {
                cur: smaller(s.cur.prod(s.coeff), s.target),
                updates_remaining: (s.updates_remaining - 1) as u64,
                ..s
            }
        } else if s.target.below(s.cur) {
            Smoother {
                cur: larger(s.cur.quot(s.coeff), s.target),
                updates_remaining: (s.updates_remaining - 1) as u64,
                ..s
            }
        } else {
            s
        },
    }
}

/// The smoother after one control-rate step.
pub open spec fn stepped<R: Real>(s: Smoother<R>) -> Smoother<R> {
    let a = advanced(s);
    Smoother { cur: clamped(sane(a.cur), s.range.0, s.range.1), ..a }
}

/// Range in order, and current, target, and default finite inside it.
pub open spec fn sound<R: Real>(s: Smoother<R>) -> bool {
    let (lo, hi) = s.range;
    &&& lo.finite() && hi.finite() && at_most(lo, hi)
    &&& s.cur.finite() && within(s.cur, lo, hi)
    &&& s.target.finite() && within(s.target, lo, hi)
    &&& s.default.finite() && within(s.default, lo, hi)
}

/// No operation takes a smoother's value outside its declared range.
pub proof fn operations_keep_the_range<R: Real>(s: Smoother<R>, value: R)
    requires
        sound(s),
        value.finite(),
        nil::<R>().finite(),
    ensures
        sound(stepped(s)),
        sound(retargeted(s, value)),
        sound(pinned(s, value)),
        sound(rested(s)),
{
    clamped_is_within(value, s.range.0, s.range.1);
    clamped_is_within(sane(advanced(s).cur), s.range.0, s.range.1);
}

/// `n` control-rate steps.
pub open spec fn stepped_times<R: Real>(s: Smoother<R>, n: nat) -> Smoother<R>
    decreases n,
{
    if n == 0 {
        s
    } else {
        stepped(stepped_times(s, (n - 1) as nat))
    }
}

proof fn lemma_arrived_stays<R: Real>(s: Smoother<R>)
    requires
        sound(s),
        s.cur.alike(s.target),
        s.shape == Smoothing::Linear || s.shape == Smoothing::Exponential || s.shape
            == Smoothing::Step,
    ensures
        stepped(s).cur.alike(s.target),
        stepped(s).target == s.target,
        s.shape != Smoothing::Step ==> stepped(s).cur == s.cur,
{
}

/// Without another target change, a linear or exponential ramp has arrived
/// after the updates it was given, and a step change after one.
pub proof fn ramps_arrive<R: Real>(s: Smoother<R>, n: nat)
    requires
        sound(s),
        s.shape != Smoothing::OnePole,
        n >= 1,
        s.shape != Smoothing::Step ==> n >= s.updates_remaining,
        nil::<R>().finite(),
    ensures
        stepped_times(s, n).cur.alike(s.target),
        stepped_times(s, n).target == s.target,
{
    lemma_ramp_progress(s, n);
}

proof fn lemma_ramp_progress<R: Real>(s: Smoother<R>, n: nat)
    requires
        sound(s),
        s.shape != Smoothing::OnePole,
        nil::<R>().finite(),
    ensures
        sound(stepped_times(s, n)),
        stepped_times(s, n).target == s.target,
        stepped_times(s, n).shape == s.shape,
        n >= 1 && s.shape == Smoothing::Step ==> stepped_times(s, n).cur.alike(s.target),
        s.shape != Smoothing::Step ==> {
            ||| stepped_times(s, n).cur.alike(s.target)
            ||| stepped_times(s, n).updates_remaining + n == s.updates_remaining
                && stepped_times(s, n).updates_remaining >= 1
            ||| n == 0
        },
    decreases n,
{
    if n > 0 {
        lemma_ramp_progress(s, (n - 1) as nat);
        let t = stepped_times(s, (n - 1) as nat);
        operations_keep_the_range(t, t.target);
        if t.cur.alike(t.target) {
            lemma_arrived_stays(t);
        }
    }
}

/// A pinned value stays where it was put, whatever the shape.
pub proof fn pinned_value_holds<R: Real>(s: Smoother<R>, value: R, n: nat)
    requires
        sound(s),
        value.finite(),
        s.shape == Smoothing::OnePole ==> s.coeff.finite() && zero_corrections::<R>(),
        nil::<R>().finite(),
    ensures
        stepped_times(pinned(s, value), n).cur.alike(clamped(value, s.range.0, s.range.1)),
    decreases n,
{
    let v = clamped(value, s.range.0, s.range.1);
    let p = pinned(s, value);
    operations_keep_the_range(s, value);
    lemma_pinned_holds(p, n);
}

proof fn lemma_pinned_holds<R: Real>(p: Smoother<R>, n: nat)
    requires
        sound(p),
        p.cur == p.target,
        p.shape == Smoothing::OnePole ==> p.coeff.finite() && zero_corrections::<R>(),
        nil::<R>().finite(),
    ensures
        sound(stepped_times(p, n)),
        stepped_times(p, n).target == p.target,
        stepped_times(p, n).shape == p.shape,
        stepped_times(p, n).coeff == p.coeff,
        stepped_times(p, n).cur.alike(p.target),
    decreases n,
{
    if n > 0 {
        lemma_pinned_holds(p, (n - 1) as nat);
        let t = stepped_times(p, (n - 1) as nat);
        operations_keep_the_range(t, t.target);
        if p.shape == Smoothing::OnePole {
            lemma_one_pole_holds(t);
        } else {
            lemma_arrived_stays(t);
        }
    }
}

proof fn lemma_one_pole_holds<R: Real>(t: Smoother<R>)
    requires
        sound(t),
        t.shape == Smoothing::OnePole,
        t.coeff.finite(),
        t.cur.alike(t.target),
        zero_corrections::<R>(),
    ensures
        stepped(t).cur.alike(t.target),
{
    let c = t.cur.sum(t.target.diff(t.cur).prod(t.coeff));
    assert(c.finite() && c.alike(t.target));
}

/// Two smoothers that no sequence of operations can tell apart: what differs
/// is only ramp state that is not in use.
pub open spec fn indistinguishable<R: Real>(a: Smoother<R>, b: Smoother<R>) -> bool {
    &&& a.id == b.id
    &&& a.cur == b.cur
    &&& a.target == b.target
    &&& a.range == b.range
    &&& a.default == b.default
    &&& a.steps == b.steps
    &&& a.shape == b.shape
    &&& a.updates_remaining == b.updates_remaining
    &&& a.shape == Smoothing::OnePole ==> a.coeff == b.coeff
    &&& a.shape == Smoothing::Linear && a.updates_remaining > 1 ==> a.step_delta == b.step_delta
    &&& a.shape == Smoothing::Exponential && a.updates_remaining > 1 ==> a.coeff == b.coeff
}

/// Every operation keeps indistinguishable smoothers indistinguishable.
pub proof fn operations_cannot_distinguish<R: Real>(a: Smoother<R>, b: Smoother<R>, value: R)
    requires
        indistinguishable(a, b),
    ensures
        indistinguishable(stepped(a), stepped(b)),
        indistinguishable(retargeted(a, value), retargeted(b, value)),
        indistinguishable(pinned(a, value), pinned(b, value)),
        indistinguishable(rested(a), rested(b)),
{
}

/// The parts of a smoother that no operation changes.
pub open spec fn same_parameter<R: Real>(a: Smoother<R>, b: Smoother<R>) -> bool {
    &&& a.id == b.id
    &&& a.range == b.range
    &&& a.default == b.default
    &&& a.steps == b.steps
    &&& a.shape == b.shape
    &&& a.shape == Smoothing::OnePole ==> a.coeff == b.coeff
}

/// Operations leave a smoother's declaration alone.
pub proof fn operations_keep_the_parameter<R: Real>(s: Smoother<R>, value: R)
    ensures
        same_parameter(stepped(s), s),
        same_parameter(retargeted(s, value), s),
        same_parameter(pinned(s, value), s),
        same_parameter(rested(s), s),
{
}

/// Resetting a smoother makes it indistinguishable from a freshly built one.
pub proof fn reset_is_as_built<R: Real>(s: Smoother<R>, p: ParamInfo<R>, sample_rate: u32)
    requires
        same_parameter(s, fresh(p, sample_rate)),
    ensures
        indistinguishable(rested(s), fresh(p, sample_rate)),
{
}

// ---------------------------------------------------------------------------
// Metadata validation
// ---------------------------------------------------------------------------

/// What is wrong with the metadata declared at `index`, if anything.
pub open spec fn metadata_fault<R: Real>(p: ParamInfo<R>, index: int) -> Option<DspError> {
    let (lo, hi) = p.range;
    if p.id.0 != index {
        Some(
            DspError::InvalidParam("parameter ids must be sequential from 0 in declaration order"),
        )
    } else if !lo.finite() || !hi.finite() || hi.below(lo) {
        Some(DspError::InvalidParam("parameter ranges must be finite and ordered"))
    } else if !p.default.finite() {
        Some(DspError::InvalidParam("parameter defaults must be finite"))
    } else if p.default.below(lo) || hi.below(p.default) {
        Some(DspError::InvalidParam("parameter defaults must be inside their range"))
    } else if !p.smoothing_ms.finite() || at_most(p.smoothing_ms, nil()) {
        Some(DspError::InvalidParam("parameter smoothing_ms must be finite and positive"))
    } else if p.smoothing == Smoothing::Exponential && at_most(lo, nil()) {
        Some(DspError::InvalidParam("Exponential smoothing requires a positive range minimum"))
    } else if p.value_scale == ValueScale::Logarithmic && at_most(lo, nil()) {
        Some(DspError::InvalidParam("Logarithmic value scale requires a positive range minimum"))
    } else {
        None
    }
}

/// The metadata of `params` from index `from` on: the first fault decides.
pub open spec fn metadata_outcome<R: Real>(params: Seq<ParamInfo<R>>, from: int) -> Result<
    (),
    DspError,
>
    decreases params.len() - from,
{
    if from >= params.len() {
        Ok(())
    } else {
        match metadata_fault(params[from], from) {
            Some(e) => Err(e),
            None => metadata_outcome(params, from + 1),
        }
    }
}

/// Every declaration is free of faults.
pub open spec fn valid_metadata<R: Real>(params: Seq<ParamInfo<R>>) -> bool {
    forall|i: int| 0 <= i < params.len() ==> metadata_fault(#[trigger] params[i], i) is None
}

proof fn lemma_valid_metadata<R: Real>(params: Seq<ParamInfo<R>>, from: int)
    requires
        0 <= from <= params.len(),
    ensures
        metadata_outcome(params, from) is Ok <==> (forall|i: int|
            from <= i < params.len() ==> metadata_fault(#[trigger] params[i], i) is None),
    decreases params.len() - from,
{
    if from < params.len() {
        lemma_valid_metadata(params, from + 1);
    }
}

/// Metadata passes exactly when no declaration has a fault.
pub proof fn metadata_passes_when_valid<R: Real>(params: Seq<ParamInfo<R>>)
    ensures
        metadata_outcome(params, 0) is Ok <==> valid_metadata(params),
{
    lemma_valid_metadata(params, 0);
}

/// What declarations that pass hold: ids count from zero in declaration order, ranges are finite
/// and ordered with the default inside, smoothing takes a finite and positive time, and an
/// exponential ramp or a logarithmic scale has a positive range.
pub proof fn passed_metadata_is_usable<R: Real>(params: Seq<ParamInfo<R>>)
    requires
        nil::<R>().finite(),
    ensures
        metadata_outcome(params, 0) is Ok <==> forall|i: int|
            0 <= i < params.len() ==> {
                let p = #[trigger] params[i];
                &&& p.id.0 == i
                &&& p.range.0.finite() && p.range.1.finite() && p.default.finite()
                &&& at_most(p.range.0, p.default) && at_most(p.default, p.range.1)
                &&& p.smoothing_ms.finite() && nil::<R>().below(p.smoothing_ms)
                &&& p.smoothing == Smoothing::Exponential ==> nil::<R>().below(p.range.0)
                &&& p.value_scale == ValueScale::Logarithmic ==> nil::<R>().below(p.range.0)
            },
{
    lemma_valid_metadata(params, 0);
}

/// Check the declared metadata of one parameter.
fn check_param_info<R: Real>(param: &ParamInfo<R>, index: usize) -> (r: Result<(), DspError>)
    ensures
        r == (match metadata_fault(*param, index as int) {
            Some(e) => Err::<(), _>(e),
            None => Ok(()),
        }),
{
    let (lo, hi) = param.range;
    if param.id.0 as u64 != index as u64 {
        return Err(
            DspError::InvalidParam("parameter ids must be sequential from 0 in declaration order"),
        );
    }
    if !lo.is_finite() || !hi.is_finite() || hi.less(lo) {
        return Err(DspError::InvalidParam("parameter ranges must be finite and ordered"));
    }
    if !param.default.is_finite() {
        return Err(DspError::InvalidParam("parameter defaults must be finite"));
    }
    if param.default.less(lo) || hi.less(param.default) {
        return Err(DspError::InvalidParam("parameter defaults must be inside their range"));
    }
    if !param.smoothing_ms.is_finite() || at_most_of(param.smoothing_ms, R::zero()) {
        return Err(DspError::InvalidParam("parameter smoothing_ms must be finite and positive"));
    }
    if param.smoothing == Smoothing::Exponential && at_most_of(lo, R::zero()) {
        return Err(
            DspError::InvalidParam("Exponential smoothing requires a positive range minimum"),
        );
    }
    if param.value_scale == ValueScale::Logarithmic && at_most_of(lo, R::zero()) {
        return Err(
            DspError::InvalidParam("Logarithmic value scale requires a positive range minimum"),
        );
    }
    Ok(())
}

/// Check declared metadata; the first fault in declaration order is reported.
pub fn validate_param_info<R: Real>(params: &[ParamInfo<R>]) -> (r: Result<(), DspError>)
    ensures
        r == metadata_outcome(params@, 0),
        r is Ok <==> valid_metadata(params@),
{
    proof {
        metadata_passes_when_valid(params@);
    }
    let mut index: usize = 0;
    while index < params.len()
        invariant
            0 <= index <= params@.len(),
            metadata_outcome(params@, 0) == metadata_outcome(params@, index as int),
        decreases params@.len() - index,
    {
        let checked = check_param_info(&params[index], index);
        if checked.is_err() {
            return checked;
        }
        index += 1;
    }
    Ok(())
}

// ---------------------------------------------------------------------------
// The bank
// ---------------------------------------------------------------------------

/// One smoother per declared parameter, in declaration order.
#[derive(Debug)]
pub struct SmootherBank<R> {
    smoothers: Vec<Smoother<R>>,
}

impl<R: Real> View for SmootherBank<R> {
    type V = Seq<Smoother<R>>;

    closed spec fn view(&self) -> Seq<Smoother<R>> {
        self.smoothers@
    }
}

/// The bank that metadata declares.
pub open spec fn fresh_bank<R: Real>(params: Seq<ParamInfo<R>>, sample_rate: u32) -> Seq<
    Smoother<R>,
> {
    Seq::new(params.len(), |i: int| fresh(params[i], sample_rate))
}

/// Every smoother is inside its range.
pub open spec fn sound_bank<R: Real>(bank: Seq<Smoother<R>>) -> bool {
    forall|i: int| 0 <= i < bank.len() ==> sound(#[trigger] bank[i])
}

/// Every range is ordered.
pub open spec fn ordered_bank<R: Real>(bank: Seq<Smoother<R>>) -> bool {
    forall|i: int|
        0 <= i < bank.len() ==> at_most((#[trigger] bank[i]).range.0, bank[i].range.1)
}

/// The first smoother of `id` from `from` on, or the length where there is none.
pub open spec fn slot_from<R>(bank: Seq<Smoother<R>>, id: ParamId, from: nat) -> nat
    decreases bank.len() - from,
{
    if from >= bank.len() {
        bank.len()
    } else if bank[from as int].id == id {
        from
    } else {
        slot_from(bank, id, from + 1)
    }
}

/// The place of the smoother of `id`, or the length where there is none.
pub open spec fn slot<R>(bank: Seq<Smoother<R>>, id: ParamId) -> nat {
    slot_from(bank, id, 0)
}

/// Banks of the same ids have the same places.
pub proof fn lemma_same_slots<R>(
    a: Seq<Smoother<R>>,
    b: Seq<Smoother<R>>,
    id: ParamId,
    from: nat,
)
    requires
        a.len() == b.len(),
        forall|i: int| 0 <= i < a.len() ==> (#[trigger] a[i]).id == b[i].id,
    ensures
        slot_from(a, id, from) == slot_from(b, id, from),
    decreases a.len() - from,
{
    if from < a.len() && a[from as int].id != id {
        lemma_same_slots(a, b, id, from + 1);
    }
}

/// Where ids are declaration indices, the place of a smoother is its id.
pub proof fn ids_are_places<R: Real>(params: Seq<ParamInfo<R>>, sample_rate: u32, id: ParamId)
    requires
        valid_metadata(params),
    ensures
        slot(fresh_bank(params, sample_rate), id) == (if id.0 < params.len() {
            id.0 as nat
        } else {
            params.len()
        }),
{
    lemma_sequential_slot(params, sample_rate, id, 0);
}

proof fn lemma_sequential_slot<R: Real>(
    params: Seq<ParamInfo<R>>,
    sample_rate: u32,
    id: ParamId,
    from: nat,
)
    requires
        valid_metadata(params),
        from <= params.len(),
        from <= id.0 || params.len() <= id.0,
    ensures
        slot_from(fresh_bank(params, sample_rate), id, from) == (if id.0 < params.len() {
            id.0 as nat
        } else {
            params.len()
        }),
    decreases params.len() - from,
{
    if from < params.len() {
        assert(metadata_fault(params[from as int], from as int) is None);
        if id.0 != from {
            lemma_sequential_slot(params, sample_rate, id, from + 1);
        }
    }
}

/// The bank after a target is set for `id`; an unknown id changes nothing.
pub open spec fn bank_retargeted<R: Real>(bank: Seq<Smoother<R>>, id: ParamId, value: R) -> Seq<
    Smoother<R>,
> {
    if slot(bank, id) < bank.len() {
        bank.update(slot(bank, id) as int, retargeted(bank[slot(bank, id) as int], value))
    } else {
        bank
    }
}

/// The bank after `id` is pinned; an unknown id changes nothing.
pub open spec fn bank_pinned<R: Real>(bank: Seq<Smoother<R>>, id: ParamId, value: R) -> Seq<
    Smoother<R>,
> {
    if slot(bank, id) < bank.len() {
        bank.update(slot(bank, id) as int, pinned(bank[slot(bank, id) as int], value))
    } else {
        bank
    }
}

/// The bank after one control-rate step.
pub open spec fn bank_stepped<R: Real>(bank: Seq<Smoother<R>>) -> Seq<Smoother<R>> {
    Seq::new(bank.len(), |i: int| stepped(bank[i]))
}

/// The bank with every smoother at its default.
pub open spec fn bank_rested<R: Real>(bank: Seq<Smoother<R>>) -> Seq<Smoother<R>> {
    Seq::new(bank.len(), |i: int| rested(bank[i]))
}

/// The current values, in declaration order.
pub open spec fn bank_values<R: Real>(bank: Seq<Smoother<R>>) -> Seq<R> {
    Seq::new(bank.len(), |i: int| bank[i].cur)
}

/// How a direct write to `id` is answered.
pub open spec fn write_outcome<R: Real>(bank: Seq<Smoother<R>>, id: ParamId, value: R) -> Result<
    (),
    ParamSetError<R>,
> {
    if !value.finite() {
        Err(ParamSetError::NonFiniteValue { param: id, value })
    } else if slot(bank, id) >= bank.len() {
        Err(ParamSetError::UnknownParam(id))
    } else {
        Ok(())
    }
}

/// The bytes of a bank of `n` smoothers, at most `usize::MAX`.
pub open spec fn bank_bytes<R>(n: nat) -> usize {
    if n * size_of::<Smoother<R>>() > usize::MAX {
        usize::MAX
    } else {
        (n * size_of::<Smoother<R>>()) as usize
    }
}

/// The budget check of a bank of `n` smoothers.
pub open spec fn bank_admission<R>(n: nat, cap: Option<usize>) -> Result<usize, DspError> {
    admission(
        extended(Some(0usize), 1, n * size_of::<Smoother<R>>()),
        n * size_of::<Smoother<R>>() <= isize::MAX,
        cap,
    )
}

/// A bank built from valid metadata is sound.
pub proof fn fresh_bank_is_sound<R: Real>(params: Seq<ParamInfo<R>>, sample_rate: u32)
    requires
        valid_metadata(params),
    ensures
        sound_bank(fresh_bank(params, sample_rate)),
{
    assert forall|i: int| 0 <= i < params.len() implies sound(
        #[trigger] fresh_bank(params, sample_rate)[i],
    ) by {
        let p = params[i];
        assert(metadata_fault(p, i) is None);
        clamped_is_within(p.default, p.range.0, p.range.1);
    }
}

/// No operation on a bank takes a value outside its declared range.
pub proof fn bank_operations_keep_the_range<R: Real>(
    bank: Seq<Smoother<R>>,
    id: ParamId,
    value: R,
)
    requires
        sound_bank(bank),
        value.finite(),
        nil::<R>().finite(),
    ensures
        sound_bank(bank_stepped(bank)),
        sound_bank(bank_retargeted(bank, id, value)),
        sound_bank(bank_pinned(bank, id, value)),
        sound_bank(bank_rested(bank)),
{
    assert forall|i: int| 0 <= i < bank.len() implies sound(stepped(#[trigger] bank[i])) && sound(
        rested(bank[i]),
    ) && sound(retargeted(bank[i], value)) && sound(pinned(bank[i], value)) by {
        operations_keep_the_range(bank[i], value);
    }
}

impl<R: Real> Default for SmootherBank<R> {
    fn default() -> (r: Self)
        ensures
            r@ == Seq::<Smoother<R>>::empty(),
    {
        Self::empty()
    }
}

impl<R: Real> SmootherBank<R> {
    /// Every smoother is inside its range.
    pub open spec fn wf(&self) -> bool {
        sound_bank(self@)
    }

    /// A bank for a processor that is not prepared yet.
    pub fn empty() -> (r: Self)
        ensures
            r@ == Seq::<Smoother<R>>::empty(),
            r.wf(),
    {
        Self { smoothers: Vec::new() }
    }

    /// Build a bank at the declared defaults.
    ///
    /// Each smoother derives its step size from its own smoothing time, so ramp
    /// speed is per parameter.
    pub fn new(params: &[ParamInfo<R>], spec: &ProcessSpec) -> (r: Self)
        ensures
            r@ == fresh_bank(params@, spec.sample_rate),
            valid_metadata(params@) ==> r.wf(),
    {
        let mut smoothers: Vec<Smoother<R>> = Vec::with_capacity(params.len());
        let mut i: usize = 0;
        while i < params.len()
            invariant
                0 <= i <= params@.len(),
                smoothers@ =~= fresh_bank(params@, spec.sample_rate).take(i as int),
            decreases params@.len() - i,
        {
            let p = params[i];
            let (lo, hi) = p.range;
            let smoothing_ms = if p.smoothing_ms.is_finite() && R::zero().less(p.smoothing_ms) {
                p.smoothing_ms
            } else {
                R::decimal(5, 0)
            };
            let exact = smoothing_ms.times(R::decimal(1, -3)).times(
                R::from_u64(spec.sample_rate as u64),
            ).over(R::from_u64(CR_STEP));
            let steps = max_of(exact, R::one());
            let default = if p.default.is_finite() && lo.is_finite() && hi.is_finite()
                && at_most_of(lo, hi) {
                clamp_to(p.default, lo, hi)
            } else {
                R::zero()
            };
            let coeff = if p.smoothing == Smoothing::OnePole {
                R::one().minus(R::one().neg().over(exact).exp())
            } else {
                R::one()
            };
            smoothers.push(
                Smoother {
                    id: p.id,
                    cur: default,
                    target: default,
                    range: p.range,
                    default,
                    steps,
                    updates_remaining: 0,
                    step_delta: R::zero(),
                    shape: p.smoothing,
                    coeff,
                },
            );
            i += 1;
        }
        proof {
            if valid_metadata(params@) {
                fresh_bank_is_sound(params@, spec.sample_rate);
            }
            assert(smoothers@ =~= fresh_bank(params@, spec.sample_rate));
        }
        Self { smoothers }
    }

    /// Validate the metadata, hold the bank against the cap, and build it.
    pub fn try_new(params: &[ParamInfo<R>], spec: &ProcessSpec) -> (r: Result<Self, DspError>)
        ensures
            metadata_outcome(params@, 0) matches Err(e) ==> r matches Err(f) && e == f,
            metadata_outcome(params@, 0) is Ok ==> match bank_admission::<R>(
                params@.len(),
                spec.max_memory,
            ) {
                Err(e) => r matches Err(f) && e == f,
                Ok(_) => r matches Ok(bank) && bank@ == fresh_bank(params@, spec.sample_rate)
                    && bank.wf(),
            },
    {
        match validate_param_info(params) {
            Err(e) => {
                return Err(e);
            },
            Ok(()) => {},
        }
        match MemoryLayout::new().array::<Smoother<R>>(params.len()).preflight(spec.max_memory) {
            Err(e) => Err(e),
            Ok(_) => Ok(Self::new(params, spec)),
        }
    }

    /// The number of smoothers.
    pub fn len(&self) -> (r: usize)
        ensures
            r == self@.len(),
    {
        self.smoothers.len()
    }

    /// State bytes, counted into the owning processor's footprint.
    pub fn footprint(&self) -> (r: usize)
        ensures
            r == bank_bytes::<R>(self@.len()),
    {
        Self::footprint_for(self.smoothers.len())
    }

    /// The bytes that a bank of `param_count` smoothers occupies.
    pub fn footprint_for(param_count: usize) -> (r: usize)
        ensures
            r == bank_bytes::<R>(param_count as nat),
    {
        match param_count.checked_mul(core::mem::size_of::<Smoother<R>>()) {
            Some(n) => n,
            None => usize::MAX,
        }
    }

    /// The index of the smoother of `id`.
    fn position(&self, id: ParamId) -> (r: Option<usize>)
        ensures
            match r {
                Some(i) => i < self@.len() && i == slot(self@, id),
                None => slot(self@, id) >= self@.len(),
            },
    {
        let mut i: usize = 0;
        while i < self.smoothers.len()
            invariant
                0 <= i <= self@.len(),
                slot(self@, id) == slot_from(self@, id, i as nat),
            decreases self@.len() - i,
        {
            if self.smoothers[i].id == id {
                return Some(i);
            }
            i += 1;
        }
        None
    }

    /// Set a parameter's target, clamped to its declared range.
    pub fn set_target(&mut self, id: ParamId, value: R) -> (r: Result<(), ParamSetError<R>>)
        requires
            ordered_bank(old(self)@),
        ensures
            r == write_outcome(old(self)@, id, value),
            r is Err ==> final(self)@ == old(self)@,
            r is Ok ==> final(self)@ == bank_retargeted(old(self)@, id, value),
            ordered_bank(final(self)@),
            old(self).wf() ==> final(self).wf(),
    {
        if !value.is_finite() {
            return Err(ParamSetError::NonFiniteValue { param: id, value });
        }
        let i: usize = match self.position(id) {
            Some(i) => i,
            None => {
                return Err(ParamSetError::UnknownParam(id));
            },
        };
        let s = self.smoothers[i];
        let zero = R::zero();
        proof {
            if self.wf() {
                bank_operations_keep_the_range(self@, id, value);
            }
        }
        let target = clamp_to(value, s.range.0, s.range.1);
        if target.equals(s.target) {
            assert(self@.update(i as int, s) =~= self@);
            return Ok(());
        }
        let next = match s.shape {
            Smoothing::Linear => Smoother {
                target,
                updates_remaining: s.steps.ceil().to_u64(),
                step_delta: target.minus(s.cur).abs().over(s.steps),
                ..s
            },
            Smoothing::Exponential => {
                // The ratio is computed through logarithms, which also handles
                // ranges whose direct quotient would overflow.
                let coeff = if zero.less(s.cur) && zero.less(target) {
                    target.ln().minus(s.cur.ln()).abs().over(s.steps).exp()
                } else {
                    R::one()
                };
                Smoother { target, updates_remaining: s.steps.ceil().to_u64(), coeff, ..s }
            },
            Smoothing::Step | Smoothing::OnePole => Smoother { target, ..s },
        };
        self.smoothers.set(i, next);
        Ok(())
    }

    /// Set a parameter's current value and target at once, without a ramp.
    pub fn set_immediate(&mut self, id: ParamId, value: R) -> (r: Result<(), ParamSetError<R>>)
        requires
            ordered_bank(old(self)@),
        ensures
            r == write_outcome(old(self)@, id, value),
            r is Err ==> final(self)@ == old(self)@,
            r is Ok ==> final(self)@ == bank_pinned(old(self)@, id, value),
            ordered_bank(final(self)@),
            old(self).wf() ==> final(self).wf(),
    {
        if !value.is_finite() {
            return Err(ParamSetError::NonFiniteValue { param: id, value });
        }
        let i: usize = match self.position(id) {
            Some(i) => i,
            None => {
                return Err(ParamSetError::UnknownParam(id));
            },
        };
        let s = self.smoothers[i];
        // That zero is finite keeps every smoother in its range.
        let _ = R::zero();
        proof {
            if self.wf() {
                bank_operations_keep_the_range(self@, id, value);
            }
        }
        let v = clamp_to(value, s.range.0, s.range.1);
        self.smoothers.set(i, Smoother { cur: v, target: v, updates_remaining: 0, ..s });
        Ok(())
    }

    /// Advance every smoother one control-rate step.
    pub fn step(&mut self)
        requires
            ordered_bank(old(self)@),
        ensures
            final(self)@ == bank_stepped(old(self)@),
            ordered_bank(final(self)@),
            old(self).wf() ==> final(self).wf(),
    {
        let zero = R::zero();
        proof {
            if self.wf() {
                bank_operations_keep_the_range(self@, ParamId(0), zero);
            }
        }
        let n: usize = self.smoothers.len();
        let mut i: usize = 0;
        while i < n
            invariant
                0 <= i <= n,
                n == old(self)@.len(),
                self@.len() == n,
                forall|j: int| 0 <= j < i ==> #[trigger] self@[j] == stepped(old(self)@[j]),
                forall|j: int| i <= j < n ==> #[trigger] self@[j] == old(self)@[j],
            decreases n - i,
        {
            let next = step_one(self.smoothers[i]);
            self.smoothers.set(i, next);
            i += 1;
        }
        assert(self@ =~= bank_stepped(old(self)@));
        assert forall|j: int| 0 <= j < n implies at_most(
            (#[trigger] self@[j]).range.0,
            self@[j].range.1,
        ) by {
            assert(at_most(old(self)@[j].range.0, old(self)@[j].range.1));
        }
    }

    /// The current smoothed value for `id`.
    pub fn value(&self, id: ParamId) -> (r: Option<R>)
        ensures
            r == (if slot(self@, id) < self@.len() {
                Some(self@[slot(self@, id) as int].cur)
            } else {
                None
            }),
    {
        match self.position(id) {
            Some(i) => Some(self.smoothers[i].cur),
            None => None,
        }
    }

    /// The current smoothed value at declaration `index`.
    pub fn value_at(&self, index: usize) -> (r: Option<R>)
        ensures
            r == (if index < self@.len() {
                Some(self@[index as int].cur)
            } else {
                None
            }),
    {
        if index < self.smoothers.len() {
            Some(self.smoothers[index].cur)
        } else {
            None
        }
    }

    /// Return every smoother to its default.
    pub fn reset(&mut self)
        ensures
            final(self)@ == bank_rested(old(self)@),
            old(self).wf() ==> final(self).wf(),
    {
        let n: usize = self.smoothers.len();
        let mut i: usize = 0;
        while i < n
            invariant
                0 <= i <= n,
                n == old(self)@.len(),
                self@.len() == n,
                forall|j: int| 0 <= j < i ==> #[trigger] self@[j] == rested(old(self)@[j]),
                forall|j: int| i <= j < n ==> #[trigger] self@[j] == old(self)@[j],
            decreases n - i,
        {
            let s = self.smoothers[i];
            self.smoothers.set(
                i,
                Smoother { cur: s.default, target: s.default, updates_remaining: 0, ..s },
            );
            i += 1;
        }
        assert(self@ =~= bank_rested(old(self)@));
    }
}

/// Advance one smoother one control-rate step.
fn step_one<R: Real>(s: Smoother<R>) -> (r: Smoother<R>)
    ensures
        r == stepped(s),
{
    let a = match s.shape {
        Smoothing::Step => Smoother { cur: s.target, ..s },
        Smoothing::Linear => if s.cur.equals(s.target) {
            Smoother { updates_remaining: 0, ..s }
        } else if s.updates_remaining <= 1 {
            Smoother { cur: s.target, updates_remaining: 0, ..s }
        } else {
            let d = s.target.minus(s.cur);
            Smoother {
                cur: s.cur.plus(s.step_delta.copysign(d)),
                updates_remaining: s.updates_remaining - 1,
                ..s
            }
        },
        Smoothing::OnePole => Smoother {
            cur: s.cur.plus(s.target.minus(s.cur).times(s.coeff)),
            ..s
        },
        Smoothing::Exponential => if s.target.equals(s.cur) {
            Smoother { updates_remaining: 0, ..s }
        } else if s.updates_remaining <= 1 {
            Smoother { cur: s.target, updates_remaining: 0, ..s }
        } else if s.cur.less(s.target) {
            Smoother {
                cur: min_of(s.cur.times(s.coeff), s.target),
                updates_remaining: s.updates_remaining - 1,
                ..s
            }
        } else if s.target.less(s.cur) {
            Smoother {
                cur: max_of(s.cur.over(s.coeff), s.target),
                updates_remaining: s.updates_remaining - 1,
                ..s
            }
        } else {
            s
        },
    };
    Smoother { cur: clamp_to(finite_or_zero(a.cur), s.range.0, s.range.1), ..a }
}

} // verus!
