//! The smoother bank, the block driver, and the kernel wrapper.

use bisque::contract::block::{AudioBlock, AudioBlockMut, IoMode};
use bisque::contract::context::{ProcessContext, SubBlock, Tail};
use bisque::contract::error::DspError;
use bisque::contract::param::{
    ParamEvent, ParamId, ParamInfo, ParamSetError, Smoothing, Unit, ValueScale,
};
use bisque::contract::spec::ProcessSpec;
use bisque::contract::traits::{FrameModel, Kernel, Params, Processor};
use bisque::dsp::driver::{
    drive, latch_events, validate_flush_geometry, validate_geometry, GeometryFault,
    KernelProcessor, PreparedContract,
};
use bisque::dsp::smoother::{Smoother, SmootherBank, CR_STEP};
use bisque::number::{Real, Sample};
use std::cell::Cell;
use std::marker::PhantomData;
use std::mem::size_of;
use std::rc::Rc;

/// Double precision numbers for the library to compute with.
#[derive(Clone, Copy, Debug, PartialEq)]
struct N(f64);

impl Real for N {
    fn plus(self, other: Self) -> Self {
        N(self.0 + other.0)
    }
    fn minus(self, other: Self) -> Self {
        N(self.0 - other.0)
    }
    fn times(self, other: Self) -> Self {
        N(self.0 * other.0)
    }
    fn over(self, other: Self) -> Self {
        N(self.0 / other.0)
    }
    fn neg(self) -> Self {
        N(-self.0)
    }
    fn abs(self) -> Self {
        N(self.0.abs())
    }
    fn copysign(self, other: Self) -> Self {
        N(self.0.copysign(other.0))
    }
    fn ceil(self) -> Self {
        N(self.0.ceil())
    }
    fn floor(self) -> Self {
        N(self.0.floor())
    }
    fn round(self) -> Self {
        N(self.0.round())
    }
    fn is_finite(self) -> bool {
        self.0.is_finite()
    }
    fn less(self, other: Self) -> bool {
        self.0 < other.0
    }
    fn equals(self, other: Self) -> bool {
        self.0 == other.0
    }
    fn decimal(mantissa: i64, exponent: i32) -> Self {
        const POWERS: [f64; 23] = [
            1e0, 1e1, 1e2, 1e3, 1e4, 1e5, 1e6, 1e7, 1e8, 1e9, 1e10, 1e11, 1e12, 1e13, 1e14, 1e15, 1e16,
            1e17, 1e18, 1e19, 1e20, 1e21, 1e22,
        ];
        let m = mantissa as f64;
        match exponent {
            // Both operands are exact, so one rounding gives the nearest number.
            0..=22 if mantissa.unsigned_abs() < (1 << 53) => N(m * POWERS[exponent as usize]),
            -22..=-1 if mantissa.unsigned_abs() < (1 << 53) => N(m / POWERS[-exponent as usize]),
            _ => N(format!("{mantissa}e{exponent}").parse().unwrap()),
        }
    }
    fn from_u64(n: u64) -> Self {
        N(n as f64)
    }
    fn to_u64(self) -> u64 {
        self.0 as u64
    }
    fn denormal_floor() -> Self {
        N(1e-30)
    }
    fn zero() -> Self {
        N(0.0)
    }
    fn one() -> Self {
        N(1.0)
    }
    fn infinity() -> Self {
        N(f64::INFINITY)
    }
    fn sin(self) -> Self {
        N(libm::sin(self.0))
    }
    fn cos(self) -> Self {
        N(libm::cos(self.0))
    }
    fn tan(self) -> Self {
        N(libm::tan(self.0))
    }
    fn sqrt(self) -> Self {
        N(libm::sqrt(self.0))
    }
    fn hypot(self, other: Self) -> Self {
        N(libm::hypot(self.0, other.0))
    }
    fn atan2(self, x: Self) -> Self {
        N(libm::atan2(self.0, x.0))
    }
    fn exp(self) -> Self {
        N(libm::exp(self.0))
    }
    fn ln(self) -> Self {
        N(libm::log(self.0))
    }
    fn log10(self) -> Self {
        N(libm::log10(self.0))
    }
    fn pow(self, exponent: Self) -> Self {
        N(libm::pow(self.0, exponent.0))
    }
}

/// Single precision samples.
#[derive(Clone, Copy, Debug, PartialEq)]
struct F(f32);

impl Sample for F {
    type Real = N;
    fn to_real(self) -> N {
        N(f64::from(self.0))
    }
    fn from_real(x: N) -> Self {
        F(x.0 as f32)
    }
}
/// A recorded render trajectory: one `(start, len, value)` per render call.
type Trace = Vec<(usize, usize, f64)>;

fn spec_cap(max_memory: Option<usize>) -> ProcessSpec {
    ProcessSpec { sample_rate: 48_000, channels: 1, max_block: 128, max_memory }
}

fn spec() -> ProcessSpec {
    spec_cap(None)
}

fn pinfo(id: ParamId, range: (f64, f64), default: f64, smoothing: Smoothing) -> ParamInfo<N> {
    ParamInfo::new(id, "p", (N(range.0), N(range.1)), N(default), Unit::Linear)
        .with_smoothing(smoothing)
}

fn pinfo_ramp(
    id: ParamId,
    range: (f64, f64),
    default: f64,
    smoothing: Smoothing,
    smoothing_ms: f64,
) -> ParamInfo<N> {
    pinfo(id, range, default, smoothing).with_smoothing_ms(N(smoothing_ms))
}

fn ev(offset: u32, param: ParamId, value: f64) -> ParamEvent<N> {
    ParamEvent { offset, param, value: N(value) }
}

fn set_target(bank: &mut SmootherBank<N>, id: ParamId, value: f64) {
    bank.set_target(id, N(value)).expect("known parameter id");
}

fn set_immediate(bank: &mut SmootherBank<N>, id: ParamId, value: f64) {
    bank.set_immediate(id, N(value)).expect("known parameter id");
}

fn value(bank: &SmootherBank<N>, id: ParamId) -> f64 {
    bank.value(id).expect("known parameter id").0
}

fn value_at(bank: &SmootherBank<N>, index: usize) -> f64 {
    bank.value_at(index).expect("known parameter index").0
}

// Bank.

#[test]
fn footprint_counts_every_smoother() {
    let params: Vec<ParamInfo<N>> =
        (0..3).map(|i| pinfo(ParamId(i), (0.0, 1.0), 0.0, Smoothing::Step)).collect();
    let bank = SmootherBank::new(&params, &spec());
    assert_eq!(bank.footprint(), 3 * size_of::<Smoother<N>>());
}

#[test]
fn public_construction_rejects_invalid_metadata() {
    let invalid = pinfo(ParamId(0), (1.0, 0.0), 0.5, Smoothing::Linear);
    assert!(matches!(
        SmootherBank::try_new(&[invalid], &spec()),
        Err(DspError::InvalidParam(_))
    ));

    for range in [(f64::NAN, 1.0), (0.0, f64::INFINITY)] {
        let invalid = pinfo(ParamId(0), range, 0.5, Smoothing::Linear);
        assert!(matches!(
            SmootherBank::try_new(&[invalid], &spec()),
            Err(DspError::InvalidParam(_))
        ));
    }

    let point = pinfo(ParamId(0), (0.5, 0.5), 0.5, Smoothing::Linear);
    assert!(SmootherBank::try_new(&[point], &spec()).is_ok(), "a single-value range is valid");
}

#[test]
fn public_construction_checks_the_bank_budget_before_allocation() {
    let params = [pinfo(ParamId(0), (0.0, 1.0), 0.5, Smoothing::Linear)];
    assert!(matches!(
        SmootherBank::try_new(&params, &spec_cap(Some(0))),
        Err(DspError::OverBudget { .. })
    ));
}

#[test]
fn value_returns_the_right_smoother_or_none() {
    let params = vec![
        pinfo(ParamId(1), (0.0, 10.0), 0.0, Smoothing::Step),
        pinfo(ParamId(2), (0.0, 10.0), 0.0, Smoothing::Step),
    ];
    let mut bank = SmootherBank::new(&params, &spec());
    set_target(&mut bank, ParamId(1), 3.0);
    set_target(&mut bank, ParamId(2), 7.0);
    bank.step();
    assert_eq!(value(&bank, ParamId(1)), 3.0);
    assert_eq!(value(&bank, ParamId(2)), 7.0);
    assert!(bank.value(ParamId(99)).is_none(), "unknown id is None");
}

#[test]
fn value_at_reads_by_declaration_index() {
    let params = vec![
        pinfo(ParamId(0), (0.0, 10.0), 0.0, Smoothing::Step),
        pinfo(ParamId(1), (0.0, 10.0), 0.0, Smoothing::Step),
    ];
    let mut bank = SmootherBank::new(&params, &spec());
    set_target(&mut bank, ParamId(0), 3.0);
    set_target(&mut bank, ParamId(1), 7.0);
    bank.step();
    assert_eq!(bank.value_at(0), bank.value(ParamId(0)));
    assert_eq!(bank.value_at(1), bank.value(ParamId(1)));
    assert_eq!(value_at(&bank, 0), 3.0);
    assert_eq!(value_at(&bank, 1), 7.0);
    assert!(bank.value_at(99).is_none(), "out-of-range index is None");
}

#[test]
fn set_target_clamps_to_the_declared_range() {
    let mut bank =
        SmootherBank::new(&[pinfo(ParamId(0), (-2.0, 3.0), 0.0, Smoothing::Step)], &spec());
    set_target(&mut bank, ParamId(0), 100.0);
    bank.step();
    assert_eq!(value(&bank, ParamId(0)), 3.0, "above range clamps to max");
    set_target(&mut bank, ParamId(0), -100.0);
    bank.step();
    assert_eq!(value(&bank, ParamId(0)), -2.0, "below range clamps to min");
}

#[test]
fn step_shapes_jump_or_ramp() {
    let mut step =
        SmootherBank::new(&[pinfo(ParamId(0), (0.0, 10.0), 0.0, Smoothing::Step)], &spec());
    set_target(&mut step, ParamId(0), 8.0);
    step.step();
    assert_eq!(value(&step, ParamId(0)), 8.0);

    let mut lin =
        SmootherBank::new(&[pinfo(ParamId(0), (0.0, 10.0), 0.0, Smoothing::Linear)], &spec());
    set_target(&mut lin, ParamId(0), 10.0);
    lin.step();
    let one = value(&lin, ParamId(0));
    assert!(one > 0.0 && one < 10.0, "one Linear step is partial: {one}");
    for _ in 0..200 {
        lin.step();
    }
    assert_eq!(value(&lin, ParamId(0)), 10.0, "Linear settles exactly at target");

    let mut down =
        SmootherBank::new(&[pinfo(ParamId(0), (0.0, 10.0), 10.0, Smoothing::Linear)], &spec());
    set_target(&mut down, ParamId(0), 0.0);
    down.step();
    assert!(value(&down, ParamId(0)) < 10.0, "Linear moves toward a lower target");
}

#[test]
fn step_ignores_smoothing_ms() {
    for ms in [5.0, 5_000.0] {
        let mut bank = SmootherBank::new(
            &[pinfo_ramp(ParamId(0), (0.0, 10.0), 0.0, Smoothing::Step, ms)],
            &spec(),
        );
        set_target(&mut bank, ParamId(0), 8.0);
        bank.step();
        assert_eq!(value(&bank, ParamId(0)), 8.0, "Step at {ms} ms still jumps in one step");
    }
}

#[test]
fn onepole_follows_the_exact_recurrence() {
    let mut bank =
        SmootherBank::new(&[pinfo(ParamId(0), (0.0, 1.0), 0.0, Smoothing::OnePole)], &spec());
    let steps = ((5.0e-3 * 48_000.0) / CR_STEP as f64).max(1.0);
    let coeff = 1.0 - libm::exp(-1.0 / steps);
    set_target(&mut bank, ParamId(0), 1.0);
    bank.step();
    let c1 = coeff;
    assert!((value(&bank, ParamId(0)) - c1).abs() < 1e-15, "first OnePole step");
    bank.step();
    let c2 = c1 + (1.0 - c1) * coeff;
    assert!((value(&bank, ParamId(0)) - c2).abs() < 1e-15, "second OnePole step");
    let mut prev = value(&bank, ParamId(0));
    for _ in 0..100 {
        bank.step();
        let v = value(&bank, ParamId(0));
        assert!(v >= prev && v <= 1.0, "OnePole is monotone and bounded");
        prev = v;
    }
}

#[test]
fn onepole_takes_fractions_of_a_step() {
    let info = pinfo_ramp(ParamId(0), (0.0, 1.0), 0.0, Smoothing::OnePole, 0.5);
    let spec = ProcessSpec { sample_rate: 32_000, channels: 1, max_block: 128, max_memory: None };
    let mut bank = SmootherBank::new(&[info], &spec);
    set_target(&mut bank, ParamId(0), 1.0);
    bank.step();
    let expected = 1.0 - libm::exp(-2.0);
    assert!((value(&bank, ParamId(0)) - expected).abs() < 1e-12, "half a step decays twice");

    for smoothing in [Smoothing::Linear, Smoothing::Exponential] {
        let info = pinfo_ramp(ParamId(0), (0.5, 2.0), 0.5, smoothing, 0.5);
        let mut bank = SmootherBank::new(&[info], &spec);
        set_target(&mut bank, ParamId(0), 2.0);
        bank.step();
        assert_eq!(value(&bank, ParamId(0)), 2.0, "a ramp takes at least one whole step");
    }
}

#[test]
fn reset_restores_every_default() {
    let mut bank =
        SmootherBank::new(&[pinfo(ParamId(0), (0.0, 10.0), 4.0, Smoothing::Step)], &spec());
    set_target(&mut bank, ParamId(0), 9.0);
    bank.step();
    assert_eq!(value(&bank, ParamId(0)), 9.0);
    bank.reset();
    assert_eq!(value(&bank, ParamId(0)), 4.0, "reset returns to the default");
}

#[test]
fn set_immediate_snaps_current_and_target_without_a_ramp() {
    let mut bank =
        SmootherBank::new(&[pinfo(ParamId(0), (0.0, 10.0), 0.0, Smoothing::Linear)], &spec());
    set_immediate(&mut bank, ParamId(0), 5.0);
    assert_eq!(value(&bank, ParamId(0)), 5.0, "snaps without a step");
    bank.step();
    assert_eq!(value(&bank, ParamId(0)), 5.0, "stays pinned across steps");
    set_immediate(&mut bank, ParamId(0), 100.0);
    assert_eq!(value(&bank, ParamId(0)), 10.0, "clamps to the declared range");
}

#[test]
fn setters_report_unknown_ids_and_non_finite_values() {
    let mut bank =
        SmootherBank::new(&[pinfo(ParamId(0), (0.0, 10.0), 0.0, Smoothing::Linear)], &spec());
    assert!(matches!(
        bank.set_immediate(ParamId(99), N(3.0)),
        Err(ParamSetError::UnknownParam(ParamId(99)))
    ));
    assert!(matches!(
        bank.set_target(ParamId(99), N(3.0)),
        Err(ParamSetError::UnknownParam(ParamId(99)))
    ));
    assert!(matches!(
        bank.set_immediate(ParamId(0), N(f64::NAN)),
        Err(ParamSetError::NonFiniteValue { param: ParamId(0), value }) if value.0.is_nan()
    ));
    assert!(matches!(
        bank.set_target(ParamId(0), N(f64::INFINITY)),
        Err(ParamSetError::NonFiniteValue { param: ParamId(0), value }) if value.0.is_infinite()
    ));
}

#[test]
fn exponential_ramps_each_target_at_a_constant_ratio_and_snaps() {
    let info = pinfo_ramp(ParamId(0), (10.0, 10_000.0), 10.0, Smoothing::Exponential, 5.0);
    let mut bank = SmootherBank::new(&[info], &spec());
    let steps = (5.0e-3 * 48_000.0) / CR_STEP as f64;
    let r = libm::pow(100.0, 1.0 / steps);

    set_target(&mut bank, ParamId(0), 1_000.0);
    let mut prev = value(&bank, ParamId(0));
    let mut count = 0usize;
    while value(&bank, ParamId(0)) < 1_000.0 {
        bank.step();
        count += 1;
        let cur = value(&bank, ParamId(0));
        assert!(cur > prev, "rising ramp is monotone");
        if cur < 1_000.0 {
            let ratio = cur / prev;
            assert!((ratio - r).abs() < 1e-12, "constant multiplicative step: {ratio} vs {r}");
        }
        prev = cur;
        assert!(count < 64, "must converge");
    }
    assert_eq!(value(&bank, ParamId(0)), 1_000.0, "snaps exactly to target");
    assert_eq!(count, 8, "partial-range rise completes in ceil(steps)");

    let down_ratio = libm::pow(10.0, 1.0 / steps);
    set_target(&mut bank, ParamId(0), 100.0);
    bank.step();
    let down = value(&bank, ParamId(0));
    assert!(
        (down - 1_000.0 / down_ratio).abs() / down < 1e-12,
        "falling divides by the ratio: {down}"
    );

    bank.reset();
    assert_eq!(value(&bank, ParamId(0)), 10.0);
}

#[test]
fn linear_ramp_duration_is_per_target_change() {
    let info = pinfo_ramp(ParamId(0), (-96.0, 24.0), -1.5, Smoothing::Linear, 5.0);
    let mut bank = SmootherBank::new(&[info], &spec());
    let steps = (5.0e-3 * 48_000.0) / CR_STEP as f64;
    let delta = 18.5 / steps;

    set_target(&mut bank, ParamId(0), -20.0);
    bank.step();
    assert!((value(&bank, ParamId(0)) - (-1.5 - delta)).abs() < 1e-12);

    set_target(&mut bank, ParamId(0), -20.0);
    bank.step();
    assert!((value(&bank, ParamId(0)) - (-1.5 - 2.0 * delta)).abs() < 1e-12);

    for _ in 0..6 {
        bank.step();
    }
    assert_eq!(value(&bank, ParamId(0)), -20.0);
}

#[test]
fn per_param_ramp_time_scales_the_traversal() {
    let infos = [
        pinfo_ramp(ParamId(0), (0.0, 1.0), 0.0, Smoothing::Linear, 5.0),
        pinfo_ramp(ParamId(1), (0.0, 1.0), 0.0, Smoothing::Linear, 20.0),
    ];
    let mut bank = SmootherBank::new(&infos, &spec());
    set_target(&mut bank, ParamId(0), 1.0);
    set_target(&mut bank, ParamId(1), 1.0);
    let (mut fast, mut slow) = (0usize, 0usize);
    for _ in 0..256 {
        if value(&bank, ParamId(0)) < 1.0 {
            fast += 1;
        }
        if value(&bank, ParamId(1)) < 1.0 {
            slow += 1;
        }
        bank.step();
    }
    assert_eq!(fast, 8, "5 ms target change takes ceil(7.5) steps");
    assert_eq!(slow, 30, "20 ms target change takes exactly 30 steps");
}

#[test]
fn integer_step_exponential_ramp_finishes_on_time() {
    let info = pinfo_ramp(ParamId(0), (10.0, 10_000.0), 10.0, Smoothing::Exponential, 20.0);
    let mut bank = SmootherBank::new(&[info], &spec());
    set_target(&mut bank, ParamId(0), 1_000.0);

    for _ in 0..29 {
        bank.step();
    }
    assert!(value(&bank, ParamId(0)) < 1_000.0);
    bank.step();
    assert_eq!(value(&bank, ParamId(0)), 1_000.0);
}

#[test]
fn validation_rejects_bad_ramps_and_nonpositive_exponential_ranges() {
    let mut zero_min = KernelProcessor::<_, F>::new(probe::<Probe1Params>(
        vec![pinfo_ramp(ParamId(0), (0.0, 1.0), 0.5, Smoothing::Exponential, 5.0)],
        0,
    ));
    assert!(matches!(zero_min.prepare(spec()), Err(DspError::InvalidParam(_))));

    let invalid_scale = ParamInfo::new(ParamId(0), "mapped", (N(0.0), N(1.0)), N(0.5), Unit::Linear)
        .with_value_scale(ValueScale::Logarithmic);
    let mut invalid_scale =
        KernelProcessor::<_, F>::new(probe::<Probe1Params>(vec![invalid_scale], 0));
    assert!(matches!(invalid_scale.prepare(spec()), Err(DspError::InvalidParam(_))));

    let linear_hz =
        ParamInfo::new(ParamId(0), "hz", (N(20.0), N(20_000.0)), N(440.0), Unit::Hz)
            .with_value_scale(ValueScale::Linear)
            .with_smoothing(Smoothing::Linear);
    let mut linear_hz = KernelProcessor::<_, F>::new(probe::<Probe1Params>(vec![linear_hz], 0));
    linear_hz.prepare(spec()).expect("linear Hz is valid");

    for bad_ramp in [0.0, -1.0, f64::NAN] {
        let mut p = KernelProcessor::<_, F>::new(probe::<Probe1Params>(
            vec![pinfo_ramp(ParamId(0), (0.0, 1.0), 0.5, Smoothing::Linear, bad_ramp)],
            0,
        ));
        assert!(matches!(p.prepare(spec()), Err(DspError::InvalidParam(_))));
    }
}

// Driver.

#[derive(Clone, Copy)]
struct RecorderParams {
    value: N,
}

impl RecorderParams {
    const VALUE: ParamId = ParamId(0);
}

impl Params<N> for RecorderParams {
    const COUNT: usize = 1;
    fn from_bank(bank: &SmootherBank<N>) -> Self {
        RecorderParams { value: bank.value_at(0).unwrap() }
    }
}

/// A kernel that records each render's `(start, len, value)`.
struct Recorder {
    params: Vec<ParamInfo<N>>,
    log: Trace,
}

impl FrameModel<F> for Recorder {
    type Params = RecorderParams;
    type Model = ();
}

impl Kernel<F> for Recorder {
    fn prepare(&mut self, _spec: ProcessSpec) -> Result<(), DspError> {
        Ok(())
    }
    fn reset(&mut self) {}
    fn param_info(&self) -> &[ParamInfo<N>] {
        &self.params
    }
    fn render(&mut self, io: &mut SubBlock<'_, '_, '_, F>, params: &RecorderParams) {
        self.log.push((io.start, io.len, params.value.0));
    }
}

fn expected_trace() -> Trace {
    vec![(0, 32, 10.0), (32, 32, 10.0), (64, 16, 20.0)]
}

fn driver_case() -> (Vec<ParamInfo<N>>, Vec<ParamEvent<N>>) {
    let p = RecorderParams::VALUE;
    (
        vec![pinfo(p, (0.0, 100.0), 0.0, Smoothing::Step)],
        vec![ev(0, p, 10.0), ev(40, p, 20.0)],
    )
}

fn record(
    rec: &mut Recorder,
    bank: &mut SmootherBank<N>,
    frames: usize,
    pos: u64,
    events: &[ParamEvent<N>],
) {
    let mut chans: Vec<Vec<F>> = vec![vec![F(0.0); frames]];
    let mut planes: Vec<&mut [F]> = chans.iter_mut().map(Vec::as_mut_slice).collect();
    let mut ctx = ProcessContext::in_place(&mut planes, pos).with_events(events);
    drive(rec, bank, &mut ctx);
}

#[test]
fn drive_splits_on_grid_and_latches_targets() {
    let (params, events) = driver_case();
    let mut rec = Recorder { params: params.clone(), log: Vec::new() };
    let mut bank = SmootherBank::new(&params, &spec());
    record(&mut rec, &mut bank, 80, 0, &events);
    assert_eq!(rec.log, expected_trace());
}

#[test]
fn event_offsets_within_one_grid_cell_share_the_next_boundary() {
    let p = RecorderParams::VALUE;
    let params = vec![pinfo(p, (0.0, 100.0), 0.0, Smoothing::Step)];
    let mut traces = Vec::new();
    for offset in [1, 31] {
        let mut rec = Recorder { params: params.clone(), log: Vec::new() };
        let mut bank = SmootherBank::new(&params, &spec());
        record(&mut rec, &mut bank, 64, 0, &[ev(offset, p, 10.0)]);
        traces.push(rec.log);
    }
    assert_eq!(traces[0], traces[1]);
    assert_eq!(traces[0], vec![(0, 32, 0.0), (32, 32, 10.0)]);
}

#[test]
fn targets_after_the_last_boundary_latch_for_the_next_block() {
    let (params, _) = driver_case();
    let p = RecorderParams::VALUE;
    let mut rec = Recorder { params: params.clone(), log: Vec::new() };
    let mut bank = SmootherBank::new(&params, &spec());
    record(&mut rec, &mut bank, 40, 0, &[ev(36, p, 20.0)]);
    assert_eq!(
        rec.log,
        vec![(0, 32, 0.0), (32, 8, 0.0)],
        "block one: no boundary after the event, value unchanged"
    );
    rec.log.clear();
    record(&mut rec, &mut bank, 40, 40, &[]);
    assert_eq!(
        rec.log,
        vec![(0, 24, 0.0), (24, 16, 20.0)],
        "block two: the step at 64 applies the carried target"
    );
}

/// The value of every frame of consecutive blocks, from one target at `stamp`.
fn values_per_frame(sizes: &[usize], stamp: usize, target: f64) -> Vec<f64> {
    let p = RecorderParams::VALUE;
    let params = vec![pinfo(p, (0.0, 100.0), 3.0, Smoothing::Step)];
    let mut rec = Recorder { params: params.clone(), log: Vec::new() };
    let mut bank = SmootherBank::new(&params, &spec());
    let mut pos = 0;
    for &frames in sizes {
        let events: Vec<ParamEvent<N>> = if stamp >= pos && stamp < pos + frames {
            vec![ev((stamp - pos) as u32, p, target)]
        } else {
            Vec::new()
        };
        record(&mut rec, &mut bank, frames, pos as u64, &events);
        pos += frames;
    }
    rec.log.iter().flat_map(|&(_, len, value)| vec![value; len]).collect()
}

#[test]
fn one_target_acts_from_its_boundary_in_any_division() {
    for stamp in [0, 1, 31, 32, 33, 70] {
        let boundary = (stamp + 31) / 32 * 32;
        let expected: Vec<f64> =
            (0..128).map(|f| if f >= boundary { 8.0 } else { 3.0 }).collect();
        for sizes in [vec![128], vec![1; 128], vec![40, 40, 48], vec![31, 2, 63, 32]] {
            assert_eq!(values_per_frame(&sizes, stamp, 8.0), expected, "{stamp} in {sizes:?}");
        }
    }
}

#[test]
fn runs_lie_end_to_end_inside_grid_cells() {
    let params = vec![pinfo(RecorderParams::VALUE, (0.0, 100.0), 0.0, Smoothing::Step)];
    for pos in [0, 1, 31, 32, 40, 63] {
        for frames in [0, 1, 24, 31, 32, 33, 80, 128] {
            let mut rec = Recorder { params: params.clone(), log: Vec::new() };
            let mut bank = SmootherBank::new(&params, &spec());
            record(&mut rec, &mut bank, frames, pos, &[]);
            let mut at = 0;
            for &(start, len, _) in &rec.log {
                assert_eq!(start, at);
                assert!((1..=32).contains(&len));
                assert!((pos as usize + start) % 32 + len <= 32);
                assert!(start == 0 || (pos as usize + start) % 32 == 0);
                at += len;
            }
            assert_eq!(at, frames);
            let count = if frames == 0 { 0 } else { (pos as usize % 32 + frames + 31) / 32 };
            assert_eq!(rec.log.len(), count);
        }
    }
}

/// A kernel that writes the smoothed parameter value into every frame.
struct WriteValue {
    params: Vec<ParamInfo<N>>,
}

impl FrameModel<F> for WriteValue {
    type Params = RecorderParams;
    type Model = ();
}

impl Kernel<F> for WriteValue {
    fn prepare(&mut self, _spec: ProcessSpec) -> Result<(), DspError> {
        Ok(())
    }
    fn reset(&mut self) {}
    fn param_info(&self) -> &[ParamInfo<N>] {
        &self.params
    }
    fn render(&mut self, io: &mut SubBlock<'_, '_, '_, F>, params: &RecorderParams) {
        let v = F(params.value.0 as f32);
        for ch in 0..io.channels() {
            io.channel_mut(ch).fill(v);
        }
    }
}

#[test]
fn driven_set_parameter_immediate_pins_the_value_from_frame_zero() {
    let (params, _) = driver_case();
    let mut driven = KernelProcessor::<_, F>::new(WriteValue { params });
    driven.prepare(spec()).unwrap();
    driven.set_parameter_immediate(RecorderParams::VALUE, N(7.0)).expect("known parameter id");
    let mut chans: Vec<Vec<F>> = vec![vec![F(0.0); 80]];
    let mut planes: Vec<&mut [F]> = chans.iter_mut().map(Vec::as_mut_slice).collect();
    let mut ctx = ProcessContext::in_place(&mut planes, 0);
    driven.process(&mut ctx);
    assert!(chans[0].iter().all(|&x| x.0 == 7.0), "exact value from frame 0, no ramp");
}

#[test]
fn driven_set_parameter_immediate_reports_errors_without_changing_the_value() {
    let (params, _) = driver_case();
    let mut driven = KernelProcessor::<_, F>::new(WriteValue { params });
    driven.prepare(spec()).unwrap();
    driven.set_parameter_immediate(RecorderParams::VALUE, N(4.0)).expect("known parameter id");

    assert!(matches!(
        driven.set_parameter_immediate(ParamId(99), N(3.0)),
        Err(ParamSetError::UnknownParam(ParamId(99)))
    ));
    assert!(matches!(
        driven.set_parameter_immediate(RecorderParams::VALUE, N(f64::NAN)),
        Err(ParamSetError::NonFiniteValue { param: RecorderParams::VALUE, value })
            if value.0.is_nan()
    ));

    let mut chans = [vec![F(0.0); 1]];
    let mut planes: Vec<&mut [F]> = chans.iter_mut().map(Vec::as_mut_slice).collect();
    let mut ctx = ProcessContext::in_place(&mut planes, 0);
    driven.process(&mut ctx);
    assert_eq!(chans[0][0].0, 4.0, "rejected writes leave state unchanged");
}

#[test]
fn release_latching_rules_skip_invalid_values_offsets_and_unknown_ids() {
    let params = [pinfo(ParamId(0), (0.0, 10.0), 1.0, Smoothing::Step)];
    let mut bank = SmootherBank::new(&params, &spec());
    let events = [
        ev(0, ParamId(0), f64::NAN),
        ev(0, ParamId(99), 8.0),
        ev(4, ParamId(0), 6.0),
        ev(8, ParamId(0), 9.0),
    ];
    let cursor = latch_events(&mut bank, &events, 0, 8, 8);
    bank.step();
    assert_eq!(bank.value(ParamId(0)), Some(N(6.0)));
    assert_eq!(cursor, events.len());
}

// Wrapper.

#[derive(Clone, Copy)]
struct Probe1Params;

impl Params<N> for Probe1Params {
    const COUNT: usize = 1;
    fn from_bank(_bank: &SmootherBank<N>) -> Self {
        Probe1Params
    }
}

#[derive(Clone, Copy)]
struct Probe2Params;

impl Params<N> for Probe2Params {
    const COUNT: usize = 2;
    fn from_bank(_bank: &SmootherBank<N>) -> Self {
        Probe2Params
    }
}

/// A metadata and footprint probe over a typed parameter set.
struct ProbeKernel<P> {
    params: Vec<ParamInfo<N>>,
    footprint: usize,
    latency: usize,
    sidechain: usize,
    io: IoMode,
    tail: Tail,
    /// The spec that the wrapper handed this kernel.
    seen_spec: Rc<Cell<Option<ProcessSpec>>>,
    _params: PhantomData<P>,
}

fn probe<P>(params: Vec<ParamInfo<N>>, footprint: usize) -> ProbeKernel<P> {
    ProbeKernel {
        params,
        footprint,
        latency: 0,
        sidechain: 0,
        io: IoMode::InPlace,
        tail: Tail::Absent,
        seen_spec: Rc::new(Cell::new(None)),
        _params: PhantomData,
    }
}

impl<P: Params<N>> FrameModel<F> for ProbeKernel<P> {
    type Params = P;
    type Model = ();
}

impl<P: Params<N>> Kernel<F> for ProbeKernel<P> {
    fn prepare(&mut self, spec: ProcessSpec) -> Result<(), DspError> {
        self.seen_spec.set(Some(spec));
        Ok(())
    }
    fn reset(&mut self) {}
    fn render(&mut self, _io: &mut SubBlock<'_, '_, '_, F>, _params: &P) {}
    fn param_info(&self) -> &[ParamInfo<N>] {
        &self.params
    }
    fn memory_footprint(&self) -> usize {
        self.footprint
    }
    fn latency(&self) -> usize {
        self.latency
    }
    fn sidechain_inputs(&self) -> usize {
        self.sidechain
    }
    fn io_mode(&self) -> IoMode {
        self.io
    }
    fn tail(&self) -> Tail {
        self.tail
    }
}

fn n_params(n: u32) -> Vec<ParamInfo<N>> {
    (0..n).map(|i| pinfo(ParamId(i), (0.0, 1.0), 0.0, Smoothing::Step)).collect()
}

#[test]
fn prepare_rejects_non_sequential_param_ids() {
    let mut kp = KernelProcessor::<_, F>::new(probe::<Probe1Params>(
        vec![pinfo(ParamId(1), (0.0, 1.0), 0.0, Smoothing::Step)],
        0,
    ));
    assert!(matches!(kp.prepare(spec()), Err(DspError::InvalidParam(_))));
}

#[test]
fn prepare_enforces_the_budget_at_the_boundary() {
    let mut measure = KernelProcessor::<_, F>::new(probe::<Probe2Params>(n_params(2), 4096));
    measure.prepare(spec()).unwrap();
    let total = measure.memory_footprint();

    let mut at = KernelProcessor::<_, F>::new(probe::<Probe2Params>(n_params(2), 4096));
    assert!(at.prepare(spec_cap(Some(total))).is_ok(), "fits exactly at the cap");
    let mut over = KernelProcessor::<_, F>::new(probe::<Probe2Params>(n_params(2), 4096));
    assert!(
        matches!(over.prepare(spec_cap(Some(total - 1))), Err(DspError::OverBudget { .. })),
        "one byte over the cap fails"
    );
}

#[test]
fn prepare_hands_the_kernel_the_remaining_budget() {
    let bank_bytes = SmootherBank::<N>::footprint_for(2);
    let cap = bank_bytes + 4096;
    let kernel = probe::<Probe2Params>(n_params(2), 64);
    let seen = kernel.seen_spec.clone();
    let mut kp = KernelProcessor::<_, F>::new(kernel);
    kp.prepare(spec_cap(Some(cap))).unwrap();
    assert_eq!(
        seen.get().expect("prepared").max_memory,
        Some(cap - bank_bytes),
        "the kernel's sub-budget is the cap minus the bank"
    );

    let kernel = probe::<Probe2Params>(n_params(2), 64);
    let seen = kernel.seen_spec.clone();
    let mut kp = KernelProcessor::<_, F>::new(kernel);
    kp.prepare(spec()).unwrap();
    assert_eq!(seen.get().expect("prepared").max_memory, None);
}

#[test]
fn a_failed_budget_prepare_installs_no_wrapper_state() {
    let mut p = KernelProcessor::<_, F>::new(probe::<Probe2Params>(n_params(2), 4096));
    let before = p.memory_footprint();
    assert!(p.prepare(spec_cap(Some(1))).is_err(), "a one-byte cap cannot hold the bank");
    assert_eq!(p.memory_footprint(), before, "a failed prepare must not install the bank");
}

/// The first sample that a processor writes.
fn first_sample(p: &mut KernelProcessor<WriteValue, F>) -> f32 {
    let mut samples = vec![F(0.0)];
    let mut planes = [samples.as_mut_slice()];
    p.process(&mut ProcessContext::in_place(&mut planes, 32));
    samples[0].0
}

#[test]
fn a_failed_prepare_keeps_values_and_does_not_reach_the_kernel() {
    let (params, _) = driver_case();
    let mut p = KernelProcessor::<_, F>::new(WriteValue { params });
    p.prepare(spec()).unwrap();
    p.set_parameter_immediate(RecorderParams::VALUE, N(7.0)).expect("known parameter id");
    let before = p.memory_footprint();
    assert!(p.prepare(spec_cap(Some(1))).is_err(), "a one-byte cap cannot hold the bank");
    assert_eq!(p.memory_footprint(), before);
    assert!(
        p.set_parameter_immediate(RecorderParams::VALUE, N(8.0)).is_ok(),
        "the bank from before is still there"
    );
    let (params, _) = driver_case();
    let mut p = KernelProcessor::<_, F>::new(WriteValue { params });
    assert!(p.prepare(spec_cap(Some(1))).is_err());
    assert!(matches!(
        p.set_parameter_immediate(RecorderParams::VALUE, N(8.0)),
        Err(ParamSetError::UnknownParam(RecorderParams::VALUE))
    ));

    let kernel = probe::<Probe2Params>(n_params(2), 64);
    let seen = Rc::clone(&kernel.seen_spec);
    let mut p = KernelProcessor::<_, F>::new(kernel);
    let bank_bytes = SmootherBank::<N>::footprint_for(2);
    assert!(p.prepare(spec_cap(Some(bank_bytes - 1))).is_err());
    assert!(seen.get().is_none(), "the kernel is not prepared when the bank does not fit");
    assert!(p.prepare(spec_cap(Some(bank_bytes + 64))).is_ok(), "an exact fit is a fit");
    assert_eq!(seen.get().unwrap().max_memory, Some(64));
    assert_eq!(p.memory_footprint(), bank_bytes + 64);
}

#[test]
fn a_reset_processor_goes_on_as_a_fresh_one() {
    let (params, events) = driver_case();
    let mut used = KernelProcessor::<_, F>::new(WriteValue { params: params.clone() });
    used.prepare(spec()).unwrap();
    let standing = (used.latency(), used.tail(), used.io_mode(), used.memory_footprint());
    used.set_parameter_immediate(RecorderParams::VALUE, N(9.0)).expect("known parameter id");
    assert_eq!(first_sample(&mut used), 9.0);
    assert_eq!((used.latency(), used.tail(), used.io_mode(), used.memory_footprint()), standing);
    used.reset();
    assert_eq!((used.latency(), used.tail(), used.io_mode(), used.memory_footprint()), standing);

    let mut fresh = KernelProcessor::<_, F>::new(WriteValue { params });
    fresh.prepare(spec()).unwrap();
    let mut outputs = Vec::new();
    for p in [&mut used, &mut fresh] {
        let mut samples = vec![F(0.0); 80];
        let mut planes = [samples.as_mut_slice()];
        p.process(&mut ProcessContext::in_place(&mut planes, 0).with_events(&events));
        outputs.push(samples.iter().map(|x| x.0.to_bits()).collect::<Vec<u32>>());
    }
    assert_eq!(outputs[0], outputs[1]);
}

#[test]
fn prepare_rejects_a_cap_below_the_bank_alone() {
    let bank_bytes = size_of::<Smoother<N>>();
    let mut kp = KernelProcessor::<_, F>::new(probe::<Probe1Params>(n_params(1), 4096));
    assert!(matches!(
        kp.prepare(spec_cap(Some(bank_bytes - 1))),
        Err(DspError::OverBudget { needed, cap }) if needed == bank_bytes && cap == bank_bytes - 1
    ));
}

#[test]
fn driven_delegates_metadata() {
    let k = ProbeKernel::<Probe1Params> {
        params: vec![pinfo(ParamId(0), (0.0, 1.0), 0.0, Smoothing::Step)],
        footprint: 1234,
        latency: 7,
        sidechain: 3,
        io: IoMode::Split,
        tail: Tail::Frames(9),
        seen_spec: Rc::new(Cell::new(None)),
        _params: PhantomData,
    };
    let mut kp = KernelProcessor::<_, F>::new(k);
    kp.prepare(spec()).unwrap();
    assert_eq!(kp.param_info().len(), 1);
    assert_eq!(kp.param_info()[0].id, ParamId(0));
    assert_eq!(kp.sidechain_inputs(), 3);
    assert_eq!(kp.latency(), 7);
    assert_eq!(kp.io_mode(), IoMode::Split);
    assert_eq!(kp.tail(), Tail::Frames(9));
    assert_eq!(kp.memory_footprint(), 1234 + size_of::<Smoother<N>>());
}

#[test]
fn driven_footprint_saturates_when_the_total_is_not_representable() {
    let mut kp = KernelProcessor::<_, F>::new(probe::<Probe1Params>(n_params(1), usize::MAX));
    kp.prepare(spec()).expect("prepare without a memory cap");
    assert_eq!(kp.memory_footprint(), usize::MAX);
}

#[test]
fn prepare_rejects_more_typed_fields_than_metadata() {
    let mut kp = KernelProcessor::<_, F>::new(probe::<Probe2Params>(n_params(1), 0));
    let before = kp.memory_footprint();
    assert!(matches!(kp.prepare(spec()), Err(DspError::InvalidParam(_))));
    assert_eq!(
        kp.memory_footprint(),
        before,
        "a failed prepare must not install smoother bank state"
    );
}

#[test]
fn prepare_rejects_more_metadata_than_typed_fields() {
    let mut kp = KernelProcessor::<_, F>::new(probe::<Probe1Params>(n_params(2), 0));
    let before = kp.memory_footprint();
    assert!(matches!(kp.prepare(spec()), Err(DspError::InvalidParam(_))));
    assert_eq!(
        kp.memory_footprint(),
        before,
        "a failed prepare must not install smoother bank state"
    );
}

#[test]
fn prepare_accepts_matching_count_and_metadata() {
    let mut kp = KernelProcessor::<_, F>::new(probe::<Probe2Params>(n_params(2), 0));
    assert!(kp.prepare(spec()).is_ok());
}

// Geometry.

fn shape(io_mode: IoMode) -> PreparedContract {
    PreparedContract { max_block: 128, channels: 1, io_mode, sidechain_inputs: 0 }
}

#[test]
fn flush_capacity_may_exceed_process_max_block() {
    let (params, _) = driver_case();
    let mut p = KernelProcessor::<_, F>::new(WriteValue { params });
    p.prepare(spec()).unwrap();
    let mut chans: Vec<Vec<F>> = vec![vec![F(0.0); 512]];
    let mut planes: Vec<&mut [F]> = chans.iter_mut().map(Vec::as_mut_slice).collect();
    let mut out = AudioBlockMut::new(&mut planes);
    assert_eq!(validate_flush_geometry(Some(&shape(IoMode::InPlace)), &out), None);
    let _ = p.flush(&mut out);
}

#[test]
fn flush_faults_name_the_channel_count() {
    let mut none: Vec<&mut [F]> = Vec::new();
    let out = AudioBlockMut::new(&mut none);
    let fault = validate_flush_geometry(Some(&shape(IoMode::InPlace)), &out).unwrap();
    assert_eq!(
        fault.message(),
        "flush output channel count (0) must equal the prepared channel count (1)"
    );
    let mut chans: Vec<Vec<F>> = vec![vec![F(0.0); 4]; 2];
    let mut planes: Vec<&mut [F]> = chans.iter_mut().map(Vec::as_mut_slice).collect();
    let out = AudioBlockMut::new(&mut planes);
    let fault = validate_flush_geometry(Some(&shape(IoMode::InPlace)), &out).unwrap();
    assert_eq!(
        fault.message(),
        "flush output channel count (2) must equal the prepared channel count (1)"
    );
    assert_eq!(validate_flush_geometry(None, &out), Some(GeometryFault::FlushUnprepared));
}

#[test]
fn in_place_faults_name_what_differs() {
    let check = |channels: usize, len: usize, frames: usize, p: Option<&PreparedContract>| {
        let mut chans: Vec<Vec<F>> = vec![vec![F(0.0); len]; channels];
        let mut planes: Vec<&mut [F]> = chans.iter_mut().map(Vec::as_mut_slice).collect();
        let mut ctx = ProcessContext::in_place(&mut planes, 0);
        ctx.frames = frames;
        validate_geometry(p, &ctx).map(|f| f.message())
    };
    let p = shape(IoMode::InPlace);
    assert_eq!(check(1, 4, 4, Some(&p)), None);
    assert_eq!(check(1, 4, 4, None).unwrap(), "process requires a successful prepare");
    assert_eq!(
        check(1, 129, 129, Some(&p)).unwrap(),
        "block frames (129) must not exceed the prepared max_block (128)"
    );
    assert_eq!(
        check(2, 4, 4, Some(&p)).unwrap(),
        "main channel count (2) must equal the prepared channel count (1)"
    );
    assert_eq!(
        check(1, 4, 3, Some(&p)).unwrap(),
        "in-place main frame count (4) must equal ctx.frames (3)"
    );
    assert_eq!(
        check(1, 4, 4, Some(&shape(IoMode::Split))).unwrap(),
        "ctx.main I/O shape must match the processor's io_mode()"
    );
}

#[test]
fn split_and_output_only_faults_name_what_differs() {
    let input = [vec![F(0.0); 4], vec![F(0.0); 4]];
    let mut output = [vec![F(0.0); 4]];
    let in_planes: Vec<&[F]> = input.iter().take(1).map(Vec::as_slice).collect();
    {
        let mut out_planes: Vec<&mut [F]> = output.iter_mut().map(Vec::as_mut_slice).collect();
        let mut ctx = ProcessContext::split(&in_planes, &mut out_planes, 0);
        assert_eq!(validate_geometry(Some(&shape(IoMode::Split)), &ctx), None);
        ctx.frames = 3;
        assert_eq!(
            validate_geometry(Some(&shape(IoMode::Split)), &ctx).unwrap().message(),
            "split input frame count (4) must equal ctx.frames (3)"
        );
    }
    let wide: Vec<&[F]> = input.iter().map(Vec::as_slice).collect();
    {
        let mut out_planes: Vec<&mut [F]> = output.iter_mut().map(Vec::as_mut_slice).collect();
        let ctx = ProcessContext::split(&wide, &mut out_planes, 0);
        assert_eq!(
            validate_geometry(Some(&shape(IoMode::Split)), &ctx).unwrap().message(),
            "split input and output must have equal channel counts"
        );
    }
    let mut planes: Vec<&mut [F]> = output.iter_mut().map(Vec::as_mut_slice).collect();
    let mut ctx = ProcessContext::output_only(&mut planes, 0);
    ctx.frames = 3;
    assert_eq!(
        validate_geometry(Some(&shape(IoMode::OutputOnly)), &ctx).unwrap().message(),
        "output-only main frame count (4) must equal ctx.frames (3)"
    );
}

#[test]
fn sidechain_faults_name_the_bus() {
    let key = [vec![F(0.0); 2]];
    let key_planes: Vec<&[F]> = key.iter().map(Vec::as_slice).collect();
    let sc = [AudioBlock::new(&key_planes)];
    let mut chans = [vec![F(0.0); 4]];
    let mut planes: Vec<&mut [F]> = chans.iter_mut().map(Vec::as_mut_slice).collect();
    let ctx = ProcessContext::in_place(&mut planes, 0).with_sidechains(&sc);
    assert_eq!(
        validate_geometry(Some(&shape(IoMode::InPlace)), &ctx).unwrap().message(),
        "sidechain bus count (1) must equal sidechain_inputs() (0)"
    );
    let keyed = PreparedContract { sidechain_inputs: 1, ..shape(IoMode::InPlace) };
    assert_eq!(
        validate_geometry(Some(&keyed), &ctx).unwrap().message(),
        "sidechain bus 0 has 2 frames, fewer than the block's 4"
    );
}

// Block division.

#[test]
fn block_division_shows_neither_in_values_nor_in_positions() {
    let p = RecorderParams::VALUE;
    let params = vec![pinfo_ramp(p, (0.0, 100.0), 0.0, Smoothing::Linear, 5.0)];
    let stream = [(5u32, 50.0), (40, 10.0), (90, 90.0)];
    let run = |block: usize| {
        let mut driven = KernelProcessor::<_, F>::new(WriteValue { params: params.clone() });
        driven.prepare(spec()).unwrap();
        let mut out = vec![F(0.0); 120];
        let mut at = 0;
        while at < 120 {
            let end = (at + block).min(120);
            let events: Vec<ParamEvent<N>> = stream
                .iter()
                .filter(|e| (e.0 as usize) >= at && (e.0 as usize) < end)
                .map(|e| ev(e.0 - at as u32, p, e.1))
                .collect();
            let mut planes: Vec<&mut [F]> = vec![&mut out[at..end]];
            let mut ctx =
                ProcessContext::in_place(&mut planes, at as u64).with_events(&events);
            driven.process(&mut ctx);
            at = end;
        }
        out.iter().map(|x| x.0.to_bits()).collect::<Vec<u32>>()
    };
    let whole = run(120);
    for block in [1, 7, 31, 32, 33, 64, 119] {
        assert_eq!(run(block), whole, "block size {block}");
    }
}
