//! Blocks, contexts, parameters, sources, and trait defaults.

use bisque::contract::block::{AudioBlock, AudioBlockMut, Io, IoMode};
use bisque::contract::context::{ProcessContext, Produced, SubBlock, Tail};
use bisque::contract::error::DspError;
use bisque::contract::param::{
    ParamEvent, ParamId, ParamInfo, ParamSetError, ParamValueError, Smoothing, Unit, ValueScale,
};
use bisque::contract::source::RingSource;
use bisque::contract::spec::ProcessSpec;
use bisque::contract::traits::{
    FrameModel, Kernel, Measurer, NoParams, Processor, Source, VariableRate,
};
use bisque::fixed::Fixed;
use bisque::number::{Real, Sample};

/// Double precision numbers for the library to compute with.
#[derive(Clone, Copy, Debug, PartialEq)]
struct N(f64);

impl Real for N {
    fn plus(self, other: Self) -> Self {
        N(self.0 + other.0)
    }
    fn minus(self, other: Self) -> Self {
        N(self.0 - other.0)
    }
    fn times(self, other: Self) -> Self {
        N(self.0 * other.0)
    }
    fn over(self, other: Self) -> Self {
        N(self.0 / other.0)
    }
    fn neg(self) -> Self {
        N(-self.0)
    }
    fn abs(self) -> Self {
        N(self.0.abs())
    }
    fn copysign(self, other: Self) -> Self {
        N(self.0.copysign(other.0))
    }
    fn ceil(self) -> Self {
        N(self.0.ceil())
    }
    fn floor(self) -> Self {
        N(self.0.floor())
    }
    fn round(self) -> Self {
        N(self.0.round())
    }
    fn is_finite(self) -> bool {
        self.0.is_finite()
    }
    fn less(self, other: Self) -> bool {
        self.0 < other.0
    }
    fn equals(self, other: Self) -> bool {
        self.0 == other.0
    }
    fn decimal(mantissa: i64, exponent: i32) -> Self {
        const POWERS: [f64; 23] = [
            1e0, 1e1, 1e2, 1e3, 1e4, 1e5, 1e6, 1e7, 1e8, 1e9, 1e10, 1e11, 1e12, 1e13, 1e14, 1e15, 1e16,
            1e17, 1e18, 1e19, 1e20, 1e21, 1e22,
        ];
        let m = mantissa as f64;
        match exponent {
            // Both operands are exact, so one rounding gives the nearest number.
            0..=22 if mantissa.unsigned_abs() < (1 << 53) => N(m * POWERS[exponent as usize]),
            -22..=-1 if mantissa.unsigned_abs() < (1 << 53) => N(m / POWERS[-exponent as usize]),
            _ => N(format!("{mantissa}e{exponent}").parse().unwrap()),
        }
    }
    fn from_u64(n: u64) -> Self {
        N(n as f64)
    }
    fn to_u64(self) -> u64 {
        self.0 as u64
    }
    fn denormal_floor() -> Self {
        N(1e-30)
    }
    fn zero() -> Self {
        N(0.0)
    }
    fn one() -> Self {
        N(1.0)
    }
    fn infinity() -> Self {
        N(f64::INFINITY)
    }
    fn sin(self) -> Self {
        N(libm::sin(self.0))
    }
    fn cos(self) -> Self {
        N(libm::cos(self.0))
    }
    fn tan(self) -> Self {
        N(libm::tan(self.0))
    }
    fn sqrt(self) -> Self {
        N(libm::sqrt(self.0))
    }
    fn hypot(self, other: Self) -> Self {
        N(libm::hypot(self.0, other.0))
    }
    fn atan2(self, x: Self) -> Self {
        N(libm::atan2(self.0, x.0))
    }
    fn exp(self) -> Self {
        N(libm::exp(self.0))
    }
    fn ln(self) -> Self {
        N(libm::log(self.0))
    }
    fn log10(self) -> Self {
        N(libm::log10(self.0))
    }
    fn pow(self, exponent: Self) -> Self {
        N(libm::pow(self.0, exponent.0))
    }
}

/// Single precision samples.
#[derive(Clone, Copy, Debug, PartialEq)]
struct F(f32);

impl Sample for F {
    type Real = N;
    fn to_real(self) -> N {
        N(f64::from(self.0))
    }
    fn from_real(x: N) -> Self {
        F(x.0 as f32)
    }
}
#[test]
fn display_messages_carry_their_content() {
    let p = DspError::InvalidParam("freq").message();
    assert!(p.contains("freq") && p.contains("parameter"), "{p}");
    let s = DspError::UnsupportedSpec("rate").message();
    assert!(s.contains("rate") && s.contains("spec"), "{s}");
    let b = DspError::OverBudget { needed: 4096, cap: 1024 }.message();
    assert!(b.contains("4096") && b.contains("1024") && b.contains("budget"), "{b}");
}

#[test]
fn messages_are_exact() {
    assert_eq!(DspError::InvalidParam("freq").message(), "invalid parameter: freq");
    assert_eq!(DspError::UnsupportedSpec("rate").message(), "unsupported spec: rate");
    assert_eq!(
        DspError::OverBudget { needed: 10, cap: 0 }.message(),
        "over memory budget: needs 10 bytes, cap is 0"
    );
}

#[test]
fn inplace_context_constructor_derives_frames_and_defaults_aux_inputs() {
    let events = [ParamEvent { offset: 1, param: ParamId(0), value: N(2.0) }];
    let mut buf = [vec![F(0.0); 4], vec![F(1.0); 4]];
    let mut planes: Vec<&mut [F]> = buf.iter_mut().map(Vec::as_mut_slice).collect();
    let ctx = ProcessContext::in_place(&mut planes, 128).with_events(&events);

    assert_eq!(ctx.frames, 4);
    assert_eq!(ctx.sample_pos, 128);
    assert_eq!(ctx.events, &events);
    assert!(ctx.sidechain.is_empty());
    let Io::InPlace(block) = &ctx.main else {
        panic!("expected in-place I/O");
    };
    assert_eq!(block.channels(), 2);
    assert_eq!(block.frames(), 4);
}

#[test]
fn output_only_context_derives_frames_and_exposes_only_output() {
    let mut buf = [vec![F(0.0); 4], vec![F(0.0); 4]];
    let mut planes: Vec<&mut [F]> = buf.iter_mut().map(Vec::as_mut_slice).collect();
    let ctx = ProcessContext::output_only(&mut planes, 64);

    assert_eq!(ctx.frames, 4);
    assert_eq!(ctx.sample_pos, 64);
    let Io::OutputOnly(output) = &ctx.main else {
        panic!("expected output-only I/O");
    };
    assert_eq!(output.channels(), 2);
    assert_eq!(output.frames(), 4);
}

#[test]
fn split_context_constructor_derives_frames_and_accepts_sidechains() {
    let input = [vec![F(1.0); 3], vec![F(2.0); 3]];
    let mut output = [vec![F(0.0); 3], vec![F(0.0); 3]];
    let in_planes: Vec<&[F]> = input.iter().map(Vec::as_slice).collect();
    let mut out_planes: Vec<&mut [F]> = output.iter_mut().map(Vec::as_mut_slice).collect();
    let key = [vec![F(0.5); 3]];
    let key_planes: Vec<&[F]> = key.iter().map(Vec::as_slice).collect();
    let sidechains = [AudioBlock::new(&key_planes)];

    let ctx = ProcessContext::split(&in_planes, &mut out_planes, 0).with_sidechains(&sidechains);

    assert_eq!(ctx.frames, 3);
    assert_eq!(ctx.sidechain.len(), 1);
    let Io::Split { input, output } = &ctx.main else {
        panic!("expected split I/O");
    };
    assert_eq!(input.channels(), 2);
    assert_eq!(input.frames(), 3);
    assert_eq!(output.channels(), 2);
    assert_eq!(output.frames(), 3);
}

#[test]
fn split_input_and_output_are_sub_ranged() {
    let in_data = [vec![10.0f32, 11.0, 12.0, 13.0, 14.0]];
    let mut out_data = [vec![0.0f32; 5]];
    {
        let in_planes: Vec<&[f32]> = in_data.iter().map(Vec::as_slice).collect();
        let input = AudioBlock::new(&in_planes);
        let mut out_planes: Vec<&mut [f32]> = out_data.iter_mut().map(Vec::as_mut_slice).collect();
        let output = AudioBlockMut::new(&mut out_planes);
        let mut io = Io::Split { input, output };
        let mut sub = SubBlock { io: &mut io, sc: &[], start: 1, len: 3 };
        assert_eq!(sub.input(0), &[11.0f32, 12.0, 13.0][..]);
        sub.output_mut(0).copy_from_slice(&[100.0, 200.0, 300.0]);
        let (read, write) = sub.split_channel(0);
        assert_eq!(read, &[11.0f32, 12.0, 13.0][..]);
        assert_eq!(write, &[100.0f32, 200.0, 300.0][..]);
    }
    assert_eq!(out_data[0], [0.0, 100.0, 200.0, 300.0, 0.0]);
}

#[test]
fn inplace_output_is_sub_ranged() {
    let mut buf = [vec![0.0f32; 5]];
    {
        let mut planes: Vec<&mut [f32]> = buf.iter_mut().map(Vec::as_mut_slice).collect();
        let block = AudioBlockMut::new(&mut planes);
        let mut io = Io::InPlace(block);
        let mut sub = SubBlock { io: &mut io, sc: &[], start: 1, len: 3 };
        sub.output_mut(0).copy_from_slice(&[5.0, 6.0, 7.0]);
        assert_eq!(sub.frames(), 3);
        assert_eq!(sub.channels(), 1);
        assert_eq!(sub.channel_mut(0), &[5.0f32, 6.0, 7.0][..]);
    }
    assert_eq!(buf[0], [0.0, 5.0, 6.0, 7.0, 0.0]);
}

#[test]
fn output_only_output_is_sub_ranged() {
    let mut buf = [vec![0.0f32; 5]];
    {
        let mut planes: Vec<&mut [f32]> = buf.iter_mut().map(Vec::as_mut_slice).collect();
        let block = AudioBlockMut::new(&mut planes);
        let mut io = Io::OutputOnly(block);
        let mut sub = SubBlock { io: &mut io, sc: &[], start: 1, len: 3 };
        sub.output_mut(0).copy_from_slice(&[5.0, 6.0, 7.0]);
    }
    assert_eq!(buf[0], [0.0, 5.0, 6.0, 7.0, 0.0]);
}

#[test]
fn sidechain_buses_channels_and_ranges() {
    let bus0 = [vec![1.0f32, 2.0, 3.0, 4.0, 5.0], vec![6.0, 7.0, 8.0, 9.0, 10.0]];
    let bus1 = [vec![11.0f32, 12.0, 13.0, 14.0, 15.0]];
    let p0: Vec<&[f32]> = bus0.iter().map(Vec::as_slice).collect();
    let p1: Vec<&[f32]> = bus1.iter().map(Vec::as_slice).collect();
    let sc = [AudioBlock::new(&p0), AudioBlock::new(&p1)];

    let mut buf = [vec![0.0f32; 5]];
    let mut planes: Vec<&mut [f32]> = buf.iter_mut().map(Vec::as_mut_slice).collect();
    let block = AudioBlockMut::new(&mut planes);
    let mut io = Io::InPlace(block);
    let sub = SubBlock { io: &mut io, sc: &sc, start: 1, len: 3 };
    assert_eq!(sub.sidechain_buses(), 2);
    assert_eq!(sub.sidechain_channels(0), 2);
    assert_eq!(sub.sidechain_channels(1), 1);
    assert_eq!(sub.sidechain(0, 1), &[7.0f32, 8.0, 9.0][..]);
}

// Parameters

fn linear_info() -> ParamInfo<N> {
    ParamInfo::new(ParamId(7), "gain", (N(-12.0), N(12.0)), N(0.0), Unit::Db)
        .with_smoothing(Smoothing::OnePole)
        .with_smoothing_ms(N(10.0))
}

fn log_info() -> ParamInfo<N> {
    ParamInfo::new(ParamId(8), "frequency", (N(20.0), N(20_000.0)), N(1_000.0), Unit::Hz)
}

#[test]
fn constructor_defaults_and_const_overrides_are_stable() {
    let (linear, log) = (linear_info(), log_info());
    assert_eq!(linear.value_scale, ValueScale::Linear);
    assert_eq!(linear.smoothing, Smoothing::OnePole);
    assert_eq!(linear.smoothing_ms.0, 10.0);
    assert_eq!(log.value_scale, ValueScale::Logarithmic);
    assert_eq!(log.smoothing, Smoothing::Exponential);
    assert_eq!(log.smoothing_ms.0, 5.0);
    assert_eq!(log.with_value_scale(ValueScale::Linear).value_scale, ValueScale::Linear);
}

#[test]
fn mapping_endpoints_are_exact_and_finite_inputs_clamp() {
    let (linear, log) = (linear_info(), log_info());
    assert_eq!(linear.normalize(N(-99.0)).unwrap().0, 0.0);
    assert_eq!(linear.normalize(N(99.0)).unwrap().0, 1.0);
    assert_eq!(linear.denormalize(N(-1.0)).unwrap(), linear.range.0);
    assert_eq!(linear.denormalize(N(2.0)).unwrap(), linear.range.1);
    assert_eq!(log.normalize(log.range.0).unwrap().0, 0.0);
    assert_eq!(log.normalize(log.range.1).unwrap().0, 1.0);
    assert_eq!(log.denormalize(N(0.0)).unwrap(), log.range.0);
    assert_eq!(log.denormalize(N(1.0)).unwrap(), log.range.1);
}

#[test]
fn mapping_round_trips_interior_values() {
    for (info, value) in [(linear_info(), 3.25f64), (log_info(), 440.0)] {
        let round_trip = info.denormalize(info.normalize(N(value)).unwrap()).unwrap().0;
        assert!((round_trip - value).abs() <= value.abs().max(1.0) * 1e-12);
    }
}

#[test]
fn mapping_stays_finite_across_extreme_valid_ranges() {
    let linear = ParamInfo::new(
        ParamId(9),
        "wide linear",
        (N(-f64::MAX), N(f64::MAX)),
        N(0.0),
        Unit::Linear,
    );
    assert_eq!(linear.normalize(N(0.0)).unwrap().0, 0.5);
    assert_eq!(linear.denormalize(N(0.5)).unwrap().0, 0.0);

    let asymmetric = ParamInfo::new(
        ParamId(11),
        "asymmetric wide linear",
        (N(-f64::MAX), N(f64::MAX / 2.0)),
        N(0.0),
        Unit::Linear,
    );
    let value = f64::MAX / 4.0;
    let normalized = asymmetric.normalize(N(value)).unwrap();
    assert!((normalized.0 - 5.0 / 6.0).abs() <= 2.0 * f64::EPSILON);
    let round_trip = asymmetric.denormalize(normalized).unwrap().0;
    assert!((round_trip - value).abs() <= value * 4.0 * f64::EPSILON);

    let logarithmic = ParamInfo::new(
        ParamId(10),
        "wide logarithmic",
        (N(1e-300), N(1e300)),
        N(1.0),
        Unit::Hz,
    );
    let normalized = logarithmic.normalize(N(1.0)).unwrap();
    assert!((normalized.0 - 0.5).abs() <= 1e-15);
    let round_trip = logarithmic.denormalize(normalized).unwrap().0;
    assert!(round_trip.is_finite());
    assert!((round_trip - 1.0).abs() <= 1e-12);
}

#[test]
fn a_fixed_point_range_wider_than_the_numbers_normalizes_by_halves() {
    let lo = Fixed { raw: i64::MIN + 1 };
    let hi = Fixed { raw: i64::MAX - 1 };
    let zero = Fixed::from_int(0);
    let info = ParamInfo::new(ParamId(9), "wide", (lo, hi), zero, Unit::Linear);
    assert!(!hi.minus(lo).is_finite());
    assert_eq!(info.normalize(lo).unwrap(), zero);
    assert_eq!(info.normalize(hi).unwrap(), Fixed::from_int(1));
    assert_eq!(info.normalize(zero).unwrap().raw, Fixed::from_int(1).raw / 2);
    let over = Fixed { raw: i64::MAX };
    let refused = info.normalize(over).unwrap_err();
    assert_eq!(refused.param, ParamId(9));
    assert_eq!(refused.value, over);
}

#[test]
fn mapping_rejects_non_finite_values_with_the_parameter_id() {
    let (linear, log) = (linear_info(), log_info());
    for value in [f64::NAN, f64::INFINITY, f64::NEG_INFINITY] {
        let err = linear.normalize(N(value)).unwrap_err();
        assert_eq!(err.param, linear.id);
        assert!(err.value.0.is_nan() || err.value.0 == value);
    }
    let err = log.denormalize(N(f64::NAN)).unwrap_err();
    assert_eq!(err.param, log.id);
    assert!(err.value.0.is_nan());
}

#[test]
fn parameter_errors_have_actionable_messages() {
    assert_eq!(
        ParamSetError::<N>::UnknownParam(ParamId(7)).message(""),
        "unknown parameter id 7"
    );
    let value = N(f64::INFINITY);
    assert_eq!(
        ParamSetError::NonFiniteValue { param: ParamId(3), value }.message(&format!("{}", value.0)),
        "non-finite value inf for parameter id 3"
    );
    let value = N(f64::NEG_INFINITY);
    assert_eq!(
        ParamValueError { param: ParamId(5), value }.message(&format!("{}", value.0)),
        "non-finite value -inf for parameter id 5"
    );
}

#[test]
fn default_smoothing_is_exponential_for_hz_and_linear_elsewhere() {
    assert_eq!(Smoothing::default_for(Unit::Hz), Smoothing::Exponential);
    for unit in [Unit::Db, Unit::Ms, Unit::Q, Unit::Linear] {
        assert_eq!(Smoothing::default_for(unit), Smoothing::Linear);
    }
    assert_eq!(ValueScale::default_for(Unit::Hz), ValueScale::Logarithmic);
    assert_eq!(ValueScale::default_for(Unit::Q), ValueScale::Linear);
}

// Sources

fn data() -> Vec<Vec<f32>> {
    vec![vec![1.0, 2.0, 3.0, 4.0], vec![5.0, 6.0, 7.0, 8.0]]
}

fn pull_into(src: &mut RingSource<f32>, frames: usize) -> (Produced, Vec<Vec<f32>>) {
    let nch = Source::channels(src);
    let mut chans: Vec<Vec<f32>> = vec![vec![0.0f32; frames]; nch];
    let produced = {
        let mut planes: Vec<&mut [f32]> = chans.iter_mut().map(Vec::as_mut_slice).collect();
        let mut block = AudioBlockMut::new(&mut planes);
        src.pull(&mut block)
    };
    (produced, chans)
}

#[test]
fn reports_channels_and_remaining_then_advances() {
    let mut src = RingSource::new(data());
    assert_eq!(Source::channels(&src), 2);
    assert_eq!(src.remaining(), 4);
    let (p, out) = pull_into(&mut src, 2);
    assert_eq!(p.frames, 2);
    assert!(!p.done, "two of four left some remaining");
    assert_eq!(src.remaining(), 2, "pull advanced the read cursor by two");
    assert_eq!(out[0][0], 1.0);
    assert_eq!(out[0][1], 2.0);
    assert_eq!(out[1][0], 5.0);
}

#[test]
fn a_wider_block_keeps_its_other_channels() {
    let mut src = RingSource::new(data());
    let mut chans: Vec<Vec<f32>> = vec![vec![-1.0f32; 6]; 3];
    let produced = {
        let mut planes: Vec<&mut [f32]> = chans.iter_mut().map(Vec::as_mut_slice).collect();
        src.pull(&mut AudioBlockMut::new(&mut planes))
    };
    assert_eq!(produced, Produced { frames: 4, done: true });
    assert_eq!(chans[0], vec![1.0, 2.0, 3.0, 4.0, -1.0, -1.0]);
    assert_eq!(chans[1], vec![5.0, 6.0, 7.0, 8.0, -1.0, -1.0]);
    assert_eq!(chans[2], vec![-1.0; 6]);
}

#[test]
fn pulls_of_any_size_join_to_the_data() {
    for (cap, frames) in [(1, 1), (1, 4), (2, 3), (3, 2), (4, 4)] {
        let mut src = RingSource::with_chunk_cap(data(), cap);
        let mut joined: Vec<Vec<f32>> = vec![Vec::new(); 2];
        let mut pulls = 0;
        loop {
            let (p, out) = pull_into(&mut src, frames);
            pulls += 1;
            for (all, part) in joined.iter_mut().zip(&out) {
                all.extend_from_slice(&part[..p.frames]);
            }
            if p.done {
                break;
            }
        }
        assert_eq!(joined, data());
        assert!(pulls <= 4, "no more pulls than frames");
    }
    let mut empty = RingSource::new(vec![Vec::<f32>::new()]);
    assert_eq!(pull_into(&mut empty, 8).0, Produced { frames: 0, done: true });
}

#[test]
fn a_pull_after_the_last_writes_nothing() {
    let mut src = RingSource::new(data());
    assert!(pull_into(&mut src, 4).0.done);
    let mut chans: Vec<Vec<f32>> = vec![vec![-1.0f32; 3]; 2];
    let produced = {
        let mut planes: Vec<&mut [f32]> = chans.iter_mut().map(Vec::as_mut_slice).collect();
        src.pull(&mut AudioBlockMut::new(&mut planes))
    };
    assert_eq!(produced, Produced { frames: 0, done: true });
    assert_eq!(chans, vec![vec![-1.0; 3]; 2]);
}

#[test]
fn a_rewound_source_plays_as_a_fresh_one() {
    let mut used = RingSource::with_chunk_cap(data(), 3);
    let _ = pull_into(&mut used, 2);
    let kept = used.clone();
    assert_eq!(kept.remaining(), 2, "a clone keeps the cursor");
    used.rewind();
    let mut fresh = RingSource::with_chunk_cap(data(), 3);
    assert_eq!(used.remaining(), fresh.remaining());
    assert_eq!(Source::channels(&used), Source::channels(&fresh));
    for frames in [1, 5, 2, 2] {
        assert_eq!(pull_into(&mut used, frames), pull_into(&mut fresh, frames));
        assert_eq!(used.remaining(), fresh.remaining());
    }
}

#[test]
fn over_request_pulls_all_and_reports_eof() {
    let mut src = RingSource::new(data());
    let (p, _) = pull_into(&mut src, 10);
    assert_eq!(p.frames, 4, "only four frames exist");
    assert!(p.done, "buffer exhausted => done");
    assert_eq!(src.remaining(), 0);
}

#[test]
fn rewind_restores_the_cursor() {
    let mut src = RingSource::new(data());
    let _ = pull_into(&mut src, 4);
    assert_eq!(src.remaining(), 0);
    src.rewind();
    assert_eq!(src.remaining(), 4, "rewind makes every frame available again");
    let (p, out) = pull_into(&mut src, 1);
    assert_eq!(p.frames, 1);
    assert_eq!(out[0][0], 1.0, "the rewound read starts at the front");
}

#[test]
fn chunk_cap_limits_each_pull_while_data_remains() {
    let mut src = RingSource::with_chunk_cap(data(), 2);
    let (p, _) = pull_into(&mut src, 10);
    assert_eq!(p.frames, 2, "capped to chunk_cap, not the four available");
    assert!(!p.done, "data remains, so not done");
    assert_eq!(src.remaining(), 2);
}

#[test]
fn a_zero_chunk_cap_still_makes_progress_until_everything_is_pulled() {
    let mut src = RingSource::with_chunk_cap(data(), 0);
    let mut pulled = Vec::new();
    loop {
        let (p, out) = pull_into(&mut src, 3);
        assert_eq!(p.frames, 1);
        pulled.push(out[0][0]);
        if p.done {
            break;
        }
    }
    assert_eq!(pulled, data()[0]);
}

// Trait defaults

struct Defaults;

impl Processor<F> for Defaults {
    fn prepare(&mut self, _spec: ProcessSpec) -> Result<(), DspError> {
        Ok(())
    }
    fn reset(&mut self) {}
    fn process(&mut self, _ctx: &mut ProcessContext<'_, '_, F>) {}
}

impl FrameModel<F> for Defaults {
    type Params = NoParams;
    type Model = ();
}

impl Kernel<F> for Defaults {
    fn prepare(&mut self, _spec: ProcessSpec) -> Result<(), DspError> {
        Ok(())
    }
    fn reset(&mut self) {}
    fn render(&mut self, _io: &mut SubBlock<'_, '_, '_, F>, _params: &NoParams) {}
}

impl VariableRate<F> for Defaults {
    fn prepare(&mut self, _spec: ProcessSpec) -> Result<(), DspError> {
        Ok(())
    }
    fn reset(&mut self) {}
    fn process(
        &mut self,
        _input: &mut dyn Source<F>,
        _out: &mut AudioBlockMut<'_, '_, F>,
    ) -> Produced {
        Produced { frames: 0, done: true }
    }
}

impl Measurer<F> for Defaults {
    type Model = ();
    type Reading = ();
    fn prepare(&mut self, _spec: ProcessSpec) -> Result<(), DspError> {
        Ok(())
    }
    fn reset(&mut self) {}
    fn observe(&mut self, _block: AudioBlock<'_, '_, F>) {}
    fn read(&self) -> Self::Reading {}
}

#[test]
fn processor_defaults_are_zero_empty_inplace() {
    let mut d = Defaults;
    assert_eq!(Processor::<F>::latency(&d), 0);
    assert_eq!(Processor::<F>::memory_footprint(&d), 0);
    assert_eq!(Processor::<F>::sidechain_inputs(&d), 0);
    assert_eq!(Processor::<F>::tail(&d), Tail::Absent);
    assert_eq!(Processor::<F>::io_mode(&d), IoMode::InPlace);
    assert!(Processor::<F>::param_info(&d).is_empty());
    assert!(matches!(
        Processor::<F>::set_parameter_immediate(&mut d, ParamId(9), N(1.0)),
        Err(ParamSetError::UnknownParam(ParamId(9)))
    ));
}

#[test]
fn kernel_defaults_are_zero_empty_inplace() {
    let d = Defaults;
    assert_eq!(Kernel::<F>::latency(&d), 0);
    assert_eq!(Kernel::<F>::memory_footprint(&d), 0);
    assert_eq!(Kernel::<F>::sidechain_inputs(&d), 0);
    assert_eq!(Kernel::<F>::tail(&d), Tail::Absent);
    assert_eq!(Kernel::<F>::io_mode(&d), IoMode::InPlace);
    assert!(Kernel::<F>::param_info(&d).is_empty());
}

#[test]
fn variable_rate_defaults() {
    let d = Defaults;
    assert_eq!(VariableRate::<F>::latency(&d), 0);
    assert_eq!(VariableRate::<F>::memory_footprint(&d), 0);
}

#[test]
fn measurer_defaults_are_zero() {
    let d = Defaults;
    assert_eq!(Measurer::<F>::latency(&d), 0);
    assert_eq!(Measurer::<F>::memory_footprint(&d), 0);
}

#[test]
fn processor_flush_default_yields_nothing_and_is_done() {
    let mut d = Defaults;
    let mut chans: Vec<Vec<F>> = vec![vec![F(0.0); 4]];
    let p = {
        let mut planes: Vec<&mut [F]> = chans.iter_mut().map(Vec::as_mut_slice).collect();
        let mut block = AudioBlockMut::new(&mut planes);
        Processor::<F>::flush(&mut d, &mut block)
    };
    assert_eq!(p.frames, 0);
    assert!(p.done);
}

#[test]
fn a_boxed_processor_forwards() {
    let mut b: Box<dyn Processor<F>> = Box::new(Defaults);
    assert_eq!(b.latency(), 0);
    assert_eq!(b.io_mode(), IoMode::InPlace);
    let spec = ProcessSpec { sample_rate: 48_000, channels: 1, max_block: 4, max_memory: None };
    assert_eq!(b.prepare(spec), Ok(()));
    b.reset();
}
