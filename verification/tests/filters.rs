//! Filters, repair, and oversampling.

use bisque::contract::block::{AudioBlock, AudioBlockMut, Io};
use bisque::contract::context::{Produced, SubBlock, Tail};
use bisque::contract::error::DspError;
use bisque::contract::spec::ProcessSpec;
use bisque::contract::traits::{Kernel, NoParams};
use bisque::dsp::oversample::PolyphaseUpsampler;
use bisque::dsp::sanitize::flush_denormal;
use bisque::dsp::summing::compensated_add;
use bisque::filters::biquad::{Biquad, BiquadCoeffs, BiquadKind, BiquadSettings};
use bisque::filters::moving_average::MovingAverage;
use bisque::number::{Real, Sample};
use bisque::repair::dc_blocker::{clamp_cutoff, DcBlocker, DcBlockerSettings};
use bisque::repair::dc_offset::DcOffset;
use std::mem::size_of;

/// Double precision numbers for the library to compute with.
#[derive(Clone, Copy, Debug, PartialEq)]
struct N(f64);

impl Real for N {
    fn plus(self, other: Self) -> Self {
        N(self.0 + other.0)
    }
    fn minus(self, other: Self) -> Self {
        N(self.0 - other.0)
    }
    fn times(self, other: Self) -> Self {
        N(self.0 * other.0)
    }
    fn over(self, other: Self) -> Self {
        N(self.0 / other.0)
    }
    fn neg(self) -> Self {
        N(-self.0)
    }
    fn abs(self) -> Self {
        N(self.0.abs())
    }
    fn copysign(self, other: Self) -> Self {
        N(self.0.copysign(other.0))
    }
    fn ceil(self) -> Self {
        N(self.0.ceil())
    }
    fn floor(self) -> Self {
        N(self.0.floor())
    }
    fn round(self) -> Self {
        N(self.0.round())
    }
    fn is_finite(self) -> bool {
        self.0.is_finite()
    }
    fn less(self, other: Self) -> bool {
        self.0 < other.0
    }
    fn equals(self, other: Self) -> bool {
        self.0 == other.0
    }
    fn decimal(mantissa: i64, exponent: i32) -> Self {
        const POWERS: [f64; 23] = [
            1e0, 1e1, 1e2, 1e3, 1e4, 1e5, 1e6, 1e7, 1e8, 1e9, 1e10, 1e11, 1e12, 1e13, 1e14, 1e15, 1e16,
            1e17, 1e18, 1e19, 1e20, 1e21, 1e22,
        ];
        let m = mantissa as f64;
        match exponent {
            // Both operands are exact, so one rounding gives the nearest number.
            0..=22 if mantissa.unsigned_abs() < (1 << 53) => N(m * POWERS[exponent as usize]),
            -22..=-1 if mantissa.unsigned_abs() < (1 << 53) => N(m / POWERS[-exponent as usize]),
            _ => N(format!("{mantissa}e{exponent}").parse().unwrap()),
        }
    }
    fn from_u64(n: u64) -> Self {
        N(n as f64)
    }
    fn to_u64(self) -> u64 {
        self.0 as u64
    }
    fn denormal_floor() -> Self {
        N(1e-30)
    }
    fn zero() -> Self {
        N(0.0)
    }
    fn one() -> Self {
        N(1.0)
    }
    fn infinity() -> Self {
        N(f64::INFINITY)
    }
    fn sin(self) -> Self {
        N(libm::sin(self.0))
    }
    fn cos(self) -> Self {
        N(libm::cos(self.0))
    }
    fn tan(self) -> Self {
        N(libm::tan(self.0))
    }
    fn sqrt(self) -> Self {
        N(libm::sqrt(self.0))
    }
    fn hypot(self, other: Self) -> Self {
        N(libm::hypot(self.0, other.0))
    }
    fn atan2(self, x: Self) -> Self {
        N(libm::atan2(self.0, x.0))
    }
    fn exp(self) -> Self {
        N(libm::exp(self.0))
    }
    fn ln(self) -> Self {
        N(libm::log(self.0))
    }
    fn log10(self) -> Self {
        N(libm::log10(self.0))
    }
    fn pow(self, exponent: Self) -> Self {
        N(libm::pow(self.0, exponent.0))
    }
}

/// Single precision samples.
#[derive(Clone, Copy, Debug, PartialEq)]
struct F(f32);

impl Sample for F {
    type Real = N;
    fn to_real(self) -> N {
        N(f64::from(self.0))
    }
    fn from_real(x: N) -> Self {
        F(x.0 as f32)
    }
}
impl Sample for N {
    type Real = N;
    fn to_real(self) -> N {
        self
    }
    fn from_real(x: N) -> Self {
        x
    }
}

const TAIL_FLOOR: f64 = 1e-6;
const DENORMAL_FLOOR: f64 = 1e-30;

fn mono(max_block: usize) -> ProcessSpec {
    ProcessSpec { sample_rate: 48_000, channels: 1, max_block, max_memory: None }
}

// Oversampling.

#[test]
fn dc_passes_at_unity() {
    let mut os = PolyphaseUpsampler::new(4, 12);
    let mut out = N(0.0);
    for _ in 0..64 {
        out = os.peak_abs(N(0.5));
    }
    assert!((out.0 - 0.5).abs() < 1e-3, "DC gain ~1, got {}", out.0);
}

#[test]
fn recovers_inter_sample_peak() {
    let v = std::f64::consts::FRAC_1_SQRT_2;
    let pattern = [v, v, -v, -v];
    let mut os = PolyphaseUpsampler::new(4, 12);
    let mut peak = 0.0f64;
    for n in 0..512 {
        peak = peak.max(os.peak_abs(N(pattern[n % 4])).0);
    }
    assert!(peak > 0.97 && peak < 1.05, "true peak ~1.0 recovered, got {peak}");
}

#[test]
fn reports_factor() {
    assert_eq!(PolyphaseUpsampler::<N>::new(4, 12).factor(), 4);
    assert_eq!(PolyphaseUpsampler::<N>::new(2, 8).factor(), 2);
}

#[test]
fn reports_latency_and_tail_length() {
    let os = PolyphaseUpsampler::<N>::new(4, 12);
    assert_eq!(os.latency(), 6);
    assert_eq!(os.tail_frames(), 11);
}

#[test]
fn drain_completes_a_finite_stream() {
    let mut os = PolyphaseUpsampler::new(4, 12);
    let immediate = os.peak_abs(N(1.0)).0;
    let drained = os.drain_peak().0;
    assert!(drained > immediate, "the delayed impulse peak is drained");
    assert_eq!(os.drain_peak().0, 0.0);
    assert_eq!(os.peak_abs(N(0.0)).0, 0.0);
}

#[test]
fn non_finite_input_is_silence() {
    let mut bad = PolyphaseUpsampler::new(4, 12);
    let mut sanitized = PolyphaseUpsampler::new(4, 12);
    assert_eq!(bad.peak_abs(N(f64::NAN)), sanitized.peak_abs(N(0.0)));
    assert_eq!(bad.peak_abs(N(f64::INFINITY)), sanitized.peak_abs(N(0.0)));
    assert_eq!(bad.peak_abs(N(0.5)), sanitized.peak_abs(N(0.5)));
}

#[test]
fn reports_footprint() {
    let os = PolyphaseUpsampler::<N>::new(4, 12);
    let expected = (4 * 12 + 12) * size_of::<f64>();
    assert_eq!(os.footprint(), expected);
}

#[test]
fn reset_clears_the_delay_line() {
    let mut os = PolyphaseUpsampler::new(4, 12);
    for _ in 0..32 {
        os.peak_abs(N(1.0));
    }
    os.reset();
    assert!(os.peak_abs(N(0.0)).0 < 1e-9, "reset must clear the delay line");
}

// Biquad.

fn coeffs(c: BiquadCoeffs<N>) -> [f64; 5] {
    [c.b0.0, c.b1.0, c.b2.0, c.a1.0, c.a2.0]
}

fn poles(a1: f64, a2: f64) -> BiquadCoeffs<N> {
    BiquadCoeffs { b0: N(0.0), b1: N(0.0), b2: N(0.0), a1: N(a1), a2: N(a2) }
}

fn flush_kernel<K: Kernel<F>>(k: &mut K, frames: usize) -> (Produced, Vec<F>) {
    let mut samples = vec![F(0.0); frames];
    let produced = {
        let mut planes = [samples.as_mut_slice()];
        let mut out = AudioBlockMut::new(&mut planes);
        k.flush(&mut out)
    };
    (produced, samples)
}

fn prepared_lowpass() -> Biquad<F> {
    let mut bq = Biquad::<F>::lowpass();
    bq.prepare(mono(32)).expect("prepare");
    bq
}

#[test]
fn convenience_constructors_select_their_documented_shapes() {
    for (filter, expected) in [
        (Biquad::<F>::lowpass(), BiquadKind::Lowpass),
        (Biquad::<F>::highpass(), BiquadKind::Highpass),
        (Biquad::<F>::low_shelf(), BiquadKind::LowShelf),
        (Biquad::<F>::high_shelf(), BiquadKind::HighShelf),
        (Biquad::<F>::peaking(), BiquadKind::Peaking),
    ] {
        assert_eq!(filter.kind, expected);
    }
}

#[test]
fn gain_is_ignored_by_lowpass_and_highpass_only() {
    let pair = |kind: BiquadKind| {
        let mut bq = Biquad::<F>::with_settings(BiquadSettings::new().kind(kind));
        bq.fs = N(48_000.0);
        (
            coeffs(bq.try_coeffs(N(1_000.0), N(0.707), N(0.0)).expect("coefficients")),
            coeffs(bq.try_coeffs(N(1_000.0), N(0.707), N(12.0)).expect("coefficients")),
        )
    };
    for kind in [BiquadKind::Lowpass, BiquadKind::Highpass] {
        let (a, b) = pair(kind);
        assert_eq!(a, b, "{kind:?} coefficients must not depend on gain");
    }
    for kind in [BiquadKind::LowShelf, BiquadKind::HighShelf, BiquadKind::Peaking] {
        let (a, b) = pair(kind);
        assert_ne!(a, b, "{kind:?} coefficients must read gain");
    }
}

#[test]
fn pass_numerators_are_squares_and_a_flat_peak_passes_everything() {
    for (f0, q) in [(20.0, 0.1), (1_000.0, 0.707), (15_000.0, 16.0)] {
        let at = |kind, gain| {
            BiquadCoeffs::try_rbj(kind, N(48_000.0), N(f0), N(q), N(gain)).expect("coefficients")
        };
        let low = at(BiquadKind::Lowpass, 0.0);
        assert_eq!(low.b2, low.b0);
        assert_eq!(low.b1.0, 2.0 * low.b0.0);
        let high = at(BiquadKind::Highpass, 0.0);
        assert_eq!(high.b2, high.b0);
        assert_eq!(high.b1.0, -2.0 * high.b0.0);
        assert_eq!((low.a1, low.a2), (high.a1, high.a2));
        let flat = at(BiquadKind::Peaking, 0.0);
        assert_eq!((flat.b1, flat.b2), (flat.a1, flat.a2));
        let peak = at(BiquadKind::Peaking, 6.0);
        assert_eq!(peak.b1, peak.a1);
        assert_ne!(peak.b2, peak.a2);
    }
}

#[test]
fn a_whole_drain_stays_within_the_tail() {
    for room in [1, 2, 5] {
        let mut bq = prepared_lowpass();
        bq.tail_bound = 7;
        bq.state[0].y1 = N(1.0);
        bq.flush_coeffs = poles(-1.0, 0.0);
        let mut delivered = 0;
        loop {
            let (produced, _) = flush_kernel(&mut bq, room);
            delivered += produced.frames;
            if produced.done {
                break;
            }
        }
        assert_eq!(delivered, 7, "a filter that never decays fills its tail");
    }
}

#[test]
fn clamp_cutoff_hits_the_exact_band_edges() {
    let mut bq = Biquad::<F>::lowpass();
    bq.fs = N(48_000.0);
    let upper = 48_000.0 * 0.5 * 0.999;
    assert_eq!(bq.clamp_cutoff(N(1.0e9)).0, upper, "a huge cutoff clamps to fs/2 * 0.999");
    assert_eq!(bq.clamp_cutoff(N(0.0)).0, 1.0, "a zero cutoff clamps up to 1 Hz");
    assert_eq!(bq.clamp_cutoff(N(1_000.0)).0, 1_000.0, "in-band cutoff is kept");
}

#[test]
fn biquad_flush_done_decides_at_the_exact_decay_floor() {
    let mut bq = prepared_lowpass();
    bq.state[0].y1 = N(TAIL_FLOOR);
    assert!(!flush_kernel(&mut bq, 0).0.done, "state at the floor still drains");
    bq.state[0].y1 = N(TAIL_FLOOR * 0.5);
    assert!(flush_kernel(&mut bq, 0).0.done, "state below the floor is done");
}

#[test]
fn flush_detects_state_that_decays_below_the_floor() {
    let mut bq = prepared_lowpass();
    bq.state[0].y1 = N(TAIL_FLOOR);
    bq.flush_coeffs = poles(0.0, 0.0);
    let (produced, _) = flush_kernel(&mut bq, 2);
    assert_eq!(produced.frames, 2);
    assert!(produced.done);
}

#[test]
fn flush_accumulates_its_frame_budget_across_calls() {
    let mut bq = prepared_lowpass();
    bq.tail_bound = 3;
    bq.state[0].y1 = N(1.0);
    bq.flush_coeffs = poles(-1.0, 0.0);

    for expected_done in [false, false, true] {
        let (produced, _) = flush_kernel(&mut bq, 1);
        assert_eq!(produced.frames, 1);
        assert_eq!(produced.done, expected_done);
    }

    let (produced, _) = flush_kernel(&mut bq, 1);
    assert_eq!(produced.frames, 0);
    assert!(produced.done);
}

#[test]
fn flush_denormal_zeroes_below_the_floor_only() {
    assert_eq!(flush_denormal(N(1.0e-40)).0, 0.0, "deep subnormal flushes to 0");
    assert_eq!(flush_denormal(N(-1.0e-40)).0, 0.0, "sign-agnostic");
    assert_eq!(flush_denormal(N(f64::NAN)).0, 0.0);
    assert_eq!(flush_denormal(N(f64::INFINITY)).0, 0.0);
    assert_eq!(flush_denormal(N(DENORMAL_FLOOR)).0, DENORMAL_FLOOR, "the floor itself is kept");
    assert_eq!(flush_denormal(N(0.5)).0, 0.5, "audible state is preserved");
}

#[test]
fn rbj_lowpass_has_unity_gain_at_dc_and_half_power_at_cutoff() {
    let c = BiquadCoeffs::try_rbj(
        BiquadKind::Lowpass,
        N(48_000.0),
        N(1_000.0),
        N(std::f64::consts::FRAC_1_SQRT_2),
        N(0.0),
    )
    .unwrap();
    assert!((c.magnitude(N(0.0)).0 - 1.0).abs() < 1e-12);
    let w = 2.0 * std::f64::consts::PI * 1_000.0 / 48_000.0;
    assert!((c.magnitude(N(w)).0 - std::f64::consts::FRAC_1_SQRT_2).abs() < 1e-9);
    assert!((c.phase(N(w)).0 + std::f64::consts::FRAC_PI_2).abs() < 1e-9);
    assert!(c.is_stable());
    assert!(!poles(0.0, 1.5).is_stable());
}

#[test]
fn rbj_rejects_each_invalid_input() {
    let try_one = |fs: f64, f0: f64, q: f64, gain: f64| {
        BiquadCoeffs::try_rbj(BiquadKind::Peaking, N(fs), N(f0), N(q), N(gain)).map(|_| ())
    };
    assert!(try_one(48_000.0, 1_000.0, 0.7, 0.0).is_ok());
    for (fs, f0, q, gain) in [
        (0.0, 1_000.0, 0.7, 0.0),
        (f64::NAN, 1_000.0, 0.7, 0.0),
        (48_000.0, 0.0, 0.7, 0.0),
        (48_000.0, 24_000.0, 0.7, 0.0),
        (48_000.0, 1_000.0, 0.0, 0.0),
        (48_000.0, 1_000.0, 0.7, f64::INFINITY),
    ] {
        assert!(matches!(try_one(fs, f0, q, gain), Err(DspError::InvalidParam(_))));
    }
}

#[test]
fn biquad_rejects_rates_below_three() {
    let low = ProcessSpec { sample_rate: 2, channels: 1, max_block: 8, max_memory: None };
    assert_eq!(
        Biquad::<F>::lowpass().prepare(low),
        Err(DspError::UnsupportedSpec("sample rate must be at least 3"))
    );
}

// Moving average.

const LARGE: f64 = 1.0e16;

fn prepared(taps: usize) -> MovingAverage<N> {
    let mut filter = MovingAverage::<N>::new(taps);
    filter.prepare(mono(8)).expect("prepare");
    filter
}

fn render_one(filter: &mut MovingAverage<N>, sample: f64) -> f64 {
    let input_samples = [N(sample)];
    let input_planes = [input_samples.as_slice()];
    let input = AudioBlock::new(&input_planes);
    let mut output_samples = [N(0.0)];
    {
        let mut output_planes = [output_samples.as_mut_slice()];
        let output = AudioBlockMut::new(&mut output_planes);
        let mut io = Io::Split { input, output };
        let mut sub_block = SubBlock { io: &mut io, sc: &[], start: 0, len: 1 };
        filter.render(&mut sub_block, &NoParams);
    }
    output_samples[0].0
}

fn flush_one(filter: &mut MovingAverage<N>) -> (f64, Produced) {
    let mut output_samples = [N(0.0)];
    let produced;
    {
        let mut output_planes = [output_samples.as_mut_slice()];
        let mut output = AudioBlockMut::new(&mut output_planes);
        produced = filter.flush(&mut output);
    }
    (output_samples[0].0, produced)
}

fn filter_with_compensated_history() -> (MovingAverage<N>, f64) {
    let mut filter = prepared(16);
    let _ = render_one(&mut filter, LARGE);
    let mut output = 0.0;
    for _ in 0..12 {
        output = render_one(&mut filter, 1.0);
    }
    (filter, output)
}

#[test]
fn compensated_add_preserves_low_order_terms_in_both_branches() {
    let mut sum = N(LARGE);
    let mut correction = N(2.0);
    compensated_add(&mut sum, &mut correction, N(1.0));
    assert_eq!(sum.0, LARGE);
    assert_eq!(correction.0, 3.0);

    let mut sum = N(1.0);
    let mut correction = N(2.0);
    compensated_add(&mut sum, &mut correction, N(LARGE));
    assert_eq!(sum.0, LARGE);
    assert_eq!(correction.0, 3.0);
}

#[test]
fn render_uses_compensation_between_ring_recomputations() {
    let (filter, output) = filter_with_compensated_history();
    assert_eq!(output, (LARGE + 12.0) / 16.0);
    assert_eq!(filter.ring_pos, 13);
    assert_eq!(filter.lanes[0].correction.0, 12.0);
}

#[test]
fn flush_uses_compensation_between_ring_recomputations() {
    let (mut filter, _) = filter_with_compensated_history();
    let (sample, produced) = flush_one(&mut filter);
    assert_eq!(sample, (LARGE + 12.0) / 16.0);
    assert_eq!(produced.frames, 1);
    assert!(!produced.done);
    assert_eq!(filter.ring_pos, 14);
    assert_eq!(filter.lanes[0].correction.0, 12.0);
}

#[test]
fn memory_footprint_counts_rings_sums_and_corrections() {
    let filter = prepared(5);
    assert_eq!(filter.memory_footprint(), 7 * size_of::<f64>());
}

#[test]
fn moving_average_smooths_a_step_and_drains_its_tail() {
    let mut filter = prepared(4);
    let ramp: Vec<f64> = (0..5).map(|_| render_one(&mut filter, 1.0)).collect();
    assert_eq!(ramp, vec![0.25, 0.5, 0.75, 1.0, 1.0]);
    assert_eq!(filter.tail(), Tail::Frames(3));
    assert_eq!(filter.group_delay_frames().0, 1.5);
    let drained: Vec<(f64, bool)> = (0..3)
        .map(|_| {
            let (y, p) = flush_one(&mut filter);
            (y, p.done)
        })
        .collect();
    assert_eq!(drained, vec![(0.75, false), (0.5, false), (0.25, true)]);
    assert_eq!(flush_one(&mut filter).1, Produced { frames: 0, done: true });
    assert!(MovingAverage::<N>::new(0).prepare(mono(8)).is_err());
}

#[test]
fn rendering_and_draining_are_one_convolution() {
    let taps = 5;
    let input: Vec<f64> = (0..17).map(|i| ((i * 7) % 11) as f64 - 4.0).collect();
    let mut filter = prepared(taps);
    let mut output: Vec<f64> = input.iter().map(|&x| render_one(&mut filter, x)).collect();
    loop {
        let (y, p) = flush_one(&mut filter);
        if p.frames == 1 {
            output.push(y);
        }
        if p.done {
            break;
        }
    }
    assert_eq!(output.len(), input.len() + taps - 1);
    for (n, y) in output.iter().enumerate() {
        let window: f64 = (0..taps).filter_map(|k| input.get(n.checked_sub(k)?)).sum();
        assert_eq!(*y, window * (1.0 / taps as f64), "frame {n}");
    }
}

// DC blocker.

fn prepared_blocker() -> DcBlocker<F> {
    let mut dc = DcBlocker::<F>::new();
    dc.prepare(mono(32)).expect("prepare");
    dc
}

#[test]
fn clamp_cutoff_binds_both_ends_and_passes_the_middle() {
    assert_eq!(clamp_cutoff(N(1e9), N(48_000.0)).0, 48_000.0 * 0.49);
    assert_eq!(clamp_cutoff(N(0.0), N(48_000.0)).0, 0.01);
    assert_eq!(clamp_cutoff(N(20.0), N(48_000.0)).0, 20.0);
}

#[test]
fn dc_blocker_flush_done_decides_at_the_exact_decay_floor() {
    let mut dc = prepared_blocker();
    dc.state[0].y1 = N(TAIL_FLOOR);
    assert!(!flush_kernel(&mut dc, 0).0.done, "state at the floor still drains");
    dc.state[0].y1 = N(TAIL_FLOOR * 0.5);
    assert!(flush_kernel(&mut dc, 0).0.done, "state below the floor is done");
}

#[test]
fn flush_writes_nothing_when_state_is_already_below_floor() {
    let mut dc = prepared_blocker();
    dc.state[0].y1 = N(TAIL_FLOOR * 0.5);
    let (produced, _) = flush_kernel(&mut dc, 4);
    assert_eq!(produced.frames, 0);
    assert!(produced.done);
}

#[test]
fn flush_detects_state_that_decays_below_floor() {
    let mut dc = prepared_blocker();
    dc.state[0].y1 = N(TAIL_FLOOR);
    dc.flush_r = N(0.0);
    let (produced, _) = flush_kernel(&mut dc, 1);
    assert_eq!(produced.frames, 1);
    assert!(produced.done);
}

#[test]
fn flush_finishes_exactly_at_the_bound_with_live_state() {
    let mut dc = prepared_blocker();
    dc.flushed = dc.tail_bound - 1;
    dc.state[0].y1 = N(1.0);
    dc.flush_r = N(1.0);
    let (produced, _) = flush_kernel(&mut dc, 1);
    assert_eq!(produced.frames, 1);
    assert!(produced.done);
    assert_eq!(dc.flushed, dc.tail_bound);
}

#[test]
fn flush_denormal_floors_below_but_keeps_at() {
    assert_eq!(flush_denormal(N(1e-40)).0, 0.0);
    assert_eq!(flush_denormal(N(-1e-40)).0, 0.0);
    assert_eq!(flush_denormal(N(f64::NAN)).0, 0.0);
    assert_eq!(flush_denormal(N(f64::INFINITY)).0, 0.0);
    assert_eq!(flush_denormal(N(DENORMAL_FLOOR)).0, DENORMAL_FLOOR);
    assert_eq!(flush_denormal(N(0.5)).0, 0.5);
}

#[test]
fn dc_blocker_settings_keep_the_cutoff() {
    assert_eq!(DcBlockerSettings::new().cutoff_hz(N(12.5)).cutoff_hz.0, 12.5);
    let none = ProcessSpec { sample_rate: 0, channels: 1, max_block: 8, max_memory: None };
    assert!(DcBlocker::<F>::new().prepare(none).is_err());
}

// DC offset.

fn offset_block(dc: &mut DcOffset<F>, planes: &[&[f32]]) -> Vec<Vec<f32>> {
    let mut owned: Vec<Vec<F>> =
        planes.iter().map(|p| p.iter().map(|&x| F(x)).collect()).collect();
    let len = owned[0].len();
    {
        let mut views: Vec<&mut [F]> = owned.iter_mut().map(|p| p.as_mut_slice()).collect();
        let mut io = Io::InPlace(AudioBlockMut::new(&mut views));
        let mut sub = SubBlock { io: &mut io, sc: &[], start: 0, len };
        dc.render(&mut sub, &NoParams);
    }
    owned.iter().map(|p| p.iter().map(|x| x.0).collect()).collect()
}

#[test]
fn offsets_apply_uniformly_or_per_channel() {
    let stereo = ProcessSpec { sample_rate: 48_000, channels: 2, max_block: 8, max_memory: None };
    let mut all = DcOffset::<F>::broadcast(N(0.25));
    all.prepare(stereo).unwrap();
    assert_eq!(
        offset_block(&mut all, &[&[0.5, f32::NAN], &[-0.25, 0.0]]),
        vec![vec![0.75, 0.25], vec![0.0, 0.25]]
    );
    let mut each = DcOffset::<F>::per_channel_from_slice(&[N(0.5), N(-0.5)]);
    each.prepare(stereo).unwrap();
    assert_eq!(
        offset_block(&mut each, &[&[0.0], &[0.0]]),
        vec![vec![0.5], vec![-0.5]]
    );
    assert!(DcOffset::<F>::broadcast(N(f64::NAN)).prepare(stereo).is_err());
    assert!(DcOffset::<F>::per_channel(vec![N(0.5)]).prepare(stereo).is_err());
    assert!(DcOffset::<F>::per_channel(vec![N(0.5), N(f64::INFINITY)]).prepare(stereo).is_err());
}
