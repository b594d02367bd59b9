//! Limiting, dithering, scaling, and dynamics.

use bisque::contract::block::{AudioBlock, AudioBlockMut, Io};
use bisque::contract::context::{ProcessContext, SubBlock, Tail};
use bisque::contract::error::DspError;
use bisque::contract::spec::ProcessSpec;
use bisque::contract::traits::{Kernel, Processor};
use bisque::dsp::driver::KernelProcessor;
use bisque::dynamics::compressor::{Compressor, CompressorSettings};
use bisque::dynamics::expander::{Expander, ExpanderSettings};
use bisque::dynamics::gate::{Gate, GateSettings};
use bisque::dynamics::shared::{one_pole_coeff, DynamicsCore};
use bisque::fixed::Fixed;
use bisque::mastering::dither::{Dither, DitherSettings};
use bisque::mastering::envelope::Envelope;
use bisque::mastering::limiter::{
    Limiter, LimiterSettings, TP_FACTOR, TP_TAIL_FRAMES, TP_TAPS,
};
use bisque::mastering::scale::Scale;
use bisque::number::{Real, Sample};
use std::mem::size_of;

/// Double precision numbers for the library to compute with.
#[derive(Clone, Copy, Debug, PartialEq)]
struct N(f64);

impl Real for N {
    fn plus(self, other: Self) -> Self {
        N(self.0 + other.0)
    }
    fn minus(self, other: Self) -> Self {
        N(self.0 - other.0)
    }
    fn times(self, other: Self) -> Self {
        N(self.0 * other.0)
    }
    fn over(self, other: Self) -> Self {
        N(self.0 / other.0)
    }
    fn neg(self) -> Self {
        N(-self.0)
    }
    fn abs(self) -> Self {
        N(self.0.abs())
    }
    fn copysign(self, other: Self) -> Self {
        N(self.0.copysign(other.0))
    }
    fn ceil(self) -> Self {
        N(self.0.ceil())
    }
    fn floor(self) -> Self {
        N(self.0.floor())
    }
    fn round(self) -> Self {
        N(self.0.round())
    }
    fn is_finite(self) -> bool {
        self.0.is_finite()
    }
    fn less(self, other: Self) -> bool {
        self.0 < other.0
    }
    fn equals(self, other: Self) -> bool {
        self.0 == other.0
    }
    fn decimal(mantissa: i64, exponent: i32) -> Self {
        const POWERS: [f64; 23] = [
            1e0, 1e1, 1e2, 1e3, 1e4, 1e5, 1e6, 1e7, 1e8, 1e9, 1e10, 1e11, 1e12, 1e13, 1e14, 1e15, 1e16,
            1e17, 1e18, 1e19, 1e20, 1e21, 1e22,
        ];
        let m = mantissa as f64;
        match exponent {
            // Both operands are exact, so one rounding gives the nearest number.
            0..=22 if mantissa.unsigned_abs() < (1 << 53) => N(m * POWERS[exponent as usize]),
            -22..=-1 if mantissa.unsigned_abs() < (1 << 53) => N(m / POWERS[-exponent as usize]),
            _ => N(format!("{mantissa}e{exponent}").parse().unwrap()),
        }
    }
    fn from_u64(n: u64) -> Self {
        N(n as f64)
    }
    fn to_u64(self) -> u64 {
        self.0 as u64
    }
    fn denormal_floor() -> Self {
        N(1e-30)
    }
    fn zero() -> Self {
        N(0.0)
    }
    fn one() -> Self {
        N(1.0)
    }
    fn infinity() -> Self {
        N(f64::INFINITY)
    }
    fn sin(self) -> Self {
        N(libm::sin(self.0))
    }
    fn cos(self) -> Self {
        N(libm::cos(self.0))
    }
    fn tan(self) -> Self {
        N(libm::tan(self.0))
    }
    fn sqrt(self) -> Self {
        N(libm::sqrt(self.0))
    }
    fn hypot(self, other: Self) -> Self {
        N(libm::hypot(self.0, other.0))
    }
    fn atan2(self, x: Self) -> Self {
        N(libm::atan2(self.0, x.0))
    }
    fn exp(self) -> Self {
        N(libm::exp(self.0))
    }
    fn ln(self) -> Self {
        N(libm::log(self.0))
    }
    fn log10(self) -> Self {
        N(libm::log10(self.0))
    }
    fn pow(self, exponent: Self) -> Self {
        N(libm::pow(self.0, exponent.0))
    }
}

/// Single precision samples.
#[derive(Clone, Copy, Debug, PartialEq)]
struct F(f32);

impl Sample for F {
    type Real = N;
    fn to_real(self) -> N {
        N(f64::from(self.0))
    }
    fn from_real(x: N) -> Self {
        F(x.0 as f32)
    }
}
fn stereo() -> ProcessSpec {
    ProcessSpec { sample_rate: 48_000, channels: 2, max_block: 512, max_memory: None }
}

fn process<P: Processor<F>>(p: &mut P, planes: &mut [Vec<F>], pos: u64) {
    let mut views: Vec<&mut [F]> = planes.iter_mut().map(|c| c.as_mut_slice()).collect();
    let mut ctx = ProcessContext::in_place(&mut views, pos);
    p.process(&mut ctx);
}

// Limiter.

#[test]
fn limiter_settings_builders_preserve_each_requested_value() {
    let settings = LimiterSettings::new()
        .threshold_db(N(-6.0))
        .true_peak_margin_db(N(0.5))
        .lookahead_ms(N(2.0))
        .release_ms(N(80.0));
    assert_eq!(settings.threshold_db.0, -6.0);
    assert_eq!(settings.true_peak_margin_db.0, 0.5);
    assert_eq!(settings.lookahead_ms.0, 2.0);
    assert_eq!(settings.release_ms.0, 80.0);
}

#[test]
fn replacing_the_last_reduced_history_value_restores_unity_count() {
    let mut limiter = Limiter::<F>::new();
    limiter.look = 0;
    limiter.envelope.wedge.look = 0;
    limiter.envelope.wedge.idx = vec![0];
    limiter.envelope.wedge.val = vec![N(1.0)];
    limiter.envelope.wedge.head = 0;
    limiter.envelope.wedge.len = 0;
    limiter.envelope.hann = vec![N(1.0)];
    limiter.envelope.hist = vec![N(0.5)];
    limiter.envelope.pos = 0;
    limiter.envelope.nonunity = 1;
    limiter.envelope.env = N(1.0);
    limiter.envelope.release = N(1.0);

    assert_eq!(limiter.step_env(N(1.0)).0, 1.0);
    assert_eq!(limiter.envelope.nonunity, 0);
    assert_eq!(limiter.envelope.hist, vec![N(1.0)]);
}

#[test]
fn invalid_lookahead_reports_the_focused_validation_error() {
    for bad in [0.0, f64::NAN] {
        let mut limiter =
            Limiter::<F>::with_settings(LimiterSettings::new().lookahead_ms(N(bad)));
        assert!(matches!(
            limiter.prepare(stereo()),
            Err(DspError::InvalidParam("limiter lookahead_ms must be finite and positive"))
        ));
    }
}

#[test]
fn limiter_footprint_is_the_exact_layout_byte_count() {
    let f = size_of::<f64>();
    let u = size_of::<u64>();
    let look = 72usize;
    let attack = look - TP_TAIL_FRAMES;
    let per_os = (TP_FACTOR * TP_TAPS + TP_TAPS) * f;
    for nch in [1usize, 2, 3] {
        let spec =
            ProcessSpec { sample_rate: 48_000, channels: nch, max_block: 8192, max_memory: None };
        let mut k = Limiter::<F>::new();
        k.prepare(spec).expect("prepare");
        assert_eq!(k.look, look, "lookahead samples");

        let expected = nch * look * f
            + (look + 1) * u
            + (look + 1) * f
            + attack * f
            + attack * f
            + nch * per_os;
        assert_eq!(k.memory_footprint(), expected, "footprint for {nch} channels");
    }
}

#[test]
fn huge_lookahead_is_rejected_by_budget_before_allocation() {
    let mut limiter =
        Limiter::<F>::with_settings(LimiterSettings::new().lookahead_ms(N(1.0e12)));
    let result = limiter.prepare(ProcessSpec { max_memory: Some(1024), ..stereo() });
    assert!(matches!(result, Err(DspError::OverBudget { .. })));
}

#[test]
fn release_coefficient_preserves_zero_and_sub_sample_times() {
    let mut immediate = Limiter::<F>::with_settings(LimiterSettings::new().release_ms(N(0.0)));
    immediate.prepare(stereo()).expect("zero release");
    assert_eq!(immediate.envelope.release.0, 1.0);

    let half_sample_ms = 0.5 * 1000.0 / 48_000.0;
    let mut sub_sample =
        Limiter::<F>::with_settings(LimiterSettings::new().release_ms(N(half_sample_ms)));
    sub_sample.prepare(stereo()).expect("half-sample release");
    let expected = 1.0 - libm::exp(-2.0);
    assert_eq!(sub_sample.envelope.release.0, expected);
}

#[test]
fn a_failed_limiter_prepare_allocates_nothing() {
    let mut limiter = Limiter::<F>::new();
    limiter.prepare(stereo()).expect("prepare");
    let bytes = limiter.memory_footprint();
    let faster = ProcessSpec { sample_rate: 96_000, max_memory: Some(bytes), ..stereo() };
    assert!(limiter.prepare(faster).is_err(), "twice the rate needs twice the delay");
    assert_eq!(limiter.memory_footprint(), bytes, "the buffers are those from before");
    assert_eq!(limiter.latency(), 144, "the lookahead is told before the budget is checked");
    assert_eq!(limiter.tail(), Tail::Frames(144));
    assert_eq!(limiter.fs.0, 96_000.0);

    let silent = ProcessSpec { sample_rate: 0, ..stereo() };
    assert!(limiter.prepare(silent).is_err());
    assert_eq!(limiter.latency(), 144, "a faulty rate changes nothing");
}

#[test]
fn a_reported_gain_is_applied_before_its_samples_leave_the_delay() {
    let look = 16;
    let attack = look - TP_TAIL_FRAMES;
    let share = Fixed { raw: Fixed::from_int(1).raw / 8 };
    let mut envelope = Envelope::<Fixed>::new(look, attack, share);
    let one = Fixed::from_int(1);
    assert!(envelope.hann.iter().all(|w| w.raw >= 0));
    assert!(envelope.hann.iter().map(|w| w.raw).sum::<i64>() <= one.raw);
    let report = Fixed { raw: one.raw / 4 };
    let n = 40;
    for t in 0..100 {
        let gain = envelope.step(if t == n { report } else { one });
        assert!(gain.raw >= 0 && gain.raw <= one.raw);
        if t < n {
            assert_eq!(gain, one);
        }
        if t >= n + look - TP_TAIL_FRAMES && t <= n + look {
            assert!(gain.raw <= report.raw, "frame {t}");
        }
    }
}

#[test]
fn settings_compare_and_kernels_clone() {
    assert_eq!(LimiterSettings::<N>::new(), LimiterSettings::new());
    assert_ne!(LimiterSettings::new().release_ms(N(1.0)), LimiterSettings::new());
    assert_eq!(CompressorSettings::<N>::new(), CompressorSettings::new());
    assert_ne!(GateSettings::new().range_db(N(-1.0)), GateSettings::new());

    let mut limiter = Limiter::<F>::new();
    limiter.prepare(stereo()).expect("prepare");
    let copy = limiter.clone();
    assert_eq!(copy.latency(), limiter.latency());
    assert_eq!(copy.memory_footprint(), limiter.memory_footprint());
    let mut dither = Dither::<F>::new();
    dither.prepare(stereo()).expect("prepare");
    assert_eq!(dither.clone().rngs, dither.rngs);
}

#[test]
fn a_drain_in_any_steps_is_exactly_the_lookahead() {
    for room in [1, 5, 72, 100] {
        let mut p = KernelProcessor::<_, F>::new(Limiter::<F>::new());
        p.prepare(stereo()).unwrap();
        let answers = (p.latency(), p.tail(), p.memory_footprint());
        let mut planes = vec![vec![F(0.5); 40]; 2];
        process(&mut p, &mut planes, 0);
        let mut delivered = 0;
        loop {
            let mut out = vec![vec![F(0.0); room]; 2];
            let mut refs: Vec<&mut [F]> = out.iter_mut().map(Vec::as_mut_slice).collect();
            let produced = p.flush(&mut AudioBlockMut::new(&mut refs));
            delivered += produced.frames;
            if produced.done {
                break;
            }
        }
        assert_eq!(delivered, 72);
        assert_eq!((p.latency(), p.tail(), p.memory_footprint()), answers);
    }
}

#[test]
fn limiter_delays_by_its_lookahead_and_stays_under_the_ceiling() {
    let mut p = KernelProcessor::<_, F>::new(Limiter::<F>::with_settings(
        LimiterSettings::new().threshold_db(N(-6.0)),
    ));
    p.prepare(stereo()).unwrap();
    let look = p.latency();
    assert_eq!(look, 72);
    assert_eq!(p.tail(), Tail::Frames(look));

    // Quiet input passes unchanged, one lookahead late.
    let quiet: Vec<F> = (0..400).map(|i| F(0.1 * (i as f32 * 0.05).sin())).collect();
    let mut planes = vec![quiet.clone(), quiet.clone()];
    process(&mut p, &mut planes, 0);
    assert!(planes[0][..look].iter().all(|x| x.0 == 0.0));
    assert_eq!(planes[0][look..], quiet[..400 - look]);

    // Loud input is held below the ceiling.
    p.reset();
    let loud: Vec<F> = (0..400).map(|i| F(1.5 * (i as f32 * 0.05).sin())).collect();
    let mut planes = vec![loud.clone(), loud];
    process(&mut p, &mut planes, 0);
    let ceiling = libm::pow(10.0, -6.0 / 20.0) as f32;
    assert!(planes[0].iter().all(|x| x.0.abs() <= ceiling * 1.0001));

    // The tail is exactly the lookahead.
    let mut tail = vec![vec![F(9.0); 100]; 2];
    let mut views: Vec<&mut [F]> = tail.iter_mut().map(|c| c.as_mut_slice()).collect();
    let mut out = AudioBlockMut::new(&mut views);
    let produced = p.flush(&mut out);
    assert_eq!(produced.frames, look);
    assert!(produced.done);
    assert!(tail[0][look..].iter().all(|x| x.0 == 9.0), "nothing is written past the tail");
}

// Scale and dither.

#[test]
fn scale_multiplies_and_rejects_what_is_not_finite() {
    let mut p = KernelProcessor::<_, F>::new(Scale::<F>::new(N(-0.5)));
    p.prepare(stereo()).unwrap();
    let mut planes = vec![vec![F(1.0), F(-0.5)], vec![F(f32::INFINITY), F(0.25)]];
    process(&mut p, &mut planes, 0);
    assert_eq!(planes, vec![vec![F(-0.5), F(0.25)], vec![F(0.0), F(-0.125)]]);
    assert!(Scale::<F>::new(N(f64::NAN)).prepare(stereo()).is_err());
    let mut inv = KernelProcessor::<_, F>::new(Scale::<F>::inverted());
    inv.prepare(stereo()).unwrap();
    let mut planes = vec![vec![F(0.5)], vec![F(-0.25)]];
    process(&mut inv, &mut planes, 0);
    assert_eq!(planes, vec![vec![F(-0.5)], vec![F(0.25)]]);
    let db = Scale::<F>::from_db(N(20.0));
    assert!((db.factor.0 - 10.0).abs() < 1e-12);
}

#[test]
fn dither_quantizes_to_its_grid_and_repeats_its_seed() {
    let make = |seed: u64| {
        let mut p = KernelProcessor::<_, F>::new(Dither::<F>::with_settings(
            DitherSettings::new().bits(8).seed(seed),
        ));
        p.prepare(stereo()).unwrap();
        p
    };
    let x: Vec<F> = (0..200).map(|i| F((i as f32 * 0.1).sin() * 0.9)).collect();
    let mut a = vec![x.clone(), x.clone()];
    let mut b = vec![x.clone(), x.clone()];
    let mut c = vec![x.clone(), x];
    process(&mut make(7), &mut a, 0);
    process(&mut make(7), &mut b, 0);
    process(&mut make(8), &mut c, 0);
    assert_eq!(a, b, "one seed gives one result");
    assert_ne!(a, c, "another seed gives another");
    assert_ne!(a[0], a[1], "channels are independent");
    for y in a.iter().flatten() {
        let level = y.0 * 128.0;
        assert_eq!(level, level.round(), "{} lies on the grid", y.0);
        assert!((-128.0..=127.0).contains(&level));
    }
    for bits in [0, 1, 33] {
        let mut d = Dither::<F>::with_settings(DitherSettings::new().bits(bits));
        assert!(matches!(d.prepare(stereo()), Err(DspError::InvalidParam(_))), "{bits} bits");
    }
}

// Dynamics.

#[test]
fn one_pole_coeff_matches_the_analytical_value() {
    let (ms, fs): (f64, f64) = (10.0, 48_000.0);
    let samples = ms * 1e-3 * fs;
    let expected = 1.0 - (-1.0 / samples).exp();
    let got = one_pole_coeff(N(ms), N(fs)).0;
    assert!((got - expected).abs() < 1e-12, "one_pole_coeff({ms}, {fs}) = {got}");
    assert!((0.0020..0.0022).contains(&got), "coefficient {got} is not the expected ~0.00208");
}

#[test]
fn one_pole_coeff_handles_zero_and_sub_sample_times() {
    assert_eq!(one_pole_coeff(N(0.0), N(48_000.0)).0, 1.0);

    let half_sample_ms = 0.5 * 1_000.0 / 48_000.0;
    let expected = 1.0 - (-2.0f64).exp();
    let got = one_pole_coeff(N(half_sample_ms), N(48_000.0)).0;
    assert!((got - expected).abs() < 1e-12, "sub-sample time must retain its value: {got}");
}

#[test]
fn envelope_flushes_to_exact_zero_after_long_silence() {
    let mut core = DynamicsCore::<F>::new(N(0.0), N(0.0), false);
    core.prepare(ProcessSpec { sample_rate: 48_000, channels: 1, max_block: 32, max_memory: None })
        .expect("prepare");

    let drive = |value: f32, core: &mut DynamicsCore<F>| {
        let mut buf = [F(value); 32];
        let mut planes: [&mut [F]; 1] = [&mut buf];
        let block = AudioBlockMut::new(&mut planes);
        let mut io = Io::InPlace(block);
        let mut sub = SubBlock { io: &mut io, sc: &[], start: 0, len: 32 };
        core.render(&mut sub, |_| N(1.0));
    };

    drive(1.0, &mut core);
    assert!(core.env.0 > 0.5, "the attack charged the envelope");
    for _ in 0..40 {
        drive(0.0, &mut core);
    }
    assert_eq!(core.env.0, 0.0, "a silent decay must flush to exact zero below the floor");
}

/// The gain that a steady full-scale-relative level settles at, in dB.
fn settled_gain<K: Kernel<F>>(kernel: K, level_db: f64) -> f64 {
    let mut p = KernelProcessor::<_, F>::new(kernel);
    p.prepare(stereo()).unwrap();
    let x = libm::pow(10.0, level_db / 20.0) as f32;
    let mut last = 0.0;
    for block in 0..20 {
        let mut planes = vec![vec![F(x); 512]; 2];
        process(&mut p, &mut planes, block * 512);
        last = planes[0][511].0;
    }
    20.0 * libm::log10(f64::from(last / x))
}

#[test]
fn compressor_follows_its_static_curve() {
    let comp = || {
        Compressor::<F>::with_settings(
            CompressorSettings::new()
                .threshold_db(N(-20.0))
                .ratio(N(4.0))
                .attack_ms(N(0.0))
                .release_ms(N(0.0))
                .makeup_db(N(0.0)),
        )
    };
    assert!(settled_gain(comp(), -30.0).abs() < 1e-4);
    assert!((settled_gain(comp(), -8.0) - (-9.0)).abs() < 1e-3);
}

#[test]
fn expander_follows_its_static_curve() {
    let exp = || {
        Expander::<F>::with_settings(
            ExpanderSettings::new()
                .threshold_db(N(-30.0))
                .ratio(N(2.0))
                .attack_ms(N(0.0))
                .release_ms(N(0.0)),
        )
    };
    assert!(settled_gain(exp(), -20.0).abs() < 1e-4);
    assert!((settled_gain(exp(), -40.0) - (-10.0)).abs() < 1e-3);
}

#[test]
fn gate_stops_at_its_range() {
    let gate = || {
        Gate::<F>::with_settings(
            GateSettings::new()
                .threshold_db(N(-30.0))
                .ratio(N(10.0))
                .range_db(N(-12.0))
                .attack_ms(N(0.0))
                .release_ms(N(0.0)),
        )
    };
    assert!(settled_gain(gate(), -20.0).abs() < 1e-4);
    assert!((settled_gain(gate(), -60.0) - (-12.0)).abs() < 1e-3);
}

#[test]
fn sidechain_keys_the_main_signal() {
    let mut p = KernelProcessor::<_, F>::new(Compressor::<F>::with_settings(
        CompressorSettings::new()
            .threshold_db(N(-20.0))
            .ratio(N(4.0))
            .attack_ms(N(0.0))
            .release_ms(N(0.0))
            .use_sidechain(true),
    ));
    p.prepare(stereo()).unwrap();
    assert_eq!(p.sidechain_inputs(), 1);
    let mut planes = vec![vec![F(0.01); 512]; 2];
    let key = vec![F(1.0); 512];
    {
        let key_planes: Vec<&[F]> = vec![&key];
        let sc = [AudioBlock::new(&key_planes)];
        let mut views: Vec<&mut [F]> = planes.iter_mut().map(|c| c.as_mut_slice()).collect();
        let mut ctx = ProcessContext::in_place(&mut views, 0).with_sidechains(&sc);
        p.process(&mut ctx);
    }
    assert!((planes[0][511].0 / 0.01 - libm::pow(10.0, -15.0 / 20.0) as f32).abs() < 1e-3);
}

#[test]
fn dynamics_reject_invalid_times() {
    for bad in [f64::NAN, -1.0, f64::INFINITY] {
        let mut c =
            Compressor::<F>::with_settings(CompressorSettings::new().attack_ms(N(bad)));
        assert!(matches!(c.prepare(stereo()), Err(DspError::InvalidParam(_))));
        let mut g = Gate::<F>::with_settings(GateSettings::new().release_ms(N(bad)));
        assert!(matches!(g.prepare(stereo()), Err(DspError::InvalidParam(_))));
    }
}
