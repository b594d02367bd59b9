//! Oscillators and noise.

use bisque::contract::block::{AudioBlockMut, Io};
use bisque::contract::context::{ProcessContext, SubBlock};
use bisque::contract::param::ParamId;
use bisque::contract::spec::ProcessSpec;
use bisque::contract::traits::{Kernel, Processor};
use bisque::dsp::driver::KernelProcessor;
use bisque::dsp::rng::Rng;
use bisque::generators::noise::{
    WhiteNoise, WhiteNoiseParams, WhiteNoiseSettings, DEFAULT_NOISE_SEED,
};
use bisque::generators::poly_blep::{poly_blep, PolyBlepOsc, PolyBlepOscSettings, Waveform};
use bisque::generators::sine::{wrap_phase, SineOsc, SineOscParams, SineOscSettings};
use bisque::generators::tone::max_oscillator_frequency;
use bisque::number::{Real, Sample};
use std::f64::consts::TAU;

/// Double precision numbers for the library to compute with.
#[derive(Clone, Copy, Debug, PartialEq)]
struct N(f64);

impl Real for N {
    fn plus(self, other: Self) -> Self {
        N(self.0 + other.0)
    }
    fn minus(self, other: Self) -> Self {
        N(self.0 - other.0)
    }
    fn times(self, other: Self) -> Self {
        N(self.0 * other.0)
    }
    fn over(self, other: Self) -> Self {
        N(self.0 / other.0)
    }
    fn neg(self) -> Self {
        N(-self.0)
    }
    fn abs(self) -> Self {
        N(self.0.abs())
    }
    fn copysign(self, other: Self) -> Self {
        N(self.0.copysign(other.0))
    }
    fn ceil(self) -> Self {
        N(self.0.ceil())
    }
    fn floor(self) -> Self {
        N(self.0.floor())
    }
    fn round(self) -> Self {
        N(self.0.round())
    }
    fn is_finite(self) -> bool {
        self.0.is_finite()
    }
    fn less(self, other: Self) -> bool {
        self.0 < other.0
    }
    fn equals(self, other: Self) -> bool {
        self.0 == other.0
    }
    fn decimal(mantissa: i64, exponent: i32) -> Self {
        const POWERS: [f64; 23] = [
            1e0, 1e1, 1e2, 1e3, 1e4, 1e5, 1e6, 1e7, 1e8, 1e9, 1e10, 1e11, 1e12, 1e13, 1e14, 1e15, 1e16,
            1e17, 1e18, 1e19, 1e20, 1e21, 1e22,
        ];
        let m = mantissa as f64;
        match exponent {
            // Both operands are exact, so one rounding gives the nearest number.
            0..=22 if mantissa.unsigned_abs() < (1 << 53) => N(m * POWERS[exponent as usize]),
            -22..=-1 if mantissa.unsigned_abs() < (1 << 53) => N(m / POWERS[-exponent as usize]),
            _ => N(format!("{mantissa}e{exponent}").parse().unwrap()),
        }
    }
    fn from_u64(n: u64) -> Self {
        N(n as f64)
    }
    fn to_u64(self) -> u64 {
        self.0 as u64
    }
    fn denormal_floor() -> Self {
        N(1e-30)
    }
    fn zero() -> Self {
        N(0.0)
    }
    fn one() -> Self {
        N(1.0)
    }
    fn infinity() -> Self {
        N(f64::INFINITY)
    }
    fn sin(self) -> Self {
        N(libm::sin(self.0))
    }
    fn cos(self) -> Self {
        N(libm::cos(self.0))
    }
    fn tan(self) -> Self {
        N(libm::tan(self.0))
    }
    fn sqrt(self) -> Self {
        N(libm::sqrt(self.0))
    }
    fn hypot(self, other: Self) -> Self {
        N(libm::hypot(self.0, other.0))
    }
    fn atan2(self, x: Self) -> Self {
        N(libm::atan2(self.0, x.0))
    }
    fn exp(self) -> Self {
        N(libm::exp(self.0))
    }
    fn ln(self) -> Self {
        N(libm::log(self.0))
    }
    fn log10(self) -> Self {
        N(libm::log10(self.0))
    }
    fn pow(self, exponent: Self) -> Self {
        N(libm::pow(self.0, exponent.0))
    }
}

/// Single precision samples.
#[derive(Clone, Copy, Debug, PartialEq)]
struct F(f32);

impl Sample for F {
    type Real = N;
    fn to_real(self) -> N {
        N(f64::from(self.0))
    }
    fn from_real(x: N) -> Self {
        F(x.0 as f32)
    }
}
fn spec() -> ProcessSpec {
    ProcessSpec { sample_rate: 48_000, channels: 2, max_block: 8192, max_memory: None }
}

fn generate<K: Kernel<F>>(kernel: K, frames: usize, block: usize) -> Vec<Vec<F>> {
    let mut p = KernelProcessor::<_, F>::new(kernel);
    p.prepare(spec()).unwrap();
    let mut out = vec![vec![F(0.0); frames]; 2];
    let mut at = 0;
    while at < frames {
        let end = (at + block).min(frames);
        let mut views: Vec<&mut [F]> = out.iter_mut().map(|c| &mut c[at..end]).collect();
        let mut ctx = ProcessContext::output_only(&mut views, at as u64);
        p.process(&mut ctx);
        at = end;
    }
    out
}

#[test]
fn white_noise_footprint_is_one_rng_per_channel() {
    let mut w = WhiteNoise::<F>::new();
    w.prepare(spec()).expect("prepare");
    let expected = 2 * std::mem::size_of::<Rng>();
    assert_eq!(w.memory_footprint(), expected);
    let mut three = WhiteNoise::<F>::new();
    three.prepare(ProcessSpec { channels: 3, ..spec() }).expect("prepare");
    assert_eq!(three.memory_footprint(), 3 * std::mem::size_of::<Rng>());
}

#[test]
fn white_noise_exposes_its_amplitude_param() {
    let w = WhiteNoise::<F>::new();
    let params = w.param_info();
    assert_eq!(params.len(), 1, "white noise declares one parameter");
    assert_eq!(
        params[0].id,
        ParamId(WhiteNoiseParams::<N>::AMPLITUDE),
        "and it is the amplitude"
    );
}

#[test]
fn white_noise_reset_reseeds_every_channel() {
    let mut w = WhiteNoise::<F>::with_settings(
        WhiteNoiseSettings::new().amplitude(N(0.5)).seed(DEFAULT_NOISE_SEED),
    );
    w.prepare(spec()).expect("prepare");
    let fresh: Vec<u64> = w.rngs.iter().map(|r| r.state).collect();
    for r in &mut w.rngs {
        r.next_u64();
        r.next_u64();
    }
    assert_ne!(
        w.rngs.iter().map(|r| r.state).collect::<Vec<_>>(),
        fresh,
        "the dirtying must move the state"
    );
    w.reset();
    assert_eq!(
        w.rngs.iter().map(|r| r.state).collect::<Vec<_>>(),
        fresh,
        "reset returns every channel to its post-prepare seed"
    );
}

#[test]
fn wrap_phase_folds_only_above_tau() {
    let below = TAU - 0.1;
    assert_eq!(wrap_phase(N(below)).0, below, "no fold below TAU");
    assert_eq!(wrap_phase(N(TAU)).0, 0.0, "TAU folds exactly to 0");
    let above = TAU + 0.25;
    assert!((wrap_phase(N(above)).0 - 0.25).abs() < 1e-12, "TAU + 0.25 folds to 0.25");
}

#[test]
fn poly_blep_residual_matches_the_quadratic() {
    let dt = 0.02;
    let blep = |t: f64| poly_blep(N(t), N(dt)).0;
    assert!((blep(dt / 2.0) - (-0.25)).abs() < 1e-12, "rising residual at x=0.5 is -0.25");
    assert!((blep(1.0 - dt / 2.0) - 0.25).abs() < 1e-9, "falling residual at x=-0.5 is 0.25");
    assert_eq!(blep(0.5), 0.0, "no residual away from a discontinuity");
}

#[test]
fn noise_settings_builders_preserve_each_requested_value() {
    let settings = WhiteNoiseSettings::new().amplitude(N(0.25)).seed(0x1234_5678);
    assert_eq!(settings.amplitude.0, 0.25);
    assert_eq!(settings.seed, 0x1234_5678);
}

#[test]
fn settings_and_named_constructors_select_the_requested_waveform() {
    let settings = PolyBlepOscSettings::new()
        .waveform(Waveform::Square)
        .frequency_hz(N(220.0))
        .amplitude(N(0.25));
    assert_eq!(settings.waveform, Waveform::Square);
    assert_eq!(settings.frequency_hz.0, 220.0);
    assert_eq!(settings.amplitude.0, 0.25);
    assert_eq!(PolyBlepOsc::<F>::saw().kind, Waveform::Saw);
    assert_eq!(PolyBlepOsc::<F>::square().kind, Waveform::Square);
}

#[test]
fn settings_builders_and_phase_advance_preserve_direction() {
    let settings = SineOscSettings::new().frequency_hz(N(12_000.0)).amplitude(N(0.25));
    assert_eq!(settings.frequency_hz.0, 12_000.0);
    assert_eq!(settings.amplitude.0, 0.25);

    let mut oscillator = SineOsc::<F>::with_settings(settings);
    oscillator
        .prepare(ProcessSpec { sample_rate: 48_000, channels: 1, max_block: 4, max_memory: None })
        .expect("prepare");
    let mut samples = [F(0.0); 2];
    {
        let mut planes = [samples.as_mut_slice()];
        let mut io = Io::OutputOnly(AudioBlockMut::new(&mut planes));
        let mut block = SubBlock { io: &mut io, sc: &[], start: 0, len: 2 };
        oscillator.render(
            &mut block,
            &SineOscParams { frequency_hz: N(12_000.0), amplitude: N(0.25) },
        );
    }
    assert_eq!(samples[0].0, 0.0);
    assert!((samples[1].0 - 0.25).abs() < 1e-6);
}

#[test]
fn sources_do_not_show_how_blocks_were_cut() {
    let sine = || SineOsc::<F>::with_settings(SineOscSettings::new().frequency_hz(N(440.0)));
    let saw = || PolyBlepOsc::<F>::saw();
    let noise = || WhiteNoise::<F>::new();
    let (a, b, c) = (generate(sine(), 500, 500), generate(saw(), 500, 500), generate(noise(), 500, 500));
    for block in [1, 7, 32, 33, 257] {
        assert_eq!(generate(sine(), 500, block), a);
        assert_eq!(generate(saw(), 500, block), b);
        assert_eq!(generate(noise(), 500, block), c);
    }
    assert_eq!(a[0], a[1], "an oscillator is the same on every channel");
    assert_ne!(c[0], c[1], "noise is independent on every channel");
    assert!(c[0].iter().all(|x| x.0.abs() <= 1.0));
}

#[test]
fn oscillator_frequency_stays_below_half_the_rate() {
    assert!(max_oscillator_frequency(N(48_000.0)).0 <= 24_000.0);
    assert!(max_oscillator_frequency(N(48_000.0)).0 > 0.0);
    let none = ProcessSpec { sample_rate: 0, channels: 1, max_block: 8, max_memory: None };
    assert!(SineOsc::<F>::new().prepare(none).is_err());
    assert!(PolyBlepOsc::<F>::new().prepare(none).is_err());
}
