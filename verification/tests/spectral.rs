//! Windows, transforms, and spectral filtering.

use bisque::contract::block::AudioBlockMut;
use bisque::contract::context::{ProcessContext, Produced, Tail};
use bisque::contract::error::DspError;
use bisque::contract::spec::ProcessSpec;
use bisque::contract::traits::Processor;
use bisque::number::{Real, Sample};
use bisque::spectral::dft::DirectDft;
use bisque::spectral::fft::{Complex, Fft, Transform};
use bisque::spectral::spectral_filter::{
    inverse_overlap_gain, min_overlap_gain, SpectralFilter, SpectralFilterSettings,
};
use bisque::spectral::stft::Stft;
use bisque::spectral::window::{cola_sum, Window};
use realfft::{ComplexToReal, RealFftPlanner, RealToComplex};
use std::mem::size_of;
use std::sync::Arc;

/// Double precision numbers for the library to compute with.
#[derive(Clone, Copy, Debug, PartialEq)]
struct N(f64);

impl Real for N {
    fn plus(self, other: Self) -> Self {
        N(self.0 + other.0)
    }
    fn minus(self, other: Self) -> Self {
        N(self.0 - other.0)
    }
    fn times(self, other: Self) -> Self {
        N(self.0 * other.0)
    }
    fn over(self, other: Self) -> Self {
        N(self.0 / other.0)
    }
    fn neg(self) -> Self {
        N(-self.0)
    }
    fn abs(self) -> Self {
        N(self.0.abs())
    }
    fn copysign(self, other: Self) -> Self {
        N(self.0.copysign(other.0))
    }
    fn ceil(self) -> Self {
        N(self.0.ceil())
    }
    fn floor(self) -> Self {
        N(self.0.floor())
    }
    fn round(self) -> Self {
        N(self.0.round())
    }
    fn is_finite(self) -> bool {
        self.0.is_finite()
    }
    fn less(self, other: Self) -> bool {
        self.0 < other.0
    }
    fn equals(self, other: Self) -> bool {
        self.0 == other.0
    }
    fn decimal(mantissa: i64, exponent: i32) -> Self {
        const POWERS: [f64; 23] = [
            1e0, 1e1, 1e2, 1e3, 1e4, 1e5, 1e6, 1e7, 1e8, 1e9, 1e10, 1e11, 1e12, 1e13, 1e14, 1e15, 1e16,
            1e17, 1e18, 1e19, 1e20, 1e21, 1e22,
        ];
        let m = mantissa as f64;
        match exponent {
            // Both operands are exact, so one rounding gives the nearest number.
            0..=22 if mantissa.unsigned_abs() < (1 << 53) => N(m * POWERS[exponent as usize]),
            -22..=-1 if mantissa.unsigned_abs() < (1 << 53) => N(m / POWERS[-exponent as usize]),
            _ => N(format!("{mantissa}e{exponent}").parse().unwrap()),
        }
    }
    fn from_u64(n: u64) -> Self {
        N(n as f64)
    }
    fn to_u64(self) -> u64 {
        self.0 as u64
    }
    fn denormal_floor() -> Self {
        N(1e-30)
    }
    fn zero() -> Self {
        N(0.0)
    }
    fn one() -> Self {
        N(1.0)
    }
    fn infinity() -> Self {
        N(f64::INFINITY)
    }
    fn sin(self) -> Self {
        N(libm::sin(self.0))
    }
    fn cos(self) -> Self {
        N(libm::cos(self.0))
    }
    fn tan(self) -> Self {
        N(libm::tan(self.0))
    }
    fn sqrt(self) -> Self {
        N(libm::sqrt(self.0))
    }
    fn hypot(self, other: Self) -> Self {
        N(libm::hypot(self.0, other.0))
    }
    fn atan2(self, x: Self) -> Self {
        N(libm::atan2(self.0, x.0))
    }
    fn exp(self) -> Self {
        N(libm::exp(self.0))
    }
    fn ln(self) -> Self {
        N(libm::log(self.0))
    }
    fn log10(self) -> Self {
        N(libm::log10(self.0))
    }
    fn pow(self, exponent: Self) -> Self {
        N(libm::pow(self.0, exponent.0))
    }
}

/// Single precision samples.
#[derive(Clone, Copy, Debug, PartialEq)]
struct F(f32);

impl Sample for F {
    type Real = N;
    fn to_real(self) -> N {
        N(f64::from(self.0))
    }
    fn from_real(x: N) -> Self {
        F(x.0 as f32)
    }
}
/// The transform of the `realfft` crate.
struct FastTransform {
    r2c: Arc<dyn RealToComplex<f64>>,
    c2r: Arc<dyn ComplexToReal<f64>>,
    fwd_scratch: Vec<realfft::num_complex::Complex<f64>>,
    inv_scratch: Vec<realfft::num_complex::Complex<f64>>,
}

impl Transform<N> for FastTransform {
    fn plan(n: usize) -> Self {
        let mut planner = RealFftPlanner::<f64>::new();
        FastTransform {
            r2c: planner.plan_fft_forward(n),
            c2r: planner.plan_fft_inverse(n),
            fwd_scratch: Vec::new(),
            inv_scratch: Vec::new(),
        }
    }
    fn scratch_lengths(&self) -> (usize, usize) {
        (self.r2c.get_scratch_len(), self.c2r.get_scratch_len())
    }
    fn allocate_scratch(&mut self) {
        self.fwd_scratch = self.r2c.make_scratch_vec();
        self.inv_scratch = self.c2r.make_scratch_vec();
    }
    fn forward(&mut self, input: &mut [N], spectrum: &mut [Complex<N>]) {
        let mut x: Vec<f64> = input.iter().map(|v| v.0).collect();
        let mut s = self.r2c.make_output_vec();
        self.r2c.process_with_scratch(&mut x, &mut s, &mut self.fwd_scratch).unwrap();
        for (to, from) in spectrum.iter_mut().zip(&s) {
            *to = Complex { re: N(from.re), im: N(from.im) };
        }
    }
    fn inverse(&mut self, spectrum: &mut [Complex<N>], output: &mut [N]) {
        let mut s = self.c2r.make_input_vec();
        for (to, from) in s.iter_mut().zip(spectrum.iter()) {
            to.re = from.re.0;
            to.im = from.im.0;
        }
        let mut x = self.c2r.make_output_vec();
        self.c2r.process_with_scratch(&mut s, &mut x, &mut self.inv_scratch).unwrap();
        for (to, from) in output.iter_mut().zip(&x) {
            *to = N(*from);
        }
    }
}

type Filter = SpectralFilter<F, FastTransform>;

fn spec(channels: usize, max_memory: Option<usize>) -> ProcessSpec {
    ProcessSpec { sample_rate: 48_000, channels, max_block: 512, max_memory }
}

// Transforms.

#[test]
fn scratch_footprint_counts_owned_scratch_vectors() {
    let fft: Fft<N, FastTransform> = Fft::new(1013);
    let (forward, inverse) = fft.scratch_lengths();
    assert!(forward > 0 && inverse > 0);
    assert_eq!(fft.scratch_footprint(), (forward + inverse) * size_of::<Complex<N>>());
}

fn signal(n: usize) -> Vec<N> {
    (0..n).map(|i| N((i as f64 * 0.7).sin() + 0.25 * (i as f64 * 0.13).cos())).collect()
}

fn round_trip<B: Transform<N>>(n: usize) -> (Vec<Complex<N>>, Vec<N>) {
    let mut fft: Fft<N, B> = Fft::new(n);
    assert_eq!(fft.size(), n);
    assert_eq!(fft.num_bins(), n / 2 + 1);
    let mut x = signal(n);
    let mut s = vec![Complex { re: N(0.0), im: N(0.0) }; fft.num_bins()];
    fft.forward(&mut x, &mut s);
    let bins = s.clone();
    let mut y = vec![N(0.0); n];
    fft.inverse(&mut s, &mut y);
    (bins, y)
}

#[test]
fn transforms_round_trip_and_agree() {
    for n in [1, 2, 3, 8, 15, 16, 64] {
        let (fast, y) = round_trip::<FastTransform>(n);
        let (plain, z) = round_trip::<DirectDft>(n);
        for (i, x) in signal(n).iter().enumerate() {
            assert!((y[i].0 - x.0).abs() < 1e-12, "fast, size {n}");
            assert!((z[i].0 - x.0).abs() < 1e-12, "plain, size {n}");
        }
        for (a, b) in fast.iter().zip(&plain) {
            assert!((a.re.0 - b.re.0).abs() < 1e-10 && (a.im.0 - b.im.0).abs() < 1e-10);
        }
    }
}

#[test]
fn transforms_take_what_is_not_finite_for_silence() {
    let mut fft: Fft<N, DirectDft> = Fft::new(4);
    let mut x = vec![N(f64::NAN), N(1.0), N(f64::INFINITY), N(-1.0)];
    let mut s = vec![Complex { re: N(0.0), im: N(0.0) }; 3];
    fft.forward(&mut x, &mut s);
    let mut clean = vec![N(0.0), N(1.0), N(0.0), N(-1.0)];
    let mut t = s.clone();
    fft.forward(&mut clean, &mut t);
    for (a, b) in s.iter().zip(&t) {
        assert_eq!((a.re, a.im), (b.re, b.im));
    }
    s[1].re = N(f64::NAN);
    let mut y = vec![N(0.0); 4];
    fft.inverse(&mut s, &mut y);
    assert!(y.iter().all(|v| v.0.is_finite()));
}

// Windows.

#[test]
fn windows_have_their_published_shapes() {
    assert_eq!(Window::Rectangular.make::<N>(3), vec![N(1.0); 3]);
    let hann: Vec<N> = Window::Hann.make(4);
    for (got, want) in hann.iter().zip([0.0, 0.5, 1.0, 0.5]) {
        assert!((got.0 - want).abs() < 1e-12);
    }
    assert!((Window::Hamming.make::<N>(4)[0].0 - 0.08).abs() < 1e-12);
    assert!((Window::Hamming.make::<N>(4)[2].0 - 1.0).abs() < 1e-12);
    assert!(Window::Blackman.make::<N>(4)[0].0.abs() < 1e-12);
    assert!((Window::Blackman.make::<N>(4)[2].0 - 1.0).abs() < 1e-12);
    assert!((Window::Sine.make::<N>(4)[2].0 - 1.0).abs() < 1e-12);
}

#[test]
fn hann_overlaps_evenly_at_half_its_length() {
    let w: Vec<N> = Window::Hann.make(16);
    let sum = cola_sum(&w, 8);
    assert_eq!(sum.len(), 8);
    assert!(sum.iter().all(|s| (s.0 - 1.0).abs() < 1e-12));
    assert_eq!(cola_sum(&[N(1.0), N(2.0), N(3.0)], 2), vec![N(4.0), N(2.0)]);
    assert_eq!(cola_sum::<N>(&[], 2), vec![N(0.0), N(0.0)]);
}

// Whole signals.

#[test]
fn stft_reconstructs_the_interior_of_a_signal() {
    let mut stft: Stft<N, FastTransform> = Stft::new(64, 16, Window::Hann);
    assert_eq!((stft.size(), stft.hop(), stft.num_bins()), (64, 16, 33));
    assert_eq!(stft.num_frames(0), 0);
    assert_eq!(stft.num_frames(1), 1);
    assert_eq!(stft.num_frames(16), 1);
    assert_eq!(stft.num_frames(17), 2);
    let x = signal(300);
    let frames = stft.analyze(&x);
    assert_eq!(frames.len(), stft.num_frames(300));
    let y = stft.synthesize(&frames);
    assert!(y.len() >= 300 && y.len() < 300 + 64);
    for i in 1..300 {
        assert!((y[i].0 - x[i].0).abs() < 1e-9, "sample {i}");
    }
    assert!(stft.analyze(&[]).is_empty());
    assert!(stft.synthesize(&[]).is_empty());
}

// Streaming filter.

#[test]
fn reported_footprint_includes_fft_scratch() {
    let mut prepared = Filter::low_pass(1014, 507, N(8_000.0));
    prepared.prepare(spec(2, None)).expect("prepare reference layout");
    let total = prepared.memory_footprint();
    let scratch = prepared.work.fft.scratch_footprint();
    let f = size_of::<f64>();
    let c = size_of::<Complex<N>>();
    let non_fft = prepared.work.frame.len() * f
        + prepared.work.spectrum.len() * c
        + prepared.design.inv_wsum.len() * f
        + prepared.design.w_a.len() * f
        + prepared.design.w_s.len() * f
        + prepared.lanes.iter().map(|l| l.frame_in.len() * f).sum::<usize>()
        + prepared.lanes.iter().map(|l| l.acc.len() * f).sum::<usize>()
        + prepared.lanes.iter().map(|l| l.fifo.len() * f).sum::<usize>();
    assert_eq!(
        total,
        non_fft + scratch,
        "the processor footprint must add its FFT's owned scratch vectors"
    );
    let mut exact = Filter::low_pass(1014, 507, N(8_000.0));
    assert!(exact.prepare(spec(2, Some(total))).is_ok());
    let mut over = Filter::low_pass(1014, 507, N(8_000.0));
    assert_eq!(
        over.prepare(spec(2, Some(total - 1))),
        Err(DspError::OverBudget { needed: total, cap: total - 1 })
    );
}

#[test]
fn inverse_overlap_gain_returns_the_reciprocal_above_the_floor() {
    let gain = min_overlap_gain::<N>().0 * 2.0;
    assert_eq!(min_overlap_gain::<N>().0, 1e-12);
    assert_eq!(inverse_overlap_gain(N(gain)).0, 1.0 / gain);
}

fn run(filter: &mut Filter, x: &[Vec<F>], block: usize) -> Vec<Vec<F>> {
    let frames = x[0].len();
    let mut out = vec![vec![F(0.0); frames]; x.len()];
    let mut at = 0;
    while at < frames {
        let end = (at + block).min(frames);
        let input: Vec<&[F]> = x.iter().map(|c| &c[at..end]).collect();
        let mut output: Vec<&mut [F]> = out.iter_mut().map(|c| &mut c[at..end]).collect();
        let mut ctx = ProcessContext::split(&input, &mut output, at as u64);
        filter.process(&mut ctx);
        at = end;
    }
    out
}

fn flush(filter: &mut Filter, frames: usize) -> (Produced, Vec<Vec<F>>) {
    let mut out = vec![vec![F(7.0); frames]; 2];
    let produced = {
        let mut views: Vec<&mut [F]> = out.iter_mut().map(|c| c.as_mut_slice()).collect();
        filter.flush(&mut AudioBlockMut::new(&mut views))
    };
    (produced, out)
}

fn tones(frames: usize) -> Vec<Vec<F>> {
    (0..2)
        .map(|ch| {
            (0..frames)
                .map(|i| F(((i as f64 * (0.05 + 0.02 * ch as f64)).sin() * 0.5) as f32))
                .collect()
        })
        .collect()
}

#[test]
fn full_band_filter_is_a_delay_of_one_window() {
    let mut f = Filter::with_settings(SpectralFilterSettings::new().size(64).hop(16));
    f.prepare(spec(2, None)).unwrap();
    assert_eq!((f.size(), f.hop(), f.latency()), (64, 16, 64));
    assert_eq!(f.tail(), Tail::Frames(64));
    let x = tones(400);
    let y = run(&mut f, &x, 512);
    for ch in 0..2 {
        assert!(y[ch][..64].iter().all(|v| v.0 == 0.0), "silent for one window");
        // The first window has no earlier frames to overlap with.
        for i in 64..400 - 64 {
            assert!((y[ch][i + 64].0 - x[ch][i].0).abs() < 1e-6, "channel {ch}, frame {i}");
        }
    }
}

#[test]
fn low_pass_keeps_what_lies_below_and_drops_what_lies_above() {
    let frames = 4096;
    let tone = |hz: f64| -> Vec<F> {
        (0..frames)
            .map(|i| F((2.0 * std::f64::consts::PI * hz * i as f64 / 48_000.0).sin() as f32))
            .collect()
    };
    let mut f = Filter::low_pass(512, 256, N(3_000.0));
    f.prepare(spec(2, None)).unwrap();
    let y = run(&mut f, &[tone(1_000.0), tone(9_000.0)], 512);
    let peak = |v: &[F]| v[2048..].iter().fold(0.0f32, |m, x| m.max(x.0.abs()));
    assert!(peak(&y[0]) > 0.95);
    assert!(peak(&y[1]) < 0.01);
    let mut f = Filter::high_pass(512, 256, N(3_000.0));
    f.prepare(spec(2, None)).unwrap();
    let y = run(&mut f, &[tone(1_000.0), tone(9_000.0)], 512);
    assert!(peak(&y[0]) < 0.01);
    assert!(peak(&y[1]) > 0.95);
}

#[test]
fn spectral_blocks_and_resets_do_not_show() {
    let x = tones(500);
    let mut f = Filter::band(64, 24, N(0.0), N(20_000.0));
    f.prepare(spec(2, None)).unwrap();
    let whole = run(&mut f, &x, 500);
    for block in [1, 7, 24, 63, 64, 65, 257] {
        f.reset();
        assert_eq!(run(&mut f, &x, block), whole, "block size {block}");
    }
}

#[test]
fn spectral_drain_delivers_one_window_in_all() {
    let mut f = Filter::band(64, 32, N(0.0), N(20_000.0));
    f.prepare(spec(2, None)).unwrap();
    run(&mut f, &tones(200), 512);
    let (a, out) = flush(&mut f, 40);
    assert_eq!(a, Produced { frames: 40, done: false });
    assert!(out[0].iter().any(|v| v.0 != 0.0 && v.0 != 7.0));
    let (b, out) = flush(&mut f, 40);
    assert_eq!(b, Produced { frames: 24, done: true });
    assert!(out[0][24..].iter().all(|v| v.0 == 7.0), "nothing is written past the tail");
    assert_eq!(flush(&mut f, 40).0, Produced { frames: 0, done: true });
    run(&mut f, &tones(10), 512);
    assert_eq!(flush(&mut f, 100).0.frames, 64, "new input starts a new drain");
}

#[test]
fn spectral_settings_are_rejected_one_by_one() {
    let err = |s: SpectralFilterSettings<N>, spec: ProcessSpec| {
        Filter::with_settings(s).prepare(spec).unwrap_err()
    };
    let s = || SpectralFilterSettings::<N>::new();
    let ok = spec(2, None);
    assert_eq!(
        err(s(), ProcessSpec { sample_rate: 0, ..ok }),
        DspError::UnsupportedSpec("sample rate must be non-zero")
    );
    for (settings, why) in [
        (s().size(1), "STFT size must be at least 2"),
        (s().hop(0), "spectral hop must be in 1..=size"),
        (s().hop(1025), "spectral hop must be in 1..=size"),
        (s().low_hz(N(-1.0)), "low_hz must be finite and non-negative"),
        (s().low_hz(N(f64::NAN)), "low_hz must be finite and non-negative"),
        (s().high_hz(N(f64::NAN)), "high_hz must be finite or positive infinity"),
        (s().high_hz(N(f64::NEG_INFINITY)), "high_hz must be finite or positive infinity"),
        (s().band(N(100.0), N(100.0)), "high_hz must exceed low_hz"),
        (
            s().size(usize::MAX).hop(usize::MAX),
            "spectral size and hop exceed addressable memory",
        ),
        (
            s().size(16).hop(16).window(Window::Hann),
            "window and hop leave an unreconstructable output phase",
        ),
    ] {
        assert_eq!(err(settings, ok), DspError::InvalidParam(why));
    }
    assert!(matches!(
        err(s(), ProcessSpec { max_memory: Some(64), ..ok }),
        DspError::OverBudget { .. }
    ));
}
