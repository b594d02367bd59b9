//! Meters.

use bisque::analysis::clip::{ClipMeter, ClipMeterSettings};
use bisque::analysis::geometry::{validate_meter_geometry, MeterFault, PreparedMeterContract};
use bisque::analysis::level::{linear_to_dbfs, CrestMeter, PeakMeter, RmsMeter};
use bisque::analysis::loudness::{
    default_channel_weights, energy_to_loudness, gated_energy, integrated_block_capacity,
    k_highpass_coeffs, k_shelf_coeffs, loudness_memory_layout, loudness_to_energy,
    validate_channel_weights, KWeighting, LoudnessMeter, LoudnessMeterSettings, LoudnessReading,
    DEFAULT_MAX_INTEGRATED_SECONDS,
};
use bisque::analysis::mean::MeanMeter;
use bisque::analysis::rolling::RollingEnergy;
use bisque::analysis::true_peak::TruePeakMeter;
use bisque::analysis::windowed_rms::{WindowedRmsMeter, WindowedRmsMeterSettings};
use bisque::contract::block::AudioBlock;
use bisque::contract::error::DspError;
use bisque::contract::spec::ProcessSpec;
use bisque::contract::traits::Measurer;
use bisque::filters::biquad::BiquadCoeffs;
use bisque::number::{Real, Sample};
use std::f64::consts::{LN_10, PI};
use std::mem::size_of;

/// Double precision numbers for the library to compute with.
#[derive(Clone, Copy, Debug, PartialEq)]
struct N(f64);

impl Real for N {
    fn plus(self, other: Self) -> Self {
        N(self.0 + other.0)
    }
    fn minus(self, other: Self) -> Self {
        N(self.0 - other.0)
    }
    fn times(self, other: Self) -> Self {
        N(self.0 * other.0)
    }
    fn over(self, other: Self) -> Self {
        N(self.0 / other.0)
    }
    fn neg(self) -> Self {
        N(-self.0)
    }
    fn abs(self) -> Self {
        N(self.0.abs())
    }
    fn copysign(self, other: Self) -> Self {
        N(self.0.copysign(other.0))
    }
    fn ceil(self) -> Self {
        N(self.0.ceil())
    }
    fn floor(self) -> Self {
        N(self.0.floor())
    }
    fn round(self) -> Self {
        N(self.0.round())
    }
    fn is_finite(self) -> bool {
        self.0.is_finite()
    }
    fn less(self, other: Self) -> bool {
        self.0 < other.0
    }
    fn equals(self, other: Self) -> bool {
        self.0 == other.0
    }
    fn decimal(mantissa: i64, exponent: i32) -> Self {
        const POWERS: [f64; 23] = [
            1e0, 1e1, 1e2, 1e3, 1e4, 1e5, 1e6, 1e7, 1e8, 1e9, 1e10, 1e11, 1e12, 1e13, 1e14, 1e15, 1e16,
            1e17, 1e18, 1e19, 1e20, 1e21, 1e22,
        ];
        let m = mantissa as f64;
        match exponent {
            // Both operands are exact, so one rounding gives the nearest number.
            0..=22 if mantissa.unsigned_abs() < (1 << 53) => N(m * POWERS[exponent as usize]),
            -22..=-1 if mantissa.unsigned_abs() < (1 << 53) => N(m / POWERS[-exponent as usize]),
            _ => N(format!("{mantissa}e{exponent}").parse().unwrap()),
        }
    }
    fn from_u64(n: u64) -> Self {
        N(n as f64)
    }
    fn to_u64(self) -> u64 {
        self.0 as u64
    }
    fn denormal_floor() -> Self {
        N(1e-30)
    }
    fn zero() -> Self {
        N(0.0)
    }
    fn one() -> Self {
        N(1.0)
    }
    fn infinity() -> Self {
        N(f64::INFINITY)
    }
    fn sin(self) -> Self {
        N(libm::sin(self.0))
    }
    fn cos(self) -> Self {
        N(libm::cos(self.0))
    }
    fn tan(self) -> Self {
        N(libm::tan(self.0))
    }
    fn sqrt(self) -> Self {
        N(libm::sqrt(self.0))
    }
    fn hypot(self, other: Self) -> Self {
        N(libm::hypot(self.0, other.0))
    }
    fn atan2(self, x: Self) -> Self {
        N(libm::atan2(self.0, x.0))
    }
    fn exp(self) -> Self {
        N(libm::exp(self.0))
    }
    fn ln(self) -> Self {
        N(libm::log(self.0))
    }
    fn log10(self) -> Self {
        N(libm::log10(self.0))
    }
    fn pow(self, exponent: Self) -> Self {
        N(libm::pow(self.0, exponent.0))
    }
}

/// Single precision samples.
#[derive(Clone, Copy, Debug, PartialEq)]
struct F(f32);

impl Sample for F {
    type Real = N;
    fn to_real(self) -> N {
        N(f64::from(self.0))
    }
    fn from_real(x: N) -> Self {
        F(x.0 as f32)
    }
}
fn nums(xs: &[f64]) -> Vec<N> {
    xs.iter().map(|&x| N(x)).collect()
}

fn smp(xs: &[f32]) -> Vec<F> {
    xs.iter().map(|&x| F(x)).collect()
}

fn spec(channels: usize) -> ProcessSpec {
    ProcessSpec { sample_rate: 48_000, channels, max_block: 512, max_memory: None }
}

fn observe<M: Measurer<F>>(meter: &mut M, planes: &[&[f32]]) {
    let owned: Vec<Vec<F>> = planes.iter().map(|p| smp(p)).collect();
    let views: Vec<&[F]> = owned.iter().map(|p| p.as_slice()).collect();
    meter.observe(AudioBlock::new(&views));
}

fn weighted(xs: &[f64]) -> LoudnessMeterSettings<N> {
    LoudnessMeterSettings::with_channel_weights(nums(xs))
}

fn assert_close(got: f64, want: f64) {
    assert!((got - want).abs() < 1e-12, "got {got}, wanted {want}");
}

fn assert_near(got: f64, want: f64, tolerance: f64) {
    assert!((got - want).abs() <= tolerance, "got {got}, wanted {want} +/- {tolerance}");
}

// Clip meter.

#[test]
fn footprint_is_zero_scalar_state_only() {
    let mut meter = ClipMeter::<F>::new();
    meter.prepare(spec(2)).expect("prepare");
    assert_eq!(meter.memory_footprint(), 0);
}

#[test]
fn invalid_thresholds_are_rejected_during_prepare() {
    for threshold in [0.0, -1.0, f64::NAN, f64::INFINITY] {
        let mut meter =
            ClipMeter::<F>::with_settings(ClipMeterSettings::new().threshold(N(threshold)));
        assert!(matches!(meter.prepare(spec(2)), Err(DspError::InvalidParam(_))));
    }
}

#[test]
fn clip_meter_counts_samples_from_the_threshold_on() {
    let mut meter = ClipMeter::<F>::with_settings(ClipMeterSettings::new().threshold(N(0.5)));
    meter.prepare(spec(2)).unwrap();
    observe(&mut meter, &[&[0.5, -0.6, 0.1], &[0.49, f32::NAN, 2.0]]);
    assert_eq!(meter.read(), meter.clipped());
    let first = meter.read();
    observe(&mut meter, &[&[0.5, -0.6, 0.1], &[0.49, f32::NAN, 2.0]]);
    assert_eq!(meter.read(), 2 * first);
    meter.reset();
    assert_eq!(meter.read(), 0);
}

// Level meters.

#[test]
fn linear_to_dbfs_non_finite_behavior_is_pinned() {
    assert!(linear_to_dbfs(N(f64::NAN)).0.is_nan());
    assert_eq!(linear_to_dbfs(N(f64::INFINITY)).0, f64::INFINITY);
    assert_eq!(linear_to_dbfs(N(0.0)).0, f64::NEG_INFINITY);
    assert_eq!(linear_to_dbfs(N(-1.0)).0, f64::NEG_INFINITY);
    assert!(linear_to_dbfs(N(1.0)).0.abs() < 1e-12);
}

#[test]
fn footprints_are_the_exact_layout_byte_counts() {
    let f = size_of::<N>();
    assert_eq!(f, size_of::<f64>());
    for ch in [1usize, 2, 3] {
        let mut peak = PeakMeter::<F>::new();
        peak.prepare(spec(ch)).expect("prepare");
        assert_eq!(peak.memory_footprint(), 0, "PeakMeter holds scalar state only");

        let mut rms = RmsMeter::<F>::new();
        rms.prepare(spec(ch)).expect("prepare");
        assert_eq!(rms.memory_footprint(), ch * f, "one accumulator per channel");

        let mut crest = CrestMeter::<F>::new();
        crest.prepare(spec(ch)).expect("prepare");
        assert_eq!(crest.memory_footprint(), ch * f, "one accumulator per channel");
    }
}

#[test]
fn level_meters_read_a_square_wave() {
    let mut peak = PeakMeter::<F>::new();
    let mut rms = RmsMeter::<F>::new();
    let mut crest = CrestMeter::<F>::new();
    peak.prepare(spec(2)).unwrap();
    rms.prepare(spec(2)).unwrap();
    crest.prepare(spec(2)).unwrap();
    let x: [&[f32]; 2] = [&[0.5, -0.5, 0.5, -0.5], &[-0.5, 0.5, -0.5, 0.5]];
    observe(&mut peak, &x);
    observe(&mut rms, &x);
    observe(&mut crest, &x);
    assert_eq!(peak.read().0, 0.5);
    assert_eq!(rms.read().0, 0.5);
    assert_eq!(crest.read().0, 1.0);
}

#[test]
fn meters_do_not_show_how_a_signal_was_divided() {
    let x: Vec<f32> = (0..300).map(|i| ((i * 37 % 101) as f32 - 50.0) / 70.0).collect();
    let y: Vec<f32> = (0..300).map(|i| ((i * 53 % 97) as f32 - 48.0) / 60.0).collect();
    let whole = |cuts: &[usize]| {
        let mut rms = RmsMeter::<F>::new();
        let mut mean = MeanMeter::<F>::new();
        let mut tp = TruePeakMeter::<F>::new();
        let mut win = WindowedRmsMeter::<F>::with_settings(
            WindowedRmsMeterSettings::new().window_frames(64),
        );
        rms.prepare(spec(2)).unwrap();
        mean.prepare(spec(2)).unwrap();
        tp.prepare(spec(2)).unwrap();
        win.prepare(spec(2)).unwrap();
        let mut at = 0;
        for &c in cuts.iter().chain([&300]) {
            observe(&mut rms, &[&x[at..c], &y[at..c]]);
            observe(&mut mean, &[&x[at..c], &y[at..c]]);
            observe(&mut tp, &[&x[at..c], &y[at..c]]);
            observe(&mut win, &[&x[at..c], &y[at..c]]);
            at = c;
        }
        (rms.read().0, mean.read().0, tp.read().0, win.read().0)
    };
    let reference = whole(&[]);
    assert_eq!(whole(&[1, 2, 3]), reference);
    assert_eq!(whole(&[64, 128, 200]), reference);
    assert_eq!(whole(&[33, 66, 99, 299]), reference);
}

// Mean meter.

#[test]
fn footprint_is_one_f64_per_channel() {
    let f = size_of::<f64>();
    for ch in [1usize, 2, 6] {
        let mut m = MeanMeter::<F>::new();
        m.prepare(spec(ch)).expect("prepare");
        assert_eq!(m.memory_footprint(), ch * f, "one accumulator per channel");
    }
}

#[test]
fn over_budget_before_allocation() {
    let mut s = spec(2);
    s.max_memory = Some(2 * size_of::<f64>() - 1);
    let mut m = MeanMeter::<F>::new();
    assert!(matches!(m.prepare(s), Err(DspError::OverBudget { .. })));
}

#[test]
fn channel_mean_is_the_offset_of_a_channel() {
    let mut m = MeanMeter::<F>::new();
    m.prepare(spec(2)).unwrap();
    assert_eq!(m.channel_mean(0).0, 0.0);
    observe(&mut m, &[&[0.25, 0.75, 0.5, 0.5], &[-1.0, 0.0, -1.0, 0.0]]);
    assert_eq!(m.channel_mean(0).0, 0.5);
    assert_eq!(m.channel_mean(1).0, -0.5);
    assert_eq!(m.read().0, 0.5);
}

// True-peak meter.

#[test]
fn true_peak_footprint_is_the_exact_layout_byte_count() {
    let f = size_of::<f64>();
    let per_os = (4 * 12 + 12) * f;
    for ch in [1usize, 2, 3] {
        let mut meter = TruePeakMeter::<F>::new();
        meter.prepare(spec(ch)).expect("prepare");
        assert_eq!(meter.memory_footprint(), ch * per_os, "one oversampler per channel");
    }
}

#[test]
fn latency_is_the_documented_fir_group_delay() {
    let mut meter = TruePeakMeter::<F>::new();
    meter.prepare(spec(2)).expect("prepare");
    assert_eq!(meter.latency(), 6);
}

// Windowed RMS meter.

#[test]
fn windowed_rms_footprint_is_the_exact_layout_byte_count() {
    let window = 512usize;
    let f = size_of::<f64>();
    for ch in [1usize, 2, 3] {
        let mut meter = WindowedRmsMeter::<F>::with_settings(
            WindowedRmsMeterSettings::new().window_frames(window),
        );
        meter.prepare(spec(ch)).expect("prepare");
        assert_eq!(meter.memory_footprint(), ch * window * f, "one ring per channel");
    }
}

#[test]
fn zero_window_is_rejected_during_prepare() {
    let mut meter =
        WindowedRmsMeter::<F>::with_settings(WindowedRmsMeterSettings::new().window_frames(0));
    assert!(matches!(meter.prepare(spec(2)), Err(DspError::InvalidParam(_))));
}

#[test]
fn windowed_rms_forgets_what_left_the_window() {
    let mut meter =
        WindowedRmsMeter::<F>::with_settings(WindowedRmsMeterSettings::new().window_frames(4));
    meter.prepare(spec(1)).unwrap();
    assert_eq!(meter.read().0, 0.0);
    observe(&mut meter, &[&[1.0, 1.0]]);
    assert_eq!(meter.read().0, 1.0);
    observe(&mut meter, &[&[0.5, 0.5, 0.5, 0.5]]);
    assert_eq!(meter.read().0, 0.5);
}

// Loudness meter.

#[test]
fn loudness_settings_builders_preserve_each_requested_value() {
    assert_eq!(DEFAULT_MAX_INTEGRATED_SECONDS as f64, 10_800.0);

    let weights = nums(&[0.5, 1.5]);
    let settings = LoudnessMeterSettings::new()
        .channel_weights(weights.clone())
        .max_integrated_seconds(N(12.5));
    assert_eq!(settings.channel_weights, weights);
    assert_eq!(settings.max_integrated_seconds, N(12.5));

    assert_eq!(LoudnessMeterSettings::<N>::stereo().channel_weights, nums(&[1.0, 1.0]));
    assert_eq!(
        LoudnessMeterSettings::<N>::five_point_zero().channel_weights,
        nums(&[1.0, 1.0, 1.0, 1.41, 1.41])
    );
}

#[test]
fn k_weighting_coefficients_match_reference_at_48k() {
    let shelf = k_shelf_coeffs(N(48_000.0));
    assert_close(shelf.b0.0, 1.535_124_859_586_97);
    assert_close(shelf.b1.0, -2.691_696_189_406_38);
    assert_close(shelf.b2.0, 1.198_392_810_852_85);
    assert_close(shelf.a1.0, -1.690_659_293_182_41);
    assert_close(shelf.a2.0, 0.732_480_774_215_85);

    let highpass = k_highpass_coeffs(N(48_000.0));
    assert_close(highpass.b0.0, 0.995_029_926_300_047);
    assert_close(highpass.b1.0, -1.990_059_852_600_09);
    assert_close(highpass.b2.0, 0.995_029_926_300_047);
    assert_close(highpass.a1.0, -1.990_047_454_833_98);
    assert_close(highpass.a2.0, 0.990_072_250_366_21);
}

#[test]
fn default_channel_weights_cover_common_layouts() {
    assert_eq!(default_channel_weights(1), Some(nums(&[1.0])));
    assert_eq!(default_channel_weights(2), Some(nums(&[1.0, 1.0])));
    assert_eq!(default_channel_weights(3), Some(nums(&[1.0, 1.0, 1.0])));
    assert_eq!(default_channel_weights(4), Some(nums(&[1.0, 1.0, 1.41, 1.41])));
    assert_eq!(default_channel_weights(5), Some(nums(&[1.0, 1.0, 1.0, 1.41, 1.41])));
    assert_eq!(default_channel_weights::<N>(6), None);
}

#[test]
fn rolling_energy_sanitizes_and_recomputes_sum() {
    let mut rolling = RollingEnergy::new(3);
    rolling.push(N(1.0));
    rolling.push(N(f64::NAN));
    rolling.push(N(3.0));
    assert_eq!(rolling.full_average(), Some(N(4.0 / 3.0)));

    rolling.push(N(5.0));
    rolling.push(N(f64::INFINITY));
    rolling.push(N(7.0));
    assert_eq!(rolling.full_average(), Some(N(4.0)));
    assert_eq!(rolling.updates_since_recompute, 0);
}

#[test]
fn rolling_energy_tracks_update_cadence_and_compensated_sum() {
    let mut rolling = RollingEnergy::new(4);
    rolling.push(N(1.0));
    assert_eq!(rolling.updates_since_recompute, 1);

    let mut compensated = RollingEnergy::new(4);
    compensated.add_to_sum(N(1.0e16));
    compensated.add_to_sum(N(1.0));
    compensated.add_to_sum(N(-1.0e16));
    assert_eq!(compensated.corrected_sum(), N(1.0));

    let mut larger_addend = RollingEnergy::new(4);
    larger_addend.add_to_sum(N(1.0));
    larger_addend.add_to_sum(N(1.0e16));
    larger_addend.add_to_sum(N(-1.0e16));
    assert_eq!(larger_addend.corrected_sum(), N(1.0));
}

#[test]
fn integrated_blocks_are_stored_on_the_declared_hop() {
    let mut meter = LoudnessMeter::<F>::new();
    meter.momentary = RollingEnergy::new(1);
    meter.short_term = RollingEnergy::new(1);
    meter.integrated_block = RollingEnergy::new(4);
    meter.integrated_block_frames = 4;
    meter.integrated_hop_frames = 3;
    meter.integrated_block_capacity = 4;

    for _ in 0..4 {
        meter.push_weighted_energy(N(1.0));
    }
    assert_eq!(meter.integrated_blocks, nums(&[1.0]));
    for _ in 0..2 {
        meter.push_weighted_energy(N(1.0));
    }
    assert_eq!(meter.integrated_blocks.len(), 1);
    meter.push_weighted_energy(N(1.0));
    assert_eq!(meter.integrated_blocks, nums(&[1.0, 1.0]));
}

/// Squared magnitude of a biquad transfer function at angular frequency `w`,
/// evaluated in closed form.
fn biquad_mag_sq(c: &BiquadCoeffs<N>, w: f64) -> f64 {
    let (c1, s1) = (libm::cos(w), libm::sin(w));
    let (c2, s2) = (libm::cos(2.0 * w), libm::sin(2.0 * w));
    let num_re = c.b0.0 + c.b1.0 * c1 + c.b2.0 * c2;
    let num_im = -(c.b1.0 * s1 + c.b2.0 * s2);
    let den_re = 1.0 + c.a1.0 * c1 + c.a2.0 * c2;
    let den_im = -(c.a1.0 * s1 + c.a2.0 * s2);
    (num_re * num_re + num_im * num_im) / (den_re * den_re + den_im * den_im)
}

/// Loudness that the closed-form K-weighting magnitude predicts for a steady
/// sine in identical channels.
fn expected_tone_lufs(freq: f64, fs: f64, amp: f64, channels: usize) -> f64 {
    let w = 2.0 * PI * freq / fs;
    let k_gain_sq =
        biquad_mag_sq(&k_shelf_coeffs(N(fs)), w) * biquad_mag_sq(&k_highpass_coeffs(N(fs)), w);
    energy_to_loudness(N(channels as f64 * k_gain_sq * amp * amp / 2.0)).0
}

fn measure_tone(
    freq: f64,
    fs: u32,
    amp: f64,
    channels: usize,
    seconds: f64,
) -> LoudnessReading<N> {
    let frames = (f64::from(fs) * seconds) as usize;
    let w = 2.0 * PI * freq / f64::from(fs);
    let wave: Vec<F> =
        (0..frames).map(|n| F((amp * libm::sin(w * n as f64)) as f32)).collect();
    let spec = ProcessSpec { sample_rate: fs, channels, max_block: 1024, max_memory: None };
    let mut meter = LoudnessMeter::<F>::new();
    meter.prepare(spec).expect("prepare");
    let mut start = 0;
    while start < frames {
        let len = 1024.min(frames - start);
        let slice = &wave[start..start + len];
        let planes: Vec<&[F]> = (0..channels).map(|_| slice).collect();
        meter.observe(AudioBlock::new(&planes));
        start += len;
    }
    meter.read()
}

#[test]
fn absolute_calibration_matches_bs1770_closed_form() {
    for &(fs, freq, amp) in &[
        (48_000u32, 997.0, 0.5),
        (48_000, 1_000.0, 0.25),
        (48_000, 100.0, 0.5),
        (44_100, 997.0, 0.5),
    ] {
        let reading = measure_tone(freq, fs, amp, 2, 5.0);
        let expected = expected_tone_lufs(freq, f64::from(fs), amp, 2);
        assert_near(reading.momentary_lufs.0, expected, 0.1);
        assert_near(reading.short_term_lufs.0, expected, 0.1);
        assert_near(reading.integrated_lufs.0, expected, 0.1);
    }
}

#[test]
fn loudness_footprint_is_the_exact_layout_byte_count() {
    let f = size_of::<f64>();
    let spec =
        ProcessSpec { sample_rate: 48_000, channels: 2, max_block: 1024, max_memory: None };
    let seconds = 10.0;
    let mut meter = LoudnessMeter::<F>::with_settings(
        LoudnessMeterSettings::with_max_integrated_seconds(N(seconds)),
    );
    meter.prepare(spec).expect("prepare");

    let (momentary, short_term, integrated_block) = (19_200, 144_000, 19_200);
    let capacity = 97;
    let ch = 2usize;
    let expected = ch * size_of::<KWeighting<N>>()
        + (ch + 1024 + momentary + short_term + integrated_block + capacity) * f;
    assert_eq!(meter.memory_footprint(), expected);
    assert_eq!(
        expected,
        loudness_memory_layout::<N>(ch, 1024, momentary, short_term, integrated_block, capacity)
            .preflight(None)
            .expect("test layout is addressable"),
        "the reported footprint matches the prepare-time budget estimate"
    );
}

#[test]
fn integrated_capacity_matches_complete_block_end_times() {
    assert_eq!(integrated_block_capacity(N(0.4)), Ok(1));
    assert_eq!(integrated_block_capacity(N(0.5)), Ok(2));
    assert_eq!(integrated_block_capacity(N(10.0)), Ok(97));

    let first_unrepresentable = (usize::MAX as f64 + 3.0) * 0.1;
    assert!(matches!(
        integrated_block_capacity(N(first_unrepresentable)),
        Err(DspError::InvalidParam("loudness max integrated seconds is too large"))
    ));
    assert!(matches!(
        integrated_block_capacity(N(f64::MAX)),
        Err(DspError::InvalidParam("loudness max integrated seconds is too large"))
    ));
}

#[test]
fn loudness_conversion_and_gating_preserve_their_boundaries() {
    for lufs in [-70.0, -23.0, 0.0, 12.0] {
        assert_close(energy_to_loudness(loudness_to_energy(N(lufs))).0, lufs);
    }
    assert_eq!(gated_energy(&nums(&[1.0, 2.0, 3.0]), N(2.0)), (N(3.0), 1));
}

#[test]
fn integrated_history_overflows_at_the_first_hop_after_the_limit() {
    let mut meter = LoudnessMeter::<F>::with_settings(
        LoudnessMeterSettings::with_max_integrated_seconds(N(0.5)),
    );
    let spec =
        ProcessSpec { sample_rate: 48_000, channels: 1, max_block: 4_800, max_memory: None };
    meter.prepare(spec).expect("prepare");
    let silence = vec![F(0.0); 4_800];
    for _ in 0..5 {
        meter.observe(AudioBlock::new(&[&silence]));
    }
    assert!(meter.read().integrated_complete);

    meter.observe(AudioBlock::new(&[&silence]));
    assert!(!meter.read().integrated_complete);
}

#[test]
fn rlb_highpass_normalization_stays_within_ebu_tolerance() {
    let fs = 48_000.0;
    let w = 2.0 * PI * 997.0 / fs;
    let normalized = biquad_mag_sq(&k_highpass_coeffs(N(fs)), w);
    let published = biquad_mag_sq(
        &BiquadCoeffs {
            b0: N(1.0),
            b1: N(-2.0),
            b2: N(1.0),
            a1: N(-1.990_047_454_833_98),
            a2: N(0.990_072_250_366_21),
        },
        w,
    );
    let delta_lu = 10.0 * libm::log(published / normalized) / LN_10;
    assert!(
        delta_lu > 0.0 && delta_lu < 0.1,
        "normalization shifts calibration by {delta_lu} LU"
    );
}

#[test]
fn loudness_of_nothing_is_unbounded_below() {
    let mut meter = LoudnessMeter::<F>::new();
    meter.prepare(spec(2)).unwrap();
    let r = meter.read();
    assert_eq!(r.momentary_lufs.0, f64::NEG_INFINITY);
    assert_eq!(r.short_term_lufs.0, f64::NEG_INFINITY);
    assert_eq!(r.integrated_lufs.0, f64::NEG_INFINITY);
    assert!(r.integrated_complete);
}

#[test]
fn loudness_windows_are_as_long_as_their_names_say() {
    let mut meter = LoudnessMeter::<F>::new();
    meter.prepare(spec(2)).unwrap();
    assert_eq!(meter.momentary.ring.len(), 19_200, "400 ms at 48 kHz");
    assert_eq!(meter.short_term.ring.len(), 144_000, "3 s at 48 kHz");
    assert_eq!(meter.integrated_block.ring.len(), 19_200, "400 ms at 48 kHz");

    let needed = meter.memory_footprint();
    let exact = ProcessSpec { max_memory: Some(needed), ..spec(2) };
    assert!(LoudnessMeter::<F>::new().prepare(exact).is_ok(), "an exact fit is a fit");
    let short = ProcessSpec { max_memory: Some(needed - 1), ..spec(2) };
    assert!(LoudnessMeter::<F>::new().prepare(short).is_err());
}

#[test]
fn loudness_settings_are_rejected_one_by_one() {
    let low = ProcessSpec { sample_rate: 3_363, channels: 2, max_block: 64, max_memory: None };
    assert!(LoudnessMeter::<F>::new().prepare(low).is_err());
    let six = spec(6);
    assert!(LoudnessMeter::<F>::new().prepare(six).is_err());
    let mut five_one =
        LoudnessMeter::<F>::with_settings(LoudnessMeterSettings::<N>::five_point_one());
    assert!(five_one.prepare(six).is_ok());
    assert!(validate_channel_weights(&weighted(&[1.0, -1.0]), 2).is_err());
    assert!(validate_channel_weights(&weighted(&[1.0, f64::NAN]), 2).is_err());
    assert!(validate_channel_weights(&weighted(&[1.0]), 2).is_err());
    assert!(validate_channel_weights(&weighted(&[1.0, 1.0]), 2).is_ok());
}

// Geometry.

#[test]
fn meter_geometry_faults_name_what_differs() {
    let p = PreparedMeterContract::new(spec(2));
    let a = smp(&[0.0; 8]);
    let long = smp(&[0.0; 513]);
    let pair: [&[F]; 2] = [&a, &a];
    let ok = AudioBlock::new(&pair);
    assert_eq!(validate_meter_geometry(Some(p), &ok), Ok(()));
    assert_eq!(validate_meter_geometry(None, &ok), Err(MeterFault::Unprepared));
    assert_eq!(
        validate_meter_geometry(Some(p), &AudioBlock::new(&[&a])),
        Err(MeterFault::Channels { given: 1, prepared: 2 })
    );
    assert_eq!(
        validate_meter_geometry(Some(p), &AudioBlock::new(&[&long, &long])),
        Err(MeterFault::Frames { given: 513, prepared: 512 })
    );
    assert_eq!(
        MeterFault::Frames { given: 513, prepared: 512 }.message(),
        "meter block frames (513) must not exceed the prepared max_block (512)"
    );
}
