//! Test support.

use bisque::analysis::level::RmsMeter;
use bisque::contract::block::{AudioBlockMut, Io, IoMode};
use bisque::contract::context::{ProcessContext, Produced, Tail};
use bisque::contract::error::DspError;
use bisque::contract::param::{ParamEvent, ParamId};
use bisque::contract::spec::ProcessSpec;
use bisque::contract::traits::{Kernel, Measurer, Processor, Source};
use bisque::dsp::driver::KernelProcessor;
use bisque::dynamics::compressor::{Compressor, CompressorSettings};
use bisque::filters::moving_average::MovingAverage;
use bisque::generators::sine::SineOsc;
use bisque::mastering::gain::{Gain, GainParams};
use bisque::number::{Real, Sample};
use bisque::testing::double::InfiniteTailKernel;
use bisque::testing::harness::{block_end, block_events, ev, observe_blocks, Contract};
use bisque::testing::manifest::{check_snapshot, manifest_hash, SnapshotFault};
use bisque::testing::registry::{DriveMode, ProcessorAuthoring};
use bisque::testing::signals::{loud_stereo, sweep_stereo, tone_stereo};
use bisque::testing::snapshot::{bits_eq, snapshot_hex, Fnv1a128};
use bisque::testing::snapshot_cases::{Drain, DrainFault, Region, SNAPSHOT_BLOCK};
use bisque::testing::stretch::{
    keep_front, stretch_source, stretch_step, whole_stretch_block, StretchStep,
};

/// Double precision numbers for the library to compute with.
#[derive(Clone, Copy, Debug, PartialEq)]
struct N(f64);

impl Real for N {
    fn plus(self, other: Self) -> Self {
        N(self.0 + other.0)
    }
    fn minus(self, other: Self) -> Self {
        N(self.0 - other.0)
    }
    fn times(self, other: Self) -> Self {
        N(self.0 * other.0)
    }
    fn over(self, other: Self) -> Self {
        N(self.0 / other.0)
    }
    fn neg(self) -> Self {
        N(-self.0)
    }
    fn abs(self) -> Self {
        N(self.0.abs())
    }
    fn copysign(self, other: Self) -> Self {
        N(self.0.copysign(other.0))
    }
    fn ceil(self) -> Self {
        N(self.0.ceil())
    }
    fn floor(self) -> Self {
        N(self.0.floor())
    }
    fn round(self) -> Self {
        N(self.0.round())
    }
    fn is_finite(self) -> bool {
        self.0.is_finite()
    }
    fn less(self, other: Self) -> bool {
        self.0 < other.0
    }
    fn equals(self, other: Self) -> bool {
        self.0 == other.0
    }
    fn decimal(mantissa: i64, exponent: i32) -> Self {
        const POWERS: [f64; 23] = [
            1e0, 1e1, 1e2, 1e3, 1e4, 1e5, 1e6, 1e7, 1e8, 1e9, 1e10, 1e11, 1e12, 1e13, 1e14, 1e15, 1e16,
            1e17, 1e18, 1e19, 1e20, 1e21, 1e22,
        ];
        let m = mantissa as f64;
        match exponent {
            // Both operands are exact, so one rounding gives the nearest number.
            0..=22 if mantissa.unsigned_abs() < (1 << 53) => N(m * POWERS[exponent as usize]),
            -22..=-1 if mantissa.unsigned_abs() < (1 << 53) => N(m / POWERS[-exponent as usize]),
            _ => N(format!("{mantissa}e{exponent}").parse().unwrap()),
        }
    }
    fn from_u64(n: u64) -> Self {
        N(n as f64)
    }
    fn to_u64(self) -> u64 {
        self.0 as u64
    }
    fn denormal_floor() -> Self {
        N(1e-30)
    }
    fn zero() -> Self {
        N(0.0)
    }
    fn one() -> Self {
        N(1.0)
    }
    fn infinity() -> Self {
        N(f64::INFINITY)
    }
    fn sin(self) -> Self {
        N(libm::sin(self.0))
    }
    fn cos(self) -> Self {
        N(libm::cos(self.0))
    }
    fn tan(self) -> Self {
        N(libm::tan(self.0))
    }
    fn sqrt(self) -> Self {
        N(libm::sqrt(self.0))
    }
    fn hypot(self, other: Self) -> Self {
        N(libm::hypot(self.0, other.0))
    }
    fn atan2(self, x: Self) -> Self {
        N(libm::atan2(self.0, x.0))
    }
    fn exp(self) -> Self {
        N(libm::exp(self.0))
    }
    fn ln(self) -> Self {
        N(libm::log(self.0))
    }
    fn log10(self) -> Self {
        N(libm::log10(self.0))
    }
    fn pow(self, exponent: Self) -> Self {
        N(libm::pow(self.0, exponent.0))
    }
}

/// Single precision samples.
#[derive(Clone, Copy, Debug, PartialEq)]
struct F(f32);

impl Sample for F {
    type Real = N;
    fn to_real(self) -> N {
        N(f64::from(self.0))
    }
    fn from_real(x: N) -> Self {
        F(x.0 as f32)
    }
}
fn bits(x: &[Vec<F>]) -> Vec<Vec<u32>> {
    x.iter().map(|c| c.iter().map(|s| s.0.to_bits()).collect()).collect()
}

#[test]
fn contract_defaults_cover_the_control_grid() {
    let c = Contract::default();
    assert_eq!(
        c.spec,
        ProcessSpec { sample_rate: 48_000, channels: 2, max_block: 8192, max_memory: None }
    );
    assert_eq!(c.block_sizes, vec![1, 7, 32, 33, 64, 65, 128, 257, 999]);
}

#[test]
fn blocks_cover_a_stream_and_keep_every_event() {
    let events: Vec<ParamEvent<N>> =
        [0u32, 3, 3, 40, 99].iter().map(|&at| ev(at, ParamId(at % 2), N(f64::from(at)))).collect();
    for block in [1, 7, 32, 100, 1000] {
        let mut pos = 0;
        let mut seen = Vec::new();
        while pos < 100 {
            let end = block_end(pos, block, 100);
            assert!(end > pos && end <= 100 && end - pos <= block);
            for e in block_events(&events, pos, end) {
                assert!((e.offset as usize) < end - pos);
                seen.push((pos as u32 + e.offset, e.param, e.value));
            }
            pos = end;
        }
        let all: Vec<_> = events.iter().map(|e| (e.offset, e.param, e.value)).collect();
        assert_eq!(seen, all, "block size {block}");
    }
    assert!(block_events(&events, 100, 200).is_empty());
}

#[test]
fn meters_observe_a_signal_in_blocks() {
    let x: Vec<Vec<F>> = tone_stereo(300);
    let reading = |block: usize| {
        let mut meter = RmsMeter::<F>::new();
        meter.prepare(Contract::default().spec).unwrap();
        observe_blocks(&mut meter, &x, block);
        meter.read()
    };
    let whole = reading(300);
    assert!(whole.0 > 0.1);
    for block in [1, 7, 64, 299, 1000] {
        assert_eq!(reading(block), whole);
    }
}

#[test]
fn reference_signals_have_their_published_values() {
    let tone: Vec<Vec<F>> = tone_stereo(4);
    assert_eq!(tone.len(), 2);
    for ch in 0..2 {
        let w = 0.011 + 0.006 * ch as f64;
        let amp = 0.7 - 0.08 * ch as f64;
        for i in 0..4 {
            assert_eq!(tone[ch][i].0, (libm::sin(i as f64 * w) * amp) as f32);
        }
    }
    let sweep: Vec<Vec<F>> = sweep_stereo(100);
    let (w0, k, t) = (0.010 + 0.003, 2.0e-5, 99.0);
    assert_eq!(sweep[1][99].0, (libm::sin(w0 * t + 0.5 * k * t * t) * 0.6) as f32);
    let loud: Vec<Vec<F>> = loud_stereo(100);
    assert_eq!(loud[0][77].0, (libm::sin(77.0 * 0.020) * 1.8) as f32);
    assert!(loud[0].iter().any(|x| x.0 > 1.0));
    assert!(tone_stereo::<F>(0).iter().all(|c| c.is_empty()));
}

#[test]
fn infinite_tail_decays_and_never_ends() {
    let mut p = KernelProcessor::<_, F>::new(InfiniteTailKernel::<F>::new());
    p.prepare(Contract::default().spec).unwrap();
    assert_eq!(p.tail(), Tail::Infinite);
    let mut x = vec![vec![F(0.25), F(0.5)], vec![F(-1.0), F(-1.0)]];
    {
        let mut views: Vec<&mut [F]> = x.iter_mut().map(|c| c.as_mut_slice()).collect();
        p.process(&mut ProcessContext::in_place(&mut views, 0));
    }
    assert_eq!(x, vec![vec![F(0.25), F(0.5)], vec![F(-1.0), F(-1.0)]], "audio passes");
    let mut tail = vec![vec![F(0.0); 3]; 2];
    let produced = {
        let mut views: Vec<&mut [F]> = tail.iter_mut().map(|c| c.as_mut_slice()).collect();
        p.flush(&mut AudioBlockMut::new(&mut views))
    };
    assert_eq!(produced, Produced { frames: 3, done: false });
    let mut state = 0.5f64;
    for i in 0..3 {
        state *= 0.999;
        assert_eq!(tail[0][i].0, state as f32);
        assert_eq!(tail[1][i].0, state as f32);
    }
}

#[test]
fn bit_patterns_tell_zeros_and_payloads_apart() {
    let a = vec![vec![F(0.0), F(f32::NAN)]];
    let b = vec![vec![F(-0.0), F(f32::NAN)]];
    assert!(bits_eq(&bits(&a), &bits(&a)));
    assert!(!bits_eq(&bits(&a), &bits(&b)));
    assert!(!bits_eq(&bits(&a), &[]));
    assert!(!bits_eq(&[vec![1, 2]], &[vec![1]]));
    assert!(bits_eq(&[], &[]));
}

#[test]
fn hash_matches_the_published_vectors() {
    let hash = |bytes: &[u8]| {
        let mut h = Fnv1a128::new();
        h.write(bytes);
        h.finish_hex()
    };
    assert_eq!(hash(b""), "6c62272e07bb014262b821756295c58d");
    assert_eq!(hash(b"a"), "d228cb696f1a8caf78912b704e4a8964");
    assert_eq!(hash(b"foobar"), "343e1662793c64bf6f0d3597ba446f18");
    let mut split = Fnv1a128::new();
    split.write(b"foo");
    split.write(b"bar");
    assert_eq!(split.finish_hex(), hash(b"foobar"), "how bytes are divided does not show");
}

#[test]
fn snapshot_hashes_a_framed_layout() {
    let out = vec![vec![0x3f80_0000u32, 0x0102_0304], vec![7, 8]];
    let mut bytes = b"f32-le-planar-v1\0".to_vec();
    bytes.extend_from_slice(&2u32.to_le_bytes());
    bytes.extend_from_slice(&2u32.to_le_bytes());
    for s in out.iter().flatten() {
        bytes.extend_from_slice(&s.to_le_bytes());
    }
    let mut h = Fnv1a128::new();
    h.write(&bytes);
    assert_eq!(snapshot_hex(&out), h.finish_hex());
    assert_ne!(snapshot_hex(&[]), snapshot_hex(&[Vec::new()]));
}

const MANIFEST: &str = "# header\n\
    meta\tversion\t1\n\
    \n\
    case\tgain\ttone-stereo\tfnv1a128:00ff  \r\n\
    case\tshort\n\
    #case\thidden\tx\n\
    case\tgain\tother\tfnv1a128:beef\n\
    case\tlast\tfnv1a128:cafe";

#[test]
fn manifest_rows_are_found_by_case_id() {
    assert_eq!(manifest_hash(MANIFEST, "gain").unwrap(), "fnv1a128:00ff", "the first row wins");
    assert_eq!(manifest_hash(MANIFEST, "last").unwrap(), "fnv1a128:cafe");
    assert_eq!(manifest_hash(MANIFEST, "short"), None, "a row without a hash has none");
    assert_eq!(manifest_hash(MANIFEST, "hidden"), None);
    assert_eq!(manifest_hash(MANIFEST, "version"), None);
    assert_eq!(manifest_hash(MANIFEST, "absent"), None);
    assert_eq!(manifest_hash("", "gain"), None);
}

#[test]
fn snapshots_are_held_against_the_manifest() {
    let out = bits(&tone_stereo(16));
    let row = format!("case\ttone\tfnv1a128:{}\n", snapshot_hex(&out));
    assert_eq!(check_snapshot(&row, "tone", &out), Ok(()));
    assert_eq!(check_snapshot(&row, "other", &out), Err(SnapshotFault::Missing));
    assert_eq!(
        check_snapshot(&row, "tone", &bits(&tone_stereo(17))),
        Err(SnapshotFault::Mismatch)
    );
}

#[test]
fn drive_modes_and_regions_have_their_names() {
    assert_eq!(DriveMode::Effect.io_mode(), IoMode::InPlace);
    assert_eq!(DriveMode::Source.io_mode(), IoMode::OutputOnly);
    assert_eq!(DriveMode::Split.io_mode(), IoMode::Split);
    assert_ne!(ProcessorAuthoring::Kernel, ProcessorAuthoring::Direct);
    assert_eq!(Region::Body.tag(), "body");
    assert_eq!(Region::BodyFlush.tag(), "body+flush");
    assert_eq!(SNAPSHOT_BLOCK, 128);
}

#[test]
fn drains_end_within_their_tail() {
    assert_eq!(Drain::of(Tail::Infinite), None);
    assert_eq!(Drain::of(Tail::Absent), Some(Drain { remaining: 0, done: true }));
    let d = Drain::of(Tail::Frames(10)).unwrap();
    assert_eq!(d, Drain { remaining: 10, done: false });
    let p = |frames: usize, done: bool| Produced { frames, done };
    assert_eq!(d.after(p(4, false)), Ok(Drain { remaining: 6, done: false }));
    assert_eq!(d.after(p(4, true)), Ok(Drain { remaining: 6, done: true }));
    assert_eq!(d.after(p(11, true)), Err(DrainFault::Overrun));
    assert_eq!(d.after(p(0, false)), Err(DrainFault::Stalled));
    assert_eq!(d.after(p(10, false)), Err(DrainFault::Unfinished));
}

fn gain_events() -> Vec<ParamEvent<N>> {
    vec![
        ev(0, ParamId(GainParams::<N>::GAIN_DB), N(-6.0)),
        ev(401, ParamId(GainParams::<N>::GAIN_DB), N(3.0)),
    ]
}

fn prepared<K: Kernel<F>>(kernel: K) -> KernelProcessor<K, F> {
    let mut p = KernelProcessor::new(kernel);
    p.prepare(Contract::default().spec).unwrap();
    p
}

#[test]
fn replays_do_not_show_their_block_size() {
    let c = Contract::default();
    let x: Vec<Vec<F>> = tone_stereo(1000);
    let events = gain_events();
    let whole = c.run_reusing(&mut prepared(Gain::<F>::new()), &x, &events, 1000);
    assert!(!bits_eq(&bits(&whole), &bits(&x)), "the gain is heard");
    for &block in &c.block_sizes {
        let cut = c.run_reusing(&mut prepared(Gain::<F>::new()), &x, &events, block);
        assert!(bits_eq(&bits(&cut), &bits(&whole)), "block size {block}");
    }
}

#[test]
fn a_reset_replay_is_a_fresh_one() {
    let c = Contract::default();
    let x: Vec<Vec<F>> = loud_stereo(700);
    let fresh = c.run_reusing(&mut prepared(Gain::<F>::new()), &x, &gain_events(), 64);
    let mut p = prepared(Gain::<F>::new());
    let _ = c.run_reusing(&mut p, &x, &gain_events(), 50);
    p.reset();
    let again = c.run_reusing(&mut p, &x, &gain_events(), 64);
    assert!(bits_eq(&bits(&again), &bits(&fresh)));
}

#[test]
fn split_replays_read_one_side_and_write_the_other() {
    let c = Contract::default();
    let x = vec![vec![F(1.0), F(2.0), F(3.0), F(4.0), F(5.0)]; 2];
    for block in [1, 2, 5, 64] {
        let y = c.run_split_reusing(&mut prepared(MovingAverage::<F>::new(2)), &x, block);
        for ch in &y {
            assert_eq!(*ch, vec![F(0.5), F(1.5), F(2.5), F(3.5), F(4.5)], "block size {block}");
        }
    }
    let none: Vec<Vec<F>> = vec![Vec::new(); 2];
    let y = c.run_split_reusing(&mut prepared(MovingAverage::<F>::new(2)), &none, 8);
    assert_eq!(y, none);
}

#[test]
fn sources_fill_what_they_are_asked_for() {
    let c = Contract::default();
    let whole = c.generate_reusing(&mut prepared(SineOsc::<F>::new()), 500, &[], 500);
    assert_eq!(whole.len(), 2);
    assert!(whole.iter().all(|ch| ch.len() == 500 && ch.iter().any(|s| s.0.abs() > 0.1)));
    for block in [1, 33, 128] {
        let cut = c.generate_reusing(&mut prepared(SineOsc::<F>::new()), 500, &[], block);
        assert!(bits_eq(&bits(&cut), &bits(&whole)), "block size {block}");
    }
}

#[test]
fn sidechains_key_the_replay() {
    let c = Contract::default();
    let keyed = || {
        prepared(Compressor::<F>::with_settings(CompressorSettings::new().use_sidechain(true)))
    };
    let x = vec![vec![F(0.1); 600]; 2];
    let loud = vec![vec![F(1.0); 600]];
    let quiet = vec![vec![F(0.0); 600]];
    let pressed = c.run_with_sidechain_reusing(&mut keyed(), &x, &loud, &[], 64);
    let free = c.run_with_sidechain_reusing(&mut keyed(), &x, &quiet, &[], 64);
    assert!(pressed[0][599].0 < 0.09);
    assert!((free[0][599].0 - 0.1).abs() < 1e-6);
    let cut = c.run_with_sidechain_reusing(&mut keyed(), &x, &loud, &[], 7);
    assert!(bits_eq(&bits(&cut), &bits(&pressed)));
}

#[test]
fn fresh_runs_prepare_before_they_replay() {
    let c = Contract::default();
    let x: Vec<Vec<F>> = tone_stereo(200);
    let gain = || KernelProcessor::<_, F>::new(Gain::<F>::new());
    let reused = c.run_reusing(&mut prepared(Gain::<F>::new()), &x, &gain_events(), 33);
    assert_eq!(c.run(gain, &x, &gain_events(), 33), Ok(reused));

    let average = |taps| move || KernelProcessor::<_, F>::new(MovingAverage::<F>::new(taps));
    let reused = c.run_split_reusing(&mut prepared(MovingAverage::<F>::new(3)), &x, 64);
    assert_eq!(c.run_split(average(3), &x, 64), Ok(reused));
    assert!(matches!(c.run_split(average(0), &x, 64), Err(DspError::InvalidParam(_))));

    let tone = || KernelProcessor::<_, F>::new(SineOsc::<F>::new());
    let reused = c.generate_reusing(&mut prepared(SineOsc::<F>::new()), 100, &[], 7);
    assert_eq!(c.generate(tone, 100, &[], 7), Ok(reused));

    let settings = || CompressorSettings::new().use_sidechain(true);
    let keyed = || KernelProcessor::<_, F>::new(Compressor::<F>::with_settings(settings()));
    let reused = c.run_with_sidechain_reusing(
        &mut prepared(Compressor::<F>::with_settings(settings())),
        &x,
        &x,
        &[],
        64,
    );
    assert_eq!(c.run_with_sidechain(keyed, &x, &x, &[], 64), Ok(reused));
}

fn same_bits(a: &Vec<Vec<F>>, b: &Vec<Vec<F>>) -> bool {
    bits_eq(&bits(a), &bits(b))
}

/// Adds the number of blocks so far, and forgets it on reset only if told to.
struct Blocky {
    blocks: usize,
    forgets: bool,
}

impl Processor<F> for Blocky {
    fn prepare(&mut self, _spec: ProcessSpec) -> Result<(), DspError> {
        self.blocks = 0;
        Ok(())
    }
    fn reset(&mut self) {
        if self.forgets {
            self.blocks = 0;
        }
    }
    fn process(&mut self, ctx: &mut ProcessContext<'_, '_, F>) {
        self.blocks += 1;
        let block = match &mut ctx.main {
            Io::InPlace(block) | Io::OutputOnly(block) => block,
            Io::Split { output, .. } => output,
        };
        for x in block.channel_mut(0).iter_mut() {
            *x = F(x.0 + self.blocks as f32);
        }
    }
}

#[test]
fn divergence_names_the_first_block_size_that_shows() {
    let mut c = Contract::default();
    let x: Vec<Vec<F>> = tone_stereo(500);
    let gain = || KernelProcessor::<_, F>::new(Gain::<F>::default());
    assert_eq!(c.diverging_block(gain, &x, &gain_events(), same_bits), Ok(None));
    let tone = || KernelProcessor::<_, F>::new(SineOsc::<F>::new());
    assert_eq!(c.diverging_generator_block(tone, 500, &[], same_bits), Ok(None));

    let blocky = || Blocky { blocks: 0, forgets: true };
    assert_eq!(c.diverging_block(blocky, &x, &[], same_bits), Ok(Some(1)));
    assert_eq!(c.diverging_generator_block(blocky, 500, &[], same_bits), Ok(Some(1)));
    c.block_sizes = vec![999, 500, 257, 1];
    assert_eq!(c.diverging_block(blocky, &x, &[], same_bits), Ok(Some(257)));
    c.block_sizes = vec![999, 500];
    assert_eq!(c.diverging_block(blocky, &x, &[], same_bits), Ok(None));
    c.block_sizes = Vec::new();
    assert_eq!(c.diverging_block(blocky, &x, &[], |_, _| false), Ok(None));

    let none: Vec<Vec<F>> = vec![Vec::new(); 2];
    c.block_sizes = vec![3];
    assert_eq!(c.diverging_block(blocky, &none, &[], same_bits), Ok(None));

    let average = || KernelProcessor::<_, F>::new(MovingAverage::<F>::new(0));
    let refused = c.diverging_block(average, &none, &[], same_bits);
    assert!(matches!(refused, Err(DspError::InvalidParam(_))));
}

#[test]
fn reset_is_held_against_a_fresh_processor() {
    let c = Contract::default();
    let x: Vec<Vec<F>> = tone_stereo(300);
    let gain = || KernelProcessor::<_, F>::new(Gain::<F>::new());
    assert_eq!(c.reset_reproduces(gain, &x, &gain_events(), same_bits), Ok(true));
    let forgets = || Blocky { blocks: 0, forgets: true };
    assert_eq!(c.reset_reproduces(forgets, &x, &[], same_bits), Ok(true));
    let keeps = || Blocky { blocks: 0, forgets: false };
    assert_eq!(c.reset_reproduces(keeps, &x, &[], same_bits), Ok(false));
    let average = || KernelProcessor::<_, F>::new(MovingAverage::<F>::new(0));
    let refused = c.reset_reproduces(average, &x, &[], same_bits);
    assert!(matches!(refused, Err(DspError::InvalidParam(_))));
}

#[test]
fn rate_changers_go_on_until_done_or_stalled() {
    let done = |frames| Produced { frames, done: true };
    let more = |frames| Produced { frames, done: false };
    assert_eq!(stretch_step(done(0), 0), StretchStep::Done);
    assert_eq!(stretch_step(done(5), 9), StretchStep::Done);
    assert_eq!(stretch_step(more(5), 0), StretchStep::Again);
    assert_eq!(stretch_step(more(0), 1), StretchStep::Again);
    assert_eq!(stretch_step(more(0), 0), StretchStep::Stalled);
    assert_eq!(whole_stretch_block(0), 4096);
    assert_eq!(whole_stretch_block(1000), 6096);
}

#[test]
fn rate_changers_draw_capped_pulls_and_keep_what_is_produced() {
    let data = vec![vec![F(1.0), F(2.0), F(3.0)], vec![F(4.0), F(5.0), F(6.0)]];
    for (cap, expected) in [(0, 3), (usize::MAX, 3), (2, 2)] {
        let mut src = stretch_source(data.clone(), cap);
        let mut stage = vec![vec![F(0.0); 8]; 2];
        let produced = {
            let mut planes: Vec<&mut [F]> = stage.iter_mut().map(Vec::as_mut_slice).collect();
            src.pull(&mut AudioBlockMut::new(&mut planes))
        };
        assert_eq!(produced.frames, expected);
        assert_eq!(src.remaining(), 3 - expected);
        let mut out = vec![vec![F(9.0)], Vec::new()];
        keep_front(&mut out, &stage, produced.frames);
        assert_eq!(out[0], [&[F(9.0)], &data[0][..expected]].concat());
        assert_eq!(out[1], data[1][..expected]);
    }
}
