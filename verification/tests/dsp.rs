//! Memory accounting, random numbers, and sanitizing.

use bisque::contract::error::DspError;
use bisque::dsp::level::{db_to_linear, linear_to_db_floor};
use bisque::dsp::memory::MemoryLayout;
use bisque::dsp::rng::{channel_seed, Rng};
use bisque::dsp::sanitize::{finite_or_zero, flush_denormal};
use bisque::number::{Real, Sample};

/// Double precision numbers for the library to compute with.
#[derive(Clone, Copy, Debug, PartialEq)]
struct N(f64);

impl Real for N {
    fn plus(self, other: Self) -> Self {
        N(self.0 + other.0)
    }
    fn minus(self, other: Self) -> Self {
        N(self.0 - other.0)
    }
    fn times(self, other: Self) -> Self {
        N(self.0 * other.0)
    }
    fn over(self, other: Self) -> Self {
        N(self.0 / other.0)
    }
    fn neg(self) -> Self {
        N(-self.0)
    }
    fn abs(self) -> Self {
        N(self.0.abs())
    }
    fn copysign(self, other: Self) -> Self {
        N(self.0.copysign(other.0))
    }
    fn ceil(self) -> Self {
        N(self.0.ceil())
    }
    fn floor(self) -> Self {
        N(self.0.floor())
    }
    fn round(self) -> Self {
        N(self.0.round())
    }
    fn is_finite(self) -> bool {
        self.0.is_finite()
    }
    fn less(self, other: Self) -> bool {
        self.0 < other.0
    }
    fn equals(self, other: Self) -> bool {
        self.0 == other.0
    }
    fn decimal(mantissa: i64, exponent: i32) -> Self {
        const POWERS: [f64; 23] = [
            1e0, 1e1, 1e2, 1e3, 1e4, 1e5, 1e6, 1e7, 1e8, 1e9, 1e10, 1e11, 1e12, 1e13, 1e14, 1e15, 1e16,
            1e17, 1e18, 1e19, 1e20, 1e21, 1e22,
        ];
        let m = mantissa as f64;
        match exponent {
            // Both operands are exact, so one rounding gives the nearest number.
            0..=22 if mantissa.unsigned_abs() < (1 << 53) => N(m * POWERS[exponent as usize]),
            -22..=-1 if mantissa.unsigned_abs() < (1 << 53) => N(m / POWERS[-exponent as usize]),
            _ => N(format!("{mantissa}e{exponent}").parse().unwrap()),
        }
    }
    fn from_u64(n: u64) -> Self {
        N(n as f64)
    }
    fn to_u64(self) -> u64 {
        self.0 as u64
    }
    fn denormal_floor() -> Self {
        N(1e-30)
    }
    fn zero() -> Self {
        N(0.0)
    }
    fn one() -> Self {
        N(1.0)
    }
    fn infinity() -> Self {
        N(f64::INFINITY)
    }
    fn sin(self) -> Self {
        N(libm::sin(self.0))
    }
    fn cos(self) -> Self {
        N(libm::cos(self.0))
    }
    fn tan(self) -> Self {
        N(libm::tan(self.0))
    }
    fn sqrt(self) -> Self {
        N(libm::sqrt(self.0))
    }
    fn hypot(self, other: Self) -> Self {
        N(libm::hypot(self.0, other.0))
    }
    fn atan2(self, x: Self) -> Self {
        N(libm::atan2(self.0, x.0))
    }
    fn exp(self) -> Self {
        N(libm::exp(self.0))
    }
    fn ln(self) -> Self {
        N(libm::log(self.0))
    }
    fn log10(self) -> Self {
        N(libm::log10(self.0))
    }
    fn pow(self, exponent: Self) -> Self {
        N(libm::pow(self.0, exponent.0))
    }
}

/// Single precision samples.
#[derive(Clone, Copy, Debug, PartialEq)]
struct F(f32);

impl Sample for F {
    type Real = N;
    fn to_real(self) -> N {
        N(f64::from(self.0))
    }
    fn from_real(x: N) -> Self {
        F(x.0 as f32)
    }
}
#[test]
fn sums_typed_arrays_and_enforces_cap() {
    let layout = MemoryLayout::new().array::<u32>(3).repeated_array::<f64>(2, 4);
    assert_eq!(layout.preflight(None), Ok(76));
    assert_eq!(
        layout.preflight(Some(75)),
        Err(DspError::OverBudget { needed: 76, cap: 75 })
    );
}

#[test]
fn multiplication_overflow_is_rejected_before_allocation() {
    let layout = MemoryLayout::new().repeated_array::<f64>(usize::MAX, 2);
    assert!(matches!(
        layout.preflight(Some(1024)),
        Err(DspError::OverBudget { needed: usize::MAX, cap: 1024 })
    ));
}

#[test]
fn one_component_cannot_exceed_the_addressable_allocation_limit() {
    let too_large = isize::MAX as usize + 1;
    let layout = MemoryLayout::new().array::<u8>(too_large);
    assert!(matches!(
        layout.preflight(None),
        Err(DspError::UnsupportedSpec("state layout exceeds addressable memory"))
    ));
}

#[test]
fn independently_addressable_arrays_may_exceed_isize_in_aggregate() {
    let per_array = isize::MAX as usize / 2 + 1;
    let total = per_array * 2;
    let layout = MemoryLayout::new().repeated_array::<u8>(2, per_array);
    assert_eq!(layout.preflight(None), Ok(total));
}

#[test]
fn overflow_with_an_unlimited_cap_is_an_unsupported_layout() {
    let layout = MemoryLayout::new().repeated_array::<u8>(usize::MAX, 2);
    assert!(matches!(
        layout.preflight(Some(usize::MAX)),
        Err(DspError::UnsupportedSpec("state layout exceeds addressable memory"))
    ));
}

#[test]
fn no_arrays_cost_nothing() {
    let layout = MemoryLayout::new().array::<u8>(5).repeated_array::<u64>(0, usize::MAX);
    assert_eq!(layout.preflight(Some(5)), Ok(5));
}

fn splitmix64_ref(base: u64, ch: usize) -> u64 {
    const GOLDEN: u64 = 0x9E37_79B9_7F4A_7C15;
    fn mix(z: u64, shift: u32, mul: u64) -> u64 {
        (z ^ (z >> shift)).wrapping_mul(mul)
    }
    let seed = base.wrapping_add(GOLDEN.wrapping_mul((ch as u64).wrapping_add(1)));
    let a = mix(seed, 30, 0xBF58_476D_1CE4_E5B9);
    let b = mix(a, 27, 0x94D0_49BB_1331_11EB);
    let out = b ^ (b >> 31);
    if out == 0 {
        GOLDEN
    } else {
        out
    }
}

#[test]
fn channel_seed_matches_independent_splitmix64() {
    let base = 0xABCD_1234_5678u64;
    for ch in 0..3 {
        assert_eq!(
            channel_seed(base, ch),
            splitmix64_ref(base, ch),
            "channel_seed disagrees with the reference at ch{ch}"
        );
    }
    assert_eq!(channel_seed(base, 0), 0xC332_6DED_851F_51AD);
    assert_eq!(channel_seed(base, 1), 0x13F0_5B3A_52B5_D42A);
    assert_eq!(channel_seed(base, 2), 0x5ABB_5F2D_7498_01C1);
}

#[test]
fn channels_of_one_seed_start_apart() {
    for base in [0, 1, 0xABCD_1234_5678, u64::MAX] {
        let mut seeds: Vec<u64> = (0..64).map(|ch| channel_seed(base, ch)).collect();
        assert!(seeds.iter().all(|&s| s != 0));
        seeds.sort_unstable();
        seeds.dedup();
        assert_eq!(seeds.len(), 64);
    }
}

#[test]
fn rng_next_u64_is_the_exact_xorshift_sequence() {
    let mut r = Rng::new(0x1234_5678_9ABC_DEF0);
    let one = r.next_u64();
    let mut x = 0x1234_5678_9ABC_DEF0u64;
    x ^= x << 13;
    x ^= x >> 7;
    x ^= x << 17;
    assert_eq!(one, x, "first xorshift output");
    assert_eq!(one, 0xFE80_0D65_69FA_1B4D, "first xorshift output (pinned)");
    assert_ne!(r.next_u64(), one, "the generator must advance");
}

#[test]
fn rng_seed_zero_is_remapped() {
    let mut zero = Rng::new(0);
    assert_ne!(zero.next_u64(), 0, "a 0 seed must be remapped, not frozen");
}

#[test]
fn random_fractions_come_from_the_top_bits() {
    let mut r = Rng::new(0x1234_5678_9ABC_DEF0);
    let u: N = r.next_unit();
    assert_eq!(u.0, (0xFE80_0D65_69FA_1B4Du64 >> 11) as f64 / (1u64 << 53) as f64);
    let mut r = Rng::new(0x1234_5678_9ABC_DEF0);
    let b: N = r.next_bipolar();
    assert_eq!(b.0, u.0 * 2.0 - 1.0);
}

#[test]
fn finite_or_zero_passes_finite_values_only() {
    assert_eq!(finite_or_zero(N(0.5)).0, 0.5);
    assert_eq!(finite_or_zero(N(f64::NAN)).0, 0.0);
    assert_eq!(finite_or_zero(N(f64::INFINITY)).0, 0.0);
    assert_eq!(finite_or_zero(N(f64::NEG_INFINITY)).0, 0.0);
}

#[test]
fn flush_denormal_zeroes_tiny_and_non_finite_values() {
    assert_eq!(flush_denormal(N(1e-40)).0, 0.0);
    assert_eq!(flush_denormal(N(-1e-40)).0, 0.0);
    assert_eq!(flush_denormal(N(f64::NAN)).0, 0.0);
    assert_eq!(flush_denormal(N(f64::INFINITY)).0, 0.0);
    assert_eq!(flush_denormal(N(1e-30)).0, 1e-30);
    assert_eq!(flush_denormal(N(0.5)).0, 0.5);
}

#[test]
fn db_to_linear_reference_points() {
    let f = |db: f64| db_to_linear(N(db)).0;
    assert_eq!(f(0.0), 1.0);
    assert!((f(20.0) - 10.0).abs() < 1e-9);
    assert!((f(-20.0) - 0.1).abs() < 1e-9);
    assert_eq!(f(f64::NEG_INFINITY), 0.0);
    assert!(f(f64::INFINITY).is_infinite());
    assert!(f(f64::NAN).is_nan());
}

#[test]
fn db_linear_round_trips() {
    for db in [-96.0, -24.0, -6.0, 0.0, 6.0, 24.0] {
        let back = linear_to_db_floor(db_to_linear(N(db)), N(-200.0)).0;
        assert!((back - db).abs() < 1e-9, "round trip {db} -> {back}");
    }
}

#[test]
fn linear_to_db_floor_bounds_and_non_finite() {
    let f = |x: f64, floor: f64| linear_to_db_floor(N(x), N(floor)).0;
    assert_eq!(f(1.0, -120.0), 0.0);
    assert_eq!(f(1e-30, -120.0), -120.0);
    assert_eq!(f(0.0, -120.0), -120.0);
    assert_eq!(f(-1.0, -120.0), -120.0);
    assert_eq!(f(f64::NAN, -120.0), -120.0);
    assert_eq!(f(f64::INFINITY, -120.0), -120.0);
    assert_eq!(f(0.0, f64::NEG_INFINITY), f64::NEG_INFINITY);
    assert!(f(1.0, f64::NEG_INFINITY).abs() < 1e-12);
}
