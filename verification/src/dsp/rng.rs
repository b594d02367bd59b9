//! Seeded random numbers for noise and dither.
//!
//! The generator and the per-channel seed derivation are fixed algorithms with
//! pinned constants, so equal seeds give equal signals everywhere.

use crate::number::{unit, Real};
use vstd::prelude::*;

verus! {

/// Replaces a zero seed, and spaces channel seeds.
pub const GOLDEN: u64 = 0x9E37_79B9_7F4A_7C15;

/// A seeded `xorshift64` generator.
#[derive(Clone, Copy, Debug, PartialEq, Eq, Structural)]
pub struct Rng {
    pub state: u64,
}

/// One `xorshift64` step with shifts 13, 7, and 17.
pub open spec fn xorshift(x: u64) -> u64 {
    let a = x ^ (x << 13);
    let b = a ^ (a >> 7);
    b ^ (b << 17)
}

/// The state that a seed starts from.
pub open spec fn seeded(seed: u64) -> u64 {
    if seed == 0 {
        GOLDEN
    } else {
        seed
    }
}

/// The top 53 bits of `x` as a fraction of one.
pub open spec fn unit_fraction<R: Real>(x: u64) -> R {
    R::natural(x >> 11).prod(unit::<R>().quot(R::natural(0x20_0000_0000_0000)))
}

/// A uniform value in `[-1, 1)` from the top 53 bits of `x`.
pub open spec fn bipolar_fraction<R: Real>(x: u64) -> R {
    unit_fraction::<R>(x).prod(R::decimal_of(2, 0)).diff(unit())
}

/// One `splitmix64` round over the base seed and the channel number.
pub open spec fn mixed(base: u64, ch: u64) -> u64 {
    let z = base.wrapping_add(GOLDEN.wrapping_mul((ch + 1) as u64));
    let y = (z ^ (z >> 30)).wrapping_mul(0xBF58_476D_1CE4_E5B9);
    let x = (y ^ (y >> 27)).wrapping_mul(0x94D0_49BB_1331_11EB);
    x ^ (x >> 31)
}

/// The generator state that channel `ch` starts from.
pub open spec fn channel_start(seed: u64, ch: int) -> u64 {
    seeded(mixed(seed, ch as u64))
}

impl Rng {
    /// Seed the generator. Zero is replaced, since it is the fixed point.
    pub fn new(seed: u64) -> (r: Self)
        ensures
            r.state == seeded(seed),
            r.state != 0,
    {
        Self {
            state: if seed == 0 {
                GOLDEN
            } else {
                seed
            },
        }
    }

    /// Next 64-bit output, advancing the state.
    pub fn next_u64(&mut self) -> (r: u64)
        ensures
            r == xorshift(old(self).state),
            final(self).state == r,
            old(self).state != 0 ==> r != 0,
    {
        proof {
            generator_never_sticks(self.state);
        }
        let mut x: u64 = self.state;
        x = x ^ (x << 13);
        x = x ^ (x >> 7);
        x = x ^ (x << 17);
        self.state = x;
        x
    }

    /// A uniform value in `[0, 1)` from the top 53 bits.
    pub fn next_unit<R: Real>(&mut self) -> (r: R)
        ensures
            r == unit_fraction::<R>(xorshift(old(self).state)),
            final(self).state == xorshift(old(self).state),
    {
        let x: u64 = self.next_u64();
        R::from_u64(x >> 11).times(R::one().over(R::from_u64(0x20_0000_0000_0000)))
    }

    /// A uniform value in `[-1, 1)` from the top 53 bits.
    pub fn next_bipolar<R: Real>(&mut self) -> (r: R)
        ensures
            r == bipolar_fraction::<R>(xorshift(old(self).state)),
            final(self).state == xorshift(old(self).state),
    {
        let u: R = self.next_unit();
        u.times(R::decimal(2, 0)).minus(R::one())
    }
}

/// Derive a per-channel seed from the base seed. Zero results are remapped, so
/// no channel lands on the generator's fixed point.
pub fn channel_seed(base: u64, ch: usize) -> (r: u64)
    requires
        ch < u64::MAX,
    ensures
        r == seeded(mixed(base, ch as u64)),
        r != 0,
{
    let step: u64 = ch as u64 + 1;
    let z: u64 = base.wrapping_add(GOLDEN.wrapping_mul(step));
    let y: u64 = (z ^ (z >> 30)).wrapping_mul(0xBF58_476D_1CE4_E5B9);
    let x: u64 = (y ^ (y >> 27)).wrapping_mul(0x94D0_49BB_1331_11EB);
    let out: u64 = x ^ (x >> 31);
    if out == 0 {
        GOLDEN
    } else {
        out
    }
}

/// A generator that has not reached zero never does, so it never sticks.
pub proof fn generator_never_sticks(x: u64)
    ensures
        x != 0 ==> xorshift(x) != 0,
{
    assert(x != 0 ==> ({
        let a = x ^ (x << 13);
        let b = a ^ (a >> 7);
        b ^ (b << 17)
    }) != 0) by (bit_vector);
}

/// Multiplying by a number with an inverse modulo 2^64 keeps values apart.
proof fn lemma_odd_multiples_differ(c: u64, inverse: u64, k: int, x: u64, y: u64)
    requires
        inverse * c == 1 + k * 0x1_0000_0000_0000_0000,
        c.wrapping_mul(x) == c.wrapping_mul(y),
    ensures
        x == y,
{
    let m = 0x1_0000_0000_0000_0000int;
    let p = c * x;
    let q = c * y;
    assert(p % m == q % m);
    let t = p / m - q / m;
    assert(p - q == t * m) by {
        vstd::arithmetic::div_mod::lemma_fundamental_div_mod(p, m);
        vstd::arithmetic::div_mod::lemma_fundamental_div_mod(q, m);
        assert(m * (p / m) - m * (q / m) == t * m) by (nonlinear_arith)
            requires
                t == p / m - q / m,
        ;
    }
    let d = x - y;
    assert(d == m * (inverse * t - k * d)) by (nonlinear_arith)
        requires
            inverse * c == 1 + k * m,
            c * x - c * y == t * m,
            d == x - y,
    ;
    let w = inverse * t - k * d;
    assert(d == 0) by (nonlinear_arith)
        requires
            d == m * w,
            m == 0x1_0000_0000_0000_0000,
            -m < d < m,
    ;
}

/// Different channels are mixed to different values.
proof fn lemma_mixed_apart(base: u64, a: u64, b: u64)
    requires
        a < u64::MAX,
        b < u64::MAX,
        mixed(base, a) == mixed(base, b),
    ensures
        a == b,
{
    let (sa, sb) = ((a + 1) as u64, (b + 1) as u64);
    let (ga, gb) = (GOLDEN.wrapping_mul(sa), GOLDEN.wrapping_mul(sb));
    let (za, zb) = (base.wrapping_add(ga), base.wrapping_add(gb));
    let (va, vb) = (za ^ (za >> 30), zb ^ (zb >> 30));
    let (ya, yb) = (
        va.wrapping_mul(0xBF58_476D_1CE4_E5B9),
        vb.wrapping_mul(0xBF58_476D_1CE4_E5B9),
    );
    let (ua, ub) = (ya ^ (ya >> 27), yb ^ (yb >> 27));
    let (xa, xb) = (
        ua.wrapping_mul(0x94D0_49BB_1331_11EB),
        ub.wrapping_mul(0x94D0_49BB_1331_11EB),
    );
    assert(xa ^ (xa >> 31) == xb ^ (xb >> 31) ==> xa == xb) by (bit_vector);
    assert(ua * 0x94D0_49BB_1331_11EB == 0x94D0_49BB_1331_11EB * ua);
    assert(ub * 0x94D0_49BB_1331_11EB == 0x94D0_49BB_1331_11EB * ub);
    lemma_odd_multiples_differ(
        0x94D0_49BB_1331_11EB,
        0x3196_42B2_D24D_8EC3,
        2077064247507883091,
        ua,
        ub,
    );
    assert(ya ^ (ya >> 27) == yb ^ (yb >> 27) ==> ya == yb) by (bit_vector);
    assert(va * 0xBF58_476D_1CE4_E5B9 == 0xBF58_476D_1CE4_E5B9 * va);
    assert(vb * 0xBF58_476D_1CE4_E5B9 == 0xBF58_476D_1CE4_E5B9 * vb);
    lemma_odd_multiples_differ(
        0xBF58_476D_1CE4_E5B9,
        0x96DE_1B17_3F11_9089,
        8125545580553827436,
        va,
        vb,
    );
    assert(za ^ (za >> 30) == zb ^ (zb >> 30) ==> za == zb) by (bit_vector);
    assert(ga == gb);
    lemma_odd_multiples_differ(
        GOLDEN,
        0xF1DE_83E1_9937_733D,
        10771413168148108919,
        sa,
        sb,
    );
}

/// Different channels get different seeds: two channels of one base seed start
/// alike only where one of them mixes to zero and is remapped to what the other
/// mixes to.
pub proof fn channels_start_apart(seed: u64, a: u64, b: u64)
    requires
        a != b,
        a < u64::MAX,
        b < u64::MAX,
    ensures
        mixed(seed, a) != mixed(seed, b),
        channel_start(seed, a as int) == channel_start(seed, b as int) ==> {
            ||| mixed(seed, a) == 0 && mixed(seed, b) == GOLDEN
            ||| mixed(seed, b) == 0 && mixed(seed, a) == GOLDEN
        },
{
    if mixed(seed, a) == mixed(seed, b) {
        lemma_mixed_apart(seed, a, b);
    }
}

} // verus!
