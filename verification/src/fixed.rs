//! Fixed-point numbers with 32 fractional bits.

use crate::dsp::sanitize::{flushed, sane};
use crate::dsp::summing::sums_exactly;
use crate::number::{exact, nil, ordered, size, unit, zero_corrections, Order, Real, Sample};
use vstd::arithmetic::div_mod::lemma_fundamental_div_mod;
use vstd::arithmetic::div_mod::lemma_fundamental_div_mod_converse;
use vstd::prelude::*;

verus! {

/// The weight of one in the representation.
pub const ONE: i64 = 0x1_0000_0000;

/// How many terms a series or a Newton iteration is carried to.
pub const TERMS: u64 = 24;

/// A number `raw / 2^32`. Results outside the range saturate: the two ends of the
/// representation stand for overflow, and are not finite.
#[derive(Clone, Copy, Debug, PartialEq, Eq, Structural)]
pub struct Fixed {
    pub raw: i64,
}

/// `x` brought into the range of the representation.
pub open spec fn clip(x: int) -> Fixed {
    if x > i64::MAX {
        Fixed { raw: i64::MAX }
    } else if x < i64::MIN {
        Fixed { raw: i64::MIN }
    } else {
        Fixed { raw: x as i64 }
    }
}

fn saturate(x: i128) -> (r: Fixed)
    ensures
        r == clip(x as int),
{
    if x > i64::MAX as i128 {
        Fixed { raw: i64::MAX }
    } else if x < i64::MIN as i128 {
        Fixed { raw: i64::MIN }
    } else {
        Fixed { raw: x as i64 }
    }
}

/// A representation shifted up by the fractional bits.
fn widen(raw: i64) -> (r: i128)
    ensures
        r == raw * ONE,
{
    raw as i128 * 0x1_0000_0000
}

/// Division that rounds toward negative infinity.
fn floor_div(a: i128, d: i128) -> (r: i128)
    requires
        -0x4000_0000_0000_0000_0000_0000_0000_0000 <= a <= 0x4000_0000_0000_0000_0000_0000_0000_0000,
        0 < d,
    ensures
        r == (a as int) / (d as int),
{
    if a >= 0 {
        a / d
    } else {
        let n: i128 = -a;
        let q: i128 = n / d;
        let rem: i128 = n % d;
        proof {
            lemma_fundamental_div_mod(n as int, d as int);
            assert(0 <= q <= n) by (nonlinear_arith)
                requires
                    n == d * q + rem,
                    0 <= rem < d,
                    0 < n,
                    0 < d,
            ;
            if rem == 0 {
                assert(a == d * (-q) + 0) by (nonlinear_arith)
                    requires
                        -a == d * q,
                ;
                lemma_fundamental_div_mod_converse(a as int, d as int, -q as int, 0);
            } else {
                assert(a == d * (-q - 1) + (d - rem)) by (nonlinear_arith)
                    requires
                        -a == d * q + rem,
                ;
                lemma_fundamental_div_mod_converse(a as int, d as int, -q - 1, d - rem);
            }
        }
        if rem == 0 {
            -q
        } else {
            -q - 1
        }
    }
}

/// `a * b`, rounded toward negative infinity.
pub open spec fn scaled_product(a: Fixed, b: Fixed) -> Fixed {
    clip((a.raw * b.raw) / (ONE as int))
}

/// `a / b`; division by zero saturates with the sign of `a`.
pub open spec fn scaled_quotient(a: Fixed, b: Fixed) -> Fixed {
    if b.raw == 0 {
        if a.raw == 0 {
            Fixed { raw: 0 }
        } else if a.raw > 0 {
            Fixed { raw: i64::MAX }
        } else {
            Fixed { raw: i64::MIN }
        }
    } else if b.raw > 0 {
        clip((a.raw * ONE) / (b.raw as int))
    } else {
        clip((-(a.raw * ONE)) / (-b.raw as int))
    }
}

/// The whole number `n`.
pub open spec fn whole_number(n: int) -> Fixed {
    clip(n * ONE)
}

/// `x` times ten to the `k`-th, one factor at a time.
pub open spec fn tens(x: Fixed, k: int) -> Fixed
    decreases (if k < 0 { -k } else { k }),
{
    if k == 0 {
        x
    } else if k > 0 {
        tens(scaled_product(x, whole_number(10)), k - 1)
    } else {
        tens(scaled_quotient(x, whole_number(10)), k + 1)
    }
}

/// The rest of the exponential series of `x` from term `k` on.
pub open spec fn exp_from(acc: Fixed, term: Fixed, x: Fixed, k: nat) -> Fixed
    decreases TERMS - k,
{
    if k >= TERMS {
        acc
    } else {
        let next = scaled_quotient(scaled_product(term, x), whole_number((k + 1) as int));
        exp_from(clip(acc.raw + next.raw), next, x, k + 1)
    }
}

/// The rest of a sine or cosine series; `xx` is the square of the argument.
pub open spec fn circular_from(acc: Fixed, term: Fixed, xx: Fixed, k: nat) -> Fixed
    decreases TERMS + 1 - k,
{
    if k >= TERMS {
        acc
    } else {
        let next = clip(
            -(scaled_quotient(scaled_product(term, xx), whole_number((k * (k + 1)) as int)).raw),
        );
        circular_from(clip(acc.raw + next.raw), next, xx, k + 2)
    }
}

/// Newton steps for the logarithm of `x` from the estimate `y`.
pub open spec fn ln_from(y: Fixed, x: Fixed, k: nat) -> Fixed
    decreases TERMS - k,
{
    if k >= TERMS {
        y
    } else {
        let e = exp_from(whole_number(1), whole_number(1), clip(-y.raw), 0);
        ln_from(clip(clip(y.raw + scaled_product(x, e).raw).raw - ONE), x, k + 1)
    }
}

/// Rotation steps for the angle of `(x, y)` from the estimate `a`.
pub open spec fn angle_from(a: Fixed, y: Fixed, x: Fixed, h: Fixed, k: nat) -> Fixed
    decreases TERMS - k,
{
    if k >= TERMS {
        a
    } else {
        let off = clip(
            scaled_product(y, a.cosine()).raw - scaled_product(x, a.sine()).raw,
        );
        angle_from(clip(a.raw + scaled_quotient(off, h).raw), y, x, h, k + 1)
    }
}

fn tens_of(x: Fixed, k: i32) -> (r: Fixed)
    ensures
        r == tens(x, k as int),
    decreases (if k < 0 { -(k as int) } else { k as int }),
{
    if k == 0 {
        x
    } else if k > 0 {
        let ten = Fixed::from_int(10);
        assert(x.prod(ten) == scaled_product(x, ten));
        tens_of(x.times(ten), k - 1)
    } else {
        let ten = Fixed::from_int(10);
        assert(x.quot(ten) == scaled_quotient(x, ten));
        tens_of(x.over(ten), k + 1)
    }
}

fn exp_series(acc: Fixed, term: Fixed, x: Fixed, k: u64) -> (r: Fixed)
    ensures
        r == exp_from(acc, term, x, k as nat),
    decreases TERMS - k,
{
    if k >= TERMS {
        acc
    } else {
        let next = term.times(x).over(Fixed::from_int((k + 1) as i64));
        exp_series(acc.plus(next), next, x, k + 1)
    }
}

fn circular_series(acc: Fixed, term: Fixed, xx: Fixed, k: u64) -> (r: Fixed)
    ensures
        r == circular_from(acc, term, xx, k as nat),
    decreases TERMS + 1 - k,
{
    if k >= TERMS {
        acc
    } else {
        assert(0 <= k * (k + 1) <= 0x1000) by (nonlinear_arith)
            requires
                0 <= k < 24,
        ;
        let next = term.times(xx).over(Fixed::from_int((k * (k + 1)) as i64)).neg();
        circular_series(acc.plus(next), next, xx, k + 2)
    }
}

fn ln_steps(y: Fixed, x: Fixed, k: u64) -> (r: Fixed)
    ensures
        r == ln_from(y, x, k as nat),
    decreases TERMS - k,
{
    if k >= TERMS {
        y
    } else {
        let e = exp_series(Fixed::from_int(1), Fixed::from_int(1), y.neg(), 0);
        ln_steps(y.plus(x.times(e)).minus(Fixed { raw: ONE }), x, k + 1)
    }
}

fn angle_steps(a: Fixed, y: Fixed, x: Fixed, h: Fixed, k: u64) -> (r: Fixed)
    ensures
        r == angle_from(a, y, x, h, k as nat),
    decreases TERMS - k,
{
    if k >= TERMS {
        a
    } else {
        let off = y.times(a.cos()).minus(x.times(a.sin()));
        angle_steps(a.plus(off.over(h)), y, x, h, k + 1)
    }
}

impl Fixed {
    /// The whole number `n`.
    pub fn from_int(n: i64) -> (r: Fixed)
        ensures
            r == whole_number(n as int),
    {
        saturate(widen(n))
    }
}

impl Real for Fixed {
    open spec fn sum(self, other: Self) -> Self {
        clip(self.raw + other.raw)
    }

    open spec fn diff(self, other: Self) -> Self {
        clip(self.raw - other.raw)
    }

    open spec fn prod(self, other: Self) -> Self {
        scaled_product(self, other)
    }

    open spec fn quot(self, other: Self) -> Self {
        scaled_quotient(self, other)
    }

    open spec fn opposite(self) -> Self {
        clip(-self.raw)
    }

    open spec fn magnitude(self) -> Self {
        if self.raw < 0 {
            clip(-self.raw)
        } else {
            self
        }
    }

    open spec fn signed_as(self, other: Self) -> Self {
        if other.raw < 0 {
            clip(-self.magnitude().raw)
        } else {
            self.magnitude()
        }
    }

    open spec fn ceiling(self) -> Self {
        clip(-((-self.raw) / (ONE as int)) * ONE)
    }

    open spec fn floored(self) -> Self {
        clip(((self.raw as int) / (ONE as int)) * ONE)
    }

    open spec fn rounded(self) -> Self {
        clip(((self.raw + ONE / 2) / (ONE as int)) * ONE)
    }

    open spec fn finite(self) -> bool {
        i64::MIN < self.raw < i64::MAX
    }

    open spec fn rank(self) -> int {
        self.raw as int
    }

    open spec fn odd_below(self, other: Self) -> bool {
        self.raw < other.raw
    }

    open spec fn odd_alike(self, other: Self) -> bool {
        self.raw == other.raw
    }

    open spec fn decimal_of(mantissa: int, exponent: int) -> Self {
        tens(whole_number(mantissa), exponent)
    }

    open spec fn natural(n: u64) -> Self {
        whole_number(n as int)
    }

    open spec fn whole(self) -> u64 {
        if self.raw < 0 {
            0
        } else {
            ((self.raw as int) / (ONE as int)) as u64
        }
    }

    open spec fn unbounded() -> Self {
        Fixed { raw: i64::MAX }
    }

    open spec fn sine(self) -> Self {
        circular_from(self, self, scaled_product(self, self), 2)
    }

    open spec fn cosine(self) -> Self {
        circular_from(whole_number(1), whole_number(1), scaled_product(self, self), 1)
    }

    open spec fn tangent(self) -> Self {
        scaled_quotient(self.sine(), self.cosine())
    }

    open spec fn root(self) -> Self {
        if self.raw <= 0 {
            Fixed { raw: 0 }
        } else {
            scaled_quotient(self.logarithm(), whole_number(2)).exponential()
        }
    }

    open spec fn hypotenuse(self, other: Self) -> Self {
        clip(scaled_product(self, self).raw + scaled_product(other, other).raw).root()
    }

    open spec fn angle(self, x: Self) -> Self {
        angle_from(Fixed { raw: 0 }, self, x, self.hypotenuse(x), 0)
    }

    open spec fn exponential(self) -> Self {
        exp_from(whole_number(1), whole_number(1), self, 0)
    }

    open spec fn logarithm(self) -> Self {
        if self.raw <= 0 {
            Fixed { raw: i64::MIN }
        } else {
            ln_from(Fixed { raw: 0 }, self, 0)
        }
    }

    open spec fn logarithm10(self) -> Self {
        scaled_quotient(self.logarithm(), whole_number(10).logarithm())
    }

    open spec fn power(self, exponent: Self) -> Self {
        scaled_product(exponent, self.logarithm()).exponential()
    }

    fn plus(self, other: Self) -> (r: Self) {
        saturate(self.raw as i128 + other.raw as i128)
    }

    fn minus(self, other: Self) -> (r: Self) {
        saturate(self.raw as i128 - other.raw as i128)
    }

    fn times(self, other: Self) -> (r: Self) {
        let a: i64 = self.raw;
        let b: i64 = other.raw;
        assert(-0x4000_0000_0000_0000_0000_0000_0000_0000 <= a * b
            <= 0x4000_0000_0000_0000_0000_0000_0000_0000) by (nonlinear_arith)
            requires
                -0x8000_0000_0000_0000 <= a <= 0x7fff_ffff_ffff_ffff,
                -0x8000_0000_0000_0000 <= b <= 0x7fff_ffff_ffff_ffff,
        ;
        let p: i128 = a as i128 * b as i128;
        assert(p == self.raw * other.raw);
        saturate(floor_div(p, ONE as i128))
    }

    fn over(self, other: Self) -> (r: Self) {
        if other.raw == 0 {
            if self.raw == 0 {
                Fixed { raw: 0 }
            } else if self.raw > 0 {
                Fixed { raw: i64::MAX }
            } else {
                Fixed { raw: i64::MIN }
            }
        } else if other.raw > 0 {
            saturate(floor_div(widen(self.raw), other.raw as i128))
        } else {
            let n: i128 = -widen(self.raw);
            let d: i128 = -(other.raw as i128);
            saturate(floor_div(n, d))
        }
    }

    fn neg(self) -> (r: Self) {
        saturate(-(self.raw as i128))
    }

    fn abs(self) -> (r: Self) {
        if self.raw < 0 {
            self.neg()
        } else {
            self
        }
    }

    fn copysign(self, other: Self) -> (r: Self) {
        if other.raw < 0 {
            self.abs().neg()
        } else {
            self.abs()
        }
    }

    fn ceil(self) -> (r: Self) {
        saturate(-floor_div(-(self.raw as i128), ONE as i128) * ONE as i128)
    }

    fn floor(self) -> (r: Self) {
        saturate(floor_div(self.raw as i128, ONE as i128) * ONE as i128)
    }

    fn round(self) -> (r: Self) {
        saturate(floor_div(self.raw as i128 + (ONE / 2) as i128, ONE as i128) * ONE as i128)
    }

    fn is_finite(self) -> (r: bool) {
        i64::MIN < self.raw && self.raw < i64::MAX
    }

    fn less(self, other: Self) -> (r: bool) {
        self.raw < other.raw
    }

    fn equals(self, other: Self) -> (r: bool) {
        self.raw == other.raw
    }

    fn decimal(mantissa: i64, exponent: i32) -> (r: Self) {
        tens_of(Fixed::from_int(mantissa), exponent)
    }

    fn from_u64(n: u64) -> (r: Self) {
        saturate(n as i128 * ONE as i128)
    }

    fn to_u64(self) -> (r: u64) {
        if self.raw < 0 {
            0
        } else {
            (self.raw / ONE) as u64
        }
    }

    fn infinity() -> (r: Self) {
        Fixed { raw: i64::MAX }
    }

    fn zero() -> (r: Self) {
        Fixed { raw: 0 }
    }

    fn one() -> (r: Self) {
        Fixed { raw: ONE }
    }

    fn sin(self) -> (r: Self) {
        circular_series(self, self, self.times(self), 2)
    }

    fn cos(self) -> (r: Self) {
        circular_series(Fixed::from_int(1), Fixed::from_int(1), self.times(self), 1)
    }

    fn tan(self) -> (r: Self) {
        self.sin().over(self.cos())
    }

    fn sqrt(self) -> (r: Self) {
        if self.raw <= 0 {
            Fixed { raw: 0 }
        } else {
            self.ln().over(Fixed::from_int(2)).exp()
        }
    }

    fn hypot(self, other: Self) -> (r: Self) {
        self.times(self).plus(other.times(other)).sqrt()
    }

    fn atan2(self, x: Self) -> (r: Self) {
        angle_steps(Fixed { raw: 0 }, self, x, self.hypot(x), 0)
    }

    fn exp(self) -> (r: Self) {
        exp_series(Fixed::from_int(1), Fixed::from_int(1), self, 0)
    }

    fn ln(self) -> (r: Self) {
        if self.raw <= 0 {
            Fixed { raw: i64::MIN }
        } else {
            ln_steps(Fixed { raw: 0 }, self, 0)
        }
    }

    fn log10(self) -> (r: Self) {
        self.ln().over(Fixed::from_int(10).ln())
    }

    fn pow(self, exponent: Self) -> (r: Self) {
        exponent.times(self.ln()).exp()
    }
}

/// The scaled difference of equal fixed-point numbers is zero.
pub proof fn fixed_point_corrects_by_zero()
    ensures
        zero_corrections::<Fixed>(),
{
    assert forall|a: Fixed, b: Fixed, c: Fixed| a.alike(b) implies {
        &&& a.finite() ==> (#[trigger] a.sum(b.diff(a).prod(c))).finite()
        &&& a.sum(b.diff(a).prod(c)).alike(b)
    } by {
        assert((0int * c.raw) / (ONE as int) == 0);
    }
}

/// Fixed-point sums are exact as long as they stay in range.
pub proof fn fixed_point_sums_exactly()
    ensures
        sums_exactly(|x: Fixed| Some(x.raw as int), i64::MAX as int),
{
    reveal(sums_exactly);
}

/// The real number that a fixed-point number stands for.
pub open spec fn reading() -> spec_fn(Fixed) -> real {
    |x: Fixed| x.raw as real / 4294967296real
}

/// `x` is `k` steps of the representation, inside its range.
pub open spec fn steps(x: real, k: int) -> bool {
    x * 4294967296real == k as real && -i64::MAX < k < i64::MAX
}

/// A real number that fixed point represents.
pub open spec fn representable() -> spec_fn(real) -> bool {
    |x: real| exists|k: int| #[trigger] steps(x, k)
}

/// Fixed-point arithmetic is exact wherever its result is representable.
pub proof fn fixed_point_is_exact()
    ensures
        exact::<Fixed>(reading(), representable()),
        ordered::<Fixed>(reading(), representable()),
{
    let (of, fits) = (reading(), representable());
    assert forall|a: Fixed, b: Fixed| fits(of(a) + of(b)) implies of(#[trigger] a.sum(b)) == of(a)
        + of(b) by {
        let k = choose|k: int| #[trigger] steps(of(a) + of(b), k);
        assert((a.raw + b.raw) as real == k as real);
    }
    assert forall|a: Fixed, b: Fixed| fits(of(a) - of(b)) implies of(#[trigger] a.diff(b)) == of(a)
        - of(b) by {
        let k = choose|k: int| #[trigger] steps(of(a) - of(b), k);
        assert((a.raw - b.raw) as real == k as real);
    }
    assert forall|a: Fixed, b: Fixed| fits(of(a) * of(b)) implies of(#[trigger] a.prod(b)) == of(a)
        * of(b) by {
        let k = choose|k: int| #[trigger] steps(of(a) * of(b), k);
        lemma_exact_product(a, b, k);
    }
    assert forall|a: Fixed, b: Fixed| of(b) != 0real && fits(of(a) / of(b)) implies of(
        #[trigger] a.quot(b),
    ) == of(a) / of(b) by {
        let k = choose|k: int| #[trigger] steps(of(a) / of(b), k);
        lemma_exact_quotient(a, b, k);
    }
    assert forall|a: Fixed| fits(-of(a)) implies of(#[trigger] a.opposite()) == -of(a) by {
        let k = choose|k: int| #[trigger] steps(-of(a), k);
        assert((-a.raw) as real == k as real);
    }
    assert forall|m: int| fits(m as real) implies of(#[trigger] Fixed::decimal_of(m, 0))
        == m as real by {
        let k = choose|k: int| #[trigger] steps(m as real, k);
        assert((m * 4294967296) as real == k as real);
    }
    assert forall|n: u64| fits(n as real) implies of(#[trigger] Fixed::natural(n)) == n as real by {
        let k = choose|k: int| #[trigger] steps(n as real, k);
        assert((n * 4294967296) as real == k as real);
    }
    assert(of(Fixed::decimal_of(5, -1)) == 1real / 2real) by {
        reveal_with_fuel(tens, 2);
        assert(whole_number(5).raw == 5 * ONE && whole_number(10).raw == 10 * ONE);
        assert((5 * ONE * ONE) / (10 * ONE) == 0x8000_0000) by (nonlinear_arith)
            requires
                ONE == 0x1_0000_0000,
        ;
    }
    assert forall|a: Fixed, b: Fixed|
        #![trigger a.rank(), b.rank()]
        a.finite() && b.finite() implies {
        &&& a.rank() < b.rank() <==> of(a) < of(b)
        &&& a.rank() == b.rank() <==> of(a) == of(b)
    } by {
        assert(a.raw < b.raw <==> (a.raw as real) < b.raw as real);
    }
    assert forall|a: Fixed| fits(of(a)) implies {
        &&& a.finite()
        &&& (#[trigger] a.magnitude()).finite()
        &&& of(a.magnitude()) == size(of(a))
    } by {
        let k = choose|k: int| #[trigger] steps(of(a), k);
        assert(a.raw as real == k as real);
    }
}

proof fn lemma_exact_product(a: Fixed, b: Fixed, k: int)
    requires
        steps(reading()(a) * reading()(b), k),
    ensures
        reading()(a.prod(b)) == reading()(a) * reading()(b),
{
    let (x, y) = (a.raw as int, b.raw as int);
    let p = x * y;
    assert((x * y) as real == x as real * y as real) by (nonlinear_arith);
    assert(p as real == k as real * 4294967296real) by (nonlinear_arith)
        requires
            p as real == x as real * y as real,
            (x as real / 4294967296real) * (y as real / 4294967296real) * 4294967296real
                == k as real,
    ;
    assert(p == k * 4294967296);
    lemma_fundamental_div_mod_converse(p, ONE as int, k, 0);
    assert(a.prod(b).raw == k);
}

proof fn lemma_exact_quotient(a: Fixed, b: Fixed, k: int)
    requires
        b.raw != 0,
        steps(reading()(a) / reading()(b), k),
    ensures
        reading()(a.quot(b)) == reading()(a) / reading()(b),
{
    let (x, y) = (a.raw as int, b.raw as int);
    let (rx, ry) = (reading()(a), reading()(b));
    let q = rx / ry;
    assert(ry != 0real);
    assert(q * ry == rx) by (nonlinear_arith)
        requires
            ry != 0real,
            q == rx / ry,
    ;
    assert(k as real * y as real == x as real * 4294967296real) by (nonlinear_arith)
        requires
            q * ry == rx,
            q * 4294967296real == k as real,
            rx * 4294967296real == x as real,
            ry * 4294967296real == y as real,
    ;
    assert((k * y) as real == k as real * y as real) by (nonlinear_arith);
    assert((k * y) as real == (x * 4294967296) as real);
    if y > 0 {
        lemma_fundamental_div_mod_converse(x * ONE, y, k, 0);
    } else {
        assert(-(x * ONE) == k * (-y)) by (nonlinear_arith)
            requires
                k * y == x * 4294967296,
                ONE == 4294967296,
        ;
        lemma_fundamental_div_mod_converse(-(x * ONE), -y, k, 0);
    }
    assert(a.quot(b).raw == k);
}

proof fn lemma_series_of_zero(acc: Fixed, term: Fixed, k: nat)
    ensures
        exp_from(acc, term, Fixed { raw: 0 }, k) == acc,
    decreases TERMS - k,
{
    if k < TERMS {
        let x = Fixed { raw: 0 };
        assert(term.raw * 0 == 0);
        assert(scaled_product(term, x) == x);
        let d = whole_number((k + 1) as int);
        assert(d.raw > 0);
        assert((0 * ONE) / (d.raw as int) == 0) by {
            vstd::arithmetic::div_mod::lemma_div_basics(d.raw as int);
        }
        assert(scaled_quotient(x, d) == x);
        lemma_series_of_zero(acc, x, k + 1);
    }
}

/// Multiplying or dividing by one changes no fixed-point number, and no gain in decibels
/// is an amplitude of one.
pub proof fn fixed_point_unity(x: Fixed)
    ensures
        x.prod(unit()) == x,
        x.quot(unit()) == x,
        Fixed::decimal_of(10, 0).power(nil::<Fixed>().quot(Fixed::decimal_of(40, 0))) == unit::<
            Fixed,
        >(),
{
    assert((x.raw * ONE) / (ONE as int) == x.raw) by {
        lemma_fundamental_div_mod_converse(x.raw * ONE, ONE as int, x.raw as int, 0);
    }
    let zero = nil::<Fixed>();
    let forty = Fixed::decimal_of(40, 0);
    assert((0 * ONE) / (forty.raw as int) == 0) by {
        vstd::arithmetic::div_mod::lemma_div_basics(forty.raw as int);
    }
    assert(zero.quot(forty) == zero);
    let ln10 = Fixed::decimal_of(10, 0).logarithm();
    assert(0 * ln10.raw == 0);
    assert(zero.prod(ln10) == zero);
    lemma_series_of_zero(unit(), unit(), 0);
}

impl Sample for Fixed {
    type Real = Fixed;

    open spec fn value(self) -> Fixed {
        self
    }

    open spec fn stored(x: Fixed) -> Self {
        x
    }

    fn to_real(self) -> (r: Fixed) {
        self
    }

    fn from_real(x: Fixed) -> (r: Self) {
        x
    }
}

/// One factor of ten less is a tenth, rounded down.
proof fn lemma_tenth(a: int, k: int)
    requires
        0 <= a <= 0x1_0000_0000,
        k < 0,
    ensures
        tens(Fixed { raw: a as i64 }, k) == tens(Fixed { raw: (a / 10) as i64 }, k + 1),
{
    let (q, r) = (a / 10, a % 10);
    assert(a * ONE == q * (10 * ONE) + r * ONE) by (nonlinear_arith)
        requires
            a == 10 * q + r,
    ;
    lemma_fundamental_div_mod_converse(a * ONE, 10 * ONE, q, r * ONE);
    assert(scaled_quotient(Fixed { raw: a as i64 }, whole_number(10)) == (Fixed {
        raw: (a / 10) as i64,
    }));
}

proof fn lemma_tens_of_zero(k: int)
    requires
        k <= 0,
    ensures
        tens(Fixed { raw: 0 }, k) == (Fixed { raw: 0 }),
    decreases -k,
{
    if k < 0 {
        lemma_tenth(0, k);
        lemma_tens_of_zero(k + 1);
    }
}

/// The denormal floor is below the smallest step, so that flushing changes no finite
/// fixed-point number.
pub proof fn fixed_point_flushes_nothing(x: Fixed)
    ensures
        Fixed::decimal_of(1, -30) == (Fixed { raw: 0 }),
        flushed(x) == sane(x),
{
    assert(whole_number(1) == (Fixed { raw: ONE }));
    lemma_tenth(4294967296, -30);
    lemma_tenth(429496729, -29);
    lemma_tenth(42949672, -28);
    lemma_tenth(4294967, -27);
    lemma_tenth(429496, -26);
    lemma_tenth(42949, -25);
    lemma_tenth(4294, -24);
    lemma_tenth(429, -23);
    lemma_tenth(42, -22);
    lemma_tenth(4, -21);
    lemma_tens_of_zero(-20);
    assert(nil::<Fixed>().raw == 0);
}

} // verus!
