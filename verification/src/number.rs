//! The arithmetic that every processor computes with.
//!
//! Processors are written against [`Real`] instead of one concrete number type.
//! A host chooses the implementation: binary floating point in a desktop
//! application, [`Fixed`](crate::fixed::Fixed) where no floating-point unit is
//! available. Contracts name the result of each operation by the operation's
//! spec function, so they fix which operations are performed, on which
//! operands, and in which order.

use vstd::prelude::*;

verus! {

/// A number with deterministic arithmetic.
///
/// Each executable operation returns the value of its spec function: equal
/// operands give equal results. Nothing more is said of rounding. Finite numbers
/// are ordered by their [`rank`](Real::rank); a value outside them (an infinity
/// or a not-a-number) may compare false with everything, including itself.
pub trait Real: Copy {
    open spec fn sum(self, other: Self) -> Self {
        arbitrary()
    }

    open spec fn diff(self, other: Self) -> Self {
        arbitrary()
    }

    open spec fn prod(self, other: Self) -> Self {
        arbitrary()
    }

    open spec fn quot(self, other: Self) -> Self {
        arbitrary()
    }

    open spec fn opposite(self) -> Self {
        arbitrary()
    }

    open spec fn magnitude(self) -> Self {
        arbitrary()
    }

    /// The magnitude of `self` with the sign of `other`.
    open spec fn signed_as(self, other: Self) -> Self {
        arbitrary()
    }

    open spec fn ceiling(self) -> Self {
        arbitrary()
    }

    open spec fn floored(self) -> Self {
        arbitrary()
    }

    open spec fn rounded(self) -> Self {
        arbitrary()
    }

    open spec fn finite(self) -> bool {
        arbitrary()
    }

    /// The place of a finite number among the finite numbers.
    open spec fn rank(self) -> int {
        arbitrary()
    }

    /// The answer of `self < other` where one of them is not finite.
    open spec fn odd_below(self, other: Self) -> bool {
        arbitrary()
    }

    /// The answer of `self == other` where one of them is not finite.
    open spec fn odd_alike(self, other: Self) -> bool {
        arbitrary()
    }

    /// The number closest to `mantissa * 10^exponent`.
    open spec fn decimal_of(mantissa: int, exponent: int) -> Self {
        arbitrary()
    }

    /// The number closest to `n`.
    open spec fn natural(n: u64) -> Self {
        arbitrary()
    }

    /// The whole part of `self`, brought into the range of `u64`.
    open spec fn whole(self) -> u64 {
        arbitrary()
    }

    /// Positive infinity, or the largest number where there is none.
    open spec fn unbounded() -> Self {
        arbitrary()
    }

    open spec fn sine(self) -> Self {
        arbitrary()
    }

    open spec fn cosine(self) -> Self {
        arbitrary()
    }

    open spec fn tangent(self) -> Self {
        arbitrary()
    }

    open spec fn root(self) -> Self {
        arbitrary()
    }

    open spec fn hypotenuse(self, other: Self) -> Self {
        arbitrary()
    }

    /// The angle of the point with ordinate `self` and abscissa `x`.
    open spec fn angle(self, x: Self) -> Self {
        arbitrary()
    }

    open spec fn exponential(self) -> Self {
        arbitrary()
    }

    open spec fn logarithm(self) -> Self {
        arbitrary()
    }

    open spec fn logarithm10(self) -> Self {
        arbitrary()
    }

    open spec fn power(self, exponent: Self) -> Self {
        arbitrary()
    }

    fn plus(self, other: Self) -> (r: Self)
        ensures
            r == self.sum(other),
    ;

    fn minus(self, other: Self) -> (r: Self)
        ensures
            r == self.diff(other),
    ;

    fn times(self, other: Self) -> (r: Self)
        ensures
            r == self.prod(other),
    ;

    fn over(self, other: Self) -> (r: Self)
        ensures
            r == self.quot(other),
    ;

    fn neg(self) -> (r: Self)
        ensures
            r == self.opposite(),
    ;

    fn abs(self) -> (r: Self)
        ensures
            r == self.magnitude(),
    ;

    fn copysign(self, other: Self) -> (r: Self)
        ensures
            r == self.signed_as(other),
    ;

    fn ceil(self) -> (r: Self)
        ensures
            r == self.ceiling(),
    ;

    fn floor(self) -> (r: Self)
        ensures
            r == self.floored(),
    ;

    fn round(self) -> (r: Self)
        ensures
            r == self.rounded(),
    ;

    fn is_finite(self) -> (r: bool)
        ensures
            r == self.finite(),
    ;

    fn less(self, other: Self) -> (r: bool)
        ensures
            r == (if self.finite() && other.finite() {
                self.rank() < other.rank()
            } else {
                self.odd_below(other)
            }),
    ;

    fn equals(self, other: Self) -> (r: bool)
        ensures
            r == (if self.finite() && other.finite() {
                self.rank() == other.rank()
            } else {
                self.odd_alike(other)
            }),
    ;

    fn decimal(mantissa: i64, exponent: i32) -> (r: Self)
        ensures
            r == Self::decimal_of(mantissa as int, exponent as int),
    ;

    fn from_u64(n: u64) -> (r: Self)
        ensures
            r == Self::natural(n),
    ;

    fn to_u64(self) -> (r: u64)
        ensures
            r == self.whole(),
    ;

    fn infinity() -> (r: Self)
        ensures
            r == Self::unbounded(),
    ;

    fn sin(self) -> (r: Self)
        ensures
            r == self.sine(),
    ;

    fn cos(self) -> (r: Self)
        ensures
            r == self.cosine(),
    ;

    fn tan(self) -> (r: Self)
        ensures
            r == self.tangent(),
    ;

    fn sqrt(self) -> (r: Self)
        ensures
            r == self.root(),
    ;

    fn hypot(self, other: Self) -> (r: Self)
        ensures
            r == self.hypotenuse(other),
    ;

    fn atan2(self, x: Self) -> (r: Self)
        ensures
            r == self.angle(x),
    ;

    fn exp(self) -> (r: Self)
        ensures
            r == self.exponential(),
    ;

    fn ln(self) -> (r: Self)
        ensures
            r == self.logarithm(),
    ;

    fn log10(self) -> (r: Self)
        ensures
            r == self.logarithm10(),
    ;

    fn pow(self, exponent: Self) -> (r: Self)
        ensures
            r == self.power(exponent),
    ;

    fn zero() -> (r: Self)
        ensures
            r == Self::decimal_of(0, 0),
            r.finite(),
    ;

    fn one() -> (r: Self)
        ensures
            r == Self::decimal_of(1, 0),
            r.finite(),
            Self::decimal_of(0, 0).finite(),
            Self::decimal_of(0, 0).rank() < r.rank(),
    ;

    /// The floor under which recursive state counts as silence.
    fn denormal_floor() -> (r: Self)
        ensures
            r == Self::decimal_of(1, -30),
    {
        Self::decimal(1, -30)
    }
}

/// The order of numbers, as their comparisons answer it.
pub trait Order: Real {
    spec fn below(self, other: Self) -> bool;

    spec fn alike(self, other: Self) -> bool;
}

impl<R: Real> Order for R {
    open spec fn below(self, other: Self) -> bool {
        if self.finite() && other.finite() {
            self.rank() < other.rank()
        } else {
            self.odd_below(other)
        }
    }

    open spec fn alike(self, other: Self) -> bool {
        if self.finite() && other.finite() {
            self.rank() == other.rank()
        } else {
            self.odd_alike(other)
        }
    }
}

/// The buffer element type.
///
/// Processors compute in [`Sample::Real`]; the sample type is storage, so the
/// trait provides conversion alone.
pub trait Sample: Copy {
    type Real: Real;

    /// The number that a stored sample stands for.
    open spec fn value(self) -> Self::Real {
        arbitrary()
    }

    /// The stored sample for a computed number.
    open spec fn stored(x: Self::Real) -> Self {
        arbitrary()
    }

    fn to_real(self) -> (r: Self::Real)
        ensures
            r == self.value(),
    ;

    fn from_real(x: Self::Real) -> (r: Self)
        ensures
            r == Self::stored(x),
    ;
}

/// The number zero.
pub open spec fn nil<R: Real>() -> R {
    R::decimal_of(0, 0)
}

/// The number one.
pub open spec fn unit<R: Real>() -> R {
    R::decimal_of(1, 0)
}

/// `a` is at most `b`.
pub open spec fn at_most<R: Real>(a: R, b: R) -> bool {
    a.below(b) || a.alike(b)
}

/// The larger operand, or the one that is a number where only one is.
pub open spec fn larger<R: Real>(a: R, b: R) -> R {
    if !a.alike(a) {
        b
    } else if !b.alike(b) {
        a
    } else if a.below(b) {
        b
    } else {
        a
    }
}

/// The smaller operand, or the one that is a number where only one is.
pub open spec fn smaller<R: Real>(a: R, b: R) -> R {
    if !a.alike(a) {
        b
    } else if !b.alike(b) {
        a
    } else if b.below(a) {
        b
    } else {
        a
    }
}

/// `x` brought into `[lo, hi]`.
pub open spec fn clamped<R: Real>(x: R, lo: R, hi: R) -> R {
    if x.below(lo) {
        lo
    } else if hi.below(x) {
        hi
    } else {
        x
    }
}

/// `x` lies in `[lo, hi]`.
pub open spec fn within<R: Real>(x: R, lo: R, hi: R) -> bool {
    !x.below(lo) && !hi.below(x)
}

pub fn at_most_of<R: Real>(a: R, b: R) -> (r: bool)
    ensures
        r == at_most(a, b),
{
    a.less(b) || a.equals(b)
}

pub fn max_of<R: Real>(a: R, b: R) -> (r: R)
    ensures
        r == larger(a, b),
{
    if !a.equals(a) {
        b
    } else if !b.equals(b) {
        a
    } else if a.less(b) {
        b
    } else {
        a
    }
}

pub fn min_of<R: Real>(a: R, b: R) -> (r: R)
    ensures
        r == smaller(a, b),
{
    if !a.equals(a) {
        b
    } else if !b.equals(b) {
        a
    } else if b.less(a) {
        b
    } else {
        a
    }
}

/// Bring `x` into `[lo, hi]`.
pub fn clamp_to<R: Real>(x: R, lo: R, hi: R) -> (r: R)
    ensures
        r == clamped(x, lo, hi),
        lo.finite() && hi.finite() && at_most(lo, hi) ==> within(r, lo, hi),
{
    if x.less(lo) {
        lo
    } else if hi.less(x) {
        hi
    } else {
        x
    }
}

/// The whole part of `x`, brought into the range of `usize`.
pub open spec fn whole_usize<R: Real>(x: R) -> usize {
    if x.whole() > usize::MAX {
        usize::MAX
    } else {
        x.whole() as usize
    }
}

pub fn to_usize<R: Real>(x: R) -> (r: usize)
    ensures
        r == whole_usize(x),
{
    let n: u64 = x.to_u64();
    if n > usize::MAX as u64 {
        usize::MAX
    } else {
        n as usize
    }
}

/// A number clamped to finite bounds lies within them.
pub proof fn clamped_is_within<R: Real>(x: R, lo: R, hi: R)
    requires
        lo.finite(),
        hi.finite(),
        at_most(lo, hi),
    ensures
        within(clamped(x, lo, hi), lo, hi),
        x.finite() ==> clamped(x, lo, hi).finite(),
{
}

/// The scaled difference of like numbers corrects a number by nothing.
pub open spec fn zero_corrections<R: Real>() -> bool {
    forall|a: R, b: R, c: R|
        a.finite() && b.finite() && c.finite() && a.alike(b) ==> {
            &&& (#[trigger] a.sum(b.diff(a).prod(c))).finite()
            &&& a.sum(b.diff(a).prod(c)).alike(b)
        }
}

// ---------------------------------------------------------------------------
// Exact numbers
// ---------------------------------------------------------------------------

/// Arithmetic that loses nothing where a result fits: `of` reads a number as a real
/// number, and an operation whose true result satisfies `fits` gives that result.
pub open spec fn exact<R: Real>(of: spec_fn(R) -> real, fits: spec_fn(real) -> bool) -> bool {
    &&& forall|a: R, b: R| fits(of(a) + of(b)) ==> of(#[trigger] a.sum(b)) == of(a) + of(b)
    &&& forall|a: R, b: R| fits(of(a) - of(b)) ==> of(#[trigger] a.diff(b)) == of(a) - of(b)
    &&& forall|a: R, b: R| fits(of(a) * of(b)) ==> of(#[trigger] a.prod(b)) == of(a) * of(b)
    &&& forall|a: R, b: R|
        of(b) != 0real && fits(of(a) / of(b)) ==> of(#[trigger] a.quot(b)) == of(a) / of(b)
    &&& forall|a: R| fits(-of(a)) ==> of(#[trigger] a.opposite()) == -of(a)
    &&& forall|m: int| fits(m as real) ==> of(#[trigger] R::decimal_of(m, 0)) == m as real
    &&& forall|n: u64| fits(n as real) ==> of(#[trigger] R::natural(n)) == n as real
    &&& fits(1real / 2real) ==> of(R::decimal_of(5, -1)) == 1real / 2real
}

/// Finite numbers compare as the real numbers that they are read as, the magnitude of a
/// number is that of its reading, and what fits is finite.
pub open spec fn ordered<R: Real>(of: spec_fn(R) -> real, fits: spec_fn(real) -> bool) -> bool {
    &&& forall|a: R, b: R|
        #![trigger a.rank(), b.rank()]
        a.finite() && b.finite() ==> {
            &&& a.rank() < b.rank() <==> of(a) < of(b)
            &&& a.rank() == b.rank() <==> of(a) == of(b)
        }
    &&& forall|a: R|
        fits(of(a)) ==> {
            &&& a.finite()
            &&& (#[trigger] a.magnitude()).finite()
            &&& of(a.magnitude()) == size(of(a))
        }
}

/// The magnitude of a real number.
pub open spec fn size(x: real) -> real {
    if x < 0real {
        -x
    } else {
        x
    }
}

/// Finite numbers compare as they are read.
pub proof fn lemma_compare<R: Real>(
    a: R,
    b: R,
    of: spec_fn(R) -> real,
    fits: spec_fn(real) -> bool,
)
    requires
        ordered::<R>(of, fits),
        a.finite() || fits(of(a)),
        b.finite() || fits(of(b)),
    ensures
        a.finite() && b.finite(),
        a.below(b) <==> of(a) < of(b),
        a.alike(b) <==> of(a) == of(b),
        at_most(a, b) <==> of(a) <= of(b),
        fits(of(a)) ==> a.magnitude().finite() && of(a.magnitude()) == size(of(a)),
{
    if fits(of(a)) {
        assert(a.magnitude().finite());
    }
    if fits(of(b)) {
        assert(b.magnitude().finite());
    }
    assert(a.rank() < b.rank() <==> of(a) < of(b));
}

/// The readings of zero and one.
pub proof fn lemma_readings<R: Real>(of: spec_fn(R) -> real, fits: spec_fn(real) -> bool)
    requires
        exact::<R>(of, fits),
    ensures
        fits(0real) ==> of(nil::<R>()) == 0real,
        fits(1real) ==> of(unit::<R>()) == 1real,
{
    assert(0int as real == 0real && 1int as real == 1real);
}

/// Arithmetic that never rounds, as `of` reads it.
pub open spec fn unrounded<R: Real>(of: spec_fn(R) -> real) -> bool {
    exact::<R>(of, |x: real| true)
}

/// What never rounding says of each operation.
pub proof fn lemma_unrounded<R: Real>(of: spec_fn(R) -> real)
    requires
        unrounded::<R>(of),
    ensures
        forall|a: R, b: R| of(#[trigger] a.sum(b)) == of(a) + of(b),
        forall|a: R, b: R| of(#[trigger] a.diff(b)) == of(a) - of(b),
        forall|a: R, b: R| of(#[trigger] a.prod(b)) == of(a) * of(b),
        forall|a: R, b: R| of(b) != 0real ==> of(#[trigger] a.quot(b)) == of(a) / of(b),
        forall|a: R| of(#[trigger] a.opposite()) == -of(a),
        of(R::decimal_of(0, 0)) == 0real,
        of(R::decimal_of(1, 0)) == 1real,
        of(R::decimal_of(2, 0)) == 2real,
        of(R::decimal_of(-2, 0)) == -2real,
        of(R::decimal_of(5, -1)) == 1real / 2real,
{
    let fits = |x: real| true;
    assert(exact::<R>(of, fits));
    assert(fits(0int as real) && fits(1int as real) && fits(2int as real) && fits(
        (-2int) as real,
    ));
    assert((-2int) as real == -2real && 2int as real == 2real && 1int as real == 1real);
}

/// A quotient times its divisor.
pub proof fn lemma_ratio(q: real, a: real, b: real)
    requires
        b != 0real,
        q == a / b,
    ensures
        q * b == a,
{
    assert(q * b == a) by (nonlinear_arith)
        requires
            b != 0real,
            q == a / b,
    ;
}

/// A factor that is not zero cancels.
pub proof fn lemma_cancel(x: real, y: real, d: real)
    requires
        x * d == y * d,
        d != 0real,
    ensures
        x == y,
{
    assert(x == y) by (nonlinear_arith)
        requires
            x * d == y * d,
            d != 0real,
    ;
}

/// `ln` turns the product and the quotient of `x` and `y` into sum and difference.
pub open spec fn splits(ln: spec_fn(real) -> real, x: real, y: real) -> bool {
    x > 0real && y > 0real ==> ln(x * y) == ln(x) + ln(y) && ln(x / y) == ln(x) - ln(y)
}

/// The logarithm and the exponential are exact: `ln` is the logarithm of readings, which the
/// exponential undoes.
pub open spec fn logarithmic<R: Real>(of: spec_fn(R) -> real, ln: spec_fn(real) -> real) -> bool {
    &&& forall|a: R| of(a) > 0real ==> of(#[trigger] a.logarithm()) == ln(of(a))
    &&& forall|a: R|
        of(#[trigger] a.exponential()) > 0real && ln(of(a.exponential())) == of(a)
    &&& forall|x: real, y: real| #[trigger] splits(ln, x, y)
}

} // verus!
