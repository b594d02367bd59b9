//! Which frequencies a spectral band filter keeps.

use crate::fixed::{clip, Fixed, ONE};
use crate::number::{larger, nil, whole_usize, Real};
use crate::spectral::band::banded;
use crate::spectral::fft::Complex;
use crate::spectral::spectral_filter::SpectralFilterSettings;
use vstd::arithmetic::div_mod::lemma_div_pos_is_pos;
use vstd::arithmetic::div_mod::lemma_fundamental_div_mod;
use vstd::arithmetic::div_mod::lemma_fundamental_div_mod_converse;
use vstd::prelude::*;

verus! {

/// `q` whole steps of `h`, where `size` times `h` is the rate, are `q` whole parts of the rate.
proof fn lemma_bin_quotient(x: int, rate: int, size: int, h: int, q: int)
    requires
        0 < rate,
        0 < size,
        0 < h,
        h * size == rate * ONE,
        q == (x * ONE) / h,
    ensures
        q * rate <= x * size < (q + 1) * rate,
{
    lemma_fundamental_div_mod(x * ONE, h);
    let r = (x * ONE) % h;
    assert(0 <= r < h);
    assert((h * q + r) * size == (h * size) * q + r * size) by (nonlinear_arith);
    assert(0 <= r * size < h * size) by (nonlinear_arith)
        requires
            0 <= r < h,
            0 < size,
    ;
    assert((x * 0x1_0000_0000) * size == 0x1_0000_0000 * (x * size)) by (nonlinear_arith);
    assert((rate * 0x1_0000_0000) * q == 0x1_0000_0000 * (q * rate)) by (nonlinear_arith);
    assert((q + 1) * rate == q * rate + rate) by (nonlinear_arith);
}

/// `q` is above `b` steps exactly where `x` parts are.
proof fn lemma_bin_side(x: int, rate: int, size: int, q: int, k: int)
    requires
        0 < rate,
        q * rate <= x * size < (q + 1) * rate,
    ensures
        q >= k <==> x * size >= k * rate,
        q <= k <==> x * size < (k + 1) * rate,
        (x * size) % rate == 0 ==> (q <= k <==> x * size <= k * rate),
{
    if q >= k {
        assert(q * rate >= k * rate) by (nonlinear_arith)
            requires
                q >= k,
                0 < rate,
        ;
    } else {
        assert((q + 1) * rate <= k * rate) by (nonlinear_arith)
            requires
                q + 1 <= k,
                0 < rate,
        ;
    }
    if q <= k {
        assert((q + 1) * rate <= (k + 1) * rate) by (nonlinear_arith)
            requires
                q <= k,
                0 < rate,
        ;
        assert(q * rate <= k * rate) by (nonlinear_arith)
            requires
                q <= k,
                0 < rate,
        ;
    } else {
        assert(q * rate >= (k + 1) * rate) by (nonlinear_arith)
            requires
                q >= k + 1,
                0 < rate,
        ;
        assert((k + 1) * rate == k * rate + rate) by (nonlinear_arith);
    }
    if (x * size) % rate == 0 {
        lemma_fundamental_div_mod(x * size, rate);
        let w = (x * size) / rate;
        assert(x * size == w * rate) by (nonlinear_arith)
            requires
                x * size == rate * w + 0,
        ;
        assert(w == q) by (nonlinear_arith)
            requires
                q * rate <= w * rate < (q + 1) * rate,
                0 < rate,
        ;
    }
}

/// The frequency of bin `b` at `rate`, in steps of the representation, times the size.
pub open spec fn bin_frequency(rate: u32, b: int) -> int {
    b * ONE * rate
}

/// A band keeps the bins whose frequencies lie in it. On fixed-point numbers, at a rate of
/// which the size makes whole parts, bin `b` stands at `b * rate / size`: it is at most
/// the last bin kept exactly if that is at most `high_hz`, and at least the first one kept
/// exactly if it is at least `low_hz`, where `low_hz` is a whole number of steps of a bin;
/// otherwise the two may differ by less than one step of the representation. Kept bins
/// pass through the filter as they are, and the others are silenced.
pub proof fn bands_keep_their_frequencies(
    settings: SpectralFilterSettings<Fixed>,
    rate: u32,
    bins: Seq<Complex<Fixed>>,
    b: int,
)
    requires
        settings.fault() is None,
        1 <= rate < 0x8000_0000,
        settings.size < 0x8000_0000,
        (rate * ONE) % (settings.size as int) == 0,
        0 <= b <= settings.size as int / 2,
        b < bins.len(),
    ensures
        ({
            let plan = settings.plan(rate);
            let (low, high) = (settings.low_hz.raw, settings.high_hz.raw);
            let size = settings.size as int;
            let kept = banded(bins, plan.lo, plan.hi)[b];
            &&& b <= plan.hi <==> bin_frequency(rate, b) <= high * size
            &&& plan.lo <= b <==> low * size < bin_frequency(rate, b) + rate
            &&& (low * size) % (rate as int) == 0 ==> (plan.lo <= b <==> low * size
                <= bin_frequency(rate, b))
            &&& low * size <= bin_frequency(rate, b) <= high * size ==> kept == bins[b]
            &&& bin_frequency(rate, b) + rate <= low * size || high * size < bin_frequency(rate, b)
                ==> kept == (Complex { re: nil::<Fixed>(), im: nil::<Fixed>() })
        }),
{
    let plan = settings.plan(rate);
    let (low, high) = (settings.low_hz.raw as int, settings.high_hz.raw as int);
    let size = settings.size as int;
    let (rate_of, span_of) = (Fixed::natural(rate as u64), Fixed::natural(settings.size as u64));
    assert(nil::<Fixed>().raw == 0);
    assert(rate_of.raw == rate * ONE && span_of.raw == size * ONE);
    let h = (rate * ONE) / size;
    lemma_fundamental_div_mod(rate * ONE, size);
    assert(h * size == rate * ONE) by (nonlinear_arith)
        requires
            rate * ONE == size * h + 0,
    ;
    assert(0 < h <= rate * ONE) by (nonlinear_arith)
        requires
            h * size == rate * ONE,
            size >= 1,
            rate >= 1,
            ONE == 0x1_0000_0000,
    ;
    assert(((rate * ONE) * ONE) == (size * ONE) * h) by (nonlinear_arith)
        requires
            h * size == rate * ONE,
    ;
    lemma_fundamental_div_mod_converse((rate * ONE) * ONE, size * ONE, h, 0);
    let hz = rate_of.quot(span_of);
    assert(hz.raw == h);
    let q = (low * ONE) / h;
    let p = (high * ONE) / h;
    lemma_bin_quotient(low, rate as int, size, h, q);
    lemma_bin_quotient(high, rate as int, size, h, p);
    lemma_bin_side(low, rate as int, size, q, b * ONE);
    lemma_bin_side(high, rate as int, size, p, b * ONE);
    assert((b * ONE + 1) * rate == b * ONE * rate + rate) by (nonlinear_arith);
    assert(0 <= q && 0 <= p) by {
        lemma_div_pos_is_pos(low * ONE, h);
        lemma_div_pos_is_pos(high * ONE, h);
    }
    let at = settings.low_hz.quot(hz);
    assert(at == clip(q));
    lemma_ceiling(at, b);
    let top = settings.high_hz.quot(hz);
    assert(top == clip(p));
    lemma_floor(top, b);
}

/// A place at or above zero, rounded up to a whole bin, is at most bin `b` exactly if it is.
proof fn lemma_ceiling(at: Fixed, b: int)
    requires
        0 <= at.raw,
        0 <= b < 0x4000_0000,
    ensures
        whole_usize(larger(at.ceiling(), nil())) <= b <==> at.raw <= b * ONE,
{
    let q = at.raw as int;
    let m = -((-q) / (ONE as int));
    assert(m * 0x1_0000_0000 - 0x1_0000_0000 < q <= m * 0x1_0000_0000);
    assert(0 <= m <= 0x8000_0000);
    let up = at.ceiling();
    assert(nil::<Fixed>().raw == 0);
    assert(up == clip(m * ONE));
    assert(0 <= up.raw);
    let w = (up.raw as int) / (ONE as int);
    assert(m < 0x8000_0000 ==> w == m) by {
        if m < 0x8000_0000 {
            lemma_fundamental_div_mod_converse(m * ONE, ONE as int, m, 0);
        }
    }
    assert(m == 0x8000_0000 ==> w == 0x7fff_ffff);
    assert(larger(up, nil()) == up || up.raw == 0);
}

/// A place at or above zero, rounded down to a whole bin, is at least bin `b` exactly if it
/// is.
proof fn lemma_floor(top: Fixed, b: int)
    requires
        0 <= top.raw,
        0 <= b < 0x4000_0000,
    ensures
        b <= whole_usize(top.floored()) <==> b * ONE <= top.raw,
{
    let p = top.raw as int;
    let t = p / (ONE as int);
    assert(t * 0x1_0000_0000 <= p < t * 0x1_0000_0000 + 0x1_0000_0000);
    assert(0 <= t < 0x8000_0000);
    assert(top.floored().raw == t * ONE);
    lemma_fundamental_div_mod_converse(t * ONE, ONE as int, t, 0);
}

} // verus!
