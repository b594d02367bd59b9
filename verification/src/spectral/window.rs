//! Analysis and synthesis windows, with an overlap check.
//!
//! All windows are periodic forms in `2*pi*n/N`.

use crate::dsp::memory::filled;
use crate::number::{nil, unit, Real};
use vstd::prelude::*;

verus! {

/// An analysis or synthesis window shape.
#[derive(Clone, Copy, Debug, PartialEq, Eq, Structural)]
pub enum Window {
    /// Rectangular window with no taper.
    Rectangular,
    /// Periodic Hann window.
    Hann,
    /// Periodic Hamming.
    Hamming,
    /// Periodic Blackman.
    Blackman,
    /// Sine window, `sin(pi*n/N)`.
    Sine,
}

/// Coefficient `i` of a window of `n` samples.
pub open spec fn window_at<R: Real>(kind: Window, i: u64, n: u64) -> R {
    let half = R::decimal_of(5, -1);
    let x = R::decimal_of(6283185307179586, -15).prod(R::natural(i)).quot(R::natural(n));
    match kind {
        Window::Rectangular => unit(),
        Window::Hann => half.diff(half.prod(x.cosine())),
        Window::Hamming => R::decimal_of(54, -2).diff(R::decimal_of(46, -2).prod(x.cosine())),
        Window::Blackman => R::decimal_of(42, -2).diff(half.prod(x.cosine())).sum(
            R::decimal_of(8, -2).prod(R::decimal_of(2, 0).prod(x).cosine()),
        ),
        Window::Sine => half.prod(x).sine(),
    }
}

/// The coefficients of a window of `n` samples.
pub open spec fn window_of<R: Real>(kind: Window, n: nat) -> Seq<R> {
    Seq::new(n, |i: int| window_at::<R>(kind, i as u64, n as u64))
}

impl Window {
    /// Fill `out` with the periodic window coefficients of its length.
    pub fn fill<R: Real>(self, out: &mut [R])
        ensures
            final(out)@ == window_of::<R>(self, old(out)@.len()),
    {
        let len: usize = out.len();
        let n = R::from_u64(len as u64);
        let half = R::decimal(5, -1);
        let turn = R::decimal(6283185307179586, -15);
        let mut i: usize = 0;
        while i < len
            invariant
                0 <= i <= len,
                len == out@.len(),
                len == old(out)@.len(),
                n == R::natural(len as u64),
                half == R::decimal_of(5, -1),
                turn == R::decimal_of(6283185307179586, -15),
                forall|k: int|
                    0 <= k < i ==> #[trigger] out@[k] == window_at::<R>(self, k as u64, len as u64),
            decreases len - i,
        {
            let x = turn.times(R::from_u64(i as u64)).over(n);
            let w = match self {
                Window::Rectangular => R::one(),
                Window::Hann => half.minus(half.times(x.cos())),
                Window::Hamming => R::decimal(54, -2).minus(R::decimal(46, -2).times(x.cos())),
                Window::Blackman => R::decimal(42, -2).minus(half.times(x.cos())).plus(
                    R::decimal(8, -2).times(R::decimal(2, 0).times(x).cos()),
                ),
                Window::Sine => half.times(x).sin(),
            };
            out[i] = w;
            i += 1;
        }
        assert(out@ =~= window_of::<R>(self, len as nat));
    }

    /// Allocate and fill a window of `len` samples.
    pub fn make<R: Real>(self, len: usize) -> (r: Vec<R>)
        ensures
            r@ == window_of::<R>(self, len as nat),
    {
        let mut v: Vec<R> = filled(R::zero(), len);
        self.fill(v.as_mut_slice());
        v
    }
}

/// The sum of the first `k` samples of `window` that are `hop` apart, starting
/// with sample `i`.
pub open spec fn overlap_at<R: Real>(window: Seq<R>, hop: int, i: int, k: nat) -> R
    decreases k,
{
    if k == 0 {
        nil()
    } else {
        let before = overlap_at(window, hop, i, (k - 1) as nat);
        let idx = (k - 1) * hop + i;
        if idx < window.len() {
            before.sum(window[idx])
        } else {
            before
        }
    }
}

/// How many hops a window of `n` samples spans.
pub open spec fn hops_in(n: int, hop: int) -> int {
    (n + hop - 1) / hop
}

/// The gain of shifted copies of a window that are added up, over one hop.
pub open spec fn overlap_gain<R: Real>(window: Seq<R>, hop: nat) -> Seq<R> {
    Seq::new(
        hop,
        |i: int|
            overlap_at(window, hop as int, i, hops_in(window.len() as int, hop as int) as nat),
    )
}

/// The overlap-add gain of `window` shifted by `hop`, sampled across one hop.
///
/// Where window and hop overlap evenly, every entry is equal.
pub fn cola_sum<R: Real>(window: &[R], hop: usize) -> (r: Vec<R>)
    requires
        hop >= 1,
    ensures
        r@ == overlap_gain(window@, hop as nat),
{
    let n: usize = window.len();
    let mut sum: Vec<R> = filled(R::zero(), hop);
    let mut base: usize = 0;
    let ghost mut k: nat = 0;
    let mut more: bool = n > 0;
    proof {
        if n == 0 {
            assert((hop - 1) / (hop as int) == 0) by (nonlinear_arith)
                requires
                    hop >= 1,
            ;
        }
        assert(0 * hop == 0);
    }
    while more
        invariant
            hop >= 1,
            n == window@.len(),
            sum@.len() == hop,
            base <= n,
            more ==> base == k * hop && base < n,
            !more ==> k == hops_in(n as int, hop as int),
            forall|i: int| 0 <= i < hop ==> #[trigger] sum@[i] == overlap_at(window@, hop as int, i, k),
        decreases n - base + (if more { 1int } else { 0int }),
    {
        let ghost before = sum@;
        let mut i: usize = 0;
        while i < hop
            invariant
                0 <= i <= hop,
                n == window@.len(),
                sum@.len() == hop,
                before.len() == hop,
                base == k * hop,
                base < n,
                forall|j: int|
                    0 <= j < hop ==> #[trigger] before[j] == overlap_at(
                        window@,
                        hop as int,
                        j,
                        k,
                    ),
                forall|j: int|
                    0 <= j < i ==> #[trigger] sum@[j] == overlap_at(
                        window@,
                        hop as int,
                        j,
                        k + 1,
                    ),
                forall|j: int| i <= j < hop ==> #[trigger] sum@[j] == before[j],
            decreases hop - i,
        {
            assert(sum@[i as int] == before[i as int]);
            if i < n - base {
                let acc = sum[i].plus(window[base + i]);
                sum.set(i, acc);
            }
            i += 1;
        }
        proof {
            k = k + 1;
            assert(k * hop == (k - 1) * hop + hop) by (nonlinear_arith);
        }
        if hop < n - base {
            base = base + hop;
        } else {
            more = false;
            proof {
                // The last hop is the one that reaches past the window.
                assert(k == (n + hop - 1) / (hop as int)) by (nonlinear_arith)
                    requires
                        hop >= 1,
                        k * hop >= n,
                        (k - 1) * hop < n,
                ;
            }
        }
    }
    assert(sum@ =~= overlap_gain(window@, hop as nat));
    sum
}

} // verus!
