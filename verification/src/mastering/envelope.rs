//! The gain envelope of the lookahead limiter.
//!
//! Each frame hands in the gain that it requires. The applied gain follows the
//! minimum over the lookahead window, shaped by a raised-cosine attack and
//! smoothed upward on release.

use crate::dsp::memory::{filled, refill};
use crate::dsp::sanitize::{finite_or_zero, sane};
use crate::dsp::wedge::{least, window_least, window_start, Wedge};
use crate::fixed::{Fixed, ONE};
use crate::number::{
    at_most, at_most_of, clamp_to, clamped, exact, lemma_compare, lemma_readings, nil, ordered,
    unit, within, Order, Real,
};
use vstd::arithmetic::div_mod::lemma_fundamental_div_mod;
use vstd::arithmetic::div_mod::lemma_fundamental_div_mod_converse;
use vstd::prelude::*;

verus! {

// ---------------------------------------------------------------------------
// What the envelope computes
// ---------------------------------------------------------------------------

/// An envelope as contracts speak of it.
#[verifier::ext_equal]
pub struct EnvelopeModel<R> {
    /// Lookahead in frames.
    pub look: int,
    /// Attack weights, newest frame first.
    pub hann: Seq<R>,
    /// Release coefficient.
    pub release: R,
    /// Every required gain since the last reset.
    pub log: Seq<R>,
    /// The gain applied last.
    pub env: R,
}

/// An envelope without storage, at unity.
pub open spec fn idle_envelope<R: Real>() -> EnvelopeModel<R> {
    EnvelopeModel { look: 0, hann: Seq::empty(), release: nil(), log: Seq::empty(), env: unit() }
}

/// A gain brought into `[0, 1]`.
pub open spec fn unit_gain<R: Real>(x: R) -> R {
    clamped(sane(x), nil(), unit())
}

/// The windowed minimum `k` frames ago. Before the first frame it was unity.
pub open spec fn past_least<R: Real>(log: Seq<R>, look: int, k: int) -> R {
    if k < log.len() {
        window_least(log, look, log.len() - 1 - k)
    } else {
        unit()
    }
}

/// The first `n` terms of the attack convolution.
pub open spec fn attack_sum<R: Real>(m: EnvelopeModel<R>, n: nat) -> R
    decreases n,
{
    if n == 0 {
        nil()
    } else {
        attack_sum(m, (n - 1) as nat).sum(
            m.hann[n - 1].prod(past_least(m.log, m.look, n - 1)),
        )
    }
}

/// Every windowed minimum that the attack looks at is unity.
pub open spec fn settled<R: Real>(m: EnvelopeModel<R>) -> bool {
    forall|k: int|
        0 <= k < m.hann.len() ==> (#[trigger] past_least(m.log, m.look, k)).alike(unit())
}

/// The gain that the attack asks for: exactly unity where nothing is reduced,
/// since the rounded weights need not sum to one.
pub open spec fn attack<R: Real>(m: EnvelopeModel<R>) -> R {
    if settled(m) {
        unit()
    } else {
        attack_sum(m, m.hann.len())
    }
}

/// The applied gain after `env` where the attack asks for `target`.
pub open spec fn followed<R: Real>(env: R, target: R, release: R) -> R {
    let from = unit_gain(env);
    unit_gain(
        if at_most(target, from) {
            target
        } else {
            from.sum(target.diff(from).prod(release))
        },
    )
}

/// The envelope after a frame that requires the gain `required`.
pub open spec fn envelope_next<R: Real>(m: EnvelopeModel<R>, required: R) -> EnvelopeModel<R> {
    let taken = EnvelopeModel { log: m.log.push(unit_gain(required)), ..m };
    EnvelopeModel { env: followed(m.env, attack(taken), m.release), ..taken }
}

/// The envelope after a reset.
pub open spec fn envelope_rest<R: Real>(m: EnvelopeModel<R>) -> EnvelopeModel<R> {
    EnvelopeModel { log: Seq::empty(), env: unit(), ..m }
}

/// The applied gain stays between silence and unity.
pub proof fn applied_gain_is_bounded<R: Real>(m: EnvelopeModel<R>, required: R)
    requires
        nil::<R>().finite(),
        unit::<R>().finite(),
        nil::<R>().rank() < unit::<R>().rank(),
    ensures
        within(envelope_next(m, required).env, nil(), unit()),
        envelope_next(m, required).env.finite(),
{
}

/// Frames that require no reduction leave the gain at exactly unity.
pub proof fn unreduced_frames_pass<R: Real>(m: EnvelopeModel<R>, required: R)
    requires
        nil::<R>().finite(),
        unit::<R>().finite(),
        nil::<R>().rank() < unit::<R>().rank(),
        m.env == unit::<R>(),
        m.look >= 0,
        unit_gain(required).alike(unit()),
        forall|i: int| 0 <= i < m.log.len() ==> (#[trigger] m.log[i]).alike(unit()),
        forall|i: int| 0 <= i < m.log.len() ==> (#[trigger] m.log[i]).finite(),
    ensures
        envelope_next(m, required).env == unit::<R>(),
{
    let taken = EnvelopeModel { log: m.log.push(unit_gain(required)), ..m };
    assert forall|k: int| 0 <= k < taken.hann.len() implies (
    #[trigger] past_least(taken.log, taken.look, k)).alike(unit()) by {
        if k < taken.log.len() {
            let n = taken.log.len() - 1 - k;
            assert forall|i: int| 0 <= i <= n implies (#[trigger] taken.log[i]).alike(unit())
                && taken.log[i].finite() by {}
            lemma_least_of_units(taken.log, window_start(n, taken.look), n);
        }
    }
}

proof fn lemma_least_of_units<R: Real>(log: Seq<R>, lo: int, hi: int)
    requires
        0 <= lo <= hi < log.len(),
        forall|i: int| 0 <= i <= hi ==> (#[trigger] log[i]).alike(unit()),
    ensures
        least(log, lo, hi).alike(unit()),
    decreases hi - lo,
{
    assert(log[hi].alike(unit()));
    if hi > lo {
        lemma_least_of_units(log, lo, hi - 1);
    }
}

/// A required gain reaches every windowed minimum that the attack looks at in
/// time.
///
/// A report at frame `n` may concern an input up to `lag` frames older, which
/// leaves the delay at frame `n + look - lag` at the earliest. From that frame
/// until the report leaves the window, every value in an attack history of at
/// most `look - lag + 1` frames is at most the reported gain.
pub proof fn reports_fill_the_attack_history<R: Real>(
    m: EnvelopeModel<R>,
    n: int,
    lag: int,
    k: int,
)
    requires
        0 <= lag <= m.look,
        m.hann.len() <= m.look - lag + 1,
        0 <= n,
        n + m.look - lag <= m.log.len() - 1 <= n + m.look,
        0 <= k < m.hann.len(),
        forall|i: int| 0 <= i < m.log.len() ==> (#[trigger] m.log[i]).finite(),
    ensures
        at_most(past_least(m.log, m.look, k), m.log[n]),
{
    let t = m.log.len() - 1 - k;
    crate::dsp::wedge::least_is_the_minimum(m.log, window_start(t, m.look), t);
    assert(window_start(t, m.look) <= n <= t);
    assert(at_most(least(m.log, window_start(t, m.look), t), m.log[n]));
}

/// The first `n` attack weights, summed.
pub open spec fn weight_sum(hann: Seq<Fixed>, n: nat) -> int
    decreases n,
{
    if n == 0 {
        0
    } else {
        weight_sum(hann, (n - 1) as nat) + hann[n - 1].raw
    }
}

/// Weights that are not negative and sum to at most one, and a release that is a share.
pub open spec fn shares(m: EnvelopeModel<Fixed>) -> bool {
    &&& m.hann.len() >= 1
    &&& forall|k: int| 0 <= k < m.hann.len() ==> 0 <= (#[trigger] m.hann[k]).raw
    &&& weight_sum(m.hann, m.hann.len()) <= ONE
    &&& 0 <= m.release.raw <= ONE
}

proof fn lemma_partial_weights(hann: Seq<Fixed>, n: nat)
    requires
        forall|k: int| 0 <= k < hann.len() ==> 0 <= (#[trigger] hann[k]).raw,
        n <= hann.len(),
    ensures
        0 <= weight_sum(hann, n) <= weight_sum(hann, hann.len()),
    decreases hann.len() - n,
{
    if n < hann.len() {
        assert(hann[n as int].raw >= 0);
        lemma_partial_weights(hann, n + 1);
    }
    lemma_weights_rise(hann, n);
}

proof fn lemma_weights_rise(hann: Seq<Fixed>, n: nat)
    requires
        forall|k: int| 0 <= k < hann.len() ==> 0 <= (#[trigger] hann[k]).raw,
        n <= hann.len(),
    ensures
        0 <= weight_sum(hann, n),
    decreases n,
{
    if n > 0 {
        assert(hann[n - 1].raw >= 0);
        lemma_weights_rise(hann, (n - 1) as nat);
    }
}

/// A weighted sum of gains of at most `top` is at most `top`'s share.
proof fn lemma_attack_stays_below(m: EnvelopeModel<Fixed>, top: int, n: nat)
    requires
        shares(m),
        0 <= top <= ONE,
        n <= m.hann.len(),
        forall|k: int|
            0 <= k < m.hann.len() ==> 0 <= (#[trigger] past_least(m.log, m.look, k)).raw <= top,
    ensures
        0 <= attack_sum(m, n).raw,
        attack_sum(m, n).raw * ONE <= top * weight_sum(m.hann, n),
        attack_sum(m, n).raw <= top,
    decreases n,
{
    lemma_partial_weights(m.hann, n);
    let w_all = weight_sum(m.hann, n);
    if n > 0 {
        lemma_attack_stays_below(m, top, (n - 1) as nat);
        let acc = attack_sum(m, (n - 1) as nat).raw as int;
        let w = m.hann[n - 1].raw as int;
        let p = past_least(m.log, m.look, n - 1).raw as int;
        assert(0 <= w);
        let term = (w * p) / (ONE as int);
        assert(0 <= w * p <= top * w) by (nonlinear_arith)
            requires
                0 <= w,
                0 <= p <= top,
        ;
        lemma_fundamental_div_mod(w * p, ONE as int);
        assert(0 <= term && term * ONE <= w * p) by (nonlinear_arith)
            requires
                term == (w * p) / 0x1_0000_0000,
                0 <= w * p,
                ONE == 0x1_0000_0000,
        ;
        let before = weight_sum(m.hann, (n - 1) as nat);
        assert(top * w_all == top * before + top * w) by (nonlinear_arith)
            requires
                w_all == before + w,
        ;
        assert((acc + term) * ONE == acc * ONE + term * ONE) by (nonlinear_arith);
        lemma_share_of_top(acc + term, top, w_all);
        assert(term <= acc + term);
    } else {
        assert(top * 0 == 0);
    }
}

proof fn lemma_share_of_top(x: int, top: int, w: int)
    requires
        x * ONE <= top * w,
        0 <= w <= ONE,
        0 <= top,
    ensures
        x <= top,
{
    assert(top * w <= top * 0x1_0000_0000) by (nonlinear_arith)
        requires
            0 <= w <= 0x1_0000_0000,
            0 <= top,
    ;
}

/// On fixed-point numbers, what is reported takes full effect in time: with weights that
/// are not negative and sum to at most one, the applied gain is at most the reported one
/// when the oldest input that can have contributed to report `n` leaves the delay, and
/// until the report leaves the window.
pub proof fn fixed_point_reports_take_full_effect(
    m: EnvelopeModel<Fixed>,
    required: Fixed,
    n: int,
    lag: int,
)
    requires
        shares(m),
        0 <= lag <= m.look,
        m.hann.len() <= m.look - lag + 1,
        0 <= n,
        n + m.look - lag <= m.log.len() <= n + m.look,
        forall|i: int| 0 <= i < m.log.len() ==> 0 <= (#[trigger] m.log[i]).raw <= ONE,
    ensures
        ({
            let after = envelope_next(m, required);
            0 <= after.env.raw <= after.log[n].raw
        }),
{
    let taken = EnvelopeModel { log: m.log.push(unit_gain(required)), ..m };
    let top = taken.log[n].raw as int;
    assert(nil::<Fixed>().raw == 0 && unit::<Fixed>().raw == ONE);
    assert forall|i: int| 0 <= i < taken.log.len() implies 0 <= (#[trigger] taken.log[i]).raw <= ONE
        && taken.log[i].finite() by {
        if i < m.log.len() {
            assert(taken.log[i] == m.log[i]);
        }
    }
    assert forall|k: int| 0 <= k < taken.hann.len() implies 0 <= (
    #[trigger] past_least(taken.log, taken.look, k)).raw <= top by {
        reports_fill_the_attack_history(taken, n, lag, k);
        let t = taken.log.len() - 1 - k;
        lemma_least_is_one_of(taken.log, window_start(t, taken.look), t);
    }
    assert(0 <= past_least(taken.log, taken.look, 0).raw <= top);
    lemma_attack_stays_below(taken, top, taken.hann.len());
    let target = attack(taken);
    assert(0 <= target.raw <= top);
    let from = unit_gain(m.env);
    assert(0 <= from.raw <= ONE);
    if !at_most(target, from) {
        let d = target.raw - from.raw;
        let r = m.release.raw as int;
        assert(0 <= d * r <= d * 0x1_0000_0000) by (nonlinear_arith)
            requires
                0 <= d,
                0 <= r <= 0x1_0000_0000,
        ;
        assert(0 <= (d * r) / 0x1_0000_0000 <= d);
    }
}

proof fn lemma_least_is_one_of(log: Seq<Fixed>, lo: int, hi: int)
    requires
        0 <= lo <= hi < log.len(),
        forall|i: int| 0 <= i < log.len() ==> 0 <= (#[trigger] log[i]).raw,
    ensures
        0 <= least(log, lo, hi).raw,
    decreases hi - lo,
{
    assert(0 <= log[hi].raw);
    if hi > lo {
        lemma_least_is_one_of(log, lo, hi - 1);
    }
}

/// Reductions act at once and releases take their share. Where arithmetic is exact, the
/// gain after a frame is what the attack asks for where that is at most the gain applied
/// last; where it is above, the gain moves up by the release share of the distance.
pub proof fn gain_falls_at_once_and_rises_by_the_release<R: Real>(
    m: EnvelopeModel<R>,
    required: R,
    of: spec_fn(R) -> real,
    fits: spec_fn(real) -> bool,
)
    requires
        exact::<R>(of, fits),
        ordered::<R>(of, fits),
        fits(0real),
        fits(1real),
        0real <= of(m.env) <= 1real,
        0real <= of(m.release) <= 1real,
        fits(of(m.env)),
        ({
            let taken = EnvelopeModel { log: m.log.push(unit_gain(required)), ..m };
            let target = of(attack(taken));
            &&& 0real <= target <= 1real
            &&& fits(target) && fits(target - of(m.env))
            &&& fits((target - of(m.env)) * of(m.release))
            &&& fits(of(m.env) + (target - of(m.env)) * of(m.release))
        }),
    ensures
        ({
            let taken = EnvelopeModel { log: m.log.push(unit_gain(required)), ..m };
            let target = of(attack(taken));
            let gain = of(envelope_next(m, required).env);
            &&& target <= of(m.env) ==> gain == target
            &&& target > of(m.env) ==> {
                &&& gain == of(m.env) + (target - of(m.env)) * of(m.release)
                &&& of(m.env) <= gain <= target
                &&& of(m.release) > 0real ==> of(m.env) < gain
                &&& of(m.release) == 1real ==> gain == target
            }
        }),
{
    let taken = EnvelopeModel { log: m.log.push(unit_gain(required)), ..m };
    let target = attack(taken);
    lemma_readings(of, fits);
    lemma_in_unit(m.env, of, fits);
    lemma_in_unit(target, of, fits);
    lemma_compare(target, m.env, of, fits);
    let (e, t, k) = (of(m.env), of(target), of(m.release));
    if t > e {
        let d = t - e;
        assert(0real <= d * k <= d) by (nonlinear_arith)
            requires
                0real <= d,
                0real <= k <= 1real,
        ;
        assert(k > 0real ==> d * k > 0real) by (nonlinear_arith)
            requires
                0real < d,
        ;
        assert(k == 1real ==> d * k == d) by (nonlinear_arith);
        let moved = m.env.sum(target.diff(m.env).prod(m.release));
        assert(of(moved) == e + d * k);
        lemma_in_unit(moved, of, fits);
    }
}

/// A gain that is read between zero and one is kept.
proof fn lemma_in_unit<R: Real>(x: R, of: spec_fn(R) -> real, fits: spec_fn(real) -> bool)
    requires
        exact::<R>(of, fits),
        ordered::<R>(of, fits),
        fits(0real),
        fits(1real),
        fits(of(x)),
        0real <= of(x) <= 1real,
    ensures
        unit_gain(x) == x,
{
    lemma_readings(of, fits);
    lemma_compare(x, nil(), of, fits);
    lemma_compare(unit(), x, of, fits);
}

/// The last `n` values of `log` are one, as far as there are that many.
pub open spec fn quiet_for(log: Seq<Fixed>, n: int) -> bool {
    forall|i: int| 0 <= i < log.len() && log.len() - n <= i ==> (#[trigger] log[i]).raw == ONE
}

proof fn lemma_quiet_minimum(log: Seq<Fixed>, lo: int, hi: int)
    requires
        0 <= lo <= hi < log.len(),
        forall|i: int| lo <= i <= hi ==> (#[trigger] log[i]).raw == ONE,
    ensures
        least(log, lo, hi).raw == ONE,
    decreases hi - lo,
{
    assert(log[hi].raw == ONE);
    if hi > lo {
        lemma_quiet_minimum(log, lo, hi - 1);
    }
}

/// Release recovers. On fixed-point numbers, once the window and the attack history hold
/// no reduction, a frame that requires none raises the gain by the release share of what
/// is missing to unity, down to a step of the representation: strictly, unless the share
/// of what is missing is less than one step. A release share of one restores unity at
/// once, and a gain of one stays.
pub proof fn fixed_point_release_recovers(m: EnvelopeModel<Fixed>, required: Fixed)
    requires
        0 <= m.look,
        0 <= m.release.raw <= ONE,
        0 <= m.env.raw <= ONE,
        ONE <= required.raw < i64::MAX,
        quiet_for(m.log, m.look + m.hann.len()),
    ensures
        ({
            let gain = envelope_next(m, required).env.raw;
            let missing = ONE - m.env.raw;
            &&& m.env.raw <= gain <= ONE
            &&& 0 <= missing * m.release.raw - (gain - m.env.raw) * ONE < ONE
            &&& missing * m.release.raw >= ONE ==> gain > m.env.raw
            &&& m.release.raw == ONE ==> gain == ONE
            &&& quiet_for(envelope_next(m, required).log, m.look + m.hann.len())
        }),
{
    let taken = EnvelopeModel { log: m.log.push(unit_gain(required)), ..m };
    assert(nil::<Fixed>().raw == 0 && unit::<Fixed>().raw == ONE);
    assert(unit_gain(required).raw == ONE);
    assert forall|k: int| 0 <= k < taken.hann.len() implies (
    #[trigger] past_least(taken.log, taken.look, k)).alike(unit()) by {
        if k < taken.log.len() {
            let n = taken.log.len() - 1 - k;
            let lo = window_start(n, taken.look);
            assert forall|i: int| lo <= i <= n implies (#[trigger] taken.log[i]).raw == ONE by {
                if i < m.log.len() {
                    assert(taken.log[i] == m.log[i]);
                }
            }
            lemma_quiet_minimum(taken.log, lo, n);
        }
    }
    assert(settled(taken));
    assert(attack(taken).raw == ONE);
    let d = ONE - m.env.raw;
    let r = m.release.raw as int;
    assert(unit_gain(m.env) == m.env);
    lemma_fundamental_div_mod(d * r, ONE as int);
    assert(0 <= d * r <= d * 0x1_0000_0000) by (nonlinear_arith)
        requires
            0 <= d,
            0 <= r <= 0x1_0000_0000,
    ;
    let rise = (d * r) / (ONE as int);
    assert(0 <= rise <= d);
    assert(r == ONE ==> rise == d) by {
        if r == ONE {
            lemma_fundamental_div_mod_converse(d * r, ONE as int, d, 0);
        }
    }
    if d > 0 {
        assert(envelope_next(m, required).env.raw == m.env.raw + rise);
    } else {
        assert(d == 0);
        assert(0 * r == 0);
    }
    assert forall|i: int|
        0 <= i < taken.log.len() && taken.log.len() - (m.look + m.hann.len()) <= i implies (
    #[trigger] taken.log[i]).raw == ONE by {
        if i < m.log.len() {
            assert(taken.log[i] == m.log[i]);
        }
    }
}

/// The envelope after `n` frames that require the gains `required`.
pub open spec fn envelope_after<R: Real>(
    m: EnvelopeModel<R>,
    required: Seq<R>,
    n: nat,
) -> EnvelopeModel<R>
    decreases n,
{
    if n == 0 {
        m
    } else {
        envelope_next(envelope_after(m, required, (n - 1) as nat), required[n - 1])
    }
}

/// Over any run of frames that require no reduction the gain never falls, and with a
/// positive release share it arrives: after as many frames as steps were missing, the
/// release share of what is still missing is less than one step.
pub proof fn fixed_point_release_arrives(m: EnvelopeModel<Fixed>, required: Seq<Fixed>, n: nat)
    requires
        0 <= m.look,
        0 <= m.release.raw <= ONE,
        0 <= m.env.raw <= ONE,
        n <= required.len(),
        forall|i: int| 0 <= i < required.len() ==> ONE <= (#[trigger] required[i]).raw < i64::MAX,
        quiet_for(m.log, m.look + m.hann.len()),
    ensures
        ({
            let after = envelope_after(m, required, n);
            &&& m.env.raw <= after.env.raw <= ONE
            &&& after.env.raw - m.env.raw >= n || (ONE - after.env.raw) * m.release.raw < ONE
            &&& n >= ONE - m.env.raw ==> (ONE - after.env.raw) * m.release.raw < ONE
        }),
{
    lemma_release_arrives(m, required, n);
    let after = envelope_after(m, required, n);
    if n >= ONE - m.env.raw && after.env.raw - m.env.raw >= n {
        assert(ONE - after.env.raw == 0);
        assert(0 * m.release.raw == 0);
    }
}

proof fn lemma_release_arrives(m: EnvelopeModel<Fixed>, required: Seq<Fixed>, n: nat)
    requires
        0 <= m.look,
        0 <= m.release.raw <= ONE,
        0 <= m.env.raw <= ONE,
        n <= required.len(),
        forall|i: int| 0 <= i < required.len() ==> ONE <= (#[trigger] required[i]).raw < i64::MAX,
        quiet_for(m.log, m.look + m.hann.len()),
    ensures
        ({
            let after = envelope_after(m, required, n);
            &&& after.look == m.look && after.hann == m.hann && after.release == m.release
            &&& quiet_for(after.log, m.look + m.hann.len())
            &&& m.env.raw <= after.env.raw <= ONE
            &&& after.env.raw - m.env.raw >= n || (ONE - after.env.raw) * m.release.raw < ONE
        }),
    decreases n,
{
    if n > 0 {
        lemma_release_arrives(m, required, (n - 1) as nat);
        let before = envelope_after(m, required, (n - 1) as nat);
        let x = required[n - 1];
        fixed_point_release_recovers(before, x);
        let after = envelope_next(before, x);
        let (a, b, k) = (ONE - before.env.raw, ONE - after.env.raw, m.release.raw as int);
        assert(b * k <= a * k) by (nonlinear_arith)
            requires
                b <= a,
                0 <= k,
        ;
    }
}

// ---------------------------------------------------------------------------
// Raised-cosine weights
// ---------------------------------------------------------------------------

/// Interior sample `j` of a raised cosine of `n` samples.
pub open spec fn raised_cosine<R: Real>(n: u64, j: u64) -> R {
    let half = R::decimal_of(5, -1);
    let turn = R::decimal_of(6283185307179586, -15).prod(R::natural(j).sum(unit())).quot(
        R::natural(n).sum(unit()),
    );
    half.diff(half.prod(turn.cosine()))
}

/// The sum of the first `k` of them.
pub open spec fn raised_cosine_sum<R: Real>(n: u64, k: nat) -> R
    decreases k,
{
    if k == 0 {
        nil()
    } else {
        raised_cosine_sum::<R>(n, (k - 1) as nat).sum(raised_cosine::<R>(n, (k - 1) as u64))
    }
}

/// The weights of an attack of `n` frames.
pub open spec fn attack_weights<R: Real>(n: nat) -> Seq<R> {
    Seq::new(
        n,
        |j: int|
            raised_cosine::<R>(n as u64, j as u64).quot(raised_cosine_sum::<R>(n as u64, n)),
    )
}

/// Weights of an attack of `n` frames, normalized by their sum.
pub fn attack_weights_of<R: Real>(n: usize) -> (r: Vec<R>)
    ensures
        r@ == attack_weights::<R>(n as nat),
{
    let half = R::decimal(5, -1);
    let turn = R::decimal(6283185307179586, -15);
    let one = R::one();
    let span = R::from_u64(n as u64).plus(one);
    let mut raw: Vec<R> = Vec::with_capacity(n);
    let mut sum = R::zero();
    let mut j: usize = 0;
    while j < n
        invariant
            0 <= j <= n,
            raw@.len() == j,
            half == R::decimal_of(5, -1),
            turn == R::decimal_of(6283185307179586, -15),
            one == unit::<R>(),
            span == R::natural(n as u64).sum(one),
            sum == raised_cosine_sum::<R>(n as u64, j as nat),
            forall|i: int|
                0 <= i < j ==> #[trigger] raw@[i] == raised_cosine::<R>(n as u64, i as u64),
        decreases n - j,
    {
        let w = half.minus(
            half.times(turn.times(R::from_u64(j as u64).plus(one)).over(span).cos()),
        );
        sum = sum.plus(w);
        raw.push(w);
        j += 1;
    }
    let mut i: usize = 0;
    while i < n
        invariant
            0 <= i <= n,
            raw@.len() == n,
            sum == raised_cosine_sum::<R>(n as u64, n as nat),
            forall|k: int| 0 <= k < i ==> #[trigger] raw@[k] == attack_weights::<R>(n as nat)[k],
            forall|k: int|
                i <= k < n ==> #[trigger] raw@[k] == raised_cosine::<R>(n as u64, k as u64),
        decreases n - i,
    {
        let w = raw[i].over(sum);
        raw.set(i, w);
        i += 1;
    }
    assert(raw@ =~= attack_weights::<R>(n as nat));
    raw
}

// ---------------------------------------------------------------------------
// The envelope
// ---------------------------------------------------------------------------

/// The gain envelope of a limiter.
#[derive(Clone)]
pub struct Envelope<R> {
    /// Sliding minimum over the required gains.
    pub wedge: Wedge<R>,
    /// Attack weights, newest frame first.
    pub hann: Vec<R>,
    /// Windowed minima that the attack looks at, as a ring.
    pub hist: Vec<R>,
    /// Next write position in `hist`.
    pub pos: usize,
    /// Entries of `hist` that are not unity.
    pub nonunity: usize,
    /// The gain applied last.
    pub env: R,
    pub release: R,
}

/// How many of the first `n` entries are not unity.
pub open spec fn reduced_count<R: Real>(hist: Seq<R>, n: nat) -> nat
    decreases n,
{
    if n == 0 {
        0
    } else {
        reduced_count(hist, (n - 1) as nat) + if hist[n - 1].alike(unit()) {
            0nat
        } else {
            1nat
        }
    }
}

proof fn lemma_reduced_update<R: Real>(hist: Seq<R>, i: int, v: R, n: nat)
    requires
        0 <= i < hist.len(),
        n <= hist.len(),
    ensures
        i < n ==> reduced_count(hist.update(i, v), n) + (if hist[i].alike(unit()) {
            0nat
        } else {
            1nat
        }) == reduced_count(hist, n) + (if v.alike(unit()) {
            0nat
        } else {
            1nat
        }),
        i >= n ==> reduced_count(hist.update(i, v), n) == reduced_count(hist, n),
        reduced_count(hist, n) <= n,
    decreases n,
{
    if n > 0 {
        lemma_reduced_update(hist, i, v, (n - 1) as nat);
    }
}

proof fn lemma_reduced_none<R: Real>(hist: Seq<R>, n: nat)
    requires
        n <= hist.len(),
    ensures
        reduced_count(hist, n) == 0 <==> forall|i: int|
            0 <= i < n ==> (#[trigger] hist[i]).alike(unit()),
    decreases n,
{
    if n > 0 {
        lemma_reduced_none(hist, (n - 1) as nat);
        assert(hist[n - 1].alike(unit()) || !hist[n - 1].alike(unit()));
    }
}

/// The ring position written `k` frames before the newest.
pub open spec fn back_slot(pos: int, k: int, len: int) -> int {
    if pos - 1 - k >= 0 {
        pos - 1 - k
    } else {
        pos - 1 - k + len
    }
}

proof fn lemma_least_prefix<R: Real>(log: Seq<R>, v: R, lo: int, hi: int)
    requires
        0 <= lo <= hi < log.len(),
    ensures
        least(log.push(v), lo, hi) == least(log, lo, hi),
    decreases hi - lo,
{
    if hi > lo {
        lemma_least_prefix(log, v, lo, hi - 1);
    }
}

/// A frame makes the minimum of `k` frames ago that of `k + 1` frames ago.
proof fn lemma_past_shifts<R: Real>(log: Seq<R>, v: R, look: int, k: int)
    requires
        0 <= k,
        0 <= look,
    ensures
        past_least(log.push(v), look, k + 1) == past_least(log, look, k),
{
    if k < log.len() {
        let n = log.len() - 1 - k;
        lemma_least_prefix(log, v, window_start(n, look), n);
    }
}

impl<R: Real> Envelope<R> {
    /// The envelope as contracts speak of it.
    pub open spec fn model(&self) -> EnvelopeModel<R> {
        EnvelopeModel {
            look: self.wedge.look as int,
            hann: self.hann@,
            release: self.release,
            log: self.wedge.taken(),
            env: self.env,
        }
    }

    /// The storage is there.
    pub open spec fn ready(&self) -> bool {
        self.wedge.ready() && self.hist@.len() > 0
    }

    pub open spec fn wf(&self) -> bool {
        let n = self.hist@.len() as int;
        &&& self.wedge.wf()
        &&& self.hann@.len() == n
        &&& self.pos < n || (n == 0 && self.pos == 0)
        &&& self.nonunity == reduced_count(self.hist@, n as nat)
        &&& forall|k: int|
            0 <= k < n ==> self.hist@[back_slot(self.pos as int, k, n)] == #[trigger] past_least(
                self.wedge.taken(),
                self.wedge.look as int,
                k,
            )
    }

    /// An envelope without storage, at unity.
    pub fn empty() -> (r: Self)
        ensures
            r.wf(),
            r.model() == idle_envelope::<R>(),
            r.hist@.len() == 0,
            r.wedge.val@.len() == 0,
    {
        let r = Envelope {
            wedge: Wedge::empty(),
            hann: Vec::new(),
            hist: Vec::new(),
            pos: 0,
            nonunity: 0,
            env: R::one(),
            release: R::zero(),
        };
        assert(r.model().log =~= Seq::empty());
        assert(r.model().hann =~= Seq::empty());
        r
    }

    /// An envelope at unity with a lookahead of `look` frames and an attack of
    /// `attack` frames.
    pub fn new(look: usize, attack: usize, release: R) -> (r: Self)
        requires
            look < usize::MAX,
            attack > 0,
        ensures
            r.wf(),
            r.ready(),
            r.hist@.len() == attack,
            r.model() == (EnvelopeModel {
                look: look as int,
                hann: attack_weights::<R>(attack as nat),
                release,
                log: Seq::empty(),
                env: unit::<R>(),
            }),
    {
        let r = Envelope {
            wedge: Wedge::new(look),
            hann: attack_weights_of(attack),
            hist: filled(R::one(), attack),
            pos: 0,
            nonunity: 0,
            env: R::one(),
            release,
        };
        proof {
            lemma_reduced_none(r.hist@, r.hist@.len());
        }
        r
    }

    /// Return to unity with an empty history.
    pub fn reset(&mut self)
        requires
            old(self).wf(),
        ensures
            final(self).wf(),
            final(self).model() == envelope_rest(old(self).model()),
            final(self).hist@.len() == old(self).hist@.len(),
            final(self).wedge.val@.len() == old(self).wedge.val@.len(),
    {
        let one = R::one();
        self.wedge.reset();
        refill(&mut self.hist, one);
        self.pos = 0;
        self.nonunity = 0;
        self.env = one;
        proof {
            lemma_reduced_none(self.hist@, self.hist@.len());
        }
    }

    /// Take in the gain that one frame requires and return the gain to apply to
    /// the delayed output.
    pub fn step(&mut self, required: R) -> (r: R)
        requires
            old(self).wf(),
            old(self).ready(),
        ensures
            final(self).wf(),
            final(self).ready(),
            final(self).hist@.len() == old(self).hist@.len(),
            final(self).wedge.val@.len() == old(self).wedge.val@.len(),
            final(self).model() == envelope_next(old(self).model(), required),
            r == final(self).env,
    {
        let zero = R::zero();
        let one = R::one();
        let value = clamp_to(finite_or_zero(required), zero, one);
        let ghost log0 = self.wedge.taken();
        let ghost look = self.wedge.look as int;
        let ghost hist0 = self.hist@;
        let ghost pos0 = self.pos as int;
        let minimum = self.wedge.push(value);
        let n: usize = self.hist.len();
        let past = self.hist[self.pos];
        proof {
            lemma_reduced_update(hist0, pos0, minimum, n as nat);
            lemma_reduced_update(hist0, pos0, unit(), n as nat);
            lemma_reduced_update(hist0.update(pos0, minimum), pos0, minimum, n as nat);
        }
        if !past.equals(one) {
            self.nonunity = self.nonunity - 1;
        }
        if !minimum.equals(one) {
            self.nonunity = self.nonunity + 1;
        }
        self.hist.set(self.pos, minimum);
        self.pos = if n - self.pos == 1 {
            0
        } else {
            self.pos + 1
        };
        proof {
            let log = self.wedge.taken();
            assert forall|k: int| 0 <= k < n implies self.hist@[back_slot(
                self.pos as int,
                k,
                n as int,
            )] == #[trigger] past_least(log, look, k) by {
                if k > 0 {
                    lemma_past_shifts(log0, value, look, k - 1);
                    assert(past_least(log0, look, k - 1) == hist0[back_slot(pos0, k - 1, n as int)]);
                    assert(back_slot(self.pos as int, k, n as int) == back_slot(
                        pos0,
                        k - 1,
                        n as int,
                    ));
                    assert(back_slot(pos0, k - 1, n as int) != pos0);
                }
            }
        }
        let target = self.attack_gain();
        let from = clamp_to(finite_or_zero(self.env), zero, one);
        let moved = if at_most_of(target, from) {
            target
        } else {
            from.plus(target.minus(from).times(self.release))
        };
        self.env = clamp_to(finite_or_zero(moved), zero, one);
        self.env
    }

    /// The gain that the attack asks for.
    fn attack_gain(&self) -> (r: R)
        requires
            self.wf(),
            self.ready(),
        ensures
            r == attack(self.model()),
    {
        let n: usize = self.hist.len();
        proof {
            lemma_reduced_none(self.hist@, n as nat);
        }
        if self.nonunity == 0 {
            proof {
                assert forall|k: int| 0 <= k < n implies (#[trigger] past_least(
                    self.wedge.taken(),
                    self.wedge.look as int,
                    k,
                )).alike(unit()) by {
                    assert(self.hist@[back_slot(self.pos as int, k, n as int)].alike(unit()));
                }
            }
            return R::one();
        }
        proof {
            if settled(self.model()) {
                assert forall|i: int| 0 <= i < n implies (#[trigger] self.hist@[i]).alike(unit()) by {
                    let pos = self.pos as int;
                    let k = if i < pos {
                        pos - 1 - i
                    } else {
                        pos - 1 - i + n
                    };
                    assert(back_slot(pos, k, n as int) == i);
                    let m = self.model();
                    assert(past_least(m.log, m.look, k).alike(unit()));
                }
            }
        }
        let mut acc = R::zero();
        let mut p: usize = if self.pos == 0 {
            n - 1
        } else {
            self.pos - 1
        };
        let mut j: usize = 0;
        while j < n
            invariant
                0 <= j <= n,
                n > 0,
                n == self.hist@.len(),
                n == self.hann@.len(),
                self.wf(),
                p < n,
                j < n ==> p == back_slot(self.pos as int, j as int, n as int),
                acc == attack_sum(self.model(), j as nat),
            decreases n - j,
        {
            assert(self.hist@[p as int] == past_least(
                self.wedge.taken(),
                self.wedge.look as int,
                j as int,
            ));
            acc = acc.plus(self.hann[j].times(self.hist[p]));
            p = if p == 0 {
                n - 1
            } else {
                p - 1
            };
            j += 1;
        }
        acc
    }
}

} // verus!
