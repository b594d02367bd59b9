//! The promise of the limiter: what leaves it stays under the target.

use crate::contract::traits::FrameModel;
use crate::dsp::algebra::{lemma_spread, lemma_times, sum_of};
use crate::dsp::delay::advanced;
use crate::dsp::level::linear_of;
use crate::dsp::sanitize::{flushed, sane};
use crate::dynamics::shared::one_pole;
use crate::fixed::{Fixed, ONE};
use crate::mastering::envelope::{
    attack, attack_sum, attack_weights, envelope_next, fixed_point_reports_take_full_effect,
    past_least, raised_cosine, raised_cosine_sum, settled, shares, unit_gain, EnvelopeModel,
};
use crate::mastering::limiter::{
    drained_after, drained_frame, linked_peak, lookahead_frames, release_share, required_gain,
    sane_frame, trailing_peak, Limiter, LimiterModel, LimiterParams,
};
use crate::number::{
    lemma_cancel, lemma_ratio, lemma_unrounded, nil, size, unit, unrounded, Order, Real,
};
use vstd::arithmetic::div_mod::lemma_fundamental_div_mod;
use vstd::prelude::*;

verus! {

/// The linear target of a threshold.
pub open spec fn target_of(m: LimiterModel<Fixed>, p: LimiterParams<Fixed>) -> Fixed {
    linear_of(p.threshold_db.diff(m.margin))
}

/// A limiter after the first `n` of the frames `xs`, under the parameters `ps`.
pub open spec fn limited(
    m: LimiterModel<Fixed>,
    ps: Seq<LimiterParams<Fixed>>,
    xs: Seq<Seq<Fixed>>,
    n: nat,
) -> LimiterModel<Fixed>
    decreases n,
{
    if n == 0 {
        m
    } else {
        <Limiter<Fixed> as FrameModel<Fixed>>::next(
            limited(m, ps, xs, (n - 1) as nat),
            ps[n - 1],
            xs[n - 1],
            Seq::empty(),
        )
    }
}

/// The linked peak is at least the magnitude of each of its samples.
proof fn lemma_peak_covers(lines: Seq<Seq<Fixed>>, x: Seq<Fixed>, n: nat, c: int)
    requires
        0 <= c < n,
    ensures
        x[c].magnitude().raw <= linked_peak(lines, x, n).raw,
        0 <= linked_peak(lines, x, n).raw,
    decreases n,
{
    lemma_peak_rises(lines, x, (n - 1) as nat);
    if c < n - 1 {
        lemma_peak_covers(lines, x, (n - 1) as nat, c);
    }
}

proof fn lemma_peak_rises(lines: Seq<Seq<Fixed>>, x: Seq<Fixed>, n: nat)
    ensures
        0 <= linked_peak(lines, x, n).raw,
    decreases n,
{
    assert(nil::<Fixed>().raw == 0);
    if n > 0 {
        lemma_peak_rises(lines, x, (n - 1) as nat);
    }
}

/// The gain that a report requires brings everything up to the peak under the target.
pub proof fn reports_bring_peaks_under_the_target(target: Fixed, peak: Fixed, x: Fixed)
    requires
        0 <= target.raw,
        i64::MIN < x.raw,
        x.magnitude().raw <= peak.raw,
    ensures
        ({
            let gain = unit_gain(required_gain(target, peak)).raw;
            &&& 0 <= gain <= ONE
            &&& x.magnitude().raw * gain <= target.raw * ONE
        }),
        peak.raw <= target.raw && 0 < peak.raw ==> unit_gain(required_gain(target, peak)) == unit::<
            Fixed,
        >(),
{
    assert(nil::<Fixed>().raw == 0 && unit::<Fixed>().raw == ONE);
    let gain = unit_gain(required_gain(target, peak)).raw as int;
    let v = x.magnitude().raw as int;
    let (t, p) = (target.raw as int, peak.raw as int);
    assert(0 <= v <= p);
    if p > 0 {
        let q = (t * ONE) / p;
        lemma_fundamental_div_mod(t * ONE, p);
        assert(0 <= q) by {
            vstd::arithmetic::div_mod::lemma_div_pos_is_pos(t * ONE, p);
        }
        assert(gain == if q < ONE {
            q
        } else {
            ONE as int
        });
        assert(q * p <= t * ONE) by (nonlinear_arith)
            requires
                t * ONE == p * q + (t * ONE) % p,
                0 <= (t * ONE) % p,
        ;
        assert(v * gain <= p * gain && p * gain <= q * p) by (nonlinear_arith)
            requires
                0 <= v <= p,
                0 <= gain <= q,
        ;
        if p <= t {
            assert(q >= ONE) by (nonlinear_arith)
                requires
                    t * ONE == p * q + (t * ONE) % p,
                    (t * ONE) % p < p,
                    0 < p <= t,
                    0 <= q,
                    ONE == 0x1_0000_0000,
            ;
        }
    } else {
        assert(v == 0);
        assert(0 * gain == 0);
        assert(0 <= t * ONE);
    }
}

/// A sample under its gain stays under the target.
proof fn lemma_scaled_sample(x: Fixed, gain: Fixed, cap: int, target: int)
    requires
        i64::MIN < x.raw < i64::MAX,
        0 <= gain.raw <= cap,
        0 <= target <= i64::MAX,
        x.magnitude().raw * cap <= target * ONE,
    ensures
        -target <= x.prod(gain).raw <= target,
        -target <= flushed(x.prod(gain)).raw <= target,
{
    let (v, g) = (x.raw as int, gain.raw as int);
    let a = x.magnitude().raw as int;
    assert(0 <= a * g <= a * cap) by (nonlinear_arith)
        requires
            0 <= a,
            0 <= g <= cap,
    ;
    assert(v * g == if v < 0 {
        -(a * g)
    } else {
        a * g
    }) by (nonlinear_arith)
        requires
            a == if v < 0 {
                -v
            } else {
                v
            },
    ;
    let p = (v * g) / (ONE as int);
    assert(-target <= p <= target);
    assert(nil::<Fixed>().raw == 0);
}

/// What a run of frames leaves behind: the delay holds the last frames, and every report
/// is in the log.
proof fn lemma_run(
    m: LimiterModel<Fixed>,
    ps: Seq<LimiterParams<Fixed>>,
    xs: Seq<Seq<Fixed>>,
    n: nat,
    look: nat,
)
    requires
        look >= 1,
        m.env.look == look,
        m.env.log.len() == 0,
        m.lines.len() == m.queues.len(),
        forall|c: int| 0 <= c < m.queues.len() ==> (#[trigger] m.queues[c]).len() == look,
        forall|k: int| 0 <= k < n ==> (#[trigger] xs[k]).len() == m.queues.len(),
        forall|k: int| 0 <= k < n ==> 0 <= target_of(m, #[trigger] ps[k]).raw,
    ensures
        ({
            let after = limited(m, ps, xs, n);
            &&& after.margin == m.margin
            &&& after.queues.len() == m.queues.len() && after.lines.len() == m.lines.len()
            &&& after.env.look == look && after.env.hann == m.env.hann && after.env.release
                == m.env.release
            &&& after.env.log.len() == n
            &&& forall|k: int| 0 <= k < n ==> 0 <= (#[trigger] after.env.log[k]).raw <= ONE
            &&& forall|k: int, c: int|
                #![trigger after.env.log[k], xs[k][c]]
                0 <= k < n && 0 <= c < m.queues.len() ==> sane(xs[k][c]).magnitude().raw
                    * after.env.log[k].raw <= target_of(m, ps[k]).raw * ONE
            &&& forall|c: int| 0 <= c < m.queues.len() ==> (#[trigger] after.queues[c]).len()
                == look
            &&& forall|c: int, j: int|
                #![trigger after.queues[c][j]]
                0 <= c < m.queues.len() && 0 <= j < look && look <= n + j ==> after.queues[c][j]
                    == sane(xs[n + j - look][c])
        }),
    decreases n,
{
    if n > 0 {
        lemma_run(m, ps, xs, (n - 1) as nat, look);
        let before = limited(m, ps, xs, (n - 1) as nat);
        let after = limited(m, ps, xs, n);
        let x = xs[n - 1];
        let v = sane_frame::<Fixed>(x);
        let target = target_of(m, ps[n - 1]);
        let peak = linked_peak(before.lines, v, before.lines.len());
        let req = required_gain(target, peak);
        assert(after.env.log == before.env.log.push(unit_gain(req)));
        assert(x.len() == m.queues.len());
        assert(0 <= unit_gain(req).raw <= ONE) by {
            assert(nil::<Fixed>().raw == 0 && unit::<Fixed>().raw == ONE);
        }
        assert forall|k: int, c: int|
            #![trigger after.env.log[k], xs[k][c]]
            0 <= k < n && 0 <= c < m.queues.len() implies sane(xs[k][c]).magnitude().raw
            * after.env.log[k].raw <= target_of(m, ps[k]).raw * ONE by {
            if k < n - 1 {
                assert(after.env.log[k] == before.env.log[k]);
                assert(sane(xs[k][c]).magnitude().raw * before.env.log[k].raw <= target_of(
                    m,
                    ps[k],
                ).raw * ONE);
            } else {
                lemma_peak_covers(before.lines, v, before.lines.len(), c);
                assert(v[c] == sane(xs[k][c]));
                assert(nil::<Fixed>().raw == 0);
                reports_bring_peaks_under_the_target(target, peak, v[c]);
            }
        }
        assert forall|c: int, j: int|
            #![trigger after.queues[c][j]]
            0 <= c < m.queues.len() && 0 <= j < look && look <= n + j implies after.queues[c][j]
            == sane(xs[n + j - look][c]) by {
            assert(after.queues[c] == advanced(before.queues[c], v[c]));
            assert(before.queues[c].len() == look);
            if j + 1 < look {
                assert(after.queues[c][j] == before.queues[c][j + 1]);
            } else {
                assert(after.queues[c][j] == v[c]);
            }
        }
        assert forall|c: int| 0 <= c < m.queues.len() implies (#[trigger] after.queues[c]).len()
            == look by {
            assert(before.queues[c].len() == look);
            assert(after.queues[c] == advanced(before.queues[c], v[c]));
        }
    }
}

/// The limiter limits. On fixed-point numbers, with attack weights that are not negative and
/// sum to at most one and a release that is a share, every sample that a limiter lets out
/// after its lookahead is at most the target that held when the sample came in, in
/// magnitude, whatever came before and after it.
pub proof fn output_stays_under_the_target(
    m: LimiterModel<Fixed>,
    ps: Seq<LimiterParams<Fixed>>,
    xs: Seq<Seq<Fixed>>,
    i: nat,
    c: int,
)
    requires
        shares(m.env),
        1 <= m.env.look <= i,
        m.env.hann.len() <= m.env.look + 1,
        m.env.log.len() == 0,
        m.lines.len() == m.queues.len(),
        forall|c: int| 0 <= c < m.queues.len() ==> (#[trigger] m.queues[c]).len() == m.env.look,
        i < xs.len(),
        i < ps.len(),
        forall|k: int| 0 <= k < xs.len() ==> (#[trigger] xs[k]).len() == m.queues.len(),
        forall|k: int| 0 <= k < ps.len() ==> 0 <= target_of(m, #[trigger] ps[k]).raw,
        0 <= c < m.queues.len(),
    ensures
        ({
            let out = <Limiter<Fixed> as FrameModel<Fixed>>::emit(
                limited(m, ps, xs, i),
                ps[i as int],
                xs[i as int],
                Seq::empty(),
            )[c].raw;
            let target = target_of(m, ps[i - m.env.look]).raw;
            -target <= out <= target
        }),
{
    let look = m.env.look as nat;
    lemma_run(m, ps, xs, i, look);
    let before = limited(m, ps, xs, i);
    let n = i - look;
    let v = sane_frame::<Fixed>(xs[i as int]);
    let req = required_gain(
        target_of(before, ps[i as int]),
        linked_peak(before.lines, v, before.lines.len()),
    );
    assert(shares(before.env));
    fixed_point_reports_take_full_effect(before.env, req, n, 0);
    let after = envelope_next(before.env, req);
    assert(after.log[n] == before.env.log[n]);
    let x = before.queues[c][0];
    assert(x == sane(xs[n][c]));
    assert(nil::<Fixed>().raw == 0);
    lemma_scaled_sample(x, after.env, after.log[n].raw as int, target_of(m, ps[n]).raw as int);
}

/// The release of the limiter is the one-pole share of its time, as that of the dynamics
/// processors is.
pub proof fn releases_agree<R: Real>(release_ms: R, rate: u32)
    requires
        !release_ms.alike(nil()),
        !release_ms.prod(R::decimal_of(1, -3)).prod(R::natural(rate as u64)).alike(nil()),
    ensures
        release_share(release_ms, rate) == one_pole(release_ms, R::natural(rate as u64)),
{
}

proof fn lemma_drain(
    m: LimiterModel<Fixed>,
    ps: Seq<LimiterParams<Fixed>>,
    xs: Seq<Seq<Fixed>>,
    n: nat,
    d: nat,
)
    requires
        1 <= m.env.look <= n,
        d <= m.env.look,
        m.env.log.len() == 0,
        m.lines.len() == m.queues.len(),
        forall|c: int| 0 <= c < m.queues.len() ==> (#[trigger] m.queues[c]).len() == m.env.look,
        forall|k: int| 0 <= k < n ==> (#[trigger] xs[k]).len() == m.queues.len(),
        forall|k: int| 0 <= k < n ==> 0 <= target_of(m, #[trigger] ps[k]).raw,
    ensures
        ({
            let before = limited(m, ps, xs, n);
            let after = drained_after(before, d);
            let look = m.env.look;
            &&& after.queues.len() == m.queues.len()
            &&& after.env.look == look && after.env.hann == m.env.hann && after.env.release
                == m.env.release
            &&& after.env.log.len() == n + d
            &&& forall|k: int| 0 <= k < n + d ==> 0 <= (#[trigger] after.env.log[k]).raw <= ONE
            &&& forall|k: int| 0 <= k < n ==> #[trigger] after.env.log[k] == before.env.log[k]
            &&& forall|c: int| 0 <= c < m.queues.len() ==> (#[trigger] after.queues[c]).len()
                == look
            &&& forall|c: int, j: int|
                #![trigger after.queues[c][j]]
                0 <= c < m.queues.len() && 0 <= j < look && d + j < look ==> after.queues[c][j]
                    == sane(xs[n + d + j - look][c])
        }),
    decreases d,
{
    let look = m.env.look;
    let before = limited(m, ps, xs, n);
    if d == 0 {
        lemma_run(m, ps, xs, n, look as nat);
    } else {
        lemma_drain(m, ps, xs, n, (d - 1) as nat);
        let was = drained_after(before, (d - 1) as nat);
        let after = drained_after(before, d);
        let req = required_gain(was.target, trailing_peak(was.lines, was.lines.len()));
        assert(after.env.log == was.env.log.push(unit_gain(req)));
        assert(0 <= unit_gain(req).raw <= ONE) by {
            assert(nil::<Fixed>().raw == 0 && unit::<Fixed>().raw == ONE);
        }
        assert forall|c: int| 0 <= c < m.queues.len() implies (#[trigger] after.queues[c]).len()
            == look by {
            assert(was.queues[c].len() == look);
            assert(after.queues[c] == advanced(was.queues[c], nil()));
        }
        assert forall|c: int, j: int|
            #![trigger after.queues[c][j]]
            0 <= c < m.queues.len() && 0 <= j < look && d + j < look implies after.queues[c][j]
            == sane(xs[n + d + j - look][c]) by {
            assert(was.queues[c].len() == look);
            assert(after.queues[c] == advanced(was.queues[c], nil()));
            assert(after.queues[c][j] == was.queues[c][j + 1]);
        }
    }
}

/// A drain stays under the target too: every sample that is still in the delay when the
/// input ends leaves it at most at the target that held when it came in, in magnitude.
pub proof fn drains_stay_under_the_target(
    m: LimiterModel<Fixed>,
    ps: Seq<LimiterParams<Fixed>>,
    xs: Seq<Seq<Fixed>>,
    n: nat,
    d: nat,
    c: int,
)
    requires
        shares(m.env),
        1 <= m.env.look <= n,
        d < m.env.look,
        m.env.hann.len() <= m.env.look + 1,
        m.env.log.len() == 0,
        m.lines.len() == m.queues.len(),
        forall|c: int| 0 <= c < m.queues.len() ==> (#[trigger] m.queues[c]).len() == m.env.look,
        forall|k: int| 0 <= k < n ==> (#[trigger] xs[k]).len() == m.queues.len(),
        forall|k: int| 0 <= k < n ==> 0 <= target_of(m, #[trigger] ps[k]).raw,
        0 <= c < m.queues.len(),
    ensures
        ({
            let out = drained_frame::<Fixed>(drained_after(limited(m, ps, xs, n), d))[c].raw;
            let target = target_of(m, ps[n + d - m.env.look]).raw;
            -target <= out <= target
        }),
{
    let look = m.env.look;
    lemma_run(m, ps, xs, n, look as nat);
    lemma_drain(m, ps, xs, n, d);
    let before = limited(m, ps, xs, n);
    let was = drained_after(before, d);
    let k = n + d - look;
    let req = required_gain(was.target, trailing_peak(was.lines, was.lines.len()));
    assert(shares(was.env));
    fixed_point_reports_take_full_effect(was.env, req, k, 0);
    let after = envelope_next(was.env, req);
    assert(after.log[k] == was.env.log[k]);
    assert(was.env.log[k] == before.env.log[k]);
    let x = was.queues[c][0];
    assert(x == sane(xs[k][c]));
    assert(nil::<Fixed>().raw == 0);
    lemma_scaled_sample(x, after.env, after.log[k].raw as int, target_of(m, ps[k]).raw as int);
}

/// The attack is a weighted mean: where arithmetic never rounds, a gain that is asked for
/// while anything is reduced is the sum of the windowed minima times the attack weights,
/// newest first; and the weights of an attack sum to one.
pub proof fn attacks_are_weighted_means<R: Real>(
    m: EnvelopeModel<R>,
    n: nat,
    of: spec_fn(R) -> real,
)
    requires
        unrounded::<R>(of),
        1 <= n <= u64::MAX,
        of(raised_cosine_sum::<R>(n as u64, n)) != 0real,
    ensures
        !settled(m) ==> of(attack(m)) == sum_of(
            |k: int| of(m.hann[k]) * of(past_least(m.log, m.look, k)),
            m.hann.len(),
        ),
        settled(m) ==> of(attack(m)) == 1real,
        attack_weights::<R>(n).len() == n,
        sum_of(|k: int| of(attack_weights::<R>(n)[k]), n) == 1real,
{
    lemma_unrounded::<R>(of);
    lemma_attack_reads(m, m.hann.len(), of);
    let total = of(raised_cosine_sum::<R>(n as u64, n));
    lemma_weights_read::<R>(n, n, of);
    let f = |k: int| of(attack_weights::<R>(n)[k]);
    let s = sum_of(f, n);
    assert(s * total == total);
    assert(1real * total == total);
    lemma_cancel(s, 1real, total);
}

proof fn lemma_attack_reads<R: Real>(m: EnvelopeModel<R>, n: nat, of: spec_fn(R) -> real)
    requires
        unrounded::<R>(of),
    ensures
        of(attack_sum(m, n)) == sum_of(
            |k: int| of(m.hann[k]) * of(past_least(m.log, m.look, k)),
            n,
        ),
    decreases n,
{
    lemma_unrounded::<R>(of);
    if n > 0 {
        lemma_attack_reads(m, (n - 1) as nat, of);
    }
}

proof fn lemma_weights_read<R: Real>(n: nat, k: nat, of: spec_fn(R) -> real)
    requires
        unrounded::<R>(of),
        1 <= n <= u64::MAX,
        k <= n,
        of(raised_cosine_sum::<R>(n as u64, n)) != 0real,
    ensures
        sum_of(|j: int| of(attack_weights::<R>(n)[j]), k) * of(raised_cosine_sum::<R>(n as u64, n))
            == of(raised_cosine_sum::<R>(n as u64, k)),
    decreases k,
{
    lemma_unrounded::<R>(of);
    let total = of(raised_cosine_sum::<R>(n as u64, n));
    let f = |j: int| of(attack_weights::<R>(n)[j]);
    if k > 0 {
        lemma_weights_read::<R>(n, (k - 1) as nat, of);
        let w = f(k - 1);
        let c = of(raised_cosine::<R>(n as u64, (k - 1) as u64));
        lemma_ratio(w, c, total);
        let before = sum_of(f, (k - 1) as nat);
        lemma_spread(before, w, 0real, 0real, 0real, total);
        assert(0real * total == 0real);
    } else {
        assert(0real * total == 0real);
    }
}

/// The lookahead is its time in frames, to the nearest frame, and at least one: where
/// arithmetic never rounds and rounding gives a nearest whole number `frames`, a lookahead of
/// at least one frame is that number.
pub proof fn lookahead_is_its_time_in_frames<R: Real>(
    lookahead_ms: R,
    rate: u32,
    frames: u64,
    of: spec_fn(R) -> real,
)
    requires
        unrounded::<R>(of),
        of(R::decimal_of(1, -3)) * 1000real == 1real,
        frames <= usize::MAX,
        ({
            let time = lookahead_ms.prod(R::decimal_of(1, -3)).prod(R::natural(rate as u64));
            &&& time.rounded().whole() == frames
            &&& 2real * size(of(time) - frames as real) <= 1real
            &&& time.rounded().finite() && unit::<R>().finite() && !time.rounded().below(unit())
        }),
    ensures
        lookahead_frames(lookahead_ms, rate) == frames,
        2real * size(of(lookahead_ms) * (rate as real) - 1000real * (frames as real)) <= 1000real,
{
    lemma_unrounded::<R>(of);
    let fits = |x: real| true;
    assert(fits(rate as u64 as real));
    let (m, k, r) = (of(lookahead_ms), of(R::decimal_of(1, -3)), rate as real);
    assert(of(R::natural(rate as u64)) == r);
    let t = (m * k) * r;
    assert(t * 1000real == (m * r) * (k * 1000real)) by (nonlinear_arith)
        requires
            t == (m * k) * r,
    ;
    lemma_times(k * 1000real, 1real, m * r);
    assert((m * r) * (k * 1000real) == (k * 1000real) * (m * r)) by (nonlinear_arith);
    assert(1real * (m * r) == m * r);
}

} // verus!
