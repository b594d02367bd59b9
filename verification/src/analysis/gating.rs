//! What the two gates of integrated loudness let through.

use crate::analysis::fold::folded;
use crate::analysis::loudness::{
    capacity_of, energy_at, energy_of, filter_step, gated_count, gated_sum, integrated, loudness,
    weighted_out, weights_for, KWeighting, LoudnessMeter, LoudnessModel,
};
use crate::analysis::rolling::full_mean;
use crate::contract::error::DspError;
use crate::contract::traits::Measurer;
use crate::dsp::algebra::sum_of;
use crate::dsp::sanitize::sane;
use crate::dsp::summing::total;
use crate::fixed::{tens, whole_number, Fixed, ONE};
use crate::number::{
    at_most, exact, larger, lemma_compare, lemma_readings, lemma_unrounded, nil, ordered, unit,
    unrounded, Order, Real, Sample,
};
use vstd::arithmetic::div_mod::lemma_fundamental_div_mod_converse;
use vstd::prelude::*;

verus! {

/// Those of `blocks` that are louder than `gate`, in order.
pub open spec fn louder<R: Real>(blocks: Seq<R>, gate: R) -> Seq<R> {
    blocks.filter(|e: R| gate.below(e))
}

/// The mean of `xs`, summed in order.
pub open spec fn mean_of<R: Real>(xs: Seq<R>) -> R {
    total(xs, xs.len()).quot(R::natural(xs.len() as u64))
}

/// The loudness of a positive mean energy, in LUFS: `-0.691 + 10 log10(energy)`.
pub open spec fn lufs<R: Real>(energy: R) -> R {
    R::decimal_of(-691, -3).sum(
        R::decimal_of(10, 0).prod(energy.logarithm().quot(R::decimal_of(2302585092994046, -15))),
    )
}

/// The mean energy of a loudness: `10^((lufs + 0.691) / 10)`.
pub open spec fn power_of<R: Real>(lufs: R) -> R {
    R::decimal_of(10, 0).power(lufs.diff(R::decimal_of(-691, -3)).quot(R::decimal_of(10, 0)))
}

/// The energies are finite and not negative.
pub open spec fn are_energies<R: Real>(blocks: Seq<R>) -> bool {
    forall|i: int|
        0 <= i < blocks.len() ==> (#[trigger] blocks[i]).finite() && at_most(nil(), blocks[i])
}

proof fn lemma_total_of_prefix<R: Real>(xs: Seq<R>, x: R, n: nat)
    requires
        n <= xs.len(),
    ensures
        total(xs.push(x), n) == total(xs, n),
    decreases n,
{
    if n > 0 {
        lemma_total_of_prefix(xs, x, (n - 1) as nat);
    }
}

/// The gated sum and count are those of the louder blocks.
proof fn lemma_gate_filters<R: Real>(blocks: Seq<R>, gate: R, n: nat)
    requires
        n <= blocks.len(),
        nil::<R>().finite(),
        are_energies(blocks),
    ensures
        ({
            let passed = louder(blocks.take(n as int), gate);
            &&& gated_sum(blocks, gate, n) == total(passed, passed.len())
            &&& gated_count(blocks, gate, n) == passed.len()
        }),
    decreases n,
{
    let head = blocks.take(n as int);
    reveal(Seq::filter);
    if n > 0 {
        lemma_gate_filters(blocks, gate, (n - 1) as nat);
        assert(head.drop_last() =~= blocks.take(n - 1));
        let before = louder(blocks.take(n - 1), gate);
        let e = blocks[n - 1];
        assert(head.last() == e);
        if gate.below(e) {
            assert(louder(head, gate) == before.push(e));
            lemma_total_of_prefix(before, e, before.len());
        } else {
            assert(louder(head, gate) == before);
        }
    }
}

/// Filtering by two gates is filtering by the higher one.
proof fn lemma_two_gates<R: Real>(blocks: Seq<R>, low: R, high: R, gate: R)
    requires
        are_energies(blocks),
        forall|e: R| e.finite() ==> (#[trigger] gate.below(e) <==> low.below(e) && high.below(e)),
    ensures
        louder(louder(blocks, low), high) == louder(blocks, gate),
    decreases blocks.len(),
{
    reveal(Seq::filter);
    if blocks.len() > 0 {
        let rest = blocks.drop_last();
        let e = blocks.last();
        assert forall|i: int| 0 <= i < rest.len() implies (#[trigger] rest[i]).finite() && at_most(
            nil(),
            rest[i],
        ) by {
            assert(rest[i] == blocks[i]);
        }
        lemma_two_gates(rest, low, high, gate);
        assert(blocks[blocks.len() - 1].finite());
        assert(gate.below(e) <==> low.below(e) && high.below(e));
        if low.below(e) {
            let inner = louder(rest, low);
            assert(louder(blocks, low) == inner.push(e));
            assert(inner.push(e).drop_last() =~= inner);
        }
    }
}

/// Integrated loudness is gated twice. It is the loudness of the mean over those blocks
/// that are above -70 LUFS and less than 10 LU below the loudness of the mean over all
/// blocks above -70 LUFS. A block at or below that relative gate does not enter the mean,
/// however many of them there are. Where nothing is left, it is minus infinity.
pub proof fn integrated_loudness_is_gated_twice<R: Real>(blocks: Seq<R>)
    requires
        nil::<R>().finite(),
        are_energies(blocks),
        power_of(R::decimal_of(-70, 0)).finite(),
        ({
            let first = louder(blocks, power_of(R::decimal_of(-70, 0)));
            let relative = power_of(lufs(mean_of(first)).diff(R::decimal_of(10, 0)));
            let second = louder(first, relative);
            first.len() > 0 ==> {
                &&& mean_of(first).finite() && !at_most(mean_of(first), nil())
                &&& relative.finite()
                &&& second.len() > 0 ==> mean_of(second).finite() && !at_most(
                    mean_of(second),
                    nil(),
                )
            }
        }),
    ensures
        ({
            let first = louder(blocks, power_of(R::decimal_of(-70, 0)));
            let relative = power_of(lufs(mean_of(first)).diff(R::decimal_of(10, 0)));
            let second = louder(first, relative);
            integrated(blocks) == if first.len() == 0 || second.len() == 0 {
                R::unbounded().opposite()
            } else {
                lufs(mean_of(second))
            }
        }),
{
    let gate = power_of(R::decimal_of(-70, 0));
    let n = blocks.len();
    assert(blocks.take(n as int) =~= blocks);
    let first = louder(blocks, gate);
    lemma_gate_filters(blocks, gate, n);
    if first.len() > 0 {
        let relative = power_of(lufs(mean_of(first)).diff(R::decimal_of(10, 0)));
        let both = larger(gate, relative);
        lemma_two_gates(blocks, gate, relative, both);
        lemma_gate_filters(blocks, both, n);
        assert(loudness(mean_of(first)) == lufs(mean_of(first)));
    }
}

/// Blocks that the relative gate keeps out do not show: two series with one loudness above
/// the absolute gate, and the same blocks above the relative gate that follows from it,
/// have one integrated loudness.
pub proof fn quiet_blocks_do_not_count<R: Real>(a: Seq<R>, b: Seq<R>)
    requires
        nil::<R>().finite(),
        are_energies(a),
        are_energies(b),
        power_of(R::decimal_of(-70, 0)).finite(),
        ({
            let gate = power_of(R::decimal_of(-70, 0));
            let (first, other) = (louder(a, gate), louder(b, gate));
            let relative = power_of(lufs(mean_of(first)).diff(R::decimal_of(10, 0)));
            let second = louder(first, relative);
            &&& first.len() > 0 && other.len() > 0
            &&& lufs(mean_of(other)) == lufs(mean_of(first))
            &&& louder(other, relative) == second
            &&& mean_of(first).finite() && !at_most(mean_of(first), nil())
            &&& mean_of(other).finite() && !at_most(mean_of(other), nil())
            &&& relative.finite()
            &&& second.len() > 0 ==> mean_of(second).finite() && !at_most(mean_of(second), nil())
        }),
    ensures
        integrated(a) == integrated(b),
{
    integrated_loudness_is_gated_twice(a);
    integrated_loudness_is_gated_twice(b);
}

/// The scale of loudness. Where arithmetic is exact and the tenth power and the logarithm
/// undo each other, `energy_of` undoes `loudness`, and 10 LU less is a tenth of the energy:
/// the relative gate keeps out what has at most a tenth of the mean.
pub proof fn ten_units_are_a_tenth<R: Real>(
    e: R,
    of: spec_fn(R) -> real,
    fits: spec_fn(real) -> bool,
    pow: spec_fn(real) -> real,
)
    requires
        exact::<R>(of, fits),
        ordered::<R>(of, fits),
        fits(0real) && fits(1real) && fits(10real),
        e.finite() && of(e) > 0real,
        of(R::decimal_of(2302585092994046, -15)) != 0real,
        forall|x: R| #[trigger] of(R::decimal_of(10, 0).power(x)) == pow(of(x)),
        forall|x: real| #[trigger] pow(x - 1real) * 10real == pow(x),
        ({
            let log = of(e.logarithm()) / of(R::decimal_of(2302585092994046, -15));
            let offset = of(R::decimal_of(-691, -3));
            &&& pow(log) == of(e)
            &&& fits(log) && fits(10real * log) && fits(offset + 10real * log)
            &&& fits(10real * log - 10real) && fits(offset + 10real * log - 10real)
            &&& fits(log - 1real)
        }),
    ensures
        of(energy_of(loudness(e))) == of(e),
        of(energy_of(loudness(e).diff(R::decimal_of(10, 0)))) * 10real == of(e),
{
    let ln10 = R::decimal_of(2302585092994046, -15);
    let ten = R::decimal_of(10, 0);
    let offset = R::decimal_of(-691, -3);
    lemma_readings(of, fits);
    assert(10int as real == 10real);
    assert(of(ten) == 10real);
    lemma_compare(e, nil(), of, fits);
    let log = e.logarithm().quot(ln10);
    let l = of(log);
    let up = loudness(e);
    assert(of(up) == of(offset) + 10real * l);
    let back = up.diff(offset);
    assert(of(offset) + 10real * l - of(offset) == 10real * l);
    assert(of(back) == 10real * l);
    assert((10real * l) / 10real == l);
    assert(of(back.quot(ten)) == l);
    let down = up.diff(ten);
    assert(of(down) == of(offset) + 10real * l - 10real);
    let low = down.diff(offset);
    assert(of(offset) + 10real * l - 10real - of(offset) == 10real * l - 10real);
    assert(of(low) == 10real * l - 10real);
    assert((10real * l - 10real) / 10real == l - 1real);
    assert(of(low.quot(ten)) == l - 1real);
    assert(pow(l - 1real) * 10real == pow(l));
}

/// A loudness meter reads the loudness of its windows and of its gated blocks: where a window
/// is full and holds something, its reading is the loudness of its mean; where it is not,
/// minus infinity. The integrated reading is complete as long as no block was turned away.
pub proof fn readings_are_loudnesses<T: Sample>(m: LoudnessModel<T::Real>)
    ensures
        ({
            let r = <LoudnessMeter<T> as Measurer<T>>::reading(m);
            let silence = T::Real::unbounded().opposite();
            let (short, long) = (
                full_mean(m.integration.momentary),
                full_mean(m.integration.short_term),
            );
            &&& short is None ==> r.momentary_lufs == silence
            &&& short is Some && (short->0).finite() && !at_most(short->0, nil())
                ==> r.momentary_lufs == lufs(short->0)
            &&& long is None ==> r.short_term_lufs == silence
            &&& long is Some && (long->0).finite() && !at_most(long->0, nil())
                ==> r.short_term_lufs == lufs(long->0)
            &&& r.integrated_lufs == integrated(m.integration.blocks)
            &&& r.integrated_complete == !m.integration.overflowed
        }),
{
}

/// The energy of a frame is the sum over the channels of the weight times the square of the
/// weighted sample; a channel without weight adds nothing.
pub proof fn energies_weigh_the_channels<T: Sample>(
    weights: Seq<T::Real>,
    filters: Seq<KWeighting<T::Real>>,
    x: Seq<Seq<T>>,
    f: int,
    n: nat,
    of: spec_fn(T::Real) -> real,
)
    requires
        unrounded::<T::Real>(of),
        n <= weights.len(),
        forall|c: int|
            0 <= c < n && (#[trigger] weights[c]).alike(nil()) ==> of(weights[c]) == 0real,
    ensures
        of(energy_at::<T>(weights, filters, x, f, n)) == sum_of(
            |c: int|
                ({
                    let y = of(
                        weighted_out(
                            folded(filters[c], x[c], filter_step::<T>(), f as nat),
                            sane(x[c][f].value()),
                        ),
                    );
                    (of(weights[c]) * y) * y
                }),
            n,
        ),
    decreases n,
{
    lemma_unrounded::<T::Real>(of);
    if n > 0 {
        energies_weigh_the_channels::<T>(weights, filters, x, f, (n - 1) as nat, of);
        let w = weights[n - 1];
        let y = of(
            weighted_out(
                folded(filters[n - 1], x[n - 1], filter_step::<T>(), f as nat),
                sane(x[n - 1][f].value()),
            ),
        );
        if w.alike(nil()) {
            assert((0real * y) * y == 0real) by (nonlinear_arith);
        }
    }
}

/// A programme of whole seconds holds ten blocks per second, less the three that would start
/// in its last 400 ms: on fixed-point numbers, for any number of seconds up to two million.
pub proof fn capacity_is_ten_blocks_a_second(seconds: int)
    requires
        1 <= seconds <= 2_000_000,
    ensures
        capacity_of(whole_number(seconds)) == Ok::<usize, DspError>((10 * seconds - 3) as usize),
{
    let s = whole_number(seconds);
    assert(s.raw == seconds * ONE);
    let thousand = Fixed::decimal_of(1000, 0);
    assert(thousand.raw == 1000 * ONE);
    assert(seconds * ONE * (1000 * ONE) == (seconds * 1000 * ONE) * ONE) by (nonlinear_arith)
        requires
            ONE == 0x1_0000_0000,
    ;
    lemma_fundamental_div_mod_converse(
        seconds * ONE * (1000 * ONE),
        ONE as int,
        seconds * 1000 * ONE,
        0,
    );
    let hundred = Fixed::natural(100);
    assert(hundred.raw == 100 * ONE);
    let p = s.prod(thousand);
    assert(p.raw == seconds * 1000 * ONE);
    assert((seconds * 1000 * ONE) * ONE == (seconds * 10 * ONE) * (100 * ONE))
        by (nonlinear_arith)
        requires
            ONE == 0x1_0000_0000,
    ;
    lemma_fundamental_div_mod_converse(
        (seconds * 1000 * ONE) * ONE,
        100 * ONE,
        seconds * 10 * ONE,
        0,
    );
    let hops = p.quot(hundred);
    assert(hops.raw == seconds * 10 * ONE);
    lemma_fundamental_div_mod_converse(seconds * 10 * ONE, ONE as int, seconds * 10, 0);
    assert(hops.floored().raw == seconds * 10 * ONE);
    let three = Fixed::natural(3);
    assert(three.raw == 3 * ONE);
    let blocks = hops.floored().diff(three);
    assert(blocks.raw == (seconds * 10 - 3) * ONE);
    assert(unit::<Fixed>().raw == ONE);
    lemma_fundamental_div_mod_converse(
        (seconds * 10 - 3) * ONE,
        ONE as int,
        seconds * 10 - 3,
        0,
    );
    let least = Fixed::decimal_of(4, -1);
    assert(least.raw < ONE) by {
        reveal_with_fuel(tens, 2);
        assert((4 * ONE * ONE) / (10 * ONE) < ONE) by (nonlinear_arith)
            requires
                ONE == 0x1_0000_0000,
        ;
    }
    assert(Fixed::natural(usize::MAX as u64).raw == i64::MAX);
}

/// The default weights: front channels count once and surround channels 1.41 times; no other
/// count of channels than one to five has any.
pub proof fn default_weights_lift_the_surrounds<R: Real>(
    channels: nat,
    c: int,
    of: spec_fn(R) -> real,
)
    requires
        unrounded::<R>(of),
        of(R::decimal_of(141, -2)) * 100real == 141real,
        0 <= c < channels,
    ensures
        weights_for::<R>(channels) is Some <==> 1 <= channels <= 5,
        1 <= channels <= 5 ==> {
            let w = weights_for::<R>(channels)->0;
            &&& w.len() == channels
            &&& channels <= 3 || c < channels - 2 ==> of(w[c]) == 1real
            &&& channels > 3 && c >= channels - 2 ==> of(w[c]) * 100real == 141real
        },
{
    lemma_unrounded::<R>(of);
}

} // verus!
