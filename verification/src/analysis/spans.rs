//! What rolling windows and integrated blocks span.

use crate::analysis::loudness::{
    frames_in, integrated_after, integration_cleared, Integration,
};
use crate::analysis::measures::lemma_counts;
use crate::analysis::rolling::{
    corrected, emptied, full_mean, mean_energy, rolled, summed, written, RollingModel,
};
use crate::dsp::algebra::{lemma_sum_changes, lemma_sums_agree, sum_of};
use crate::dsp::sanitize::sane;
use crate::dsp::summing::total;
use crate::filters::moving_average::lemma_places_differ;
use crate::number::{larger, lemma_ratio, lemma_unrounded, nil, unrounded, Order, Real};
use vstd::arithmetic::div_mod::{lemma_mod_bound, lemma_mod_sub_multiples_vanish, lemma_small_mod};
use vstd::prelude::*;

verus! {

/// A window after the first `n` of the energies `es`.
pub open spec fn rolled_over<R: Real>(m: RollingModel<R>, es: Seq<R>, n: nat) -> RollingModel<R>
    decreases n,
{
    if n == 0 {
        m
    } else {
        rolled(rolled_over(m, es, (n - 1) as nat), es[n - 1])
    }
}

/// The sum of the energies from `from` up to `to`.
pub open spec fn span_sum<R: Real>(of: spec_fn(R) -> real, es: Seq<R>, from: int, to: int) -> real {
    let f = |i: int| of(es[i]);
    sum_of(f, to as nat) - sum_of(f, from as nat)
}

/// Where the last `n` of `to` energies start.
pub open spec fn span_start(to: int, n: int) -> int {
    if to < n {
        0
    } else {
        to - n
    }
}

/// Energies are finite and not negative.
pub open spec fn sound_energies<R: Real>(es: Seq<R>, n: nat) -> bool {
    &&& n <= es.len()
    &&& nil::<R>().finite()
    &&& forall|i: int| 0 <= i < n ==> (#[trigger] es[i]).finite() && !es[i].below(nil())
}

/// What a window holds after `n` energies.
spec fn holds<R: Real>(
    of: spec_fn(R) -> real,
    m: RollingModel<R>,
    size: nat,
    es: Seq<R>,
    n: nat,
) -> bool {
    let places = |j: int| of(m.ring[j]);
    &&& m.ring.len() == size
    &&& m.pos == n as int % size as int
    &&& m.len == if n < size {
        n as int
    } else {
        size as int
    }
    &&& 0 <= m.updates <= n
    &&& m.updates < size
    &&& forall|i: int| 0 <= i < n && n - size <= i ==> m.ring[i % size as int] == #[trigger] es[i]
    &&& forall|j: int| n <= j < size ==> #[trigger] m.ring[j] == nil::<R>()
    &&& of(m.compensation) == 0real
    &&& of(m.sum) == sum_of(places, size)
    &&& of(m.sum) == span_sum(of, es, span_start(n as int, size as int), n as int)
}

proof fn lemma_summed<R: Real>(of: spec_fn(R) -> real, m: RollingModel<R>, value: R)
    requires
        unrounded::<R>(of),
        of(m.compensation) == 0real,
    ensures
        of(summed(m, value).sum) == of(m.sum) + of(value),
        of(summed(m, value).compensation) == 0real,
        summed(m, value).ring == m.ring,
        summed(m, value).pos == m.pos,
        summed(m, value).len == m.len,
        summed(m, value).updates == m.updates,
{
    lemma_unrounded::<R>(of);
}

proof fn lemma_total_of_places<R: Real>(of: spec_fn(R) -> real, ring: Seq<R>, n: nat)
    requires
        unrounded::<R>(of),
        n <= ring.len(),
    ensures
        of(total(ring, n)) == sum_of(|j: int| of(ring[j]), n),
    decreases n,
{
    lemma_unrounded::<R>(of);
    if n > 0 {
        lemma_total_of_places(of, ring, (n - 1) as nat);
    }
}

proof fn lemma_empty_sum(f: spec_fn(int) -> real, n: nat)
    requires
        forall|j: int| 0 <= j < n ==> #[trigger] f(j) == 0real,
    ensures
        sum_of(f, n) == 0real,
    decreases n,
{
    if n > 0 {
        lemma_empty_sum(f, (n - 1) as nat);
    }
}

proof fn lemma_holds<R: Real>(
    of: spec_fn(R) -> real,
    m: RollingModel<R>,
    es: Seq<R>,
    n: nat,
)
    requires
        unrounded::<R>(of),
        m.ring.len() >= 1,
        sound_energies(es, n),
    ensures
        holds(of, rolled_over(emptied(m), es, n), m.ring.len(), es, n),
    decreases n,
{
    lemma_unrounded::<R>(of);
    let size = m.ring.len();
    let t = size as int;
    let f = |i: int| of(es[i]);
    if n == 0 {
        let rest = emptied(m);
        lemma_empty_sum(|j: int| of(rest.ring[j]), size);
        lemma_small_mod(0, size);
    } else {
        lemma_holds(of, m, es, (n - 1) as nat);
        let before = rolled_over(emptied(m), es, (n - 1) as nat);
        let e = es[n - 1];
        assert(e.finite() && !e.below(nil()));
        assert(larger(sane(e), nil()) == e);
        let pos = before.pos;
        lemma_mod_bound(n - 1, t);
        let placed = RollingModel { ring: before.ring.update(pos, e), ..before };
        lemma_summed(of, placed, e);
        let grown = summed(placed, e);
        let w = written(before, e);
        let out = before.ring[pos];
        if before.len < t {
            lemma_small_mod((n - 1) as nat, size);
            assert(out == nil::<R>());
        } else {
            lemma_summed(of, grown, out.opposite());
            lemma_mod_sub_multiples_vanish(n - 1, t);
            assert(out == es[n - 1 - t]);
        }
        assert(of(w.sum) == of(before.sum) + of(e) - of(out));
        assert(w.ring == before.ring.update(pos, e));
        let (was, now) = (|j: int| of(before.ring[j]), |j: int| of(w.ring[j]));
        assert forall|j: int| 0 <= j < size && j != pos implies #[trigger] was(j) == now(j) by {}
        lemma_sum_changes(was, now, pos, size);
        assert(was(pos) == of(out) && now(pos) == of(e));
        assert(of(w.sum) == sum_of(now, size));
        assert(sum_of(f, n) == sum_of(f, (n - 1) as nat) + of(e));
        if n > size {
            assert(sum_of(f, (n - t) as nat) == sum_of(f, (n - t - 1) as nat) + of(es[n - 1 - t]));
        }
        let after = rolled(before, e);
        assert(after.ring == w.ring);
        lemma_next_place(n as int, t);
        if before.updates + 1 >= t {
            assert(w.len == t);
            lemma_total_of_places(of, w.ring, size);
            lemma_sums_agree(now, |j: int| of(w.ring[j]), size);
        }
        assert forall|i: int| 0 <= i < n && n - size <= i implies after.ring[i % t]
            == #[trigger] es[i] by {
            lemma_mod_bound(i, t);
            if i < n - 1 {
                lemma_places_differ(i, n - 1, t);
            }
        }
        assert forall|j: int| n <= j < size implies #[trigger] after.ring[j] == nil::<R>() by {
            lemma_small_mod((n - 1) as nat, size);
            assert(before.ring[j] == nil::<R>());
        }
        lemma_sums_agree(now, |j: int| of(after.ring[j]), size);
    }
}

proof fn lemma_next_place(n: int, t: int)
    requires
        1 <= n,
        1 <= t,
    ensures
        n % t == if (n - 1) % t + 1 == t {
            0
        } else {
            (n - 1) % t + 1
        },
{
    vstd::arithmetic::div_mod::lemma_fundamental_div_mod(n - 1, t);
    let (q, r) = ((n - 1) / t, (n - 1) % t);
    lemma_mod_bound(n - 1, t);
    if r + 1 == t {
        assert(n == (q + 1) * t + 0) by (nonlinear_arith)
            requires
                n - 1 == t * q + r,
                r + 1 == t,
        ;
        vstd::arithmetic::div_mod::lemma_fundamental_div_mod_converse(n, t, q + 1, 0);
    } else {
        assert(n == q * t + (r + 1)) by (nonlinear_arith)
            requires
                n - 1 == t * q + r,
        ;
        vstd::arithmetic::div_mod::lemma_fundamental_div_mod_converse(n, t, q, r + 1);
    }
}

/// A rolling window reads the mean of the last energies. Where arithmetic never rounds, an
/// emptied window of `size` places has nothing to read before it is full, and from then on
/// reads a mean that, times the size, is the sum of the last `size` energies.
pub proof fn windows_hold_the_last_energies<R: Real>(
    of: spec_fn(R) -> real,
    m: RollingModel<R>,
    es: Seq<R>,
    n: nat,
)
    requires
        unrounded::<R>(of),
        1 <= m.ring.len() <= u64::MAX,
        sound_energies(es, n),
        ({
            let after = rolled_over(emptied(m), es, n);
            let sum = after.sum.sum(after.compensation);
            sum.finite() && !sum.below(nil())
        }),
    ensures
        ({
            let after = rolled_over(emptied(m), es, n);
            let size = m.ring.len();
            &&& n < size ==> full_mean(after) is None
            &&& n >= size ==> full_mean(after) is Some && of(full_mean(after)->0)
                * (size as int as real) == span_sum(of, es, n - size, n as int)
            &&& n > 0 ==> mean_energy(after) is Some
            &&& n >= size ==> mean_energy(after) == full_mean(after)
        }),
{
    lemma_unrounded::<R>(of);
    lemma_holds(of, m, es, n);
    let after = rolled_over(emptied(m), es, n);
    let size = m.ring.len();
    if n >= size {
        let sum = after.sum.sum(after.compensation);
        assert(corrected(after) == sum);
        lemma_counts::<R>(size as u64, of);
        let count = R::natural(size as u64);
        lemma_ratio(of(sum.quot(count)), of(sum), of(count));
        assert(size as u64 as real == size as int as real);
    }
}

/// The windows of an integration roll over the frame energies one by one.
pub proof fn integration_rolls_its_windows<R: Real>(t: Integration<R>, es: Seq<R>, n: nat)
    ensures
        ({
            let after = integrated_after(integration_cleared(t), es, n);
            &&& after.momentary == rolled_over(emptied(t.momentary), es, n)
            &&& after.short_term == rolled_over(emptied(t.short_term), es, n)
            &&& after.block == rolled_over(emptied(t.block), es, n)
            &&& after.block_frames == t.block_frames
            &&& after.hop_frames == t.hop_frames
            &&& after.capacity == t.capacity
            &&& n < 0x1_0000_0000_0000_0000 ==> after.total == n
        }),
    decreases n,
{
    if n > 0 {
        integration_rolls_its_windows(t, es, (n - 1) as nat);
    }
}

/// How many blocks of `block` frames, one every `hop` frames, `n` frames complete.
pub open spec fn blocks_by(n: int, block: int, hop: int) -> int {
    if n < block {
        0
    } else {
        (n - block) / hop + 1
    }
}

/// How a quotient by `hop` counts.
pub proof fn lemma_block_count(x: int, hop: int)
    requires
        1 <= x,
        1 <= hop,
    ensures
        (x - 1) / hop == if x % hop == 0 {
            x / hop - 1
        } else {
            x / hop
        },
        x % hop == 0 ==> (x / hop) * hop == x,
{
    vstd::arithmetic::div_mod::lemma_fundamental_div_mod(x, hop);
    let (q, r) = (x / hop, x % hop);
    lemma_mod_bound(x, hop);
    if r == 0 {
        assert(x - 1 == (q - 1) * hop + (hop - 1)) by (nonlinear_arith)
            requires
                x == hop * q,
        ;
        vstd::arithmetic::div_mod::lemma_fundamental_div_mod_converse(
            x - 1,
            hop,
            q - 1,
            hop - 1,
        );
        assert(q * hop == x) by (nonlinear_arith)
            requires
                x == hop * q,
        ;
    } else {
        assert(x - 1 == q * hop + (r - 1)) by (nonlinear_arith)
            requires
                x == hop * q + r,
        ;
        vstd::arithmetic::div_mod::lemma_fundamental_div_mod_converse(x - 1, hop, q, r - 1);
    }
}

/// Integrated blocks follow each other by hops. Where arithmetic never rounds, block `k` of a
/// cleared integration is the mean energy of the frames from `k` hops on, over one block
/// length, and as many blocks are kept as the frames complete, up to the capacity.
pub proof fn integrated_blocks_overlap_by_hops<R: Real>(
    of: spec_fn(R) -> real,
    t: Integration<R>,
    es: Seq<R>,
    n: nat,
)
    requires
        unrounded::<R>(of),
        1 <= t.block_frames,
        1 <= t.hop_frames,
        t.block.ring.len() == t.block_frames,
        n < 0x1_0000_0000_0000_0000,
        sound_energies(es, n),
        forall|k: nat|
            k <= n ==> {
                let w = #[trigger] rolled_over(emptied(t.block), es, k);
                w.sum.sum(w.compensation).finite() && !w.sum.sum(w.compensation).below(nil())
            },
        blocks_by(n as int, t.block_frames as int, t.hop_frames as int) <= t.capacity,
    ensures
        ({
            let after = integrated_after(integration_cleared(t), es, n);
            let (block, hop) = (t.block_frames as int, t.hop_frames as int);
            &&& after.blocks.len() == blocks_by(n as int, block, hop)
            &&& !after.overflowed
            &&& forall|k: int|
                0 <= k < after.blocks.len() ==> of(#[trigger] after.blocks[k]) * (block as real)
                    == span_sum(of, es, k * hop, k * hop + block)
        }),
    decreases n,
{
    let (block, hop) = (t.block_frames as int, t.hop_frames as int);
    if n > 0 {
        let before = integrated_after(integration_cleared(t), es, (n - 1) as nat);
        let after = integrated_after(integration_cleared(t), es, n);
        let x = n - block;
        if x >= 1 {
            lemma_block_count(x, hop);
        } else if x == 0 {
            lemma_small_mod(0, hop as nat);
            assert(0int / hop == 0) by {
                vstd::arithmetic::div_mod::lemma_div_basics(hop);
            }
        }
        integrated_blocks_overlap_by_hops(of, t, es, (n - 1) as nat);
        integration_rolls_its_windows(t, es, (n - 1) as nat);
        integration_rolls_its_windows(t, es, n);
        let w = rolled_over(emptied(t.block), es, n);
        assert(w.sum.sum(w.compensation).finite());
        windows_hold_the_last_energies(of, t.block, es, n);
        assert(mean_energy(w) is Some);
        if x >= 0 && x % hop == 0 {
            let k = x / hop;
            assert(k * hop == x);
            assert(after.blocks == before.blocks.push(mean_energy(w)->0));
            assert forall|j: int| 0 <= j < after.blocks.len() implies of(
                #[trigger] after.blocks[j],
            ) * (block as real) == span_sum(of, es, j * hop, j * hop + block) by {
                if j < before.blocks.len() {
                    assert(after.blocks[j] == before.blocks[j]);
                } else {
                    assert(j == k);
                }
            }
        } else {
            assert(after.blocks == before.blocks);
        }
    }
}

/// The frames of a time are its share of the rate, to the nearest frame, and at least one.
pub proof fn frames_are_rounded_times(sample_rate: u32, millis: u32)
    ensures
        ({
            let frames = frames_in(sample_rate, millis) as int;
            let exact = sample_rate * millis;
            &&& frames >= 1
            &&& frames == 1 || -500 <= 1000 * frames - exact <= 500
            &&& frames == 1 ==> exact < 1500
        }),
{
    let product = sample_rate * millis;
    assert(0 <= product <= 0xffff_ffff * 0xffff_ffff) by (nonlinear_arith)
        requires
            0 <= sample_rate <= 0xffff_ffff,
            0 <= millis <= 0xffff_ffff,
            product == sample_rate * millis,
    ;
}

} // verus!
