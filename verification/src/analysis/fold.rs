//! Accumulating over a signal.

use crate::contract::block::AudioBlock;
use vstd::prelude::*;

verus! {

/// `f` accumulated over the first `n` samples of a channel.
pub open spec fn folded<T, A>(acc: A, xs: Seq<T>, f: spec_fn(A, T) -> A, n: nat) -> A
    decreases n,
{
    if n == 0 {
        acc
    } else {
        f(folded(acc, xs, f, (n - 1) as nat), xs[n - 1])
    }
}

/// `f` accumulated over a whole channel.
pub open spec fn folded_plane<T, A>(acc: A, xs: Seq<T>, f: spec_fn(A, T) -> A) -> A {
    folded(acc, xs, f, xs.len())
}

/// `f` accumulated over the first `n` channels of a block, one after the other.
pub open spec fn folded_planes<T, A>(acc: A, x: Seq<Seq<T>>, f: spec_fn(A, T) -> A, n: nat) -> A
    decreases n,
{
    if n == 0 {
        acc
    } else {
        folded_plane(folded_planes(acc, x, f, (n - 1) as nat), x[n - 1], f)
    }
}

/// Each channel with its own accumulation.
pub open spec fn folded_lanes<T, A>(accs: Seq<A>, x: Seq<Seq<T>>, f: spec_fn(A, T) -> A) -> Seq<A> {
    Seq::new(accs.len(), |c: int| folded_plane(accs[c], x[c], f))
}

/// Two blocks as one: every channel of `y` follows that of `x`.
pub open spec fn joined_blocks<T>(x: Seq<Seq<T>>, y: Seq<Seq<T>>) -> Seq<Seq<T>> {
    Seq::new(x.len(), |c: int| x[c] + y[c])
}

/// Accumulating over two runs is accumulating over them as one.
pub proof fn lemma_folded_joins<T, A>(
    acc: A,
    xs: Seq<T>,
    ys: Seq<T>,
    f: spec_fn(A, T) -> A,
    n: nat,
)
    requires
        n <= ys.len(),
    ensures
        folded(acc, xs + ys, f, xs.len() + n) == folded(folded_plane(acc, xs, f), ys, f, n),
    decreases n,
{
    if n == 0 {
        lemma_folded_prefix(acc, xs, ys, f, xs.len());
    } else {
        lemma_folded_joins(acc, xs, ys, f, (n - 1) as nat);
        assert((xs + ys)[xs.len() + n - 1] == ys[n - 1]);
    }
}

/// Accumulating over the start of a run does not see what follows.
pub proof fn lemma_folded_prefix<T, A>(
    acc: A,
    xs: Seq<T>,
    ys: Seq<T>,
    f: spec_fn(A, T) -> A,
    n: nat,
)
    requires
        n <= xs.len(),
    ensures
        folded(acc, xs + ys, f, n) == folded(acc, xs, f, n),
    decreases n,
{
    if n > 0 {
        lemma_folded_prefix(acc, xs, ys, f, (n - 1) as nat);
        assert((xs + ys)[n - 1] == xs[n - 1]);
    }
}

/// Per-channel accumulation does not show how a signal was divided.
pub proof fn lemma_lanes_join<T, A>(
    accs: Seq<A>,
    x: Seq<Seq<T>>,
    y: Seq<Seq<T>>,
    f: spec_fn(A, T) -> A,
)
    requires
        x.len() == accs.len(),
        y.len() == accs.len(),
    ensures
        folded_lanes(folded_lanes(accs, x, f), y, f) == folded_lanes(
            accs,
            joined_blocks(x, y),
            f,
        ),
{
    let a = folded_lanes(folded_lanes(accs, x, f), y, f);
    let b = folded_lanes(accs, joined_blocks(x, y), f);
    assert forall|c: int| 0 <= c < accs.len() implies a[c] == b[c] by {
        lemma_folded_joins(accs[c], x[c], y[c], f, y[c].len());
        assert(joined_blocks(x, y)[c] == x[c] + y[c]);
    }
    assert(a =~= b);
}

/// Accumulate `f` over one channel.
pub fn fold_plane<T: Copy, A: Copy, F: Fn(A, T) -> A>(
    acc: A,
    xs: &[T],
    f: &F,
    Ghost(g): Ghost<spec_fn(A, T) -> A>,
) -> (r: A)
    requires
        forall|a: A, x: T| call_requires(*f, (a, x)),
        forall|a: A, x: T, b: A| #[trigger] call_ensures(*f, (a, x), b) ==> b == g(a, x),
    ensures
        r == folded_plane(acc, xs@, g),
{
    let mut a = acc;
    let mut i: usize = 0;
    while i < xs.len()
        invariant
            0 <= i <= xs@.len(),
            forall|a: A, x: T| call_requires(*f, (a, x)),
            forall|a: A, x: T, b: A| #[trigger] call_ensures(*f, (a, x), b) ==> b == g(a, x),
            a == folded(acc, xs@, g, i as nat),
        decreases xs@.len() - i,
    {
        a = f(a, xs[i]);
        i += 1;
    }
    a
}

/// Accumulate `f` over a block, channel after channel.
pub fn fold_planes<T: Copy, A: Copy, F: Fn(A, T) -> A>(
    acc: A,
    block: &AudioBlock<'_, '_, T>,
    f: &F,
    Ghost(g): Ghost<spec_fn(A, T) -> A>,
) -> (r: A)
    requires
        forall|a: A, x: T| call_requires(*f, (a, x)),
        forall|a: A, x: T, b: A| #[trigger] call_ensures(*f, (a, x), b) ==> b == g(a, x),
    ensures
        r == folded_planes(acc, block.samples(), g, block.samples().len()),
{
    let mut a = acc;
    let n: usize = block.channels();
    let mut ch: usize = 0;
    while ch < n
        invariant
            0 <= ch <= n,
            n == block.samples().len(),
            forall|a: A, x: T| call_requires(*f, (a, x)),
            forall|a: A, x: T, b: A| #[trigger] call_ensures(*f, (a, x), b) ==> b == g(a, x),
            a == folded_planes(acc, block.samples(), g, ch as nat),
        decreases n - ch,
    {
        a = fold_plane(a, block.channel(ch), f, Ghost(g));
        ch += 1;
    }
    a
}

/// Accumulate `f` over each channel on its own.
pub fn fold_lanes<T: Copy, A: Copy, F: Fn(A, T) -> A>(
    accs: &mut Vec<A>,
    block: &AudioBlock<'_, '_, T>,
    f: &F,
    Ghost(g): Ghost<spec_fn(A, T) -> A>,
)
    requires
        old(accs)@.len() == block.samples().len(),
        forall|a: A, x: T| call_requires(*f, (a, x)),
        forall|a: A, x: T, b: A| #[trigger] call_ensures(*f, (a, x), b) ==> b == g(a, x),
    ensures
        final(accs)@ == folded_lanes(old(accs)@, block.samples(), g),
{
    let n: usize = block.channels();
    let mut ch: usize = 0;
    while ch < n
        invariant
            0 <= ch <= n,
            n == block.samples().len(),
            n == old(accs)@.len(),
            accs@.len() == n,
            forall|a: A, x: T| call_requires(*f, (a, x)),
            forall|a: A, x: T, b: A| #[trigger] call_ensures(*f, (a, x), b) ==> b == g(a, x),
            forall|c: int|
                0 <= c < ch ==> #[trigger] accs@[c] == folded_plane(
                    old(accs)@[c],
                    block.samples()[c],
                    g,
                ),
            forall|c: int| ch <= c < n ==> #[trigger] accs@[c] == old(accs)@[c],
        decreases n - ch,
    {
        let a = fold_plane(accs[ch], block.channel(ch), f, Ghost(g));
        accs.set(ch, a);
        ch += 1;
    }
    assert(accs@ =~= folded_lanes(old(accs)@, block.samples(), g));
}

/// A count of `c` with `n` more, in 64 bits.
pub open spec fn tallied(c: u64, n: nat) -> u64 {
    ((c + n) % 0x1_0000_0000_0000_0000) as u64
}

/// Counting in two parts is counting at once.
pub proof fn lemma_tallied_joins(c: u64, a: nat, b: nat)
    ensures
        tallied(tallied(c, a), b) == tallied(c, a + b),
{
    let m: int = 0x1_0000_0000_0000_0000;
    vstd::arithmetic::div_mod::lemma_add_mod_noop_right(b as int, (c + a) as int, m);
}

/// Add `a * b` to a count.
pub fn tally(c: u64, a: usize, b: usize) -> (r: u64)
    ensures
        r == tallied(c, a as nat * b as nat),
{
    let p: u64 = (a as u64).wrapping_mul(b as u64);
    proof {
        let m: int = 0x1_0000_0000_0000_0000;
        let exact = a as int * b as int;
        assert(exact >= 0) by (nonlinear_arith)
            requires
                exact == a as int * b as int,
                a >= 0,
                b >= 0,
        ;
        vstd::arithmetic::div_mod::lemma_add_mod_noop_right(c as int, exact, m);
        assert(p == exact % m);
        if c + p < m {
            vstd::arithmetic::div_mod::lemma_small_mod((c + p) as nat, m as nat);
        } else {
            vstd::arithmetic::div_mod::lemma_mod_sub_multiples_vanish((c + p) as int, m);
            vstd::arithmetic::div_mod::lemma_small_mod((c + p - m) as nat, m as nat);
        }
    }
    c.wrapping_add(p)
}

} // verus!
