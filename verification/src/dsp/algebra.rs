//! Facts of algebra that the laws of filters rest on.

use vstd::prelude::*;

verus! {

/// Equal numbers have equal multiples.
pub proof fn lemma_times(x: real, y: real, z: real)
    requires
        x == y,
    ensures
        x * z == y * z,
{
}

/// The poles of a pass shape or a peak with bandwidth term `bw`, where `n` normalizes.
pub proof fn lemma_pass_poles(c: real, s: real, bw: real, two_q: real, n: real, a1: real, a2: real)
    requires
        n * (1real + bw) == 1real,
        bw * two_q == s,
        a1 == (-2real * c) * n,
        a2 == (1real - bw) * n,
    ensures
        1real + a2 == 2real * n,
        1real - a2 == 2real * (bw * n),
        a1 == -2real * (c * n),
        a1 == -(1real + a2) * c,
        (1real - a2) * two_q == (1real + a2) * s,
{
    let m = bw * n;
    let near = 2real * n;
    let far = 2real * m;
    assert(n * (1real + bw) == n + bw * n) by (nonlinear_arith);
    assert((1real - bw) * n == n - bw * n) by (nonlinear_arith);
    assert((-2real * c) * n == -2real * (c * n)) by (nonlinear_arith);
    assert(1real + a2 == near && 1real - a2 == far);
    lemma_times(1real + a2, near, c);
    assert((2real * n) * c == 2real * (c * n)) by (nonlinear_arith);
    assert(-(1real + a2) * c == -((1real + a2) * c)) by (nonlinear_arith);
    lemma_times(1real - a2, far, two_q);
    assert((2real * (bw * n)) * two_q == (bw * two_q) * (2real * n)) by (nonlinear_arith);
    lemma_times(bw * two_q, s, near);
    lemma_times(1real + a2, near, s);
    assert(s * (2real * n) == (2real * n) * s) by (nonlinear_arith);
}

/// The zeros of a pass shape.
pub proof fn lemma_pass_zeros(e: real, n: real, b0: real, b1: real, b2: real)
    requires
        b0 == e * (1real / 2real) * n,
        b1 == e * n,
        b2 == e * (1real / 2real) * n,
    ensures
        b0 == b2,
        b0 + b2 == e * n,
{
    assert(e * (1real / 2real) * n + e * (1real / 2real) * n == e * n) by (nonlinear_arith);
}

/// The zeros of a peak.
pub proof fn lemma_peak_zeros(g: real, bw: real, wide: real, n: real, b0: real, b2: real, a2: real)
    requires
        b0 == (1real + bw * g) * n,
        b2 == (1real - bw * g) * n,
        wide * g == bw,
        1real - a2 == 2real * (wide * n),
    ensures
        b0 + b2 == 2real * n,
        b0 - b2 == g * g * (1real - a2),
{
    assert((1real + bw * g) * n == n + bw * (g * n)) by (nonlinear_arith);
    assert((1real - bw * g) * n == n - bw * (g * n)) by (nonlinear_arith);
    lemma_times(wide * g, bw, g * n);
    assert((wide * g) * (g * n) == (wide * n) * (g * g)) by (nonlinear_arith);
    let far = 2real * (wide * n);
    lemma_times(1real - a2, far, g * g);
    assert((2real * (wide * n)) * (g * g) == 2real * ((wide * n) * (g * g))) by (nonlinear_arith);
    assert(g * g * (1real - a2) == (1real - a2) * (g * g)) by (nonlinear_arith);
}

/// A sum times a number.
pub proof fn lemma_spread(a: real, b: real, c: real, d: real, e: real, z: real)
    by (nonlinear_arith)
    ensures
        (a + b + c + d + e) * z == a * z + b * z + c * z + d * z + e * z,
{
}

/// A product with its factors exchanged.
pub proof fn lemma_swap(a: real, b: real)
    by (nonlinear_arith)
    ensures
        a * b == b * a,
{
}

/// A negated factor negates.
pub proof fn lemma_negate(a: real, z: real)
    by (nonlinear_arith)
    ensures
        (-a) * z == -(a * z),
{
}

/// A scaled factor scales.
pub proof fn lemma_scaled(k: real, a: real, z: real)
    by (nonlinear_arith)
    ensures
        (k * a) * z == k * (a * z),
{
}

/// The last two of three factors exchanged.
pub proof fn lemma_rotate(a: real, b: real, c: real)
    by (nonlinear_arith)
    ensures
        (a * b) * c == (a * c) * b,
{
}

/// A square in front.
pub proof fn lemma_front(a: real, b: real)
    by (nonlinear_arith)
    ensures
        (a * b) * b == (b * b) * a,
{
}

/// The first of three factors on its own.
pub proof fn lemma_regroup(a: real, b: real, c: real)
    by (nonlinear_arith)
    ensures
        (a * b) * c == a * (b * c),
{
}

/// Twice a product, with the first factor on its own.
pub proof fn lemma_regroup2(a: real, b: real, c: real)
    by (nonlinear_arith)
    ensures
        (2real * a * b) * c == 2real * (a * (b * c)),
{
}

/// Four times a number, scaled twice.
pub proof fn lemma_squared(g: real, x: real)
    by (nonlinear_arith)
    ensures
        (4real * (x * g)) * g == g * g * (4real * x),
{
}

/// The gains of a low shelf at both ends of the band.
pub proof fn lemma_shelf(
    g: real,
    c: real,
    side: real,
    n: real,
    b0: real,
    b1: real,
    b2: real,
    a1: real,
    a2: real,
)
    requires
        n * ((g + 1real) + (g - 1real) * c + side) == 1real,
        b0 == (g * ((g + 1real) - (g - 1real) * c + side)) * n,
        b1 == (2real * g * ((g - 1real) - (g + 1real) * c)) * n,
        b2 == (g * ((g + 1real) - (g - 1real) * c - side)) * n,
        a1 == (-2real * ((g - 1real) + (g + 1real) * c)) * n,
        a2 == ((g + 1real) + (g - 1real) * c - side) * n,
    ensures
        b0 + b1 + b2 == g * g * (1real + a1 + a2),
        b0 - b1 + b2 == 1real - a1 + a2,
        b0 - b2 == g * (1real - a2),
{
    let (gc, cn, gn, sn) = (g * c, c * n, g * n, side * n);
    let gcn = gc * n;
    assert((g - 1real) * c == g * c - c) by (nonlinear_arith);
    assert((g + 1real) * c == g * c + c) by (nonlinear_arith);
    let k = g + 1real + gc - c + side;
    let w = g - 1real + gc + c;
    let l = g + 1real + gc - c - side;
    let u = g + 1real - gc + c + side;
    let v = g - 1real - gc - c;
    let t = g + 1real - gc + c - side;
    lemma_negate(c, n);
    lemma_negate(gc, n);
    lemma_negate(side, n);
    lemma_negate(1real, n);
    lemma_spread(g, 1real, gc, -c, side, n);
    lemma_spread(g, -1real, gc, c, 0real, n);
    lemma_spread(g, 1real, gc, -c, -side, n);
    lemma_spread(g, 1real, -gc, c, side, n);
    lemma_spread(g, -1real, -gc, -c, 0real, n);
    lemma_spread(g, 1real, -gc, c, -side, n);
    lemma_swap(n, k);
    let (kn, wn, ln, un, vn, tn) = (k * n, w * n, l * n, u * n, v * n, t * n);
    assert(1real * n == n && 0real * n == 0real);
    assert(kn == gn + n + gcn - cn + sn);
    assert(wn == gn - n + gcn + cn);
    assert(ln == gn + n + gcn - cn - sn);
    assert(un == gn + n - gcn + cn + sn);
    assert(vn == gn - n - gcn - cn);
    assert(tn == gn + n - gcn + cn - sn);
    lemma_scaled(-2real, w, n);
    lemma_regroup(g, u, n);
    lemma_regroup(g, t, n);
    lemma_regroup(g, c, n);
    lemma_regroup2(g, v, n);
    lemma_shelf_sums(g, n, gn, cn, gcn, sn, un, vn, tn, b0, b1, b2, a1, a2);
}

proof fn lemma_shelf_sums(
    g: real,
    n: real,
    gn: real,
    cn: real,
    gcn: real,
    sn: real,
    un: real,
    vn: real,
    tn: real,
    b0: real,
    b1: real,
    b2: real,
    a1: real,
    a2: real,
)
    requires
        gn == g * n,
        gcn == g * cn,
        1real == gn + n + gcn - cn + sn,
        a1 == -2real * (gn - n + gcn + cn),
        a2 == gn + n + gcn - cn - sn,
        un == gn + n - gcn + cn + sn,
        vn == gn - n - gcn - cn,
        tn == gn + n - gcn + cn - sn,
        b0 == g * un,
        b1 == 2real * (g * vn),
        b2 == g * tn,
    ensures
        b0 + b1 + b2 == g * g * (1real + a1 + a2),
        b0 - b1 + b2 == 1real - a1 + a2,
        b0 - b2 == g * (1real - a2),
{
    lemma_spread(un, 2real * vn, tn, 0real, 0real, g);
    lemma_spread(un, -2real * vn, tn, 0real, 0real, g);
    lemma_spread(un, -tn, 0real, 0real, 0real, g);
    lemma_negate(tn, g);
    lemma_scaled(2real, vn, g);
    lemma_scaled(-2real, vn, g);
    lemma_swap(g, un);
    lemma_swap(g, vn);
    lemma_swap(g, tn);
    assert(0real * g == 0real);
    let up = un + 2real * vn + tn;
    let down = un - 2real * vn + tn;
    assert(up == 4real * (gn - gcn));
    assert(down == 4real * (n + cn));
    let x = n - cn;
    let y = n + cn;
    lemma_spread(n, -cn, 0real, 0real, 0real, g);
    lemma_spread(n, cn, 0real, 0real, 0real, g);
    lemma_negate(cn, g);
    lemma_swap(g, n);
    lemma_swap(g, cn);
    assert(x * g == gn - gcn && y * g == gn + gcn);
    assert(1real + a1 + a2 == 4real * x);
    assert(1real - a1 + a2 == 4real * (gn + gcn));
    lemma_times(up, 4real * (x * g), g);
    lemma_squared(g, x);
    lemma_times(down, 4real * y, g);
    lemma_scaled(4real, y, g);
    let d = un - tn;
    assert(d == 1real - a2);
    lemma_swap(g, 1real - a2);
}

/// A complex quotient times its divisor.
pub proof fn lemma_complex_quotient(
    re: real,
    im: real,
    nr: real,
    ni: real,
    dr: real,
    di: real,
    d: real,
)
    requires
        re * d == nr * dr + ni * di,
        im * d == ni * dr - nr * di,
        d == dr * dr + di * di,
    ensures
        (re * dr - im * di) * d == nr * d,
        (re * di + im * dr) * d == ni * d,
{
    let (p, q) = (nr * dr + ni * di, ni * dr - nr * di);
    let sq = dr * dr + di * di;
    let (a, b, e, f) = (re * dr, im * di, re * di, im * dr);
    lemma_spread(a, -b, 0real, 0real, 0real, d);
    lemma_negate(b, d);
    lemma_spread(e, f, 0real, 0real, 0real, d);
    lemma_rotate(re, dr, d);
    lemma_rotate(im, di, d);
    lemma_rotate(re, di, d);
    lemma_rotate(im, dr, d);
    lemma_times(re * d, p, dr);
    lemma_times(re * d, p, di);
    lemma_times(im * d, q, dr);
    lemma_times(im * d, q, di);
    let (u, v, w, z) = (nr * dr, ni * di, ni * dr, nr * di);
    lemma_spread(u, v, 0real, 0real, 0real, dr);
    lemma_spread(u, v, 0real, 0real, 0real, di);
    lemma_spread(w, -z, 0real, 0real, 0real, dr);
    lemma_spread(w, -z, 0real, 0real, 0real, di);
    lemma_negate(z, dr);
    lemma_negate(z, di);
    lemma_rotate(ni, di, dr);
    lemma_rotate(nr, di, dr);
    lemma_rotate(nr, dr, di);
    lemma_rotate(ni, dr, di);
    lemma_front(nr, dr);
    lemma_front(nr, di);
    lemma_front(ni, dr);
    lemma_front(ni, di);
    let (x, y) = (dr * dr, di * di);
    lemma_spread(x, y, 0real, 0real, 0real, nr);
    lemma_spread(x, y, 0real, 0real, 0real, ni);
    lemma_times(d, sq, nr);
    lemma_times(d, sq, ni);
    lemma_swap(d, nr);
    lemma_swap(d, ni);
    assert(0real * d == 0real && 0real * dr == 0real && 0real * di == 0real && 0real * nr == 0real
        && 0real * ni == 0real);
}

/// The sum of the first `n` values of `f`.
pub open spec fn sum_of(f: spec_fn(int) -> real, n: nat) -> real
    decreases n,
{
    if n == 0 {
        0real
    } else {
        sum_of(f, (n - 1) as nat) + f(n - 1)
    }
}

/// Sums of equal values are equal.
pub proof fn lemma_sums_agree(f: spec_fn(int) -> real, g: spec_fn(int) -> real, n: nat)
    requires
        forall|i: int| 0 <= i < n ==> #[trigger] f(i) == g(i),
    ensures
        sum_of(f, n) == sum_of(g, n),
    decreases n,
{
    if n > 0 {
        lemma_sums_agree(f, g, (n - 1) as nat);
    }
}

/// A sum changes by as much as one of its values does.
pub proof fn lemma_sum_changes(f: spec_fn(int) -> real, g: spec_fn(int) -> real, k: int, n: nat)
    requires
        0 <= k < n,
        forall|i: int| 0 <= i < n && i != k ==> #[trigger] f(i) == g(i),
    ensures
        sum_of(g, n) == sum_of(f, n) - f(k) + g(k),
    decreases n,
{
    if k == n - 1 {
        lemma_sums_agree(f, g, (n - 1) as nat);
    } else {
        lemma_sum_changes(f, g, k, (n - 1) as nat);
    }
}

/// The square of the magnitude of a complex product.
pub proof fn lemma_norm(a: real, b: real, c: real, d: real)
    ensures
        (a * c - b * d) * (a * c - b * d) + (a * d + b * c) * (a * d + b * c) == (a * a + b * b) * (
        c * c + d * d),
{
    let (x, y, u, v) = (a * c, b * d, a * d, b * c);
    lemma_square_of_sum(x, -y);
    lemma_square_of_sum(u, v);
    lemma_negate(y, -y);
    lemma_negate(y, x);
    lemma_swap(x, -y);
    lemma_swap(y, -y);
    lemma_negate(y, y);
    lemma_crossed_product(a, b, c, d);
    lemma_swap(x, y);
    lemma_square_of_product(a, c);
    lemma_square_of_product(b, d);
    lemma_square_of_product(a, d);
    lemma_square_of_product(b, c);
    let (p, q, r, s) = (a * a, b * b, c * c, d * d);
    lemma_spread(p, q, 0real, 0real, 0real, r + s);
    lemma_spread(r, s, 0real, 0real, 0real, p);
    lemma_spread(r, s, 0real, 0real, 0real, q);
    lemma_swap(p, r + s);
    lemma_swap(q, r + s);
    lemma_swap(r, p);
    lemma_swap(s, p);
    lemma_swap(r, q);
    lemma_swap(s, q);
    assert(0real * (r + s) == 0real && 0real * p == 0real && 0real * q == 0real);
}

/// The square of a product.
pub proof fn lemma_square_of_product(a: real, c: real)
    ensures
        (a * c) * (a * c) == (a * a) * (c * c),
{
    let (x, r) = (a * c, c * c);
    lemma_regroup(a, c, x);
    lemma_swap(c, x);
    lemma_front(a, c);
    lemma_swap(a, r * a);
    lemma_front(r, a);
}

/// Two products with their second factors exchanged.
pub proof fn lemma_crossed_product(a: real, b: real, c: real, d: real)
    ensures
        (a * c) * (b * d) == (a * d) * (b * c),
{
    let (y, v) = (b * d, b * c);
    lemma_regroup(a, c, y);
    lemma_swap(c, y);
    lemma_rotate(b, d, c);
    lemma_rotate(a, d, v);
    lemma_regroup(a, v, d);
}

/// The square of a sum.
pub proof fn lemma_square_of_sum(a: real, b: real)
    by (nonlinear_arith)
    ensures
        (a + b) * (a + b) == a * a + 2real * (a * b) + b * b,
{
}

} // verus!
