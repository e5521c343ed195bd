//! The way back through a map ends where the way out began, but for what rounding does.

use vstd::prelude::*;
use vstd::arithmetic::power2::{
    lemma2_to64, lemma2_to64_rest, lemma_pow2_adds, lemma_pow2_pos, pow2,
};
use crate::cofactors::{
    det_exactly, lemma_adjugate, lemma_less, lemma_orders, lemma_shared, minors_exactly,
    row_exactly, rows_exactly,
};
use crate::homography::{
    determinant, inverted, mapped, minor, minors, row_at, DEGENERATE, NEAR_ZERO,
};
use crate::reals::{
    distance, lemma_difference_near, lemma_magnitude_real, lemma_order_real, lemma_product_near,
    lemma_quotient_near, lemma_real_of_digits, lemma_size_of_product, lemma_sum_near, moderate,
    real_of, size, size_is_not_below, slack, within,
};
use crate::single::{lemma_codes_order, magnitude, num, Single};

verus! {

broadcast use size_is_not_below;

/// A number too small to count.
pub open spec fn tiny() -> real {
    1real / 100000000000000000000000000000000000000000000real
}

/// How far rounding moves a number at most.
pub open spec fn rounding(x: real) -> real {
    size(x) / 16777000real + tiny()
}

/// A number that is far from too large.
pub open spec fn sound(x: real) -> bool {
    size(x) <= 100000000000000000000000000000real
}

pub proof fn lemma_rounding(x: real)
    requires
        sound(x),
    ensures
        moderate(x),
        slack(x) <= rounding(x),
{
    lemma2_to64();
    lemma_pow2_adds(64, 64);
    lemma_pow2_adds(21, 128);
    lemma_pow2_adds(64, 36);
    lemma2_to64_rest();
    assert(pow2(128) == 0x1_0000_0000_0000_0000 * 0x1_0000_0000_0000_0000);
    assert(pow2(149) == 0x20_0000 * pow2(128));
    assert(pow2(100) == 0x1_0000_0000_0000_0000 * 0x10_0000_0000);
    let u = pow2(149) as real;
    let t = 1real / u;
    assert(t <= tiny()) by (nonlinear_arith)
        requires
            t == 1real / u,
            u >= 100000000000000000000000000000000000000000000real,
            tiny() == 1real / 100000000000000000000000000000000000000000000real,
    ;
}

pub proof fn lemma_rounded_sum(a: Single, b: Single)
    requires
        a.finite(),
        b.finite(),
        sound(real_of(a) + real_of(b)),
    ensures
        within(a.sum(b), real_of(a) + real_of(b), rounding(real_of(a) + real_of(b))),
{
    lemma_rounding(real_of(a) + real_of(b));
    lemma_sum_near(a, b);
}

pub proof fn lemma_rounded_difference(a: Single, b: Single)
    requires
        a.finite(),
        b.finite(),
        sound(real_of(a) - real_of(b)),
    ensures
        within(a.difference(b), real_of(a) - real_of(b), rounding(real_of(a) - real_of(b))),
{
    lemma_rounding(real_of(a) - real_of(b));
    lemma_difference_near(a, b);
}

pub proof fn lemma_rounded_product(a: Single, b: Single)
    requires
        a.finite(),
        b.finite(),
        sound(real_of(a) * real_of(b)),
    ensures
        within(a.product(b), real_of(a) * real_of(b), rounding(real_of(a) * real_of(b))),
{
    lemma_rounding(real_of(a) * real_of(b));
    lemma_product_near(a, b);
}

pub proof fn lemma_rounded_quotient(a: Single, b: Single)
    requires
        a.finite(),
        b.finite(),
        real_of(b) != 0real,
        sound(real_of(a) / real_of(b)),
    ensures
        within(a.quotient(b), real_of(a) / real_of(b), rounding(real_of(a) / real_of(b))),
{
    lemma_rounding(real_of(a) / real_of(b));
    lemma_quotient_near(a, b);
}

/// A row is told to within three roundings of its terms.
pub open spec fn row_loss(terms: real) -> real {
    (301real / 100real) * (terms / 16777000real) + 5real * tiny()
}

/// A number that was rounded to `r` stayed within its bounds.
spec fn told(r: real, x: real, t: real) -> bool {
    size(r - x) <= size(x) / 16777000real + t
}

pub proof fn lemma_size_of_sum(x: real, y: real)
    ensures
        size(x + y) <= size(x) + size(y),
        0real <= size(x),
        0real <= size(y),
        0real <= size(x + y),
        size(-x) == size(x),
        size(-y) == size(y),
{
    reveal(size);
}

/// The losses of three roundings one after the other, by the sizes of the terms.
proof fn lemma_losses(a: real, b: real, d: real, e1: real, e2: real, e3: real, e4: real, t: real)
    requires
        0real <= a,
        0real <= b,
        0real <= d,
        0real <= t,
        0real <= e1 <= a / 16777000real + t,
        0real <= e2 <= b / 16777000real + t,
        0real <= e3 <= (a + e1 + b + e2) / 16777000real + t,
        0real <= e4 <= (a + e1 + b + e2 + e3 + d) / 16777000real + t,
    ensures
        e1 + e2 + e3 + e4 <= (301real / 100real) * ((a + b + d) / 16777000real) + 5real * t,
{
}

proof fn lemma_three_told(
    p: (real, real),
    q: (real, real),
    c: real,
    s: real,
    v: real,
    t: real,
)
    requires
        told(p.1, p.0, t),
        told(q.1, q.0, t),
        told(s, p.1 + q.1, t),
        told(v, s + c, t),
        t >= 0real,
    ensures
        size(v - (p.0 + q.0 + c)) <= (301real / 100real) * ((size(p.0) + size(q.0) + size(c))
            / 16777000real) + 5real * t,
{
    let (d1, d2, d3, d4) = (p.1 - p.0, q.1 - q.0, s - (p.1 + q.1), v - (s + c));
    let (e1, e2, e3, e4) = (size(d1), size(d2), size(d3), size(d4));
    lemma_size_of_sum(p.0, d1);
    lemma_size_of_sum(q.0, d2);
    lemma_size_of_sum(p.1, q.1);
    lemma_size_of_sum(p.1 + q.1, d3);
    lemma_size_of_sum(s, c);
    assert(p.0 + d1 == p.1 && q.0 + d2 == q.1 && p.1 + q.1 + d3 == s);
    lemma_losses(size(p.0), size(q.0), size(c), e1, e2, e3, e4, t);
    lemma_size_of_sum(d1, d2);
    lemma_size_of_sum(d1 + d2, d3);
    lemma_size_of_sum(d1 + d2 + d3, d4);
    assert(d1 + d2 + d3 + d4 == v - (p.0 + q.0 + c));
}

/// A row of a map at a point, by the sizes of its terms.
pub proof fn lemma_row(a: Single, b: Single, c: Single, x: Single, y: Single, terms: real)
    requires
        a.finite() && b.finite() && c.finite() && x.finite() && y.finite(),
        size(real_of(a) * real_of(x)) + size(real_of(b) * real_of(y)) + size(real_of(c)) <= terms,
        terms <= 10000000000000000000000000000real,
    ensures
        within(
            a.product(x).sum(b.product(y)).sum(c),
            row_exactly(real_of(a), real_of(b), real_of(c), real_of(x), real_of(y)),
            row_loss(terms),
        ),
{
    let p = real_of(a) * real_of(x);
    let q = real_of(b) * real_of(y);
    lemma_rounded_product(a, x);
    lemma_rounded_product(b, y);
    let s = a.product(x);
    let t = b.product(y);
    lemma_both_sound(p, real_of(s), q, real_of(t));
    lemma_rounded_sum(s, t);
    let v = s.sum(t);
    lemma_both_sound(real_of(s) + real_of(t), real_of(v), real_of(c), real_of(c));
    lemma_rounded_sum(v, c);
    lemma_three_told(
        (p, real_of(s)),
        (q, real_of(t)),
        real_of(c),
        real_of(v),
        real_of(v.sum(c)),
        tiny(),
    );
}

/// Two numbers of less than a twentieth of what is sound, once rounded, add up to a sound
/// one.
proof fn lemma_both_sound(x: real, r: real, y: real, s: real)
    requires
        told(r, x, tiny()) || r == x,
        told(s, y, tiny()) || s == y,
        size(x) <= 40000000000000000000000000000real,
        size(y) <= 40000000000000000000000000000real,
    ensures
        sound(r + s),
        size(r + s) <= size(x) + size(y) + 10000000000000000000000real,
{
    reveal(size);
}

pub proof fn lemma_size_of_both(x: real, y: real)
    ensures
        size(x * y) == size(x) * size(y),
{
    reveal(size);
    assert((-x) * y == -(x * y) && x * (-y) == -(x * y) && (-x) * (-y) == x * y)
        by (nonlinear_arith);
    let (a, b) = (size(x), size(y));
    assert(a * b >= 0real) by (nonlinear_arith)
        requires
            a >= 0real,
            b >= 0real,
    ;
}

/// What a factor that is not below `g` leaves of a product.
pub proof fn lemma_divided(y: real, d: real, g: real, e: real)
    requires
        size(y * d) <= e,
        size(d) >= g,
    ensures
        size(y) * g <= e,
{
    reveal(size);
    lemma_size_of_both(y, d);
    let (a, b) = (size(y), size(d));
    assert(a * g <= a * b) by (nonlinear_arith)
        requires
            a >= 0real,
            g <= b,
    ;
}

pub proof fn lemma_over(a: real, b: real)
    requires
        b != 0real,
    ensures
        (a / b) * b == a,
{
    let z = a / b;
    assert(z * b == a) by (nonlinear_arith)
        requires
            z == a / b,
            b != 0real,
    ;
}

/// A quotient, times what it was taken by, is close to what was told of its dividend.
pub proof fn lemma_quotient_back(top: Single, exact: real, e: real, w: Single)
    requires
        within(top, exact, e),
        w.finite(),
        real_of(w) != 0real,
        sound(real_of(top) / real_of(w)),
    ensures
        top.quotient(w).finite(),
        distance(real_of(top.quotient(w)) * real_of(w), exact) <= e + (size(exact) + e)
            / 16777000real + tiny() * size(real_of(w)),
{
    let d = real_of(w);
    let t = real_of(top);
    let z = t / d;
    lemma_over(t, d);
    lemma_rounded_quotient(top, w);
    let q = real_of(top.quotient(w));
    lemma_less(q, z, d);
    lemma_size_of_both(q - z, d);
    lemma_size_of_both(z, d);
    let (m, n) = (size(z), size(d));
    let h = size(q - z);
    assert(h * n <= (m * n) / 16777000real + tiny() * n) by (nonlinear_arith)
        requires
            h <= m / 16777000real + tiny(),
            n >= 0real,
    ;
    lemma_size_of_sum(exact, t - exact);
    lemma_size_of_sum(q * d - t, t - exact);
    assert(q * d - t + (t - exact) == q * d - exact);
}

pub proof fn lemma_absolute(v: Single)
    requires
        v.finite(),
    ensures
        v.absolute().finite(),
        real_of(v.absolute()) == size(real_of(v)),
{
    reveal(size);
    lemma_magnitude_real(v);
    lemma_magnitude_real(v.absolute());
    lemma_codes_order(v.code(), 0);
    lemma_pow2_pos(149);
    let u = pow2(149) as real;
    let m = magnitude(v.code()) as real;
    assert(m / u >= 0real) by (nonlinear_arith)
        requires
            m >= 0real,
            u > 0real,
    ;
}

/// The bounds below which a map has no inverse and a point no image.
pub proof fn lemma_thresholds()
    ensures
        num(DEGENERATE).finite(),
        real_of(num(DEGENERATE)) <= 2real / 1000000000000real,
        num(NEAR_ZERO).finite(),
        9real / 10000000000real <= real_of(num(NEAR_ZERO)) <= 2real / 1000000000real,
{
    lemma2_to64_rest();
    assert(DEGENERATE as int / 0x80_0000 == 87 && DEGENERATE as int % 0x80_0000 == 0x0C_BCCC);
    assert(NEAR_ZERO as int / 0x80_0000 == 97 && NEAR_ZERO as int % 0x80_0000 == 0x09_705F);
    lemma_real_of_digits(DEGENERATE, 9223372, 63);
    lemma_real_of_digits(NEAR_ZERO, 9007199, 53);
    let (p, q) = (pow2(63) as real, pow2(53) as real);
    let (a, b) = (9223372int as real, 9007199int as real);
    assert(a / p <= 2real / 1000000000000real) by (nonlinear_arith)
        requires
            p >= 9223372036854775808real,
            a <= 9223372real,
    ;
    assert(b / q <= 2real / 1000000000real) by (nonlinear_arith)
        requires
            q >= 9007199254740992real,
            b <= 9007199real,
    ;
    assert(b / q >= 9real / 10000000000real) by (nonlinear_arith)
        requires
            0real < q <= 9007199254740992real,
            b >= 9007199real,
    ;
}

/// A minor, by the sizes of its two products.
pub open spec fn minor_loss(k: real) -> real {
    (201real / 100real) * (k / 16777000real) + 4real * tiny()
}

proof fn lemma_two_losses(a: real, b: real, e1: real, e2: real, e3: real, t: real)
    requires
        0real <= a,
        0real <= b,
        0real <= t,
        0real <= e1 <= a / 16777000real + t,
        0real <= e2 <= b / 16777000real + t,
        0real <= e3 <= (a + e1 + b + e2) / 16777000real + t,
    ensures
        e1 + e2 + e3 <= (201real / 100real) * ((a + b) / 16777000real) + 4real * t,
{
}

pub proof fn lemma_minor(a: Single, d: Single, b: Single, c: Single, k: real)
    requires
        a.finite() && b.finite() && c.finite() && d.finite(),
        size(real_of(a) * real_of(d)) + size(real_of(b) * real_of(c)) == k,
        k <= 10000000000000000000000000000real,
    ensures
        within(
            minor(a, d, b, c),
            real_of(a) * real_of(d) - real_of(b) * real_of(c),
            minor_loss(k),
        ),
        size(real_of(a) * real_of(d) - real_of(b) * real_of(c)) <= k,
{
    let x = real_of(a) * real_of(d);
    let y = real_of(b) * real_of(c);
    lemma_rounded_product(a, d);
    lemma_rounded_product(b, c);
    let p = real_of(a.product(d));
    let q = real_of(b.product(c));
    lemma_size_of_sum(x, p - x);
    lemma_size_of_sum(y, q - y);
    lemma_size_of_sum(p, -q);
    assert(size(-q) == size(q) && size(-y) == size(y));
    lemma_size_of_sum(x, -y);
    lemma_rounded_difference(a.product(d), b.product(c));
    let v = real_of(minor(a, d, b, c));
    lemma_two_losses(size(x), size(y), size(p - x), size(q - y), size(v - (p - q)), tiny());
    lemma_size_of_sum(p - x, -(q - y));
    assert(size(-(q - y)) == size(q - y));
    lemma_size_of_sum((p - x) - (q - y), v - (p - q));
    assert((p - x) - (q - y) + (v - (p - q)) == v - (x - y));
}

/// The sizes of a row of a map, added up.
pub open spec fn row_size(m: Seq<real>, r: int) -> real {
    size(m[3 * r]) + size(m[3 * r + 1]) + size(m[3 * r + 2])
}

/// The sizes of the two products of each minor, added up.
pub open spec fn minor_sizes(m: Seq<real>) -> Seq<real> {
    seq![
        size(m[4] * m[8]) + size(m[5] * m[7]),
        size(m[2] * m[7]) + size(m[1] * m[8]),
        size(m[1] * m[5]) + size(m[2] * m[4]),
        size(m[5] * m[6]) + size(m[3] * m[8]),
        size(m[0] * m[8]) + size(m[2] * m[6]),
        size(m[2] * m[3]) + size(m[0] * m[5]),
        size(m[3] * m[7]) + size(m[4] * m[6]),
        size(m[1] * m[6]) + size(m[0] * m[7]),
        size(m[0] * m[4]) + size(m[1] * m[3]),
    ]
}

/// The numbers of a map.
pub open spec fn reals_of(m: Seq<Single>) -> Seq<real> {
    Seq::new(9, |i: int| real_of(m[i]))
}

/// Nine numbers that are not above a million.
pub open spec fn bounded_map(m: Seq<Single>) -> bool {
    m.len() == 9 && forall|i: int|
        0 <= i < 9 ==> (#[trigger] m[i]).finite() && size(real_of(m[i])) <= 1000000real
}

proof fn lemma_one_minor(m: Seq<Single>, a: int, d: int, b: int, c: int)
    requires
        bounded_map(m),
        0 <= a < 9 && 0 <= b < 9 && 0 <= c < 9 && 0 <= d < 9,
    ensures
        ({
            let x = real_of(m[a]) * real_of(m[d]);
            let y = real_of(m[b]) * real_of(m[c]);
            &&& within(minor(m[a], m[d], m[b], m[c]), x - y, minor_loss(size(x) + size(y)))
            &&& size(x - y) <= size(x) + size(y) <= 2000000000000real
        }),
{
    assert(m[a].finite() && m[b].finite() && m[c].finite() && m[d].finite());
    lemma_size_of_product(real_of(m[a]), real_of(m[d]), 1000000real, 1000000real);
    lemma_size_of_product(real_of(m[b]), real_of(m[c]), 1000000real, 1000000real);
    let k = size(real_of(m[a]) * real_of(m[d])) + size(real_of(m[b]) * real_of(m[c]));
    lemma_minor(m[a], m[d], m[b], m[c], k);
}

proof fn lemma_minors_close(m: Seq<Single>)
    requires
        bounded_map(m),
    ensures
        forall|i: int|
            0 <= i < 9 ==> {
                let k = minor_sizes(reals_of(m))[i];
                let x = minors_exactly(reals_of(m))[i];
                &&& within(#[trigger] minors(m)[i], x, minor_loss(k))
                &&& size(x) <= k <= 2000000000000real
            },
{
    lemma_one_minor(m, 4, 8, 5, 7);
    lemma_one_minor(m, 2, 7, 1, 8);
    lemma_one_minor(m, 1, 5, 2, 4);
    lemma_one_minor(m, 5, 6, 3, 8);
    lemma_one_minor(m, 0, 8, 2, 6);
    lemma_one_minor(m, 2, 3, 0, 5);
    lemma_one_minor(m, 3, 7, 4, 6);
    lemma_one_minor(m, 1, 6, 0, 7);
    lemma_one_minor(m, 0, 4, 1, 3);
}

/// The losses of a number times a minor that is itself told.
proof fn lemma_scaled_loss(a: real, k: real, p: real, e: real, t: real)
    requires
        0real <= a <= 1000000real,
        0real <= k,
        p == a * k,
        0real <= t,
        0real <= e <= (201real / 100real) * (k / 16777000real) + 4real * t,
    ensures
        a * e + (a * (k + e)) / 16777000real + t <= (302real / 100real) * (p / 16777000real)
            + 6000000real * t,
{
    let f = k / 16777000real;
    let g = (201real / 100real) * f + 4real * t;
    assert(a * e <= a * g) by (nonlinear_arith)
        requires
            0real <= a,
            e <= g,
    ;
    assert(a * g == (201real / 100real) * (a * f) + 4real * (t * a)) by (nonlinear_arith)
        requires
            g == (201real / 100real) * f + 4real * t,
    ;
    assert(a * f == p / 16777000real) by (nonlinear_arith)
        requires
            p == a * k,
            f == k / 16777000real,
    ;
    assert(a * (k + e) == p + a * e) by (nonlinear_arith)
        requires
            p == a * k,
    ;
    assert(t * a <= 1000000real * t) by (nonlinear_arith)
        requires
            0real <= a <= 1000000real,
            t >= 0real,
    ;
    assert(p >= 0real) by (nonlinear_arith)
        requires
            p == a * k,
            a >= 0real,
            k >= 0real,
    ;
}

/// A number of a map times one of its minors.
proof fn lemma_det_term(a: Single, k: Single, x: real, s: real)
    requires
        a.finite(),
        size(real_of(a)) <= 1000000real,
        within(k, x, minor_loss(s)),
        size(x) <= s <= 2000000000000real,
    ensures
        within(
            a.product(k),
            real_of(a) * x,
            (302real / 100real) * ((size(real_of(a)) * s) / 16777000real) + 6000000real * tiny(),
        ),
        size(real_of(a) * x) <= size(real_of(a)) * s,
        size(real_of(a)) * s <= 2000000000000000000real,
{
    let (ra, rk) = (real_of(a), real_of(k));
    let e = size(rk - x);
    lemma_size_of_both(ra, rk);
    lemma_size_of_both(ra, rk - x);
    lemma_size_of_both(ra, x);
    lemma_less(rk, x, ra);
    lemma_size_of_sum(x, rk - x);
    let n = size(ra);
    assert(n * size(rk) <= n * (s + e)) by (nonlinear_arith)
        requires
            n >= 0real,
            size(rk) <= s + e,
    ;
    assert(n * size(x) <= n * s) by (nonlinear_arith)
        requires
            n >= 0real,
            size(x) <= s,
    ;
    assert(n * s <= 2000000000000000000real) by (nonlinear_arith)
        requires
            0real <= n <= 1000000real,
            0real <= s <= 2000000000000real,
    ;
    lemma_scaled_loss(n, s, n * s, e, tiny());
    assert(n * e >= 0real) by (nonlinear_arith)
        requires
            n >= 0real,
            e >= 0real,
    ;
    lemma_rounded_product(a, k);
    let v = real_of(a.product(k));
    lemma_size_of_sum(v - ra * rk, ra * (rk - x));
    assert(v - ra * rk + ra * (rk - x) == v - ra * x);
}

proof fn lemma_det_losses(
    p: (real, real, real),
    e: (real, real, real),
    e3: real,
    e4: real,
    j: real,
    t: real,
)
    requires
        0real <= p.0 && 0real <= p.1 && 0real <= p.2,
        0real <= t <= j,
        0real <= e.0 <= (302real / 100real) * (p.0 / 16777000real) + j,
        0real <= e.1 <= (302real / 100real) * (p.1 / 16777000real) + j,
        0real <= e.2 <= (302real / 100real) * (p.2 / 16777000real) + j,
        0real <= e3 <= (p.0 + e.0 + p.1 + e.1) / 16777000real + t,
        0real <= e4 <= (p.0 + e.0 + p.1 + e.1 + e3 + p.2 + e.2) / 16777000real + t,
    ensures
        e.0 + e.1 + e.2 + e3 + e4 <= 6real * ((p.0 + p.1 + p.2) / 16777000real) + 6real * j,
{
}

/// The sizes of the three terms of the determinant, added up.
spec fn det_size(m: Seq<real>) -> real {
    size(m[0]) * minor_sizes(m)[0] + size(m[1]) * minor_sizes(m)[3] + size(m[2])
        * minor_sizes(m)[6]
}

proof fn lemma_det_close(m: Seq<Single>)
    requires
        bounded_map(m),
    ensures
        within(
            determinant(m),
            det_exactly(reals_of(m)),
            6real * (det_size(reals_of(m)) / 16777000real) + 36000000real * tiny(),
        ),
        size(det_exactly(reals_of(m))) <= det_size(reals_of(m)) <= 6000000000000000000real,
{
    let r = reals_of(m);
    let k = minors(m);
    let (x, z) = (minors_exactly(r), minor_sizes(r));
    lemma_minors_close(m);
    assert(m[0].finite() && m[1].finite() && m[2].finite());
    assert(within(k[0], x[0], minor_loss(z[0])) && size(x[0]) <= z[0] <= 2000000000000real);
    assert(within(k[3], x[3], minor_loss(z[3])) && size(x[3]) <= z[3] <= 2000000000000real);
    assert(within(k[6], x[6], minor_loss(z[6])) && size(x[6]) <= z[6] <= 2000000000000real);
    lemma_det_term(m[0], k[0], x[0], z[0]);
    lemma_det_term(m[1], k[3], x[3], z[3]);
    lemma_det_term(m[2], k[6], x[6], z[6]);
    lemma_det_sum(
        m[0].product(k[0]),
        m[1].product(k[3]),
        m[2].product(k[6]),
        (r[0] * x[0], r[1] * x[3], r[2] * x[6]),
        (size(r[0]) * z[0], size(r[1]) * z[3], size(r[2]) * z[6]),
    );
}

proof fn lemma_det_sum(a: Single, b: Single, c: Single, x: (real, real, real), p: (real, real, real))
    requires
        within(a, x.0, (302real / 100real) * (p.0 / 16777000real) + 6000000real * tiny()),
        within(b, x.1, (302real / 100real) * (p.1 / 16777000real) + 6000000real * tiny()),
        within(c, x.2, (302real / 100real) * (p.2 / 16777000real) + 6000000real * tiny()),
        size(x.0) <= p.0 <= 2000000000000000000real,
        size(x.1) <= p.1 <= 2000000000000000000real,
        size(x.2) <= p.2 <= 2000000000000000000real,
    ensures
        within(
            a.sum(b).sum(c),
            x.0 + x.1 + x.2,
            6real * ((p.0 + p.1 + p.2) / 16777000real) + 36000000real * tiny(),
        ),
        size(x.0 + x.1 + x.2) <= p.0 + p.1 + p.2,
{
    let (ra, rb, rc) = (real_of(a), real_of(b), real_of(c));
    let (d0, d1, d2) = (ra - x.0, rb - x.1, rc - x.2);
    lemma_size_of_sum(x.0, d0);
    lemma_size_of_sum(x.1, d1);
    lemma_size_of_sum(x.2, d2);
    assert(x.0 + d0 == ra && x.1 + d1 == rb && x.2 + d2 == rc);
    lemma_size_of_sum(ra, rb);
    lemma_rounded_sum(a, b);
    let s = a.sum(b);
    let rs = real_of(s);
    let d3 = rs - (ra + rb);
    lemma_size_of_sum(ra + rb, d3);
    lemma_size_of_sum(rs, rc);
    lemma_rounded_sum(s, c);
    let v = real_of(s.sum(c));
    let d4 = v - (rs + rc);
    lemma_det_losses(
        p,
        (size(d0), size(d1), size(d2)),
        size(d3),
        size(d4),
        6000000real * tiny(),
        tiny(),
    );
    lemma_size_of_sum(d0, d1);
    lemma_size_of_sum(d0 + d1, d2);
    lemma_size_of_sum(d0 + d1 + d2, d3);
    lemma_size_of_sum(d0 + d1 + d2 + d3, d4);
    assert(d0 + d1 + d2 + d3 + d4 == v - (x.0 + x.1 + x.2));
    lemma_size_of_sum(x.0, x.1);
    lemma_size_of_sum(x.0 + x.1, x.2);
}

/// How much a row of the inverse magnifies what the rows of the map are off, in parts of
/// the determinant.
pub open spec fn magnification(m: Seq<real>, r: int) -> real {
    minor_sizes(m)[3 * r] * row_size(m, 0) + minor_sizes(m)[3 * r + 1] * row_size(m, 1)
        + minor_sizes(m)[3 * r + 2] * row_size(m, 2)
}

/// A map whose inverse is well conditioned: no row of it magnifies what is off by more than
/// eighty.
pub open spec fn well_conditioned(m: Seq<Single>) -> bool {
    let r = reals_of(m);
    let d = size(det_exactly(r));
    &&& bounded_map(m)
    &&& d >= 1real / 100000000000real
    &&& magnification(r, 0) <= 80real * d
    &&& magnification(r, 1) <= 80real * d
    &&& magnification(r, 2) <= 80real * d
}

pub proof fn lemma_positive_product(a: real, b: real)
    requires
        a >= 0real,
        b >= 0real,
    ensures
        a * b >= 0real,
{
    assert(a * b >= 0real) by (nonlinear_arith)
        requires
            a >= 0real,
            b >= 0real,
    ;
}

/// A term of a magnification is no more than the whole.
proof fn lemma_part_of_magnification(m: Seq<real>, r: int)
    requires
        0 <= r < 3,
    ensures
        ({
            let k = minor_sizes(m);
            &&& 0real <= k[3 * r] * row_size(m, 0) <= magnification(m, r)
            &&& 0real <= k[3 * r + 1] * row_size(m, 1) <= magnification(m, r)
            &&& 0real <= k[3 * r + 2] * row_size(m, 2) <= magnification(m, r)
        }),
{
    let k = minor_sizes(m);
    assert(k[3 * r] >= 0real && k[3 * r + 1] >= 0real && k[3 * r + 2] >= 0real);
    lemma_positive_product(k[3 * r], row_size(m, 0));
    lemma_positive_product(k[3 * r + 1], row_size(m, 1));
    lemma_positive_product(k[3 * r + 2], row_size(m, 2));
}

proof fn lemma_smaller_factor(a: real, b: real, k: real)
    requires
        a <= b,
        k >= 0real,
    ensures
        a * k <= k * b,
{
    assert(a * k <= k * b) by (nonlinear_arith)
        requires
            a <= b,
            k >= 0real,
    ;
}

/// The determinant of a well conditioned map is told to within a ten-thousandth of it.
proof fn lemma_det_told(m: Seq<Single>)
    requires
        well_conditioned(m),
    ensures
        ({
            let d = det_exactly(reals_of(m));
            &&& within(determinant(m), d, size(d) / 10000real)
            &&& size(d) <= 6000000000000000000real
        }),
{
    let r = reals_of(m);
    let k = minor_sizes(r);
    lemma_det_close(m);
    lemma_part_of_magnification(r, 0);
    lemma_part_of_magnification(r, 1);
    lemma_part_of_magnification(r, 2);
    lemma_smaller_factor(size(r[0]), row_size(r, 0), k[0]);
    lemma_smaller_factor(size(r[1]), row_size(r, 0), k[3]);
    lemma_smaller_factor(size(r[2]), row_size(r, 0), k[6]);
}

/// How well a coordinate of a point's image is told, times the last one, by the size of
/// its row.
pub open spec fn point_loss(r: real) -> real {
    (402real / 100real) * (r / 16777000real) + 5000000real * tiny()
}

/// How well a number of the inverse is told, times the determinant, by the size of its
/// minor.
spec fn entry_loss(k: real) -> real {
    (302real / 100real) * (k / 16777000real) + 7000000000000000000real * tiny()
}

pub proof fn lemma_share_of(a: real, x: real)
    requires
        0real <= x <= 1real,
    ensures
        size(a * x) <= size(a),
{
    lemma_size_of_both(a, x);
    assert(size(x) == x) by {
        reveal(size);
    }
    let n = size(a);
    assert(n * x <= n) by (nonlinear_arith)
        requires
            n >= 0real,
            x <= 1real,
    ;
}

/// One row of a map at a point of the frame.
proof fn lemma_row_out(m: Seq<Single>, r: int, x: Single, y: Single)
    requires
        bounded_map(m),
        0 <= r < 3,
        x.finite() && 0real <= real_of(x) <= 1real,
        y.finite() && 0real <= real_of(y) <= 1real,
    ensures
        ({
            let z = row_size(reals_of(m), r);
            let exact = row_exactly(
                real_of(m[3 * r]),
                real_of(m[3 * r + 1]),
                real_of(m[3 * r + 2]),
                real_of(x),
                real_of(y),
            );
            &&& within(row_at(m, r, x, y), exact, row_loss(z))
            &&& size(exact) <= z <= 3000000real
        }),
{
    let (a, b, c) = (m[3 * r], m[3 * r + 1], m[3 * r + 2]);
    assert(a.finite() && b.finite() && c.finite());
    lemma_share_of(real_of(a), real_of(x));
    lemma_share_of(real_of(b), real_of(y));
    let z = row_size(reals_of(m), r);
    assert(size(real_of(a)) <= 1000000real);
    assert(size(real_of(b)) <= 1000000real);
    assert(size(real_of(c)) <= 1000000real);
    lemma_row(a, b, c, x, y, z);
    assert(r * 3 == 3 * r);
    lemma_size_of_sum(real_of(a) * real_of(x), real_of(b) * real_of(y));
    lemma_size_of_sum(
        real_of(a) * real_of(x) + real_of(b) * real_of(y),
        real_of(c),
    );
}

/// A number by one that is not below `g`, in size.
pub proof fn lemma_quotient_sound(a: real, d: real, g: real, b: real)
    requires
        size(d) >= g > 0real,
        size(a) <= b,
        b <= 100000000000000000000000000000real * g,
    ensures
        d != 0real,
        sound(a / d),
{
    assert(d != 0real) by {
        reveal(size);
    }
    let z = a / d;
    lemma_over(a, d);
    lemma_divided(z, d, g, b);
    let n = size(z);
    assert(n <= 100000000000000000000000000000real) by (nonlinear_arith)
        requires
            n * g <= 100000000000000000000000000000real * g,
            g > 0real,
    ;
}

/// The rows of a map at a point of the frame, and the point's image.
pub proof fn lemma_way_out(m: Seq<Single>, x: Single, y: Single)
    requires
        bounded_map(m),
        x.finite() && 0real <= real_of(x) <= 1real,
        y.finite() && 0real <= real_of(y) <= 1real,
        mapped(m, x, y) is Some,
    ensures
        ({
            let w = row_at(m, 2, x, y);
            let u = row_at(m, 0, x, y).quotient(w);
            let v = row_at(m, 1, x, y).quotient(w);
            let q = reals_of(m);
            let r = rows_exactly(q, real_of(x), real_of(y));
            &&& mapped(m, x, y) == Some((u, v))
            &&& w.finite() && u.finite() && v.finite()
            &&& 9real / 10000000000real <= size(real_of(w)) <= 4000000real
            &&& size(real_of(u) * real_of(w) - r.0) <= point_loss(row_size(q, 0))
            &&& size(real_of(v) * real_of(w) - r.1) <= point_loss(row_size(q, 1))
            &&& size(real_of(w) - r.2) <= point_loss(row_size(q, 2))
            &&& size(r.0) <= row_size(q, 0) <= 3000000real
            &&& size(r.1) <= row_size(q, 1) <= 3000000real
            &&& size(r.2) <= row_size(q, 2) <= 3000000real
        }),
{
    let w = row_at(m, 2, x, y);
    let q = reals_of(m);
    let r = rows_exactly(q, real_of(x), real_of(y));
    lemma_row_out(m, 0, x, y);
    lemma_row_out(m, 1, x, y);
    lemma_row_out(m, 2, x, y);
    lemma_thresholds();
    lemma_absolute(w);
    lemma_order_real(w.absolute(), num(NEAR_ZERO));
    let (a, b) = (row_at(m, 0, x, y), row_at(m, 1, x, y));
    lemma_size_of_sum(r.0, real_of(a) - r.0);
    lemma_size_of_sum(r.1, real_of(b) - r.1);
    lemma_size_of_sum(r.2, real_of(w) - r.2);
    assert(r.0 + (real_of(a) - r.0) == real_of(a));
    assert(r.1 + (real_of(b) - r.1) == real_of(b));
    assert(r.2 + (real_of(w) - r.2) == real_of(w));
    let g = 9real / 10000000000real;
    lemma_quotient_sound(real_of(a), real_of(w), g, 4000000real);
    lemma_quotient_sound(real_of(b), real_of(w), g, 4000000real);
    lemma_quotient_back(a, r.0, row_loss(row_size(q, 0)), w);
    lemma_quotient_back(b, r.1, row_loss(row_size(q, 1)), w);
    let n = size(real_of(w));
    assert(tiny() * n <= 4000000real * tiny()) by (nonlinear_arith)
        requires
            n <= 4000000real,
            tiny() >= 0real,
    ;
}

/// The inverse of a well conditioned map, number by number.
proof fn lemma_inverse_close(m: Seq<Single>)
    requires
        well_conditioned(m),
    ensures
        inverted(m) is Some,
        (inverted(m)->0).len() == 9,
        forall|i: int|
            0 <= i < 9 ==> {
                let k = minor_sizes(reals_of(m))[i];
                let x = minors_exactly(reals_of(m))[i];
                let q = #[trigger] (inverted(m)->0)[i];
                &&& q.finite()
                &&& size(real_of(q) * real_of(determinant(m)) - x) <= entry_loss(k)
                &&& size(x) <= k <= 2000000000000real
            },
{
    let det = determinant(m);
    let d = det_exactly(reals_of(m));
    lemma_det_told(m);
    lemma_minors_close(m);
    lemma_thresholds();
    lemma_absolute(det);
    lemma_order_real(det.absolute(), num(DEGENERATE));
    lemma_size_of_sum(real_of(det), d - real_of(det));
    lemma_size_of_sum(d, real_of(det) - d);
    assert(size(d - real_of(det)) == size(real_of(det) - d)) by {
        reveal(size);
    }
    assert(real_of(det) + (d - real_of(det)) == d && d + (real_of(det) - d) == real_of(det));
    let n = size(real_of(det));
    assert(n >= 9real / 1000000000000real && n <= 6100000000000000000real);
    assert(tiny() * n <= 6100000000000000000real * tiny()) by (nonlinear_arith)
        requires
            n <= 6100000000000000000real,
            tiny() >= 0real,
    ;
    let r = Seq::new(9, |i: int| minors(m)[i].quotient(det));
    assert forall|i: int| 0 <= i < 9 implies {
        let k = minor_sizes(reals_of(m))[i];
        let x = minors_exactly(reals_of(m))[i];
        let q = #[trigger] r[i];
        &&& q.finite()
        &&& size(real_of(q) * real_of(det) - x) <= entry_loss(k)
        &&& size(x) <= k <= 2000000000000real
    } by {
        let k = minor_sizes(reals_of(m))[i];
        let x = minors_exactly(reals_of(m))[i];
        let c = minors(m)[i];
        assert(within(c, x, minor_loss(k)) && size(x) <= k <= 2000000000000real);
        lemma_size_of_sum(x, real_of(c) - x);
        assert(x + (real_of(c) - x) == real_of(c));
        lemma_quotient_sound(
            real_of(c),
            real_of(det),
            9real / 1000000000000real,
            3000000000000real,
        );
        lemma_quotient_back(c, x, minor_loss(k), det);
    }
    assert(inverted(m) == Some(r));
}

/// Two products of a bound each.
pub proof fn lemma_bounds(a: real, b: real, x: real, y: real)
    requires
        0real <= a <= x,
        0real <= b <= y,
    ensures
        a * b <= x * y,
{
    assert(a * b <= x * y) by (nonlinear_arith)
        requires
            0real <= a <= x,
            0real <= b <= y,
    ;
}

/// A share of `k` times `r`, in parts of `r` and of `k`.
proof fn lemma_parts(k: real, r: real)
    ensures
        k * (r / 16777000real) == (k * r) / 16777000real,
        (k / 16777000real) * r == (k * r) / 16777000real,
{
    assert(k * (r / 16777000real) == (k * r) / 16777000real) by (nonlinear_arith);
    assert((k / 16777000real) * r == (k * r) / 16777000real) by (nonlinear_arith);
}

proof fn lemma_expanded(c: real, a: real, l: real, e: real, r: real, j: real)
    ensures
        (c * a + l) * (e * r + j) == (c * e) * (a * r) + c * (j * a) + e * (l * r) + l * j,
{
    assert((c * a + l) * (e * r + j) == (c * a) * (e * r) + (c * a) * j + l * (e * r) + l * j)
        by (nonlinear_arith);
    assert((c * a) * (e * r) == (c * e) * (a * r)) by (nonlinear_arith);
    assert((c * a) * j == c * (j * a)) by (nonlinear_arith);
    assert(l * (e * r) == e * (l * r)) by (nonlinear_arith);
}

proof fn lemma_spread(k: real, c: real, b: real, j: real)
    ensures
        k * (c * b + j) == c * (k * b) + j * k,
{
    assert(k * (c * b + j) == k * (c * b) + k * j) by (nonlinear_arith);
    assert(k * (c * b) == c * (k * b)) by (nonlinear_arith);
    assert(k * j == j * k) by (nonlinear_arith);
}

proof fn lemma_term_sum(kg: real, fr: real, z: real, jk: real, ja: real, lr: real, lj: real)
    requires
        kg <= (402real / 100real) * z + jk,
        fr <= (3021real / 1000real) * z + (302real / 100real) * ja + (10001real / 10000real) * lr
            + lj,
        z >= 0real,
        jk <= 1real / 100000000000000000000real,
        ja <= 1real / 100000000000000000000real,
        lr <= 3real / 10000000000000000000real,
        lj <= 1real / 100000000000000000000real,
    ensures
        fr + kg <= (706real / 100real) * z + 1real / 1000000000000000000real,
{
}

/// The losses of a term of the way back, by the size `k r` of the term.
proof fn lemma_term_losses(k: real, r: real, f: real, g: real)
    requires
        0real <= k <= 2000000000000real,
        0real <= r <= 3000000real,
        0real <= f <= entry_loss(k),
        0real <= g <= point_loss(r),
    ensures
        f * (r + g) + k * g <= (706real / 100real) * ((k * r) / 16777000real) + 1real
            / 1000000000000000000real,
{
    let a = k / 16777000real;
    let b = r / 16777000real;
    let j = 5000000real * tiny();
    let l = 7000000000000000000real * tiny();
    let z = (k * r) / 16777000real;
    let (c, d, e) = (302real / 100real, 402real / 100real, 10001real / 10000real);
    lemma_parts(k, r);
    lemma_positive_product(k, r);
    lemma_bounds(k, g, k, d * b + j);
    lemma_spread(k, d, b, j);
    lemma_bounds(f, r + g, c * a + l, e * r + j);
    lemma_expanded(c, a, l, e, r, j);
    lemma_bounds(j, k, j, 2000000000000real);
    lemma_bounds(j, a, j, 2000000000000real);
    lemma_bounds(l, r, l, 3000000real);
    lemma_bounds(l, j, 1real, j);
    assert(c * e <= 3021real / 1000real) by (nonlinear_arith)
        requires
            c == 302real / 100real,
            e == 10001real / 10000real,
    ;
    lemma_positive_product(c, e);
    lemma_bounds(c * e, a * r, 3021real / 1000real, a * r);
    lemma_term_sum(k * g, f * (r + g), z, j * k, j * a, l * r, l * j);
}

/// One term of a way back: a number of the inverse times a number of the point, in parts of
/// the determinant and of the point's last coordinate.
proof fn lemma_term(q: real, p: real, d: real, w: real, x: real, y: real, k: real, r: real)
    requires
        size(q * d - x) <= entry_loss(k),
        size(p * w - y) <= point_loss(r),
        size(x) <= k <= 2000000000000real,
        size(y) <= r <= 3000000real,
    ensures
        size((q * p) * (d * w) - x * y) <= (706real / 100real) * ((k * r) / 16777000real) + 1real
            / 1000000000000000000real,
        size(q * p) * size(d * w) <= (1001real / 1000real) * (k * r) + 1real
            / 1000000000000000000real,
{
    let (a, b) = (q * d, p * w);
    assert((q * p) * (d * w) == a * b) by (nonlinear_arith)
        requires
            a == q * d,
            b == p * w,
    ;
    let (f, g) = (a - x, b - y);
    lemma_less(a, x, b);
    lemma_less(b, y, x);
    assert(a * b - x * y == f * b + x * g);
    lemma_size_of_sum(f * b, x * g);
    lemma_size_of_both(f, b);
    lemma_size_of_both(x, g);
    lemma_size_of_sum(y, g);
    assert(y + g == b);
    lemma_bounds(size(f), size(b), size(f), r + size(g));
    lemma_bounds(size(x), size(g), k, size(g));
    lemma_term_losses(k, r, size(f), size(g));
    lemma_size_of_both(x, y);
    lemma_bounds(size(x), size(y), k, r);
    lemma_size_of_sum(x * y, a * b - x * y);
    assert(x * y + (a * b - x * y) == a * b);
    lemma_size_of_both(q * p, d * w);
    lemma_positive_product(k, r);
}

/// What three terms and their sum are off, in parts of the determinant `n`.
proof fn lemma_row_losses(
    t: (real, real, real),
    e: (real, real, real),
    x: (real, real, real),
    h: real,
    a: real,
    n: real,
)
    requires
        n >= 1real / 100000000000real,
        0real <= t.0 && 0real <= t.1 && 0real <= t.2,
        t.0 + t.1 + t.2 <= 80real * n,
        e.0 <= (706real / 100real) * (t.0 / 16777000real) + 1real / 1000000000000000000real,
        e.1 <= (706real / 100real) * (t.1 / 16777000real) + 1real / 1000000000000000000real,
        e.2 <= (706real / 100real) * (t.2 / 16777000real) + 1real / 1000000000000000000real,
        x.0 * a <= (1001real / 1000real) * t.0 + 1real / 1000000000000000000real,
        x.1 * a <= (1001real / 1000real) * t.1 + 1real / 1000000000000000000real,
        x.2 * a <= (1001real / 1000real) * t.2 + 1real / 1000000000000000000real,
        0real <= a <= 30000000000000000000000000real,
        0real <= h <= row_loss(x.0 + x.1 + x.2),
    ensures
        e.0 + e.1 + e.2 + h * a <= (49real / 1000000real) * n,
{
    let s = x.0 + x.1 + x.2;
    let f = s / 16777000real;
    lemma_bounds(h, a, row_loss(s), a);
    lemma_spread(a, 301real / 100real, f, 5real * tiny());
    assert(a * row_loss(s) == row_loss(s) * a) by (nonlinear_arith);
    lemma_parts(a, s);
    lemma_shared(x.0, x.1, x.2, a);
    assert(a * s == s * a) by (nonlinear_arith);
    lemma_bounds(5real * tiny(), a, 5real * tiny(), 30000000000000000000000000real);
    lemma_row_sum(t, e, s * a, (5real * tiny()) * a, h * a, n);
}

proof fn lemma_row_sum(
    t: (real, real, real),
    e: (real, real, real),
    sa: real,
    ta: real,
    ha: real,
    n: real,
)
    requires
        n >= 1real / 100000000000real,
        t.0 + t.1 + t.2 <= 80real * n,
        e.0 <= (706real / 100real) * (t.0 / 16777000real) + 1real / 1000000000000000000real,
        e.1 <= (706real / 100real) * (t.1 / 16777000real) + 1real / 1000000000000000000real,
        e.2 <= (706real / 100real) * (t.2 / 16777000real) + 1real / 1000000000000000000real,
        sa <= (1001real / 1000real) * (t.0 + t.1 + t.2) + 3real / 1000000000000000000real,
        ta <= 2real / 1000000000000000000real,
        ha <= (301real / 100real) * (sa / 16777000real) + ta,
    ensures
        e.0 + e.1 + e.2 + ha <= (49real / 1000000real) * n,
{
}

/// A factor of a product of at most `81 n`, by the other.
proof fn lemma_factor_sound(x: real, a: real, n: real)
    requires
        0real <= x,
        x * a <= 81real * n,
        a >= (8real / 10000000000real) * n,
        n > 0real,
    ensures
        x <= 200000000000real,
{
    if x > 200000000000real {
        let c = 8real / 10000000000real;
        assert(x * a >= x * (c * n)) by (nonlinear_arith)
            requires
                x >= 0real,
                a >= c * n,
        ;
        assert(x * (c * n) >= 160real * n) by (nonlinear_arith)
            requires
                x > 200000000000real,
                c == 8real / 10000000000real,
                n > 0real,
        ;
    }
}

/// How large the determinant times the last coordinate is.
proof fn lemma_scale(det: real, w: real, d: real)
    requires
        size(det - d) <= size(d) / 10000real,
        1real / 100000000000real <= size(d) <= 6000000000000000000real,
        9real / 10000000000real <= size(w) <= 4000000real,
    ensures
        ({
            let a = size(det * w);
            &&& a >= (8real / 10000000000real) * size(d)
            &&& a <= 5000000real * size(d)
            &&& a <= 30000000000000000000000000real
        }),
{
    let (m, n, k) = (size(det), size(d), size(w));
    lemma_size_of_both(det, w);
    lemma_size_of_sum(d, det - d);
    lemma_size_of_sum(det, d - det);
    assert(d + (det - d) == det && det + (d - det) == d);
    assert(size(d - det) == size(det - d)) by {
        reveal(size);
    }
    lemma_bounds((99real / 100real) * n, 9real / 10000000000real, m, k);
    lemma_bounds(m, k, (101real / 100real) * n, 4000000real);
    let c = 9real / 10000000000real;
    assert(((99real / 100real) * n) * c >= (8real / 10000000000real) * n) by (nonlinear_arith)
        requires
            c == 9real / 10000000000real,
            n >= 0real,
    ;
    assert(((101real / 100real) * n) * 4000000real <= 5000000real * n) by (nonlinear_arith)
        requires
            n >= 0real,
    ;
}

/// A row of the inverse at the image of a point.
proof fn lemma_way_back_row(m: Seq<Single>, x: Single, y: Single, r: int)
    requires
        well_conditioned(m),
        x.finite() && 0real <= real_of(x) <= 1real,
        y.finite() && 0real <= real_of(y) <= 1real,
        mapped(m, x, y) is Some,
        0 <= r < 3,
    ensures
        ({
            let w = row_at(m, 2, x, y);
            let p = mapped(m, x, y)->0;
            let k = minors_exactly(reals_of(m));
            let e = rows_exactly(reals_of(m), real_of(x), real_of(y));
            let s = row_at(inverted(m)->0, r, p.0, p.1);
            &&& s.finite()
            &&& size(
                real_of(s) * (real_of(determinant(m)) * real_of(w)) - (k[3 * r] * e.0 + k[3 * r + 1]
                    * e.1 + k[3 * r + 2] * e.2),
            ) <= (49real / 1000000real) * size(det_exactly(reals_of(m)))
        }),
{
    let q = reals_of(m);
    let w = row_at(m, 2, x, y);
    let p = mapped(m, x, y)->0;
    let inv = inverted(m)->0;
    let (k, z) = (minors_exactly(q), minor_sizes(q));
    let e = rows_exactly(q, real_of(x), real_of(y));
    let (d, rw) = (real_of(determinant(m)), real_of(w));
    let n = size(det_exactly(q));
    lemma_way_out(m, x, y);
    lemma_inverse_close(m);
    lemma_det_told(m);
    lemma_scale(d, rw, det_exactly(q));
    lemma_part_of_magnification(q, r);
    let (a, b, c) = (inv[3 * r], inv[3 * r + 1], inv[3 * r + 2]);
    assert(a.finite() && b.finite() && c.finite());
    let (u, v) = (real_of(p.0), real_of(p.1));
    let t = (
        z[3 * r] * row_size(q, 0),
        z[3 * r + 1] * row_size(q, 1),
        z[3 * r + 2] * row_size(q, 2),
    );
    lemma_term(real_of(a), u, d, rw, k[3 * r], e.0, z[3 * r], row_size(q, 0));
    lemma_term(real_of(b), v, d, rw, k[3 * r + 1], e.1, z[3 * r + 1], row_size(q, 1));
    assert(1real * rw == rw && real_of(c) * 1real == real_of(c)) by (nonlinear_arith);
    lemma_term(real_of(c), 1real, d, rw, k[3 * r + 2], e.2, z[3 * r + 2], row_size(q, 2));
    let g = d * rw;
    let h = (real_of(a) * u, real_of(b) * v, real_of(c));
    assert(magnification(q, r) <= 80real * n);
    lemma_factor_sound(size(h.0), size(g), n);
    lemma_factor_sound(size(h.1), size(g), n);
    lemma_factor_sound(size(h.2), size(g), n);
    let all = size(h.0) + size(h.1) + size(h.2);
    lemma_row(a, b, c, p.0, p.1, all);
    let s = row_at(inv, r, p.0, p.1);
    assert(r * 3 == 3 * r);
    lemma_back_sum(
        real_of(s),
        h,
        g,
        (k[3 * r] * e.0, k[3 * r + 1] * e.1, k[3 * r + 2] * e.2),
        t,
        n,
    );
}

/// A row of the way back out of its terms.
proof fn lemma_back_sum(
    s: real,
    h: (real, real, real),
    g: real,
    k: (real, real, real),
    t: (real, real, real),
    n: real,
)
    requires
        n >= 1real / 100000000000real,
        0real <= t.0 && 0real <= t.1 && 0real <= t.2,
        t.0 + t.1 + t.2 <= 80real * n,
        size(h.0 * g - k.0) <= (706real / 100real) * (t.0 / 16777000real) + 1real
            / 1000000000000000000real,
        size(h.1 * g - k.1) <= (706real / 100real) * (t.1 / 16777000real) + 1real
            / 1000000000000000000real,
        size(h.2 * g - k.2) <= (706real / 100real) * (t.2 / 16777000real) + 1real
            / 1000000000000000000real,
        size(h.0) * size(g) <= (1001real / 1000real) * t.0 + 1real / 1000000000000000000real,
        size(h.1) * size(g) <= (1001real / 1000real) * t.1 + 1real / 1000000000000000000real,
        size(h.2) * size(g) <= (1001real / 1000real) * t.2 + 1real / 1000000000000000000real,
        size(g) <= 30000000000000000000000000real,
        size(s - (h.0 + h.1 + h.2)) <= row_loss(size(h.0) + size(h.1) + size(h.2)),
    ensures
        size(s * g - (k.0 + k.1 + k.2)) <= (49real / 1000000real) * n,
{
    let f = s - (h.0 + h.1 + h.2);
    lemma_row_losses(
        t,
        (size(h.0 * g - k.0), size(h.1 * g - k.1), size(h.2 * g - k.2)),
        (size(h.0), size(h.1), size(h.2)),
        size(f),
        size(g),
        n,
    );
    lemma_size_of_both(f, g);
    lemma_less(s, h.0 + h.1 + h.2, g);
    lemma_shared(h.0, h.1, h.2, g);
    let (d0, d1, d2) = (h.0 * g - k.0, h.1 * g - k.1, h.2 * g - k.2);
    lemma_size_of_sum(d0, d1);
    lemma_size_of_sum(d0 + d1, d2);
    lemma_size_of_sum(d0 + d1 + d2, f * g);
    assert(d0 + d1 + d2 + f * g == s * g - (k.0 + k.1 + k.2));
}

/// Two rows of the way back give the coordinate that the way out began at.
proof fn lemma_back_ratio(s: real, t: real, a: real, det: real, x: real)
    requires
        size(s * a - det * x) <= (49real / 1000000real) * size(det),
        size(t * a - det) <= (49real / 1000000real) * size(det),
        size(det) > 0real,
        0real <= x <= 1real,
        t != 0real,
    ensures
        size(s / t - x) <= 985real / 10000000real,
        size(s / t) <= 101real / 100real,
{
    let z = s / t;
    let b = t * a;
    let n = size(det);
    let e = (49real / 1000000real) * n;
    lemma_over(s, t);
    lemma_orders(z, t, a);
    assert(z * b == s * a);
    lemma_share_of(det, x);
    lemma_size_of_sum(det * x, s * a - det * x);
    assert(det * x + (s * a - det * x) == s * a);
    lemma_size_of_sum(b, det - b);
    assert(b + (det - b) == det);
    assert(size(det - b) == size(b - det)) by {
        reveal(size);
    }
    lemma_size_of_both(z, b);
    let (m, k) = (size(z), size(b));
    assert(m <= 1001real / 1000real) by {
        if m > 1001real / 1000real {
            assert(m * k >= (1001real / 1000real) * k) by (nonlinear_arith)
                requires
                    m > 1001real / 1000real,
                    k >= 0real,
            ;
        }
    }
    lemma_less(z, x, det);
    lemma_less(b, det, z);
    lemma_size_of_both(z, b - det);
    lemma_bounds(m, size(b - det), 1001real / 1000real, e);
    assert(x * det == det * x && det * z == z * det) by (nonlinear_arith);
    lemma_size_of_sum(-(z * (b - det)), s * a - det * x);
    lemma_size_of_sum(z * (b - det), 0real);
    assert(-(z * (b - det)) + (s * a - det * x) == (z - x) * det);
    lemma_size_of_both(z - x, det);
    let y = size(z - x);
    assert(y <= 985real / 10000000real) by (nonlinear_arith)
        requires
            y * n <= (1001real / 1000real) * e + e,
            e == (49real / 1000000real) * n,
            n > 0real,
    ;
}

/// A coordinate at the end of the way back.
proof fn lemma_end(s: Single, t: Single, a: real, det: real, x: real)
    requires
        s.finite(),
        t.finite(),
        size(real_of(s) * a - det * x) <= (49real / 1000000real) * size(det),
        size(real_of(t) * a - det) <= (49real / 1000000real) * size(det),
        size(det) > 0real,
        size(a) <= 5000000real * size(det),
        0real <= x <= 1real,
    ensures
        size(real_of(t)) >= 1real / 10000000real,
        s.quotient(t).finite(),
        size(real_of(s.quotient(t)) - x) < 1real / 10000real,
{
    let (v, w) = (real_of(s), real_of(t));
    let n = size(det);
    assert(size(w) >= 1real / 10000000real) by {
        lemma_size_of_both(w, a);
        lemma_size_of_sum(w * a, det - w * a);
        assert(w * a + (det - w * a) == det);
        assert(size(det - w * a) == size(w * a - det)) by {
            reveal(size);
        }
        let (p, q) = (size(w), size(a));
        if p < 1real / 10000000real {
            lemma_bounds(p, q, 1real / 10000000real, 5000000real * n);
            assert((1real / 10000000real) * (5000000real * n) == (1real / 2real) * n)
                by (nonlinear_arith);
        }
    }
    assert(w != 0real) by {
        reveal(size);
    }
    lemma_back_ratio(v, w, a, det, x);
    lemma_rounded_quotient(s, t);
    let z = v / w;
    let f = real_of(s.quotient(t));
    lemma_size_of_sum(f - z, z - x);
    assert(f - z + (z - x) == f - x);
}

/// The way back through a map whose inverse is well conditioned ends where the way out
/// began, to less than a ten-thousandth of the frame, for every point of the frame that has
/// an image.
pub proof fn the_inverse_undoes_the_map(m: Seq<Single>, x: Single, y: Single)
    requires
        well_conditioned(m),
        x.finite() && 0real <= real_of(x) <= 1real,
        y.finite() && 0real <= real_of(y) <= 1real,
        mapped(m, x, y) is Some,
    ensures
        inverted(m) is Some,
        ({
            let p = mapped(m, x, y)->0;
            let q = mapped(inverted(m)->0, p.0, p.1);
            &&& q is Some
            &&& distance(real_of((q->0).0), real_of(x)) < 1real / 10000real
            &&& distance(real_of((q->0).1), real_of(y)) < 1real / 10000real
        }),
{
    let w = row_at(m, 2, x, y);
    let p = mapped(m, x, y)->0;
    let inv = inverted(m)->0;
    let det = det_exactly(reals_of(m));
    let a = real_of(determinant(m)) * real_of(w);
    lemma_way_out(m, x, y);
    lemma_inverse_close(m);
    lemma_det_told(m);
    lemma_scale(real_of(determinant(m)), real_of(w), det);
    lemma_way_back_row(m, x, y, 0);
    lemma_way_back_row(m, x, y, 1);
    lemma_way_back_row(m, x, y, 2);
    lemma_adjugate(reals_of(m), real_of(x), real_of(y));
    let (s, t, z) = (
        row_at(inv, 0, p.0, p.1),
        row_at(inv, 1, p.0, p.1),
        row_at(inv, 2, p.0, p.1),
    );
    lemma_end(s, z, a, det, real_of(x));
    lemma_end(t, z, a, det, real_of(y));
    lemma_thresholds();
    lemma_absolute(z);
    lemma_order_real(z.absolute(), num(NEAR_ZERO));
}

} // verus!
