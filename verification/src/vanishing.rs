//! What an upright correction is solved from: edges, lines and vanishing points, among the
//! real numbers.

use vstd::prelude::*;
use crate::cofactors::{lemma_less, lemma_orders, lemma_shared};
use crate::homography::minor;
use crate::numbers::{HALF, QUARTER};
use crate::placing::lemma_part;
use crate::reals::{lemma_negation_real, lemma_order_real, real_of, size, size_is_not_below, within};
use crate::single::{num, Single};
use crate::sliding::lemma_small_numbers;
use crate::stamping::lemma_half_and_two;
use crate::upright::{horizon_row, last_of, line_through, null_row, Cross, Triple, NEAR_ZERO};
use crate::wayback::{
    lemma_absolute, lemma_bounds, lemma_minor, lemma_over, lemma_quotient_sound,
    lemma_rounded_difference, lemma_rounded_product, lemma_rounded_quotient, lemma_rounded_sum,
    lemma_size_of_both, lemma_size_of_sum, lemma_thresholds, tiny,
};

verus! {

broadcast use size_is_not_below;

/// Three numbers of no more than one.
pub open spec fn in_reach(t: Triple) -> bool {
    &&& t.x.finite() && size(real_of(t.x)) <= 1real
    &&& t.y.finite() && size(real_of(t.y)) <= 1real
    &&& t.z.finite() && size(real_of(t.z)) <= 1real
}

/// A point on a line: the three products add up to this.
pub open spec fn on_line(x: real, y: real, z: real, p: Triple) -> real {
    x * real_of(p.x) + y * real_of(p.y) + z * real_of(p.z)
}

proof fn lemma_minor_of_small(a: Single, d: Single, b: Single, c: Single)
    requires
        a.finite() && size(real_of(a)) <= 1real,
        b.finite() && size(real_of(b)) <= 1real,
        c.finite() && size(real_of(c)) <= 1real,
        d.finite() && size(real_of(d)) <= 1real,
    ensures
        within(
            a.product(d).difference(b.product(c)),
            real_of(a) * real_of(d) - real_of(b) * real_of(c),
            1real / 3000000real,
        ),
        size(real_of(a.product(d).difference(b.product(c)))) <= 3real,
{
    let (p, q) = (real_of(a) * real_of(d), real_of(b) * real_of(c));
    lemma_size_of_both(real_of(a), real_of(d));
    lemma_size_of_both(real_of(b), real_of(c));
    lemma_bounds(size(real_of(a)), size(real_of(d)), 1real, 1real);
    lemma_bounds(size(real_of(b)), size(real_of(c)), 1real, 1real);
    lemma_minor(a, d, b, c, size(p) + size(q));
    let m = real_of(minor(a, d, b, c));
    lemma_size_of_sum(p - q, m - (p - q));
}

/// What three numbers that are nearly others make of a point.
proof fn lemma_nearly(x: real, y: real, z: real, u: real, v: real, w: real, p: Triple, e: real)
    requires
        in_reach(p),
        size(x - u) <= e,
        size(y - v) <= e,
        size(z - w) <= e,
    ensures
        size(on_line(x, y, z, p) - on_line(u, v, w, p)) <= 3real * e,
{
    let (a, b, c) = (real_of(p.x), real_of(p.y), real_of(p.z));
    lemma_size_of_both(x - u, a);
    lemma_size_of_both(y - v, b);
    lemma_size_of_both(z - w, c);
    lemma_bounds(size(x - u), size(a), e, 1real);
    lemma_bounds(size(y - v), size(b), e, 1real);
    lemma_bounds(size(z - w), size(c), e, 1real);
    lemma_less(x, u, a);
    lemma_less(y, v, b);
    lemma_less(z, w, c);
    lemma_size_of_sum((x - u) * a, (y - v) * b);
    lemma_size_of_sum((x - u) * a + (y - v) * b, (z - w) * c);
}

proof fn lemma_cross(a: (real, real, real), b: (real, real, real))
    ensures
        (a.1 * b.2 - a.2 * b.1) * a.0 + (a.2 * b.0 - a.0 * b.2) * a.1 + (a.0 * b.1 - a.1 * b.0) * a.2
            == 0real,
        (a.1 * b.2 - a.2 * b.1) * b.0 + (a.2 * b.0 - a.0 * b.2) * b.1 + (a.0 * b.1 - a.1 * b.0) * b.2
            == 0real,
{
    let (u, v, w) = a;
    let (x, y, z) = b;
    lemma_cancel(u, v, w, x, y, z);
    lemma_less(v * z, w * y, x);
    lemma_less(w * x, u * z, y);
    lemma_less(u * y, v * x, z);
    lemma_orders(v, z, x);
    lemma_orders(w, y, x);
    lemma_orders(u, z, y);
}

proof fn lemma_cancel(u: real, v: real, w: real, x: real, y: real, z: real)
    ensures
        (v * z - w * y) * u + (w * x - u * z) * v + (u * y - v * x) * w == 0real,
{
    lemma_less(v * z, w * y, u);
    lemma_less(w * x, u * z, v);
    lemma_less(u * y, v * x, w);
    lemma_orders(u, v, z);
    lemma_orders(u, w, y);
    lemma_orders(v, w, x);
}

/// The line through two points goes through both of them.
pub proof fn a_line_goes_through_its_points(a: Triple, b: Triple)
    requires
        in_reach(a),
        in_reach(b),
    ensures
        ({
            let l = line_through(a, b);
            let (x, y, z) = (real_of(l.x), real_of(l.y), real_of(l.z));
            &&& l.x.finite() && l.y.finite() && l.z.finite()
            &&& size(x) <= 3real && size(y) <= 3real && size(z) <= 3real
            &&& size(on_line(x, y, z, a)) <= 1real / 1000000real
            &&& size(on_line(x, y, z, b)) <= 1real / 1000000real
        }),
{
    let l = line_through(a, b);
    lemma_minor_of_small(a.y, b.z, a.z, b.y);
    lemma_minor_of_small(a.z, b.x, a.x, b.z);
    lemma_minor_of_small(a.x, b.y, a.y, b.x);
    let p = (real_of(a.x), real_of(a.y), real_of(a.z));
    let q = (real_of(b.x), real_of(b.y), real_of(b.z));
    lemma_cross(p, q);
    let (u, v, w) = (p.1 * q.2 - p.2 * q.1, p.2 * q.0 - p.0 * q.2, p.0 * q.1 - p.1 * q.0);
    let e = 1real / 3000000real;
    lemma_nearly(real_of(l.x), real_of(l.y), real_of(l.z), u, v, w, a, e);
    lemma_nearly(real_of(l.x), real_of(l.y), real_of(l.z), u, v, w, b, e);
}

/// A quotient times its divisor.
pub proof fn lemma_back(a: Single, d: Single, k: real, g: real)
    requires
        a.finite() && size(real_of(a)) <= k,
        d.finite() && size(real_of(d)) >= g,
        size(real_of(d)) <= 10000000real,
        g >= 1real / 10000000000real,
        k <= 1000000000000real,
    ensures
        a.quotient(d).finite(),
        real_of(d) != 0real,
        size(real_of(a.quotient(d)) * real_of(d) - real_of(a)) <= size(real_of(a)) / 16777000real + 10000000real
            * tiny(),
{
    let (x, y) = (real_of(a), real_of(d));
    lemma_quotient_sound(x, y, g, k);
    lemma_rounded_quotient(a, d);
    let q = real_of(a.quotient(d));
    let e = x / y;
    lemma_over(x, y);
    lemma_size_of_both(q - e, y);
    lemma_size_of_both(e, y);
    let s = size(y);
    lemma_bounds(size(q - e), s, size(e) / 16777000real + tiny(), s);
    assert((size(e) / 16777000real + tiny()) * s == size(x) / 16777000real + tiny() * s)
        by (nonlinear_arith)
        requires
            size(e) * s == size(x),
    ;
    lemma_bounds(tiny(), s, tiny(), 10000000real);
    assert((q - e) * y == q * y - x) by (nonlinear_arith)
        requires
            e * y == x,
    ;
}

/// The last row of a horizon takes both points to infinity: at each of them what it adds up
/// to is nought, measured by the third number of the line.
pub proof fn a_horizon_goes_to_infinity(a: Triple, b: Triple)
    requires
        in_reach(a),
        in_reach(b),
        horizon_row(a, b) is Some,
    ensures
        ({
            let r = horizon_row(a, b)->0;
            let z = real_of(line_through(a, b).z);
            &&& r.x.finite() && r.y.finite()
            &&& z != 0real
            &&& size(on_line(real_of(r.x), real_of(r.y), 1real, a) * z) <= 1real / 500000real
            &&& size(on_line(real_of(r.x), real_of(r.y), 1real, b) * z) <= 1real / 500000real
        }),
{
    a_line_goes_through_its_points(a, b);
    let l = line_through(a, b);
    lemma_near_zero();
    lemma_absolute(l.z);
    lemma_order_real(l.z.absolute(), num(NEAR_ZERO));
    lemma_back(l.x, l.z, 3real, 9real / 10000000000real);
    lemma_back(l.y, l.z, 3real, 9real / 10000000000real);
    let (x, y, z) = (real_of(l.x), real_of(l.y), real_of(l.z));
    let (u, v) = (real_of(l.x.quotient(l.z)), real_of(l.y.quotient(l.z)));
    lemma_times(u, v, z, a);
    lemma_times(u, v, z, b);
    assert(size(z - z) == 0real) by {
        reveal(size);
    }
    lemma_nearly(u * z, v * z, z, x, y, z, a, 1real / 5000000real);
    lemma_nearly(u * z, v * z, z, x, y, z, b, 1real / 5000000real);
    lemma_size_of_sum(on_line(u * z, v * z, z, a) - on_line(x, y, z, a), on_line(x, y, z, a));
    lemma_size_of_sum(on_line(u * z, v * z, z, b) - on_line(x, y, z, b), on_line(x, y, z, b));
}

proof fn lemma_times(u: real, v: real, z: real, p: Triple)
    ensures
        on_line(u, v, 1real, p) * z == on_line(u * z, v * z, z, p),
{
    let (a, b, c) = (real_of(p.x), real_of(p.y), real_of(p.z));
    lemma_shared(u * a, v * b, c, z);
    lemma_orders(u, a, z);
    lemma_orders(v, b, z);
    assert(1real * c == c);
    assert(c * z == z * c) by (nonlinear_arith);
}

proof fn lemma_near_zero()
    ensures
        num(NEAR_ZERO).finite(),
        9real / 10000000000real <= real_of(num(NEAR_ZERO)) <= 2real / 1000000000real,
{
    lemma_thresholds();
}

/// The last row for a point takes it to infinity, and it is the one that runs towards the
/// point.
pub proof fn a_point_goes_to_infinity(q: Triple)
    requires
        null_row(q) is Some,
        ({
            let (x, y) = (q.x.quotient(q.z), q.y.quotient(q.z));
            &&& x.finite() && size(real_of(x)) <= 1000real
            &&& y.finite() && size(real_of(y)) <= 1000real
        }),
    ensures
        ({
            let r = null_row(q)->0;
            let (x, y) = (real_of(q.x.quotient(q.z)), real_of(q.y.quotient(q.z)));
            &&& r.x.finite() && r.y.finite()
            &&& size(real_of(r.x) * x + real_of(r.y) * y + 1real) <= 1real / 1000000real
            &&& size(real_of(r.x) * y - real_of(r.y) * x) <= 1real / 1000000real
        }),
{
    let (a, b) = (q.x.quotient(q.z), q.y.quotient(q.z));
    let (x, y) = (real_of(a), real_of(b));
    let n2 = a.product(a).sum(b.product(b));
    let n = real_of(n2);
    lemma_small_numbers();
    lemma_order_real(n2, num(QUARTER));
    lemma_squares(a, b);
    let e = x * x + y * y;
    lemma_negation_real(a);
    lemma_negation_real(b);
    lemma_size_of_sum(x, x);
    lemma_size_of_sum(y, y);
    assert(size(n) == n && n <= 3000000real) by {
        reveal(size);
    }
    lemma_back(a.negation(), n2, 1000real, 1real / 4real);
    lemma_back(b.negation(), n2, 1000real, 1real / 4real);
    let (u, v) = (real_of(a.negation().quotient(n2)), real_of(b.negation().quotient(n2)));
    lemma_towards(u, v, x, y, n, e);
}

proof fn lemma_squares(a: Single, b: Single)
    requires
        a.finite() && size(real_of(a)) <= 1000real,
        b.finite() && size(real_of(b)) <= 1000real,
    ensures
        ({
            let e = real_of(a) * real_of(a) + real_of(b) * real_of(b);
            let n = a.product(a).sum(b.product(b));
            &&& 0real <= e <= 2000000real
            &&& real_of(a) * real_of(a) >= 0real && real_of(b) * real_of(b) >= 0real
            &&& within(n, e, e / 8000000real + 4real * tiny())
        }),
{
    let (x, y) = (real_of(a), real_of(b));
    lemma_size_of_both(x, x);
    lemma_size_of_both(y, y);
    lemma_bounds(size(x), size(x), 1000real, 1000real);
    lemma_bounds(size(y), size(y), 1000real, 1000real);
    assert(x * x >= 0real && y * y >= 0real) by (nonlinear_arith);
    assert(size(x * x) == x * x && size(y * y) == y * y) by {
        reveal(size);
    }
    lemma_rounded_product(a, a);
    lemma_rounded_product(b, b);
    let (p, q) = (real_of(a.product(a)), real_of(b.product(b)));
    let e = x * x + y * y;
    lemma_size_of_sum(p - x * x, q - y * y);
    assert((p - x * x) + (q - y * y) == (p + q) - e);
    assert(size(e) == e) by {
        reveal(size);
    }
    lemma_size_of_sum(e, (p + q) - e);
    assert(e + ((p + q) - e) == p + q);
    lemma_rounded_sum(a.product(a), b.product(b));
    let r = real_of(a.product(a).sum(b.product(b)));
    lemma_size_of_sum(r - (p + q), (p + q) - e);
    assert((r - (p + q)) + ((p + q) - e) == r - e);
}

proof fn lemma_towards(u: real, v: real, x: real, y: real, n: real, e: real)
    requires
        e == x * x + y * y,
        x * x >= 0real,
        y * y >= 0real,
        size(x) <= 1000real,
        size(y) <= 1000real,
        1real / 4real <= n <= 3000000real,
        size(n - e) <= e / 8000000real + 4real * tiny(),
        size(u * n + x) <= size(x) / 16777000real + 10000000real * tiny(),
        size(v * n + y) <= size(y) / 16777000real + 10000000real * tiny(),
    ensures
        size(u * x + v * y + 1real) <= 1real / 1000000real,
        size(u * y - v * x) <= 1real / 1000000real,
{
    let (f, g) = (u * n + x, v * n + y);
    lemma_size_of_both(f, x);
    lemma_size_of_both(g, y);
    lemma_size_of_both(f, y);
    lemma_size_of_both(g, x);
    lemma_size_of_both(x, x);
    lemma_size_of_both(y, y);
    lemma_size_of_both(x, y);
    let (a, b) = (size(x), size(y));
    assert(a * a == x * x && b * b == y * y) by {
        assert(size(x * x) == x * x && size(y * y) == y * y) by {
            reveal(size);
        }
    }
    let t = 10000000real * tiny();
    lemma_bounds(size(f), a, a / 16777000real + t, a);
    lemma_bounds(size(g), b, b / 16777000real + t, b);
    lemma_bounds(size(f), b, a / 16777000real + t, b);
    lemma_bounds(size(g), a, b / 16777000real + t, a);
    assert((a / 16777000real + t) * a == (a * a) / 16777000real + t * a) by (nonlinear_arith);
    assert((b / 16777000real + t) * b == (b * b) / 16777000real + t * b) by (nonlinear_arith);
    assert((a / 16777000real + t) * b == (a * b) / 16777000real + t * b) by (nonlinear_arith);
    assert((b / 16777000real + t) * a == (a * b) / 16777000real + t * a) by (nonlinear_arith);
    assert(2real * (a * b) <= a * a + b * b) by {
        let d = a - b;
        assert(d * d >= 0real) by (nonlinear_arith);
        assert(d * d == a * a - 2real * (a * b) + b * b) by (nonlinear_arith)
            requires
                d == a - b,
        ;
    }
    lemma_bounds(t, a, t, 1000real);
    lemma_bounds(t, b, t, 1000real);
    // The two sums, times the square of the distance.
    assert(f * x == (u * x) * n + x * x) by (nonlinear_arith)
        requires
            f == u * n + x,
    ;
    assert(g * y == (v * y) * n + y * y) by (nonlinear_arith)
        requires
            g == v * n + y,
    ;
    assert(f * y == (u * y) * n + x * y) by (nonlinear_arith)
        requires
            f == u * n + x,
    ;
    assert(g * x == (v * x) * n + x * y) by (nonlinear_arith)
        requires
            g == v * n + y,
    ;
    let (s, d) = (u * x + v * y + 1real, u * y - v * x);
    assert(s * n == (u * x) * n + (v * y) * n + n) by (nonlinear_arith)
        requires
            s == u * x + v * y + 1real,
    ;
    assert(d * n == (u * y) * n - (v * x) * n) by (nonlinear_arith)
        requires
            d == u * y - v * x,
    ;
    lemma_size_of_sum(f * x, g * y);
    lemma_size_of_sum(f * x + g * y, n - e);
    assert(s * n == f * x + g * y + (n - e));
    lemma_size_of_sum(f * y, -(g * x));
    lemma_size_of_sum(g * x, g * x);
    assert(d * n == f * y + -(g * x));
    assert(e <= (101real / 100real) * n) by {
        reveal(size);
    }
    assert(size(s * n) <= n / 1000000real);
    assert(size(d * n) <= n / 1000000real);
    lemma_size_of_both(s, n);
    lemma_size_of_both(d, n);
    assert(size(n) == n) by {
        reveal(size);
    }
    lemma_cut(size(s), n);
    lemma_cut(size(d), n);
}

proof fn lemma_cut(s: real, n: real)
    requires
        s * n <= n / 1000000real,
        n > 0real,
    ensures
        s <= 1real / 1000000real,
{
    assert(s <= 1real / 1000000real) by (nonlinear_arith)
        requires
            s * n <= n / 1000000real,
            n > 0real,
    ;
}

/// The line of an edge runs through its pixel, whose place is counted from the middle of
/// the frame.
pub proof fn an_edge_runs_through_its_pixel(c: Cross, x: int, y: int, w: int, h: int, cone: Single)
    requires
        2 <= w <= u32::MAX,
        2 <= h <= u32::MAX,
        0 <= x < w,
        0 <= y < h,
        c.across(w).finite() && size(real_of(c.across(w))) <= 1000000real,
        c.down(h).finite() && size(real_of(c.down(h))) <= 1000000real,
        c.edge(x, y, w, h, cone) is Some,
    ensures
        ({
            let l = (c.edge(x, y, w, h, cone)->0).line;
            let across = (x as real) / ((w - 1) as real) - 1real / 2real;
            let down = (y as real) / ((h - 1) as real) - 1real / 2real;
            let k = size(real_of(c.across(w))) + size(real_of(c.down(h)));
            &&& l.x == c.across(w) && l.y == c.down(h)
            &&& l.z.finite()
            &&& size(real_of(l.x) * across + real_of(l.y) * down + real_of(l.z)) <= (k + 1real)
                / 300000real
        }),
{
    let (gx, gy) = (c.across(w), c.down(h));
    let nx = Single::of_whole(x).quotient(last_of(w)).difference(num(HALF));
    let ny = Single::of_whole(y).quotient(last_of(h)).difference(num(HALF));
    lemma_from_middle(x, w);
    lemma_from_middle(y, h);
    let a = (x as real) / ((w - 1) as real) - 1real / 2real;
    let b = (y as real) / ((h - 1) as real) - 1real / 2real;
    let (g, k, p, q) = (real_of(gx), real_of(gy), real_of(nx), real_of(ny));
    let e = 1real / 800000real;
    lemma_size_of_both(g, p);
    lemma_size_of_both(k, q);
    lemma_bounds(size(g), size(p), size(g), 1real);
    lemma_bounds(size(k), size(q), size(k), 1real);
    lemma_rounded_product(gx, nx);
    lemma_rounded_product(gy, ny);
    let (s, t) = (gx.product(nx), gy.product(ny));
    lemma_size_of_sum(real_of(s) - g * p, real_of(t) - k * q);
    assert((real_of(s) - g * p) + (real_of(t) - k * q) == (real_of(s) + real_of(t)) - (g * p + k * q));
    lemma_size_of_sum(g * p, k * q);
    lemma_size_of_sum(g * p + k * q, (real_of(s) + real_of(t)) - (g * p + k * q));
    lemma_rounded_sum(s, t);
    let z = s.sum(t);
    lemma_negation_real(z);
    lemma_size_of_sum(
        real_of(z) - (real_of(s) + real_of(t)),
        (real_of(s) + real_of(t)) - (g * p + k * q),
    );
    let l = (c.edge(x, y, w, h, cone)->0).line;
    assert(l.z == z.negation());
    // From where the pixel is told to stand to where it stands.
    lemma_size_of_both(g, a - p);
    lemma_size_of_both(k, b - q);
    assert(size(a - p) <= e && size(b - q) <= e) by {
        reveal(size);
    }
    lemma_bounds(size(g), size(a - p), size(g), e);
    lemma_bounds(size(k), size(b - q), size(k), e);
    lemma_less(a, p, g);
    lemma_less(b, q, k);
    lemma_size_of_sum(g * (a - p), k * (b - q));
    lemma_size_of_sum(g * (a - p) + k * (b - q), (g * p + k * q) - real_of(z));
    assert(size((g * p + k * q) - real_of(z)) == size(real_of(z) - (g * p + k * q))) by {
        reveal(size);
    }
    assert(g * a + k * b + real_of(l.z) == g * (a - p) + k * (b - q) + ((g * p + k * q) - real_of(z)));
    assert(size(g) * e == size(g) / 800000real);
    assert(size(k) * e == size(k) / 800000real);
}

proof fn lemma_from_middle(x: int, n: int)
    requires
        2 <= n <= u32::MAX,
        0 <= x < n,
    ensures
        ({
            let p = Single::of_whole(x).quotient(last_of(n)).difference(num(HALF));
            &&& p.finite()
            &&& size(real_of(p) - ((x as real) / ((n - 1) as real) - 1real / 2real)) <= 1real / 800000real
            &&& size(real_of(p)) <= 1real
        }),
{
    lemma_part(x, n);
    lemma_half_and_two();
    let d = last_of(n);
    let p = Single::of_whole(x).quotient(d);
    assert(size(real_of(p) - 1real / 2real) <= 51real / 100real) by {
        reveal(size);
    }
    lemma_rounded_difference(p, num(HALF));
    reveal(size);
}

} // verus!
