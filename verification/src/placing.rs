//! Where the pixels of a reshaped frame come from, in terms of the frame itself.

use vstd::prelude::*;
use vstd::arithmetic::power2::{lemma2_to64, lemma_pow2_adds, lemma_pow2_pos, pow2};
use crate::cofactors::{lemma_less, lemma_orders};
use crate::cropping::{lemma_coordinate, lemma_row_nearby, nearby, row_there, told_to};
use crate::homography::{identity, mapped, row_at, NEAR_ZERO};
use crate::numbers::{ONE, ZERO};
use crate::reals::{
    lemma_ends, lemma_magnitude_real, lemma_order_real, lemma_round_near_real, real_of, size, size_is_not_below, within,
};
use crate::rounding::{lemma_quotient_is_number, lemma_with_sign};
use crate::single::{lemma_codes_order, magnitude, num, round_to_code, Single};
use crate::transform::source;
use crate::wayback::{
    bounded_map, lemma_absolute, lemma_bounds, lemma_over, lemma_positive_product,
    lemma_rounded_difference, lemma_rounded_product, lemma_rounded_quotient, lemma_rounding,
    lemma_share_of, lemma_size_of_both, lemma_size_of_sum, lemma_thresholds, reals_of, rounding,
    row_size, sound,
};

verus! {

broadcast use size_is_not_below;

/// A whole number of thirty-two digits, as a single holds it.
pub proof fn lemma_whole_real(n: int)
    requires
        0 <= n <= 0x1_0000_0000,
    ensures
        within(Single::of_whole(n), n as real, rounding(n as real)),
        !Single::of_whole(n).negative(),
{
    reveal(Single::of_whole);
    lemma_pow2_pos(149);
    lemma2_to64();
    lemma_pow2_adds(64, 189);
    let u = pow2(149) as real;
    let k = n * pow2(149);
    let x = n as real;
    assert(k >= 0) by (nonlinear_arith)
        requires
            k == n * pow2(149),
            n >= 0,
            pow2(149) > 0,
    ;
    assert(x * (1int as real) * u == k as real) by (nonlinear_arith)
        requires
            x == n as real,
            k == n * pow2(149),
            u == pow2(149) as real,
    ;
    lemma_pow2_adds(104, 149);
    lemma_pow2_adds(64, 40);
    lemma_pow2_pos(40);
    assert(pow2(104) >= 0x1_0000_0000) by (nonlinear_arith)
        requires
            pow2(104) == pow2(64) * pow2(40),
            pow2(64) == 0x1_0000_0000_0000_0000,
            pow2(40) >= 1,
    ;
    assert(k <= pow2(253) * 1) by (nonlinear_arith)
        requires
            k == n * pow2(149),
            pow2(253) == pow2(104) * pow2(149),
            n <= pow2(104),
            pow2(149) > 0,
    ;
    lemma_round_near_real(k, 1, x);
    lemma_with_sign(false, round_to_code(k, 1));
    assert(size(x) == x) by {
        reveal(size);
    }
    lemma_rounding(x);
}

/// The last pixel of a side, as the map counts it.
proof fn lemma_last(n: int)
    requires
        2 <= n <= u32::MAX,
    ensures
        ({
            let d = Single::of_whole(n).difference(num(ONE)).larger(num(ONE));
            let m = (n - 1) as real;
            &&& d.finite()
            &&& real_of(d) >= 1real
            &&& size(real_of(d) - m) <= m / 4000000real
        }),
{
    reveal(size);
    lemma_whole_real(n);
    lemma_ends();
    let a = Single::of_whole(n);
    lemma_rounded_difference(a, num(ONE));
    let d = a.difference(num(ONE));
    lemma_order_real(d, num(ONE));
}

/// A pixel as a part of its side.
pub proof fn lemma_part(x: int, n: int)
    requires
        2 <= n <= u32::MAX,
        0 <= x < n,
    ensures
        ({
            let d = Single::of_whole(n).difference(num(ONE)).larger(num(ONE));
            let p = Single::of_whole(x).quotient(d);
            let e = (x as real) / ((n - 1) as real);
            &&& p.finite()
            &&& 0real <= e <= 1real
            &&& size(real_of(p) - e) <= 1real / 1000000real
            &&& real_of(p) >= 0real
        }),
{
    let d = Single::of_whole(n).difference(num(ONE)).larger(num(ONE));
    let a = Single::of_whole(x);
    let m = (n - 1) as real;
    let xr = x as real;
    let e = xr / m;
    lemma_last(n);
    lemma_whole_real(x);
    lemma_over(xr, m);
    assert(0real <= e <= 1real) by (nonlinear_arith)
        requires
            e * m == xr,
            0real <= xr <= m,
            m >= 1real,
    ;
    let (ra, rd) = (real_of(a), real_of(d));
    let z = ra / rd;
    lemma_over(ra, rd);
    // `z` is close to `e`: both are about the same parts of nearly the same side.
    assert(size(xr) == xr) by {
        reveal(size);
    }
    lemma_less(z, e, m);
    assert(-(m / 2000000real) <= (z - e) * m <= m / 2000000real) by {
        reveal(size);
        let f = rd - m;
        assert(z * rd == z * m + z * f) by (nonlinear_arith)
            requires
                f == rd - m,
        ;
        assert(-(1real / 1000real) <= z <= 1001real / 1000real) by (nonlinear_arith)
            requires
                z * rd == ra,
                rd >= 1real,
                rd >= m - m / 4000000real,
                -(1real / 10000real) <= ra,
                ra <= m + m / 16777000real + 1real / 1000000real,
                m >= 1real,
        ;
        assert(-((1001real / 1000real) * (m / 4000000real)) <= z * f <= (1001real / 1000real) * (m
            / 4000000real)) by (nonlinear_arith)
            requires
                -(1001real / 1000real) <= z <= 1001real / 1000real,
                -(m / 4000000real) <= f <= m / 4000000real,
        ;
    }
    let y = z - e;
    assert(-(1real / 2000000real) <= y <= 1real / 2000000real) by (nonlinear_arith)
        requires
            -(m / 2000000real) <= y * m <= m / 2000000real,
            m >= 1real,
    ;
    assert(sound(z)) by {
        reveal(size);
    }
    lemma_rounded_quotient(a, d);
    let p = a.quotient(d);
    assert(size(real_of(p) - e) <= 1real / 1000000real) by {
        reveal(size);
    }
    lemma_quotient_positive(a, d);
}

/// A quotient of values without a sign is not below nought.
proof fn lemma_quotient_positive(a: Single, d: Single)
    requires
        a.finite(),
        d.finite(),
        !a.negative(),
        real_of(d) >= 1real,
        a.quotient(d).finite(),
    ensures
        real_of(a.quotient(d)) >= 0real,
{
    lemma_ends();
    lemma_magnitude_real(d);
    lemma_order_real(num(ZERO), d);
    lemma_codes_order(d.code(), 0);
    lemma_pow2_pos(149);
    assert(!d.negative() && !d.zero()) by {
        let u = pow2(149) as real;
        let m = magnitude(d.code()) as real;
        assert(m / u >= 0real) by (nonlinear_arith)
            requires
                m >= 0real,
                u > 0real,
        ;
        assert(magnitude(0) == 0);
        assert(0real / u == 0real) by (nonlinear_arith)
            requires
                u > 0real,
        ;
    }
    lemma_quotient_is_number(a, d);
    lemma_order_real(num(ZERO), a.quotient(d));
}

/// A row at two places that are a millionth apart.
proof fn lemma_row_moves(m: Seq<Single>, r: int, x: real, y: real, p: real, q: real)
    requires
        bounded_map(m),
        0 <= r < 3,
        size(p - x) <= 1real / 1000000real,
        size(q - y) <= 1real / 1000000real,
    ensures
        size(row_there(m, r, p, q) - row_there(m, r, x, y)) <= row_size(reals_of(m), r)
            / 1000000real,
{
    let (a, b) = (real_of(m[3 * r]), real_of(m[3 * r + 1]));
    lemma_less(p, x, a);
    lemma_less(q, y, b);
    lemma_size_of_both(a, p - x);
    lemma_size_of_both(b, q - y);
    let e = 1real / 1000000real;
    lemma_bounds(size(a), size(p - x), size(a), e);
    lemma_bounds(size(b), size(q - y), size(b), e);
    assert(size(a) * e == size(a) / 1000000real && size(b) * e == size(b) / 1000000real)
        by (nonlinear_arith)
        requires
            e == 1real / 1000000real,
    ;
    lemma_size_of_sum(a * (p - x), b * (q - y));
    assert(a * (p - x) + b * (q - y) == row_there(m, r, p, q) - row_there(m, r, x, y));
}

/// A row at a place of the frame.
proof fn lemma_row_in_frame(m: Seq<Single>, r: int, x: real, y: real)
    requires
        0 <= r < 3,
        0real <= x <= 1real,
        0real <= y <= 1real,
    ensures
        size(row_there(m, r, x, y)) <= row_size(reals_of(m), r),
{
    let (a, b, c) = (real_of(m[3 * r]), real_of(m[3 * r + 1]), real_of(m[3 * r + 2]));
    lemma_share_of(a, x);
    lemma_share_of(b, y);
    lemma_size_of_sum(a * x, b * y);
    lemma_size_of_sum(a * x + b * y, c);
}

/// A coordinate `u` that is told times the last one, and what it makes of a side.
proof fn lemma_on_side(
    u: real,
    w: real,
    p: (real, real),
    r: (real, real),
    z: (real, real),
    col: real,
    side: real,
)
    requires
        0real <= u <= 1real,
        size(u * w - p.0) <= told_to(z.0),
        size(w - p.1) <= told_to(z.1),
        size(p.0 - r.0) <= z.0 / 1000000real,
        size(p.1 - r.1) <= z.1 / 1000000real,
        size(r.1) <= z.1,
        0real <= z.0 <= 3000000real,
        1real / 100000000000000000000real <= z.1 <= 3000000real,
        size(col - u * side) <= side / 2000000real,
        side >= 1real,
    ensures
        size(col * r.1 - r.0 * side) <= (3real / 1000000real) * ((z.0 + z.1) * side),
{
    // What the coordinate is off.
    let d = (w - p.1) + (p.1 - r.1);
    lemma_size_of_sum(w - p.1, p.1 - r.1);
    assert(d == w - r.1);
    lemma_size_of_both(u, d);
    assert(size(u) == u) by {
        reveal(size);
    }
    lemma_bounds(u, size(d), 1real, size(d));
    lemma_less(w, r.1, u);
    assert(u * d == u * w - u * r.1);
    let e = u * r.1 - r.0;
    lemma_size_of_sum(u * w - p.0, p.0 - r.0);
    lemma_size_of_sum(u * w - p.0 + (p.0 - r.0), -(u * d));
    lemma_size_of_sum(u * d, 0real);
    assert(u * w - p.0 + (p.0 - r.0) + -(u * d) == e);
    assert(size(e) <= (22real / 10000000real) * (z.0 + z.1));
    // And what the place is.
    let g = col - u * side;
    lemma_size_of_both(g, r.1);
    lemma_bounds(size(g), size(r.1), side / 2000000real, z.1);
    lemma_size_of_both(e, side);
    assert(size(side) == side) by {
        reveal(size);
    }
    let c = (22real / 10000000real) * (z.0 + z.1);
    lemma_bounds(size(e), side, c, side);
    lemma_less(col, u * side, r.1);
    lemma_less(u * r.1, r.0, side);
    lemma_orders(u, side, r.1);
    lemma_size_of_sum(g * r.1, e * side);
    assert(g * r.1 + e * side == col * r.1 - r.0 * side);
    let t = (z.0 + z.1) * side;
    assert(c * side == (22real / 10000000real) * t) by (nonlinear_arith)
        requires
            c == (22real / 10000000real) * (z.0 + z.1),
            t == (z.0 + z.1) * side,
    ;
    assert((side / 2000000real) * z.1 <= t / 2000000real) by (nonlinear_arith)
        requires
            t == (z.0 + z.1) * side,
            z.0 >= 0real,
            side >= 1real,
    ;
    lemma_positive_product(z.0 + z.1, side);
}

/// A pixel's column is as far across the frame as its source's first coordinate says, and
/// its row as far down as the second says: the source of the pixel in column `x` and row `y`
/// is the place that the map points to from `x / (w - 1)` across and `y / (h - 1)` down, in
/// parts of the frame. That is, the source's column times the map's last row at the pixel is
/// the first row there times the frame's width less one, and the same of rows and height.
pub proof fn a_source_is_where_the_map_points(inv: Seq<Single>, x: int, y: int, w: int, h: int)
    requires
        bounded_map(inv),
        row_size(reals_of(inv), 2) >= 1real / 1000000real,
        2 <= w <= u32::MAX,
        2 <= h <= u32::MAX,
        0 <= x < w,
        0 <= y < h,
        source(inv, x, y, w, h) is Some,
    ensures
        ({
            let p = source(inv, x, y, w, h)->0;
            let q = reals_of(inv);
            let (across, down) = ((w - 1) as real, (h - 1) as real);
            let (a, b) = ((x as real) / across, (y as real) / down);
            let last = row_there(inv, 2, a, b);
            &&& p.0.finite() && p.1.finite()
            &&& size(real_of(p.0) * last - row_there(inv, 0, a, b) * across) <= (3real
                / 1000000real) * ((row_size(q, 0) + row_size(q, 2)) * across)
            &&& size(real_of(p.1) * last - row_there(inv, 1, a, b) * down) <= (3real
                / 1000000real) * ((row_size(q, 1) + row_size(q, 2)) * down)
        }),
{
    let q = reals_of(inv);
    let (across, down) = ((w - 1) as real, (h - 1) as real);
    let (a, b) = ((x as real) / across, (y as real) / down);
    let dw = Single::of_whole(w).difference(num(ONE)).larger(num(ONE));
    let dh = Single::of_whole(h).difference(num(ONE)).larger(num(ONE));
    let px = Single::of_whole(x).quotient(dw);
    let py = Single::of_whole(y).quotient(dh);
    lemma_part(x, w);
    lemma_part(y, h);
    lemma_last(w);
    lemma_last(h);
    let (rx, ry) = (real_of(px), real_of(py));
    assert(nearby(px) && nearby(py)) by {
        reveal(size);
    }
    let l = row_at(inv, 2, px, py);
    lemma_row_nearby(inv, 2, px, py);
    lemma_thresholds();
    lemma_absolute(l);
    lemma_order_real(l.absolute(), num(NEAR_ZERO));
    let e = row_there(inv, 2, rx, ry);
    lemma_size_of_sum(e, real_of(l) - e);
    assert(e + (real_of(l) - e) == real_of(l));
    lemma_coordinate(inv, 0, px, py, l);
    lemma_coordinate(inv, 1, px, py, l);
    lemma_row_moves(inv, 0, a, b, rx, ry);
    lemma_row_moves(inv, 1, a, b, rx, ry);
    lemma_row_moves(inv, 2, a, b, rx, ry);
    lemma_row_in_frame(inv, 2, a, b);
    lemma_row_nearby(inv, 0, px, py);
    lemma_row_nearby(inv, 1, px, py);
    let (u, v) = mapped(inv, px, py)->0;
    lemma_ends();
    lemma_order_real(num(ZERO), u);
    lemma_order_real(u, num(ONE));
    lemma_order_real(num(ZERO), v);
    lemma_order_real(v, num(ONE));
    lemma_times_side(u, dw, across);
    lemma_times_side(v, dh, down);
    let last = (row_there(inv, 2, rx, ry), row_there(inv, 2, a, b));
    lemma_on_side(
        real_of(u),
        real_of(l),
        (row_there(inv, 0, rx, ry), last.0),
        (row_there(inv, 0, a, b), last.1),
        (row_size(q, 0), row_size(q, 2)),
        real_of(u.product(dw)),
        across,
    );
    lemma_on_side(
        real_of(v),
        real_of(l),
        (row_there(inv, 1, rx, ry), last.0),
        (row_there(inv, 1, a, b), last.1),
        (row_size(q, 1), row_size(q, 2)),
        real_of(v.product(dh)),
        down,
    );
}

/// A share of a side, in pixels.
proof fn lemma_times_side(u: Single, d: Single, side: real)
    requires
        u.finite(),
        0real <= real_of(u) <= 1real,
        d.finite(),
        1real <= side <= 4294967295real,
        size(real_of(d) - side) <= side / 4000000real,
    ensures
        u.product(d).finite(),
        size(real_of(u.product(d)) - real_of(u) * side) <= side / 2000000real,
{
    let (a, b) = (real_of(u), real_of(d));
    lemma_size_of_both(a, b);
    lemma_size_of_both(a, b - side);
    assert(size(a) == a) by {
        reveal(size);
    }
    lemma_size_of_sum(side, b - side);
    assert(side + (b - side) == b && size(side) == side) by {
        reveal(size);
    }
    lemma_bounds(a, size(b), 1real, size(b));
    lemma_bounds(a, size(b - side), 1real, size(b - side));
    lemma_rounded_product(u, d);
    let v = real_of(u.product(d));
    lemma_less(b, side, a);
    lemma_size_of_sum(v - a * b, a * (b - side));
    assert(v - a * b + a * (b - side) == v - a * side);
}

/// Through the map that leaves everything where it is, every pixel comes from its own
/// place.
pub proof fn an_unmoved_pixel_comes_from_its_place(x: int, y: int, w: int, h: int)
    requires
        2 <= w <= u32::MAX,
        2 <= h <= u32::MAX,
        0 <= x < w,
        0 <= y < h,
        source(identity(), x, y, w, h) is Some,
    ensures
        ({
            let p = source(identity(), x, y, w, h)->0;
            &&& size(real_of(p.0) - x as real) <= (6real / 1000000real) * ((w - 1) as real)
            &&& size(real_of(p.1) - y as real) <= (6real / 1000000real) * ((h - 1) as real)
        }),
{
    reveal(size);
    lemma_ends();
    let m = identity();
    let (across, down) = ((w - 1) as real, (h - 1) as real);
    let (a, b) = ((x as real) / across, (y as real) / down);
    lemma_over(x as real, across);
    lemma_over(y as real, down);
    assert(1real * a == a && 0real * a == 0real && 1real * b == b && 0real * b == 0real)
        by (nonlinear_arith);
    a_source_is_where_the_map_points(m, x, y, w, h);
    let p = source(m, x, y, w, h)->0;
    assert(row_there(m, 2, a, b) == 1real && row_there(m, 0, a, b) == a && row_there(m, 1, a, b)
        == b);
    let q = reals_of(m);
    assert(row_size(q, 0) == 1real && row_size(q, 1) == 1real && row_size(q, 2) == 1real);
    assert((1real + 1real) * across == 2real * across && (1real + 1real) * down == 2real * down)
        by (nonlinear_arith);
    assert(real_of(p.0) * 1real == real_of(p.0) && real_of(p.1) * 1real == real_of(p.1))
        by (nonlinear_arith);
}

} // verus!
