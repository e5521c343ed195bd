//! Where the corners of a constrained crop come from.

use vstd::prelude::*;
use vstd::arithmetic::power2::{lemma2_to64, lemma2_to64_rest, lemma_pow2_pos, pow2};
use crate::bounds::{crop_within, in_band};
use crate::cofactors::{lemma_less, row_exactly};
use crate::homography::{inverted, mapped, row_at, NEAR_ZERO};
use crate::numbers::{HALF, MINUS_ONE, ONE, ONE_THOUSANDTH, ZERO};
use crate::mixing::{is_share, lemma_one, unit};
use crate::reals::{
    lemma_ends, lemma_magnitude_real, lemma_order_real, lemma_real_of_digits, real_of, size,
    size_is_not_below, within,
};
use crate::recipe::Crop;
use crate::rounding::{
    lemma_round_at_least, lemma_round_at_most, lemma_round_exists, lemma_single_from_parts,
    lemma_with_sign,
};
use crate::single::{lemma_codes_order, magnitude, num, round_to_code, Single};
use crate::tempering::{lemma_product_at_most, lemma_sum_keeps_order};
use crate::transform::{
    a_constrained_crop_lies_inside, box_of, constrained, constrained_scales_are_shares,
};
use crate::wayback::{
    bounded_map, lemma_absolute, lemma_bounds, lemma_quotient_back, lemma_quotient_sound,
    lemma_rounded_difference, lemma_rounded_product, lemma_rounded_sum, lemma_row,
    lemma_size_of_both, lemma_size_of_sum, lemma_thresholds, reals_of, row_loss, row_size, sound,
    tiny,
};

verus! {

broadcast use size_is_not_below;

/// A row of a map at a place.
pub open spec fn row_there(m: Seq<Single>, r: int, x: real, y: real) -> real {
    row_exactly(
        real_of(m[3 * r]),
        real_of(m[3 * r + 1]),
        real_of(m[3 * r + 2]),
        x,
        y,
    )
}

/// How well a row is told, and a coordinate times the last one, by the size of the row.
pub open spec fn told_to(r: real) -> real {
    (81real / 10real) * (r / 16777000real) + 20000000real * tiny()
}

/// A number, turned round if `back`.
pub open spec fn turned(v: real, back: bool) -> real {
    if back {
        -v
    } else {
        v
    }
}

/// A place that is not above two either way.
pub open spec fn nearby(v: Single) -> bool {
    v.finite() && size(real_of(v)) <= 2real
}

pub proof fn lemma_row_nearby(m: Seq<Single>, r: int, x: Single, y: Single)
    requires
        bounded_map(m),
        0 <= r < 3,
        nearby(x),
        nearby(y),
    ensures
        ({
            let z = row_size(reals_of(m), r);
            let exact = row_there(m, r, real_of(x), real_of(y));
            &&& within(row_at(m, r, x, y), exact, row_loss(2real * z))
            &&& size(exact) <= 2real * z <= 6000000real
        }),
{
    let (a, b, c) = (m[3 * r], m[3 * r + 1], m[3 * r + 2]);
    assert(a.finite() && b.finite() && c.finite());
    assert(size(real_of(a)) <= 1000000real);
    assert(size(real_of(b)) <= 1000000real);
    assert(size(real_of(c)) <= 1000000real);
    lemma_size_of_both(real_of(a), real_of(x));
    lemma_size_of_both(real_of(b), real_of(y));
    lemma_bounds(size(real_of(a)), size(real_of(x)), size(real_of(a)), 2real);
    lemma_bounds(size(real_of(b)), size(real_of(y)), size(real_of(b)), 2real);
    let z = row_size(reals_of(m), r);
    lemma_row(a, b, c, x, y, 2real * z);
    assert(r * 3 == 3 * r);
    lemma_size_of_sum(real_of(a) * real_of(x), real_of(b) * real_of(y));
    lemma_size_of_sum(real_of(a) * real_of(x) + real_of(b) * real_of(y), real_of(c));
}

/// A coordinate of a place's image, times the last one, is close to its row.
pub proof fn lemma_coordinate(m: Seq<Single>, r: int, x: Single, y: Single, w: Single)
    requires
        bounded_map(m),
        0 <= r < 2,
        nearby(x),
        nearby(y),
        w.finite(),
        9real / 10000000000real <= size(real_of(w)) <= 7000000real,
    ensures
        ({
            let u = row_at(m, r, x, y).quotient(w);
            &&& u.finite()
            &&& size(real_of(u) * real_of(w) - row_there(m, r, real_of(x), real_of(y))) <= told_to(
                row_size(reals_of(m), r),
            )
        }),
{
    lemma_row_nearby(m, r, x, y);
    let z = row_size(reals_of(m), r);
    let a = row_at(m, r, x, y);
    let e = row_there(m, r, real_of(x), real_of(y));
    lemma_size_of_sum(e, real_of(a) - e);
    assert(e + (real_of(a) - e) == real_of(a));
    lemma_quotient_sound(real_of(a), real_of(w), 9real / 10000000000real, 7000000real);
    lemma_quotient_back(a, e, row_loss(2real * z), w);
    lemma_bounds(tiny(), size(real_of(w)), tiny(), 7000000real);
}

/// What is told of the places that a map sends into the frame: neither coordinate is much
/// below nought, nor above the last one.
spec fn sent_inside(m: Seq<Single>, x: real, y: real, back: bool, e: real) -> bool {
    let w = turned(row_there(m, 2, x, y), back);
    &&& turned(row_there(m, 0, x, y), back) >= -e
    &&& turned(row_there(m, 1, x, y), back) >= -e
    &&& turned(row_there(m, 0, x, y), back) <= w + e
    &&& turned(row_there(m, 1, x, y), back) <= w + e
}

/// How well a whole point is told.
spec fn all_told(m: Seq<Single>) -> real {
    told_to(row_size(reals_of(m), 0)) + told_to(row_size(reals_of(m), 1)) + told_to(
        row_size(reals_of(m), 2),
    )
}

/// A coordinate from nought to one, times the last one.
proof fn lemma_share_of_last(u: real, w: real, r: real, l: real, e: real, f: real, back: bool)
    requires
        0real <= u <= 1real,
        size(u * w - r) <= e,
        size(w - l) <= f,
        turned(l, back) > 0real,
    ensures
        turned(r, back) >= -(e + f),
        turned(r, back) <= turned(l, back) + (e + f),
{
    reveal(size);
    assert(-f <= u * (w - l) <= f) by (nonlinear_arith)
        requires
            0real <= u <= 1real,
            -f <= w - l <= f,
    ;
    assert(u * w == u * l + u * (w - l)) by (nonlinear_arith);
    let t = turned(l, back);
    assert(0real <= u * t <= t) by (nonlinear_arith)
        requires
            0real <= u <= 1real,
            t > 0real,
    ;
    assert(u * (-l) == -(u * l)) by (nonlinear_arith);
}

/// A place that was seen to come from inside of the frame.
proof fn lemma_tested(m: Seq<Single>, x: Single, y: Single, back: bool)
    requires
        bounded_map(m),
        nearby(x),
        nearby(y),
        turned(row_there(m, 2, real_of(x), real_of(y)), back) > 0real,
        mapped(m, x, y) matches Some(p) && num(ZERO).at_most(p.0) && p.0.at_most(num(ONE))
            && num(ZERO).at_most(p.1) && p.1.at_most(num(ONE)),
    ensures
        sent_inside(m, real_of(x), real_of(y), back, all_told(m)),
{
    let w = row_at(m, 2, x, y);
    let p = mapped(m, x, y)->0;
    lemma_row_nearby(m, 2, x, y);
    lemma_thresholds();
    lemma_absolute(w);
    lemma_order_real(w.absolute(), num(NEAR_ZERO));
    let l = row_there(m, 2, real_of(x), real_of(y));
    lemma_size_of_sum(l, real_of(w) - l);
    assert(l + (real_of(w) - l) == real_of(w));
    lemma_coordinate(m, 0, x, y, w);
    lemma_coordinate(m, 1, x, y, w);
    lemma_ends();
    lemma_order_real(num(ZERO), p.0);
    lemma_order_real(p.0, num(ONE));
    lemma_order_real(num(ZERO), p.1);
    lemma_order_real(p.1, num(ONE));
    let q = reals_of(m);
    let (a, b, c) = (told_to(row_size(q, 0)), told_to(row_size(q, 1)), told_to(row_size(q, 2)));
    let r0 = row_there(m, 0, real_of(x), real_of(y));
    let r1 = row_there(m, 1, real_of(x), real_of(y));
    lemma_share_of_last(real_of(p.0), real_of(w), r0, l, a, c, back);
    lemma_share_of_last(real_of(p.1), real_of(w), r1, l, b, c, back);
}

/// A straight function that is not below nought at the corners of a rectangle is not below
/// nought inside of it.
proof fn lemma_straight(a: real, b: real, c: real, xs: (real, real), ys: (real, real), x: real, y: real)
    requires
        xs.0 <= x <= xs.1,
        ys.0 <= y <= ys.1,
        a * xs.0 + b * ys.0 + c >= 0real,
        a * xs.1 + b * ys.0 + c >= 0real,
        a * xs.0 + b * ys.1 + c >= 0real,
        a * xs.1 + b * ys.1 + c >= 0real,
    ensures
        a * x + b * y + c >= 0real,
{
    assert(a * x >= a * xs.0 || a * x >= a * xs.1) by (nonlinear_arith)
        requires
            xs.0 <= x <= xs.1,
    ;
    assert(b * y >= b * ys.0 || b * y >= b * ys.1) by (nonlinear_arith)
        requires
            ys.0 <= y <= ys.1,
    ;
}

/// The numbers of a row.
spec fn row_of(m: Seq<Single>, r: int) -> (real, real, real) {
    (real_of(m[3 * r]), real_of(m[3 * r + 1]), real_of(m[3 * r + 2]))
}

spec fn row_value(a: (real, real, real), x: real, y: real) -> real {
    row_exactly(a.0, a.1, a.2, x, y)
}

proof fn lemma_combined(a: (real, real, real), b: (real, real, real), x: real, y: real)
    ensures
        row_value((a.0 - b.0, a.1 - b.1, a.2 - b.2), x, y) == row_value(a, x, y) - row_value(
            b,
            x,
            y,
        ),
{
    lemma_less(a.0, b.0, x);
    lemma_less(a.1, b.1, y);
}

/// One row is above another at every place of a rectangle if it is at the corners.
proof fn lemma_above(
    a: (real, real, real),
    b: (real, real, real),
    k: real,
    xs: (real, real),
    ys: (real, real),
    x: real,
    y: real,
)
    requires
        xs.0 <= x <= xs.1,
        ys.0 <= y <= ys.1,
        row_value(a, xs.0, ys.0) - row_value(b, xs.0, ys.0) + k >= 0real,
        row_value(a, xs.1, ys.0) - row_value(b, xs.1, ys.0) + k >= 0real,
        row_value(a, xs.0, ys.1) - row_value(b, xs.0, ys.1) + k >= 0real,
        row_value(a, xs.1, ys.1) - row_value(b, xs.1, ys.1) + k >= 0real,
    ensures
        row_value(a, x, y) - row_value(b, x, y) + k >= 0real,
{
    lemma_combined(a, b, xs.0, ys.0);
    lemma_combined(a, b, xs.1, ys.0);
    lemma_combined(a, b, xs.0, ys.1);
    lemma_combined(a, b, xs.1, ys.1);
    lemma_combined(a, b, x, y);
    lemma_straight(a.0 - b.0, a.1 - b.1, a.2 - b.2 + k, xs, ys, x, y);
}

/// A row of noughts is nought.
proof fn lemma_nought(x: real, y: real)
    ensures
        row_value((0real, 0real, 0real), x, y) == 0real,
{
    assert(0real * x == 0real && 0real * y == 0real) by (nonlinear_arith);
}

/// The rectangle lies on one side of the horizon, at least `g` from it.
pub open spec fn clear_of_horizon(
    m: Seq<Single>,
    xs: (real, real),
    ys: (real, real),
    back: bool,
    g: real,
) -> bool {
    &&& turned(row_there(m, 2, xs.0, ys.0), back) >= g
    &&& turned(row_there(m, 2, xs.1, ys.0), back) >= g
    &&& turned(row_there(m, 2, xs.0, ys.1), back) >= g
    &&& turned(row_there(m, 2, xs.1, ys.1), back) >= g
}

/// What holds at the corners of a rectangle holds inside of it.
proof fn lemma_inside_rectangle(
    m: Seq<Single>,
    xs: (real, real),
    ys: (real, real),
    x: real,
    y: real,
    back: bool,
    e: real,
    g: real,
)
    requires
        xs.0 <= x <= xs.1,
        ys.0 <= y <= ys.1,
        clear_of_horizon(m, xs, ys, back, g),
        sent_inside(m, xs.0, ys.0, back, e),
        sent_inside(m, xs.1, ys.0, back, e),
        sent_inside(m, xs.0, ys.1, back, e),
        sent_inside(m, xs.1, ys.1, back, e),
    ensures
        sent_inside(m, x, y, back, e),
        turned(row_there(m, 2, x, y), back) >= g,
{
    let o = (0real, 0real, 0real);
    lemma_nought(xs.0, ys.0);
    lemma_nought(xs.1, ys.0);
    lemma_nought(xs.0, ys.1);
    lemma_nought(xs.1, ys.1);
    lemma_nought(x, y);
    let (a, b, c) = (row_of(m, 0), row_of(m, 1), row_of(m, 2));
    if back {
        lemma_above(o, a, e, xs, ys, x, y);
        lemma_above(o, b, e, xs, ys, x, y);
        lemma_above(a, c, e, xs, ys, x, y);
        lemma_above(b, c, e, xs, ys, x, y);
        lemma_above(o, c, -g, xs, ys, x, y);
    } else {
        lemma_above(a, o, e, xs, ys, x, y);
        lemma_above(b, o, e, xs, ys, x, y);
        lemma_above(c, a, e, xs, ys, x, y);
        lemma_above(c, b, e, xs, ys, x, y);
        lemma_above(c, o, -g, xs, ys, x, y);
    }
}

/// A coordinate that is not far below nought, nor far above one.
pub open spec fn nearly_in(v: Single, tol: real) -> bool {
    v.finite() && -tol <= real_of(v) <= 1real + tol
}

/// A place comes from inside of the frame, to within `tol`.
pub open spec fn comes_from_inside(m: Seq<Single>, x: Single, y: Single, tol: real) -> bool {
    mapped(m, x, y) matches Some(p) && nearly_in(p.0, tol) && nearly_in(p.1, tol)
}

/// A coordinate, out of what is told of it times the last one.
proof fn lemma_out_of_told(u: real, w: real, r: real, l: real, e: real, g: real, tol: real, back: bool)
    requires
        size(u * w - r) <= e,
        size(w - l) <= e,
        turned(r, back) >= -e,
        turned(r, back) <= turned(l, back) + e,
        turned(l, back) >= g,
        g > 0real,
        tol > 0real,
        e <= g / 100real,
        3real * e <= (99real / 100real) * (tol * g),
    ensures
        -tol <= u <= 1real + tol,
{
    reveal(size);
    let n = turned(w, back);
    let v = turned(u * w, back);
    assert(v == u * n) by (nonlinear_arith)
        requires
            v == turned(u * w, back),
            n == turned(w, back),
            turned(u * w, back) == (if back {
                -(u * w)
            } else {
                u * w
            }),
            turned(w, back) == (if back {
                -w
            } else {
                w
            }),
    ;
    assert(n >= (99real / 100real) * g);
    let k = tol * g;
    assert(tol * n >= (99real / 100real) * k) by (nonlinear_arith)
        requires
            n >= (99real / 100real) * g,
            tol > 0real,
            k == tol * g,
    ;
    if u < -tol {
        assert(u * n <= -(tol * n)) by (nonlinear_arith)
            requires
                u < -tol,
                n > 0real,
        ;
        assert(u * n < -(tol * n)) by (nonlinear_arith)
            requires
                u < -tol,
                n > 0real,
        ;
    }
    if u > 1real + tol {
        assert(u * n > n + tol * n) by (nonlinear_arith)
            requires
                u > 1real + tol,
                n > 0real,
        ;
    }
}

/// A place that is sent inside, as it is told.
proof fn lemma_seen(m: Seq<Single>, x: Single, y: Single, back: bool, g: real, tol: real)
    requires
        bounded_map(m),
        nearby(x),
        nearby(y),
        sent_inside(m, real_of(x), real_of(y), back, all_told(m)),
        turned(row_there(m, 2, real_of(x), real_of(y)), back) >= g,
        g >= 1real / 1000000real,
        tol > 0real,
        all_told(m) <= g / 100real,
        3real * all_told(m) <= (99real / 100real) * (tol * g),
    ensures
        comes_from_inside(m, x, y, tol),
{
    let w = row_at(m, 2, x, y);
    let l = row_there(m, 2, real_of(x), real_of(y));
    let e = all_told(m);
    lemma_row_nearby(m, 0, x, y);
    lemma_row_nearby(m, 1, x, y);
    lemma_row_nearby(m, 2, x, y);
    lemma_size_of_sum(l, real_of(w) - l);
    lemma_size_of_sum(real_of(w), l - real_of(w));
    assert(l + (real_of(w) - l) == real_of(w) && real_of(w) + (l - real_of(w)) == l);
    assert(size(l - real_of(w)) == size(real_of(w) - l) && size(l) >= g) by {
        reveal(size);
    }
    lemma_thresholds();
    lemma_absolute(w);
    lemma_order_real(w.absolute(), num(NEAR_ZERO));
    lemma_coordinate(m, 0, x, y, w);
    lemma_coordinate(m, 1, x, y, w);
    let u = row_at(m, 0, x, y).quotient(w);
    let v = row_at(m, 1, x, y).quotient(w);
    assert(mapped(m, x, y) == Some((u, v)));
    lemma_out_of_told(
        real_of(u),
        real_of(w),
        row_there(m, 0, real_of(x), real_of(y)),
        l,
        e,
        g,
        tol,
        back,
    );
    lemma_out_of_told(
        real_of(v),
        real_of(w),
        row_there(m, 1, real_of(x), real_of(y)),
        l,
        e,
        g,
        tol,
        back,
    );
}

/// A value above nought has no sign.
proof fn lemma_positive(v: Single)
    requires
        v.finite(),
        real_of(v) > 0real,
    ensures
        !v.negative(),
{
    lemma_magnitude_real(v);
    lemma_codes_order(v.code(), 0);
    lemma_pow2_pos(149);
    let u = pow2(149) as real;
    let m = magnitude(v.code()) as real;
    assert(m / u >= 0real) by (nonlinear_arith)
        requires
            m >= 0real,
            u > 0real,
    ;
}

/// A value without a sign is not below nought.
proof fn lemma_not_below(v: Single)
    requires
        v.finite(),
        !v.negative(),
    ensures
        real_of(v) >= 0real,
{
    lemma_ends();
    lemma_order_real(num(ZERO), v);
}

proof fn lemma_half()
    ensures
        num(HALF).finite(),
        real_of(num(HALF)) == 1real / 2real,
        num(ONE_THOUSANDTH).finite(),
        real_of(num(ONE_THOUSANDTH)) >= 9real / 10000real,
{
    lemma2_to64();
    lemma2_to64_rest();
    assert(HALF as int / 0x80_0000 == 126 && HALF as int % 0x80_0000 == 0);
    lemma_real_of_digits(HALF, 0x80_0000, 24);
    assert(8388608real / 16777216real == 1real / 2real);
    assert(ONE_THOUSANDTH as int / 0x80_0000 == 117 && ONE_THOUSANDTH as int % 0x80_0000
        == 0x03_126F);
    lemma_real_of_digits(ONE_THOUSANDTH, 8589935, 33);
    assert(8589935real / 8589934592real >= 9real / 10000real);
}

/// The middle of two places of the frame, and half of what lies between.
proof fn lemma_side_of_box(l: Single, r: Single)
    requires
        l.finite() && 0real <= real_of(l) <= 1real,
        r.finite() && 0real <= real_of(r) <= 1real,
        real_of(r.difference(l)) >= 9real / 10000real || real_of(r) - real_of(l) == 1real,
    ensures
        ({
            let c = l.sum(r).product(num(HALF));
            let d = r.difference(l).product(num(HALF));
            &&& c.finite() && size(real_of(c)) <= 11real / 10real
            &&& d.finite() && !d.negative() && 0real <= real_of(d) <= 6real / 10real
        }),
{
    reveal(size);
    lemma_half();
    lemma_rounded_sum(l, r);
    lemma_rounded_difference(r, l);
    let s = l.sum(r);
    let d = r.difference(l);
    assert(real_of(s) * (1real / 2real) == real_of(s) / 2real);
    assert(real_of(d) * (1real / 2real) == real_of(d) / 2real);
    lemma_rounded_product(s, num(HALF));
    lemma_rounded_product(d, num(HALF));
    lemma_positive(d.product(num(HALF)));
}

proof fn lemma_box(crop: Option<Crop>)
    requires
        crop_within(crop),
    ensures
        ({
            let b = box_of(crop);
            &&& b.cx.finite() && size(real_of(b.cx)) <= 11real / 10real
            &&& b.cy.finite() && size(real_of(b.cy)) <= 11real / 10real
            &&& b.hw.finite() && !b.hw.negative() && 0real <= real_of(b.hw) <= 6real / 10real
            &&& b.hh.finite() && !b.hh.negative() && 0real <= real_of(b.hh) <= 6real / 10real
        }),
{
    reveal(in_band);
    lemma_ends();
    lemma_half();
    match crop {
        None => {
            lemma_side_of_box(num(ZERO), num(ONE));
        },
        Some(k) => {
            lemma_order_real(num(ZERO), k.left);
            lemma_order_real(k.left, num(ONE));
            lemma_order_real(num(ZERO), k.right);
            lemma_order_real(k.right, num(ONE));
            lemma_order_real(num(ZERO), k.top);
            lemma_order_real(k.top, num(ONE));
            lemma_order_real(num(ZERO), k.bottom);
            lemma_order_real(k.bottom, num(ONE));
            assert(sound(real_of(k.right) - real_of(k.left)) && sound(
                real_of(k.bottom) - real_of(k.top),
            )) by {
                reveal(size);
            }
            lemma_rounded_difference(k.right, k.left);
            lemma_rounded_difference(k.bottom, k.top);
            lemma_order_real(k.right.difference(k.left), num(ONE_THOUSANDTH));
            lemma_order_real(k.bottom.difference(k.top), num(ONE_THOUSANDTH));
            lemma_side_of_box(k.left, k.right);
            lemma_side_of_box(k.top, k.bottom);
        },
    }
}

/// An edge of a box at a scale is near the frame.
proof fn lemma_edges_nearby(mid: Single, half: Single, s: Single)
    requires
        mid.finite() && size(real_of(mid)) <= 11real / 10real,
        half.finite() && !half.negative() && 0real <= real_of(half) <= 6real / 10real,
        is_share(s),
    ensures
        nearby(mid.sum(half.product(s))),
        nearby(mid.difference(half.product(s))),
        half.product(s).finite(),
        !half.product(s).negative(),
        mid.difference(half.product(s)).at_most(mid.sum(half.product(s))),
{
    let a = half.product(s);
    lemma_product_at_most(half, s);
    lemma_order_real(a, half);
    lemma_not_below(a);
    assert(sound(real_of(mid) + real_of(a)) && sound(real_of(mid) - real_of(a))) by {
        reveal(size);
    }
    lemma_rounded_sum(mid, a);
    lemma_rounded_difference(mid, a);
    assert(nearby(mid.sum(a)) && nearby(mid.difference(a))) by {
        reveal(size);
    }
    lemma_sum_keeps_order(a.negation(), a, mid);
}

/// One times a value is the value, and minus one times it the value turned round.
proof fn lemma_times_one(v: Single)
    requires
        v.finite(),
    ensures
        num(ONE).product(v) == v,
        num(MINUS_ONE).product(v) == v.negation(),
{
    lemma_one();
    let u = unit();
    let m = magnitude(v.code());
    lemma_codes_order(v.code(), 0);
    reveal(Single::product);
    assert(num(MINUS_ONE).code() == ONE && num(MINUS_ONE).negative());
    let n = u * m;
    assert(n == m * u && n >= 0) by (nonlinear_arith)
        requires
            n == u * m,
            m >= 0,
            u > 0,
    ;
    lemma_round_exists(n, u);
    lemma_round_at_most(n, u, v.code());
    lemma_round_at_least(n, u, v.code());
    lemma_with_sign(v.negative(), v.code());
    lemma_with_sign(!v.negative(), v.code());
    lemma_single_from_parts(num(ONE).product(v), v);
    lemma_single_from_parts(num(MINUS_ONE).product(v), v.negation());
}

/// The corners that were tested are those of the rectangle.
proof fn lemma_tested_edges(mid: Single, half: Single, s: Single)
    requires
        half.finite(),
        is_share(s),
    ensures
        mid.sum(num(ONE).product(half).product(s)) == mid.sum(half.product(s)),
        mid.sum(num(MINUS_ONE).product(half).product(s)) == mid.difference(half.product(s)),
{
    lemma_times_one(half);
    reveal(Single::product);
    lemma_pow2_pos(149);
    lemma_codes_order(half.code(), 0);
    lemma_codes_order(s.code(), 0);
    let n = magnitude(half.code()) * magnitude(s.code());
    assert(n >= 0) by (nonlinear_arith)
        requires
            n == magnitude(half.code()) * magnitude(s.code()),
            magnitude(half.code()) >= 0,
            magnitude(s.code()) >= 0,
    ;
    let c = round_to_code(n, pow2(149) as int);
    lemma_round_exists(n, pow2(149) as int);
    lemma_with_sign(half.negative(), c);
    lemma_with_sign(!half.negative(), half.code());
    lemma_with_sign(!half.negative(), c);
}

/// The rectangle that a crop was narrowed to before a pixel was given back.
pub open spec fn narrowed_to(m: Seq<Single>, crop: Option<Crop>) -> Crop {
    let b = box_of(crop);
    b.at(b.narrowed(inverted(m)->0, num(ZERO), num(ONE), 40))
}

/// The sides of a rectangle from left to right, and from top to bottom.
pub open spec fn across(c: Crop) -> (real, real) {
    (real_of(c.left), real_of(c.right))
}

pub open spec fn down(c: Crop) -> (real, real) {
    (real_of(c.top), real_of(c.bottom))
}

/// The four corners of a constrained crop come from inside of the frame, to within `tol`,
/// wherever the rectangle is clear of the horizon and rounding cannot do more.
pub proof fn the_corners_of_a_constrained_crop_come_from_inside(
    m: Seq<Single>,
    crop: Option<Crop>,
    w: int,
    h: int,
    back: bool,
    g: real,
    tol: real,
)
    requires
        constrained(m, crop, w, h) is Some,
        0 <= w <= u32::MAX,
        0 <= h <= u32::MAX,
        crop_within(crop),
        bounded_map(inverted(m)->0),
        clear_of_horizon(
            inverted(m)->0,
            across(narrowed_to(m, crop)),
            down(narrowed_to(m, crop)),
            back,
            g,
        ),
        g >= 1real / 1000000real,
        1real / 1000000real <= tol <= 1real / 100real,
        row_size(reals_of(inverted(m)->0), 0) + row_size(reals_of(inverted(m)->0), 1) + row_size(
            reals_of(inverted(m)->0),
            2,
        ) <= 600000real * (tol * g),
    ensures
        ({
            let c = constrained(m, crop, w, h)->0;
            let inv = inverted(m)->0;
            &&& comes_from_inside(inv, c.left, c.top, tol)
            &&& comes_from_inside(inv, c.right, c.top, tol)
            &&& comes_from_inside(inv, c.left, c.bottom, tol)
            &&& comes_from_inside(inv, c.right, c.bottom, tol)
        }),
{
    let inv = inverted(m)->0;
    let b = box_of(crop);
    let c = constrained(m, crop, w, h)->0;
    let e = narrowed_to(m, crop);
    lemma_box(crop);
    a_constrained_crop_lies_inside(m, crop, w, h);
    let lo = b.narrowed(inv, num(ZERO), num(ONE), 40);
    let s = b.retreated(lo, w, h);
    constrained_scales_are_shares(m, crop, w, h);
    lemma_edges_nearby(b.cx, b.hw, lo);
    lemma_edges_nearby(b.cy, b.hh, lo);
    lemma_edges_nearby(b.cx, b.hw, s);
    lemma_edges_nearby(b.cy, b.hh, s);
    lemma_tested_edges(b.cx, b.hw, lo);
    lemma_tested_edges(b.cy, b.hh, lo);
    lemma_tested(inv, e.left, e.top, back);
    lemma_tested(inv, e.right, e.top, back);
    lemma_tested(inv, e.left, e.bottom, back);
    lemma_tested(inv, e.right, e.bottom, back);
    lemma_order_real(e.left, c.left);
    lemma_order_real(c.left, c.right);
    lemma_order_real(c.right, e.right);
    lemma_order_real(e.top, c.top);
    lemma_order_real(c.top, c.bottom);
    lemma_order_real(c.bottom, e.bottom);
    lemma_small_enough(inv, g, tol);
    lemma_corner_inside(inv, e, c.left, c.top, back, g, tol);
    lemma_corner_inside(inv, e, c.right, c.top, back, g, tol);
    lemma_corner_inside(inv, e, c.left, c.bottom, back, g, tol);
    lemma_corner_inside(inv, e, c.right, c.bottom, back, g, tol);
}

proof fn lemma_corner_inside(m: Seq<Single>, e: Crop, x: Single, y: Single, back: bool, g: real, tol: real)
    requires
        bounded_map(m),
        nearby(x),
        nearby(y),
        real_of(e.left) <= real_of(x) <= real_of(e.right),
        real_of(e.top) <= real_of(y) <= real_of(e.bottom),
        clear_of_horizon(m, across(e), down(e), back, g),
        sent_inside(m, real_of(e.left), real_of(e.top), back, all_told(m)),
        sent_inside(m, real_of(e.right), real_of(e.top), back, all_told(m)),
        sent_inside(m, real_of(e.left), real_of(e.bottom), back, all_told(m)),
        sent_inside(m, real_of(e.right), real_of(e.bottom), back, all_told(m)),
        g >= 1real / 1000000real,
        tol > 0real,
        all_told(m) <= g / 100real,
        3real * all_told(m) <= (99real / 100real) * (tol * g),
    ensures
        comes_from_inside(m, x, y, tol),
{
    lemma_inside_rectangle(
        m,
        across(e),
        down(e),
        real_of(x),
        real_of(y),
        back,
        all_told(m),
        g,
    );
    lemma_seen(m, x, y, back, g, tol);
}

proof fn lemma_small_enough(m: Seq<Single>, g: real, tol: real)
    requires
        g >= 1real / 1000000real,
        1real / 1000000real <= tol <= 1real / 100real,
        row_size(reals_of(m), 0) + row_size(reals_of(m), 1) + row_size(reals_of(m), 2)
            <= 600000real * (tol * g),
    ensures
        all_told(m) <= g / 100real,
        3real * all_told(m) <= (99real / 100real) * (tol * g),
{
    let k = tol * g;
    lemma_bounds(tol, g, 1real / 100real, g);
    assert((1real / 100real) * g == g / 100real) by (nonlinear_arith);
    lemma_bounds(1real / 1000000real, 1real / 1000000real, tol, g);
    assert((1real / 1000000real) * (1real / 1000000real) == 1real / 1000000000000real)
        by (nonlinear_arith);
}

} // verus!
