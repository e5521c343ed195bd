//! What a tone curve does between its knots, its samples and its ends, among the real
//! numbers.

use vstd::prelude::*;
use vstd::arithmetic::power2::{lemma2_to64, lemma2_to64_rest, pow2};
use crate::coverings::{lemma_floor, lemma_int_real};
use crate::numbers::{ONE, ZERO};
use crate::profile::FLAT;
use crate::reals::{
    lemma_ends, lemma_order_real, lemma_real_of_digits, real_of, size, size_is_not_below, within,
};
use crate::single::{num, Single};
use crate::sliding::lemma_mix;
use crate::tone::{
    by_brightness, brightness_orders_all_channels, curve_at, looked_up, reached, toned, Knot,
};
use crate::wayback::{
    lemma_bounds, lemma_over, lemma_quotient_sound, lemma_rounded_difference, lemma_rounded_product,
    lemma_rounded_quotient, lemma_rounded_sum, lemma_size_of_both, lemma_size_of_sum, tiny,
};

verus! {

broadcast use size_is_not_below;

/// The value at `x` of what goes straight from `base` at `o` to `top` at `e`.
pub open spec fn straight(base: Single, top: Single, o: Single, x: Single, e: Single) -> Single {
    base.sum(top.difference(base).product(x.difference(o)).quotient(e.difference(o)))
}

/// A difference of two numbers that is not above `w`.
pub proof fn lemma_step(a: Single, b: Single, w: real)
    requires
        a.finite() && b.finite(),
        0real <= real_of(a) - real_of(b) <= w,
        1real / 10000000real <= w <= 10real,
    ensures
        within(a.difference(b), real_of(a) - real_of(b), w / 16000000real),
{
    assert(size(real_of(a) - real_of(b)) == real_of(a) - real_of(b)) by {
        reveal(size);
    }
    lemma_rounded_difference(a, b);
}

proof fn lemma_rise(d: real, g: real, r: real, s: real, p: real, w: real)
    requires
        size(d) <= 4real,
        size(g - d) <= 1real / 3000000real,
        size(g) <= 5real,
        0real <= r <= w,
        size(s - r) <= w / 16000000real,
        1real / 10000000real <= w <= 10real,
        size(p - g * s) <= size(g * s) / 16777000real + tiny(),
    ensures
        size(p - d * r) <= w / 1000000real,
        size(p) <= 5real * w,
{
    lemma_size_of_both(g, s - r);
    lemma_bounds(size(g), size(s - r), 5real, w / 16000000real);
    assert(g * (s - r) == g * s - g * r) by (nonlinear_arith);
    assert(size(r) == r) by {
        reveal(size);
    }
    lemma_size_of_both(g - d, r);
    lemma_bounds(size(g - d), size(r), 1real / 3000000real, w);
    assert((g - d) * r == g * r - d * r) by (nonlinear_arith);
    lemma_size_of_sum(g * s - g * r, g * r - d * r);
    assert((g * s - g * r) + (g * r - d * r) == g * s - d * r);
    lemma_size_of_both(d, r);
    lemma_bounds(size(d), size(r), 4real, w);
    lemma_size_of_sum(d * r, g * s - d * r);
    assert(d * r + (g * s - d * r) == g * s);
    lemma_size_of_sum(p - g * s, g * s - d * r);
    assert((p - g * s) + (g * s - d * r) == p - d * r);
    lemma_size_of_sum(d * r, p - d * r);
    assert(d * r + (p - d * r) == p);
}

proof fn lemma_shared_out(p: real, v: real, q: real, want: real, w: real)
    requires
        size(p - want) <= w / 1000000real,
        size(p) <= 5real * w,
        size(v - w) <= w / 16000000real,
        1real / 10000000real <= w <= 10real,
        v != 0real,
        size(q - p / v) <= size(p / v) / 16777000real + tiny(),
    ensures
        size(q * w - want) <= w / 500000real,
        size(q) <= 6real,
{
    assert(v >= w / 2real && v <= 2real * w && size(v) == v) by {
        reveal(size);
    }
    let y = p / v;
    lemma_over(p, v);
    lemma_size_of_both(y, v);
    lemma_size_of_both(q - y, v);
    lemma_bounds(size(q - y), v, size(y) / 16777000real + tiny(), v);
    assert((size(y) / 16777000real + tiny()) * v == size(p) / 16777000real + tiny() * v)
        by (nonlinear_arith)
        requires
            size(y) * v == size(p),
    ;
    lemma_bounds(tiny(), v, tiny(), 20real);
    assert((q - y) * v == q * v - p) by (nonlinear_arith)
        requires
            y * v == p,
    ;
    assert(v >= (999real / 1000real) * w) by {
        reveal(size);
    }
    assert(size(y) <= 51real / 10real) by (nonlinear_arith)
        requires
            size(y) * v == size(p),
            size(p) <= 5real * w,
            v >= (999real / 1000real) * w,
            w > 0real,
    ;
    lemma_size_of_sum(y, q - y);
    assert(y + (q - y) == q);
    lemma_size_of_both(q, v - w);
    lemma_bounds(size(q), size(v - w), 6real, w / 16000000real);
    assert(q * (v - w) == q * v - q * w) by (nonlinear_arith);
    assert(size(q * w - q * v) == size(q * v - q * w)) by {
        reveal(size);
    }
    lemma_size_of_sum(q * w - q * v, q * v - p);
    assert((q * w - q * v) + (q * v - p) == q * w - p);
    lemma_size_of_sum(q * w - p, p - want);
    assert((q * w - p) + (p - want) == q * w - want);
}

/// What lies straight between two points divides the way up as it divides the way along.
pub proof fn lemma_straight(base: Single, top: Single, o: Single, x: Single, e: Single)
    requires
        base.finite() && top.finite() && o.finite() && x.finite() && e.finite(),
        size(real_of(base)) <= 2real,
        size(real_of(top)) <= 2real,
        real_of(o) <= real_of(x) <= real_of(e),
        1real / 10000000real <= real_of(e) - real_of(o) <= 10real,
    ensures
        straight(base, top, o, x, e).finite(),
        ({
            let y = real_of(straight(base, top, o, x, e));
            let w = real_of(e) - real_of(o);
            size((y - real_of(base)) * w - (real_of(top) - real_of(base)) * (real_of(x) - real_of(o)))
                <= w / 300000real
        }),
{
    let (b, t) = (real_of(base), real_of(top));
    let (d, r, w) = (t - b, real_of(x) - real_of(o), real_of(e) - real_of(o));
    assert(size(d) <= 4real) by {
        reveal(size);
    }
    lemma_rounded_difference(top, base);
    let rise = top.difference(base);
    let g = real_of(rise);
    lemma_size_of_sum(d, g - d);
    assert(d + (g - d) == g);
    lemma_step(x, o, w);
    lemma_step(e, o, w);
    let (run, whole) = (x.difference(o), e.difference(o));
    let (s, v) = (real_of(run), real_of(whole));
    assert(size(s) <= 11real && size(r) == r) by {
        reveal(size);
    }
    lemma_size_of_both(g, s);
    lemma_bounds(size(g), size(s), 5real, 11real);
    lemma_rounded_product(rise, run);
    let up = rise.product(run);
    let p = real_of(up);
    lemma_rise(d, g, r, s, p, w);
    assert(v >= w / 2real && size(v) == v) by {
        reveal(size);
    }
    lemma_quotient_sound(p, v, 1real / 20000000real, 50real);
    lemma_rounded_quotient(up, whole);
    let part = up.quotient(whole);
    let q = real_of(part);
    lemma_shared_out(p, v, q, d * r, w);
    lemma_size_of_sum(b, q);
    lemma_rounded_sum(base, part);
    let y = real_of(base.sum(part));
    assert(size(y - (b + q)) <= 1real / 2000000real);
    let off = y - b - q;
    lemma_size_of_both(off, w);
    assert(size(w) == w) by {
        reveal(size);
    }
    lemma_bounds(size(off), w, 1real / 2000000real, w);
    assert((y - b) * w == q * w + off * w) by (nonlinear_arith)
        requires
            off == y - b - q,
    ;
    lemma_size_of_sum(off * w, q * w - d * r);
    assert(off * w + (q * w - d * r) == (y - b) * w - d * r);
}

/// The channel between the brightest and the darkest keeps its place between them: it
/// divides the way between what the curve makes of the two as it did before.
pub proof fn the_middle_channel_keeps_its_place(c: Seq<Single>, lut: Seq<Single>)
    requires
        c.len() == 3,
        forall|i: int|
            0 <= i < 3 ==> (#[trigger] c[i]).finite() && 0real <= real_of(c[i]) <= 1real,
        ({
            let (hi, mid, lo) = by_brightness(c);
            let (a, b) = (looked_up(lut, c[hi]), looked_up(lut, c[lo]));
            &&& a.finite() && size(real_of(a)) <= 2real
            &&& b.finite() && size(real_of(b)) <= 2real
            &&& real_of(c[hi]) - real_of(c[lo]) >= 1real / 10000real
        }),
    ensures
        ({
            let (hi, mid, lo) = by_brightness(c);
            let t = toned(c, lut);
            let w = real_of(c[hi]) - real_of(c[lo]);
            size(
                (real_of(t[mid]) - real_of(t[lo])) * w - (real_of(t[hi]) - real_of(t[lo])) * (real_of(
                    c[mid],
                ) - real_of(c[lo])),
            ) <= w / 300000real
        }),
{
    let (hi, mid, lo) = by_brightness(c);
    brightness_orders_all_channels(c);
    assert(c[0].finite() && c[1].finite() && c[2].finite());
    lemma_order_real(c[lo], c[mid]);
    lemma_order_real(c[mid], c[hi]);
    let (a, b) = (looked_up(lut, c[hi]), looked_up(lut, c[lo]));
    lemma_straight(b, a, c[lo], c[mid], c[hi]);
    let w = real_of(c[hi]) - real_of(c[lo]);
    lemma_step(c[hi], c[lo], w);
    let span = c[hi].difference(c[lo]);
    lemma_flat();
    lemma_order_real(num(FLAT), span);
    assert(num(FLAT).less(span)) by {
        reveal(size);
    }
    assert(toned(c, lut)[mid] == straight(b, a, c[lo], c[mid], c[hi]));
}

/// Between two knots that follow one another a curve is straight.
pub proof fn a_curve_is_straight_between_its_knots(s: Seq<Knot>, x: Single, j: int)
    requires
        0 < j < s.len(),
        x.finite(),
        forall|i: int| 0 <= i < s.len() ==> (#[trigger] s[i]).x.finite() && s[i].y.finite(),
        forall|i: int, k: int| 0 <= i < k < s.len() ==> real_of((#[trigger] s[i]).x) < real_of(
            (#[trigger] s[k]).x,
        ),
        real_of(s[j - 1].x) <= real_of(x) < real_of(s[j].x),
        size(real_of(s[j - 1].y)) <= 2real,
        size(real_of(s[j].y)) <= 2real,
        1real / 10000000real <= real_of(s[j].x) - real_of(s[j - 1].x) <= 10real,
    ensures
        ({
            let (a, b) = (s[j - 1], s[j]);
            let y = real_of(curve_at(s, x));
            let w = real_of(b.x) - real_of(a.x);
            &&& curve_at(s, x).finite()
            &&& size((y - real_of(a.y)) * w - (real_of(b.y) - real_of(a.y)) * (real_of(x) - real_of(a.x)))
                <= w / 300000real
        }),
{
    lemma_reached(s, x, j);
    assert(s[j].x.finite());
    lemma_straight(s[j - 1].y, s[j].y, s[j - 1].x, x, s[j].x);
}

proof fn lemma_reached(s: Seq<Knot>, x: Single, j: int)
    requires
        0 <= j <= s.len(),
        x.finite(),
        forall|i: int| 0 <= i < s.len() ==> (#[trigger] s[i]).x.finite(),
        forall|i: int| 0 <= i < j ==> real_of((#[trigger] s[i]).x) <= real_of(x),
        j < s.len() ==> real_of(x) < real_of(s[j].x),
    ensures
        reached(s, x) == j,
    decreases s.len(),
{
    if s.len() > 0 {
        lemma_order_real(s[0].x, x);
        if j > 0 {
            let t = s.skip(1);
            assert forall|i: int| 0 <= i < t.len() implies (#[trigger] t[i]).x.finite() by {
                assert(t[i] == s[i + 1]);
            }
            assert forall|i: int| 0 <= i < j - 1 implies real_of((#[trigger] t[i]).x) <= real_of(x) by {
                assert(t[i] == s[i + 1]);
            }
            lemma_reached(t, x, j - 1);
        }
    }
}

/// Before its first knot and behind its last a curve is level.
pub proof fn a_curve_is_level_beyond_its_knots(s: Seq<Knot>, x: Single)
    requires
        s.len() > 0,
        x.finite(),
        forall|i: int| 0 <= i < s.len() ==> (#[trigger] s[i]).x.finite(),
    ensures
        real_of(x) < real_of(s[0].x) ==> curve_at(s, x) == s[0].y,
        (forall|i: int| 0 <= i < s.len() ==> real_of((#[trigger] s[i]).x) <= real_of(x)) ==> curve_at(
            s,
            x,
        ) == s.last().y,
{
    if real_of(x) < real_of(s[0].x) {
        lemma_reached(s, x, 0);
    }
    if forall|i: int| 0 <= i < s.len() ==> real_of((#[trigger] s[i]).x) <= real_of(x) {
        lemma_reached(s, x, s.len() as int);
    }
}

/// The least difference that counts for a colour.
proof fn lemma_flat()
    ensures
        num(FLAT).finite(),
        real_of(num(FLAT)) <= 1real / 100000000real,
{
    lemma2_to64();
    lemma2_to64_rest();
    lemma_real_of_digits(FLAT, 9007199, 53);
    assert(pow2(53) == 9007199254740992);
    assert(9007199real / 9007199254740992real <= 1real / 100000000real);
}

/// Between two of its samples, clear of both, a sampled curve is straight.
pub proof fn a_sampled_curve_is_straight_between_samples(lut: Seq<Single>, x: Single, i: int)
    requires
        2 <= lut.len() <= 4096,
        0 <= i < lut.len() - 1,
        x.finite() && 0real < real_of(x) < 1real,
        i as real + 1real / 1000real <= real_of(x) * ((lut.len() - 1) as real),
        real_of(x) * ((lut.len() - 1) as real) <= i as real + 999real / 1000real,
        lut[i].finite() && size(real_of(lut[i])) <= 2real,
        lut[i + 1].finite() && size(real_of(lut[i + 1])) <= 2real,
    ensures
        ({
            let part = real_of(x) * ((lut.len() - 1) as real) - i as real;
            within(
                looked_up(lut, x),
                real_of(lut[i]) + (real_of(lut[i + 1]) - real_of(lut[i])) * part,
                1real / 800real,
            )
        }),
{
    let n = lut.len() - 1;
    let k = n as real;
    let y = real_of(x);
    lemma_int_real(n);
    lemma_ends();
    lemma_order_real(x, num(ZERO));
    lemma_order_real(num(ONE), x);
    assert(size(y) == y && size(k) == k) by {
        reveal(size);
    }
    lemma_size_of_both(y, k);
    lemma_bounds(y, k, 1real, k);
    lemma_rounded_product(x, Single::of_whole(n));
    let s = x.product(Single::of_whole(n));
    let z = real_of(s);
    assert(size(z - y * k) <= 1real / 4000real && size(z) <= 4097real) by {
        reveal(size);
    }
    lemma_floor(s);
    assert(i as real <= z && z < i as real + 1real) by {
        reveal(size);
    }
    let f = s.floored().cast(i32::MIN as int, i32::MAX as int);
    assert(f == i);
    assert(s.floored().cast(0, u64::MAX as int) == i);
    lemma_int_real(i);
    lemma_int_real(i + 1);
    let (a, b) = (Single::of_whole(i), Single::of_whole(i + 1));
    let part = s.difference(a);
    assert(size(z - i as real) <= 1real) by {
        reveal(size);
    }
    lemma_rounded_difference(s, a);
    assert(0real <= real_of(part) <= 1real) by {
        reveal(size);
    }
    lemma_mix(lut[i], lut[i + 1], part, 2real);
    let want = y * k - i as real;
    let g = real_of(lut[i + 1]) - real_of(lut[i]);
    assert(size(g) <= 4real) by {
        reveal(size);
    }
    let e = real_of(part) - want;
    assert(size(e) <= 1real / 3900real) by {
        reveal(size);
    }
    lemma_size_of_both(g, e);
    lemma_bounds(size(g), size(e), 4real, 1real / 3900real);
    assert(g * e == g * real_of(part) - g * want) by (nonlinear_arith)
        requires
            e == real_of(part) - want,
    ;
    let r = real_of(looked_up(lut, x));
    let base = real_of(lut[i]);
    lemma_size_of_sum(r - (base + g * real_of(part)), g * e);
    assert((r - (base + g * real_of(part))) + g * e == r - (base + g * want));
}

} // verus!
