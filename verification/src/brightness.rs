//! What changes a pixel's colour and keeps its brightness, but for what rounding does.

use vstd::prelude::*;
use vstd::arithmetic::power2::lemma2_to64;
use crate::heal::Rgb;
use crate::numbers::{ONE, ZERO};
use crate::pixels::{greyed, with_colour, BLUE_WEIGHT, GREEN_WEIGHT, RED_WEIGHT};
use crate::reals::{
    distance, lemma_difference, lemma_ends, lemma_order_real, lemma_product, lemma_quotient,
    lemma_real_of_digits, lemma_size_of_product, lemma_sum, loss, real_of, size,
};
use crate::single::{num, Single};

verus! {

/// The brightness of a pixel: its channels by their weights.
pub open spec fn brightness(px: Rgb<Single>) -> real {
    real_of(num(RED_WEIGHT)) * real_of(px.r) + real_of(num(GREEN_WEIGHT)) * real_of(px.g)
        + real_of(num(BLUE_WEIGHT)) * real_of(px.b)
}

/// A pixel whose channels are numbers from minus one to one.
pub open spec fn small(px: Rgb<Single>) -> bool {
    &&& px.r.finite() && size(real_of(px.r)) <= 1real
    &&& px.g.finite() && size(real_of(px.g)) <= 1real
    &&& px.b.finite() && size(real_of(px.b)) <= 1real
}

/// The weights, digit by digit. Together they are one but for a hundred-millionth.
proof fn lemma_weights()
    ensures
        num(RED_WEIGHT).finite(),
        num(GREEN_WEIGHT).finite(),
        num(BLUE_WEIGHT).finite(),
        real_of(num(RED_WEIGHT)) == 10032775real / 33554432real,
        real_of(num(GREEN_WEIGHT)) == 9848226real / 16777216real,
        real_of(num(BLUE_WEIGHT)) == 15300821real / 134217728real,
{
    lemma2_to64();
    assert(RED_WEIGHT as int / 0x80_0000 == 125 && RED_WEIGHT as int % 0x80_0000 == 0x19_1687);
    assert(GREEN_WEIGHT as int / 0x80_0000 == 126 && GREEN_WEIGHT as int % 0x80_0000 == 0x16_45A2);
    assert(BLUE_WEIGHT as int / 0x80_0000 == 123 && BLUE_WEIGHT as int % 0x80_0000 == 0x69_78D5);
    lemma_real_of_digits(RED_WEIGHT, 10032775, 25);
    lemma_real_of_digits(GREEN_WEIGHT, 9848226, 24);
    lemma_real_of_digits(BLUE_WEIGHT, 15300821, 27);
}

/// A channel part of the way to the grey.
proof fn lemma_channel_fades(c: Single, grey: Single, amount: Single)
    requires
        c.finite(),
        grey.finite(),
        amount.finite(),
        size(real_of(c)) <= 1real,
        size(real_of(grey)) <= 1real,
        0real <= real_of(amount) <= 1real,
    ensures
        ({
            let v = c.sum(grey.difference(c).product(amount));
            let exact = real_of(c) + (real_of(grey) - real_of(c)) * real_of(amount);
            v.finite() && distance(real_of(v), exact) <= 1real / 1000000real
        }),
{
    reveal(size);
    let d = grey.difference(c);
    lemma_difference(grey, c, 2real);
    let a = real_of(amount);
    let x = real_of(grey) - real_of(c);
    lemma_product(d, amount, 3real, 1real);
    lemma_share_apart(a, real_of(d), x, loss(2real));
    lemma_size_of_product(x, a, 2real, 1real);
    lemma_sum(c, d.product(amount), 5real);
}

proof fn lemma_share_apart(a: real, x: real, y: real, e: real)
    requires
        0real <= a <= 1real,
        distance(x, y) <= e,
    ensures
        distance(x * a, y * a) <= e,
{
    reveal(size);
    lemma_weighted_apart(a, x, y, e);
    assert(a * e <= e) by (nonlinear_arith)
        requires
            a <= 1real,
            e >= 0real,
    ;
    assert(a * x == x * a && a * y == y * a) by (nonlinear_arith);
}

/// A pixel that fades to the grey of its own brightness keeps it, but for a few
/// millionths and for what the grey itself is off.
pub proof fn fading_keeps_the_brightness(px: Rgb<Single>, grey: Single, amount: Single, off: real)
    requires
        small(px),
        grey.finite(),
        size(real_of(grey)) <= 1real,
        amount.finite(),
        real_of(amount) <= 1real,
        distance(real_of(grey), brightness(px)) <= off,
    ensures
        ({
            let q = greyed(px, grey, amount);
            &&& q.r.finite() && q.g.finite() && q.b.finite()
            &&& distance(brightness(q), brightness(px)) <= off + 2real / 1000000real
        }),
{
    reveal(size);
    lemma_ends();
    lemma_order_real(amount, num(ZERO));
    let q = greyed(px, grey, amount);
    if !amount.at_most(num(ZERO)) {
        lemma_weights();
        lemma_channel_fades(px.r, grey, amount);
        lemma_channel_fades(px.g, grey, amount);
        lemma_channel_fades(px.b, grey, amount);
        let a = real_of(amount);
        let t = real_of(grey);
        let (r, g, b) = (real_of(px.r), real_of(px.g), real_of(px.b));
        let wr = real_of(num(RED_WEIGHT));
        let wg = real_of(num(GREEN_WEIGHT));
        let wb = real_of(num(BLUE_WEIGHT));
        let exact = wr * (r + (t - r) * a) + wg * (g + (t - g) * a) + wb * (b + (t - b) * a);
        lemma_faded_exactly((wr, wg, wb), (r, g, b), t, a, off);
        let e = 1real / 1000000real;
        assert(distance(brightness(q), exact) <= (wr + wg + wb) * e) by {
            lemma_weighted_apart(wr, real_of(q.r), r + (t - r) * a, e);
            lemma_weighted_apart(wg, real_of(q.g), g + (t - g) * a, e);
            lemma_weighted_apart(wb, real_of(q.b), b + (t - b) * a, e);
            lemma_three_shared(wr, wg, wb, e);
        }
    }
}

/// The brightness of a colour part of the way to a grey.
proof fn lemma_faded_exactly(
    w: (real, real, real),
    c: (real, real, real),
    t: real,
    a: real,
    off: real,
)
    requires
        0real <= a <= 1real,
        size(t) <= 1real,
        size(w.0 + w.1 + w.2 - 1real) <= 1real / 10000000real,
        distance(t, w.0 * c.0 + w.1 * c.1 + w.2 * c.2) <= off,
    ensures
        distance(
            w.0 * (c.0 + (t - c.0) * a) + w.1 * (c.1 + (t - c.1) * a) + w.2 * (c.2 + (t - c.2)
                * a),
            w.0 * c.0 + w.1 * c.1 + w.2 * c.2,
        ) <= off + 1real / 10000000real,
{
    reveal(size);
    let before = w.0 * c.0 + w.1 * c.1 + w.2 * c.2;
    let grey = w.0 * t + w.1 * t + w.2 * t;
    lemma_weighted_fade(w.0, c.0, t, a);
    lemma_weighted_fade(w.1, c.1, t, a);
    lemma_weighted_fade(w.2, c.2, t, a);
    lemma_three_shared(w.0 * c.0, w.1 * c.1, w.2 * c.2, a);
    lemma_three_shared(w.0 * t, w.1 * t, w.2 * t, a);
    let over = w.0 + w.1 + w.2 - 1real;
    assert(over * t == grey - t) by (nonlinear_arith)
        requires
            over == w.0 + w.1 + w.2 - 1real,
            grey == w.0 * t + w.1 * t + w.2 * t,
    ;
    lemma_size_of_product(over, t, 1real / 10000000real, 1real);
    lemma_share_apart(a, grey, before, off + 1real / 10000000real);
}

proof fn lemma_weighted_fade(w: real, c: real, t: real, a: real)
    ensures
        w * (c + (t - c) * a) == w * c + (w * t) * a - (w * c) * a,
{
    assert(w * (c + (t - c) * a) == w * c + (w * t) * a - (w * c) * a) by (nonlinear_arith);
}

proof fn lemma_three_shared(x: real, y: real, z: real, a: real)
    ensures
        (x + y + z) * a == x * a + y * a + z * a,
{
    assert((x + y + z) * a == x * a + y * a + z * a) by (nonlinear_arith);
}

proof fn lemma_weighted_apart(w: real, x: real, y: real, e: real)
    requires
        w >= 0real,
        distance(x, y) <= e,
    ensures
        distance(w * x, w * y) <= w * e,
{
    reveal(size);
    assert(-(w * e) <= w * x - w * y <= w * e) by (nonlinear_arith)
        requires
            w >= 0real,
            -e <= x - y <= e,
    ;
}

/// A pixel that takes on another colour has the brightness that it was given, but for a
/// few millionths, wherever no channel is clipped.
pub proof fn recolouring_keeps_the_brightness(
    px: Rgb<Single>,
    l: Single,
    red: Single,
    blue: Single,
    blend: Single,
)
    requires
        l.finite(),
        size(real_of(l)) <= 1real,
        ({
            let cr = px.r.difference(l);
            let cb = px.b.difference(l);
            let r = l.sum(cr).sum(red.difference(cr).product(blend));
            let b = l.sum(cb).sum(blue.difference(cb).product(blend));
            let g = l.difference(num(RED_WEIGHT).product(r)).difference(
                num(BLUE_WEIGHT).product(b),
            ).quotient(num(GREEN_WEIGHT));
            &&& num(ZERO).at_most(r) && r.at_most(num(ONE))
            &&& num(ZERO).at_most(g) && g.at_most(num(ONE))
            &&& num(ZERO).at_most(b) && b.at_most(num(ONE))
        }),
    ensures
        ({
            let q = with_colour(px, l, red, blue, blend);
            distance(brightness(q), real_of(l)) <= 2real / 1000000real
        }),
{
    reveal(size);
    let cr = px.r.difference(l);
    let cb = px.b.difference(l);
    let r = l.sum(cr).sum(red.difference(cr).product(blend));
    let b = l.sum(cb).sum(blue.difference(cb).product(blend));
    lemma_ends();
    lemma_weights();
    lemma_unit(r);
    lemma_unit(b);
    let wr = real_of(num(RED_WEIGHT));
    let wg = real_of(num(GREEN_WEIGHT));
    let wb = real_of(num(BLUE_WEIGHT));
    let pr = num(RED_WEIGHT).product(r);
    let pb = num(BLUE_WEIGHT).product(b);
    lemma_product(num(RED_WEIGHT), r, 1real, 1real);
    lemma_product(num(BLUE_WEIGHT), b, 1real, 1real);
    assert(1real * 1real == 1real);
    let first = l.difference(pr);
    lemma_difference(l, pr, 3real);
    let rest = first.difference(pb);
    lemma_difference(first, pb, 5real);
    let g = rest.quotient(num(GREEN_WEIGHT));
    let exact = real_of(rest) / wg;
    assert(exact * wg == real_of(rest)) by (nonlinear_arith)
        requires
            exact == real_of(rest) / wg,
            wg > 0real,
    ;
    assert(exact <= 12real) by (nonlinear_arith)
        requires
            exact * wg <= 6real,
            wg >= 1real / 2real,
    ;
    assert(exact >= -12real) by (nonlinear_arith)
        requires
            exact * wg >= -6real,
            wg >= 1real / 2real,
    ;
    lemma_quotient(rest, num(GREEN_WEIGHT), 12real);
    lemma_unit(g);
    // What was taken for the quotient comes out of it again.
    lemma_weighted_apart(wg, real_of(g), exact, loss(12real));
    assert(wg * exact == real_of(rest)) by (nonlinear_arith)
        requires
            exact * wg == real_of(rest),
    ;
    assert(wg * loss(12real) <= loss(12real)) by (nonlinear_arith)
        requires
            0real <= wg <= 1real,
            loss(12real) >= 0real,
    ;
}

proof fn lemma_unit(v: Single)
    requires
        num(ZERO).at_most(v),
        v.at_most(num(ONE)),
    ensures
        v.finite(),
        0real <= real_of(v) <= 1real,
        v.clamped(num(ZERO), num(ONE)) == v,
{
    lemma_ends();
    assert(v.finite());
    lemma_order_real(num(ZERO), v);
    lemma_order_real(v, num(ONE));
}

} // verus!
