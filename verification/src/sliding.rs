//! What the sliders of the finish and of the standard rendition mean, among the real
//! numbers.

use vstd::prelude::*;
use vstd::arithmetic::power2::{lemma2_to64, lemma2_to64_rest, pow2};
use crate::finish::{
    fraction, grain, ramp, signed_fraction, vignette, CELL_FAR, FEATHER_FAR, FEATHER_NEAR, GRAIN_TOP,
    MID_NEAR, ROUND_FAR,
};
use crate::hdr::{rendition, SdrControls};
use crate::numbers::{FOUR, HUNDRED, MINUS_ONE, ONE, ONE_THOUSANDTH, QUARTER, TWO, ZERO};
use crate::profile::{calibrated, TableView};
use crate::reals::{
    lemma_ends, lemma_negation_real, lemma_order_real, lemma_real_of_digits, real_of, size,
    size_is_not_below, within,
};
use crate::single::{num, Single};
use crate::stamping::{held, lemma_half_and_two, lemma_held};
use crate::wayback::{
    lemma_bounds, lemma_over, lemma_quotient_sound, lemma_rounded_difference, lemma_rounded_product,
    lemma_rounded_quotient, lemma_rounded_sum, lemma_size_of_both, lemma_size_of_sum, tiny,
};

verus! {

broadcast use size_is_not_below;

/// A slider's share of its way, from nought to one.
pub open spec fn way(v: Single) -> real {
    held(real_of(v) / 100real, 0real, 1real)
}

/// A slider's share of its way to either side.
pub open spec fn way_aside(v: Single) -> real {
    held(real_of(v) / 100real, -1real, 1real)
}

/// A slider stands at a number that is not out of all bounds.
pub open spec fn set(v: Single) -> bool {
    v.finite() && size(real_of(v)) <= 1000real
}

pub proof fn lemma_small_numbers()
    ensures
        num(HUNDRED).finite() && real_of(num(HUNDRED)) == 100real,
        num(FOUR).finite() && real_of(num(FOUR)) == 4real,
        num(QUARTER).finite() && real_of(num(QUARTER)) == 1real / 4real,
        num(MINUS_ONE).finite() && real_of(num(MINUS_ONE)) == -1real,
{
    lemma2_to64();
    lemma_real_of_digits(HUNDRED, 0xC8_0000, 17);
    lemma_real_of_digits(FOUR, 0x80_0000, 21);
    lemma_real_of_digits(QUARTER, 0x80_0000, 25);
    lemma_ends();
    lemma_negation_real(num(ONE));
    assert(13107200real / 131072real == 100real);
    assert(8388608real / 2097152real == 4real);
    assert(8388608real / 33554432real == 1real / 4real);
    assert(num(ONE).negation() == num(MINUS_ONE));
}

proof fn lemma_held_close(x: real, y: real, lo: real, hi: real, e: real)
    requires
        size(x - y) <= e,
        lo <= hi,
    ensures
        size(held(x, lo, hi) - held(y, lo, hi)) <= e,
{
    reveal(size);
}

proof fn lemma_hundredth(v: Single)
    requires
        set(v),
    ensures
        v.quotient(num(HUNDRED)).finite(),
        size(real_of(v.quotient(num(HUNDRED))) - real_of(v) / 100real) <= size(real_of(v)) / 1000000000real + tiny(),
{
    lemma_small_numbers();
    assert(size(100real) == 100real) by {
        reveal(size);
    }
    lemma_quotient_sound(real_of(v), 100real, 100real, 1000000real);
    lemma_rounded_quotient(v, num(HUNDRED));
    let q = real_of(v) / 100real;
    lemma_size_of_both(q, 100real);
    assert(q * 100real == real_of(v));
}

pub proof fn lemma_fraction(v: Single)
    requires
        set(v),
    ensures
        fraction(v).finite(),
        0real <= real_of(fraction(v)) <= 1real,
        size(real_of(fraction(v)) - way(v)) <= 1real / 900000real,
{
    lemma_hundredth(v);
    lemma_ends();
    lemma_held(v.quotient(num(HUNDRED)), num(ZERO), num(ONE));
    let e = size(real_of(v)) / 1000000000real + tiny();
    lemma_held_close(real_of(v.quotient(num(HUNDRED))), real_of(v) / 100real, 0real, 1real, e);
}

pub proof fn lemma_signed_fraction(v: Single)
    requires
        set(v),
    ensures
        signed_fraction(v).finite(),
        -1real <= real_of(signed_fraction(v)) <= 1real,
        size(real_of(signed_fraction(v)) - way_aside(v)) <= 1real / 900000real,
{
    lemma_hundredth(v);
    lemma_ends();
    lemma_small_numbers();
    lemma_held(v.quotient(num(HUNDRED)), num(MINUS_ONE), num(ONE));
    let e = size(real_of(v)) / 1000000000real + tiny();
    lemma_held_close(real_of(v.quotient(num(HUNDRED))), real_of(v) / 100real, -1real, 1real, e);
}

/// A value on the way from one to another.
pub proof fn lemma_mix(a: Single, b: Single, t: Single, k: real)
    requires
        a.finite() && b.finite() && t.finite(),
        size(real_of(a)) <= k,
        size(real_of(b)) <= k,
        k <= 1000000000real,
        0real <= real_of(t) <= 1real,
    ensures
        within(
            a.sum(b.difference(a).product(t)),
            real_of(a) + (real_of(b) - real_of(a)) * real_of(t),
            k / 1000000real + 9real * tiny(),
        ),
{
    let (x, y, s) = (real_of(a), real_of(b), real_of(t));
    lemma_size_of_sum(y, -x);
    lemma_size_of_sum(x, x);
    assert(size(y - x) <= 2real * k) by {
        assert(y + -x == y - x);
    }
    lemma_rounded_difference(b, a);
    let d = b.difference(a);
    let g = real_of(d);
    let e = (2real * k) / 16777000real + tiny();
    assert(size(g - (y - x)) <= e);
    lemma_size_of_sum(y - x, g - (y - x));
    assert(size(g) <= 2real * k + e);
    assert(size(s) == s) by {
        reveal(size);
    }
    lemma_size_of_both(g, s);
    lemma_bounds(size(g), s, 2real * k + e, 1real);
    lemma_rounded_product(d, t);
    let p = real_of(d.product(t));
    assert(size(p - g * s) <= (2real * k + e) / 16777000real + tiny());
    let w = g - (y - x);
    lemma_size_of_both(w, s);
    lemma_bounds(size(w), s, e, 1real);
    assert(w * s == g * s - (y - x) * s) by (nonlinear_arith)
        requires
            w == g - (y - x),
    ;
    let want = (y - x) * s;
    lemma_size_of_sum(p - g * s, w * s);
    assert(size(p - want) <= (2real * k + e) / 16777000real + tiny() + e) by {
        assert((p - g * s) + w * s == p - want);
    }
    lemma_between(x, y, s, k);
    lemma_size_of_sum(x + want, p - want);
    assert(size(x + p) <= k + (2real * k + e) / 16777000real + tiny() + e) by {
        assert((x + want) + (p - want) == x + p);
    }
    lemma_rounded_sum(a, d.product(t));
    let r = real_of(a.sum(d.product(t)));
    lemma_size_of_sum(r - (x + p), p - want);
    assert((r - (x + p)) + (p - want) == r - (x + want));
}

proof fn lemma_between(x: real, y: real, s: real, k: real)
    requires
        size(x) <= k,
        size(y) <= k,
        0real <= s <= 1real,
    ensures
        size(x + (y - x) * s) <= k,
{
    let rest = 1real - s;
    assert(x + (y - x) * s == x * rest + y * s) by (nonlinear_arith)
        requires
            rest == 1real - s,
    ;
    assert(size(s) == s && size(rest) == rest) by {
        reveal(size);
    }
    lemma_size_of_both(x, rest);
    lemma_size_of_both(y, s);
    lemma_bounds(size(x), rest, k, rest);
    lemma_bounds(size(y), s, k, s);
    lemma_size_of_sum(x * rest, y * s);
    assert(k * rest + k * s == k) by (nonlinear_arith)
        requires
            rest == 1real - s,
    ;
}

/// A slider's way from one number to another.
pub proof fn lemma_ramp(from: u32, to: u32, t: Single, want: real, k: real, e: real)
    requires
        num(from).finite() && num(to).finite() && t.finite(),
        0real <= real_of(num(from)) <= k,
        0real <= real_of(num(to)) <= k,
        1real / 100real <= k <= 1000real,
        0real <= real_of(t) <= 1real,
        size(real_of(t) - want) <= e,
    ensures
        within(
            ramp(from, to, t),
            real_of(num(from)) + (real_of(num(to)) - real_of(num(from))) * want,
            k / 900000real + k * e,
        ),
{
    let (x, y, s) = (real_of(num(from)), real_of(num(to)), real_of(t));
    assert(size(x) == x && size(y) == y) by {
        reveal(size);
    }
    lemma_mix(num(from), num(to), t, k);
    let g = y - x;
    assert(size(g) <= k) by {
        reveal(size);
    }
    lemma_size_of_both(g, s - want);
    lemma_bounds(size(g), size(s - want), k, e);
    assert(g * (s - want) == g * s - g * want) by (nonlinear_arith);
    let r = real_of(ramp(from, to, t));
    lemma_size_of_sum(r - (x + g * s), g * (s - want));
    assert((r - (x + g * s)) + g * (s - want) == r - (x + g * want));
}

pub proof fn lemma_finish_numbers()
    ensures
        num(MID_NEAR).finite() && size(real_of(num(MID_NEAR)) - 4real / 10real) <= 1real / 10000000real,
        num(FEATHER_NEAR).finite() && size(real_of(num(FEATHER_NEAR)) - 2real / 100real) <= 1real
            / 10000000real,
        num(FEATHER_FAR).finite() && size(real_of(num(FEATHER_FAR)) - 6real / 10real) <= 1real
            / 10000000real,
        num(ROUND_FAR).finite() && real_of(num(ROUND_FAR)) == 6real,
        num(GRAIN_TOP).finite() && size(real_of(num(GRAIN_TOP)) - 9real / 100real) <= 1real
            / 10000000real,
        num(CELL_FAR).finite() && real_of(num(CELL_FAR)) == 12real,
        num(ONE_THOUSANDTH).finite() && real_of(num(ONE_THOUSANDTH)) <= 1real / 500real,
{
    lemma2_to64();
    lemma2_to64_rest();
    lemma_real_of_digits(MID_NEAR, 13421773, 25);
    lemma_real_of_digits(FEATHER_NEAR, 10737418, 29);
    lemma_real_of_digits(FEATHER_FAR, 10066330, 24);
    lemma_real_of_digits(ROUND_FAR, 0xC0_0000, 21);
    lemma_real_of_digits(GRAIN_TOP, 12079596, 27);
    lemma_real_of_digits(CELL_FAR, 0xC0_0000, 20);
    lemma_real_of_digits(ONE_THOUSANDTH, 8589935, 33);
    assert(pow2(25) == 33554432 && pow2(29) == 536870912);
    assert(-(1real / 10000000real) <= 13421773real / 33554432real - 4real / 10real <= 1real / 10000000real);
    assert(-(1real / 10000000real) <= 10737418real / 536870912real - 2real / 100real <= 1real
        / 10000000real);
    assert(pow2(24) == 16777216 && pow2(27) == 134217728);
    assert(-(1real / 10000000real) <= 10066330real / 16777216real - 6real / 10real <= 1real / 10000000real);
    assert(-(1real / 10000000real) <= 12079596real / 134217728real - 9real / 100real <= 1real
        / 10000000real);
    assert(real_of(num(FEATHER_FAR)) == 10066330real / 16777216real);
    assert(real_of(num(GRAIN_TOP)) == 12079596real / 134217728real);
    assert(real_of(num(MID_NEAR)) == 13421773real / 33554432real);
    assert(real_of(num(FEATHER_NEAR)) == 10737418real / 536870912real);
    assert(pow2(33) == 8589934592);
    assert(8589935real / 8589934592real <= 1real / 500real);
    assert(real_of(num(ONE_THOUSANDTH)) == 8589935real / 8589934592real);
    reveal(size);
    assert(12582912real / 2097152real == 6real);
    assert(12582912real / 1048576real == 12real);
}

/// A product of a known number and a slider's share.
proof fn lemma_scaled(k: Single, t: Single, want: real)
    requires
        k.finite() && 0real <= real_of(k) <= 100real,
        t.finite() && size(real_of(t)) <= 1real,
        size(real_of(t) - want) <= 1real / 900000real,
    ensures
        within(k.product(t), real_of(k) * want, 1real / 5000real),
{
    let (x, y) = (real_of(k), real_of(t));
    assert(size(x) == x) by {
        reveal(size);
    }
    lemma_size_of_both(x, y);
    lemma_bounds(x, size(y), 100real, 1real);
    lemma_rounded_product(k, t);
    lemma_size_of_both(x, y - want);
    lemma_bounds(x, size(y - want), 100real, 1real / 900000real);
    assert(x * (y - want) == x * y - x * want) by (nonlinear_arith);
    let p = real_of(k.product(t));
    lemma_size_of_sum(p - x * y, x * (y - want));
    assert((p - x * y) + x * (y - want) == p - x * want);
}

proof fn lemma_on(near: real, far: real, a: real, b: real, w: real)
    requires
        size(near - a) <= 1real / 10000000real,
        size(far - b) <= 1real / 10000000real,
        0real <= w <= 1real,
    ensures
        size((near + (far - near) * w) - (a + (b - a) * w)) <= 1real / 1000000real,
{
    let (d, e) = (near - a, far - b);
    let rest = 1real - w;
    assert((near + (far - near) * w) - (a + (b - a) * w) == d * rest + e * w) by (nonlinear_arith)
        requires
            d == near - a,
            e == far - b,
            rest == 1real - w,
    ;
    assert(size(w) == w && size(rest) == rest) by {
        reveal(size);
    }
    lemma_size_of_both(d, rest);
    lemma_size_of_both(e, w);
    lemma_bounds(size(d), rest, 1real / 10000000real, 1real);
    lemma_bounds(size(e), w, 1real / 10000000real, 1real);
    lemma_size_of_sum(d * rest, e * w);
}

/// A ramp between numbers that are known to seven places.
pub proof fn lemma_known_ramp(from: u32, to: u32, t: Single, want: real, a: real, b: real, k: real)
    requires
        num(from).finite() && num(to).finite() && t.finite(),
        0real <= real_of(num(from)) <= k,
        0real <= real_of(num(to)) <= k,
        1real <= k <= 100real,
        size(real_of(num(from)) - a) <= 1real / 10000000real,
        size(real_of(num(to)) - b) <= 1real / 10000000real,
        0real <= real_of(t) <= 1real,
        0real <= want <= 1real,
        size(real_of(t) - want) <= 1real / 900000real,
    ensures
        within(ramp(from, to, t), a + (b - a) * want, k / 100000real),
{
    let e = 1real / 900000real;
    let (x, y) = (real_of(num(from)), real_of(num(to)));
    lemma_ramp(from, to, t, want, k, e);
    lemma_on(x, y, a, b, want);
    let r = real_of(ramp(from, to, t));
    let (p, q) = (x + (y - x) * want, a + (b - a) * want);
    lemma_size_of_sum(r - p, p - q);
    assert((r - p) + (p - q) == r - q);
    assert(k * e == k / 900000real);
}

/// A vignette is what its sliders say: four stops at the end of the amount, its middle
/// from two fifths of the way out to all of it, its edge from a fiftieth to three fifths
/// of the way wide; a slider for roundness makes it squarer to the one side and a circle
/// to the other. Without an amount there is none.
pub proof fn a_vignette_is_what_its_sliders_say(
    amount: Single,
    mid: Single,
    feather: Single,
    round: Single,
    style: Single,
    hl: Single,
)
    requires
        set(amount) && set(mid) && set(feather) && set(round) && set(style) && set(hl),
    ensures
        real_of(amount) == 0real <==> vignette(amount, mid, feather, round, style, hl) is None,
        real_of(amount) != 0real ==> {
            let v = vignette(amount, mid, feather, round, style, hl)->0;
            let t = 1real / 5000real;
            &&& within(v.stops, 4real * way_aside(amount), t)
            &&& within(v.mid, 4real / 10real + (6real / 10real) * way(mid), t)
            &&& within(v.half, 2real / 100real + (58real / 100real) * way(feather), t)
            &&& within(v.exp, 2real + 4real * held(-way_aside(round), 0real, 1real), t)
            &&& within(v.circle, held(way_aside(round), 0real, 1real), t)
            &&& within(v.hl, way(hl), t)
        },
{
    lemma_small_numbers();
    lemma_finish_numbers();
    lemma_ends();
    lemma_half_and_two();
    lemma_order_real(amount, num(ZERO));
    assert(amount.equals(num(ZERO)) <==> real_of(amount) == 0real) by {
        lemma_order_real(num(ZERO), amount);
    }
    lemma_signed_fraction(amount);
    lemma_signed_fraction(round);
    lemma_fraction(mid);
    lemma_fraction(feather);
    lemma_fraction(hl);
    assert(size(real_of(signed_fraction(amount))) <= 1real) by {
        reveal(size);
    }
    lemma_scaled(num(FOUR), signed_fraction(amount), way_aside(amount));
    assert(size(0real) == 0real) by {
        reveal(size);
    }
    assert(real_of(num(MID_NEAR)) >= 0real && real_of(num(FEATHER_NEAR)) >= 0real && real_of(
        num(FEATHER_FAR),
    ) >= 0real && real_of(num(MID_NEAR)) <= 1real && real_of(num(FEATHER_NEAR)) <= 1real && real_of(
        num(FEATHER_FAR),
    ) <= 1real) by {
        reveal(size);
    }
    lemma_known_ramp(MID_NEAR, ONE, fraction(mid), way(mid), 4real / 10real, 1real, 1real);
    lemma_known_ramp(
        FEATHER_NEAR,
        FEATHER_FAR,
        fraction(feather),
        way(feather),
        2real / 100real,
        6real / 10real,
        1real,
    );
    let h = ramp(FEATHER_NEAR, FEATHER_FAR, fraction(feather));
    lemma_order_real(h, num(ONE_THOUSANDTH));
    assert(real_of(h) > 1real / 500real) by {
        reveal(size);
    }
    let r = signed_fraction(round);
    lemma_negation_real(r);
    let back = r.negation().larger(num(ZERO));
    let on = r.larger(num(ZERO));
    lemma_order_real(r.negation(), num(ZERO));
    lemma_order_real(r, num(ZERO));
    assert(real_of(back) == held(-real_of(r), 0real, 1real));
    assert(real_of(on) == held(real_of(r), 0real, 1real));
    assert(size(-real_of(r) - (-way_aside(round))) <= 1real / 900000real) by {
        reveal(size);
    }
    lemma_held_close(-real_of(r), -way_aside(round), 0real, 1real, 1real / 900000real);
    lemma_held_close(real_of(r), way_aside(round), 0real, 1real, 1real / 900000real);
    lemma_known_ramp(
        TWO,
        ROUND_FAR,
        back,
        held(-way_aside(round), 0real, 1real),
        2real,
        6real,
        6real,
    );
}

/// The grain is what its sliders say: as strong as nine hundredths at the end of the
/// amount, its cells from one pixel of the whole picture to twelve, but never under a
/// quarter of a pixel of the raster, and as rough as the slider stands. Without an amount
/// there is none.
pub proof fn a_grain_is_what_its_sliders_say(
    amount: Single,
    size_slider: Single,
    rough: Single,
    per_pixel: Single,
)
    requires
        set(amount) && set(size_slider) && set(rough),
        per_pixel.finite() && 1real <= real_of(per_pixel) <= 1000real,
    ensures
        real_of(amount) == 0real <==> grain(amount, size_slider, rough, per_pixel) is None,
        real_of(amount) != 0real ==> {
            let g = grain(amount, size_slider, rough, per_pixel)->0;
            let t = 1real / 5000real;
            let cell = 1real + 11real * way(size_slider);
            &&& within(g.sigma, (9real / 100real) * way(amount), t)
            &&& within(g.rough, way(rough), t)
            &&& g.cell.finite() && real_of(g.cell) >= 1real / 4real
            &&& real_of(g.cell) > 1real / 4real ==> size(real_of(g.cell) * real_of(per_pixel) - cell) <= t
            &&& real_of(g.cell) == 1real / 4real ==> cell <= real_of(per_pixel) / 4real + t
        },
{
    lemma_small_numbers();
    lemma_finish_numbers();
    lemma_ends();
    lemma_order_real(amount, num(ZERO));
    lemma_order_real(num(ZERO), amount);
    lemma_fraction(amount);
    lemma_fraction(size_slider);
    lemma_fraction(rough);
    assert(size(0real) == 0real) by {
        reveal(size);
    }
    assert(0real <= real_of(num(GRAIN_TOP)) <= 1real) by {
        reveal(size);
    }
    lemma_known_ramp(ZERO, GRAIN_TOP, fraction(amount), way(amount), 0real, 9real / 100real, 1real);
    lemma_known_ramp(ONE, CELL_FAR, fraction(size_slider), way(size_slider), 1real, 12real, 12real);
    let c = ramp(ONE, CELL_FAR, fraction(size_slider));
    let (x, k) = (real_of(c), real_of(per_pixel));
    let cell = 1real + 11real * way(size_slider);
    assert(size(k) == k && size(x) <= 14real) by {
        reveal(size);
    }
    lemma_quotient_sound(x, k, 1real, 14real);
    lemma_rounded_quotient(c, per_pixel);
    lemma_over(x, k);
    let q = c.quotient(per_pixel);
    let (y, z) = (x / k, real_of(q));
    lemma_size_of_both(z - y, k);
    lemma_size_of_both(y, k);
    lemma_bounds(size(z - y), k, size(y) / 16777000real + tiny(), k);
    assert((size(y) / 16777000real + tiny()) * k == size(x) / 16777000real + tiny() * k)
        by (nonlinear_arith)
        requires
            size(y) * k == size(x),
    ;
    lemma_bounds(tiny(), k, tiny(), 1000real);
    assert((z - y) * k == z * k - x) by (nonlinear_arith)
        requires
            y * k == x,
    ;
    assert(size(z * k - cell) <= 1real / 6000real) by {
        lemma_size_of_sum(z * k - x, x - cell);
        assert((z * k - x) + (x - cell) == z * k - cell);
    }
    lemma_order_real(q, num(QUARTER));
    let g = q.larger(num(QUARTER));
    if real_of(g) == 1real / 4real {
        assert(z * k <= (1real / 4real) * k) by (nonlinear_arith)
            requires
                z <= 1real / 4real,
                k >= 1real,
        ;
        assert(cell <= z * k + 1real / 6000real) by {
            reveal(size);
        }
    }
}

/// The standard rendition is what its controls say: each control is its own part of it, and
/// the blend gives or takes of the headroom.
pub proof fn a_rendition_is_what_its_controls_say(c: SdrControls)
    requires
        set(c.max_ev) && set(c.blend) && set(c.brightness) && set(c.contrast),
        set(c.highlights) && set(c.shadows) && set(c.whites) && set(c.clarity),
        rendition(c) is Some,
    ensures
        ({
            let r = rendition(c)->0;
            let t = 1real / 5000real;
            &&& c.hdr_edit
            &&& within(r.ev, real_of(c.brightness) / 100real, t)
            &&& within(r.contrast, way_aside(c.contrast), t)
            &&& within(r.highlights, way_aside(c.highlights), t)
            &&& within(r.shadows, way_aside(c.shadows), t)
            &&& within(r.whites, way_aside(c.whites), t)
            &&& within(r.clarity, way_aside(c.clarity), t)
            &&& r.stops.finite() && real_of(r.stops) >= 0real
            &&& ({
                let want = real_of(c.max_ev) * (1real + real_of(c.blend) / 100real);
                &&& real_of(r.stops) > 0real ==> size(real_of(r.stops) - want) <= 1real / 10real
                &&& real_of(r.stops) == 0real ==> want <= 1real / 10real
            })
        }),
{
    lemma_signed_fraction(c.contrast);
    lemma_signed_fraction(c.highlights);
    lemma_signed_fraction(c.shadows);
    lemma_signed_fraction(c.whites);
    lemma_signed_fraction(c.clarity);
    lemma_hundredth(c.brightness);
    lemma_hundredth(c.blend);
    lemma_ends();
    let b = c.brightness.quotient(num(HUNDRED));
    let y = real_of(b);
    assert(size(y) <= 11real) by {
        lemma_size_of_sum(real_of(c.brightness) / 100real, y - real_of(c.brightness) / 100real);
        lemma_tenth(real_of(c.brightness));
    }
    assert(y * 1real == y);
    lemma_rounded_product(b, num(ONE));
    lemma_size_of_sum(
        real_of(b.product(num(ONE))) - y,
        y - real_of(c.brightness) / 100real,
    );
    let d = c.blend.quotient(num(HUNDRED));
    let z = real_of(d);
    let share = real_of(c.blend) / 100real;
    lemma_tenth(real_of(c.blend));
    lemma_size_of_sum(share, z - share);
    assert(size(z) <= 11real);
    assert(size(1real) == 1real) by {
        reveal(size);
    }
    lemma_size_of_sum(1real, z);
    lemma_rounded_sum(num(ONE), d);
    let f = num(ONE).sum(d);
    let g = real_of(f);
    lemma_size_of_sum(g - (1real + z), z - share);
    assert(size(g - (1real + share)) <= 1real / 100000real) by {
        assert((g - (1real + z)) + (z - share) == g - (1real + share));
    }
    lemma_size_of_sum(1real + z, g - (1real + z));
    let m = real_of(c.max_ev);
    lemma_size_of_both(m, g);
    lemma_bounds(size(m), size(g), 1000real, 13real);
    lemma_rounded_product(c.max_ev, f);
    let p = real_of(c.max_ev.product(f));
    lemma_size_of_both(m, g - (1real + share));
    lemma_bounds(size(m), size(g - (1real + share)), 1000real, 1real / 100000real);
    assert(m * (g - (1real + share)) == m * g - m * (1real + share)) by (nonlinear_arith);
    lemma_size_of_sum(p - m * g, m * g - m * (1real + share));
    assert(size(p - m * (1real + share)) <= 1real / 10real) by {
        assert((p - m * g) + (m * g - m * (1real + share)) == p - m * (1real + share));
    }
    lemma_order_real(c.max_ev.product(f), num(ZERO));
    assert(p <= 0real ==> m * (1real + share) <= 1real / 10real) by {
        reveal(size);
    }
}

proof fn lemma_tenth(x: real)
    requires
        size(x) <= 1000real,
    ensures
        size(x / 100real) <= 10real,
{
    reveal(size);
}

/// Between two calibrations a table holds, entry by entry and channel by channel, what
/// lies at the share of the way from the first to the second. Out of the way it is one of
/// them, and where only one is stated it is that.
pub proof fn calibrations_are_mixed_entry_by_entry(a: TableView, b: TableView, w: Single, i: int)
    requires
        a.hue == b.hue && a.sat == b.sat && a.val == b.val,
        a.data.len() == b.data.len(),
        0 <= i < a.data.len(),
        w.finite(),
        set(a.data[i].r) && set(a.data[i].g) && set(a.data[i].b),
        set(b.data[i].r) && set(b.data[i].g) && set(b.data[i].b),
    ensures
        calibrated(Some(a), None, w) == Some(a),
        calibrated(None, Some(b), w) == Some(b),
        real_of(w) <= 0real ==> calibrated(Some(a), Some(b), w) == Some(a),
        real_of(w) >= 1real ==> calibrated(Some(a), Some(b), w) == Some(b),
        0real < real_of(w) < 1real ==> {
            let c = calibrated(Some(a), Some(b), w)->0;
            let (x, y, z) = (a.data[i], b.data[i], c.data[i]);
            let t = 1real / 500real;
            &&& calibrated(Some(a), Some(b), w) is Some
            &&& c.data.len() == a.data.len()
            &&& within(z.r, real_of(x.r) + (real_of(y.r) - real_of(x.r)) * real_of(w), t)
            &&& within(z.g, real_of(x.g) + (real_of(y.g) - real_of(x.g)) * real_of(w), t)
            &&& within(z.b, real_of(x.b) + (real_of(y.b) - real_of(x.b)) * real_of(w), t)
        },
{
    lemma_ends();
    lemma_order_real(w, num(ZERO));
    lemma_order_real(num(ONE), w);
    if 0real < real_of(w) < 1real {
        lemma_mix(a.data[i].r, b.data[i].r, w, 1000real);
        lemma_mix(a.data[i].g, b.data[i].g, w, 1000real);
        lemma_mix(a.data[i].b, b.data[i].b, w, 1000real);
    }
}

} // verus!
