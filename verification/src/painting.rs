//! What a pixel becomes under a vignette, under noise reduction and under a crop, among the
//! real numbers.

use vstd::prelude::*;
use crate::finish::{crop_rect, Vignette};
use crate::heal::Rgb;
use crate::numbers::{FOUR, ONE, ZERO};
use crate::pixels::{fit_to_guide, fit_to_itself, variation, with_colour, Fit};
use crate::recipe::Crop;
use crate::reals::{
    lemma_ends, lemma_order_real, real_of, size, size_is_not_below, within,
};
use crate::single::{num, Single};
use crate::sliding::{lemma_mix, lemma_small_numbers};
use crate::stamping::{held, lemma_held, lemma_part_of_side};
use crate::wayback::{
    lemma_absolute, lemma_bounds, lemma_over, lemma_quotient_sound, lemma_rounded_difference,
    lemma_rounded_product, lemma_rounded_quotient, lemma_rounded_sum, lemma_size_of_both,
    lemma_size_of_sum, tiny,
};

verus! {

broadcast use size_is_not_below;

/// A level from nought to one.
pub open spec fn shade(v: Single) -> bool {
    v.finite() && 0real <= real_of(v) <= 1real
}

proof fn lemma_held_near(x: real, y: real, e: real)
    requires
        size(x - y) <= e,
    ensures
        size(held(x, 0real, 1real) - held(y, 0real, 1real)) <= e,
{
    reveal(size);
}

/// How much of black or white a vignette of so many stops mixes in.
pub open spec fn mixed_in(stops: real, weight: real) -> real {
    held(weight * (size(stops) / 4real), 0real, 1real)
}

proof fn lemma_mixed_in(stops: Single, weight: Single)
    requires
        stops.finite() && size(real_of(stops)) <= 4real,
        weight.finite() && 0real < real_of(weight) <= 1real,
    ensures
        ({
            let t = weight.product(stops.quotient(num(FOUR)).absolute()).clamped(num(ZERO), num(ONE));
            &&& shade(t)
            &&& size(real_of(t) - mixed_in(real_of(stops), real_of(weight))) <= 1real / 1000000real
        }),
{
    lemma_small_numbers();
    lemma_ends();
    let (s, w) = (real_of(stops), real_of(weight));
    assert(size(4real) == 4real && size(w) == w) by {
        reveal(size);
    }
    lemma_quotient_sound(s, 4real, 4real, 4real);
    lemma_rounded_quotient(stops, num(FOUR));
    let q = stops.quotient(num(FOUR));
    lemma_over(s, 4real);
    let y = s / 4real;
    lemma_size_of_both(y, 4real);
    assert(size(y) == size(s) / 4real);
    lemma_absolute(q);
    let a = q.absolute();
    let z = real_of(a);
    assert(size(z - size(y)) <= size(real_of(q) - y)) by {
        reveal(size);
    }
    assert(size(z) == z && z <= 11real / 10real) by {
        reveal(size);
    }
    lemma_size_of_both(w, z);
    lemma_bounds(w, z, 1real, 11real / 10real);
    lemma_rounded_product(weight, a);
    let p = real_of(weight.product(a));
    lemma_size_of_both(w, z - size(y));
    lemma_bounds(w, size(z - size(y)), 1real, size(real_of(q) - y));
    assert(w * (z - size(y)) == w * z - w * size(y)) by (nonlinear_arith);
    lemma_size_of_sum(p - w * z, w * (z - size(y)));
    assert((p - w * z) + w * (z - size(y)) == p - w * size(y));
    lemma_held(weight.product(a), num(ZERO), num(ONE));
    lemma_held_near(p, w * size(y), 1real / 1000000real);
}

proof fn lemma_towards(c: Single, target: Single, t: Single, want: real)
    requires
        shade(c) && shade(target) && shade(t),
        size(real_of(t) - want) <= 1real / 1000000real,
    ensures
        within(
            c.sum(target.difference(c).product(t)),
            real_of(c) + (real_of(target) - real_of(c)) * want,
            1real / 100000real,
        ),
{
    let (x, y, s) = (real_of(c), real_of(target), real_of(t));
    assert(size(x) == x && size(y) == y) by {
        reveal(size);
    }
    lemma_mix(c, target, t, 1real);
    let g = y - x;
    assert(size(g) <= 1real) by {
        reveal(size);
    }
    lemma_size_of_both(g, s - want);
    lemma_bounds(size(g), size(s - want), 1real, 1real / 1000000real);
    assert(g * (s - want) == g * s - g * want) by (nonlinear_arith);
    let r = real_of(c.sum(target.difference(c).product(t)));
    lemma_size_of_sum(r - (x + g * s), g * (s - want));
    assert((r - (x + g * s)) + g * (s - want) == r - (x + g * want));
}

/// A painted vignette takes every channel towards black where it darkens and towards white
/// where it brightens, by its weight and by its stops out of four. Where it has no weight
/// the pixel stays.
pub proof fn a_painted_vignette_mixes_black_or_white(v: Vignette, px: Rgb<Single>, weight: Single)
    requires
        v.stops.finite() && size(real_of(v.stops)) <= 4real,
        weight.finite() && real_of(weight) <= 1real,
        shade(px.r) && shade(px.g) && shade(px.b),
    ensures
        ({
            let q = v.painted_over(px, weight);
            let t = mixed_in(real_of(v.stops), real_of(weight));
            let e = 1real / 100000real;
            &&& real_of(weight) <= 0real ==> q == px
            &&& real_of(weight) > 0real && real_of(v.stops) < 0real ==> {
                &&& within(q.r, real_of(px.r) * (1real - t), e)
                &&& within(q.g, real_of(px.g) * (1real - t), e)
                &&& within(q.b, real_of(px.b) * (1real - t), e)
            }
            &&& real_of(weight) > 0real && real_of(v.stops) > 0real ==> {
                &&& within(q.r, 1real - (1real - real_of(px.r)) * (1real - t), e)
                &&& within(q.g, 1real - (1real - real_of(px.g)) * (1real - t), e)
                &&& within(q.b, 1real - (1real - real_of(px.b)) * (1real - t), e)
            }
        }),
{
    lemma_ends();
    lemma_order_real(weight, num(ZERO));
    lemma_order_real(v.stops, num(ZERO));
    if real_of(weight) > 0real {
        lemma_mixed_in(v.stops, weight);
        let t = weight.product(v.stops.quotient(num(FOUR)).absolute()).clamped(num(ZERO), num(ONE));
        let want = mixed_in(real_of(v.stops), real_of(weight));
        let target = if v.stops.less(num(ZERO)) {
            num(ZERO)
        } else {
            num(ONE)
        };
        lemma_towards(px.r, target, t, want);
        lemma_towards(px.g, target, t, want);
        lemma_towards(px.b, target, t, want);
        lemma_both_ways(real_of(px.r), want);
        lemma_both_ways(real_of(px.g), want);
        lemma_both_ways(real_of(px.b), want);
    }
}

proof fn lemma_both_ways(c: real, t: real)
    ensures
        c + (0real - c) * t == c * (1real - t),
        c + (1real - c) * t == 1real - (1real - c) * (1real - t),
{
    assert(c + (0real - c) * t == c * (1real - t)) by (nonlinear_arith);
    assert(c + (1real - c) * t == 1real - (1real - c) * (1real - t)) by (nonlinear_arith);
}

/// The value of a fit.
pub open spec fn fitted(f: Fit, l: Single) -> Single {
    f.slope.product(l).sum(f.offset)
}

proof fn lemma_fit_through(slope: Single, at: Single, mean: Single, k: real)
    requires
        slope.finite() && size(real_of(slope)) <= k,
        1real <= k <= 1000000real,
        at.finite() && size(real_of(at)) <= 2real,
        mean.finite() && size(real_of(mean)) <= 2real,
    ensures
        within(
            slope.product(at).sum(mean.difference(slope.product(at))),
            real_of(mean),
            k / 1000000real,
        ),
{
    let (s, a, m) = (real_of(slope), real_of(at), real_of(mean));
    lemma_size_of_both(s, a);
    lemma_bounds(size(s), size(a), k, 2real);
    lemma_rounded_product(slope, at);
    let p = slope.product(at);
    let x = real_of(p);
    lemma_size_of_sum(s * a, x - s * a);
    assert(size(x) <= 21real * k / 10real);
    lemma_size_of_sum(m, -x);
    lemma_size_of_sum(x, x);
    assert(m + -x == m - x);
    assert(size(m - x) <= 2real + 21real * k / 10real);
    lemma_rounded_difference(mean, p);
    let d = mean.difference(p);
    let y = real_of(d);
    lemma_size_of_sum(m, y - (m - x));
    assert(m + (y - (m - x)) == x + y);
    lemma_rounded_sum(p, d);
    let r = real_of(p.sum(d));
    lemma_size_of_sum(r - (x + y), y - (m - x));
    assert((r - (x + y)) + (y - (m - x)) == r - m);
}

/// A fit passes through the means: at the mean of what it is fitted to it gives the mean of
/// what it fits.
pub proof fn a_fit_passes_through_the_means(
    squares: Single,
    products: Single,
    guide: Single,
    mean: Single,
    var: Single,
    eps: Single,
    k: real,
)
    requires
        1real <= k <= 1000000real,
        guide.finite() && size(real_of(guide)) <= 2real,
        mean.finite() && size(real_of(mean)) <= 2real,
    ensures
        ({
            let own = fit_to_itself(squares, mean, eps);
            own.slope.finite() && size(real_of(own.slope)) <= k ==> within(
                fitted(own, mean),
                real_of(mean),
                k / 1000000real,
            )
        }),
        ({
            let f = fit_to_guide(products, guide, mean, var, eps);
            f.slope.finite() && size(real_of(f.slope)) <= k ==> within(
                fitted(f, guide),
                real_of(mean),
                k / 1000000real,
            )
        }),
{
    let own = fit_to_itself(squares, mean, eps);
    let f = fit_to_guide(products, guide, mean, var, eps);
    if own.slope.finite() && size(real_of(own.slope)) <= k {
        lemma_fit_through(own.slope, mean, mean, k);
    }
    if f.slope.finite() && size(real_of(f.slope)) <= k {
        lemma_fit_through(f.slope, guide, mean, k);
    }
}

/// A neighbourhood that varies far more than the noise keeps its own values, and one that
/// does not vary takes its mean: the slope of the fit is its variation, shared out between
/// the two.
pub proof fn a_fit_follows_what_varies(squares: Single, mean: Single, eps: Single)
    requires
        squares.finite() && 0real <= real_of(squares) <= 2real,
        mean.finite() && size(real_of(mean)) <= 1real,
        eps.finite() && 1real / 1000000000real <= real_of(eps) <= 1real,
    ensures
        ({
            let v = real_of(variation(squares, mean));
            let e = real_of(eps);
            let f = fit_to_itself(squares, mean, eps);
            &&& variation(squares, mean).finite() && v >= 0real
            &&& f.slope.finite()
            &&& size(real_of(f.slope) * (v + e) - v) <= (v + e) / 1000000real
            &&& v > 0real ==> size(v - (real_of(squares) - real_of(mean) * real_of(mean))) <= 1real
                / 1000000real
            &&& v == 0real ==> real_of(squares) - real_of(mean) * real_of(mean) <= 1real / 1000000real
        }),
{
    let (q, m, e) = (real_of(squares), real_of(mean), real_of(eps));
    lemma_ends();
    lemma_size_of_both(m, m);
    lemma_bounds(size(m), size(m), 1real, 1real);
    lemma_rounded_product(mean, mean);
    let p = mean.product(mean);
    let x = real_of(p);
    assert(size(q - x) <= 4real) by {
        reveal(size);
    }
    lemma_rounded_difference(squares, p);
    let d = squares.difference(p);
    assert(size(real_of(d) - (q - m * m)) <= 1real / 1000000real) by {
        reveal(size);
    }
    lemma_order_real(d, num(ZERO));
    let var = variation(squares, mean);
    let v = real_of(var);
    assert(v == 0real ==> q - m * m <= 1real / 1000000real) by {
        reveal(size);
    }
    assert(size(v) == v && v <= 5real && size(v + e) == v + e) by {
        reveal(size);
    }
    lemma_rounded_sum(var, eps);
    let low = var.sum(eps);
    let l = real_of(low);
    assert(l >= (v + e) / 2real && size(l) == l && l <= 10real) by {
        reveal(size);
    }
    lemma_quotient_sound(v, l, 1real / 4000000000real, 5real);
    lemma_rounded_quotient(var, low);
    let y = v / l;
    lemma_over(v, l);
    let z = real_of(var.quotient(low));
    lemma_size_of_both(z - y, l);
    lemma_size_of_both(y, l);
    lemma_bounds(size(z - y), l, size(y) / 16777000real + tiny(), l);
    assert((size(y) / 16777000real + tiny()) * l == v / 16777000real + tiny() * l) by (nonlinear_arith)
        requires
            size(y) * l == v,
    ;
    assert((z - y) * l == z * l - v) by (nonlinear_arith)
        requires
            y * l == v,
    ;
    let gap = l - (v + e);
    assert(size(z) <= 3real) by {
        assert(size(y) <= 21real / 10real) by (nonlinear_arith)
            requires
                size(y) * l == v,
                l >= (v + e) / 2real,
                e > 0real,
                v >= 0real,
                size(y) >= 0real,
        ;
        lemma_size_of_sum(y, z - y);
    }
    lemma_size_of_both(z, gap);
    lemma_bounds(size(z), size(gap), 3real, (v + e) / 16777000real + tiny());
    assert(z * gap == z * l - z * (v + e)) by (nonlinear_arith)
        requires
            gap == l - (v + e),
    ;
    lemma_bounds(tiny(), l, tiny(), 10real);
    assert(size(z * l - z * (v + e)) == size(z * (v + e) - z * l)) by {
        reveal(size);
    }
    lemma_size_of_sum(z * (v + e) - z * l, z * l - v);
    assert((z * (v + e) - z * l) + (z * l - v) == z * (v + e) - v);
}

/// A crop lies on the picture by its parts of the width and of the height. One that leaves
/// no pixel stands for the whole picture.
pub proof fn a_crop_lies_by_its_parts(w: int, h: int, c: Crop)
    requires
        1 <= w <= 0x10_0000,
        1 <= h <= 0x10_0000,
        c.left.finite() && c.top.finite() && c.right.finite() && c.bottom.finite(),
        ({
            let (l, r) = (held(real_of(c.left), 0real, 1real), held(real_of(c.right), 0real, 1real));
            let (t, b) = (held(real_of(c.top), 0real, 1real), held(real_of(c.bottom), 0real, 1real));
            (r - l) * (w as real) >= 3real && (b - t) * (h as real) >= 3real
        }),
    ensures
        ({
            let q = crop_rect(w, h, Some(c));
            let (l, r) = (held(real_of(c.left), 0real, 1real), held(real_of(c.right), 0real, 1real));
            let (t, b) = (held(real_of(c.top), 0real, 1real), held(real_of(c.bottom), 0real, 1real));
            let (x, y) = (w as real, h as real);
            &&& within(q.x0, l * x, x / 500000real)
            &&& within(q.y0, t * y, y / 500000real)
            &&& within(q.w, (r - l) * x, x / 500000real)
            &&& within(q.h, (b - t) * y, y / 500000real)
        }),
{
    lemma_ends();
    let (x, y) = (w as real, h as real);
    lemma_edge(c.left, w);
    lemma_edge(c.right, w);
    lemma_edge(c.top, h);
    lemma_edge(c.bottom, h);
    lemma_between_edges(c.left, c.right, w);
    lemma_between_edges(c.top, c.bottom, h);
}

/// A part of a side in pixels.
spec fn edge(v: Single, n: int) -> Single {
    v.clamped(num(ZERO), num(ONE)).product(Single::of_whole(n))
}

proof fn lemma_edge(v: Single, n: int)
    requires
        v.finite(),
        1 <= n <= 0x10_0000,
    ensures
        within(edge(v, n), held(real_of(v), 0real, 1real) * (n as real), (n as real) / 1900000real),
        size(held(real_of(v), 0real, 1real) * (n as real)) <= n as real,
{
    lemma_ends();
    lemma_held(v, num(ZERO), num(ONE));
    let k = v.clamped(num(ZERO), num(ONE));
    assert(size(real_of(k)) <= 1real) by {
        reveal(size);
    }
    lemma_part_of_side(k, n, 1real);
}

proof fn lemma_between_edges(a: Single, b: Single, n: int)
    requires
        a.finite(),
        b.finite(),
        1 <= n <= 0x10_0000,
        (held(real_of(b), 0real, 1real) - held(real_of(a), 0real, 1real)) * (n as real) >= 3real,
    ensures
        ({
            let d = edge(b, n).difference(edge(a, n));
            &&& within(
                d,
                (held(real_of(b), 0real, 1real) - held(real_of(a), 0real, 1real)) * (n as real),
                (n as real) / 500000real,
            )
            &&& !d.less(num(ONE))
        }),
{
    lemma_edge(a, n);
    lemma_edge(b, n);
    lemma_ends();
    let k = n as real;
    let (p, q) = (held(real_of(a), 0real, 1real), held(real_of(b), 0real, 1real));
    let (x, y) = (real_of(edge(a, n)), real_of(edge(b, n)));
    assert((q - p) * k == q * k - p * k) by (nonlinear_arith);
    assert(size(y - x) <= 3real * k) by {
        reveal(size);
    }
    lemma_rounded_difference(edge(b, n), edge(a, n));
    let d = edge(b, n).difference(edge(a, n));
    assert(size(real_of(d) - (q - p) * k) <= k / 500000real) by {
        reveal(size);
    }
    lemma_order_real(d, num(ONE));
    assert(real_of(d) >= 0real && !d.less(num(ONE))) by {
        reveal(size);
    }
}

/// Recolouring takes the red of a pixel towards its brightness and the red that was fitted,
/// and its blue towards its brightness and the blue that was fitted, by the blend.
pub proof fn recolouring_takes_each_colour_to_its_own(
    px: Rgb<Single>,
    l: Single,
    red: Single,
    blue: Single,
    blend: Single,
)
    requires
        shade(px.r) && shade(px.b) && shade(l) && shade(blend),
        red.finite() && size(real_of(red)) <= 1real,
        blue.finite() && size(real_of(blue)) <= 1real,
    ensures
        ({
            let q = with_colour(px, l, red, blue, blend);
            let (b, y) = (real_of(blend), real_of(l));
            &&& within(
                q.r,
                held(real_of(px.r) + (y + real_of(red) - real_of(px.r)) * b, 0real, 1real),
                1real / 100000real,
            )
            &&& within(
                q.b,
                held(real_of(px.b) + (y + real_of(blue) - real_of(px.b)) * b, 0real, 1real),
                1real / 100000real,
            )
        }),
{
    lemma_recoloured(px.r, l, red, blend);
    lemma_recoloured(px.b, l, blue, blend);
}

proof fn lemma_recoloured(c: Single, l: Single, to: Single, blend: Single)
    requires
        shade(c) && shade(l) && shade(blend),
        to.finite() && size(real_of(to)) <= 1real,
    ensures
        ({
            let d = c.difference(l);
            let r = l.sum(d).sum(to.difference(d).product(blend)).clamped(num(ZERO), num(ONE));
            within(
                r,
                held(
                    real_of(c) + (real_of(l) + real_of(to) - real_of(c)) * real_of(blend),
                    0real,
                    1real,
                ),
                1real / 100000real,
            )
        }),
{
    lemma_ends();
    let (x, y, t, b) = (real_of(c), real_of(l), real_of(to), real_of(blend));
    assert(size(x - y) <= 1real) by {
        reveal(size);
    }
    lemma_rounded_difference(c, l);
    let d = c.difference(l);
    let g = real_of(d);
    assert(size(g - (x - y)) <= 1real / 10000000real && size(g) <= 2real && size(y + g) <= 3real && size(
        t - g,
    ) <= 3real) by {
        reveal(size);
    }
    lemma_rounded_sum(l, d);
    lemma_rounded_difference(to, d);
    let (base, rise) = (l.sum(d), to.difference(d));
    let k = t - (x - y);
    assert(size(real_of(base) - x) <= 1real / 2000000real && size(real_of(rise) - k) <= 1real
        / 2000000real && size(real_of(rise)) <= 4real && size(k) <= 3real) by {
        reveal(size);
    }
    assert(size(b) == b) by {
        reveal(size);
    }
    lemma_size_of_both(real_of(rise), b);
    lemma_bounds(size(real_of(rise)), b, 4real, 1real);
    lemma_rounded_product(rise, blend);
    let p = real_of(rise.product(blend));
    lemma_size_of_both(real_of(rise) - k, b);
    lemma_bounds(size(real_of(rise) - k), b, 1real / 2000000real, 1real);
    assert((real_of(rise) - k) * b == real_of(rise) * b - k * b) by (nonlinear_arith);
    lemma_size_of_sum(p - real_of(rise) * b, (real_of(rise) - k) * b);
    assert(size(p - k * b) <= 1real / 1000000real) by {
        assert((p - real_of(rise) * b) + (real_of(rise) - k) * b == p - k * b);
    }
    lemma_size_of_both(k, b);
    lemma_bounds(size(k), b, 3real, 1real);
    assert(size(real_of(base) + p) <= 5real) by {
        reveal(size);
    }
    lemma_rounded_sum(base, rise.product(blend));
    let s = base.sum(rise.product(blend));
    assert(k == y + t - x);
    assert(size(real_of(s) - (x + k * b)) <= 1real / 200000real) by {
        reveal(size);
    }
    lemma_held(s, num(ZERO), num(ONE));
    lemma_held_near(real_of(s), x + k * b, 1real / 200000real);
}

} // verus!
