//! What the passes over a picture's detail are planned with, among the real numbers.

use vstd::prelude::*;
use vstd::arithmetic::power2::{lemma2_to64, lemma2_to64_rest, pow2};
use crate::cofactors::lemma_less;
use crate::detail::{
    pixels, LumaNrParams, SharpenParams, EDGE_FAR, HALO_NEAR,
    KEEP_FAR, KEEP_NEAR, NOISE_FAR, NOISE_NEAR,
};
use crate::finish::ramp;
use crate::hues::{lemma_product_not_above, lemma_product_sign};
use crate::numbers::{FOUR, HALF, ONE, QUARTER, ZERO};
use crate::painting::shade;
use crate::reals::{
    lemma_ends, lemma_order_real, lemma_real_of_digits, real_of, size, size_is_not_below, within,
};
use crate::single::{num, Single};
use crate::sliding::{lemma_known_ramp, lemma_small_numbers};
use crate::stamping::{lemma_half_and_two, lemma_next_whole};
use crate::texture::lemma_product_near;
use crate::vanishing::lemma_back;
use crate::wayback::{
    lemma_bounds, lemma_rounded_product, lemma_size_of_both, lemma_size_of_sum, tiny,
};

verus! {

broadcast use size_is_not_below;

proof fn lemma_plan_numbers()
    ensures
        num(HALO_NEAR).finite() && size(real_of(num(HALO_NEAR)) - 2real / 100real) <= 1real / 10000000real,
        num(EDGE_FAR).finite() && size(real_of(num(EDGE_FAR)) - 4real / 100real) <= 1real / 10000000real,
        num(NOISE_NEAR).finite() && size(real_of(num(NOISE_NEAR)) - 4real / 1000real) <= 1real / 10000000real,
        num(NOISE_FAR).finite() && size(real_of(num(NOISE_FAR)) - 54real / 1000real) <= 1real / 10000000real,
        num(KEEP_NEAR).finite() && size(real_of(num(KEEP_NEAR)) - 16real / 10real) <= 1real / 10000000real,
        num(KEEP_FAR).finite() && size(real_of(num(KEEP_FAR)) - 4real / 10real) <= 1real / 10000000real,
{
    lemma2_to64();
    lemma2_to64_rest();
    lemma_real_of_digits(HALO_NEAR, 10737418, 29);
    lemma_real_of_digits(EDGE_FAR, 10737418, 28);
    lemma_real_of_digits(NOISE_NEAR, 8589935, 31);
    lemma_real_of_digits(NOISE_FAR, 14495515, 28);
    lemma_real_of_digits(KEEP_NEAR, 13421773, 23);
    lemma_real_of_digits(KEEP_FAR, 13421773, 25);
    assert(pow2(23) == 8388608);
    assert(pow2(24) == 16777216);
    assert(pow2(25) == 33554432);
    assert(pow2(27) == 134217728);
    assert(pow2(28) == 268435456);
    assert(pow2(29) == 536870912);
    assert(pow2(30) == 1073741824);
    assert(pow2(31) == 2147483648);
    assert(-(1real / 10000000real) <= 10737418real / 536870912real - 2real / 100real <= 1real / 10000000real);
    assert(real_of(num(HALO_NEAR)) == 10737418real / 536870912real);
    assert(-(1real / 10000000real) <= 10737418real / 268435456real - 4real / 100real <= 1real / 10000000real);
    assert(real_of(num(EDGE_FAR)) == 10737418real / 268435456real);
    assert(-(1real / 10000000real) <= 8589935real / 2147483648real - 4real / 1000real <= 1real / 10000000real);
    assert(real_of(num(NOISE_NEAR)) == 8589935real / 2147483648real);
    assert(-(1real / 10000000real) <= 14495515real / 268435456real - 54real / 1000real <= 1real / 10000000real);
    assert(real_of(num(NOISE_FAR)) == 14495515real / 268435456real);
    assert(-(1real / 10000000real) <= 13421773real / 8388608real - 16real / 10real <= 1real / 10000000real);
    assert(real_of(num(KEEP_NEAR)) == 13421773real / 8388608real);
    assert(-(1real / 10000000real) <= 13421773real / 33554432real - 4real / 10real <= 1real / 10000000real);
    assert(real_of(num(KEEP_FAR)) == 13421773real / 33554432real);
    reveal(size);
}

/// A scale of pixels to a pixel.
pub open spec fn a_scale(per_pixel: Single) -> bool {
    per_pixel.finite() && 1real <= real_of(per_pixel) <= 1000real
}

/// A ramp between two numbers of no more than two.
proof fn lemma_small_ramp(from: u32, to: u32, t: Single, a: real, b: real)
    requires
        num(from).finite() && num(to).finite(),
        size(real_of(num(from)) - a) <= 1real / 10000000real,
        size(real_of(num(to)) - b) <= 1real / 10000000real,
        real_of(num(from)) >= 0real,
        real_of(num(to)) >= 0real,
        0real <= a <= 16real / 10real,
        0real <= b <= 16real / 10real,
        shade(t),
    ensures
        within(ramp(from, to, t), a + (b - a) * real_of(t), 1real / 50000real),
        0real <= a + (b - a) * real_of(t) <= 16real / 10real,
{
    let w = real_of(t);
    assert(size(w - w) <= 1real / 900000real && real_of(num(from)) <= 2real && real_of(num(to))
        <= 2real) by {
        reveal(size);
    }
    lemma_known_ramp(from, to, t, w, a, b, 2real);
    let rest = 1real - w;
    assert(a + (b - a) * w == a * rest + b * w) by (nonlinear_arith)
        requires
            rest == 1real - w,
    ;
    assert(a * rest >= 0real && b * w >= 0real) by (nonlinear_arith)
        requires
            a >= 0real,
            rest >= 0real,
            b >= 0real,
            w >= 0real,
    ;
    lemma_bounds(a, rest, 16real / 10real, rest);
    lemma_bounds(b, w, 16real / 10real, w);
}

/// A length on the film, in pixels of the raster.
proof fn lemma_on_raster(v: Single, per_pixel: Single, want: real, e: real)
    requires
        v.finite(),
        a_scale(per_pixel),
        size(real_of(v) - want) <= e <= 1real,
        size(want) <= 1000real,
    ensures
        v.quotient(per_pixel).finite(),
        size(real_of(v.quotient(per_pixel)) * real_of(per_pixel) - want) <= e + (size(want) + 1real)
            / 16000000real,
{
    let k = real_of(per_pixel);
    assert(size(k) == k) by {
        reveal(size);
    }
    let x = real_of(v);
    lemma_size_of_sum(want, x - want);
    assert(want + (x - want) == x);
    lemma_back(v, per_pixel, 1001real, 1real);
    let q = real_of(v.quotient(per_pixel));
    lemma_size_of_sum(q * k - x, x - want);
    assert((q * k - x) + (x - want) == q * k - want);
}

/// A sharpening pass is planned by its sliders: the radius on the raster is the slider's by
/// the scale, but not under half a pixel of film; the detail slider opens the limit of the
/// boost from a fiftieth by its square, and lets in half of the finest detail unless the
/// pass softens; the masking slider takes the edges up to four hundredths, from a quarter of
/// that on.
pub proof fn a_sharpening_is_planned_by_its_sliders(p: SharpenParams, w: int, h: int, per_pixel: Single)
    requires
        w > 0 && h > 0,
        p.amount.finite(),
        p.radius.finite() && 0real <= real_of(p.radius) <= 900real,
        shade(p.detail) && shade(p.masking),
        a_scale(per_pixel),
    ensures
        real_of(p.amount) == 0real <==> p.planned(w, h, per_pixel) is None,
        real_of(p.amount) != 0real ==> {
            let q = p.planned(w, h, per_pixel)->0;
            let (d, m) = (real_of(p.detail), real_of(p.masking));
            let r = if real_of(p.radius) < 1real / 2real {
                1real / 2real
            } else {
                real_of(p.radius)
            };
            let e = 1real / 10000real;
            &&& q.sigma_true.finite() && size(real_of(q.sigma_true) * real_of(per_pixel) - r) <= e
            &&& within(q.limit, 2real / 100real + (98real / 100real) * (d * d), e)
            &&& real_of(p.amount) < 0real ==> real_of(q.fine) == 0real
            &&& real_of(p.amount) > 0real ==> within(q.fine, d / 2real, e)
            &&& within(q.edge_to, (4real / 100real) * m, e)
            &&& within(q.edge_from, (1real / 100real) * m, e)
        },
{
    lemma_ends();
    lemma_half_and_two();
    lemma_small_numbers();
    lemma_plan_numbers();
    lemma_order_real(p.amount, num(ZERO));
    lemma_order_real(num(ZERO), p.amount);
    let (d, m) = (real_of(p.detail), real_of(p.masking));
    assert(size(0real - 0real) <= 1real / 10000000real && size(1real - 1real) <= 1real / 10000000real
        && size(1real / 2real - 1real / 2real) <= 1real / 10000000real) by {
        reveal(size);
    }
    lemma_order_real(p.radius, num(HALF));
    let radius = p.radius.larger(num(HALF));
    let r = real_of(radius);
    assert(size(r - r) <= 0real && size(r) <= 1000real) by {
        reveal(size);
    }
    lemma_on_raster(radius, per_pixel, r, 0real);
    // The limit, by the square of the detail.
    let dd = p.detail.product(p.detail);
    assert(size(d) == d && size(d - d) <= 0real) by {
        reveal(size);
    }
    assert(0real <= d * d <= 1real) by (nonlinear_arith)
        requires
            0real <= d <= 1real,
    ;
    lemma_square_is_shade(p.detail);
    lemma_product_near(p.detail, p.detail, d, d, 0real, 0real);
    assert(real_of(num(HALO_NEAR)) >= 0real && real_of(num(EDGE_FAR)) >= 0real) by {
        reveal(size);
    }
    lemma_small_ramp(HALO_NEAR, ONE, dd, 2real / 100real, 1real);
    let x = real_of(dd);
    assert(size((98real / 100real) * x - (98real / 100real) * (d * d)) <= 1real / 1000000real) by {
        reveal(size);
    }
    let lim = real_of(ramp(HALO_NEAR, ONE, dd));
    assert(size(lim - (2real / 100real + (98real / 100real) * (d * d))) <= 1real / 10000real) by {
        reveal(size);
    }
    lemma_small_ramp(ZERO, HALF, p.detail, 0real, 1real / 2real);
    lemma_small_ramp(ZERO, EDGE_FAR, p.masking, 0real, 4real / 100real);
    let full = ramp(ZERO, EDGE_FAR, p.masking);
    assert(size(m) <= 1real) by {
        reveal(size);
    }
    assert(size((4real / 100real) * m) <= 3real && size(1real / 4real) <= 3real && size(
        1real / 4real - 1real / 4real,
    ) <= 0real) by {
        reveal(size);
    }
    lemma_product_near(
        num(QUARTER),
        full,
        1real / 4real,
        (4real / 100real) * m,
        0real,
        1real / 50000real,
    );
    assert((1real / 4real) * ((4real / 100real) * m) == (1real / 100real) * m);
}

proof fn lemma_square_is_shade(t: Single)
    requires
        shade(t),
    ensures
        shade(t.product(t)),
{
    let x = real_of(t);
    lemma_ends();
    assert(size(x) == x) by {
        reveal(size);
    }
    lemma_size_of_both(x, x);
    lemma_bounds(x, x, 1real, 1real);
    lemma_rounded_product(t, t);
    assert(1real * 1real == 1real);
    lemma_product_sign(t, t);
    lemma_product_not_above(t, t, num(ONE));
}

/// Noise reduction is planned by its sliders: it reaches from one pixel of the film to
/// four, to the next pixel of the raster and one at least; what it takes for noise grows with
/// the amount from four thousandths to fifty-four, and the detail slider takes of it, from
/// eight fifths to two.
pub proof fn a_noise_reduction_is_planned_by_its_sliders(p: LumaNrParams, w: int, h: int, per_pixel: Single)
    requires
        shade(p.amount) && shade(p.detail),
        a_scale(per_pixel),
        p.planned(w, h, per_pixel) is Some,
    ensures
        ({
            let q = p.planned(w, h, per_pixel)->0;
            let (a, d, k) = (real_of(p.amount), real_of(p.detail), real_of(per_pixel));
            let noise = (4real / 1000real + (5real / 100real) * a) * (16real / 10real - (12real / 10real)
                * d);
            &&& real_of(p.amount) > 0real
            &&& q.radius >= 1
            &&& q.radius > 1 ==> size((q.radius as real) * k - (1real + 3real * a)) <= (51real / 100real)
                * k
            &&& q.radius == 1 ==> 1real + 3real * a <= (151real / 100real) * k
            &&& q.eps.finite() && size(real_of(q.eps) * (k * k) - noise * noise) <= 1real / 5000real
        }),
{
    lemma_ends();
    lemma_small_numbers();
    lemma_plan_numbers();
    lemma_order_real(p.amount, num(ZERO));
    let (a, d, k) = (real_of(p.amount), real_of(p.detail), real_of(per_pixel));
    assert(size(a - a) <= 1real / 900000real && size(1real - 1real) <= 1real / 10000000real && size(
        4real - 4real,
    ) <= 1real / 10000000real) by {
        reveal(size);
    }
    lemma_known_ramp(ONE, FOUR, p.amount, a, 1real, 4real, 4real);
    let length = ramp(ONE, FOUR, p.amount);
    let want = 1real + 3real * a;
    assert((4real - 1real) * a == 3real * a);
    assert(size(want) <= 4real) by {
        reveal(size);
    }
    lemma_on_raster(length, per_pixel, want, 4real / 100000real);
    let reach = length.quotient(per_pixel);
    let y = real_of(reach);
    lemma_to_pixel(reach, k, want);
    // What is taken for noise.
    assert(real_of(num(NOISE_NEAR)) >= 0real && real_of(num(NOISE_FAR)) >= 0real && real_of(
        num(KEEP_NEAR),
    ) >= 0real && real_of(num(KEEP_FAR)) >= 0real) by {
        reveal(size);
    }
    lemma_small_ramp(NOISE_NEAR, NOISE_FAR, p.amount, 4real / 1000real, 54real / 1000real);
    lemma_small_ramp(KEEP_NEAR, KEEP_FAR, p.detail, 16real / 10real, 4real / 10real);
    let (f, g) = (ramp(NOISE_NEAR, NOISE_FAR, p.amount), ramp(KEEP_NEAR, KEEP_FAR, p.detail));
    let (u, v) = (4real / 1000real + (5real / 100real) * a, 16real / 10real - (12real / 10real) * d);
    assert((54real / 1000real - 4real / 1000real) * a == (5real / 100real) * a);
    assert((4real / 10real - 16real / 10real) * d == -((12real / 10real) * d));
    assert(size(u) == u && size(v) == v && u <= 1real / 10real && v <= 16real / 10real) by {
        reveal(size);
    }
    lemma_product_near(f, g, u, v, 1real / 50000real, 1real / 50000real);
    let n = u * v;
    lemma_bounds(u, v, 1real / 10real, 16real / 10real);
    assert(n >= 0real) by (nonlinear_arith)
        requires
            n == u * v,
            u >= 0real,
            v >= 0real,
    ;
    assert(size(n) == n) by {
        reveal(size);
    }
    lemma_on_raster(f.product(g), per_pixel, n, 2real / 10000real);
    let noise = f.product(g).quotient(per_pixel);
    let z = real_of(noise);
    // Its square, by the square of the scale.
    lemma_squared(noise, k, n);
}

/// The whole pixels next to a length.
proof fn lemma_to_pixel(reach: Single, k: real, want: real)
    requires
        reach.finite(),
        1real <= k <= 1000real,
        size(real_of(reach) * k - want) <= 5real / 100000real,
        0real <= want <= 4real,
    ensures
        ({
            let n = pixels(reach, 1);
            &&& 1 <= n <= 10
            &&& n > 1 ==> size((n as real) * k - want) <= (51real / 100real) * k
            &&& n == 1 ==> want <= (151real / 100real) * k
        }),
{
    let y = real_of(reach);
    assert(-(1real / 1000real) <= y <= 5real) by {
        assert(-(5real / 100000real) <= y * k <= 5real) by {
            reveal(size);
        }
        assert(-(1real / 1000real) <= y <= 5real) by (nonlinear_arith)
            requires
                -(5real / 100000real) <= y * k <= 5real,
                k >= 1real,
        ;
    }
    assert(size(y) <= 4000000real) by {
        reveal(size);
    }
    lemma_next_whole(reach);
    let m = reach.rounded().cast(i32::MIN as int, i32::MAX as int);
    assert(size(m as real - y) <= 1real / 2real);
    assert(-1 < m <= 6) by {
        reveal(size);
    }
    assert(reach.rounded().cast(0, u64::MAX as int) == m);
    let g = m as real - y;
    lemma_size_of_both(g, k);
    assert(size(k) == k) by {
        reveal(size);
    }
    lemma_bounds(size(g), k, 1real / 2real, k);
    lemma_less(m as real, y, k);
    lemma_size_of_sum((m as real) * k - y * k, y * k - want);
    assert(((m as real) * k - y * k) + (y * k - want) == (m as real) * k - want);
    assert(size((m as real) * k - want) <= (51real / 100real) * k);
    if m <= 1 {
        assert((m as real) * k <= k) by (nonlinear_arith)
            requires
                m as real <= 1real,
                k >= 1real,
        ;
        assert(want <= (151real / 100real) * k) by {
            reveal(size);
        }
    }
}

proof fn lemma_squared(noise: Single, k: real, n: real)
    requires
        noise.finite(),
        1real <= k <= 1000real,
        0real <= n <= 2real / 10real,
        size(real_of(noise) * k - n) <= 21real / 100000real,
    ensures
        noise.product(noise).finite(),
        size(real_of(noise.product(noise)) * (k * k) - n * n) <= 1real / 5000real,
{
    let z = real_of(noise);
    let x = z * k;
    assert(size(x) <= 3real / 10real && size(n) == n) by {
        reveal(size);
    }
    lemma_size_of_both(z, k);
    assert(size(k) == k) by {
        reveal(size);
    }
    let a = size(z);
    assert(a <= 3real / 10real) by (nonlinear_arith)
        requires
            a * k <= 3real / 10real,
            k >= 1real,
            a >= 0real,
    ;
    lemma_size_of_both(z, z);
    lemma_bounds(a, a, 3real / 10real, 3real / 10real);
    lemma_rounded_product(noise, noise);
    let e = real_of(noise.product(noise));
    let off = e - z * z;
    let kk = k * k;
    assert(kk >= 1real) by (nonlinear_arith)
        requires
            kk == k * k,
            k >= 1real,
    ;
    assert(size(kk) == kk) by {
        reveal(size);
    }
    lemma_size_of_both(off, kk);
    lemma_bounds(size(off), kk, size(z * z) / 16777000real + tiny(), kk);
    lemma_less(e, z * z, kk);
    assert((z * z) * kk == x * x) by (nonlinear_arith)
        requires
            kk == k * k,
            x == z * k,
    ;
    lemma_size_of_both(z * z, kk);
    assert((size(z * z) / 16777000real + tiny()) * kk == (size(z * z) * kk) / 16777000real + tiny() * kk)
        by (nonlinear_arith);
    lemma_bounds(k, k, 1000real, 1000real);
    lemma_bounds(tiny(), kk, tiny(), 1000000real);
    lemma_size_of_both(x, x);
    lemma_bounds(size(x), size(x), 1real, 1real);
    let g = x - n;
    assert(x * x - n * n == g * (x + n)) by (nonlinear_arith)
        requires
            g == x - n,
    ;
    lemma_size_of_both(g, x + n);
    lemma_size_of_sum(x, n);
    lemma_bounds(size(g), size(x + n), 21real / 100000real, 1real / 2real);
    lemma_size_of_sum(e * kk - (z * z) * kk, x * x - n * n);
    assert((e * kk - (z * z) * kk) + (x * x - n * n) == e * kk - n * n);
}

} // verus!
