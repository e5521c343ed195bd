//! Grain, sharpening and the reach of a vignette at one pixel, among the real numbers.

use vstd::prelude::*;
use crate::cofactors::lemma_less;
use crate::coverings::lemma_floor;
use crate::film::film_factor;
use crate::finish::{a_field_value_is_a_share, eased, field_value, mixed, noise, CropRect, Vignette};
use crate::numbers::{HALF, ONE, ONE_THOUSANDTH, QUARTER, THREE, TWO, ZERO};
use crate::painting::shade;
use crate::pixels::boosted;
use crate::placing::lemma_whole_real;
use crate::reals::{
    lemma_ends, lemma_order_real, lemma_real_of_digits, real_of, size, size_is_not_below, within,
};
use crate::single::{num, Single};
use crate::sliding::{lemma_finish_numbers, lemma_small_numbers};
use crate::stamping::lemma_half_and_two;
use crate::vanishing::lemma_back;
use crate::wayback::{
    lemma_absolute, lemma_bounds, lemma_rounded_difference, lemma_rounded_product,
    lemma_rounded_sum, lemma_size_of_both, lemma_size_of_sum,
};
use vstd::arithmetic::power2::lemma2_to64;

verus! {

broadcast use size_is_not_below;

/// A step that begins and ends flat.
pub open spec fn smooth_step(t: real) -> real {
    t * t * (3real - 2real * t)
}

/// What lies between two numbers.
pub open spec fn part_way(a: real, b: real, t: real) -> real {
    a + (b - a) * t
}

proof fn lemma_three_real()
    ensures
        num(THREE).finite() && real_of(num(THREE)) == 3real,
{
    lemma2_to64();
    lemma_real_of_digits(THREE, 0xC0_0000, 22);
    assert(12582912real / 4194304real == 3real);
}

/// A product of two values that are near numbers of no more than three.
pub proof fn lemma_product_near(a: Single, b: Single, x: real, y: real, d: real, e: real)
    requires
        a.finite() && b.finite(),
        size(real_of(a) - x) <= d <= 1real / 1000real,
        size(real_of(b) - y) <= e <= 1real / 1000real,
        size(x) <= 3real,
        size(y) <= 3real,
    ensures
        within(a.product(b), x * y, 4real * d + 4real * e + 1real / 1000000real),
{
    let (p, q) = (real_of(a), real_of(b));
    lemma_size_of_sum(x, p - x);
    lemma_size_of_sum(y, q - y);
    assert(x + (p - x) == p && y + (q - y) == q);
    lemma_size_of_both(p, q);
    lemma_bounds(size(p), size(q), 31real / 10real, 31real / 10real);
    lemma_rounded_product(a, b);
    lemma_size_of_both(p - x, q);
    lemma_bounds(size(p - x), size(q), d, 31real / 10real);
    lemma_less(p, x, q);
    lemma_size_of_both(x, q - y);
    lemma_bounds(size(x), size(q - y), 3real, e);
    lemma_less(q, y, x);
    let r = real_of(a.product(b));
    lemma_size_of_sum((p - x) * q, x * (q - y));
    assert((p - x) * q + x * (q - y) == p * q - x * y);
    lemma_size_of_sum(r - p * q, p * q - x * y);
    assert((r - p * q) + (p * q - x * y) == r - x * y);
}

proof fn lemma_eased(t: Single, w: real)
    requires
        t.finite(),
        0real <= w <= 1real,
        size(real_of(t) - w) <= 1real / 8000000real,
    ensures
        eased(t).finite(),
        size(real_of(eased(t)) - smooth_step(w)) <= 1real / 20000real,
        0real <= smooth_step(w) <= 1real,
{
    lemma_three_real();
    lemma_half_and_two();
    let e = 1real / 8000000real;
    assert(size(w) == w && size(2real) == 2real) by {
        reveal(size);
    }
    assert(size(2real - 2real) <= 0real) by {
        reveal(size);
    }
    lemma_product_near(t, t, w, w, e, e);
    lemma_product_near(num(TWO), t, 2real, w, 0real, e);
    let d = num(TWO).product(t);
    assert(size(3real - real_of(d)) <= 4real) by {
        reveal(size);
    }
    lemma_rounded_difference(num(THREE), d);
    let f = num(THREE).difference(d);
    let y = 3real - 2real * w;
    assert(size(real_of(f) - y) <= 4real / 1000000real) by {
        reveal(size);
    }
    assert(size(y) <= 3real && y >= 1real) by {
        reveal(size);
    }
    assert(0real <= w * w <= 1real) by (nonlinear_arith)
        requires
            0real <= w <= 1real,
    ;
    assert(size(w * w) <= 3real) by {
        reveal(size);
    }
    lemma_product_near(t.product(t), f, w * w, y, 3real / 1000000real, 4real / 1000000real);
    lemma_step_bounds(w);
}

proof fn lemma_step_bounds(x: real)
    requires
        0real <= x <= 1real,
    ensures
        0real <= smooth_step(x) <= 1real,
{
    let r = 1real - x;
    let a = x * x;
    assert(a >= 0real) by (nonlinear_arith)
        requires
            a == x * x,
    ;
    let y = 3real - 2real * x;
    assert(a * y >= 0real) by (nonlinear_arith)
        requires
            a >= 0real,
            y >= 1real,
    ;
    // One less the step is the step from the other side.
    assert(a * y == 3real * a - 2real * (a * x)) by (nonlinear_arith)
        requires
            y == 3real - 2real * x,
    ;
    let b = r * r;
    assert(b == 1real - 2real * x + a) by (nonlinear_arith)
        requires
            b == r * r,
            r == 1real - x,
            a == x * x,
    ;
    assert(b * (1real + 2real * x) == (1real - 2real * x + a) + 2real * (x - 2real * a + a * x))
        by (nonlinear_arith)
        requires
            b == 1real - 2real * x + a,
            a == x * x,
    ;
    assert(b * (1real + 2real * x) >= 0real) by (nonlinear_arith)
        requires
            b == r * r,
            x >= 0real,
    ;
}

/// A mix of two shades by a share that is nearly `w`.
proof fn lemma_mixed(a: Single, b: Single, t: Single, x: real, y: real, w: real, d: real, e: real)
    requires
        a.finite() && b.finite() && t.finite(),
        0real <= x <= 1real,
        0real <= y <= 1real,
        0real <= w <= 1real,
        size(real_of(a) - x) <= d <= 1real / 1000real,
        size(real_of(b) - y) <= d,
        size(real_of(t) - w) <= e <= 1real / 1000real,
    ensures
        within(mixed(a, b, t), part_way(x, y, w), 15real * d + 5real * e + 1real / 100000real),
        0real <= part_way(x, y, w) <= 1real,
{
    let (p, q) = (real_of(a), real_of(b));
    let g = y - x;
    assert(size(q - p) <= 2real && size(g) <= 1real && size((q - p) - g) <= 2real * d) by {
        reveal(size);
    }
    lemma_rounded_difference(b, a);
    let k = b.difference(a);
    assert(size(real_of(k) - g) <= 2real * d + 1real / 5000000real) by {
        lemma_size_of_sum(real_of(k) - (q - p), (q - p) - g);
        assert((real_of(k) - (q - p)) + ((q - p) - g) == real_of(k) - g);
    }
    assert(size(w) <= 1real) by {
        reveal(size);
    }
    let z = 2real * d + 1real / 5000000real;
    lemma_close_product(k, t, g, w, z, e);
    let s = k.product(t);
    let m = real_of(s);
    lemma_size_of_both(g, w);
    lemma_bounds(size(g), size(w), 1real, 1real);
    assert(size(p + m) <= 3real) by {
        reveal(size);
    }
    lemma_rounded_sum(a, s);
    let r = real_of(a.sum(s));
    lemma_size_of_sum(r - (p + m), p - x);
    lemma_size_of_sum((r - (p + m)) + (p - x), m - g * w);
    assert((r - (p + m)) + (p - x) + (m - g * w) == r - (x + g * w));
    assert(0real <= x + g * w <= 1real) by {
        let rest = 1real - w;
        assert(x + g * w == x * rest + y * w) by (nonlinear_arith)
            requires
                g == y - x,
                rest == 1real - w,
        ;
        lemma_bounds(x, rest, 1real, rest);
        lemma_bounds(y, w, 1real, w);
        assert(x * rest >= 0real && y * w >= 0real) by (nonlinear_arith)
            requires
                x >= 0real,
                rest >= 0real,
                y >= 0real,
                w >= 0real,
        ;
    }
}

proof fn lemma_close_product(k: Single, t: Single, g: real, w: real, d: real, e: real)
    requires
        k.finite() && t.finite(),
        size(real_of(k) - g) <= d <= 3real / 1000real,
        size(real_of(t) - w) <= e <= 1real / 1000real,
        size(g) <= 1real,
        size(w) <= 1real,
    ensures
        within(k.product(t), g * w, 2real * d + 2real * e + 1real / 1000000real),
{
    let (p, q) = (real_of(k), real_of(t));
    lemma_size_of_sum(g, p - g);
    lemma_size_of_sum(w, q - w);
    assert(g + (p - g) == p && w + (q - w) == q);
    lemma_size_of_both(p, q);
    lemma_bounds(size(p), size(q), 2real, 2real);
    lemma_rounded_product(k, t);
    lemma_size_of_both(p - g, q);
    lemma_bounds(size(p - g), size(q), d, 2real);
    lemma_less(p, g, q);
    lemma_size_of_both(g, q - w);
    lemma_bounds(size(g), size(q - w), 1real, e);
    lemma_less(q, w, g);
    let r = real_of(k.product(t));
    lemma_size_of_sum((p - g) * q, g * (q - w));
    assert((p - g) * q + g * (q - w) == p * q - g * w);
    lemma_size_of_sum(r - p * q, p * q - g * w);
    assert((r - p * q) + (p * q - g * w) == r - g * w);
}

/// A value, less the whole number below it.
proof fn lemma_fraction(u: Single)
    requires
        u.finite(),
        size(real_of(u)) <= 1000000real,
    ensures
        ({
            let n = u.floored().cast(i32::MIN as int, i32::MAX as int);
            let f = u.difference(u.floored());
            let w = real_of(u) - n as real;
            &&& f.finite()
            &&& 0real <= w < 1real
            &&& size(real_of(f) - w) <= 1real / 8000000real
        }),
{
    lemma_floor(u);
    let n = u.floored().cast(i32::MIN as int, i32::MAX as int);
    let w = real_of(u) - n as real;
    assert(size(w) <= 1real) by {
        reveal(size);
    }
    lemma_rounded_difference(u, u.floored());
}

proof fn lemma_field(x: int, y: int)
    ensures
        shade(field_value(x, y)),
{
    a_field_value_is_a_share(x, y);
    lemma_ends();
    let v = field_value(x, y);
    assert(v.finite());
    lemma_order_real(num(ZERO), v);
    lemma_order_real(v, num(ONE));
}

/// Four shades mixed across and down.
proof fn lemma_four(p: Single, q: Single, r: Single, s: Single, fx: Single, fy: Single, f: real, g: real)
    requires
        shade(p) && shade(q) && shade(r) && shade(s),
        fx.finite() && fy.finite(),
        0real <= f <= 1real,
        0real <= g <= 1real,
        size(real_of(fx) - f) <= 1real / 20000real,
        size(real_of(fy) - g) <= 1real / 20000real,
    ensures
        ({
            let all = mixed(mixed(p, q, fx), mixed(r, s, fx), fy);
            let top = part_way(real_of(p), real_of(q), f);
            let low = part_way(real_of(r), real_of(s), f);
            within(
                all.product(num(TWO)).difference(num(ONE)),
                2real * part_way(top, low, g) - 1real,
                1real / 50real,
            )
        }),
{
    assert(size(real_of(p) - real_of(p)) <= 0real && size(real_of(q) - real_of(q)) <= 0real && size(
        real_of(r) - real_of(r),
    ) <= 0real && size(real_of(s) - real_of(s)) <= 0real) by {
        reveal(size);
    }
    let e = 1real / 20000real;
    lemma_mixed(p, q, fx, real_of(p), real_of(q), f, 0real, e);
    lemma_mixed(r, s, fx, real_of(r), real_of(s), f, 0real, e);
    let top = mixed(p, q, fx);
    let low = mixed(r, s, fx);
    let x0 = part_way(real_of(p), real_of(q), f);
    let y0 = part_way(real_of(r), real_of(s), f);
    lemma_mixed(top, low, fy, x0, y0, g, 1real / 3000real, e);
    lemma_doubled(mixed(top, low, fy), part_way(x0, y0, g));
}

/// The noise at a place mixes the four points of its field around the place, across by how
/// far it lies across its cell and down by how far it lies down it, from minus one to one.
#[verifier::spinoff_prover]
pub proof fn noise_mixes_the_points_around(
    x: Single,
    y: Single,
    cell: Single,
    salt: int,
    n: int,
    m: int,
)
    requires
        x.quotient(cell).finite() && size(real_of(x.quotient(cell))) <= 1000000real,
        y.quotient(cell).finite() && size(real_of(y.quotient(cell))) <= 1000000real,
        n as real <= real_of(x.quotient(cell)) < n as real + 1real,
        m as real <= real_of(y.quotient(cell)) < m as real + 1real,
    ensures
        ({
            let (i, j) = (n + salt * 131, m - salt * 37);
            let f = smooth_step(real_of(x.quotient(cell)) - n as real);
            let g = smooth_step(real_of(y.quotient(cell)) - m as real);
            let top = part_way(real_of(field_value(i, j)), real_of(field_value(i + 1, j)), f);
            let low = part_way(real_of(field_value(i, j + 1)), real_of(field_value(i + 1, j + 1)), f);
            within(
                noise(x, y, cell, salt),
                2real * part_way(top, low, g) - 1real,
                1real / 50real,
            )
        }),
{
    let (a, b) = (x.quotient(cell), y.quotient(cell));
    let (u, v) = (real_of(a), real_of(b));
    lemma_fraction(a);
    lemma_fraction(b);
    lemma_floor(a);
    lemma_floor(b);
    assert(n == a.floored().cast(i32::MIN as int, i32::MAX as int));
    assert(m == b.floored().cast(i32::MIN as int, i32::MAX as int));
    let (i, j) = (n + salt * 131, m - salt * 37);
    let fx = eased(a.difference(a.floored()));
    let fy = eased(b.difference(b.floored()));
    lemma_eased(a.difference(a.floored()), u - n as real);
    lemma_eased(b.difference(b.floored()), v - m as real);
    lemma_field(i, j);
    lemma_field(i + 1, j);
    lemma_field(i, j + 1);
    lemma_field(i + 1, j + 1);
    lemma_four(
        field_value(i, j),
        field_value(i + 1, j),
        field_value(i, j + 1),
        field_value(i + 1, j + 1),
        fx,
        fy,
        smooth_step(u - n as real),
        smooth_step(v - m as real),
    );
}

proof fn lemma_doubled(a: Single, w: real)
    requires
        a.finite(),
        0real <= w <= 1real,
        size(real_of(a) - w) <= 1real / 150real,
    ensures
        within(a.product(num(TWO)).difference(num(ONE)), 2real * w - 1real, 1real / 50real),
{
    lemma_ends();
    lemma_half_and_two();
    let x = real_of(a);
    assert(size(x) <= 2real && size(2real) == 2real) by {
        reveal(size);
    }
    lemma_size_of_both(x, 2real);
    lemma_rounded_product(a, num(TWO));
    let p = a.product(num(TWO));
    assert(size(real_of(p) - 2real * x) <= 1real / 1000000real) by {
        assert(x * 2real == 2real * x);
    }
    assert(size(real_of(p) - 1real) <= 6real) by {
        reveal(size);
    }
    lemma_rounded_difference(p, num(ONE));
    reveal(size);
}

/// The scale of a raster is the short side of its film by its own short side; a raster that
/// is no smaller than its film is the film.
pub proof fn a_scale_compares_the_short_sides(film: u32, w: int, h: int)
    requires
        0 < w <= 0x1_0000_0000,
        0 < h <= 0x1_0000_0000,
    ensures
        ({
            let short = if w <= h {
                w
            } else {
                h
            };
            let f = film_factor(Some(film), w, h);
            &&& film_factor(None, w, h) == num(ONE)
            &&& film <= short ==> f == num(ONE)
            &&& film > short && short <= 1000000 ==> f.finite() && size(
                real_of(f) * (short as real) - film as real,
            ) <= (film as real) / 1000000real
        }),
{
    let short = if w <= h {
        w
    } else {
        h
    };
    if film > short && short <= 1000000 {
        lemma_whole_real(film as int);
        lemma_whole_real(short);
        let (a, b) = (Single::of_whole(film as int), Single::of_whole(short));
        let (x, y) = (real_of(a), real_of(b));
        let (f, s) = (film as real, short as real);
        assert(size(f) == f && size(s) == s) by {
            reveal(size);
        }
        assert(size(y) >= 1real / 2real && size(y) <= 2000000real && size(x) <= 5000000000real
            && size(x) <= 2real * f) by {
            reveal(size);
        }
        lemma_back(a, b, 5000000000real, 1real / 2real);
        let q = real_of(a.quotient(b));
        // From the sides as they are told to the sides.
        let e = y - s;
        lemma_size_of_both(q, y);
        lemma_size_of_both(q, e);
        assert(size(q * y) <= 3real * f) by {
            lemma_size_of_sum(x, q * y - x);
            assert(x + (q * y - x) == q * y);
        }
        assert(size(e) <= size(y) / 8000000real) by {
            reveal(size);
        }
        lemma_bounds(size(q), size(e), size(q), size(y) / 8000000real);
        assert(size(q) * (size(y) / 8000000real) == (size(q) * size(y)) / 8000000real)
            by (nonlinear_arith);
        lemma_less(y, s, q);
        assert(size(q * s - q * y) == size(q * y - q * s)) by {
            reveal(size);
        }
        lemma_size_of_sum(q * s - q * y, q * y - x);
        assert((q * s - q * y) + (q * y - x) == q * s - x);
        lemma_size_of_sum(q * s - x, x - f);
        assert((q * s - x) + (x - f) == q * s - f);
    }
}

/// A boost is the gain on what a pixel has over its blurred surroundings and, where fine
/// detail counts, on what it has over the mean of its four neighbours.
pub proof fn a_boost_raises_what_stands_out(
    l: Single,
    blur: Single,
    near: Seq<Single>,
    fine: Single,
    gain: Single,
)
    requires
        shade(l) && shade(blur),
        near.len() == 4,
        shade(near[0]) && shade(near[1]) && shade(near[2]) && shade(near[3]),
        shade(fine),
        gain.finite() && size(real_of(gain)) <= 3real,
    ensures
        ({
            let mean = (real_of(near[0]) + real_of(near[1]) + real_of(near[2]) + real_of(near[3]))
                / 4real;
            let out = (real_of(l) - real_of(blur)) + real_of(fine) * (real_of(l) - mean);
            within(boosted(l, blur, near, fine, gain), real_of(gain) * out, 1real / 10000real)
        }),
{
    lemma_ends();
    lemma_small_numbers();
    let (x, b, f) = (real_of(l), real_of(blur), real_of(fine));
    let (p, q, r, s) = (real_of(near[0]), real_of(near[1]), real_of(near[2]), real_of(near[3]));
    let mean = (p + q + r + s) / 4real;
    assert(size(x - b) <= 1real && size(x - mean) <= 1real && size(f) <= 1real) by {
        reveal(size);
    }
    lemma_rounded_difference(l, blur);
    let coarse = l.difference(blur);
    let c = real_of(coarse);
    lemma_mean_of_four(near);
    let m = num(QUARTER).product(near[0].sum(near[1]).sum(near[2]).sum(near[3]));
    assert(size(x - real_of(m)) <= 2real) by {
        reveal(size);
    }
    lemma_rounded_difference(l, m);
    let d = l.difference(m);
    assert(size(real_of(d) - (x - mean)) <= 2real / 1000000real) by {
        reveal(size);
    }
    assert(size(f - f) <= 0real) by {
        reveal(size);
    }
    lemma_close_product(fine, d, f, x - mean, 0real, 2real / 1000000real);
    let g = fine.product(d);
    let want = f * (x - mean);
    lemma_size_of_both(f, x - mean);
    lemma_bounds(size(f), size(x - mean), 1real, 1real);
    let out = (x - b) + want;
    lemma_order_real(num(ZERO), fine);
    let signal = if num(ZERO).less(fine) {
        coarse.sum(g)
    } else {
        coarse
    };
    assert(signal.finite() && size(real_of(signal) - out) <= 1real / 100000real) by {
        if num(ZERO).less(fine) {
            assert(size(c + real_of(g)) <= 3real) by {
                reveal(size);
            }
            lemma_rounded_sum(coarse, g);
            reveal(size);
        } else {
            assert(f == 0real);
            assert(0real * (x - mean) == 0real);
            reveal(size);
        }
    }
    lemma_size_of_sum(x - b, want);
    let k = real_of(gain);
    assert(size(k - k) <= 0real) by {
        reveal(size);
    }
    lemma_product_near(gain, signal, k, out, 0real, 1real / 100000real);
}

proof fn lemma_mean_of_four(near: Seq<Single>)
    requires
        near.len() == 4,
        shade(near[0]) && shade(near[1]) && shade(near[2]) && shade(near[3]),
    ensures
        within(
            num(QUARTER).product(near[0].sum(near[1]).sum(near[2]).sum(near[3])),
            (real_of(near[0]) + real_of(near[1]) + real_of(near[2]) + real_of(near[3])) / 4real,
            1real / 1000000real,
        ),
{
    lemma_small_numbers();
    let (p, q, r, s) = (real_of(near[0]), real_of(near[1]), real_of(near[2]), real_of(near[3]));
    assert(size(p + q) <= 2real) by {
        reveal(size);
    }
    lemma_rounded_sum(near[0], near[1]);
    let a = near[0].sum(near[1]);
    assert(size(real_of(a) + r) <= 4real && size(real_of(a) - (p + q)) <= 1real / 8000000real) by {
        reveal(size);
    }
    lemma_rounded_sum(a, near[2]);
    let b = a.sum(near[2]);
    assert(size(real_of(b) - (p + q + r)) <= 3real / 8000000real && size(real_of(b) + s) <= 5real) by {
        reveal(size);
    }
    lemma_rounded_sum(b, near[3]);
    let c = b.sum(near[3]);
    assert(size(real_of(c) - (p + q + r + s)) <= 6real / 8000000real && size(real_of(c)) <= 5real) by {
        reveal(size);
    }
    let z = real_of(c);
    lemma_size_of_both(1real / 4real, z);
    assert(size(1real / 4real) == 1real / 4real) by {
        reveal(size);
    }
    lemma_rounded_product(num(QUARTER), c);
    assert((1real / 4real) * z == z / 4real);
    reveal(size);
}

/// The reach of a vignette that is no circle is told by half the sides of its frame: from
/// the middle of the frame to the place, across by half the width and down by half the
/// height.
pub proof fn a_vignette_reaches_by_half_sides(v: Vignette, rect: CropRect, x: Single, y: Single)
    requires
        real_of(v.circle) == 0real && v.circle.finite(),
        rect.x0.finite() && size(real_of(rect.x0)) <= 60000real,
        rect.y0.finite() && size(real_of(rect.y0)) <= 60000real,
        rect.w.finite() && 1real <= real_of(rect.w) <= 60000real,
        rect.h.finite() && 1real <= real_of(rect.h) <= 60000real,
        x.finite() && size(real_of(x)) <= 60000real,
        y.finite() && size(real_of(y)) <= 60000real,
    ensures
        ({
            let (a, b) = v.offsets(rect, x, y);
            let (ax, ay) = (real_of(rect.w) / 2real, real_of(rect.h) / 2real);
            &&& a.finite() && b.finite()
            &&& size(real_of(a) * ax - size(real_of(x) - (real_of(rect.x0) + ax))) <= 1real / 5real
            &&& size(real_of(b) * ay - size(real_of(y) - (real_of(rect.y0) + ay))) <= 1real / 5real
        }),
{
    lemma_ends();
    lemma_order_real(num(ZERO), v.circle);
    lemma_half_side(rect.x0, rect.w, x);
    lemma_half_side(rect.y0, rect.h, y);
}

proof fn lemma_half_side(o: Single, w: Single, x: Single)
    requires
        o.finite() && size(real_of(o)) <= 60000real,
        w.finite() && 1real <= real_of(w) <= 60000real,
        x.finite() && size(real_of(x)) <= 60000real,
    ensures
        ({
            let half = w.product(num(HALF));
            let a = x.difference(o.sum(half)).quotient(half.larger(num(ONE_THOUSANDTH))).absolute();
            let ax = real_of(w) / 2real;
            &&& a.finite()
            &&& size(real_of(a) * ax - size(real_of(x) - (real_of(o) + ax))) <= 1real / 5real
        }),
{
    lemma_half_and_two();
    lemma_thousandth();
    let (p, k, z) = (real_of(o), real_of(w), real_of(x));
    let ax = k / 2real;
    assert(size(k * (1real / 2real)) == ax && k * (1real / 2real) == ax) by {
        reveal(size);
    }
    lemma_rounded_product(w, num(HALF));
    let half = w.product(num(HALF));
    let h = real_of(half);
    assert(size(h - ax) <= ax / 16000000real && h >= 4real / 10real && h <= 31000real && size(h) == h) by {
        reveal(size);
    }
    lemma_order_real(half, num(ONE_THOUSANDTH));
    assert(half.larger(num(ONE_THOUSANDTH)) == half);
    assert(size(p + h) <= 100000real) by {
        reveal(size);
    }
    lemma_rounded_sum(o, half);
    let c = o.sum(half);
    assert(size(z - real_of(c)) <= 200000real) by {
        reveal(size);
    }
    lemma_rounded_difference(x, c);
    let d = x.difference(c);
    let want = z - (p + ax);
    assert(size(real_of(d) - want) <= 3real / 100real && size(real_of(d)) <= 200001real) by {
        reveal(size);
    }
    lemma_back(d, half, 200001real, 4real / 10real);
    let q = d.quotient(half);
    lemma_absolute(q);
    let y = real_of(q);
    lemma_size_of_both(y, h);
    // The quotient by the half side as it is told, and as it is.
    lemma_size_of_both(y, h - ax);
    assert(size(y * h) <= 200002real) by {
        lemma_size_of_sum(real_of(d), y * h - real_of(d));
        assert(real_of(d) + (y * h - real_of(d)) == y * h);
    }
    assert(size(h - ax) <= h / 15000000real) by {
        reveal(size);
    }
    lemma_bounds(size(y), size(h - ax), size(y), h / 15000000real);
    assert(size(y) * (h / 15000000real) == (size(y) * h) / 15000000real) by (nonlinear_arith);
    lemma_less(h, ax, y);
    assert(size(y) * ax == size(y * ax)) by {
        lemma_size_of_both(y, ax);
        assert(size(ax) == ax) by {
            reveal(size);
        }
    }
    assert(size(y * ax - want) <= 1real / 10real) by {
        reveal(size);
    }
    assert(size(size(y * ax) - size(want)) <= size(y * ax - want)) by {
        reveal(size);
    }
}

proof fn lemma_thousandth()
    ensures
        num(ONE_THOUSANDTH).finite() && real_of(num(ONE_THOUSANDTH)) <= 1real / 500real,
{
    lemma_finish_numbers();
}

} // verus!
