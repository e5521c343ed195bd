//! How much of a pixel a painted mask covers.

use vstd::prelude::*;
use vstd::arithmetic::div_mod::{lemma_fundamental_div_mod, lemma_mod_bound};
use vstd::arithmetic::power2::{lemma_pow2_pos, pow2};
use crate::exact::{code_of, lemma_round_representable};
use crate::mending::lemma_int;
use crate::mixing::unit;
use crate::numbers::{HALF, ONE, ZERO};
use crate::reals::{lemma_ends, lemma_magnitude_real, real_of, size, size_is_not_below, within};
use crate::rounding::lemma_with_sign;
use crate::single::{lemma_codes_order, magnitude, num, Single};
use crate::spots::CoverageView;
use crate::stamping::{lemma_below_nothing, lemma_half_and_two, lemma_held, lemma_nought};
use crate::wayback::{
    lemma_bounds, lemma_over, lemma_quotient_sound, lemma_rounded_difference,
    lemma_rounded_product, lemma_rounded_quotient, lemma_rounded_sum, lemma_size_of_both, rounding,
    tiny,
};
use crate::whole::{size_ceiling, size_floor};

verus! {

broadcast use size_is_not_below;

/// A whole number is what it says.
pub proof fn lemma_int_real(n: int)
    requires
        -0xFF_FFFF <= n <= 0xFF_FFFF,
    ensures
        Single::of_int(n).finite(),
        real_of(Single::of_int(n)) == n as real,
        n >= 0 ==> Single::of_int(n) == Single::of_whole(n),
{
    lemma_int(n);
    lemma_pow2_pos(149);
    let u = pow2(149) as real;
    assert(((n * unit()) as real) / u == n as real) by (nonlinear_arith)
        requires
            u == unit() as real,
            u > 0real,
    ;
}

/// The whole number below a value.
pub proof fn lemma_floor(v: Single)
    requires
        v.finite(),
        size(real_of(v)) <= 4000000real,
    ensures
        ({
            let n = v.floored().cast(i32::MIN as int, i32::MAX as int);
            n as real <= real_of(v) && real_of(v) < n as real + 1real
        }),
        v.floored().finite(),
        real_of(v.floored()) == v.floored().cast(i32::MIN as int, i32::MAX as int) as real,
{
    reveal(Single::floored);
    reveal(size);
    lemma_magnitude_real(v);
    lemma_pow2_pos(149);
    lemma_codes_order(v.code(), 0);
    lemma_nought();
    let u = pow2(149) as int;
    let ur = u as real;
    let m = magnitude(v.code());
    let mr = m as real;
    lemma_below_nothing(m);
    let x = mr / ur;
    lemma_over(mr, ur);
    let k = m / u;
    lemma_fundamental_div_mod(m, u);
    lemma_mod_bound(m, u);
    assert(u * k == k * u) by (nonlinear_arith);
    assert((k + 1) * u == k * u + u) by (nonlinear_arith);
    let n = if v.negative() {
        size_ceiling(v)
    } else {
        size_floor(v)
    };
    let nr = n as real;
    let below = v.negative();
    assert(below ==> m <= n * u && n * u < m + u);
    assert(!below ==> n * u <= m && m < n * u + u);
    assert(below ==> mr <= nr * ur && nr * ur < mr + ur) by (nonlinear_arith)
        requires
            below ==> m <= n * u && n * u < m + u,
            mr == m as real,
            nr == n as real,
            ur == u as real,
    ;
    assert(!below ==> nr * ur <= mr && mr < nr * ur + ur) by (nonlinear_arith)
        requires
            !below ==> n * u <= m && m < n * u + u,
            mr == m as real,
            nr == n as real,
            ur == u as real,
    ;
    assert(below ==> x <= nr && nr < x + 1real) by (nonlinear_arith)
        requires
            below ==> mr <= nr * ur && nr * ur < mr + ur,
            mr == x * ur,
            ur > 0real,
    ;
    assert(!below ==> nr <= x && x < nr + 1real) by (nonlinear_arith)
        requires
            !below ==> nr * ur <= mr && mr < nr * ur + ur,
            mr == x * ur,
            ur > 0real,
    ;
    assert(-1 < n <= 4000001);
    lemma_round_representable(n, 149);
    lemma_with_sign(below, code_of(n, 149));
    let w = v.floored();
    assert(magnitude(w.code()) == n * u);
    assert((n * u) / u == n) by (nonlinear_arith)
        requires
            u > 0,
    ;
    lemma_magnitude_real(w);
    assert(((n * u) as real) / ur == nr) by (nonlinear_arith)
        requires
            nr == n as real,
            ur == u as real,
            ur > 0real,
    ;
}

/// The middle of a pixel as a part of its side.
pub open spec fn middle_of(x: int, n: int) -> Single {
    Single::of_int(x).sum(num(HALF)).quotient(Single::of_whole(n))
}

/// A part of a mask's side, in the mask's pixels.
spec fn told_across(v: Single, n: int) -> Single {
    v.clamped(num(ZERO), num(ONE)).product(Single::of_whole(n)).difference(num(HALF))
}

proof fn lemma_middle(x: int, n: int)
    requires
        0 <= x < n <= 0x8000,
    ensures
        middle_of(x, n).finite(),
        size(real_of(middle_of(x, n)) - (x as real + 1real / 2real) / (n as real)) <= 1real / 7000000real,
        0real <= (x as real + 1real / 2real) / (n as real) <= 1real,
{
    lemma_int_real(x);
    lemma_int_real(n);
    lemma_half_and_two();
    let k = n as real;
    let want = x as real + 1real / 2real;
    assert(size(want) == want) by {
        reveal(size);
    }
    lemma_rounded_sum(Single::of_int(x), num(HALF));
    let top = Single::of_int(x).sum(num(HALF));
    let s = real_of(top);
    assert(size(s - want) <= k / 16000000real && size(s) <= 40000real) by {
        reveal(size);
    }
    assert(size(k) == k) by {
        reveal(size);
    }
    lemma_quotient_sound(s, k, 1real, 40000real);
    lemma_rounded_quotient(top, Single::of_whole(n));
    lemma_over(s, k);
    lemma_over(want, k);
    let (y, e) = (s / k, want / k);
    assert((y - e) * k == s - want) by (nonlinear_arith)
        requires
            y * k == s,
            e * k == want,
    ;
    lemma_size_of_both(y - e, k);
    assert(size(y - e) <= 1real / 16000000real) by (nonlinear_arith)
        requires
            size(y - e) * k <= k / 16000000real,
            k > 0real,
    ;
    assert(0real <= e <= 1real) by (nonlinear_arith)
        requires
            e * k == want,
            0real <= want <= k,
            k > 0real,
    ;
    assert(size(real_of(middle_of(x, n)) - e) <= 1real / 7000000real) by {
        reveal(size);
    }
}

proof fn lemma_told_across(x: int, n: int)
    requires
        0 <= x < n <= 0x8000,
    ensures
        ({
            let v = told_across(middle_of(x, n), n);
            v.finite() && size(real_of(v) - x as real) <= (n as real) / 3000000real
        }),
{
    lemma_middle(x, n);
    lemma_ends();
    lemma_half_and_two();
    lemma_int_real(n);
    let m = middle_of(x, n);
    lemma_held(m, num(ZERO), num(ONE));
    let c = m.clamped(num(ZERO), num(ONE));
    let k = n as real;
    let want = x as real + 1real / 2real;
    let e = want / k;
    lemma_over(want, k);
    let y = real_of(c);
    assert(size(y - e) <= 1real / 7000000real && 0real <= y <= 1real) by {
        reveal(size);
    }
    assert((y - e) * k == y * k - want) by (nonlinear_arith)
        requires
            e * k == want,
    ;
    lemma_size_of_both(y - e, k);
    assert(size(k) == k && size(y) == y) by {
        reveal(size);
    }
    lemma_bounds(size(y - e), k, 1real / 7000000real, k);
    lemma_size_of_both(y, k);
    lemma_bounds(size(y), k, 1real, k);
    lemma_rounded_product(c, Single::of_whole(n));
    let p = c.product(Single::of_whole(n));
    assert(size(real_of(p) - want) <= k / 7000000real + k / 16777000real + tiny()) by {
        reveal(size);
    }
    assert(size(real_of(p) - 1real / 2real) <= k + 1real) by {
        reveal(size);
    }
    lemma_rounded_difference(p, num(HALF));
    assert(size(real_of(told_across(m, n)) - x as real) <= k / 3000000real) by {
        reveal(size);
    }
}

/// The two pixels that a place lies between, and how near it is to the second.
proof fn lemma_between_pixels(v: Single, x: int, e: real)
    requires
        v.finite(),
        0 <= x <= 0x8000,
        size(real_of(v) - x as real) <= e <= 1real / 50real,
    ensures
        ({
            let n = v.floored().cast(i32::MIN as int, i32::MAX as int);
            let f = v.difference(Single::of_int(n));
            let g = num(ONE).difference(f);
            let t = e + 1real / 4000000real;
            &&& f.finite() && g.finite()
            &&& (n == x && size(real_of(f)) <= t && size(real_of(g) - 1real) <= t) || (n + 1 == x && size(
                real_of(f) - 1real,
            ) <= t && size(real_of(g)) <= t)
        }),
{
    reveal(size);
    lemma_floor(v);
    lemma_ends();
    let n = v.floored().cast(i32::MIN as int, i32::MAX as int);
    assert(n == x || n + 1 == x);
    lemma_int_real(n);
    lemma_rounded_difference(v, Single::of_int(n));
    let f = v.difference(Single::of_int(n));
    lemma_rounded_difference(num(ONE), f);
}

/// Two values blended where only one of them counts.
proof fn lemma_blended(p: Single, q: Single, f: Single, g: Single, want: real, far: real, t: real)
    requires
        p.finite() && q.finite() && f.finite() && g.finite(),
        size(real_of(p)) <= 2real,
        size(real_of(q)) <= 2real,
        0real <= want <= 1real,
        0real <= far <= 1real / 10real,
        0real <= t <= 1real / 40real,
        ({
            ||| size(real_of(f)) <= t && size(real_of(g) - 1real) <= t && size(real_of(p) - want) <= far
            ||| size(real_of(f) - 1real) <= t && size(real_of(g)) <= t && size(real_of(q) - want) <= far
        }),
    ensures
        within(p.product(g).sum(q.product(f)), want, far + 4real * t + 1real / 1000000real),
{
    let (a, b, c, d) = (real_of(p), real_of(q), real_of(f), real_of(g));
    assert(size(c) <= 2real && size(d) <= 2real) by {
        reveal(size);
    }
    lemma_size_of_both(a, d);
    lemma_size_of_both(b, c);
    lemma_bounds(size(a), size(d), 2real, 2real);
    lemma_bounds(size(b), size(c), 2real, 2real);
    lemma_rounded_product(p, g);
    lemma_rounded_product(q, f);
    let (x, y) = (p.product(g), q.product(f));
    assert(size(real_of(x) - a * d) <= 1real / 4000000real && size(real_of(y) - b * c) <= 1real
        / 4000000real);
    assert(size(real_of(x) + real_of(y)) <= 9real) by {
        reveal(size);
    }
    lemma_rounded_sum(x, y);
    lemma_rest_of_blend(a, b, c, d, want, far, t);
    assert(size(real_of(x.sum(y)) - want) <= far + 4real * t + 1real / 1000000real) by {
        reveal(size);
    }
}

proof fn lemma_rest_of_blend(a: real, b: real, c: real, d: real, want: real, far: real, t: real)
    requires
        size(a) <= 2real,
        size(b) <= 2real,
        ({
            ||| size(c) <= t && size(d - 1real) <= t && size(a - want) <= far
            ||| size(c - 1real) <= t && size(d) <= t && size(b - want) <= far
        }),
    ensures
        size(a * d + b * c - want) <= far + 4real * t,
{
    lemma_size_of_both(a, d - 1real);
    lemma_size_of_both(a, d);
    lemma_size_of_both(b, c - 1real);
    lemma_size_of_both(b, c);
    assert(a * (d - 1real) == a * d - a) by (nonlinear_arith);
    assert(b * (c - 1real) == b * c - b) by (nonlinear_arith);
    if size(c) <= t && size(d - 1real) <= t && size(a - want) <= far {
        lemma_bounds(size(a), size(d - 1real), 2real, t);
        lemma_bounds(size(b), size(c), 2real, t);
        assert(size(a * d + b * c - want) <= far + 4real * t) by {
            reveal(size);
        }
    } else {
        lemma_bounds(size(b), size(c - 1real), 2real, t);
        lemma_bounds(size(a), size(d), 2real, t);
        assert(size(a * d + b * c - want) <= far + 4real * t) by {
            reveal(size);
        }
    }
}

/// At the size that it was painted at, a mask covers a painted pixel whole and one that is
/// not painted not at all, but for what rounding leaves.
pub proof fn a_mask_covers_what_is_painted(c: CoverageView, x: int, y: int)
    requires
        0 <= x < c.mask_width <= 0x8000,
        0 <= y < c.mask_height <= 0x8000,
    ensures
        ({
            let a = c.alpha_at(middle_of(x, c.mask_width as int), middle_of(y, c.mask_height as int));
            let painted = c.x <= x < c.x + c.width && c.y <= y < c.y + c.height && c.bits[(y - c.y)
                * c.width + (x - c.x)];
            let t = ((c.mask_width + c.mask_height) as real) / 500000real + 1real / 100000real;
            &&& a.finite() && 0real <= real_of(a) <= 1real
            &&& painted ==> real_of(a) >= 1real - t
            &&& !painted ==> real_of(a) <= t
        }),
{
    let (w, h) = (c.mask_width as int, c.mask_height as int);
    let (nx, ny) = (middle_of(x, w), middle_of(y, h));
    let (vx, vy) = (told_across(nx, w), told_across(ny, h));
    lemma_told_across(x, w);
    lemma_told_across(y, h);
    lemma_ends();
    let (ex, ey) = ((w as real) / 3000000real, (h as real) / 3000000real);
    lemma_between_pixels(vx, x, ex);
    lemma_between_pixels(vy, y, ey);
    let x0 = vx.floored().cast(i32::MIN as int, i32::MAX as int);
    let y0 = vy.floored().cast(i32::MIN as int, i32::MAX as int);
    let fx = vx.difference(Single::of_int(x0));
    let fy = vy.difference(Single::of_int(y0));
    let gx = num(ONE).difference(fx);
    let gy = num(ONE).difference(fy);
    let (tx, ty) = (ex + 1real / 4000000real, ey + 1real / 4000000real);
    assert(size(0real) == 0real && size(1real) == 1real) by {
        reveal(size);
    }
    let over = real_of(c.pixel(x, y0));
    let under = real_of(c.pixel(x, y0 + 1));
    let top = c.pixel(x0, y0).product(gx).sum(c.pixel(x0 + 1, y0).product(fx));
    let low = c.pixel(x0, y0 + 1).product(gx).sum(c.pixel(x0 + 1, y0 + 1).product(fx));
    lemma_blended(c.pixel(x0, y0), c.pixel(x0 + 1, y0), fx, gx, over, 0real, tx);
    lemma_blended(c.pixel(x0, y0 + 1), c.pixel(x0 + 1, y0 + 1), fx, gx, under, 0real, tx);
    let far = 4real * tx + 1real / 1000000real;
    assert(size(real_of(top)) <= 2real && size(real_of(low)) <= 2real) by {
        reveal(size);
    }
    let want = real_of(c.pixel(x, y));
    lemma_blended(top, low, fy, gy, want, far, ty);
    let all = top.product(gy).sum(low.product(fy));
    lemma_held(all, num(ZERO), num(ONE));
    assert(c.alpha_at(nx, ny) == all.clamped(num(ZERO), num(ONE)));
    reveal(size);
}

} // verus!
