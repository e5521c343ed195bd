//! The disk of a planned spot holds what was painted.

use vstd::prelude::*;
use vstd::arithmetic::div_mod::{lemma_fundamental_div_mod, lemma_mod_bound};
use vstd::arithmetic::power2::{
    lemma2_to64, lemma2_to64_rest, lemma_pow2_adds, lemma_pow2_pos, pow2,
};
use crate::blobs::{column, distance, is_reach, middle, one, reach, row, tally};
use crate::cofactors::lemma_less;
use crate::double::{
    double_digits, lemma_digits, lemma_mean_is_finite, places, through_double,
};
use crate::numbers::{ELEVEN_TENTHS, TWO, ZERO};
use crate::painted::{healed_radius, spot_of};
use crate::placing::lemma_whole_real;
use crate::reals::{
    lemma_ends, lemma_gap, lemma_magnitude_real, lemma_order_real, lemma_real_of_digits, real_of,
    size, size_is_not_below,
};
use crate::regions::{joined, linked, region};
use crate::rounding::{
    lemma_product_is_number, lemma_round_exists, lemma_round_monotone, lemma_sum_is_number,
    lemma_with_sign,
};
use crate::single::{lemma_codes_order, magnitude, num, round_to_code, Single, INFINITE};
use crate::wayback::{
    lemma_bounds, lemma_over, lemma_rounded_difference, lemma_rounded_product,
    lemma_rounded_quotient, lemma_rounded_sum, lemma_size_of_both, lemma_size_of_sum, rounding,
    sound, tiny,
};
use crate::whole::{lemma_root_exists, nearest_root, root_to_code};

verus! {

broadcast use size_is_not_below;

/// What a root says of its square, among the real numbers.
pub proof fn lemma_root_real(v: Single)
    requires
        v.finite(),
        !v.negative(),
        real_of(v) <= 100000000000000000000real,
    ensures
        v.root().finite(),
        !v.root().negative(),
        real_of(v.root()) >= 0real,
        ({
            let r = (10001real / 10000real) * real_of(v.root()) + 1real / 1000000000000000000000000000000real;
            real_of(v) <= r * r
        }),
{
    reveal(Single::root);
    lemma_magnitude_real(v);
    lemma_pow2_pos(149);
    let u = pow2(149) as real;
    let tiny_part = 1real / 1000000000000000000000000000000real;
    assert(magnitude(0) == 0);
    if v.zero() {
        assert(0real / u == 0real) by (nonlinear_arith)
            requires
                u > 0real,
        ;
        lemma_magnitude_real(v.root());
        assert(tiny_part * tiny_part >= 0real) by (nonlinear_arith);
    } else {
        lemma_codes_order(v.code(), 0);
        let n = magnitude(v.code()) * pow2(149);
        assert(n >= 0) by (nonlinear_arith)
            requires
                n == magnitude(v.code()) * pow2(149),
                magnitude(v.code()) >= 0,
                pow2(149) > 0,
        ;
        lemma_root_exists(n);
        let c = root_to_code(n);
        lemma_with_sign(false, c);
        lemma_root_small(v, n, c);
        let m = magnitude(c);
        lemma_codes_order(c, 0);
        lemma_gap(c);
        let g = magnitude(c + 1) - m;
        let mid = m + magnitude(c + 1);
        assert(4 * n <= mid * mid);
        let (mr, gr, nr) = (m as real, g as real, n as real);
        let (x, y) = (mr / u, gr / u);
        lemma_over(mr, u);
        lemma_over(gr, u);
        assert(y * 8388608real <= x || y * u == 1real) by {
            if g * 0x80_0000 <= m {
                assert(y * 8388608real <= x) by (nonlinear_arith)
                    requires
                        x * u == mr,
                        y * u == gr,
                        gr * 8388608real <= mr,
                        u > 0real,
                ;
            }
        }
        lemma2_to64();
        lemma_pow2_adds(64, 64);
        lemma_pow2_adds(21, 128);
        assert(pow2(128) == 0x1_0000_0000_0000_0000 * 0x1_0000_0000_0000_0000);
        assert(u >= 1000000000000000000000000000000real);
        assert(x >= 0real) by (nonlinear_arith)
            requires
                x * u == mr,
                mr >= 0real,
                u > 0real,
        ;
        let r = (10001real / 10000real) * x + tiny_part;
        let z = x + y / 2real;
        assert(y <= tiny_part || y * 8388608real <= x) by {
            if y * u == 1real && y > tiny_part {
                assert(y * u > 1real) by (nonlinear_arith)
                    requires
                        y > tiny_part,
                        u >= 1000000000000000000000000000000real,
                        tiny_part == 1real / 1000000000000000000000000000000real,
                ;
            }
        }
        assert(0real <= z <= r) by {
            assert(y >= 0real) by (nonlinear_arith)
                requires
                    y * u == gr,
                    gr >= 0real,
                    u > 0real,
            ;
        }
        lemma_bounds(z, z, r, r);
        // The square of the middle of two neighbours, in parts of a unit.
        assert((2real * z) * u == mid as real) by (nonlinear_arith)
            requires
                z == x + y / 2real,
                x * u == mr,
                y * u == gr,
                mid as real == 2real * mr + gr,
        ;
        let vr = real_of(v);
        lemma_over(magnitude(v.code()) as real, u);
        assert((vr * u) * u == nr) by (nonlinear_arith)
            requires
                vr * u == magnitude(v.code()) as real,
                nr == (magnitude(v.code()) * pow2(149)) as real,
                u == pow2(149) as real,
        ;
        assert((mid * mid) as real == ((2real * z) * u) * ((2real * z) * u)) by (nonlinear_arith)
            requires
                (2real * z) * u == mid as real,
        ;
        assert(4real * ((vr * u) * u) <= ((2real * z) * u) * ((2real * z) * u));
        assert(vr <= z * z) by (nonlinear_arith)
            requires
                4real * ((vr * u) * u) <= ((2real * z) * u) * ((2real * z) * u),
                u > 0real,
        {
            let s = u * u;
            assert(s > 0real) by (nonlinear_arith)
                requires
                    s == u * u,
                    u > 0real,
            ;
            assert((vr * u) * u == vr * s) by (nonlinear_arith)
                requires
                    s == u * u,
            ;
            assert(((2real * z) * u) * ((2real * z) * u) == (4real * (z * z)) * s)
                by (nonlinear_arith)
                requires
                    s == u * u,
            ;
            assert(vr <= z * z) by (nonlinear_arith)
                requires
                    4real * (vr * s) <= (4real * (z * z)) * s,
                    s > 0real,
            ;
        }
        lemma_magnitude_real(v.root());
    }
}

/// The root of a number that is not too large is not.
proof fn lemma_root_small(v: Single, n: int, c: int)
    requires
        v.finite(),
        v.code() > 0,
        n == magnitude(v.code()) * pow2(149),
        nearest_root(n, c),
        0 <= c <= INFINITE,
    ensures
        c < INFINITE,
{
    if c == INFINITE {
        let u = pow2(149) as int;
        lemma_pow2_pos(149);
        lemma_codes_order(v.code(), INFINITE as int);
        let m = magnitude(v.code());
        let g = magnitude(INFINITE as int);
        let mid = magnitude(c - 1) + magnitude(c);
        lemma_codes_order(c - 1, 0);
        lemma_codes_order(v.code(), 0);
        let i: int = INFINITE as int;
        assert(i / 0x80_0000 == 255 && i % 0x80_0000 == 0);
        lemma_pow2_adds(149, 105);
        lemma_pow2_pos(105);
        assert(g >= 4 * u) by (nonlinear_arith)
            requires
                g == 0x80_0000 * pow2(254),
                pow2(254) == u * pow2(105),
                pow2(105) >= 1,
                u > 0,
        ;
        assert(mid * mid >= g * g) by (nonlinear_arith)
            requires
                mid >= g,
                g >= 0,
        ;
        assert(g * g >= 4 * u * g) by (nonlinear_arith)
            requires
                g >= 4 * u,
                g >= 0,
        ;
        assert(4 * u * g > 4 * n) by (nonlinear_arith)
            requires
                n == m * u,
                m < g,
                u > 0,
        ;
    }
}

/// The sum of what is at most `b` on a set is at most `b` for each member.
proof fn lemma_tally_bound(r: Set<int>, f: spec_fn(int) -> int, b: int, n: nat)
    requires
        forall|j: int| #[trigger] r.contains(j) ==> 0 <= f(j) <= b,
        b >= 0,
    ensures
        0 <= tally(r, f, n) <= b * tally(r, one(), n),
        0 <= tally(r, one(), n) <= n,
    decreases n,
{
    if n == 0 {
        assert(b * 0 == 0);
    } else {
        lemma_tally_bound(r, f, b, (n - 1) as nat);
        let t = tally(r, one(), (n - 1) as nat);
        assert(b * (t + 1) == b * t + b) by (nonlinear_arith);
    }
}

proof fn lemma_tally_positive(r: Set<int>, i: int, n: nat)
    requires
        r.contains(i),
        0 <= i < n,
    ensures
        tally(r, one(), n) >= 1,
    decreases n,
{
    if i == n - 1 {
        lemma_tally_count(r, (n - 1) as nat);
    } else {
        lemma_tally_positive(r, i, (n - 1) as nat);
    }
}

proof fn lemma_tally_count(r: Set<int>, n: nat)
    ensures
        tally(r, one(), n) >= 0,
    decreases n,
{
    if n > 0 {
        lemma_tally_count(r, (n - 1) as nat);
    }
}

/// A mean of whole numbers below `w` is not above `w`.
proof fn lemma_mean_below(n: int, d: int, w: int)
    requires
        0 <= n <= (w - 1) * d,
        0 < d,
        1 <= w <= 0x20_0000,
    ensures
        through_double(n, d).finite(),
        0real <= real_of(through_double(n, d)) <= (1001real / 1000real) * (w as real),
{
    lemma2_to64();
    lemma2_to64_rest();
    assert(n < pow2(53) * d) by (nonlinear_arith)
        requires
            n <= (w - 1) * d,
            w <= 0x20_0000,
            pow2(53) == 0x20_0000_0000_0000,
            d > 0,
    ;
    lemma_mean_is_finite(n, d);
    reveal(through_double);
    reveal(Single::of_whole);
    let k = places(n, d, 0);
    let q = double_digits(n, d);
    lemma_digits(n, d);
    lemma_pow2_pos(k);
    lemma_pow2_pos((149 - k) as nat);
    lemma_pow2_adds(k, (149 - k) as nat);
    let p = pow2(k) as int;
    let x = n * p;
    assert(q <= w * p) by {
        lemma_fundamental_div_mod(x, d);
        let z = x / d;
        assert(z <= (w - 1) * p) by (nonlinear_arith)
            requires
                x == d * z + x % d,
                0 <= x % d,
                x == n * p,
                n <= (w - 1) * d,
                d > 0,
                p > 0,
        ;
        assert((w - 1) * p + p == w * p) by (nonlinear_arith);
    }
    let v = q * pow2((149 - k) as nat);
    assert(0 <= v <= w * pow2(149)) by (nonlinear_arith)
        requires
            v == q * pow2((149 - k) as nat),
            0 <= q <= w * p,
            pow2(149) == p * pow2((149 - k) as nat),
            pow2((149 - k) as nat) > 0,
    ;
    assert(w * pow2(149) >= 0);
    lemma_round_monotone(v, 1, w * pow2(149), 1);
    lemma_whole_real(w);
    let m = through_double(n, d);
    lemma_round_exists(v, 1);
    lemma_round_exists(w * pow2(149), 1);
    lemma_with_sign(false, round_to_code(v, 1));
    lemma_with_sign(false, round_to_code(w * pow2(149), 1));
    lemma_order_real(m, Single::of_whole(w));
    lemma_not_below(m);
    assert(size(w as real) == w as real) by {
        reveal(size);
    }
    assert(real_of(Single::of_whole(w)) <= (1001real / 1000real) * (w as real)) by {
        reveal(size);
    }
}

/// A region of a mask of fewer than two million pixels on a side.
spec fn ordinary(p: Seq<bool>, w: int, h: int, i: int) -> bool {
    &&& 0 < w <= 0x20_0000
    &&& 0 < h <= 0x20_0000
    &&& w * h <= u32::MAX
    &&& p.len() == w * h
    &&& 0 <= i < p.len()
    &&& p[i]
}

/// The pixels of a region lie in the mask.
proof fn lemma_in_mask(p: Seq<bool>, w: int, h: int, i: int, j: int)
    requires
        ordinary(p, w, h, i),
        region(p, w, i).contains(j),
    ensures
        0 <= j < w * h,
        0 <= j % w < w,
        0 <= j / w < h,
{
    let a = choose|a: nat| linked(p, w, i, j, a);
    lemma_mod_bound(j, w);
    lemma_fundamental_div_mod(j, w);
    assert(0 <= j / w < h) by (nonlinear_arith)
        requires
            j == w * (j / w) + j % w,
            0 <= j % w < w,
            0 <= j < w * h,
            w > 0,
    ;
}

/// The middle of a region lies in the mask.
proof fn lemma_middle(p: Seq<bool>, w: int, h: int, i: int)
    requires
        ordinary(p, w, h, i),
    ensures
        ({
            let r = region(p, w, i);
            let n = (w * h) as nat;
            let (x, y) = (middle(r, column(w), w, n), middle(r, row(w), w, n));
            &&& x.finite() && 0real <= real_of(x) <= (1001real / 1000real) * (w as real)
            &&& y.finite() && 0real <= real_of(y) <= (1001real / 1000real) * (h as real)
            &&& r.contains(i)
        }),
{
    let r = region(p, w, i);
    let n = (w * h) as nat;
    assert(linked(p, w, i, i, 0));
    assert(joined(p, w, i, i));
    assert forall|j: int| #[trigger] r.contains(j) implies 0 <= column(w)(j) <= w - 1 by {
        lemma_in_mask(p, w, h, i, j);
    }
    assert forall|j: int| #[trigger] r.contains(j) implies 0 <= row(w)(j) <= h - 1 by {
        lemma_in_mask(p, w, h, i, j);
    }
    lemma_tally_bound(r, column(w), w - 1, n);
    lemma_tally_bound(r, row(w), h - 1, n);
    lemma_tally_positive(r, i, n);
    let c = tally(r, one(), n);
    lemma2_to64_rest();
    assert((w - 1) * c < pow2(53) && (h - 1) * c < pow2(53)) by (nonlinear_arith)
        requires
            0 <= w - 1 < 0x20_0000,
            0 <= h - 1 < 0x20_0000,
            0 <= c <= 0xFFFF_FFFF,
            pow2(53) == 0x20_0000_0000_0000,
    ;
    lemma_mean_below(tally(r, column(w), n), c, w);
    lemma_mean_below(tally(r, row(w), n), c, h);
}

/// One difference of a pixel from the middle, and its square.
proof fn lemma_leg(x: int, c: Single, w: int)
    requires
        0 <= x < w <= 0x20_0000,
        c.finite(),
        0real <= real_of(c) <= (1001real / 1000real) * (w as real),
    ensures
        ({
            let d = Single::of_whole(x).difference(c);
            let q = d.product(d);
            let a = real_of(d);
            &&& d.finite()
            &&& size(a - (x as real - real_of(c))) <= (w as real) / 5000000real
            &&& q.finite() && !q.negative()
            &&& (9999real / 10000real) * (a * a) - tiny() <= real_of(q) <= (10001real / 10000real) * (
            a * a) + tiny()
            &&& 0real <= a * a <= 20000000000000real
        }),
{
    let k = Single::of_whole(x);
    lemma_whole_real(x);
    let d = k.difference(c);
    assert(size(x as real) == x as real && sound(real_of(k) - real_of(c))) by {
        reveal(size);
    }
    lemma_rounded_difference(k, c);
    let a = real_of(d);
    assert(size(a - (x as real - real_of(c))) <= (w as real) / 5000000real && -3000000real <= a
        <= 3000000real) by {
        reveal(size);
    }
    assert(0real <= a * a <= 20000000000000real) by (nonlinear_arith)
        requires
            -3000000real <= a <= 3000000real,
    ;
    assert(size(a * a) == a * a) by {
        reveal(size);
    }
    lemma_rounded_product(d, d);
    lemma_product_is_number(d, d);
    let q = d.product(d);
    assert((9999real / 10000real) * (a * a) - tiny() <= real_of(q) <= (10001real / 10000real) * (a
        * a) + tiny()) by {
        reveal(size);
    }
}

proof fn lemma_not_below(v: Single)
    requires
        v.finite(),
        !v.negative(),
    ensures
        real_of(v) >= 0real,
{
    lemma_ends();
    lemma_order_real(num(ZERO), v);
}

/// How far a pixel is from the middle, as it is told, against the legs it is told by.
proof fn lemma_distance_real(w: int, h: int, i: int, cx: Single, cy: Single)
    requires
        0 < w <= 0x20_0000,
        0 < h <= 0x20_0000,
        0 <= i % w < w,
        0 <= i / w < h,
        cx.finite() && 0real <= real_of(cx) <= (1001real / 1000real) * (w as real),
        cy.finite() && 0real <= real_of(cy) <= (1001real / 1000real) * (h as real),
    ensures
        ({
            let a = real_of(Single::of_whole(i % w).difference(cx));
            let b = real_of(Single::of_whole(i / w).difference(cy));
            let d = distance(w, i, cx, cy);
            let r = (1001real / 1000real) * real_of(d) + 1real / 1000000real;
            &&& d.finite() && !d.negative()
            &&& 0real <= real_of(d) <= 20000000real
            &&& a * a + b * b <= r * r
            &&& real_of(d) <= 1real / 1000real || ((998real / 1000real) * real_of(d)) * ((998real
                / 1000real) * real_of(d)) <= a * a + b * b
            &&& size(a - ((i % w) as real - real_of(cx))) <= (w as real) / 5000000real
            &&& size(b - ((i / w) as real - real_of(cy))) <= (h as real) / 5000000real
        }),
{
    lemma_leg(i % w, cx, w);
    lemma_leg(i / w, cy, h);
    let dx = Single::of_whole(i % w).difference(cx);
    let dy = Single::of_whole(i / w).difference(cy);
    let (a, b) = (real_of(dx), real_of(dy));
    let (p, q) = (dx.product(dx), dy.product(dy));
    lemma_not_below(p);
    lemma_not_below(q);
    let s = a * a + b * b;
    let t = real_of(p) + real_of(q);
    assert(sound(t) && size(t) == t) by {
        reveal(size);
    }
    lemma_rounded_sum(p, q);
    lemma_sum_is_number(p, q);
    let v = p.sum(q);
    assert(real_of(v) >= (9998real / 10000real) * s - 3real * tiny() && real_of(v)
        <= 50000000000000real) by {
        reveal(size);
    }
    lemma_root_real(v);
    let d = distance(w, i, cx, cy);
    let rd = real_of(d);
    let e = 1real / 1000000000000000000000000000000real;
    let z = (10001real / 10000real) * rd + e;
    let r = (1001real / 1000real) * rd + 1real / 1000000real;
    // A little more than the root squared is at least the whole.
    let y = (10002real / 10000real) * z + 1real / 10000000real;
    lemma_bounds(y, y, r, r);
    assert(y * y >= (10004real / 10000real) * (z * z) + 1real / 100000000000000real)
        by (nonlinear_arith)
        requires
            y == (10002real / 10000real) * z + 1real / 10000000real,
            z >= 0real,
    ;
    lemma_root_upper(v);
    let l = (9999real / 10000real) * rd - e;
    assert(real_of(v) <= (10002real / 10000real) * s + 4real * tiny()) by {
        reveal(size);
    }
    if rd > 1real / 1000real {
        let k = (998real / 1000real) * rd;
        assert(0real <= k <= (9985real / 10000real) * l);
        lemma_bounds(k, k, (9985real / 10000real) * l, (9985real / 10000real) * l);
        assert(((9985real / 10000real) * l) * ((9985real / 10000real) * l) <= (998real / 1000real) * (
        l * l)) by (nonlinear_arith)
            requires
                l > 0real,
        ;
        assert(l * l >= 1real / 10000000real) by (nonlinear_arith)
            requires
                l >= 9real / 10000real,
        ;
    }
    assert(rd <= 20000000real) by {
        if rd > 20000000real {
            assert(l * l > 100000000000000real) by (nonlinear_arith)
                requires
                    l > 10000001real,
            ;
        }
    }
}

/// A root is no more than its number's: what is a little less, squared, is below it.
pub proof fn lemma_root_upper(v: Single)
    requires
        v.finite(),
        !v.negative(),
        v.root().finite(),
    ensures
        ({
            let l = (9999real / 10000real) * real_of(v.root()) - 1real
                / 1000000000000000000000000000000real;
            l <= 0real || l * l <= real_of(v)
        }),
{
    reveal(Single::root);
    lemma_magnitude_real(v);
    lemma_magnitude_real(v.root());
    lemma_pow2_pos(149);
    let u = pow2(149) as real;
    let e = 1real / 1000000000000000000000000000000real;
    assert(magnitude(0) == 0);
    assert(0real / u == 0real) by (nonlinear_arith)
        requires
            u > 0real,
    ;
    if !v.zero() {
        lemma_codes_order(v.code(), 0);
        let n = magnitude(v.code()) * pow2(149);
        assert(n >= 0) by (nonlinear_arith)
            requires
                n == magnitude(v.code()) * pow2(149),
                magnitude(v.code()) >= 0,
                pow2(149) > 0,
        ;
        lemma_root_exists(n);
        let c = root_to_code(n);
        lemma_with_sign(false, c);
        let m = magnitude(c);
        let x = (m as real) / u;
        lemma_codes_order(c, 0);
        lemma_over(m as real, u);
        lemma_over(magnitude(v.code()) as real, u);
        if c > 0 {
            lemma_codes_order(c - 1, 0);
            lemma_gap(c - 1);
            let mid = magnitude(c - 1) + m;
            let z = (mid as real) / (2real * u);
            lemma_over(mid as real, 2real * u);
            lemma2_to64();
            lemma_pow2_adds(64, 64);
            lemma_pow2_adds(21, 128);
            assert(pow2(128) == 0x1_0000_0000_0000_0000 * 0x1_0000_0000_0000_0000);
            assert(u >= 1000000000000000000000000000000real);
            let l = (9999real / 10000real) * x - e;
            assert(l <= z) by (nonlinear_arith)
                requires
                    l == (9999real / 10000real) * x - e,
                    x * u == m as real,
                    z * (2real * u) == mid as real,
                    mid as real >= 2real * (m as real) - (m as real) / 8388608real || mid as real
                        >= 2real * (m as real) - 1real,
                    m >= 0,
                    u >= 1000000000000000000000000000000real,
                    e == 1real / 1000000000000000000000000000000real,
            ;
            let vr = real_of(v);
            assert((mid * mid) as real == (2real * (z * u)) * (2real * (z * u))) by (nonlinear_arith)
                requires
                    z * (2real * u) == mid as real,
            ;
            assert((n as real) == (vr * u) * u) by (nonlinear_arith)
                requires
                    vr * u == magnitude(v.code()) as real,
                    n == magnitude(v.code()) * pow2(149),
                    u == pow2(149) as real,
            ;
            let t = u * u;
            assert(t > 0real) by (nonlinear_arith)
                requires
                    t == u * u,
                    u > 0real,
            ;
            assert((2real * (z * u)) * (2real * (z * u)) == 4real * ((z * z) * t) && (vr * u) * u
                == vr * t) by (nonlinear_arith)
                requires
                    t == u * u,
            ;
            assert(z * z <= vr) by (nonlinear_arith)
                requires
                    (z * z) * t <= vr * t,
                    t > 0real,
            ;
            if l > 0real {
                lemma_bounds(l, l, z, z);
            }
        }
    }
}

/// Some value is the greatest on a set below `n`.
proof fn lemma_has_largest(r: Set<int>, d: spec_fn(int) -> Single, n: nat, some: int) -> (m: int)
    requires
        0 <= some < n,
        r.contains(some),
        forall|i: int| 0 <= i < n && #[trigger] r.contains(i) ==> !d(i).nan(),
    ensures
        0 <= m < n,
        r.contains(m),
        forall|i: int| 0 <= i < n && #[trigger] r.contains(i) ==> d(i).at_most(d(m)),
    decreases n,
{
    let k = n - 1;
    if exists|i: int| 0 <= i < k && #[trigger] r.contains(i) {
        let i = choose|i: int| 0 <= i < k && #[trigger] r.contains(i);
        let m = lemma_has_largest(r, d, k as nat, i);
        if r.contains(k) && d(m).less(d(k)) {
            assert forall|i: int| 0 <= i < n && #[trigger] r.contains(i) implies d(i).at_most(
                d(k),
            ) by {
                assert(!d(i).nan() && !d(k).nan());
                if i < k {
                    assert(d(i).at_most(d(m)));
                }
            }
            k
        } else {
            assert forall|i: int| 0 <= i < n && #[trigger] r.contains(i) implies d(i).at_most(
                d(m),
            ) by {
                assert(!d(i).nan() && !d(m).nan());
                if i < k {
                    assert(d(i).at_most(d(m)));
                }
            }
            m
        }
    } else {
        assert(some == k);
        assert(!d(k).nan());
        k
    }
}

/// The reach of a region is that of its farthest pixel.
proof fn lemma_reach(p: Seq<bool>, w: int, h: int, i: int) -> (far: int)
    requires
        ordinary(p, w, h, i),
    ensures
        ({
            let r = region(p, w, i);
            let n = (w * h) as nat;
            let (x, y) = (middle(r, column(w), w, n), middle(r, row(w), w, n));
            let d = reach(r, w, x, y);
            &&& is_reach(r, w, x, y, d)
            &&& r.contains(far)
            &&& d == distance(w, far, x, y)
            &&& d.finite() && !d.negative() && 0real <= real_of(d) <= 20000000real
        }),
{
    let r = region(p, w, i);
    let n = (w * h) as nat;
    let (x, y) = (middle(r, column(w), w, n), middle(r, row(w), w, n));
    lemma_middle(p, w, h, i);
    assert forall|j: int| #[trigger] r.contains(j) implies 0 <= j < n && distance(
        w,
        j,
        x,
        y,
    ).finite() by {
        lemma_in_mask(p, w, h, i, j);
        lemma_distance_real(w, h, j, x, y);
    }
    assert(0 <= i < n && r.contains(i));
    let f = |j: int| distance(w, j, x, y);
    let m = lemma_has_largest(r, f, n, i);
    assert forall|j: int| #[trigger] r.contains(j) implies distance(w, j, x, y).at_most(
        distance(w, m, x, y),
    ) by {
        assert(f(j).at_most(f(m)));
    }
    assert(is_reach(r, w, x, y, distance(w, m, x, y)));
    let d = reach(r, w, x, y);
    assert(is_reach(r, w, x, y, d));
    let far = choose|j: int| #[trigger] r.contains(j) && distance(w, j, x, y) == d;
    lemma_in_mask(p, w, h, i, far);
    lemma_distance_real(w, h, far, x, y);
    far
}

/// The constants of the disk.
proof fn lemma_constants()
    ensures
        num(ELEVEN_TENTHS).finite(),
        109real / 100real <= real_of(num(ELEVEN_TENTHS)) <= 111real / 100real,
        num(TWO).finite(),
        real_of(num(TWO)) == 2real,
{
    lemma2_to64();
    assert(ELEVEN_TENTHS as int / 0x80_0000 == 127 && ELEVEN_TENTHS as int % 0x80_0000 == 0x0C_CCCD);
    lemma_real_of_digits(ELEVEN_TENTHS, 9227469, 23);
    assert(9227469real / 8388608real >= 109real / 100real && 9227469real / 8388608real <= 111real
        / 100real);
    assert(TWO as int / 0x80_0000 == 128 && TWO as int % 0x80_0000 == 0);
    lemma_real_of_digits(TWO, 0x80_0000, 22);
    assert(8388608real / 4194304real == 2real);
}

/// A part of a side, back in pixels, for a side of a mask.
proof fn lemma_part_back(v: Single, side: int)
    requires
        v.finite(),
        0real <= real_of(v) <= 30000000real,
        1 <= side <= 0x20_0000,
    ensures
        ({
            let q = v.quotient(Single::of_whole(side));
            &&& q.finite()
            &&& size(real_of(q) * (side as real) - real_of(v)) <= real_of(v) / 4000000real + 1real
                / 1000000000000real
        }),
{
    let d = Single::of_whole(side);
    lemma_whole_real(side);
    let s = side as real;
    let (x, y) = (real_of(v), real_of(d));
    assert(size(s) == s && y >= 99real / 100real && size(y - s) <= s / 10000000real && y
        >= (999real / 1000real) * s) by {
        reveal(size);
    }
    lemma_over(x, y);
    let z = x / y;
    assert(0real <= z <= 40000000real) by (nonlinear_arith)
        requires
            z * y == x,
            y >= 99real / 100real,
            0real <= x <= 30000000real,
    ;
    assert(sound(z) && size(z) == z) by {
        reveal(size);
    }
    lemma_rounded_quotient(v, d);
    let q = real_of(v.quotient(d));
    // q s - x = (q - z) s + z (s - y)
    lemma_size_of_both(q - z, s);
    lemma_size_of_both(z, s - y);
    assert(size(s - y) == size(y - s)) by {
        reveal(size);
    }
    lemma_less(q, z, s);
    lemma_less(s, y, z);
    lemma_size_of_sum((q - z) * s, z * (s - y));
    assert((q - z) * s + z * (s - y) == q * s - x) by {
        assert(z * y == y * z && z * s == s * z) by (nonlinear_arith);
    }
    let zs = z * s;
    assert(size(q - z) * s <= zs / 16777000real + tiny() * s) by (nonlinear_arith)
        requires
            size(q - z) <= z / 16777000real + tiny(),
            s >= 0real,
            zs == z * s,
    ;
    assert(z * size(s - y) <= zs / 10000000real) by (nonlinear_arith)
        requires
            size(s - y) <= s / 10000000real,
            z >= 0real,
            zs == z * s,
    ;
    assert(x >= (999real / 1000real) * zs) by (nonlinear_arith)
        requires
            zs == z * s,
            z * y == x,
            y >= (999real / 1000real) * s,
            z >= 0real,
    ;
    lemma_bounds(tiny(), s, tiny(), 3000000real);
}

/// The radius that a region is healed with, in pixels.
proof fn lemma_radius(d: Single)
    requires
        d.finite(),
        0real <= real_of(d) <= 20000000real,
    ensures
        ({
            let r = d.product(num(ELEVEN_TENTHS)).larger(num(TWO));
            &&& r.finite()
            &&& 2real <= real_of(r) <= 30000000real
            &&& real_of(r) >= (108real / 100real) * real_of(d)
            &&& real_of(r) <= 2real || real_of(r) <= (112real / 100real) * real_of(d)
        }),
{
    lemma_constants();
    let (x, c) = (real_of(d), real_of(num(ELEVEN_TENTHS)));
    let y = x * c;
    assert((109real / 100real) * x <= y <= (111real / 100real) * x) by (nonlinear_arith)
        requires
            y == x * c,
            109real / 100real <= c <= 111real / 100real,
            x >= 0real,
    ;
    assert(sound(y)) by {
        reveal(size);
    }
    lemma_rounded_product(d, num(ELEVEN_TENTHS));
    let v = d.product(num(ELEVEN_TENTHS));
    assert(real_of(v) >= (1085real / 1000real) * x - tiny() && real_of(v) <= (1115real / 1000real)
        * x + tiny()) by {
        reveal(size);
    }
    lemma_order_real(v, num(TWO));
}

/// Squares of numbers that are a little off.
proof fn lemma_squares_off(a: real, b: real, e: real, f: real, p: real, t: real)
    requires
        a * a + b * b <= p * p,
        p >= 0real,
        size(e) <= t,
        size(f) <= t,
    ensures
        (a + e) * (a + e) + (b + f) * (b + f) <= (p + 2real * t) * (p + 2real * t),
{
    reveal(size);
    assert(-p <= a <= p) by (nonlinear_arith)
        requires
            a * a + b * b <= p * p,
            p >= 0real,
    ;
    assert(-p <= b <= p) by (nonlinear_arith)
        requires
            a * a + b * b <= p * p,
            p >= 0real,
    ;
    assert(a * e <= p * t && b * f <= p * t) by (nonlinear_arith)
        requires
            -p <= a <= p,
            -p <= b <= p,
            -t <= e <= t,
            -t <= f <= t,
    ;
    assert(e * e <= t * t && f * f <= t * t) by (nonlinear_arith)
        requires
            -t <= e <= t,
            -t <= f <= t,
    ;
    assert(t * t >= 0real) by (nonlinear_arith);
    assert((a + e) * (a + e) == a * a + 2real * (a * e) + e * e) by (nonlinear_arith);
    assert((b + f) * (b + f) == b * b + 2real * (b * f) + f * f) by (nonlinear_arith);
    assert((p + 2real * t) * (p + 2real * t) == p * p + 4real * (p * t) + 4real * (t * t))
        by (nonlinear_arith);
}

/// A number whose square is at most another's is not above it.
proof fn lemma_too_near(k: real, q: real, x: real)
    requires
        0real <= k,
        0real <= q,
        k * k <= x,
        x <= q * q,
    ensures
        k <= q,
{
    if k > q {
        assert(k * k > q * q) by (nonlinear_arith)
            requires
                k > q,
                q >= 0real,
        ;
    }
}

/// How far a pixel of a mask is from the middle of a spot, squared, in pixels.
pub open spec fn off_spot(cx: Single, cy: Single, w: int, h: int, j: int) -> real {
    let dx = (j % w) as real - real_of(cx) * (w as real);
    let dy = (j / w) as real - real_of(cy) * (h as real);
    dx * dx + dy * dy
}

/// The radius of a spot, in pixels of the mask.
pub open spec fn pixel_radius(radius: Single, w: int, h: int) -> real {
    real_of(radius) * (if w <= h {
        w as real
    } else {
        h as real
    })
}

/// The disk of a planned spot holds its region: no painted pixel of the region is farther
/// from the spot's middle than its radius, but for what rounding does. And it is no larger
/// than it has to be: some pixel of the region is nine tenths of the way out, as near as
/// makes no difference, unless the disk is the smallest there is, two pixels.
pub proof fn a_planned_disk_holds_its_region(p: Seq<bool>, w: int, h: int, i: int)
    requires
        0 < w <= 0x20_0000,
        0 < h <= 0x20_0000,
        w * h <= u32::MAX,
        p.len() == w * h,
        0 <= i < p.len(),
        p[i],
    ensures
        ({
            let r = region(p, w, i);
            let s = spot_of(r, w, h);
            let out = pixel_radius(s.radius, w, h);
            let t = ((w + h) as real) / 500000real;
            &&& s.cx.finite() && s.cy.finite() && s.radius.finite()
            &&& out >= 199real / 100real
            &&& forall|j: int| #[trigger]
                r.contains(j) ==> off_spot(s.cx, s.cy, w, h, j) <= (out + t) * (out + t)
            &&& out <= 201real / 100real || exists|j: int| #[trigger]
                r.contains(j) && (out - 6real * t) * (out - 6real * t) <= (132real / 100real) * off_spot(
                    s.cx,
                    s.cy,
                    w,
                    h,
                    j,
                ) || out <= 6real * t
        }),
{
    let r = region(p, w, i);
    let n = (w * h) as nat;
    let s = spot_of(r, w, h);
    let (mx, my) = (middle(r, column(w), w, n), middle(r, row(w), w, n));
    let d = reach(r, w, mx, my);
    let rad = healed_radius(r, w, n);
    lemma_middle(p, w, h, i);
    let far = lemma_reach(p, w, h, i);
    lemma_radius(d);
    let side = if w <= h {
        w
    } else {
        h
    };
    lemma_part_back(rad, side);
    lemma_part_back(mx, w);
    lemma_part_back(my, h);
    let out = pixel_radius(s.radius, w, h);
    let t = ((w + h) as real) / 1000000real;
    assert(out == real_of(s.radius) * (side as real));
    assert((9999real / 10000real) * real_of(rad) <= out <= (10001real / 10000real) * real_of(rad))
        by {
        reveal(size);
    }
    let (gx, gy) = (real_of(mx) - real_of(s.cx) * (w as real), real_of(my) - real_of(s.cy) * (
    h as real));
    assert(size(gx) <= (w as real) / 3900000real + 1real / 1000000000000real && size(gy) <= (
    h as real) / 3900000real + 1real / 1000000000000real) by {
        reveal(size);
    }
    assert forall|j: int| #[trigger] r.contains(j) implies off_spot(s.cx, s.cy, w, h, j) <= (out
        + 2real * t) * (out + 2real * t) by {
        lemma_in_mask(p, w, h, i, j);
        lemma_distance_real(w, h, j, mx, my);
        let e = distance(w, j, mx, my);
        assert(e.at_most(d));
        lemma_order_real(e, d);
        let a = real_of(Single::of_whole(j % w).difference(mx));
        let b = real_of(Single::of_whole(j / w).difference(my));
        let q = (1001real / 1000real) * real_of(e) + 1real / 1000000real;
        lemma_bounds(q, q, out, out);
        let f = ((j % w) as real - real_of(s.cx) * (w as real)) - a;
        let g = ((j / w) as real - real_of(s.cy) * (h as real)) - b;
        assert(size(f) <= t && size(g) <= t) by {
            reveal(size);
        }
        lemma_squares_off(a, b, f, g, out, t);
    }
    if out > 201real / 100real && out > 12real * t {
        lemma_in_mask(p, w, h, i, far);
        lemma_distance_real(w, h, far, mx, my);
        let a = real_of(Single::of_whole(far % w).difference(mx));
        let b = real_of(Single::of_whole(far / w).difference(my));
        let x = (far % w) as real - real_of(s.cx) * (w as real);
        let y = (far / w) as real - real_of(s.cy) * (h as real);
        assert(size(a - x) <= t && size(b - y) <= t) by {
            reveal(size);
        }
        let k = (998real / 1000real) * real_of(d);
        let c = out - 12real * t;
        // Were the pixel nearer, its distance would be told as less.
        if (132real / 100real) * (x * x + y * y) < c * c {
            let z = (871real / 1000real) * c;
            assert(x * x + y * y <= z * z) by (nonlinear_arith)
                requires
                    (132real / 100real) * (x * x + y * y) < c * c,
                    z == (871real / 1000real) * c,
            ;
            lemma_squares_off(x, y, a - x, b - y, z, t);
            assert(a * a + b * b <= (z + 2real * t) * (z + 2real * t)) by {
                assert(x + (a - x) == a && y + (b - y) == b);
            }
            lemma_too_near(k, z + 2real * t, a * a + b * b);
        }
        assert(r.contains(far));
    }
}

} // verus!
