//! Colours by hue, saturation and value, among the real numbers.

use vstd::prelude::*;
use vstd::arithmetic::div_mod::lemma_small_mod;
use vstd::arithmetic::power2::{lemma2_to64, lemma_pow2_pos, pow2};
use crate::cofactors::lemma_less;
use crate::coverings::lemma_floor;
use crate::heal::Rgb;
use crate::numbers::{FOUR, ONE, SIXTY, TURN, TWO, ZERO};
use crate::profile::SIX;
use crate::reals::{
    lemma_ends, lemma_magnitude_real, lemma_order_real, lemma_real_of_digits, real_of, size,
    size_is_not_below, within,
};
use crate::rounding::{
    lemma_round_at_most, lemma_round_exists, lemma_single_from_parts, lemma_with_sign,
};
use crate::single::{
    lemma_codes_order, lemma_round_exact, lemma_round_zero, magnitude, num, round_to_code, Single,
};
use crate::sliding::lemma_small_numbers;
use crate::stamping::{held, lemma_below_nothing, lemma_half_and_two, lemma_nought};
use crate::tempering::lemma_sum_keeps_order;
use crate::tone::{hsv_of, rgb_of, sector, Hsv};
use crate::toning::lemma_step;
use crate::vanishing::lemma_back;
use crate::wayback::{
    lemma_absolute, lemma_bounds, lemma_over, lemma_rounded_difference, lemma_rounded_product,
    lemma_rounded_sum, lemma_size_of_both, lemma_size_of_sum,
};

verus! {

broadcast use size_is_not_below;

/// How much of its saturation a channel loses at a place on the wheel of six: none around
/// its own colour, all of it opposite, and evenly between.
pub open spec fn wheel(y: real) -> real {
    let k = if y >= 6real {
        y - 6real
    } else if y < 0real {
        y + 6real
    } else {
        y
    };
    held(
        if k <= 4real - k {
            k
        } else {
            4real - k
        },
        0real,
        1real,
    )
}

/// The channel that stands `n` sixths before the end of the wheel.
pub open spec fn channel(c: Hsv, n: real) -> real {
    real_of(c.v) - (real_of(c.v) * real_of(c.s)) * wheel(n + real_of(c.h) / 60real)
}

proof fn lemma_wheel_close(y: real, z: real, e: real)
    requires
        -1real <= y < 12real,
        -1real <= z < 12real,
        size(y - z) <= e || size(y - z - 6real) <= e || size(y - z + 6real) <= e,
        e <= 1real / 10real,
    ensures
        size(wheel(y) - wheel(z)) <= e,
        0real <= wheel(y) <= 1real,
{
    reveal(size);
}

proof fn lemma_wheel_numbers()
    ensures
        num(SIX).finite() && real_of(num(SIX)) == 6real,
        num(SIXTY).finite() && real_of(num(SIXTY)) == 60real,
        num(TURN).finite() && real_of(num(TURN)) == 360real,
        !num(SIX).negative() && !num(SIXTY).negative() && !num(TURN).negative(),
{
    lemma2_to64();
    lemma_real_of_digits(SIX, 0xC0_0000, 21);
    lemma_real_of_digits(SIXTY, 0xF0_0000, 18);
    lemma_real_of_digits(TURN, 0xB4_0000, 15);
    assert(12582912real / 2097152real == 6real);
    assert(15728640real / 262144real == 60real);
    assert(11796480real / 32768real == 360real);
}

/// The size of a value in units.
pub proof fn lemma_units(v: Single)
    requires
        v.finite(),
    ensures
        size(real_of(v)) * (pow2(149) as real) == magnitude(v.code()) as real,
        magnitude(v.code()) >= 0,
        pow2(149) > 0,
{
    lemma_pow2_pos(149);
    lemma_codes_order(v.code(), 0);
    lemma_nought();
    let m = magnitude(v.code());
    lemma_magnitude_real(v);
    lemma_below_nothing(m);
    lemma_over(m as real, pow2(149) as real);
    assert(size(real_of(v)) == (m as real) / (pow2(149) as real)) by {
        reveal(size);
    }
}

pub proof fn lemma_units_order(a: real, b: real, u: real)
    requires
        u > 0real,
    ensures
        a < b <==> a * u < b * u,
        a == b <==> a * u == b * u,
{
    assert(a < b <==> a * u < b * u) by (nonlinear_arith)
        requires
            u > 0real,
    ;
    assert(a == b <==> a * u == b * u) by (nonlinear_arith)
        requires
            u > 0real,
    ;
}

/// What is left of a number that is no larger than the divisor.
proof fn lemma_left(a: Single, b: Single)
    requires
        a.finite() && b.finite(),
        real_of(b) > 0real,
        size(real_of(a)) <= real_of(b),
    ensures
        a.remainder(b).finite(),
        size(real_of(a)) < real_of(b) ==> real_of(a.remainder(b)) == real_of(a),
        size(real_of(a)) == real_of(b) ==> real_of(a.remainder(b)) == 0real,
{
    reveal(Single::remainder);
    lemma_units(a);
    lemma_units(b);
    let (m, n) = (magnitude(a.code()), magnitude(b.code()));
    let u = pow2(149) as real;
    assert(size(real_of(b)) == real_of(b)) by {
        reveal(size);
    }
    lemma_units_order(size(real_of(a)), real_of(b), u);
    lemma_units_order(0real, real_of(b), u);
    assert(0real * u == 0real);
    assert(m <= n && n > 0);
    assert(!b.zero()) by {
        lemma_nought();
    }
    let r = a.remainder(b);
    if m < n {
        lemma_small_mod(m as nat, n as nat);
        lemma_round_exact(a.code());
        lemma_with_sign(a.negative(), a.code());
        lemma_single_from_parts(r, a);
    } else {
        assert(m % n == 0) by (nonlinear_arith)
            requires
                m == n,
                n > 0,
        ;
        lemma_round_zero(1);
        lemma_with_sign(a.negative(), 0);
        lemma_magnitude_real(r);
        lemma_nought();
        assert(0real / u == 0real) by (nonlinear_arith)
            requires
                u > 0real,
        ;
    }
}

/// A product that is not above a single is not rounded above it.
pub proof fn lemma_product_not_above(a: Single, b: Single, c: Single)
    requires
        a.finite() && b.finite() && c.finite(),
        real_of(a) >= 0real,
        real_of(b) >= 0real,
        real_of(a) * real_of(b) <= real_of(c),
        a.product(b).finite(),
    ensures
        real_of(a.product(b)) <= real_of(c),
{
    reveal(Single::product);
    lemma_units(a);
    lemma_units(b);
    lemma_units(c);
    let (m, n, k) = (magnitude(a.code()), magnitude(b.code()), magnitude(c.code()));
    let u = pow2(149) as real;
    let (x, y, z) = (real_of(a), real_of(b), real_of(c));
    assert(x * y >= 0real) by (nonlinear_arith)
        requires
            x >= 0real,
            y >= 0real,
    ;
    assert(size(x) == x && size(y) == y && size(z) == z) by {
        reveal(size);
    }
    assert((m * n) as real <= ((k * pow2(149)) as real)) by (nonlinear_arith)
        requires
            x * u == m as real,
            y * u == n as real,
            z * u == k as real,
            x * y <= z,
            u == pow2(149) as real,
            u > 0real,
    {
        assert((m * n) as real == (x * y) * (u * u)) by (nonlinear_arith)
            requires
                x * u == m as real,
                y * u == n as real,
        ;
        assert((k * pow2(149)) as real == z * (u * u)) by (nonlinear_arith)
            requires
                z * u == k as real,
                u == pow2(149) as real,
        ;
        assert((x * y) * (u * u) <= z * (u * u)) by (nonlinear_arith)
            requires
                x * y <= z,
                u > 0real,
        ;
    }
    assert(m * n >= 0) by (nonlinear_arith)
        requires
            m >= 0,
            n >= 0,
    ;
    let d = pow2(149) as int;
    lemma_round_at_most(m * n, d, c.code());
    lemma_round_exists(m * n, d);
    let r = a.product(b);
    let negative = a.negative() != b.negative();
    lemma_with_sign(negative, round_to_code(m * n, d));
    lemma_codes_order(r.code(), c.code());
    lemma_units(r);
    lemma_units_order(size(real_of(c)), size(real_of(r)), u);
    assert(real_of(r) <= size(real_of(r))) by {
        reveal(size);
    }
}

/// The hue of a place on the wheel.
proof fn lemma_hue(h0: Single, x: real)
    requires
        h0.finite(),
        0real <= real_of(h0) <= 6real,
        size(real_of(h0) - x) <= 1real / 2000000real,
    ensures
        ({
            let h = h0.product(num(SIXTY)).euclidean_remainder(num(TURN));
            let y = real_of(h) / 60real;
            &&& h.finite()
            &&& 0real <= y < 6real
            &&& size(y - x) <= 1real / 1000000real || size(y - x + 6real) <= 1real / 1000000real
        }),
{
    lemma_wheel_numbers();
    lemma_ends();
    let k = real_of(h0);
    assert(size(k) == k && size(60real) == 60real) by {
        reveal(size);
    }
    lemma_size_of_both(k, 60real);
    lemma_rounded_product(h0, num(SIXTY));
    let p = h0.product(num(SIXTY));
    lemma_product_not_above(h0, num(SIXTY), num(TURN));
    lemma_product_sign(h0, num(SIXTY));
    let y = real_of(p);
    assert(size(y) == y) by {
        reveal(size);
    }
    lemma_left(p, num(TURN));
    let r = p.remainder(num(TURN));
    lemma_order_real(r, num(ZERO));
    assert(num(ZERO) == (Single { bits: 0 }));
    assert(p.euclidean_remainder(num(TURN)) == r);
    assert(size(y / 60real - x) <= 1real / 1000000real) by {
        reveal(size);
    }
    reveal(size);
}

pub proof fn lemma_product_sign(a: Single, b: Single)
    requires
        a.finite() && b.finite(),
        real_of(a) >= 0real,
        real_of(b) >= 0real,
        a.product(b).finite(),
    ensures
        real_of(a.product(b)) >= 0real,
{
    let r = a.product(b);
    lemma_magnitude_real(a);
    lemma_magnitude_real(b);
    lemma_magnitude_real(r);
    lemma_units(a);
    lemma_units(b);
    lemma_units(r);
    lemma_below_nothing(magnitude(r.code()));
    lemma_below_nothing(magnitude(a.code()));
    lemma_below_nothing(magnitude(b.code()));
    reveal(Single::product);
    let (m, n) = (magnitude(a.code()), magnitude(b.code()));
    let d = pow2(149) as int;
    assert(m * n >= 0 && (m == 0 || n == 0 ==> m * n == 0)) by (nonlinear_arith)
        requires
            m >= 0,
            n >= 0,
    ;
    lemma_round_exists(m * n, d);
    lemma_with_sign(a.negative() != b.negative(), round_to_code(m * n, d));
    if a.negative() != b.negative() {
        // One of them is nought below its sign.
        let u = pow2(149) as real;
        lemma_units_order(0real, size(real_of(a)), u);
        lemma_units_order(0real, size(real_of(b)), u);
        assert(0real * u == 0real);
        assert(m == 0 || n == 0) by {
            reveal(size);
        }
        lemma_round_zero(d);
        lemma_nought();
        assert(0real / u == 0real) by (nonlinear_arith)
            requires
                u > 0real,
        ;
    }
}

/// How far two channels are apart, of the way from the least to the greatest.
proof fn lemma_apart(n: Single, p: Single, v: Single, m: Single)
    requires
        n.finite() && p.finite() && v.finite() && m.finite(),
        0real <= real_of(m) <= real_of(v) <= 1real,
        real_of(m) <= real_of(n) <= real_of(v),
        real_of(m) <= real_of(p) <= real_of(v),
        real_of(v) - real_of(m) >= 1real / 1000real,
    ensures
        ({
            let q = n.difference(p).quotient(v.difference(m));
            let d = real_of(v) - real_of(m);
            let t = (real_of(n) - real_of(p)) / d;
            &&& q.finite()
            &&& -1real <= t <= 1real
            &&& t * d == real_of(n) - real_of(p)
            &&& size(real_of(q) - t) <= 1real / 2500000real
        }),
{
    let d = real_of(v) - real_of(m);
    let g = real_of(n) - real_of(p);
    let t = g / d;
    lemma_over(g, d);
    assert(-1real <= t <= 1real) by (nonlinear_arith)
        requires
            t * d == g,
            -d <= g <= d,
            d > 0real,
    ;
    assert(size(g) <= d) by {
        reveal(size);
    }
    lemma_rounded_difference(n, p);
    lemma_step(v, m, d);
    let (top, low) = (n.difference(p), v.difference(m));
    let (x, y) = (real_of(top), real_of(low));
    assert(size(x - g) <= d / 16000000real);
    assert(size(y) == y && y >= d / 2real && y <= 2real && size(x) <= 2real * d && size(x) <= 2real)
        by {
        reveal(size);
    }
    lemma_back(top, low, 2real, 1real / 2000real);
    let q = real_of(top.quotient(low));
    let e = y - d;
    assert(size(q * y - x) <= d / 7000000real);
    assert(size(q) <= 3real) by {
        lemma_size_of_both(q, y);
        lemma_size_of_sum(x, q * y - x);
        assert(x + (q * y - x) == q * y);
        assert(y >= (9real / 10real) * d) by {
            reveal(size);
        }
        let s = size(q);
        assert(s <= 3real) by (nonlinear_arith)
            requires
                s * y <= (21real / 10real) * d,
                y >= (9real / 10real) * d,
                d > 0real,
                s >= 0real,
        ;
    }
    lemma_size_of_both(q, e);
    lemma_bounds(size(q), size(e), 3real, d / 16000000real);
    lemma_less(y, d, q);
    assert(size(q * d - q * y) == size(q * y - q * d)) by {
        reveal(size);
    }
    lemma_size_of_sum(q * d - q * y, q * y - x);
    assert((q * d - q * y) + (q * y - x) == q * d - x);
    lemma_size_of_sum(q * d - x, x - g);
    assert((q * d - x) + (x - g) == q * d - g);
    lemma_less(q, t, d);
    lemma_size_of_both(q - t, d);
    assert(size(d) == d) by {
        reveal(size);
    }
    let w = size(q - t);
    assert(w * d <= d / 2500000real);
    assert(w <= 1real / 2500000real) by (nonlinear_arith)
        requires
            w * d <= d / 2500000real,
            d > 0real,
    ;
}

/// The place on the wheel of a colour whose red is greatest.
proof fn lemma_past_red(q: Single, t: real)
    requires
        q.finite(),
        -1real <= t <= 1real,
        size(real_of(q) - t) <= 1real / 2500000real,
    ensures
        ({
            let h = q.euclidean_remainder(num(SIX));
            &&& h.finite()
            &&& 0real <= real_of(h) <= 6real
            &&& size(real_of(h) - t) <= 1real / 1100000real || size(real_of(h) - t - 6real) <= 1real
                / 1100000real
        }),
{
    lemma_wheel_numbers();
    lemma_ends();
    let x = real_of(q);
    assert(size(x) < 6real) by {
        reveal(size);
    }
    lemma_left(q, num(SIX));
    let r = q.remainder(num(SIX));
    lemma_order_real(r, num(ZERO));
    assert(num(ZERO) == (Single { bits: 0 }));
    if x < 0real {
        let six = num(SIX).absolute();
        lemma_absolute(num(SIX));
        assert(real_of(six) == 6real) by {
            reveal(size);
        }
        lemma_single_from_parts(six, num(SIX));
        assert(size(x + 6real) <= 6real) by {
            reveal(size);
        }
        lemma_rounded_sum(r, six);
        lemma_sum_keeps_order(r, num(ZERO), six);
        assert(num(ZERO).sum(six) == six) by {
            reveal(Single::sum);
            lemma_nought();
            lemma_units(num(SIX));
            lemma_round_exact(SIX as int);
            lemma_with_sign(false, SIX as int);
            lemma_single_from_parts(num(ZERO).sum(six), six);
        }
        let h = r.sum(six);
        lemma_order_real(h, six);
        reveal(size);
    } else {
        reveal(size);
    }
}

/// The place on the wheel of a colour whose green or blue is greatest.
proof fn lemma_past(q: Single, by: Single, k: real, t: real)
    requires
        q.finite() && by.finite(),
        real_of(by) == k,
        k == 2real || k == 4real,
        -1real <= t <= 1real,
        size(real_of(q) - t) <= 1real / 2500000real,
    ensures
        ({
            let h = q.sum(by);
            &&& h.finite()
            &&& 0real <= real_of(h) <= 6real
            &&& size(real_of(h) - (k + t)) <= 1real / 1100000real
        }),
{
    let x = real_of(q);
    assert(size(x + k) <= 51real / 10real) by {
        reveal(size);
    }
    lemma_rounded_sum(q, by);
    reveal(size);
}

/// What stands on the wheel where a channel is greatest: it keeps its value, the next one
/// and the one before it lie by the share `t`.
proof fn lemma_on_wheel(t: real, d: real, v: real, n: real, p: real)
    requires
        -1real <= t <= 1real,
        d > 0real,
        t * d == n - p,
        n >= p ==> p == v - d,
        n <= p ==> n == v - d,
    ensures
        wheel(5real + t) == 0real,
        v - d * wheel(3real + t) == n,
        v - d * wheel(1real + t) == p,
{
    assert(t >= 0real ==> t * d >= 0real) by (nonlinear_arith)
        requires
            d > 0real,
    ;
    assert(t <= 0real ==> t * d <= 0real) by (nonlinear_arith)
        requires
            d > 0real,
    ;
    if t >= 0real {
        assert(wheel(3real + t) == 1real - t);
        assert(wheel(1real + t) == 1real);
        assert(d * (1real - t) == d - t * d) by (nonlinear_arith);
        assert(d * 1real == d);
    } else {
        assert(wheel(3real + t) == 1real);
        assert(wheel(1real + t) == 1real + t);
        assert(d * (1real + t) == d + t * d) by (nonlinear_arith);
        assert(d * 1real == d);
    }
}

proof fn lemma_channel(v: real, sv: real, d: real, w: real, u: real, want: real)
    requires
        size(sv - d) <= 1real / 1000000real,
        0real <= d <= 1real,
        0real <= w <= 1real,
        size(w - u) <= 1real / 400000real,
        v - d * u == want,
    ensures
        size((v - sv * w) - want) <= 1real / 200000real,
{
    lemma_size_of_both(sv - d, w);
    assert(size(w) == w && size(d) == d) by {
        reveal(size);
    }
    lemma_bounds(size(sv - d), w, 1real / 1000000real, 1real);
    lemma_less(sv, d, w);
    lemma_size_of_both(d, w - u);
    lemma_bounds(d, size(w - u), 1real, 1real / 400000real);
    lemma_less(w, u, d);
    lemma_size_of_sum((sv - d) * w, d * (w - u));
    assert((v - sv * w) - want == -((sv - d) * w + d * (w - u)));
    lemma_size_of_sum((sv - d) * w + d * (w - u), 0real);
}

/// One channel on the wheel, from the place that the hue gives it.
proof fn lemma_recovered(c: Hsv, n: real, place: real, d: real, want: real)
    requires
        n == 1real || n == 3real || n == 5real,
        0real <= real_of(c.h) / 60real < 6real,
        ({
            let y = n + real_of(c.h) / 60real;
            let e = 1real / 400000real;
            size(y - place) <= e || size(y - place - 6real) <= e || size(y - place + 6real) <= e
        }),
        -1real <= place < 12real,
        size(real_of(c.v) * real_of(c.s) - d) <= 1real / 1000000real,
        0real <= d <= 1real,
        real_of(c.v) - d * wheel(place) == want,
    ensures
        size(channel(c, n) - want) <= 1real / 200000real,
{
    let y = n + real_of(c.h) / 60real;
    lemma_wheel_close(y, place, 1real / 400000real);
    lemma_channel(
        real_of(c.v),
        real_of(c.v) * real_of(c.s),
        d,
        wheel(y),
        wheel(place),
        want,
    );
}

/// The three channels on the wheel: the greatest, the next and the one before it.
proof fn lemma_three_channels(c: Hsv, k: real, t: real, d: real, first: real, next: real, prev: real)
    requires
        k == 0real || k == 2real || k == 4real,
        -1real <= t <= 1real,
        0real <= real_of(c.h) / 60real < 6real,
        ({
            let y = real_of(c.h) / 60real;
            let (x, e) = (k + t, 1real / 400000real);
            size(y - x) <= e || size(y - x - 6real) <= e || size(y - x + 6real) <= e
        }),
        size(real_of(c.v) * real_of(c.s) - d) <= 1real / 1000000real,
        0real < d <= 1real,
        first == real_of(c.v),
        t * d == next - prev,
        next >= prev ==> prev == first - d,
        next <= prev ==> next == first - d,
    ensures
        ({
            let e = 1real / 200000real;
            &&& k == 0real ==> size(channel(c, 5real) - first) <= e && size(channel(c, 3real) - next)
                <= e && size(channel(c, 1real) - prev) <= e
            &&& k == 2real ==> size(channel(c, 3real) - first) <= e && size(channel(c, 1real) - next)
                <= e && size(channel(c, 5real) - prev) <= e
            &&& k == 4real ==> size(channel(c, 1real) - first) <= e && size(channel(c, 5real) - next)
                <= e && size(channel(c, 3real) - prev) <= e
        }),
{
    let y = real_of(c.h) / 60real;
    let e = 1real / 400000real;
    lemma_on_wheel(t, d, first, next, prev);
    assert(d * 0real == 0real);
    if k == 0real {
        assert(5real + y - (5real + t) == y - t);
        assert(3real + y - (3real + t) == y - t);
        assert(1real + y - (1real + t) == y - t);
        lemma_recovered(c, 5real, 5real + t, d, first);
        lemma_recovered(c, 3real, 3real + t, d, next);
        lemma_recovered(c, 1real, 1real + t, d, prev);
    } else {
        lemma_no_turn(y, k + t, e);
        if k == 2real {
            assert(3real + y - (5real + t) == y - (k + t));
            assert(1real + y - (3real + t) == y - (k + t));
            assert(5real + y - (1real + t) - 6real == y - (k + t));
            lemma_recovered(c, 3real, 5real + t, d, first);
            lemma_recovered(c, 1real, 3real + t, d, next);
            lemma_recovered(c, 5real, 1real + t, d, prev);
        } else {
            assert(1real + y - (5real + t) == y - (k + t));
            assert(5real + y - (3real + t) - 6real == y - (k + t));
            assert(3real + y - (1real + t) - 6real == y - (k + t));
            lemma_recovered(c, 1real, 5real + t, d, first);
            lemma_recovered(c, 5real, 3real + t, d, next);
            lemma_recovered(c, 3real, 1real + t, d, prev);
        }
    }
}

proof fn lemma_no_turn(y: real, x: real, e: real)
    requires
        0real <= y < 6real,
        1real <= x <= 5real,
        e <= 1real / 10real,
        size(y - x) <= e || size(y - x - 6real) <= e || size(y - x + 6real) <= e,
    ensures
        size(y - x) <= e,
{
    reveal(size);
}

/// The hue, the saturation and the value of a colour say all of it: the value is its
/// greatest channel, and every channel is what the wheel gives for them.
pub proof fn a_colour_is_told_by_its_hue(c: Rgb<Single>)
    requires
        c.r.finite() && 0real <= real_of(c.r) <= 1real,
        c.g.finite() && 0real <= real_of(c.g) <= 1real,
        c.b.finite() && 0real <= real_of(c.b) <= 1real,
        ({
            let (r, g, b) = (real_of(c.r), real_of(c.g), real_of(c.b));
            let e = 1real / 1000real;
            r - g >= e || g - r >= e || r - b >= e || b - r >= e || g - b >= e || b - g >= e
        }),
    ensures
        ({
            let h = hsv_of(c);
            &&& 0real <= real_of(h.h) < 360real
            &&& real_of(h.v) >= real_of(c.r) && real_of(h.v) >= real_of(c.g) && real_of(h.v)
                >= real_of(c.b)
            &&& real_of(h.v) == real_of(c.r) || real_of(h.v) == real_of(c.g) || real_of(h.v)
                == real_of(c.b)
            &&& size(channel(h, 5real) - real_of(c.r)) <= 1real / 200000real
            &&& size(channel(h, 3real) - real_of(c.g)) <= 1real / 200000real
            &&& size(channel(h, 1real) - real_of(c.b)) <= 1real / 200000real
        }),
{
    let (r, g, b) = (real_of(c.r), real_of(c.g), real_of(c.b));
    lemma_order_real(c.r, c.g);
    lemma_order_real(c.g, c.r);
    let (rg, low_rg) = (c.r.larger(c.g), c.r.smaller(c.g));
    lemma_order_real(rg, c.b);
    lemma_order_real(c.b, low_rg);
    let v = rg.larger(c.b);
    let m = low_rg.smaller(c.b);
    lemma_order_real(v, c.r);
    lemma_order_real(c.r, v);
    lemma_order_real(v, c.g);
    lemma_order_real(c.g, v);
    lemma_ends();
    lemma_half_and_two();
    lemma_small_numbers();
    let (top, low) = (real_of(v), real_of(m));
    let d = top - low;
    assert(d >= 1real / 1000real);
    lemma_step(v, m, d);
    let span = v.difference(m);
    assert(real_of(span) > 0real && real_of(span) <= 2real && size(real_of(span)) == real_of(span)
        && size(top) == top) by {
        reveal(size);
    }
    lemma_order_real(span, num(ZERO));
    lemma_order_real(v, num(ZERO));
    lemma_back(span, v, 2real, 1real / 1000real);
    let h = hsv_of(c);
    let sat = real_of(h.s);
    assert(h.v == v && h.s == span.quotient(v));
    assert(sat * top == top * sat) by (nonlinear_arith);
    assert(size(top * sat - d) <= 1real / 1000000real) by {
        lemma_size_of_sum(sat * top - real_of(span), real_of(span) - d);
        assert((sat * top - real_of(span)) + (real_of(span) - d) == sat * top - d);
    }
    if v.equals(c.r) {
        lemma_apart(c.g, c.b, v, m);
        let t = (g - b) / d;
        let q = c.g.difference(c.b).quotient(span);
        lemma_past_red(q, t);
        lemma_hue_of(q.euclidean_remainder(num(SIX)), t);
        lemma_three_channels(h, 0real, t, d, r, g, b);
    } else if v.equals(c.g) {
        lemma_apart(c.b, c.r, v, m);
        let t = (b - r) / d;
        let q = c.b.difference(c.r).quotient(span);
        lemma_past(q, num(TWO), 2real, t);
        lemma_hue_of(q.sum(num(TWO)), 2real + t);
        lemma_three_channels(h, 2real, t, d, g, b, r);
    } else {
        lemma_apart(c.r, c.g, v, m);
        let t = (r - g) / d;
        let q = c.r.difference(c.g).quotient(span);
        lemma_past(q, num(FOUR), 4real, t);
        lemma_hue_of(q.sum(num(FOUR)), 4real + t);
        lemma_three_channels(h, 4real, t, d, b, r, g);
    }
}

/// The hue of a place on the wheel, up to a turn.
proof fn lemma_hue_of(h0: Single, x: real)
    requires
        h0.finite(),
        0real <= real_of(h0) <= 6real,
        size(real_of(h0) - x) <= 1real / 1100000real || size(real_of(h0) - x - 6real) <= 1real
            / 1100000real,
    ensures
        ({
            let h = h0.product(num(SIXTY)).euclidean_remainder(num(TURN));
            let y = real_of(h) / 60real;
            let e = 1real / 400000real;
            &&& h.finite()
            &&& 0real <= y < 6real
            &&& 0real <= real_of(h) < 360real
            &&& size(y - x) <= e || size(y - x - 6real) <= e || size(y - x + 6real) <= e
        }),
{
    let k = real_of(h0);
    assert(size(k - k) <= 1real / 2000000real) by {
        reveal(size);
    }
    lemma_hue(h0, k);
    reveal(size);
}

/// A channel that has lost a share of its saturation.
proof fn lemma_faded(v: Single, s: Single, g: Single, w: real)
    requires
        v.finite() && 0real <= real_of(v) <= 1real,
        s.finite() && 0real <= real_of(s) <= 1real,
        g.finite() && size(real_of(g)) <= 2real,
        size(real_of(g) - w) <= 1real / 450000real,
        0real <= w <= 1real,
    ensures
        within(
            v.product(num(ONE).difference(s.product(g))),
            real_of(v) - (real_of(v) * real_of(s)) * w,
            1real / 200000real,
        ),
{
    lemma_ends();
    let (a, b, x) = (real_of(v), real_of(s), real_of(g));
    assert(size(a) == a && size(b) == b) by {
        reveal(size);
    }
    lemma_size_of_both(b, x);
    lemma_bounds(b, size(x), 1real, 2real);
    lemma_rounded_product(s, g);
    let p = real_of(s.product(g));
    lemma_size_of_both(b, x - w);
    lemma_bounds(b, size(x - w), 1real, 1real / 450000real);
    lemma_less(x, w, b);
    lemma_size_of_sum(p - b * x, b * (x - w));
    assert(size(p - b * w) <= 1real / 400000real) by {
        assert((p - b * x) + b * (x - w) == p - b * w);
    }
    lemma_bounds(b, w, 1real, 1real);
    assert(b * w >= 0real) by (nonlinear_arith)
        requires
            b >= 0real,
            w >= 0real,
    ;
    assert(size(1real - p) <= 2real) by {
        reveal(size);
    }
    lemma_rounded_difference(num(ONE), s.product(g));
    let f = num(ONE).difference(s.product(g));
    let k = real_of(f);
    assert(size(k - (1real - b * w)) <= 1real / 300000real) by {
        reveal(size);
    }
    assert(size(k) <= 2real) by {
        reveal(size);
    }
    lemma_size_of_both(a, k);
    lemma_bounds(a, size(k), 1real, 2real);
    lemma_rounded_product(v, f);
    let r = real_of(v.product(f));
    lemma_size_of_both(a, k - (1real - b * w));
    lemma_bounds(a, size(k - (1real - b * w)), 1real, 1real / 300000real);
    lemma_less(k, 1real - b * w, a);
    lemma_size_of_sum(r - a * k, a * (k - (1real - b * w)));
    assert(a * (1real - b * w) == a - (a * b) * w) by (nonlinear_arith);
    assert((r - a * k) + a * (k - (1real - b * w)) == r - (a - (a * b) * w));
}

/// The colour of a hue, a saturation and a value has in every channel what the wheel gives
/// for them.
pub proof fn a_hue_gives_its_colour(c: Hsv)
    requires
        c.h.finite() && 0real <= real_of(c.h) < 360real,
        c.s.finite() && 0real <= real_of(c.s) <= 1real,
        c.v.finite() && 0real <= real_of(c.v) <= 1real,
    ensures
        ({
            let p = rgb_of(c);
            &&& within(p.r, channel(c, 5real), 1real / 100000real)
            &&& within(p.g, channel(c, 3real), 1real / 100000real)
            &&& within(p.b, channel(c, 1real), 1real / 100000real)
        }),
{
    lemma_ends();
    lemma_wheel_numbers();
    let x = real_of(c.h) / 60real;
    assert(size(60real) == 60real) by {
        reveal(size);
    }
    let (v, s) = (c.v.larger(num(ZERO)), c.s.clamped(num(ZERO), num(ONE)));
    lemma_order_real(c.v, num(ZERO));
    lemma_order_real(c.s, num(ZERO));
    lemma_order_real(num(ONE), c.s);
    assert(v == c.v && s == c.s);
    assert(size(real_of(c.h)) == real_of(c.h)) by {
        reveal(size);
    }
    lemma_left(c.h, num(TURN));
    let turned = c.h.euclidean_remainder(num(TURN));
    lemma_order_real(c.h.remainder(num(TURN)), num(ZERO));
    assert(num(ZERO) == (Single { bits: 0 }));
    assert(real_of(turned) == real_of(c.h) && turned.finite());
    lemma_back(turned, num(SIXTY), 360real, 60real);
    let h = turned.quotient(num(SIXTY));
    let y = real_of(h);
    assert(size(y - x) <= 1real / 1000000real && y < 61real / 10real) by {
        reveal(size);
    }
    assert(size(y) <= 4000000real) by {
        reveal(size);
    }
    assert(y >= 0real) by {
        lemma_quotient_sign(turned, num(SIXTY));
    }
    lemma_floor(h);
    let n = h.floored().cast(i32::MIN as int, i32::MAX as int);
    let f = h.difference(h.floored());
    assert(0 <= n <= 6);
    assert(size(y - n as real) <= 1real) by {
        reveal(size);
    }
    lemma_rounded_difference(h, h.floored());
    let part = x - n as real;
    assert(size(real_of(f) - part) <= 1real / 700000real) by {
        reveal(size);
    }
    let w = held(part, 0real, 1real);
    assert(size(real_of(f) - w) <= 1real / 500000real && size(real_of(f)) <= 2real) by {
        reveal(size);
    }
    assert(size(1real - real_of(f)) <= 2real) by {
        reveal(size);
    }
    lemma_rounded_difference(num(ONE), f);
    let rest = num(ONE).difference(f);
    assert(size(real_of(rest) - (1real - w)) <= 1real / 450000real && size(real_of(rest)) <= 2real) by {
        reveal(size);
    }
    assert(-(1real / 500000real) <= part <= 1real + 1real / 500000real) by {
        reveal(size);
    }
    lemma_six_places(x, n, w);
    lemma_loses(c.v, c.s);
    lemma_faded(c.v, c.s, f, w);
    lemma_faded(c.v, c.s, rest, 1real - w);
    let sixth = n % 6;
    let p = rgb_of(c);
    let (r, g, b) = losses(sixth, w);
    assert(sector(n) == sixth);
    lemma_told(c, 5real, p.r, r);
    lemma_told(c, 3real, p.g, g);
    lemma_told(c, 1real, p.b, b);
}

/// What the channels lose in a sixth of the wheel, at the share `w` of it.
spec fn losses(sector: int, w: real) -> (real, real, real) {
    if sector == 0 {
        (0real, 1real - w, 1real)
    } else if sector == 1 {
        (w, 0real, 1real)
    } else if sector == 2 {
        (1real, 0real, 1real - w)
    } else if sector == 3 {
        (1real, w, 0real)
    } else if sector == 4 {
        (1real - w, 1real, 0real)
    } else {
        (0real, 1real, w)
    }
}

proof fn lemma_six_places(x: real, n: int, w: real)
    requires
        0real <= x < 6real,
        0 <= n <= 6,
        -(1real / 500000real) <= x - n as real <= 1real + 1real / 500000real,
        w == held(x - n as real, 0real, 1real),
    ensures
        ({
            let (r, g, b) = losses(n % 6, w);
            let e = 1real / 400000real;
            &&& size(wheel(5real + x) - r) <= e
            &&& size(wheel(3real + x) - g) <= e
            &&& size(wheel(1real + x) - b) <= e
        }),
{
    reveal(size);
    if n == 0 {
    } else if n == 1 {
    } else if n == 2 {
    } else if n == 3 {
    } else if n == 4 {
    } else if n == 5 {
    } else {
        assert(n == 6 && n % 6 == 0);
    }
}

/// A channel that has lost all of its saturation.
proof fn lemma_loses(v: Single, s: Single)
    requires
        v.finite() && 0real <= real_of(v) <= 1real,
        s.finite() && 0real <= real_of(s) <= 1real,
    ensures
        within(
            v.product(num(ONE).difference(s)),
            real_of(v) - (real_of(v) * real_of(s)) * 1real,
            1real / 200000real,
        ),
{
    lemma_ends();
    let (a, b) = (real_of(v), real_of(s));
    assert(size(1real - b) <= 1real && size(a) == a) by {
        reveal(size);
    }
    lemma_rounded_difference(num(ONE), s);
    let f = num(ONE).difference(s);
    let k = real_of(f);
    assert(size(k) <= 2real) by {
        reveal(size);
    }
    lemma_size_of_both(a, k);
    lemma_bounds(a, size(k), 1real, 2real);
    lemma_rounded_product(v, f);
    let r = real_of(v.product(f));
    lemma_size_of_both(a, k - (1real - b));
    lemma_bounds(a, size(k - (1real - b)), 1real, 1real / 10000000real);
    lemma_less(k, 1real - b, a);
    lemma_less(1real, b, a);
    assert(a * 1real == a && (a * b) * 1real == a * b);
    lemma_size_of_sum(r - a * k, a * (k - (1real - b)));
    assert((r - a * k) + a * (k - (1real - b)) == r - (a - a * b));
}

/// A channel on the wheel, from what it has lost.
proof fn lemma_told(c: Hsv, n: real, p: Single, loss: real)
    requires
        0real <= real_of(c.s) <= 1real,
        0real <= real_of(c.v) <= 1real,
        size(wheel(n + real_of(c.h) / 60real) - loss) <= 1real / 400000real,
        within(p, real_of(c.v) - (real_of(c.v) * real_of(c.s)) * loss, 1real / 200000real) || p == c.v
            && loss == 0real && p.finite(),
    ensures
        within(p, channel(c, n), 1real / 100000real),
{
    let k = real_of(c.v) * real_of(c.s);
    let u = wheel(n + real_of(c.h) / 60real);
    assert(0real <= k <= 1real) by {
        lemma_bounds(real_of(c.v), real_of(c.s), 1real, 1real);
        assert(k >= 0real) by (nonlinear_arith)
            requires
                k == real_of(c.v) * real_of(c.s),
                real_of(c.v) >= 0real,
                real_of(c.s) >= 0real,
        ;
    }
    assert(size(k) == k) by {
        reveal(size);
    }
    lemma_size_of_both(k, u - loss);
    lemma_bounds(k, size(u - loss), 1real, 1real / 400000real);
    lemma_less(u, loss, k);
    assert(k * 0real == 0real);
    let want = real_of(c.v) - k * loss;
    assert(size(real_of(p) - want) <= 1real / 200000real) by {
        if p == c.v && loss == 0real {
            reveal(size);
        }
    }
    assert(size(-(k * (u - loss))) == size(k * (u - loss))) by {
        lemma_size_of_sum(k * (u - loss), 0real);
    }
    lemma_size_of_sum(real_of(p) - want, k * (u - loss));
    assert((real_of(p) - want) + k * (u - loss) == real_of(p) - channel(c, n));
}

pub proof fn lemma_quotient_sign(a: Single, b: Single)
    requires
        a.finite() && b.finite(),
        real_of(a) >= 0real,
        real_of(b) > 0real,
        !b.negative(),
        a.quotient(b).finite(),
    ensures
        real_of(a.quotient(b)) >= 0real,
{
    let r = a.quotient(b);
    lemma_magnitude_real(a);
    lemma_magnitude_real(r);
    lemma_units(a);
    lemma_units(b);
    lemma_units(r);
    lemma_below_nothing(magnitude(r.code()));
    reveal(Single::quotient);
    let (m, n) = (magnitude(a.code()), magnitude(b.code()));
    let u = pow2(149) as real;
    assert(size(real_of(b)) == real_of(b)) by {
        reveal(size);
    }
    lemma_units_order(0real, real_of(b), u);
    assert(0real * u == 0real);
    assert(n > 0);
    lemma_nought();
    let k = m * pow2(149);
    assert(k >= 0 && (m == 0 ==> k == 0)) by (nonlinear_arith)
        requires
            k == m * pow2(149),
            m >= 0,
            pow2(149) > 0,
    ;
    lemma_round_exists(k, n);
    lemma_with_sign(a.negative(), round_to_code(k, n));
    if a.negative() {
        lemma_units_order(0real, size(real_of(a)), u);
        lemma_below_nothing(m);
        assert(m == 0) by {
            reveal(size);
        }
        lemma_round_zero(n);
        assert(0real / u == 0real) by (nonlinear_arith)
            requires
                u > 0real,
        ;
    }
}

} // verus!
