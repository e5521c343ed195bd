//! What a single stands for among the real numbers, and how far rounding can move the
//! result of an operation.

use vstd::prelude::*;
use vstd::arithmetic::power2::{
    lemma2_to64, lemma_pow2_adds, lemma_pow2_pos, lemma_pow2_unfold, pow2,
};
use crate::rounding::{lemma_round_exists, lemma_round_at_most, lemma_with_sign};
use crate::numbers::{ONE, ZERO};
use crate::single::{
    lemma_codes_order, magnitude, num, round_to_code, Single, BINADE, INFINITE,
};

verus! {

/// The number that a finite value stands for.
pub open spec fn real_of(v: Single) -> real {
    (v.value() as real) / (pow2(149) as real)
}

/// How large a number is, whatever its sign.
#[verifier::opaque]
pub open spec fn size(a: real) -> real {
    if a < 0real {
        -a
    } else {
        a
    }
}

/// No size is below nought.
pub broadcast proof fn size_is_not_below(a: real)
    ensures
        0real <= #[trigger] size(a),
{
    reveal(size);
}

pub open spec fn distance(a: real, b: real) -> real {
    size(a - b)
}

/// How far rounding moves a number at most: by one part in sixteen million of it, but for
/// what is too small to count.
pub open spec fn slack(x: real) -> real {
    size(x) / 16777000real + 1real / (pow2(149) as real)
}

/// A value close to a number.
pub open spec fn near(v: Single, x: real) -> bool {
    v.finite() && distance(real_of(v), x) <= slack(x)
}

/// The numbers that are far from too large: two to the power of a hundred.
pub open spec fn moderate(x: real) -> bool {
    size(x) <= pow2(100) as real
}

/// Two numbers next to each other are one part in eight million apart.
pub proof fn lemma_gap(c: int)
    requires
        0 <= c < INFINITE,
    ensures
        magnitude(c) < magnitude(c + 1),
        (magnitude(c + 1) - magnitude(c)) * BINADE <= magnitude(c) || magnitude(c + 1) - magnitude(c)
            == 1,
{
    lemma_codes_order(c, c + 1);
    let b = BINADE as int;
    lemma2_to64();
    if c + 1 < BINADE {
    } else if c < BINADE {
        assert((c + 1) / b == 1 && (c + 1) % b == 0);
    } else {
        let e = c / b - 1;
        let f = c % b;
        lemma_pow2_pos(e as nat);
        let p = pow2(e as nat) as int;
        assert(magnitude(c) == (b + f) * p);
        if f < b - 1 {
            assert((c + 1) / b == c / b && (c + 1) % b == f + 1);
            assert((b + (f + 1)) * p - (b + f) * p == p) by (nonlinear_arith);
            assert(magnitude(c + 1) - magnitude(c) == p);
        } else {
            assert((c + 1) / b == c / b + 1 && (c + 1) % b == 0);
            lemma_pow2_unfold((e + 1) as nat);
            assert((b + 0) * (2 * p) - (b + (b - 1)) * p == p) by (nonlinear_arith);
            assert(magnitude(c + 1) - magnitude(c) == p);
        }
        assert(p * b <= (b + f) * p) by (nonlinear_arith)
            requires
                f >= 0,
                p > 0,
        ;
    }
}

/// A fraction is rounded by less than one part in sixteen million, or half a unit.
proof fn lemma_round_close(n: int, d: int)
    requires
        0 <= n,
        d > 0,
        n <= pow2(253) * d,
    ensures
        ({
            let m = magnitude(round_to_code(n, d));
            &&& 0 <= round_to_code(n, d) < INFINITE
            &&& 0 <= m
            &&& 0x100_0000 * (m * d - n) <= m * d + BINADE * d
            &&& 0x100_0000 * (n - m * d) <= m * d + BINADE * d
        }),
{
    lemma_round_exists(n, d);
    let c = round_to_code(n, d);
    let below: int = 0x7E80_0000;
    assert(below / (BINADE as int) == 253 && below % (BINADE as int) == 0);
    lemma_pow2_pos(252);
    lemma_pow2_adds(1, 252);
    lemma2_to64();
    assert(n <= magnitude(below) * d) by (nonlinear_arith)
        requires
            n <= pow2(253) * d,
            pow2(253) == 2 * pow2(252),
            magnitude(below) == BINADE * pow2(252),
            BINADE == 0x80_0000,
            d > 0,
            pow2(252) > 0,
    ;
    lemma_round_at_most(n, d, below);
    lemma_codes_order(0, c);
    let m = magnitude(c);
    assert(magnitude(0) == 0);
    lemma_gap(c);
    let up = magnitude(c + 1) - m;
    let b = BINADE as int;
    assert(2 * n <= (m + magnitude(c + 1)) * d);
    assert(0x100_0000 * (n - m * d) <= m * d + b * d) by (nonlinear_arith)
        requires
            2 * n <= (m + (m + up)) * d,
            up * b <= m || up == 1,
            b == 0x80_0000,
            d > 0,
            m >= 0,
    ;
    if c > 0 {
        lemma_gap(c - 1);
        let down = m - magnitude(c - 1);
        lemma_codes_order(0, c - 1);
        assert((magnitude(c - 1) + m) * d <= 2 * n);
        assert(0x100_0000 * (m * d - n) <= m * d + b * d) by (nonlinear_arith)
            requires
                (m - down + m) * d <= 2 * n,
                down * b <= m - down || down == 1,
                down > 0,
                b == 0x80_0000,
                d > 0,
                m >= 0,
        ;
    } else {
        assert(m * d == 0) by (nonlinear_arith)
            requires
                m == 0,
        ;
        assert(b * d >= 0) by (nonlinear_arith)
            requires
                b > 0,
                d > 0,
        ;
    }
}

/// The same among the real numbers.
pub proof fn lemma_round_near_real(n: int, d: int, x: real)
    requires
        0 <= n,
        d > 0,
        n <= pow2(253) * d,
        x * (d as real) * (pow2(149) as real) == n as real,
    ensures
        ({
            let m = magnitude(round_to_code(n, d));
            &&& 0 <= round_to_code(n, d) < INFINITE
            &&& 0 <= m
            &&& x >= 0real
            &&& distance((m as real) / (pow2(149) as real), x) <= slack(x)
        }),
{
    reveal(size);
    lemma_round_close(n, d);
    lemma_pow2_pos(149);
    let m = magnitude(round_to_code(n, d));
    let u = pow2(149) as real;
    let dr = d as real;
    let mr = m as real;
    let nr = n as real;
    let r = mr / u;
    assert(mr == r * u) by (nonlinear_arith)
        requires
            r == mr / u,
            u > 0real,
    ;
    let du = dr * u;
    assert(du > 0real) by (nonlinear_arith)
        requires
            du == dr * u,
            dr > 0real,
            u > 0real,
    ;
    assert((m * d) as real == mr * dr) by (nonlinear_arith)
        requires
            mr == m as real,
            dr == d as real,
    ;
    assert(mr * dr == r * du && x * du == nr) by (nonlinear_arith)
        requires
            mr == r * u,
            du == dr * u,
            x * dr * u == nr,
    ;
    assert(x >= 0real) by (nonlinear_arith)
        requires
            x * du == nr,
            nr >= 0real,
            du > 0real,
    ;
    assert(r >= 0real) by (nonlinear_arith)
        requires
            mr == r * u,
            mr >= 0real,
            u > 0real,
    ;
    let t = 1real / u;
    assert(t * u == 1real && t > 0real) by (nonlinear_arith)
        requires
            t == 1real / u,
            u > 0real,
    ;
    assert(dr == t * du) by (nonlinear_arith)
        requires
            t * u == 1real,
            du == dr * u,
    ;
    let h = (BINADE * d) as real;
    assert(h == 8388608real * dr);
    // In parts of `du`: sixteen million times the distance is at most `r` and half a
    // unit.
    assert(16777216real * (r - x) <= r + 8388608real * t) by (nonlinear_arith)
        requires
            16777216real * (r * du - x * du) <= r * du + 8388608real * (t * du),
            du > 0real,
    ;
    assert(16777216real * (x - r) <= r + 8388608real * t) by (nonlinear_arith)
        requires
            16777216real * (x * du - r * du) <= r * du + 8388608real * (t * du),
            du > 0real,
    ;
    assert(slack(x) == x / 16777000real + t);
}

/// A sum is close to the exact one.
pub proof fn lemma_sum_near(a: Single, b: Single)
    requires
        a.finite(),
        b.finite(),
        moderate(real_of(a) + real_of(b)),
    ensures
        near(a.sum(b), real_of(a) + real_of(b)),
{
    reveal(size);
    reveal(Single::sum);
    lemma_pow2_pos(149);
    lemma_pow2_pos(153);
    lemma_pow2_adds(100, 149);
    lemma_pow2_adds(4, 249);
    lemma2_to64();
    let u = pow2(149) as real;
    let v = a.value() + b.value();
    let x = real_of(a) + real_of(b);
    assert(x * u == v as real) by (nonlinear_arith)
        requires
            x == (a.value() as real) / u + (b.value() as real) / u,
            v == a.value() + b.value(),
            u > 0real,
    ;
    let n = if v < 0 {
        -v
    } else {
        v
    };
    lemma_bounded(x, v);
    let y = size(x);
    assert(y * (1int as real) * u == n as real) by (nonlinear_arith)
        requires
            x * u == v as real,
            y == (if x < 0real { -x } else { x }),
            n == (if v < 0 { -v } else { v }),
            u > 0real,
    ;
    if v == 0 {
        assert(magnitude(0) == 0);
        assert(x == 0real) by (nonlinear_arith)
            requires
                x * u == 0real,
                u > 0real,
        ;
        lemma_zero_near();
    } else {
        assert((v < 0) == (x < 0real)) by (nonlinear_arith)
            requires
                x * u == v as real,
                u > 0real,
        ;
        lemma_round_near_real(n, 1, y);
        lemma_with_sign(v < 0, round_to_code(n, 1));
        lemma_signed_near(a.sum(b), x, round_to_code(n, 1), v < 0);
    }
}

proof fn lemma_zero_near()
    ensures
        0real / (pow2(149) as real) == 0real,
        0real <= slack(0real),
        1real / (pow2(149) as real) > 0real,
{
    reveal(size);
    lemma_pow2_pos(149);
    let u = pow2(149) as real;
    assert(0real / u == 0real && 1real / u > 0real) by (nonlinear_arith)
        requires
            u > 0real,
    ;
}

/// A moderate number is not too many units.
proof fn lemma_bounded(x: real, v: int)
    requires
        moderate(x),
        x * (pow2(149) as real) == v as real,
    ensures
        (if v < 0 { -v } else { v }) <= pow2(253),
{
    reveal(size);
    lemma_pow2_pos(149);
    lemma_pow2_adds(100, 149);
    lemma_pow2_adds(4, 249);
    lemma2_to64();
    let u = pow2(149) as real;
    let t = pow2(100) as real;
    assert(pow2(249) as real == t * u) by (nonlinear_arith)
        requires
            pow2(249) == pow2(100) * pow2(149),
            t == pow2(100) as real,
            u == pow2(149) as real,
    ;
    assert(-(t * u) <= x * u <= t * u) by (nonlinear_arith)
        requires
            -t <= x <= t,
            u > 0real,
    ;
}

/// A rounded magnitude under its sign.
proof fn lemma_signed_near(v: Single, x: real, code: int, negative: bool)
    requires
        v == Single::with_sign(negative, code),
        0 <= code < INFINITE,
        distance((magnitude(code) as real) / (pow2(149) as real), size(x)) <= slack(size(x)),
        negative ==> x <= 0real,
        !negative ==> x >= 0real,
    ensures
        near(v, x),
{
    reveal(size);
    lemma_with_sign(negative, code);
    lemma_pow2_pos(149);
    let u = pow2(149) as real;
    let m = magnitude(code);
    assert(((-m) as real) / u == -((m as real) / u)) by (nonlinear_arith)
        requires
            u > 0real,
    ;
}

/// A product is close to the exact one.
pub proof fn lemma_product_near(a: Single, b: Single)
    requires
        a.finite(),
        b.finite(),
        moderate(real_of(a) * real_of(b)),
    ensures
        near(a.product(b), real_of(a) * real_of(b)),
{
    reveal(size);
    reveal(Single::product);
    lemma_pow2_pos(149);
    lemma_codes_order(a.code(), 0);
    lemma_codes_order(b.code(), 0);
    let d = pow2(149) as int;
    let u = pow2(149) as real;
    let p = magnitude(a.code());
    let q = magnitude(b.code());
    let ra = (p as real) / u;
    let rb = (q as real) / u;
    let n = p * q;
    let y = ra * rb;
    assert(ra * u == p as real && rb * u == q as real && ra >= 0real && rb >= 0real)
        by (nonlinear_arith)
        requires
            ra == (p as real) / u,
            rb == (q as real) / u,
            u > 0real,
            p >= 0,
            q >= 0,
    ;
    lemma_magnitude_real(a);
    lemma_magnitude_real(b);
    assert(y * u * u == (n as real) && n >= 0 && y >= 0real) by (nonlinear_arith)
        requires
            y == ra * rb,
            ra * u == p as real,
            rb * u == q as real,
            n == p * q,
            p >= 0,
            q >= 0,
            ra >= 0real,
            rb >= 0real,
    ;
    assert(size(real_of(a) * real_of(b)) == y) by (nonlinear_arith)
        requires
            real_of(a) == ra || real_of(a) == -ra,
            real_of(b) == rb || real_of(b) == -rb,
            y == ra * rb,
            y >= 0real,
            size(real_of(a) * real_of(b)) == (if real_of(a) * real_of(b) < 0real {
                -(real_of(a) * real_of(b))
            } else {
                real_of(a) * real_of(b)
            }),
    ;
    lemma_fraction_bounded(y, n, d);
    lemma_round_near_real(n, d, y);
    let negative = a.negative() != b.negative();
    assert(if negative { real_of(a) * real_of(b) == -y } else { real_of(a) * real_of(b) == y })
        by (nonlinear_arith)
        requires
            real_of(a) == (if a.negative() { -ra } else { ra }),
            real_of(b) == (if b.negative() { -rb } else { rb }),
            negative == (a.negative() != b.negative()),
            y == ra * rb,
    ;
    lemma_signed_near(a.product(b), real_of(a) * real_of(b), round_to_code(n, d), negative);
}

/// A value is its magnitude under its sign.
pub proof fn lemma_magnitude_real(a: Single)
    ensures
        real_of(a) == (if a.negative() {
            -((magnitude(a.code()) as real) / (pow2(149) as real))
        } else {
            (magnitude(a.code()) as real) / (pow2(149) as real)
        }),
{
    lemma_pow2_pos(149);
    let u = pow2(149) as real;
    let m = magnitude(a.code());
    assert(((-m) as real) / u == -((m as real) / u)) by (nonlinear_arith)
        requires
            u > 0real,
    ;
}

proof fn lemma_fraction_bounded(y: real, n: int, d: int)
    requires
        d > 0,
        0real <= y,
        moderate(y),
        y * (d as real) * (pow2(149) as real) == n as real,
    ensures
        n <= pow2(253) * d,
{
    reveal(size);
    lemma_pow2_pos(149);
    lemma_pow2_adds(100, 149);
    lemma_pow2_adds(4, 249);
    lemma2_to64();
    let u = pow2(149) as real;
    let t = pow2(100) as real;
    let dr = d as real;
    let top = (pow2(249) * d) as real;
    assert(top == t * u * dr) by (nonlinear_arith)
        requires
            top == (pow2(249) * d) as real,
            pow2(249) == pow2(100) * pow2(149),
            t == pow2(100) as real,
            u == pow2(149) as real,
            dr == d as real,
    ;
    assert(y * dr * u <= t * u * dr) by (nonlinear_arith)
        requires
            0real <= y <= t,
            dr > 0real,
            u > 0real,
    ;
    assert(n <= pow2(249) * d);
    assert(pow2(249) * d <= pow2(253) * d) by (nonlinear_arith)
        requires
            pow2(253) == 16 * pow2(249),
            pow2(249) >= 0,
            d > 0,
    ;
}

/// A quotient is close to the exact one.
pub proof fn lemma_quotient_near(a: Single, b: Single)
    requires
        a.finite(),
        b.finite(),
        real_of(b) != 0real,
        moderate(real_of(a) / real_of(b)),
    ensures
        near(a.quotient(b), real_of(a) / real_of(b)),
{
    reveal(size);
    reveal(Single::quotient);
    lemma_pow2_pos(149);
    lemma_codes_order(a.code(), 0);
    lemma_codes_order(b.code(), 0);
    lemma_magnitude_real(a);
    lemma_magnitude_real(b);
    lemma_zero_near();
    assert(magnitude(0) == 0);
    let u = pow2(149) as real;
    let p = magnitude(a.code());
    let q = magnitude(b.code());
    let ra = (p as real) / u;
    let rb = (q as real) / u;
    assert(q > 0);
    assert(ra * u == p as real && rb * u == q as real && ra >= 0real && rb > 0real)
        by (nonlinear_arith)
        requires
            ra == (p as real) / u,
            rb == (q as real) / u,
            u > 0real,
            p >= 0,
            q > 0,
    ;
    let n = p * pow2(149);
    let y = ra / rb;
    assert(y * rb == ra && y >= 0real) by (nonlinear_arith)
        requires
            y == ra / rb,
            rb > 0real,
            ra >= 0real,
    ;
    assert(y * (q as real) * u == (n as real) && n >= 0) by (nonlinear_arith)
        requires
            y * rb == ra,
            ra * u == p as real,
            rb * u == q as real,
            n == p * pow2(149),
            u == pow2(149) as real,
            p >= 0,
    ;
    let x = real_of(a) / real_of(b);
    let negative = a.negative() != b.negative();
    assert(if negative { x == -y } else { x == y }) by (nonlinear_arith)
        requires
            x == real_of(a) / real_of(b),
            real_of(a) == (if a.negative() { -ra } else { ra }),
            real_of(b) == (if b.negative() { -rb } else { rb }),
            negative == (a.negative() != b.negative()),
            y * rb == ra,
            rb > 0real,
    ;
    lemma_fraction_bounded(y, n, q);
    lemma_round_near_real(n, q, y);
    lemma_signed_near(a.quotient(b), x, round_to_code(n, q), negative);
}

/// A value with the other sign is the number with the other sign.
pub proof fn lemma_negation_real(a: Single)
    requires
        a.finite(),
    ensures
        a.negation().finite(),
        real_of(a.negation()) == -real_of(a),
{
    lemma_magnitude_real(a);
    lemma_magnitude_real(a.negation());
    assert(magnitude(0) == 0);
    lemma_zero_near();
}

/// A difference is close to the exact one.
pub proof fn lemma_difference_near(a: Single, b: Single)
    requires
        a.finite(),
        b.finite(),
        moderate(real_of(a) - real_of(b)),
    ensures
        near(a.difference(b), real_of(a) - real_of(b)),
{
    reveal(size);
    lemma_negation_real(b);
    lemma_sum_near(a, b.negation());
}

/// Values are ordered as their numbers are.
pub proof fn lemma_order_real(a: Single, b: Single)
    requires
        a.finite(),
        b.finite(),
    ensures
        a.less(b) <==> real_of(a) < real_of(b),
        a.at_most(b) <==> real_of(a) <= real_of(b),
{
    lemma_pow2_pos(149);
    lemma_codes_order(a.code(), b.code());
    lemma_codes_order(b.code(), a.code());
    lemma_codes_order(a.code(), 0);
    lemma_codes_order(b.code(), 0);
    assert(magnitude(0) == 0);
    let u = pow2(149) as real;
    let x = a.value();
    let y = b.value();
    assert(((x as real) / u < (y as real) / u) == (x < y)) by (nonlinear_arith)
        requires
            u > 0real,
    ;
    assert(((x as real) / u <= (y as real) / u) == (x <= y)) by (nonlinear_arith)
        requires
            u > 0real,
    ;
}

/// A value within `e` of a number.
pub open spec fn within(v: Single, x: real, e: real) -> bool {
    v.finite() && distance(real_of(v), x) <= e
}

/// What rounding can do to a number that is not above `b`.
pub open spec fn loss(b: real) -> real {
    b / 16700000real
}

/// A bound that is worth the name.
pub open spec fn a_bound(b: real) -> bool {
    1real / 1000real <= b <= 1000000real
}

proof fn lemma_slack(x: real, b: real)
    requires
        a_bound(b),
        size(x) <= b,
    ensures
        slack(x) <= loss(b),
        moderate(x),
{
    reveal(size);
    lemma2_to64();
    lemma_pow2_adds(64, 85);
    lemma_pow2_adds(64, 36);
    lemma_pow2_pos(85);
    lemma_pow2_pos(36);
    assert(pow2(149) >= pow2(64)) by (nonlinear_arith)
        requires
            pow2(149) == pow2(64) * pow2(85),
            pow2(85) >= 1,
            pow2(64) > 0,
    ;
    assert(pow2(100) >= pow2(64)) by (nonlinear_arith)
        requires
            pow2(100) == pow2(64) * pow2(36),
            pow2(36) >= 1,
            pow2(64) > 0,
    ;
    let u = pow2(149) as real;
    let t = 1real / u;
    assert(t <= 1real / 10000000000000000real) by (nonlinear_arith)
        requires
            t == 1real / u,
            u >= 10000000000000000real,
    ;
}

/// A sum that is not above `b`.
pub proof fn lemma_sum(a: Single, c: Single, b: real)
    requires
        a.finite(),
        c.finite(),
        a_bound(b),
        size(real_of(a) + real_of(c)) <= b,
    ensures
        within(a.sum(c), real_of(a) + real_of(c), loss(b)),
{
    reveal(size);
    lemma_slack(real_of(a) + real_of(c), b);
    lemma_sum_near(a, c);
}

/// A difference that is not above `b`.
pub proof fn lemma_difference(a: Single, c: Single, b: real)
    requires
        a.finite(),
        c.finite(),
        a_bound(b),
        size(real_of(a) - real_of(c)) <= b,
    ensures
        within(a.difference(c), real_of(a) - real_of(c), loss(b)),
{
    reveal(size);
    lemma_slack(real_of(a) - real_of(c), b);
    lemma_difference_near(a, c);
}

/// A product whose factors are not above `b` and `c`.
pub proof fn lemma_product(v: Single, w: Single, b: real, c: real)
    requires
        v.finite(),
        w.finite(),
        a_bound(b * c),
        size(real_of(v)) <= b,
        size(real_of(w)) <= c,
    ensures
        within(v.product(w), real_of(v) * real_of(w), loss(b * c)),
        size(real_of(v) * real_of(w)) <= b * c,
{
    reveal(size);
    lemma_size_of_product(real_of(v), real_of(w), b, c);
    lemma_slack(real_of(v) * real_of(w), b * c);
    lemma_product_near(v, w);
}

pub proof fn lemma_size_of_product(x: real, y: real, b: real, c: real)
    requires
        size(x) <= b,
        size(y) <= c,
    ensures
        size(x * y) <= b * c,
{
    reveal(size);
    assert(-(b * c) <= x * y <= b * c) by (nonlinear_arith)
        requires
            -b <= x <= b,
            -c <= y <= c,
    ;
}

/// A quotient that is not above `b`.
pub proof fn lemma_quotient(v: Single, w: Single, b: real)
    requires
        v.finite(),
        w.finite(),
        real_of(w) != 0real,
        a_bound(b),
        size(real_of(v) / real_of(w)) <= b,
    ensures
        within(v.quotient(w), real_of(v) / real_of(w), loss(b)),
{
    reveal(size);
    lemma_slack(real_of(v) / real_of(w), b);
    lemma_quotient_near(v, w);
}

/// A value by its digits: `k` times two to the power of minus `s`.
pub proof fn lemma_real_of_digits(bits: u32, k: int, s: nat)
    requires
        BINADE <= bits < INFINITE,
        k == BINADE + bits as int % (BINADE as int),
        s <= 149,
        bits as int / (BINADE as int) - 1 == 149 - s,
    ensures
        (Single { bits }).finite(),
        real_of(Single { bits }) == (k as real) / (pow2(s) as real),
{
    let v = Single { bits };
    assert(v.code() == bits && !v.negative());
    lemma_pow2_pos(s);
    lemma_pow2_pos((149 - s) as nat);
    lemma_pow2_adds(s, (149 - s) as nat);
    let p = pow2((149 - s) as nat) as real;
    let q = pow2(s) as real;
    let u = pow2(149) as real;
    let m = magnitude(v.code());
    assert(m as real == (k as real) * p) by (nonlinear_arith)
        requires
            m == k * pow2((149 - s) as nat),
            p == pow2((149 - s) as nat) as real,
    ;
    assert(u == q * p) by (nonlinear_arith)
        requires
            pow2(149) == pow2(s) * pow2((149 - s) as nat),
            u == pow2(149) as real,
            q == pow2(s) as real,
            p == pow2((149 - s) as nat) as real,
    ;
    assert((m as real) / u == (k as real) / q) by (nonlinear_arith)
        requires
            m as real == (k as real) * p,
            u == q * p,
            p > 0real,
            q > 0real,
    ;
}

/// Nought and one are what they say.
pub proof fn lemma_ends()
    ensures
        num(ZERO).finite(),
        num(ONE).finite(),
        real_of(num(ZERO)) == 0real,
        real_of(num(ONE)) == 1real,
{
    lemma_zero_near();
    assert(magnitude(0) == 0);
    lemma2_to64();
    lemma_real_of_digits(ONE, 0x80_0000, 23);
    assert(8388608real / 8388608real == 1real);
}

} // verus!
