//! What tempering keeps: gentle moves stay, strong ones stay under their
//! ceilings, the white point stays up, and a recipe stays within its limits.

use vstd::prelude::*;
use vstd::arithmetic::div_mod::{lemma_fundamental_div_mod, lemma_mod_bound};
use vstd::arithmetic::power2::{lemma2_to64, lemma_pow2_adds, lemma_pow2_pos, pow2};
use crate::bounds::in_band;
use crate::exact::{code_of, lemma_difference_exact, lemma_representable, lemma_sum_rounds};
use crate::grade::{
    cap_factor, knees_at, soft_capped, white_point_floor, whites_tempered, Knees, CALIBRATED,
    SOFT_CAP_SPREAD, TEMPER_POINT_CEIL, TEMPER_POINT_KNEE, TEMPER_TONE_CEIL, TEMPER_TONE_KNEE,
};
use crate::numbers::{HALF, HUNDRED, MINUS_HUNDRED, MINUS_ONE, ONE, THREE_TENTHS, ZERO};
use crate::recipe::{AdjustmentView, RecipeView};
use crate::rounding::{
    lemma_product_is_number, lemma_round_at_least, lemma_round_at_most, lemma_round_exists,
    lemma_round_monotone, lemma_single_from_parts,
};
use crate::single::{
    lemma_codes_order, lemma_round_exact, lemma_round_zero, magnitude, num, round_to_code, Single,
    BINADE, INFINITE,
};

verus! {

/// One, and what it is in units.
proof fn lemma_one()
    ensures
        magnitude(ONE as int) == pow2(149),
        num(ONE).code() == ONE,
        num(MINUS_ONE).code() == ONE,
        !num(ONE).negative(),
        num(MINUS_ONE).negative(),
        pow2(149) > 0,
{
    lemma2_to64();
    lemma_pow2_pos(149);
    lemma_pow2_adds(23, 126);
    assert(ONE as int / (BINADE as int) == 127 && ONE as int % (BINADE as int) == 0);
}

/// A code's number, scaled and shared by the same, rounds to the code.
proof fn lemma_round_scaled_exact(code: int, d: int)
    requires
        0 <= code <= INFINITE,
        d > 0,
    ensures
        round_to_code(magnitude(code) * d, d) == code,
{
    let n = magnitude(code) * d;
    lemma_round_at_least(n, d, code);
    lemma_codes_order(code, 0);
    assert(n >= 0) by (nonlinear_arith)
        requires
            n == magnitude(code) * d,
            magnitude(code) >= 0,
            d > 0,
    ;
    lemma_round_at_most(n, d, code);
    lemma_round_at_least(n, d, code);
}

/// Once a value is the value, and minus once its opposite.
proof fn lemma_times_one(x: Single)
    requires
        x.finite(),
    ensures
        x.product(num(ONE)) == x,
        num(ONE).product(x) == x,
        num(MINUS_ONE).product(x) == x.negation(),
{
    lemma_one();
    let p = pow2(149) as int;
    reveal(Single::product);
    lemma_codes_order(x.code(), 0);
    lemma_round_scaled_exact(x.code(), p);
    assert(p * magnitude(x.code()) == magnitude(x.code()) * p) by (nonlinear_arith);
    lemma_single_from_parts(x.product(num(ONE)), x);
    lemma_single_from_parts(num(ONE).product(x), x);
    lemma_single_from_parts(num(MINUS_ONE).product(x), x.negation());
}

/// A knee and a ceiling that softening can work with: the ceiling is not below
/// the knee, and not above twice the knee.
pub open spec fn usable(knee: Single, ceil: Single) -> bool {
    &&& knee.finite() && ceil.finite()
    &&& !knee.negative() && !ceil.negative()
    &&& magnitude(knee.code()) <= magnitude(ceil.code()) <= 2 * magnitude(knee.code())
}

/// A gentle move stays as it is.
pub proof fn gentle_moves_are_left_alone(v: Single, knee: Single, ceil: Single)
    requires
        v.absolute().at_most(knee),
    ensures
        soft_capped(v, knee, ceil) == v,
{
}

/// The smaller of two values shared by the larger is at most one.
proof fn lemma_quotient_at_most_one(a: Single, b: Single)
    requires
        a.finite(),
        !b.nan(),
        !a.negative(),
        !b.negative(),
        0 < a.code() <= b.code(),
    ensures
        !a.quotient(b).negative(),
        a.quotient(b).code() <= ONE,
{
    lemma_one();
    let p = pow2(149) as int;
    reveal(Single::quotient);
    if b.finite() {
        let n = magnitude(a.code());
        let d = magnitude(b.code());
        lemma_codes_order(b.code(), a.code());
        lemma_codes_order(b.code(), 0);
        lemma_codes_order(a.code(), 0);
        assert(0 <= n * p <= p * d) by (nonlinear_arith)
            requires
                0 < n <= d,
                p > 0,
        ;
        lemma_round_exists(n * p, d);
        lemma_round_at_most(n * p, d, ONE as int);
    }
}

/// A value times at most one is at most the value.
pub proof fn lemma_product_at_most(a: Single, q: Single)
    requires
        a.finite(),
        !a.negative(),
        !q.negative(),
        q.code() <= ONE,
    ensures
        !a.product(q).negative(),
        a.product(q).code() <= a.code(),
{
    lemma_one();
    let p = pow2(149) as int;
    let n = magnitude(a.code());
    let k = magnitude(q.code());
    lemma_codes_order(q.code(), ONE as int);
    lemma_codes_order(q.code(), 0);
    lemma_codes_order(a.code(), 0);
    assert(0 <= n * k <= n * p) by (nonlinear_arith)
        requires
            0 <= k <= p,
            n >= 0,
    ;
    lemma_round_exists(n * k, p);
    lemma_round_at_most(n * k, p, a.code());
    reveal(Single::product);
}

/// A larger value less a smaller one.
proof fn lemma_excess(a: Single, b: Single)
    requires
        a.finite(),
        b.finite(),
        !a.negative(),
        !b.negative(),
        b.code() < a.code(),
    ensures
        0 < a.difference(b).code() <= a.code(),
        !a.difference(b).negative(),
{
    lemma_codes_order(b.code(), a.code());
    lemma_codes_order(b.code(), 0);
    let gap = magnitude(a.code()) - magnitude(b.code());
    lemma_round_exists(gap, 1);
    lemma_round_at_most(gap, 1, a.code());
    assert(magnitude(1) == 1);
    lemma_round_at_least(gap, 1, 1);
    reveal(Single::sum);
    let n = b.negation();
    assert(n.code() == b.code() && n.negative());
}

/// However strong a move is, softening keeps it under its ceiling, and on its
/// side.
pub proof fn softening_stays_under_its_ceiling(v: Single, knee: Single, ceil: Single)
    requires
        v.finite(),
        usable(knee, ceil),
    ensures
        soft_capped(v, knee, ceil).finite(),
        soft_capped(v, knee, ceil).absolute().at_most(ceil),
        soft_capped(v, knee, ceil).negative() == v.negative(),
{
    let a = v.absolute();
    assert(a.code() == v.code() && !a.negative());
    lemma_codes_order(knee.code(), ceil.code());
    lemma_codes_order(knee.code(), 0);
    if !a.at_most(knee) {
        lemma_difference_exact(knee, ceil);
        let span = ceil.difference(knee);
        let excess = a.difference(knee);
        lemma_excess(a, knee);
        lemma_codes_order(excess.code(), 0);
        lemma_codes_order(span.code(), 0);
        let den = excess.sum(span);
        lemma_sum_rounds(excess, span);
        lemma_round_at_least(
            magnitude(excess.code()) + magnitude(span.code()),
            1,
            excess.code(),
        );
        let q = excess.quotient(den);
        lemma_quotient_at_most_one(excess, den);
        let part = span.product(q);
        lemma_product_at_most(span, q);
        lemma_codes_order(part.code(), span.code());
        lemma_codes_order(part.code(), 0);
        let out = knee.sum(part);
        lemma_sum_rounds(knee, part);
        lemma_round_at_most(
            magnitude(knee.code()) + magnitude(part.code()),
            1,
            ceil.code(),
        );
        assert(out.code() <= ceil.code());
        lemma_times_one(out);
        assert(out.negation().code() == out.code() && out.negation().negative());
    }
}

/// A number rounds to one that is no further from it than the digits reach.
proof fn lemma_round_close(n: int, d: int, j: nat)
    requires
        0 <= n,
        d > 0,
        j <= 252,
        n < (0xFF_FFFF * pow2(j)) * d,
    ensures
        magnitude(round_to_code(n, d)) * d <= n + pow2(j) * d,
        n <= magnitude(round_to_code(n, d)) * d + pow2(j) * d,
        round_to_code(n, d) < INFINITE,
{
    lemma_pow2_pos(j);
    let u = pow2(j) as int;
    let g = u * d;
    assert(g > 0) by (nonlinear_arith)
        requires
            u > 0,
            d > 0,
            g == u * d,
    ;
    let m = n / g;
    lemma_fundamental_div_mod(n, g);
    lemma_mod_bound(n, g);
    assert(0 <= m < 0xFF_FFFF && m * g <= n < (m + 1) * g) by (nonlinear_arith)
        requires
            n == g * m + n % g,
            0 <= n % g < g,
            0 <= n,
            n < (0xFF_FFFF * u) * d,
            g == u * d,
            g > 0,
    ;
    lemma_representable(m, j);
    lemma_representable(m + 1, j);
    assert((m * u) * d == m * g && ((m + 1) * u) * d == (m + 1) * g) by (nonlinear_arith)
        requires
            g == u * d,
    ;
    let c = round_to_code(n, d);
    lemma_round_exists(n, d);
    lemma_round_at_least(n, d, code_of(m, j));
    lemma_round_at_most(n, d, code_of(m + 1, j));
    lemma_codes_order(c, code_of(m, j));
    lemma_codes_order(c, code_of(m + 1, j));
    let x = magnitude(c);
    assert(m * u <= x <= (m + 1) * u);
    assert(x * d <= n + g && n <= x * d + g) by (nonlinear_arith)
        requires
            m * u <= x <= (m + 1) * u,
            m * g <= n < (m + 1) * g,
            g == u * d,
            d > 0,
    ;
}

/// Some numbers in units.
proof fn lemma_units()
    ensures
        2 * magnitude(HALF as int) == pow2(149),
        8 * magnitude(0x3EC0_0000) == 3 * pow2(149),
        8 * magnitude(0x3F20_0000) == 5 * pow2(149),
        8 * magnitude(0x3FB0_0000) == 11 * pow2(149),
        4 * magnitude(SOFT_CAP_SPREAD as int) <= 3 * pow2(149),
        magnitude(TEMPER_TONE_KNEE as int) == 50 * pow2(149),
        magnitude(TEMPER_TONE_CEIL as int) == 70 * pow2(149),
        magnitude(TEMPER_POINT_KNEE as int) == 30 * pow2(149),
        magnitude(TEMPER_POINT_CEIL as int) == 45 * pow2(149),
        magnitude(HUNDRED as int) == 100 * pow2(149),
        pow2(149) == 0x2_0000 * pow2(132),
        pow2(132) > 0,
{
    lemma2_to64();
    lemma_pow2_pos(125);
    lemma_pow2_pos(132);
    lemma_pow2_adds(24, 125);
    lemma_pow2_adds(1, 125);
    lemma_pow2_adds(5, 125);
    lemma_pow2_adds(6, 125);
    lemma_pow2_adds(7, 125);
    lemma_pow2_adds(17, 132);
    let u = pow2(125) as int;
    assert(HALF as int / (BINADE as int) == 126 && HALF as int % (BINADE as int) == 0);
    assert(0x3EC0_0000int / (BINADE as int) == 125 && 0x3EC0_0000int % (BINADE as int) == 0x40_0000);
    lemma_pow2_adds(1, 124);
    assert(0x3F20_0000int / (BINADE as int) == 126 && 0x3F20_0000int % (BINADE as int) == 0x20_0000);
    assert(0x3FB0_0000int / (BINADE as int) == 127 && 0x3FB0_0000int % (BINADE as int) == 0x30_0000);
    assert(SOFT_CAP_SPREAD as int / (BINADE as int) == 126 && SOFT_CAP_SPREAD as int % (
    BINADE as int) == 0x33_3333);
    assert(TEMPER_TONE_KNEE as int / (BINADE as int) == 132 && TEMPER_TONE_KNEE as int % (
    BINADE as int) == 0x48_0000);
    assert(TEMPER_TONE_CEIL as int / (BINADE as int) == 133 && TEMPER_TONE_CEIL as int % (
    BINADE as int) == 0x0C_0000);
    assert(TEMPER_POINT_KNEE as int / (BINADE as int) == 131 && TEMPER_POINT_KNEE as int % (
    BINADE as int) == 0x70_0000);
    assert(TEMPER_POINT_CEIL as int / (BINADE as int) == 132 && TEMPER_POINT_CEIL as int % (
    BINADE as int) == 0x34_0000);
    assert(HUNDRED as int / (BINADE as int) == 133 && HUNDRED as int % (BINADE as int)
        == 0x48_0000);
}

/// The factor of any position of the dial lies between five and eleven eighths.
proof fn lemma_factor_bounds(s: Single)
    requires
        num(ZERO).at_most(s),
        s.at_most(num(ONE)),
    ensures
        cap_factor(s).finite(),
        !cap_factor(s).negative(),
        5 * pow2(149) <= 8 * magnitude(cap_factor(s).code()) <= 11 * pow2(149),
{
    lemma_one();
    lemma_units();
    let p = pow2(149) as int;
    let ss = magnitude(s.code());
    lemma_codes_order(s.code(), ONE as int);
    lemma_codes_order(s.code(), 0);
    let half = magnitude(HALF as int);
    let x = s.difference(num(HALF));
    assert(x.code() <= HALF) by {
        reveal(Single::sum);
        let n = num(HALF).negation();
        assert(n.code() == HALF && n.negative());
        assert(s.value() == ss) by {
            if s.negative() {
                assert(s.code() == 0);
            }
        }
        let v = ss - half;
        let w = if v < 0 {
            -v
        } else {
            v
        };
        lemma_round_exists(w, 1);
        lemma_round_at_most(w, 1, HALF as int);
    }
    lemma_codes_order(x.code(), HALF as int);
    lemma_codes_order(x.code(), 0);
    let y = x.product(num(SOFT_CAP_SPREAD));
    let xx = magnitude(x.code());
    let spread = magnitude(SOFT_CAP_SPREAD as int);
    let three_eighths = magnitude(0x3EC0_0000);
    assert(y.code() <= 0x3EC0_0000) by {
        reveal(Single::product);
        assert(0 <= xx * spread <= three_eighths * p) by (nonlinear_arith)
            requires
                0 <= 2 * xx <= p,
                0 <= 4 * spread <= 3 * p,
                8 * three_eighths == 3 * p,
        ;
        lemma_round_exists(xx * spread, p);
        lemma_round_at_most(xx * spread, p, 0x3EC0_0000);
    }
    lemma_codes_order(y.code(), 0x3EC0_0000);
    lemma_codes_order(y.code(), 0);
    reveal(Single::sum);
    let v = p + y.value();
    lemma_round_exists(v, 1);
    lemma_round_at_least(v, 1, 0x3F20_0000);
    lemma_round_at_most(v, 1, 0x3FB0_0000);
    let f = cap_factor(s);
    lemma_codes_order(f.code(), 0x3F20_0000);
    lemma_codes_order(f.code(), 0x3FB0_0000);
}

/// A whole number up to a hundred, times a factor near one.
proof fn lemma_scaled(bits: u32, k: int, f: Single)
    requires
        bits < INFINITE,
        magnitude(bits as int) == k * pow2(149),
        0 < k <= 70,
        f.finite(),
        !f.negative(),
        5 * pow2(149) <= 8 * magnitude(f.code()) <= 11 * pow2(149),
    ensures
        ({
            let r = num(bits).product(f);
            &&& r.finite()
            &&& !r.negative()
            &&& magnitude(r.code()) <= k * magnitude(f.code()) + pow2(132)
            &&& k * magnitude(f.code()) <= magnitude(r.code()) + pow2(132)
        }),
{
    lemma_units();
    lemma_one();
    let p = pow2(149) as int;
    let e = pow2(132) as int;
    let ff = magnitude(f.code());
    let n = (k * p) * ff;
    assert(n == (k * ff) * p) by (nonlinear_arith)
        requires
            n == (k * p) * ff,
    ;
    assert(0 <= n < (0xFF_FFFF * e) * p) by (nonlinear_arith)
        requires
            n == (k * ff) * p,
            0 < k <= 70,
            0 <= 8 * ff <= 11 * p,
            p == 0x2_0000 * e,
            e > 0,
    {
        assert(k * ff <= 70 * ff) by (nonlinear_arith)
            requires
                k <= 70,
                ff >= 0,
        ;
        assert(70 * ff < 0xFF_FFFF * e) by (nonlinear_arith)
            requires
                0 <= 8 * ff <= 11 * p,
                p == 0x2_0000 * e,
                e > 0,
        ;
        assert((k * ff) * p < (0xFF_FFFF * e) * p) by (nonlinear_arith)
            requires
                k * ff < 0xFF_FFFF * e,
                p > 0,
                p == 0x2_0000 * e,
                e > 0,
        ;
        assert(k * ff >= 0) by (nonlinear_arith)
            requires
                k > 0,
                ff >= 0,
        ;
        assert((k * ff) * p >= 0) by (nonlinear_arith)
            requires
                k * ff >= 0,
                p == 0x2_0000 * e,
                e > 0,
        ;
    }
    lemma_round_close(n, p, 132);
    reveal(Single::product);
    lemma_round_exists(n, p);
    let r = num(bits).product(f);
    let x = magnitude(r.code());
    assert(x * p <= n + e * p && n <= x * p + e * p);
    assert(x <= k * ff + e && k * ff <= x + e) by (nonlinear_arith)
        requires
            x * p <= n + e * p,
            n <= x * p + e * p,
            n == (k * ff) * p,
            p > 0,
    ;
}

/// At every position of the dial, every knee and its ceiling are usable, and no
/// ceiling reaches the end of its slider.
pub proof fn knees_are_usable_at_every_strength(s: Single)
    requires
        num(ZERO).at_most(s),
        s.at_most(num(ONE)),
    ensures
        usable(knees_at(cap_factor(s)).tone_knee, knees_at(cap_factor(s)).tone_ceil),
        usable(knees_at(cap_factor(s)).point_knee, knees_at(cap_factor(s)).point_ceil),
        knees_at(cap_factor(s)).tone_ceil.less(num(HUNDRED)),
        knees_at(cap_factor(s)).point_ceil.less(num(HUNDRED)),
{
    lemma_units();
    lemma_factor_bounds(s);
    let f = cap_factor(s);
    let k = knees_at(f);
    let p = pow2(149) as int;
    lemma_scaled(TEMPER_TONE_KNEE, 50, f);
    lemma_scaled(TEMPER_TONE_CEIL, 70, f);
    lemma_scaled(TEMPER_POINT_KNEE, 30, f);
    lemma_scaled(TEMPER_POINT_CEIL, 45, f);
    lemma_codes_order(k.tone_ceil.code(), HUNDRED as int);
    lemma_codes_order(k.point_ceil.code(), HUNDRED as int);
}

/// At the calibrated strength the factor is one, and the knees and ceilings are
/// those that were tuned.
pub proof fn calibrated_strength_changes_nothing()
    ensures
        cap_factor(num(CALIBRATED)) == num(ONE),
        knees_at(cap_factor(num(CALIBRATED))) == (Knees {
            tone_knee: num(TEMPER_TONE_KNEE),
            tone_ceil: num(TEMPER_TONE_CEIL),
            point_knee: num(TEMPER_POINT_KNEE),
            point_ceil: num(TEMPER_POINT_CEIL),
        }),
{
    lemma_one();
    let h = num(CALIBRATED);
    let x = h.difference(h);
    assert(x == num(ZERO)) by {
        reveal(Single::sum);
        let n = h.negation();
        assert(n.code() == h.code() && n.negative());
        assert(n.value() == -h.value());
    }
    let y = x.product(num(SOFT_CAP_SPREAD));
    assert(y == num(ZERO)) by {
        reveal(Single::product);
        assert(magnitude(0) == 0);
        assert(0 * magnitude(SOFT_CAP_SPREAD as int) == 0);
        lemma_round_zero(pow2(149) as int);
    }
    assert(num(ONE).sum(y) == num(ONE)) by {
        reveal(Single::sum);
        assert(magnitude(0) == 0);
        lemma_round_exact(ONE as int);
    }
    lemma_times_one(num(TEMPER_TONE_KNEE));
    lemma_times_one(num(TEMPER_TONE_CEIL));
    lemma_times_one(num(TEMPER_POINT_KNEE));
    lemma_times_one(num(TEMPER_POINT_CEIL));
}

/// Whatever the strength, the white point is not left below the floor that pulled
/// highlights ask for. The floor itself does not depend on the strength.
pub proof fn the_white_point_keeps_its_floor(whites: Single, highlights: Single, k: Knees)
    requires
        highlights.less(num(ZERO)),
    ensures
        white_point_floor(highlights) is Some,
        white_point_floor(highlights)->0.at_most(
            whites_tempered(whites, highlights, k.point_knee, k.point_ceil),
        ),
{
    let up = highlights.negation();
    assert(up.code() == highlights.code() && !up.negative());
    let g = up.product(num(THREE_TENTHS));
    assert(!g.nan()) by {
        if up.finite() {
            lemma_product_is_number(up, num(THREE_TENTHS));
        } else {
            reveal(Single::product);
        }
    }
}

/// Two signed numbers in order round to singles in order.
proof fn lemma_signed_order(v1: int, v2: int)
    requires
        v1 <= v2,
    ensures
        ({
            let a = Single::with_sign(v1 < 0, round_to_code(if v1 < 0 { -v1 } else { v1 }, 1));
            let b = Single::with_sign(v2 < 0, round_to_code(if v2 < 0 { -v2 } else { v2 }, 1));
            a.at_most(b)
        }),
{
    let w1 = if v1 < 0 {
        -v1
    } else {
        v1
    };
    let w2 = if v2 < 0 {
        -v2
    } else {
        v2
    };
    lemma_round_exists(w1, 1);
    lemma_round_exists(w2, 1);
    if v1 >= 0 {
        lemma_round_monotone(w1, 1, w2, 1);
    } else if v2 < 0 {
        lemma_round_monotone(w2, 1, w1, 1);
    }
}

/// Adding the same to two values keeps their order.
pub proof fn lemma_sum_keeps_order(a: Single, b: Single, c: Single)
    requires
        a.finite(),
        b.finite(),
        c.finite(),
        a.at_most(b),
    ensures
        a.sum(c).at_most(b.sum(c)),
        c.sum(a).at_most(c.sum(b)),
{
    reveal(Single::sum);
    lemma_codes_order(a.code(), b.code());
    lemma_codes_order(a.code(), 0);
    lemma_codes_order(b.code(), 0);
    assert(a.value() <= b.value());
    lemma_signed_order(a.value() + c.value(), b.value() + c.value());
    lemma_round_zero(1);
}

/// Multiplying two values by the same, not below nought, keeps their order.
pub proof fn lemma_product_keeps_order(a: Single, b: Single, c: Single)
    requires
        a.finite(),
        b.finite(),
        c.finite(),
        !c.negative(),
        a.at_most(b),
    ensures
        a.product(c).at_most(b.product(c)),
{
    lemma_one();
    let p = pow2(149) as int;
    reveal(Single::product);
    let x = magnitude(a.code());
    let y = magnitude(b.code());
    let z = magnitude(c.code());
    lemma_codes_order(a.code(), b.code());
    lemma_codes_order(a.code(), 0);
    lemma_codes_order(b.code(), 0);
    lemma_codes_order(c.code(), 0);
    assert(x * z >= 0 && y * z >= 0) by (nonlinear_arith)
        requires
            x >= 0,
            y >= 0,
            z >= 0,
    ;
    lemma_round_exists(x * z, p);
    lemma_round_exists(y * z, p);
    if a.negative() && b.negative() {
        assert((y * z) * p <= (x * z) * p) by (nonlinear_arith)
            requires
                y <= x,
                z >= 0,
                p > 0,
        ;
        lemma_round_monotone(y * z, p, x * z, p);
    } else if !a.negative() && !b.negative() {
        assert((x * z) * p <= (y * z) * p) by (nonlinear_arith)
            requires
                x <= y,
                z >= 0,
                p > 0,
        ;
        lemma_round_monotone(x * z, p, y * z, p);
    } else if !a.negative() && b.negative() {
        // Both are nought.
        assert(a.code() == 0 && b.code() == 0);
        assert(magnitude(0) == 0);
        assert(x * z == 0 && y * z == 0) by (nonlinear_arith)
            requires
                x == 0,
                y == 0,
        ;
        lemma_round_zero(p);
    }
}

/// The stronger the grade, the further out its knees and ceilings.
pub proof fn the_factor_grows_with_strength(s: Single, t: Single)
    requires
        num(ZERO).at_most(s),
        s.at_most(t),
        t.at_most(num(ONE)),
    ensures
        cap_factor(s).at_most(cap_factor(t)),
{
    lemma_one();
    let h = num(CALIBRATED).negation();
    assert(h.finite());
    lemma_sum_keeps_order(s, t, h);
    let x = s.difference(num(CALIBRATED));
    let y = t.difference(num(CALIBRATED));
    lemma_small_difference(s);
    lemma_small_difference(t);
    lemma_product_keeps_order(x, y, num(SOFT_CAP_SPREAD));
    lemma_sum_keeps_order(
        x.product(num(SOFT_CAP_SPREAD)),
        y.product(num(SOFT_CAP_SPREAD)),
        num(ONE),
    );
}

/// A position of the dial less the calibrated one is small, and so is its share.
proof fn lemma_small_difference(s: Single)
    requires
        num(ZERO).at_most(s),
        s.at_most(num(ONE)),
    ensures
        s.difference(num(CALIBRATED)).finite(),
        s.difference(num(CALIBRATED)).product(num(SOFT_CAP_SPREAD)).finite(),
{
    lemma_one();
    lemma_units();
    lemma_codes_order(s.code(), ONE as int);
    lemma_codes_order(s.code(), 0);
    let p = pow2(149) as int;
    let ss = magnitude(s.code());
    let half = magnitude(HALF as int);
    let x = s.difference(num(CALIBRATED));
    assert(x.code() <= HALF) by {
        reveal(Single::sum);
        let n = num(HALF).negation();
        assert(n.code() == HALF && n.negative());
        assert(s.value() == ss) by {
            if s.negative() {
                assert(s.code() == 0);
            }
        }
        let v = ss - half;
        let w = if v < 0 {
            -v
        } else {
            v
        };
        lemma_round_exists(w, 1);
        lemma_round_at_most(w, 1, HALF as int);
    }
    let xx = magnitude(x.code());
    let spread = magnitude(SOFT_CAP_SPREAD as int);
    lemma_codes_order(x.code(), HALF as int);
    lemma_codes_order(x.code(), 0);
    assert(x.product(num(SOFT_CAP_SPREAD)).code() <= ONE) by {
        reveal(Single::product);
        assert(0 <= xx * spread <= p * p) by (nonlinear_arith)
            requires
                0 <= 2 * xx <= p,
                0 <= 4 * spread <= 3 * p,
        ;
        lemma_round_exists(xx * spread, p);
        lemma_round_at_most(xx * spread, p, ONE as int);
    }
}

proof fn lemma_soft_in_band(v: Single, knee: Single, ceil: Single)
    requires
        in_band(v, MINUS_HUNDRED, HUNDRED),
        usable(knee, ceil),
        ceil.less(num(HUNDRED)),
    ensures
        in_band(soft_capped(v, knee, ceil), MINUS_HUNDRED, HUNDRED),
{
    reveal(in_band);
    softening_stays_under_its_ceiling(v, knee, ceil);
    let r = soft_capped(v, knee, ceil);
    assert(r.absolute().code() == r.code() && !r.absolute().negative());
}

proof fn lemma_whites_in_band(whites: Single, highlights: Single, knee: Single, ceil: Single)
    requires
        in_band(whites, MINUS_HUNDRED, HUNDRED),
        usable(knee, ceil),
        ceil.less(num(HUNDRED)),
    ensures
        in_band(whites_tempered(whites, highlights, knee, ceil), MINUS_HUNDRED, HUNDRED),
{
    lemma_soft_in_band(whites, knee, ceil);
    reveal(in_band);
    if highlights.less(num(ZERO)) {
        let up = highlights.negation();
        assert(up.code() == highlights.code() && !up.negative());
        let g = up.product(num(THREE_TENTHS));
        assert(!g.nan() && !g.negative()) by {
            if up.finite() {
                lemma_product_is_number(up, num(THREE_TENTHS));
            } else {
                reveal(Single::product);
            }
        }
    }
}

proof fn lemma_mask_stays_within(m: AdjustmentView, k: Knees)
    requires
        m.within_limits(),
        usable(k.tone_knee, k.tone_ceil),
        usable(k.point_knee, k.point_ceil),
        k.tone_ceil.less(num(HUNDRED)),
        k.point_ceil.less(num(HUNDRED)),
    ensures
        m.tempered(k).within_limits(),
{
    lemma_soft_in_band(m.highlights, k.tone_knee, k.tone_ceil);
    lemma_soft_in_band(m.shadows, k.tone_knee, k.tone_ceil);
    lemma_whites_in_band(m.whites, m.highlights, k.point_knee, k.point_ceil);
    lemma_soft_in_band(m.blacks, k.point_knee, k.point_ceil);
}

/// Tempering at any strength leaves a recipe within its limits.
pub proof fn tempering_keeps_the_limits(r: RecipeView, s: Single)
    requires
        r.within_limits(),
        num(ZERO).at_most(s),
        s.at_most(num(ONE)),
    ensures
        r.tempered(s).within_limits(),
{
    knees_are_usable_at_every_strength(s);
    let k = knees_at(cap_factor(s));
    lemma_soft_in_band(r.highlights, k.tone_knee, k.tone_ceil);
    lemma_soft_in_band(r.shadows, k.tone_knee, k.tone_ceil);
    lemma_whites_in_band(r.whites, r.highlights, k.point_knee, k.point_ceil);
    lemma_soft_in_band(r.blacks, k.point_knee, k.point_ceil);
    let t = r.tempered(s);
    assert forall|i: int| 0 <= i < t.masks.len() implies (#[trigger] t.masks[i]).within_limits() by {
        assert(r.masks[i].within_limits());
        lemma_mask_stays_within(r.masks[i], k);
    }
}

} // verus!
