//! What the detail passes, the guard on a grade and the lens corrections are given, among
//! the real numbers.

use vstd::prelude::*;
use vstd::arithmetic::power2::{lemma2_to64, lemma_pow2_pos, pow2};
use crate::cofactors::lemma_less;
use crate::composing::lemma_three;
use crate::detail::weighed;
use crate::grade::{sign, soft_capped};
use crate::heal::Rgb;
use crate::hues::{lemma_quotient_sign, lemma_units, lemma_units_order};
use crate::lens::{fringe_window, hue_on, lateral_unit};
use crate::numbers::{HUNDRED, MINUS_HUNDRED, ONE, TWENTY, ZERO};
use crate::profile::{
    calibration_weight, light_kelvin, KELVIN_2856, KELVIN_5003, KELVIN_5500, KELVIN_5503, KELVIN_6000,
    KELVIN_6500, KELVIN_6504, KELVIN_7500, KELVIN_7504, THOUSAND,
};
use crate::reals::{
    lemma_ends, lemma_magnitude_real, lemma_negation_real, lemma_order_real, lemma_real_of_digits, real_of, size,
    size_is_not_below, within,
};
use crate::rounding::{lemma_round_at_most, lemma_round_exists, lemma_with_sign};
use crate::single::{
    lemma_codes_order, lemma_round_zero, magnitude, num, round_to_code, Single,
};
use crate::sliding::{lemma_mix, lemma_small_numbers};
use crate::stamping::{held, lemma_below_nothing, lemma_held, lemma_next_whole, lemma_nought};
use crate::tempering::lemma_sum_keeps_order;
use crate::vanishing::lemma_back;
use crate::wayback::{
    lemma_absolute, lemma_bounds, lemma_over, lemma_rounded_difference, lemma_rounded_product,
    lemma_rounded_sum, lemma_size_of_both, lemma_size_of_sum, tiny,
};

verus! {

broadcast use size_is_not_below;

/// A brightness is the channels by their own weights, added up.
pub proof fn a_brightness_weighs_each_channel(c: Rgb<Single>, k: Rgb<Single>)
    requires
        c.r.finite() && size(real_of(c.r)) <= 1real,
        c.g.finite() && size(real_of(c.g)) <= 1real,
        c.b.finite() && size(real_of(c.b)) <= 1real,
        k.r.finite() && size(real_of(k.r)) <= 1real,
        k.g.finite() && size(real_of(k.g)) <= 1real,
        k.b.finite() && size(real_of(k.b)) <= 1real,
    ensures
        within(
            weighed(c, k),
            real_of(c.r) * real_of(k.r) + real_of(c.g) * real_of(k.g) + real_of(c.b) * real_of(k.b),
            1real / 1000000real,
        ),
{
    lemma_size_of_both(real_of(c.r), real_of(k.r));
    lemma_size_of_both(real_of(c.g), real_of(k.g));
    lemma_size_of_both(real_of(c.b), real_of(k.b));
    lemma_bounds(size(real_of(c.r)), size(real_of(k.r)), 1real, 1real);
    lemma_bounds(size(real_of(c.g)), size(real_of(k.g)), 1real, 1real);
    lemma_bounds(size(real_of(c.b)), size(real_of(k.b)), 1real, 1real);
    lemma_three(c.r, k.r, c.g, k.g, c.b, k.b, 1real);
}

/// What is beyond the knee, drawn towards the ceiling.
proof fn lemma_drawn(knee: Single, span: Single, excess: Single)
    requires
        knee.finite() && span.finite() && excess.finite(),
        0real <= real_of(knee) <= 200real,
        1real <= real_of(span) <= 201real,
        0real <= real_of(excess) <= 2000real,
    ensures
        ({
            let y = knee.sum(span.product(excess.quotient(excess.sum(span))));
            let (k, s, e) = (real_of(knee), real_of(span), real_of(excess));
            &&& y.finite()
            &&& size((real_of(y) - k) * (e + s) - s * e) <= (e + s) / 1000real
            &&& size(real_of(y)) <= 1000real
        }),
{
    let (k, s, e) = (real_of(knee), real_of(span), real_of(excess));
    let t = e + s;
    assert(size(t) == t && size(s) == s && size(k) == k) by {
        reveal(size);
    }
    lemma_rounded_sum(excess, span);
    let all = excess.sum(span);
    let w = real_of(all);
    assert(size(w) >= 1real / 2real && size(w) <= 3000real && size(w - t) <= t / 16000000real) by {
        reveal(size);
    }
    assert(size(e) == e) by {
        reveal(size);
    }
    lemma_back(excess, all, 2000real, 1real / 2real);
    let part = excess.quotient(all);
    let q = real_of(part);
    // The part, times the whole.
    assert(size(q * w - e) <= t / 16000000real + 1real / 1000000000real);
    assert(size(q) <= 2real) by {
        lemma_size_of_both(q, w);
        lemma_size_of_sum(e, q * w - e);
        assert(e + (q * w - e) == q * w);
        assert(size(w) >= (9real / 10real) * t) by {
            reveal(size);
        }
        let (a, b) = (size(q), size(w));
        assert(a <= 2real) by (nonlinear_arith)
            requires
                a * b <= (11real / 10real) * t,
                b >= (9real / 10real) * t,
                t >= 1real,
                a >= 0real,
        ;
    }
    lemma_size_of_both(q, w - t);
    lemma_bounds(size(q), size(w - t), 2real, t / 16000000real);
    lemma_less(w, t, q);
    assert(size(q * t - q * w) == size(q * w - q * t)) by {
        reveal(size);
    }
    lemma_size_of_sum(q * t - q * w, q * w - e);
    assert((q * t - q * w) + (q * w - e) == q * t - e);
    assert(size(q * t - e) <= t / 5000000real + 1real / 1000000000real);
    // The span's share.
    lemma_size_of_both(s, q);
    lemma_bounds(s, size(q), 201real, 2real);
    lemma_rounded_product(span, part);
    let p = real_of(span.product(part));
    lemma_size_of_sum(s * q, p - s * q);
    lemma_size_of_sum(k, p);
    lemma_rounded_sum(knee, span.product(part));
    let y = real_of(knee.sum(span.product(part)));
    lemma_size_of_sum(y - (k + p), p - s * q);
    let off = y - k - s * q;
    assert(size(off) <= 1real / 10000real) by {
        assert((y - (k + p)) + (p - s * q) == off);
    }
    lemma_size_of_both(off, t);
    lemma_bounds(size(off), t, 1real / 10000real, t);
    assert((y - k) * t == s * (q * t) + off * t) by (nonlinear_arith)
        requires
            off == y - k - s * q,
    ;
    lemma_size_of_both(s, q * t - e);
    lemma_bounds(s, size(q * t - e), 201real, t / 5000000real + 1real / 1000000000real);
    lemma_less(q * t, e, s);
    lemma_size_of_sum(off * t, s * (q * t - e));
    assert(off * t + s * (q * t - e) == (y - k) * t - s * e);
    assert(size(y) <= 1000real) by {
        lemma_size_of_sum(k + p, y - (k + p));
    }
}

/// Beyond its knee a move is drawn towards its ceiling and keeps its side: what it has over
/// the knee is to the span as the excess is to the excess and the span together.
pub proof fn a_strong_move_is_drawn_towards_its_ceiling(v: Single, knee: Single, ceil: Single)
    requires
        v.finite() && size(real_of(v)) <= 1000real,
        knee.finite() && 0real <= real_of(knee) <= 200real,
        ceil.finite() && real_of(ceil) <= 200real,
        real_of(ceil) - real_of(knee) >= 2real,
        size(real_of(v)) > real_of(knee),
    ensures
        ({
            let e = real_of(v.absolute().difference(knee));
            let s = real_of(ceil.difference(knee));
            let y = real_of(soft_capped(v, knee, ceil));
            let out = if real_of(v) < 0real {
                -y
            } else {
                y
            };
            &&& soft_capped(v, knee, ceil).finite()
            &&& size(e - (size(real_of(v)) - real_of(knee))) <= 1real / 10000real
            &&& size(s - (real_of(ceil) - real_of(knee))) <= 1real / 10000real
            &&& size((out - real_of(knee)) * (e + s) - s * e) <= (e + s) / 500real
        }),
{
    lemma_ends();
    lemma_small_numbers();
    lemma_absolute(v);
    let a = v.absolute();
    lemma_order_real(a, knee);
    let (x, k) = (real_of(a), real_of(knee));
    assert(size(x - k) == x - k) by {
        reveal(size);
    }
    lemma_rounded_difference(a, knee);
    let excess = a.difference(knee);
    let g = real_of(ceil) - k;
    assert(size(g) == g) by {
        reveal(size);
    }
    lemma_rounded_difference(ceil, knee);
    let span = ceil.difference(knee);
    let (e, s) = (real_of(excess), real_of(span));
    assert(1real <= s <= 200real + 1real / 10real && -(1real / 1000real) <= e <= 2000real) by {
        reveal(size);
    }
    assert(e >= 0real) by {
        lemma_difference_sign(a, knee);
    }
    lemma_drawn(knee, span, excess);
    let y0 = knee.sum(span.product(excess.quotient(excess.sum(span))));
    let y = real_of(y0);
    let one = sign(v);
    lemma_order_real(v, num(ZERO));
    assert(v.negative() <==> real_of(v) < 0real) by {
        lemma_order_real(num(ZERO), v);
        lemma_negative(v);
    }
    let f = real_of(one);
    assert(f == 1real || f == -1real);
    assert(f * y == y || f * y == -y);
    assert(size(f * y) == size(y)) by {
        reveal(size);
    }
    lemma_rounded_product(one, y0);
    let r = real_of(one.product(y0));
    let out = if real_of(v) < 0real {
        -r
    } else {
        r
    };
    assert(size(out - y) <= 1real / 10000real) by {
        reveal(size);
    }
    let t = e + s;
    lemma_size_of_both(out - y, t);
    assert(size(t) == t) by {
        reveal(size);
    }
    lemma_bounds(size(out - y), t, 1real / 10000real, t);
    assert((out - k) * t == (y - k) * t + (out - y) * t) by (nonlinear_arith);
    lemma_size_of_sum((y - k) * t - s * e, (out - y) * t);
}

proof fn lemma_negative(v: Single)
    requires
        v.finite(),
        real_of(v) != 0real,
    ensures
        v.negative() <==> real_of(v) < 0real,
{
    lemma_magnitude_real(v);
    lemma_codes_order(v.code(), 0);
    lemma_nought();
    lemma_below_nothing(magnitude(v.code()));
}

proof fn lemma_difference_sign(a: Single, b: Single)
    requires
        a.finite() && b.finite(),
        real_of(a) >= real_of(b),
        a.difference(b).finite(),
    ensures
        real_of(a.difference(b)) >= 0real,
{
    lemma_order_real(b, a);
    lemma_negation_real(b);
    lemma_sum_keeps_order(b, a, b.negation());
    assert(real_of(b.sum(b.negation())) == 0real && b.sum(b.negation()).finite()) by {
        reveal(Single::sum);
        lemma_nought();
        lemma_with_sign(b.negative() && b.negation().negative(), 0);
        assert(b.value() + b.negation().value() == 0);
        lemma_magnitude_real(b.sum(b.negation()));
        lemma_pow2_pos(149);
        let u = pow2(149) as real;
        assert(0real / u == 0real) by (nonlinear_arith)
            requires
                u > 0real,
        ;
    }
    lemma_order_real(b.sum(b.negation()), a.difference(b));
}

/// What is corrected is the opposite of the error, in whole units of the slider: as far as
/// the slider goes, the correction times its unit undoes the error to half a unit.
pub proof fn a_lateral_correction_undoes_the_error(error: Single, per_unit: Single)
    requires
        per_unit.finite() && 1real / 1000000real <= real_of(per_unit) <= 1real,
        error.finite() && size(real_of(error)) <= 99real * real_of(per_unit),
    ensures
        ({
            let u = lateral_unit(error, per_unit);
            &&& u.finite()
            &&& size(real_of(u) * real_of(per_unit) + real_of(error)) <= (51real / 100real) * real_of(
                per_unit,
            )
        }),
{
    let p = real_of(per_unit);
    let x = real_of(error);
    lemma_negation_real(error);
    lemma_small_numbers();
    assert(size(p) == p && size(-x) == size(x)) by {
        reveal(size);
    }
    lemma_back(error.negation(), per_unit, 99real, 1real / 1000000real);
    let q = error.negation().quotient(per_unit);
    let y = real_of(q);
    assert(size(y * p + x) <= p / 100real) by {
        assert(y * p - -x == y * p + x);
    }
    assert(size(y) <= 995real / 10real) by {
        lemma_size_of_both(y, p);
        lemma_size_of_sum(-x, y * p + x);
        assert(-x + (y * p + x) == y * p);
        let a = size(y);
        assert(a <= 995real / 10real) by (nonlinear_arith)
            requires
                a * p <= (9901real / 100real) * p,
                p > 0real,
        ;
    }
    lemma_rounded_value(q);
    let r = q.rounded();
    let z = real_of(r);
    assert(size(z) <= 100real) by {
        lemma_size_of_sum(y, z - y);
        reveal(size);
    }
    lemma_minus_hundred();
    lemma_order_real(r, num(MINUS_HUNDRED));
    lemma_order_real(num(HUNDRED), r);
    assert(lateral_unit(error, per_unit) == r) by {
        reveal(size);
    }
    lemma_size_of_both(z - y, p);
    lemma_bounds(size(z - y), p, 1real / 2real, p);
    lemma_less(z, y, p);
    lemma_size_of_sum(z * p - y * p, y * p + x);
    assert((z * p - y * p) + (y * p + x) == z * p + x);
}

proof fn lemma_minus_hundred()
    ensures
        num(MINUS_HUNDRED).finite(),
        real_of(num(MINUS_HUNDRED)) == -100real,
{
    lemma_small_numbers();
    lemma_negation_real(num(HUNDRED));
    assert(num(HUNDRED).negation() == num(MINUS_HUNDRED));
}

/// A rounded value is whole and no further than a half.
proof fn lemma_rounded_value(v: Single)
    requires
        v.finite(),
        size(real_of(v)) <= 1000real,
    ensures
        v.rounded().finite(),
        size(real_of(v.rounded()) - real_of(v)) <= 1real / 2real,
{
    lemma_next_whole(v);
}

proof fn lemma_kelvins()
    ensures
        num(KELVIN_5500).finite() && real_of(num(KELVIN_5500)) == 5500real,
        num(KELVIN_2856).finite() && real_of(num(KELVIN_2856)) == 2856real,
        num(KELVIN_6000).finite() && real_of(num(KELVIN_6000)) == 6000real,
        num(KELVIN_7500).finite() && real_of(num(KELVIN_7500)) == 7500real,
        num(KELVIN_6500).finite() && real_of(num(KELVIN_6500)) == 6500real,
        num(KELVIN_5503).finite() && real_of(num(KELVIN_5503)) == 5503real,
        num(KELVIN_6504).finite() && real_of(num(KELVIN_6504)) == 6504real,
        num(KELVIN_7504).finite() && real_of(num(KELVIN_7504)) == 7504real,
        num(KELVIN_5003).finite() && real_of(num(KELVIN_5003)) == 5003real,
{
    lemma2_to64();
    lemma_real_of_digits(KELVIN_5500, 11264000, 11);
    lemma_real_of_digits(KELVIN_2856, 11698176, 12);
    lemma_real_of_digits(KELVIN_6000, 12288000, 11);
    lemma_real_of_digits(KELVIN_7500, 15360000, 11);
    lemma_real_of_digits(KELVIN_6500, 13312000, 11);
    lemma_real_of_digits(KELVIN_5503, 11270144, 11);
    lemma_real_of_digits(KELVIN_6504, 13320192, 11);
    lemma_real_of_digits(KELVIN_7504, 15368192, 11);
    lemma_real_of_digits(KELVIN_5003, 10246144, 11);
    assert(pow2(11) == 2048 && pow2(12) == 4096);
    assert(11264000real / 2048real == 5500real);
    assert(11698176real / 4096real == 2856real);
    assert(12288000real / 2048real == 6000real);
    assert(15360000real / 2048real == 7500real);
    assert(13312000real / 2048real == 6500real);
    assert(11270144real / 2048real == 5503real);
    assert(13320192real / 2048real == 6504real);
    assert(15368192real / 2048real == 7504real);
    assert(10246144real / 2048real == 5003real);
}

/// A light source's code stands for its own temperature: tungsten for 2856 kelvin, the
/// daylights from D50 to D75 for theirs, and a code that is not known for none.
pub proof fn a_light_has_its_temperature(code: u16)
    ensures
        code == 3 || code == 17 ==> light_kelvin(code) is Some && real_of(light_kelvin(code)->0)
            == 2856real,
        code == 1 || code == 4 || code == 9 || code == 18 ==> light_kelvin(code) is Some && real_of(
            light_kelvin(code)->0,
        ) == 5500real,
        code == 10 ==> light_kelvin(code) is Some && real_of(light_kelvin(code)->0) == 6000real,
        code == 11 ==> light_kelvin(code) is Some && real_of(light_kelvin(code)->0) == 7500real,
        code == 19 ==> light_kelvin(code) is Some && real_of(light_kelvin(code)->0) == 6500real,
        code == 20 ==> light_kelvin(code) is Some && real_of(light_kelvin(code)->0) == 5503real,
        code == 21 ==> light_kelvin(code) is Some && real_of(light_kelvin(code)->0) == 6504real,
        code == 22 ==> light_kelvin(code) is Some && real_of(light_kelvin(code)->0) == 7504real,
        code == 23 ==> light_kelvin(code) is Some && real_of(light_kelvin(code)->0) == 5003real,
        light_kelvin(code) is Some ==> (light_kelvin(code)->0).finite() && 2856real <= real_of(
            light_kelvin(code)->0,
        ) <= 7504real,
        code == 0 || code == 2 || 5 <= code <= 8 || 12 <= code <= 16 || code > 23 ==> light_kelvin(code)
            is None,
{
    lemma_kelvins();
}

/// One over a temperature.
proof fn lemma_reciprocal(t: Single)
    requires
        t.finite() && 1000real <= real_of(t) <= 100000real,
    ensures
        num(ONE).quotient(t).finite(),
        size(real_of(num(ONE).quotient(t)) * real_of(t) - 1real) <= 1real / 10000000real,
{
    lemma_ends();
    assert(size(real_of(t)) == real_of(t) && size(1real) == 1real) by {
        reveal(size);
    }
    lemma_back(num(ONE), t, 1real, 1000real);
}

/// Two temperatures that differ by a kelvin have reciprocals that differ.
proof fn lemma_reciprocals_differ(x: real, y: real, s: real, t: real)
    requires
        2856real <= s <= 7504real,
        2856real <= t <= 7504real,
        s - t >= 1real || t - s >= 1real,
        size(x * s - 1real) <= 1real / 10000000real,
        size(y * t - 1real) <= 1real / 10000000real,
    ensures
        size(y - x) >= 1real / 1000000000real,
        size(x) <= 1real / 2000real,
        size(y) <= 1real / 2000real,
{
    let (a, b) = (x * s, y * t);
    assert(9999999real / 10000000real <= a <= 10000001real / 10000000real) by {
        reveal(size);
    }
    assert(9999999real / 10000000real <= b <= 10000001real / 10000000real) by {
        reveal(size);
    }
    assert(0real <= x <= 1real / 2000real) by (nonlinear_arith)
        requires
            a == x * s,
            9999999real / 10000000real <= a <= 10000001real / 10000000real,
            2856real <= s,
    ;
    assert(0real <= y <= 1real / 2000real) by (nonlinear_arith)
        requires
            b == y * t,
            9999999real / 10000000real <= b <= 10000001real / 10000000real,
            2856real <= t,
    ;
    assert(size(x) <= 1real / 2000real && size(y) <= 1real / 2000real) by {
        reveal(size);
    }
    let d = y - x;
    // The difference times both temperatures.
    assert((d * s) * t == b * s - a * t) by (nonlinear_arith)
        requires
            d == y - x,
            a == x * s,
            b == y * t,
    ;
    lemma_size_of_both(d, s);
    lemma_size_of_both(d * s, t);
    assert(size(s) == s && size(t) == t) by {
        reveal(size);
    }
    let e = size(d);
    assert(b * s - a * t >= 9real / 10real || b * s - a * t <= -(9real / 10real)) by {
        lemma_nearly_one(b, s);
        lemma_nearly_one(a, t);
    }
    assert(size((d * s) * t) >= 9real / 10real) by {
        reveal(size);
    }
    assert(e >= 1real / 1000000000real) by (nonlinear_arith)
        requires
            (e * s) * t >= 9real / 10real,
            0real < s <= 7504real,
            0real < t <= 7504real,
            e >= 0real,
    {
        let st = s * t;
        assert(0real < st <= 57000000real) by (nonlinear_arith)
            requires
                st == s * t,
                0real < s <= 7504real,
                0real < t <= 7504real,
        ;
        assert((e * s) * t == e * st) by (nonlinear_arith)
            requires
                st == s * t,
        ;
        assert(e >= 1real / 1000000000real) by (nonlinear_arith)
            requires
                e * st >= 9real / 10real,
                0real < st <= 57000000real,
                e >= 0real,
        ;
    }
}

proof fn lemma_nearly_one(a: real, t: real)
    requires
        9999999real / 10000000real <= a <= 10000001real / 10000000real,
        0real <= t <= 8000real,
    ensures
        t - 1real / 1000real <= a * t <= t + 1real / 1000real,
{
    let e = a - 1real;
    assert(a * t == t + e * t) by (nonlinear_arith)
        requires
            e == a - 1real,
    ;
    assert(-(1real / 1000real) <= e * t <= 1real / 1000real) by (nonlinear_arith)
        requires
            -(1real / 10000000real) <= e <= 1real / 10000000real,
            0real <= t <= 8000real,
    ;
}

/// At the temperature of the first calibration the second has no weight, at the second's it
/// has all of it; where something is not known it has none.
pub proof fn a_calibration_rules_at_its_own_light(
    first: u16,
    second: u16,
    kelvin: Option<Single>,
    other: Option<u16>,
)
    requires
        light_kelvin(first) is Some && light_kelvin(second) is Some,
        real_of(light_kelvin(first)->0) - real_of(light_kelvin(second)->0) >= 2real || real_of(
            light_kelvin(second)->0,
        ) - real_of(light_kelvin(first)->0) >= 2real,
    ensures
        real_of(calibration_weight(light_kelvin(first), Some(first), Some(second))) == 0real,
        within(
            calibration_weight(light_kelvin(second), Some(first), Some(second)),
            1real,
            1real / 1000000real,
        ),
        calibration_weight(None, Some(first), Some(second)) == num(ZERO),
        calibration_weight(kelvin, None, other) == num(ZERO),
        calibration_weight(kelvin, other, None) == num(ZERO),
{
    lemma_kelvins();
    a_light_has_its_temperature(first);
    a_light_has_its_temperature(second);
    lemma_ends();
    lemma_thousand();
    let (t1, t2) = (light_kelvin(first)->0, light_kelvin(second)->0);
    lemma_order_real(num(THOUSAND), t1);
    lemma_order_real(num(THOUSAND), t2);
    lemma_reciprocal(t1);
    lemma_reciprocal(t2);
    let (i1, i2) = (num(ONE).quotient(t1), num(ONE).quotient(t2));
    let (x, y) = (real_of(i1), real_of(i2));
    lemma_reciprocals_differ(x, y, real_of(t1), real_of(t2));
    let apart = t1.difference(t2);
    let g = real_of(t1) - real_of(t2);
    assert(size(g) <= 10000real && size(g) >= 2real) by {
        reveal(size);
    }
    lemma_rounded_difference(t1, t2);
    lemma_absolute(apart);
    lemma_order_real(apart.absolute(), num(ONE));
    assert(!apart.absolute().less(num(ONE))) by {
        reveal(size);
    }
    let low = i2.difference(i1);
    assert(size(y - x) <= 1real) by {
        reveal(size);
    }
    lemma_rounded_difference(i2, i1);
    let l = real_of(low);
    assert(size(l) >= 5real / 10000000000real && size(l) <= 2real) by {
        reveal(size);
    }
    // At the first.
    let none = i1.difference(i1);
    assert(size(0real) == 0real) by {
        reveal(size);
    }
    assert(real_of(none) == 0real && none.finite()) by {
        lemma_no_difference(i1);
    }
    lemma_back(none, low, 1real, 5real / 10000000000real);
    let q = none.quotient(low);
    lemma_nothing_of(none, low);
    lemma_held(q, num(ZERO), num(ONE));
    // At the second.
    lemma_back(low, low, 2real, 5real / 10000000000real);
    let all = low.quotient(low);
    let z = real_of(all);
    lemma_less(z, 1real, l);
    assert(1real * l == l);
    lemma_size_of_both(z - 1real, l);
    let (w, k) = (size(z - 1real), size(l));
    assert(w <= 1real / 1000000real) by (nonlinear_arith)
        requires
            w * k <= k / 16777000real + 10000000real * tiny(),
            k >= 5real / 10000000000real,
            tiny() == 1real / 100000000000000000000000000000000000000000000real,
    ;
    lemma_held(all, num(ZERO), num(ONE));
    assert(size(real_of(all.clamped(num(ZERO), num(ONE))) - 1real) <= 1real / 1000000real) by {
        reveal(size);
    }
}

proof fn lemma_no_difference(a: Single)
    requires
        a.finite(),
    ensures
        a.difference(a).finite(),
        real_of(a.difference(a)) == 0real,
{
    reveal(Single::sum);
    lemma_nought();
    lemma_with_sign(a.negative() && a.negation().negative(), 0);
    lemma_negation_value(a);
    lemma_magnitude_real(a.difference(a));
    lemma_pow2_pos(149);
    let u = pow2(149) as real;
    assert(0real / u == 0real) by (nonlinear_arith)
        requires
            u > 0real,
    ;
}

proof fn lemma_negation_value(a: Single)
    requires
        a.finite(),
    ensures
        a.value() + a.negation().value() == 0,
{
}

proof fn lemma_nothing_of(a: Single, b: Single)
    requires
        a.finite() && b.finite(),
        real_of(a) == 0real,
        a.quotient(b).finite(),
        real_of(b) != 0real,
        size(real_of(a.quotient(b)) * real_of(b) - real_of(a)) <= size(real_of(a)) / 16777000real + 10000000real
            * tiny(),
    ensures
        real_of(a.quotient(b)) == 0real,
{
    reveal(Single::quotient);
    lemma_magnitude_real(a);
    lemma_codes_order(a.code(), 0);
    lemma_codes_order(b.code(), 0);
    lemma_nought();
    lemma_pow2_pos(149);
    let u = pow2(149) as real;
    let m = magnitude(a.code());
    lemma_over(m as real, u);
    assert(m == 0) by {
        assert(0real * u == 0real);
        assert((m as real) / u == 0real);
    }
    lemma_magnitude_real(b);
    assert(0real / u == 0real) by (nonlinear_arith)
        requires
            u > 0real,
    ;
    let n = magnitude(b.code());
    assert(n > 0);
    assert(m * pow2(149) == 0) by (nonlinear_arith)
        requires
            m == 0,
    ;
    lemma_round_zero(n);
    lemma_with_sign(a.negative() != b.negative(), 0);
    lemma_magnitude_real(a.quotient(b));
}

proof fn lemma_thousand()
    ensures
        num(THOUSAND).finite(),
        real_of(num(THOUSAND)) == 1000real,
{
    lemma2_to64();
    lemma_real_of_digits(THOUSAND, 16384000, 14);
    assert(16384000real / 16384real == 1000real);
}

/// A hue slider goes from one end of its scale to the other.
pub proof fn a_hue_slider_goes_along_its_scale(v: Single, from: Single, to: Single)
    requires
        v.finite(),
        from.finite() && size(real_of(from)) <= 1000real,
        to.finite() && size(real_of(to)) <= 1000real,
    ensures
        within(
            hue_on(v, from, to),
            real_of(from) + (real_of(to) - real_of(from)) * (held(real_of(v), 0real, 100real)
                / 100real),
            1real / 300real,
        ),
{
    lemma_ends();
    lemma_small_numbers();
    lemma_held(v, num(ZERO), num(HUNDRED));
    let c = v.clamped(num(ZERO), num(HUNDRED));
    let x = real_of(c);
    assert(size(x) == x && size(100real) == 100real) by {
        reveal(size);
    }
    lemma_back(c, num(HUNDRED), 100real, 100real);
    let t = c.quotient(num(HUNDRED));
    let want = x / 100real;
    assert(size(real_of(t) - want) <= 1real / 1000000real) by {
        reveal(size);
    }
    lemma_share_sign(c);
    let (a, b) = (real_of(from), real_of(to));
    lemma_mix(from, to, t, 1000real);
    let g = b - a;
    assert(size(g) <= 2000real) by {
        reveal(size);
    }
    let e = real_of(t) - want;
    lemma_size_of_both(g, e);
    lemma_bounds(size(g), size(e), 2000real, 1real / 1000000real);
    lemma_less(real_of(t), want, g);
    let r = real_of(hue_on(v, from, to));
    lemma_size_of_sum(r - (a + g * real_of(t)), g * e);
    assert((r - (a + g * real_of(t))) + g * e == r - (a + g * want));
}

proof fn lemma_share_sign(c: Single)
    requires
        c.finite() && 0real <= real_of(c) <= 100real,
        c.quotient(num(HUNDRED)).finite(),
    ensures
        0real <= real_of(c.quotient(num(HUNDRED))) <= 1real,
{
    lemma_small_numbers();
    lemma_quotient_sign(c, num(HUNDRED));
    lemma_hundredth_at_most(c);
}

/// A hundredth of a hundred or less is one or less.
proof fn lemma_hundredth_at_most(c: Single)
    requires
        c.finite() && 0real <= real_of(c) <= 100real,
        c.quotient(num(HUNDRED)).finite(),
    ensures
        real_of(c.quotient(num(HUNDRED))) <= 1real,
{
    lemma_small_numbers();
    lemma_ends();
    reveal(Single::quotient);
    lemma_units(c);
    lemma_units(num(HUNDRED));
    lemma_units(num(ONE));
    let u = pow2(149) as real;
    let (m, n, k) = (
        magnitude(c.code()),
        magnitude(num(HUNDRED).code()),
        magnitude(num(ONE).code()),
    );
    assert(size(real_of(c)) == real_of(c) && size(100real) == 100real && size(1real) == 1real) by {
        reveal(size);
    }
    assert(m as real <= n as real && n as real > 0real && k as real == u) by (nonlinear_arith)
        requires
            real_of(c) * u == m as real,
            100real * u == n as real,
            1real * u == k as real,
            real_of(c) <= 100real,
            u > 0real,
    ;
    let x = m * pow2(149);
    assert(0 <= x <= k * n) by (nonlinear_arith)
        requires
            x == m * pow2(149),
            0 <= m <= n,
            k == pow2(149),
    ;
    lemma_round_at_most(x, n, num(ONE).code());
    lemma_round_exists(x, n);
    let r = c.quotient(num(HUNDRED));
    lemma_with_sign(c.negative(), round_to_code(x, n));
    lemma_codes_order(r.code(), num(ONE).code());
    lemma_units(r);
    lemma_units_order(1real, size(real_of(r)), u);
    assert(real_of(r) <= size(real_of(r))) by {
        reveal(size);
    }
}

/// A window on the hues lies between its two sliders, the lower one first, and is as strong
/// as its amount out of twenty; without an amount there is none.
pub proof fn a_window_lies_between_its_sliders(
    amount: Single,
    lo: Single,
    hi: Single,
    from: Single,
    to: Single,
)
    requires
        amount.finite() && size(real_of(amount)) <= 1000real,
    ensures
        real_of(amount) <= 0real ==> fringe_window(amount, lo, hi, from, to) is None,
        fringe_window(amount, lo, hi, from, to) is Some ==> {
            let w = fringe_window(amount, lo, hi, from, to)->0;
            &&& w.lo == hue_on(lo, from, to)
            &&& w.hi == hue_on(hi, from, to)
            &&& within(w.strength, held(real_of(amount) / 20real, 0real, 1real), 1real / 10000real)
        },
{
    lemma_ends();
    lemma2_to64();
    lemma_real_of_digits(TWENTY, 10485760, 19);
    assert(10485760real / 524288real == 20real);
    lemma_order_real(amount, num(ZERO));
    let x = real_of(amount);
    assert(size(20real) == 20real) by {
        reveal(size);
    }
    lemma_back(amount, num(TWENTY), 1000real, 20real);
    let q = amount.quotient(num(TWENTY));
    lemma_held(q, num(ZERO), num(ONE));
    assert(size(held(real_of(q), 0real, 1real) - held(x / 20real, 0real, 1real)) <= 1real / 10000real) by {
        reveal(size);
    }
}

} // verus!
