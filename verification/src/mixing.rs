//! Mixing two levels of a channel by a share: what rounding can do to the result
//! is far less than half a level.

use vstd::prelude::*;
use vstd::arithmetic::div_mod::{lemma_fundamental_div_mod, lemma_fundamental_div_mod_converse};
use vstd::arithmetic::power2::{lemma2_to64, lemma_pow2_adds, lemma_pow2_pos, pow2};
use crate::exact::{code_of, lemma_representable, lemma_round_representable};
use crate::numbers::{BYTE_TOP, ONE, WORD_TOP, ZERO};
use crate::rounding::{
    lemma_round_at_least, lemma_round_at_most, lemma_round_exists, lemma_round_monotone,
    lemma_single_from_parts, lemma_with_sign,
};
use crate::single::{
    lemma_codes_order, lemma_round_exact, magnitude, num, round_to_code, Single, BINADE, INFINITE,
};

verus! {

/// One, in units.
pub open spec fn unit() -> int {
    pow2(149) as int
}

/// A whole number of sixteen digits is a single.
pub proof fn lemma_whole(n: int)
    requires
        0 <= n <= 65535,
    ensures
        Single::of_whole(n).finite(),
        !Single::of_whole(n).negative(),
        magnitude(Single::of_whole(n).code()) == n * unit(),
{
    reveal(Single::of_whole);
    lemma_round_representable(n, 149);
    lemma_with_sign(false, code_of(n, 149));
}

/// One is one unit.
pub proof fn lemma_one()
    ensures
        num(ONE).finite(),
        !num(ONE).negative(),
        magnitude(num(ONE).code()) == unit(),
        unit() > 0,
{
    lemma2_to64();
    lemma_pow2_pos(149);
    lemma_pow2_adds(23, 126);
    let one: int = ONE as int;
    assert(one / (BINADE as int) == 127 && one % (BINADE as int) == 0);
}

/// A number below two to the power of `24 + k` is rounded by less than two to the
/// power of `k`.
pub proof fn lemma_round_near(n: int, d: int, k: nat)
    requires
        0 <= n,
        d > 0,
        k <= 253,
        n < ((2 * BINADE - 1) * pow2(k)) * d,
    ensures
        ({
            let m = magnitude(round_to_code(n, d));
            &&& 0 <= round_to_code(n, d) < INFINITE
            &&& 0 <= m
            &&& m * d <= n + pow2(k) * d
            &&& n <= m * d + pow2(k) * d
        }),
{
    let u = pow2(k) as int;
    lemma_pow2_pos(k);
    let step = u * d;
    assert(step > 0) by (nonlinear_arith)
        requires
            u > 0,
            d > 0,
            step == u * d,
    ;
    let q = n / step;
    lemma_fundamental_div_mod(n, step);
    assert(0 <= q < 2 * BINADE - 1 && q * step <= n < (q + 1) * step) by (nonlinear_arith)
        requires
            n == step * q + n % step,
            0 <= n % step < step,
            0 <= n < ((2 * BINADE - 1) * u) * d,
            step == u * d,
            step > 0,
    ;
    lemma_representable(q, k);
    lemma_representable(q + 1, k);
    let low = code_of(q, k);
    let high = code_of(q + 1, k);
    assert(magnitude(low) * d == q * step && magnitude(high) * d == (q + 1) * step)
        by (nonlinear_arith)
        requires
            magnitude(low) == q * u,
            magnitude(high) == (q + 1) * u,
            step == u * d,
    ;
    lemma_round_exists(n, d);
    lemma_round_at_least(n, d, low);
    lemma_round_at_most(n, d, high);
    let r = round_to_code(n, d);
    lemma_codes_order(low, r);
    lemma_codes_order(r, high);
    let m = magnitude(r);
    assert(m * d <= n + u * d && n <= m * d + u * d) by (nonlinear_arith)
        requires
            q * u <= m <= (q + 1) * u,
            q * step <= n < (q + 1) * step,
            step == u * d,
            d > 0,
    ;
}

/// A share: a number from nought to one.
pub open spec fn is_share(v: Single) -> bool {
    v.finite() && !v.negative() && v.at_most(num(ONE))
}

/// A share is no more than one unit.
pub proof fn lemma_share(v: Single)
    requires
        is_share(v),
    ensures
        0 <= magnitude(v.code()) <= unit(),
{
    lemma_one();
    lemma_codes_order(v.code(), ONE as int);
}

/// What a share leaves of one.
proof fn lemma_rest(a: Single)
    requires
        is_share(a),
    ensures
        ({
            let b = num(ONE).difference(a);
            let left = unit() - magnitude(a.code());
            &&& b.finite()
            &&& !b.negative()
            &&& left - pow2(126) <= magnitude(b.code()) <= left + pow2(126)
        }),
{
    lemma_one();
    lemma_share(a);
    lemma2_to64();
    lemma_pow2_pos(126);
    lemma_pow2_adds(23, 126);
    reveal(Single::sum);
    let left = unit() - magnitude(a.code());
    let b = num(ONE).difference(a);
    assert(a.negation().code() == a.code());
    assert(a.code() > 0 ==> a.negation().negative());
    if left == 0 {
        assert(magnitude(0) == 0);
    } else {
        assert(left < ((2 * BINADE - 1) * pow2(126)) * 1) by (nonlinear_arith)
            requires
                left <= 0x80_0000 * pow2(126),
                pow2(126) > 0,
                BINADE == 0x80_0000,
        ;
        lemma_round_near(left, 1, 126);
        lemma_with_sign(false, round_to_code(left, 1));
    }
}

/// A level times a share.
proof fn lemma_part(v: Single, n: int, s: Single)
    requires
        0 <= n <= 65535,
        v == Single::of_whole(n),
        s.finite(),
        !s.negative(),
        magnitude(s.code()) <= unit() + pow2(126),
    ensures
        ({
            let p = v.product(s);
            let exact = n * magnitude(s.code());
            &&& p.finite()
            &&& !p.negative()
            &&& exact - pow2(142) <= magnitude(p.code()) <= exact + pow2(142)
        }),
{
    lemma_whole(n);
    lemma2_to64();
    lemma_pow2_pos(149);
    lemma_pow2_pos(142);
    lemma_pow2_pos(126);
    lemma_pow2_adds(16, 126);
    lemma_pow2_adds(7, 142);
    lemma_codes_order(s.code(), 0);
    reveal(Single::product);
    let d = unit();
    let m = magnitude(s.code());
    let top = (n * d) * m;
    assert(0 <= top && top == (n * m) * d && n * m <= 0x1_0000 * (d + pow2(126)))
        by (nonlinear_arith)
        requires
            top == (n * d) * m,
            0 <= n <= 65535,
            0 <= m <= d + pow2(126),
            d > 0,
    ;
    assert(top < ((2 * BINADE - 1) * pow2(142)) * d) by (nonlinear_arith)
        requires
            top == (n * m) * d,
            n * m <= 0x1_0000 * (d + pow2(126)),
            d == 0x80 * pow2(142),
            pow2(126) <= pow2(142),
            pow2(142) > 0,
            BINADE == 0x80_0000,
            d > 0,
    {
        assert(n * m < (2 * BINADE - 1) * pow2(142)) by (nonlinear_arith)
            requires
                n * m <= 0x1_0000 * (d + pow2(126)),
                d == 0x80 * pow2(142),
                pow2(126) <= pow2(142),
                pow2(142) > 0,
                BINADE == 0x80_0000,
        ;
    }
    lemma_round_near(top, d, 142);
    lemma_with_sign(false, round_to_code(top, d));
    let r = magnitude(round_to_code(top, d));
    assert(n * m - pow2(142) <= r <= n * m + pow2(142)) by (nonlinear_arith)
        requires
            r * d <= top + pow2(142) * d,
            top <= r * d + pow2(142) * d,
            top == (n * m) * d,
            d > 0,
    ;
}

/// Two levels mixed by a share.
pub open spec fn mixed(base: Single, donor: Single, share: Single) -> Single {
    base.product(num(ONE).difference(share)).sum(donor.product(share))
}

/// A mix of two levels is the exact mix but for less than a twentieth of a level.
pub proof fn lemma_mixed(b: int, d: int, a: Single)
    requires
        0 <= b <= 65535,
        0 <= d <= 65535,
        is_share(a),
    ensures
        ({
            let v = mixed(Single::of_whole(b), Single::of_whole(d), a);
            let s = magnitude(a.code());
            let exact = b * (unit() - s) + d * s;
            &&& v.finite()
            &&& !v.negative()
            &&& exact * 128 - 5 * unit() <= magnitude(v.code()) * 128 <= exact * 128 + 5 * unit()
        }),
{
    lemma_one();
    lemma_share(a);
    lemma_rest(a);
    lemma2_to64();
    lemma_pow2_pos(126);
    lemma_pow2_pos(142);
    lemma_pow2_pos(143);
    lemma_pow2_adds(23, 126);
    lemma_pow2_adds(16, 126);
    lemma_pow2_adds(7, 142);
    lemma_pow2_adds(1, 142);
    let rest = num(ONE).difference(a);
    let x = Single::of_whole(b).product(rest);
    let y = Single::of_whole(d).product(a);
    lemma_part(Single::of_whole(b), b, rest);
    lemma_part(Single::of_whole(d), d, a);
    let u = unit();
    let e = pow2(142) as int;
    let s = magnitude(a.code());
    let r = magnitude(rest.code());
    let exact = b * (u - s) + d * s;
    let both = magnitude(x.code()) + magnitude(y.code());
    lemma_codes_order(x.code(), 0);
    lemma_codes_order(y.code(), 0);
    assert(b * (u - s) - e <= b * r <= b * (u - s) + e) by (nonlinear_arith)
        requires
            (u - s) - pow2(126) <= r <= (u - s) + pow2(126),
            e == 0x1_0000 * pow2(126),
            0 <= b <= 65535,
            pow2(126) > 0,
    ;
    assert(exact - 3 * e <= both <= exact + 3 * e);
    assert(exact <= 65535 * u) by (nonlinear_arith)
        requires
            exact == b * (u - s) + d * s,
            0 <= b <= 65535,
            0 <= d <= 65535,
            0 <= s <= u,
    ;
    reveal(Single::sum);
    let v = mixed(Single::of_whole(b), Single::of_whole(d), a);
    if both == 0 {
        assert(magnitude(0) == 0);
    } else {
        assert(both < ((2 * BINADE - 1) * pow2(143)) * 1) by (nonlinear_arith)
            requires
                both <= 65535 * u + 3 * e,
                u == 0x80 * e,
                pow2(143) == 2 * e,
                e > 0,
                BINADE == 0x80_0000,
        ;
        lemma_round_near(both, 1, 143);
        lemma_with_sign(false, round_to_code(both, 1));
    }
}

/// The whole number next to a value.
pub open spec fn whole_of(v: Single) -> int {
    (2 * magnitude(v.code()) + unit()) / (pow2(150) as int)
}

/// A value rounds to the whole number next to it.
pub proof fn lemma_rounds_to_whole(v: Single, n: int)
    requires
        v.finite(),
        !v.negative(),
        whole_of(v) == n,
        0 <= n <= 65535,
    ensures
        v.rounded() == Single::of_whole(n),
{
    reveal(Single::rounded);
    reveal(Single::of_whole);
}

/// The whole number next to a value that is not far from a mix of two levels lies
/// between them; next to one of them it is that one.
pub proof fn lemma_next_to_mix(b: int, d: int, a: Single, v: Single)
    requires
        0 <= b <= 65535,
        0 <= d <= 65535,
        is_share(a),
        v == mixed(Single::of_whole(b), Single::of_whole(d), a),
    ensures
        v.finite(),
        !v.negative(),
        b <= d ==> b <= whole_of(v) <= d,
        d <= b ==> d <= whole_of(v) <= b,
        a == num(ONE) ==> whole_of(v) == d,
{
    lemma_mixed(b, d, a);
    lemma_share(a);
    lemma_one();
    lemma2_to64();
    lemma_pow2_adds(1, 149);
    let u = unit();
    let s = magnitude(a.code());
    let m = magnitude(v.code());
    let exact = b * (u - s) + d * s;
    let lo = if a == num(ONE) || d <= b {
        d
    } else {
        b
    };
    let hi = if a == num(ONE) || b <= d {
        d
    } else {
        b
    };
    assert(lo * u <= exact <= hi * u) by (nonlinear_arith)
        requires
            exact == b * (u - s) + d * s,
            0 <= s <= u,
            lo <= d <= hi,
            s == u || lo <= b <= hi,
    ;
    let q = whole_of(v);
    lemma_fundamental_div_mod(2 * m + u, 2 * u);
    assert(lo <= q <= hi) by (nonlinear_arith)
        requires
            2 * m + u == (2 * u) * q + (2 * m + u) % (2 * u),
            0 <= (2 * m + u) % (2 * u) < 2 * u,
            lo * u <= exact <= hi * u,
            exact * 128 - 5 * u <= m * 128 <= exact * 128 + 5 * u,
            u > 0,
    ;
}

/// A level with nothing added is the level.
pub proof fn lemma_nothing_added(n: int)
    requires
        0 <= n <= 65535,
    ensures
        Single::of_whole(n).sum(num(ZERO)) == Single::of_whole(n),
{
    let v = Single::of_whole(n);
    lemma_whole(n);
    reveal(Single::sum);
    assert(magnitude(0) == 0);
    lemma_codes_order(v.code(), 0);
    lemma_round_exact(v.code());
    lemma_single_from_parts(v.sum(num(ZERO)), v);
}

/// The top levels of the two depths.
pub proof fn lemma_tops()
    ensures
        num(BYTE_TOP).finite(),
        !num(BYTE_TOP).negative(),
        magnitude(num(BYTE_TOP).code()) == 255 * unit(),
        num(WORD_TOP).finite(),
        !num(WORD_TOP).negative(),
        magnitude(num(WORD_TOP).code()) == 65535 * unit(),
{
    lemma2_to64();
    lemma_pow2_adds(16, 133);
    lemma_pow2_adds(8, 141);
    let byte: int = BYTE_TOP as int;
    let word: int = WORD_TOP as int;
    assert(byte / (BINADE as int) == 134 && byte % (BINADE as int) == 0x7F_0000);
    assert(word / (BINADE as int) == 142 && word % (BINADE as int) == 0x7F_FF00);
    assert(0xFF_0000 * pow2(133) == 255 * unit()) by (nonlinear_arith)
        requires
            unit() == 0x1_0000 * pow2(133),
    ;
    assert(0xFF_FF00 * pow2(141) == 65535 * unit()) by (nonlinear_arith)
        requires
            unit() == 0x100 * pow2(141),
    ;
}

/// A level up to the top stays as it is on its way back into a channel.
pub proof fn lemma_kept_level(n: int, top: Single, hi: int)
    requires
        0 <= n <= hi <= 65535,
        top.finite(),
        !top.negative(),
        magnitude(top.code()) == hi * unit(),
    ensures
        Single::of_whole(n).clamped(num(ZERO), top).cast(0, hi) == n,
{
    let v = Single::of_whole(n);
    lemma_whole(n);
    lemma_one();
    lemma_codes_order(v.code(), top.code());
    assert(n * unit() <= hi * unit()) by (nonlinear_arith)
        requires
            n <= hi,
            unit() > 0,
    ;
    assert(!top.less(v));
    lemma_fundamental_div_mod_converse(n * unit(), unit(), n, 0);
}

/// A finite value of at most two to the power of `k`.
pub open spec fn within(v: Single, k: int) -> bool {
    v.finite() && magnitude(v.code()) <= pow2((149 + k) as nat)
}

/// Two to the power of `k` is a single.
proof fn lemma_power(k: int)
    requires
        -100 <= k <= 127,
    ensures
        ({
            let c = code_of(BINADE as int, (126 + k) as nat);
            0 <= c < INFINITE && magnitude(c) == pow2((149 + k) as nat)
        }),
{
    lemma_representable(BINADE as int, (126 + k) as nat);
    lemma_pow2_adds(23, (126 + k) as nat);
    lemma2_to64();
}

pub proof fn lemma_sum_within(a: Single, b: Single, k: int)
    requires
        -100 <= k <= 126,
        within(a, k),
        within(b, k),
    ensures
        within(a.sum(b), k + 1),
{
    lemma_power(k + 1);
    lemma_pow2_adds(1, (149 + k) as nat);
    lemma2_to64();
    lemma_pow2_pos((149 + k) as nat);
    reveal(Single::sum);
    lemma_codes_order(a.code(), 0);
    lemma_codes_order(b.code(), 0);
    let v = a.value() + b.value();
    if v == 0 {
        assert(magnitude(0) == 0);
        lemma_with_sign(a.negative() && b.negative(), 0);
    } else {
        let n = if v < 0 { -v } else { v };
        let c = code_of(BINADE as int, (127 + k) as nat);
        assert(n <= magnitude(c) * 1);
        lemma_round_at_most(n, 1, c);
        lemma_round_exists(n, 1);
        lemma_with_sign(v < 0, round_to_code(n, 1));
        lemma_codes_order(round_to_code(n, 1), c);
    }
}

pub proof fn lemma_product_within(a: Single, b: Single, j: int, k: int)
    requires
        -100 <= j <= 127,
        -100 <= k <= 127,
        -100 <= j + k <= 127,
        within(a, j),
        within(b, k),
    ensures
        within(a.product(b), j + k),
{
    lemma_power(j + k);
    lemma_pow2_pos(149);
    lemma_pow2_adds((149 + j) as nat, (149 + k) as nat);
    lemma_pow2_adds((149 + j + k) as nat, 149);
    reveal(Single::product);
    lemma_codes_order(a.code(), 0);
    lemma_codes_order(b.code(), 0);
    let n = magnitude(a.code()) * magnitude(b.code());
    let c = code_of(BINADE as int, (126 + j + k) as nat);
    assert(0 <= n <= magnitude(c) * pow2(149)) by (nonlinear_arith)
        requires
            n == magnitude(a.code()) * magnitude(b.code()),
            0 <= magnitude(a.code()) <= pow2((149 + j) as nat),
            0 <= magnitude(b.code()) <= pow2((149 + k) as nat),
            magnitude(c) * pow2(149) == pow2((149 + j) as nat) * pow2((149 + k) as nat),
    ;
    lemma_round_at_most(n, pow2(149) as int, c);
    lemma_round_exists(n, pow2(149) as int);
    lemma_with_sign(a.negative() != b.negative(), round_to_code(n, pow2(149) as int));
    lemma_codes_order(round_to_code(n, pow2(149) as int), c);
}

/// What is within a bound is within a larger one.
pub proof fn lemma_within_grows(v: Single, j: int, k: int)
    requires
        -100 <= j <= k <= 127,
        within(v, j),
    ensures
        within(v, k),
{
    lemma_pow2_adds((k - j) as nat, (149 + j) as nat);
    lemma_pow2_pos((k - j) as nat);
    lemma_pow2_pos((149 + j) as nat);
    assert(pow2((149 + j) as nat) <= pow2((149 + k) as nat)) by (nonlinear_arith)
        requires
            pow2((149 + k) as nat) == pow2((k - j) as nat) * pow2((149 + j) as nat),
            pow2((k - j) as nat) >= 1,
            pow2((149 + j) as nat) >= 0,
    ;
}

/// A share of a share is a share.
pub proof fn lemma_share_of_share(a: Single, b: Single)
    requires
        is_share(a),
        is_share(b),
    ensures
        is_share(a.product(b)),
{
    lemma_one();
    lemma_share(a);
    lemma_share(b);
    reveal(Single::product);
    let n = magnitude(a.code()) * magnitude(b.code());
    assert(0 <= n <= unit() * unit()) by (nonlinear_arith)
        requires
            n == magnitude(a.code()) * magnitude(b.code()),
            0 <= magnitude(a.code()) <= unit(),
            0 <= magnitude(b.code()) <= unit(),
    ;
    lemma_round_at_most(n, unit(), ONE as int);
    lemma_round_exists(n, unit());
    lemma_with_sign(false, round_to_code(n, unit()));
}

/// The part of a way: what lies before `d`, of what lies before `from`, both up to
/// `r`.
pub proof fn lemma_part_of_way(r: Single, d: Single, from: Single)
    requires
        r.finite(),
        !r.negative(),
        d.finite(),
        !d.negative(),
        d.at_most(r),
        from.less(d),
    ensures
        is_share(r.difference(d).quotient(r.difference(from))),
{
    lemma_one();
    reveal(Single::sum);
    reveal(Single::quotient);
    lemma_codes_order(r.code(), 0);
    lemma_codes_order(d.code(), 0);
    lemma_codes_order(r.code(), d.code());
    let top = r.difference(d);
    let bottom = r.difference(from);
    let n = r.value() - d.value();
    assert(d.negation().code() == d.code());
    assert(from.negation().code() == from.code());
    assert(d.negation().value() == -d.value());
    assert(0 <= n <= magnitude(r.code()) * 1);
    if n != 0 {
        lemma_round_at_most(n, 1, r.code());
        lemma_round_exists(n, 1);
        lemma_with_sign(false, round_to_code(n, 1));
    }
    assert(top.finite() && !top.negative());
    lemma_codes_order(top.code(), 0);
    if from.infinite() {
        assert(bottom.infinite() && !bottom.negative());
    } else {
        assert(from.negation().value() == -from.value());
        lemma_codes_order(from.code(), 0);
        lemma_codes_order(from.code(), d.code());
        let m = r.value() - from.value();
        assert(m > n);
        lemma_round_exists(m, 1);
        assert(magnitude(1) == 1);
        lemma_round_at_least(m, 1, 1);
        lemma_with_sign(false, round_to_code(m, 1));
        assert(!bottom.negative() && bottom.code() == round_to_code(m, 1));
        if bottom.finite() {
            if n != 0 {
                lemma_round_monotone(n, 1, m, 1);
            }
            lemma_codes_order(top.code(), bottom.code());
            lemma_codes_order(bottom.code(), 0);
            let x = magnitude(top.code()) * unit();
            let y = magnitude(bottom.code());
            assert(0 <= x <= magnitude(ONE as int) * y) by (nonlinear_arith)
                requires
                    x == magnitude(top.code()) * unit(),
                    0 <= magnitude(top.code()) <= y,
                    magnitude(ONE as int) == unit(),
                    unit() > 0,
            ;
            lemma_round_at_most(x, y, ONE as int);
            lemma_round_exists(x, y);
            lemma_with_sign(false, round_to_code(x, y));
        }
    }
}

} // verus!
