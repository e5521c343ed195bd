//! Where the operations on singles are exact, and what follows for hues, angles
//! and sliders that move in steps.

use vstd::prelude::*;
use vstd::arithmetic::div_mod::{
    lemma_fundamental_div_mod, lemma_fundamental_div_mod_converse, lemma_mod_bound,
    lemma_small_mod,
};
use vstd::arithmetic::power2::{lemma2_to64, lemma_pow2_adds, lemma_pow2_pos, pow2};
use crate::limits::{angle_clamped, wheel_hue};
use crate::numbers::{HALF_TURN, TEN, THREE, TURN, ZERO};
use crate::rounding::{
    lemma_round_at_least, lemma_round_at_most, lemma_round_exists, lemma_single_from_parts,
};
use crate::single::{
    lemma_codes_order, lemma_magnitude_at, lemma_round_exact, lemma_round_zero, magnitude, num,
    round_to_code, Single, BINADE, INFINITE,
};

verus! {

/// The code of `m` times two to the power of `j`, for an `m` of 24 digits.
pub open spec fn code_of(m: int, j: nat) -> int
    decreases j,
{
    if m >= BINADE || j == 0 {
        j * BINADE + m
    } else {
        code_of(2 * m, (j - 1) as nat)
    }
}

/// A whole number of 24 digits, scaled by a power of two, is a single.
pub proof fn lemma_representable(m: int, j: nat)
    requires
        0 <= m < 2 * BINADE,
        j <= 253,
    ensures
        magnitude(code_of(m, j)) == m * pow2(j),
        0 <= code_of(m, j) < INFINITE,
    decreases j,
{
    if m >= BINADE || j == 0 {
        lemma_magnitude_at(m, j);
    } else {
        lemma_representable(2 * m, (j - 1) as nat);
        lemma_pow2_adds(1, (j - 1) as nat);
        lemma2_to64();
        assert((2 * m) * pow2((j - 1) as nat) == m * pow2(j)) by (nonlinear_arith)
            requires
                pow2(j) == 2 * pow2((j - 1) as nat),
        ;
    }
}

/// What is a single rounds to itself.
pub proof fn lemma_round_representable(m: int, j: nat)
    requires
        0 <= m < 2 * BINADE,
        j <= 253,
    ensures
        round_to_code(m * pow2(j), 1) == code_of(m, j),
        magnitude(code_of(m, j)) == m * pow2(j),
        0 <= code_of(m, j) < INFINITE,
{
    lemma_representable(m, j);
    lemma_round_exact(code_of(m, j));
}

/// The numbers 180 and 360 in units.
proof fn lemma_turns()
    ensures
        magnitude(TURN as int) == 360 * pow2(149),
        magnitude(HALF_TURN as int) == 180 * pow2(149),
        num(TURN).code() == TURN,
        num(HALF_TURN).code() == HALF_TURN,
        !num(TURN).negative(),
        !num(HALF_TURN).negative(),
        pow2(149) > 0,
{
    lemma2_to64();
    lemma_pow2_pos(149);
    lemma_pow2_pos(134);
    lemma_pow2_pos(133);
    lemma_pow2_adds(15, 134);
    lemma_pow2_adds(16, 133);
    assert(TURN as int / (BINADE as int) == 135 && TURN as int % (BINADE as int) == 0x34_0000);
    assert(magnitude(TURN as int) == 0xB4_0000 * pow2(134));
    assert(0xB4_0000 * pow2(134) == 360 * pow2(149)) by (nonlinear_arith)
        requires
            pow2(149) == 0x8000 * pow2(134),
    ;
    assert(HALF_TURN as int / (BINADE as int) == 134 && HALF_TURN as int % (BINADE as int)
        == 0x34_0000);
    assert(magnitude(HALF_TURN as int) == 0xB4_0000 * pow2(133));
    assert(0xB4_0000 * pow2(133) == 180 * pow2(149)) by (nonlinear_arith)
        requires
            pow2(149) == 0x1_0000 * pow2(133),
    ;
}

/// A value below a full turn is what is left of it after whole turns.
proof fn lemma_remainder_small(a: Single)
    requires
        a.finite(),
        magnitude(a.code()) < magnitude(TURN as int),
    ensures
        a.remainder(num(TURN)) == a,
{
    lemma_turns();
    reveal(Single::remainder);
    lemma_codes_order(a.code(), 0);
    lemma_small_mod(magnitude(a.code()) as nat, magnitude(TURN as int) as nat);
    lemma_round_exact(a.code());
    lemma_single_from_parts(a.remainder(num(TURN)), a);
}

/// A hue on its circle is at least nought and at most a full turn.
pub proof fn lemma_hue_in_circle(x: Single)
    requires
        x.finite(),
    ensures
        ({
            let r = x.euclidean_remainder(num(TURN));
            r.finite() && num(ZERO).at_most(r) && r.at_most(num(TURN))
        }),
{
    lemma_turns();
    let r = x.remainder(num(TURN));
    let turn = magnitude(TURN as int);
    reveal(Single::remainder);
    lemma_codes_order(x.code(), 0);
    let left = magnitude(x.code()) % turn;
    lemma_mod_bound(magnitude(x.code()), turn);
    lemma_round_exists(left, 1);
    lemma_round_at_most(left, 1, TURN as int);
    assert(r.code() == round_to_code(left, 1) && r.negative() == x.negative());
    assert(r.code() <= TURN);
    if r.less(num(ZERO)) {
        assert(r.negative() && r.code() > 0);
        reveal(Single::sum);
        lemma_codes_order(r.code(), TURN as int);
        lemma_codes_order(r.code(), 0);
        assert(num(TURN).absolute() == num(TURN));
        let v = r.value() + num(TURN).value();
        assert(v == turn - magnitude(r.code()));
        if v != 0 {
            lemma_round_exists(v, 1);
            lemma_round_at_most(v, 1, TURN as int);
        }
    }
}

/// A hue below a full turn stays as it is.
pub proof fn lemma_hue_settles(h: Single)
    requires
        h.finite(),
        num(ZERO).at_most(h),
        h.less(num(TURN)),
    ensures
        wheel_hue(h) == h,
{
    lemma_turns();
    lemma_codes_order(h.code(), TURN as int);
    lemma_remainder_small(h);
}

/// A hue that is not below nought never becomes a full turn on its circle.
pub proof fn lemma_hue_below_turn(x: Single)
    requires
        x.finite(),
        !x.less(num(ZERO)),
    ensures
        x.euclidean_remainder(num(TURN)).less(num(TURN)),
{
    lemma_turns();
    lemma2_to64();
    let turn = magnitude(TURN as int);
    let m = magnitude(x.code());
    let left = m % turn;
    let r = x.remainder(num(TURN));
    reveal(Single::remainder);
    lemma_codes_order(x.code(), 0);
    lemma_mod_bound(m, turn);
    if x.negative() {
        assert(x.code() == 0);
        lemma_small_mod(0, turn as nat);
    }
    // Both are whole numbers of the last place of the turn, and so is what is left.
    let p = pow2(134) as int;
    lemma_pow2_pos(134);
    lemma_pow2_adds(15, 134);
    assert(turn == 0xB4_0000 * p) by (nonlinear_arith)
        requires
            turn == 360 * pow2(149),
            pow2(149) == 0x8000 * p,
    ;
    assert(left <= magnitude(TURN as int - 1)) by {
        lemma_codes_order(x.code(), TURN as int);
        assert((TURN as int - 1) / (BINADE as int) == 135 && (TURN as int - 1) % (BINADE as int)
            == 0x33_FFFF);
        assert(magnitude(TURN as int - 1) == 0xB3_FFFF * p);
        if x.code() < TURN {
            lemma_small_mod(m as nat, turn as nat);
            lemma_codes_order(x.code(), TURN as int - 1);
        } else {
            let c = x.code();
            let e = c / (BINADE as int) - 1;
            let k = BINADE + c % (BINADE as int);
            assert(e >= 134);
            lemma_pow2_adds((e - 134) as nat, 134);
            let q = k * pow2((e - 134) as nat);
            assert(m == q * p) by (nonlinear_arith)
                requires
                    m == k * pow2(e as nat),
                    pow2(e as nat) == pow2((e - 134) as nat) * p,
                    q == k * pow2((e - 134) as nat),
            ;
            let d = m / turn;
            lemma_fundamental_div_mod(m, turn);
            let t = q - 0xB4_0000 * d;
            assert(left == t * p) by (nonlinear_arith)
                requires
                    m == turn * d + left,
                    m == q * p,
                    turn == 0xB4_0000 * p,
                    t == q - 0xB4_0000 * d,
            ;
            assert(t <= 0xB3_FFFF) by (nonlinear_arith)
                requires
                    t * p < 0xB4_0000 * p,
                    p > 0,
            ;
            assert(t * p <= 0xB3_FFFF * p) by (nonlinear_arith)
                requires
                    t <= 0xB3_FFFF,
                    p > 0,
            ;
        }
    }
    lemma_round_exists(left, 1);
    lemma_round_at_most(left, 1, TURN as int - 1);
    assert(r.code() == round_to_code(left, 1) && r.negative() == x.negative());
    if x.negative() {
        lemma_round_at_most(0, 1, 0);
    }
    assert(!r.less(num(ZERO)));
    lemma_codes_order(r.code(), TURN as int);
}

/// A value between half a turn and a full one, a full turn less: nothing is lost,
/// and it is at most half a turn back.
proof fn lemma_turned_back(a: Single)
    requires
        a.finite(),
        num(HALF_TURN).less(a),
        a.at_most(num(TURN)),
    ensures
        ({
            let d = a.difference(num(TURN));
            &&& d.finite()
            &&& d.value() == a.value() - num(TURN).value()
            &&& d.code() < HALF_TURN
            &&& d.code() > 0 ==> d.negative()
            &&& d.code() == 0 ==> !d.negative()
        }),
{
    lemma_turns();
    lemma2_to64();
    let c = a.code();
    let p = pow2(133) as int;
    lemma_pow2_pos(133);
    lemma_pow2_adds(16, 133);
    lemma_pow2_adds(1, 133);
    assert(magnitude(TURN as int) == 23592960 * p) by (nonlinear_arith)
        requires
            magnitude(TURN as int) == 360 * pow2(149),
            pow2(149) == 65536 * p,
    ;
    let k = if c < 0x4380_0000 {
        BINADE + c % (BINADE as int)
    } else {
        2 * (BINADE + c % (BINADE as int))
    };
    assert(magnitude(c) == k * p) by {
        if c < 0x4380_0000 {
            assert(c / (BINADE as int) == 134);
        } else {
            assert(c / (BINADE as int) == 135);
            assert((BINADE + c % (BINADE as int)) * pow2(134) == k * p) by (nonlinear_arith)
                requires
                    pow2(134) == 2 * p,
                    k == 2 * (BINADE + c % (BINADE as int)),
            ;
        }
    }
    assert(11796480 < k <= 23592960) by {
        if c < 0x4380_0000 {
            assert(HALF_TURN as int % (BINADE as int) == 0x34_0000);
            assert(c / (BINADE as int) == 134 && HALF_TURN as int / (BINADE as int) == 134);
            assert(c % (BINADE as int) > 0x34_0000);
        } else {
            assert(TURN as int % (BINADE as int) == 0x34_0000);
            assert(c / (BINADE as int) == 135 && TURN as int / (BINADE as int) == 135);
            assert(c % (BINADE as int) <= 0x34_0000);
        }
    }
    let m = 23592960 - k;
    lemma_round_representable(m, 133);
    assert(m * p == magnitude(TURN as int) - magnitude(c)) by (nonlinear_arith)
        requires
            m == 23592960 - k,
            magnitude(TURN as int) == 23592960 * p,
            magnitude(c) == k * p,
    ;
    let d = a.difference(num(TURN));
    reveal(Single::sum);
    let n = num(TURN).negation();
    assert(n.code() == TURN && n.negative());
    assert(a.value() + n.value() == -(m * p));
    assert(magnitude(HALF_TURN as int) == 11796480 * p) by (nonlinear_arith)
        requires
            magnitude(HALF_TURN as int) == 180 * pow2(149),
            pow2(149) == 65536 * p,
    ;
    assert(m * p < 11796480 * p && m * p >= 0 && (m > 0 ==> m * p > 0)) by (nonlinear_arith)
        requires
            0 <= m < 11796480,
            p > 0,
    ;
    lemma_codes_order(code_of(m, 133), HALF_TURN as int);
    lemma_codes_order(code_of(m, 133), 0);
}

/// The turn that an angle stands for is at most half a circle either way.
pub proof fn lemma_angle_in_circle(x: Single)
    requires
        x.finite(),
    ensures
        ({
            let r = angle_clamped(x);
            r.finite() && r.at_most(num(HALF_TURN)) && num(HALF_TURN).negation().less(r)
        }),
{
    lemma_turns();
    lemma_hue_in_circle(x);
    let a = x.euclidean_remainder(num(TURN));
    if num(HALF_TURN).less(a) {
        lemma_turned_back(a);
    }
}

/// The turn that an angle stands for stands for itself.
pub proof fn lemma_angle_settles(x: Single)
    requires
        x.finite(),
    ensures
        angle_clamped(angle_clamped(x)) == angle_clamped(x),
{
    lemma_turns();
    lemma_hue_in_circle(x);
    let a = x.euclidean_remainder(num(TURN));
    lemma_codes_order(HALF_TURN as int, TURN as int);
    if num(HALF_TURN).less(a) {
        lemma_turned_back(a);
        let d = a.difference(num(TURN));
        lemma_codes_order(d.code(), HALF_TURN as int);
        lemma_remainder_small(d);
        if d.code() > 0 {
            assert(num(TURN).absolute() == num(TURN));
            let back = d.sum(num(TURN));
            assert(d.value() + num(TURN).value() == a.value());
            lemma_codes_order(a.code(), 0);
            assert(a.code() > 0);
            assert(a.value() == magnitude(a.code()) && a.value() > 0);
            reveal(Single::sum);
            lemma_round_exact(a.code());
            lemma_single_from_parts(back, a);
        }
    } else {
        lemma_codes_order(a.code(), TURN as int);
        lemma_codes_order(a.code(), HALF_TURN as int);
        lemma_remainder_small(a);
    }
}

/// A whole number rounds to itself.
pub proof fn lemma_rounded_settles(v: Single)
    requires
        v.finite(),
        magnitude(v.code()) < 0x100_0000 * pow2(149),
    ensures
        v.rounded().rounded() == v.rounded(),
        v.rounded().finite(),
        exists|k: int|
            0 <= k <= 0x100_0000 && magnitude(v.rounded().code()) == #[trigger] (k * pow2(149)),
{
    let p = pow2(149) as int;
    lemma_pow2_pos(149);
    lemma_pow2_adds(1, 149);
    lemma2_to64();
    reveal(Single::rounded);
    lemma_codes_order(v.code(), 0);
    let a = magnitude(v.code());
    let k = (2 * a + p) / (2 * p);
    assert(0 <= k <= 0x100_0000) by {
        lemma_fundamental_div_mod(2 * a + p, 2 * p);
        lemma_mod_bound(2 * a + p, 2 * p);
        assert(0 <= k <= 0x100_0000) by (nonlinear_arith)
            requires
                2 * a + p == (2 * p) * k + (2 * a + p) % (2 * p),
                0 <= (2 * a + p) % (2 * p) < 2 * p,
                0 <= a < 0x100_0000 * p,
                p > 0,
        ;
    }
    let w = v.rounded();
    if k < 0x100_0000 {
        lemma_round_representable(k, 149);
    } else {
        lemma_round_representable(0x80_0000, 150);
        assert(0x80_0000 * pow2(150) == k * p) by (nonlinear_arith)
            requires
                pow2(150) == 2 * p,
                k == 0x100_0000,
        ;
    }
    assert(magnitude(w.code()) == k * p);
    let again = (2 * (k * p) + p) / (2 * p);
    assert(again == k) by {
        assert(2 * (k * p) + p == k * (2 * p) + p) by (nonlinear_arith);
        lemma_fundamental_div_mod_converse(2 * (k * p) + p, 2 * p, k, p);
    }
    lemma_single_from_parts(w.rounded(), w);
}

/// A slider that moves in tenths.
pub open spec fn tenths(v: Single) -> Single {
    v.product(num(TEN)).rounded().quotient(num(TEN))
}

/// The numbers three and ten in units.
proof fn lemma_small_numbers()
    ensures
        magnitude(THREE as int) == 3 * pow2(149),
        magnitude(TEN as int) == 10 * pow2(149),
        num(THREE).code() == THREE,
        num(TEN).code() == TEN,
        !num(THREE).negative(),
        !num(TEN).negative(),
        pow2(149) > 0,
{
    lemma2_to64();
    lemma_pow2_pos(149);
    lemma_pow2_adds(22, 127);
    lemma_pow2_adds(20, 129);
    assert(THREE as int / (BINADE as int) == 128 && THREE as int % (BINADE as int) == 0x40_0000);
    assert(0xC0_0000 * pow2(127) == 3 * pow2(149)) by (nonlinear_arith)
        requires
            pow2(149) == 0x40_0000 * pow2(127),
    ;
    assert(TEN as int / (BINADE as int) == 130 && TEN as int % (BINADE as int) == 0x20_0000);
    assert(0xA0_0000 * pow2(129) == 10 * pow2(149)) by (nonlinear_arith)
        requires
            pow2(149) == 0x10_0000 * pow2(129),
    ;
}

/// A tenth of a whole number up to thirty, times ten, is the number again but for
/// what rounding takes away.
proof fn lemma_tenth_of(a: Single, n: int)
    requires
        0 < n <= 30,
        !a.negative(),
        a.finite(),
        magnitude(a.code()) == n * pow2(149),
    ensures
        ({
            let w = a.quotient(num(TEN));
            &&& w.finite()
            &&& !w.negative()
            &&& w.at_most(num(THREE))
            &&& w.product(num(TEN)).rounded() == a
        }),
{
    lemma_small_numbers();
    lemma2_to64();
    let p = pow2(149) as int;
    let u = pow2(128) as int;
    let q = pow2(147) as int;
    lemma_pow2_pos(128);
    lemma_pow2_pos(147);
    lemma_pow2_adds(21, 128);
    lemma_pow2_adds(2, 147);
    lemma_pow2_adds(19, 128);
    let w = a.quotient(num(TEN));
    let top = (n * p) * p;
    let bottom = 10 * p;
    let m = (n * 2097152) / 10;
    assert(0 <= m < 6291457 && 10 * m <= n * 2097152 < 10 * (m + 1));
    lemma_representable(m, 128);
    lemma_representable(m + 1, 128);
    assert((m * u) * bottom <= top && top <= ((m + 1) * u) * bottom && top >= 0) by {
        assert((m * u) * bottom == (10 * m) * (u * p)) by (nonlinear_arith)
            requires
                bottom == 10 * p,
        ;
        assert(((m + 1) * u) * bottom == (10 * (m + 1)) * (u * p)) by (nonlinear_arith)
            requires
                bottom == 10 * p,
        ;
        assert(top == (n * 2097152) * (u * p)) by (nonlinear_arith)
            requires
                top == (n * p) * p,
                p == 2097152 * u,
        ;
        assert(u * p > 0) by (nonlinear_arith)
            requires
                u > 0,
                p > 0,
        ;
        assert((10 * m) * (u * p) <= (n * 2097152) * (u * p)) by (nonlinear_arith)
            requires
                10 * m <= n * 2097152,
                u * p > 0,
        ;
        assert((n * 2097152) * (u * p) <= (10 * (m + 1)) * (u * p)) by (nonlinear_arith)
            requires
                n * 2097152 <= 10 * (m + 1),
                u * p > 0,
        ;
        assert((n * 2097152) * (u * p) >= 0) by (nonlinear_arith)
            requires
                n >= 0,
                u * p > 0,
        ;
    }
    lemma_round_exists(top, bottom);
    lemma_round_at_least(top, bottom, code_of(m, 128));
    lemma_round_at_most(top, bottom, code_of(m + 1, 128));
    reveal(Single::quotient);
    lemma_codes_order(a.code(), 0);
    assert(w.code() == round_to_code(top, bottom));
    assert(!w.negative());
    lemma_codes_order(w.code(), code_of(m, 128));
    lemma_codes_order(w.code(), code_of(m + 1, 128));
    // At most three.
    assert(top <= (3 * p) * bottom) by (nonlinear_arith)
        requires
            top == (n * p) * p,
            bottom == 10 * p,
            n <= 30,
            p > 0,
    ;
    lemma_round_at_most(top, bottom, THREE as int);
    // Ten times as much is within a quarter of the number.
    let e = magnitude(w.code());
    assert(m * u <= e <= (m + 1) * u);
    let prod = e * (10 * p);
    lemma_representable(4 * n - 1, 147);
    lemma_representable(4 * n + 1, 147);
    assert(((4 * n - 1) * q) * p <= prod <= ((4 * n + 1) * q) * p && prod >= 0) by {
        assert((4 * n - 1) * q <= 10 * e <= (4 * n + 1) * q) by (nonlinear_arith)
            requires
                m * u <= e <= (m + 1) * u,
                10 * m <= n * 2097152 < 10 * (m + 1),
                q == 524288 * u,
                u > 0,
        ;
        assert(prod == (10 * e) * p) by (nonlinear_arith)
            requires
                prod == e * (10 * p),
        ;
        assert(((4 * n - 1) * q) * p <= (10 * e) * p && (10 * e) * p <= ((4 * n + 1) * q) * p)
            by (nonlinear_arith)
            requires
                (4 * n - 1) * q <= 10 * e <= (4 * n + 1) * q,
                p > 0,
        ;
        assert(((4 * n - 1) * q) * p >= 0) by (nonlinear_arith)
            requires
                n >= 1,
                q > 0,
                p > 0,
        ;
    }
    lemma_round_exists(prod, p);
    lemma_round_at_least(prod, p, code_of(4 * n - 1, 147));
    lemma_round_at_most(prod, p, code_of(4 * n + 1, 147));
    let x = w.product(num(TEN));
    reveal(Single::product);
    assert(x.code() == round_to_code(prod, p));
    assert(!x.negative() && x.finite());
    lemma_codes_order(x.code(), code_of(4 * n - 1, 147));
    lemma_codes_order(x.code(), code_of(4 * n + 1, 147));
    let b = magnitude(x.code());
    assert((4 * n - 1) * q <= b <= (4 * n + 1) * q);
    lemma_pow2_adds(1, 149);
    let whole = (2 * b + p) / (2 * p);
    assert(whole == n) by {
        let rest = 2 * b + p - n * (2 * p);
        assert(0 <= rest < 2 * p) by (nonlinear_arith)
            requires
                rest == 2 * b + p - n * (2 * p),
                (4 * n - 1) * q <= b <= (4 * n + 1) * q,
                p == 4 * q,
                q > 0,
        ;
        lemma_fundamental_div_mod_converse(2 * b + p, 2 * p, n, rest);
    }
    reveal(Single::rounded);
    lemma_round_exact(a.code());
    lemma_single_from_parts(x.rounded(), a);
}

/// A slider that moves in tenths, up to three, stays where it was put.
pub proof fn lemma_tenths_settle(v: Single)
    requires
        v.finite(),
        num(ZERO).at_most(v),
        v.at_most(num(THREE)),
    ensures
        tenths(tenths(v)) == tenths(v),
        tenths(v).finite(),
        num(ZERO).at_most(tenths(v)),
        tenths(v).at_most(num(THREE)),
{
    lemma_small_numbers();
    lemma2_to64();
    let p = pow2(149) as int;
    lemma_codes_order(v.code(), 0);
    lemma_codes_order(v.code(), THREE as int);
    let x = v.product(num(TEN));
    let e = magnitude(v.code());
    let prod = e * (10 * p);
    lemma_representable(30, 149);
    assert(0 <= prod <= (30 * p) * p) by (nonlinear_arith)
        requires
            prod == e * (10 * p),
            0 <= e <= 3 * p,
            p > 0,
    ;
    lemma_round_exists(prod, p);
    lemma_round_at_most(prod, p, code_of(30, 149));
    assert(x.code() == round_to_code(prod, p) && x.negative() == v.negative()) by {
        reveal(Single::product);
    }
    lemma_codes_order(x.code(), code_of(30, 149));
    lemma_codes_order(x.code(), 0);
    let b = magnitude(x.code());
    assert(0 <= b <= 30 * p);
    let y = x.rounded();
    lemma_pow2_adds(1, 149);
    let n = (2 * b + p) / (2 * p);
    assert(0 <= n <= 30) by {
        lemma_fundamental_div_mod(2 * b + p, 2 * p);
        lemma_mod_bound(2 * b + p, 2 * p);
        assert(0 <= n <= 30) by (nonlinear_arith)
            requires
                2 * b + p == (2 * p) * n + (2 * b + p) % (2 * p),
                0 <= (2 * b + p) % (2 * p) < 2 * p,
                0 <= b <= 30 * p,
                p > 0,
        ;
    }
    lemma_round_representable(n, 149);
    assert(y.negative() == v.negative() && magnitude(y.code()) == n * p && y.code() == code_of(
        n,
        149,
    )) by {
        reveal(Single::rounded);
    }
    let w = y.quotient(num(TEN));
    if n == 0 {
        assert(magnitude(y.code()) == 0) by (nonlinear_arith)
            requires
                magnitude(y.code()) == n * p,
                n == 0,
        ;
        lemma_codes_order(y.code(), 0);
        assert(y.code() == 0);
        assert(magnitude(0) == 0);
        assert(w.code() == 0 && w.negative() == v.negative()) by {
            reveal(Single::quotient);
            lemma_round_zero(10 * p);
            assert(0 * p == 0);
        }
        let x2 = w.product(num(TEN));
        assert(x2.code() == 0 && x2.negative() == v.negative()) by {
            reveal(Single::product);
            lemma_round_zero(p);
            assert(0 * (10 * p) == 0);
        }
        let y2 = x2.rounded();
        assert(y2 == y) by {
            reveal(Single::rounded);
            assert((2 * 0 + p) / (2 * p) == 0) by {
                lemma_fundamental_div_mod_converse(p, 2 * p, 0, p);
            }
            lemma_round_zero(1);
            assert(0 * p == 0);
            lemma_single_from_parts(y2, y);
        }
    } else {
        if v.negative() {
            // Only nought is both negative and not below nought.
            assert(v.code() == 0);
            assert(e == 0);
            assert(prod == 0) by (nonlinear_arith)
                requires
                    prod == e * (10 * p),
                    e == 0,
            ;
            lemma_round_zero(p);
            assert(b == 0);
            lemma_fundamental_div_mod_converse(p, 2 * p, 0, p);
            assert(n == 0);
        }
        lemma_tenth_of(y, n);
    }
}

/// A number from nought to three rounds to a whole number from nought to three,
/// and that to itself.
pub proof fn lemma_rounded_up_to_three(v: Single)
    requires
        v.finite(),
        num(ZERO).at_most(v),
        v.at_most(num(THREE)),
    ensures
        v.rounded().rounded() == v.rounded(),
        v.rounded().finite(),
        num(ZERO).at_most(v.rounded()),
        v.rounded().at_most(num(THREE)),
{
    lemma_small_numbers();
    lemma2_to64();
    let p = pow2(149) as int;
    lemma_codes_order(v.code(), 0);
    lemma_codes_order(v.code(), THREE as int);
    let a = magnitude(v.code());
    assert(a < 0x100_0000 * p) by (nonlinear_arith)
        requires
            a <= 3 * p,
            p > 0,
    ;
    lemma_rounded_settles(v);
    lemma_pow2_adds(1, 149);
    reveal(Single::rounded);
    let k = (2 * a + p) / (2 * p);
    assert(0 <= k <= 3) by {
        lemma_fundamental_div_mod(2 * a + p, 2 * p);
        lemma_mod_bound(2 * a + p, 2 * p);
        assert(0 <= k <= 3) by (nonlinear_arith)
            requires
                2 * a + p == (2 * p) * k + (2 * a + p) % (2 * p),
                0 <= (2 * a + p) % (2 * p) < 2 * p,
                0 <= a <= 3 * p,
                p > 0,
        ;
    }
    assert(0 <= k * p <= (3 * p) * 1) by (nonlinear_arith)
        requires
            0 <= k <= 3,
            p > 0,
    ;
    lemma_round_at_most(k * p, 1, THREE as int);
    lemma_round_exists(k * p, 1);
    if v.negative() {
        assert(v.code() == 0);
        assert(a == 0);
        lemma_fundamental_div_mod_converse(p, 2 * p, 0, p);
        assert(k == 0);
        lemma_round_zero(1);
        assert(0 * p == 0);
    }
}

/// The digits and the power of two that a code stands for.
pub open spec fn digits(code: int) -> int {
    if code < BINADE {
        code
    } else {
        BINADE + code % (BINADE as int)
    }
}

pub open spec fn scale(code: int) -> nat {
    if code < BINADE {
        0
    } else {
        (code / (BINADE as int) - 1) as nat
    }
}

proof fn lemma_parts(code: int)
    requires
        0 <= code < INFINITE,
    ensures
        magnitude(code) == digits(code) * pow2(scale(code)),
        0 <= digits(code) < 2 * BINADE,
        scale(code) <= 253,
{
    if code < BINADE {
        lemma2_to64();
        assert(code * pow2(0) == code) by (nonlinear_arith)
            requires
                pow2(0) == 1,
        ;
    }
}

/// What two values that are not far apart differ by is a single: nothing is lost
/// in taking one from the other.
pub proof fn lemma_difference_exact(a: Single, b: Single)
    requires
        a.finite(),
        b.finite(),
        !a.negative(),
        !b.negative(),
        magnitude(a.code()) <= magnitude(b.code()) <= 2 * magnitude(a.code()),
    ensures
        b.difference(a).finite(),
        !b.difference(a).negative(),
        magnitude(b.difference(a).code()) == magnitude(b.code()) - magnitude(a.code()),
{
    let x = a.code();
    let y = b.code();
    lemma_codes_order(x, y);
    assert(x <= y);
    lemma_parts(x);
    lemma_parts(y);
    assert(scale(x) <= scale(y)) by {
        if x >= BINADE {
            vstd::arithmetic::div_mod::lemma_div_is_ordered(x, y, BINADE as int);
        }
    }
    let j = scale(x);
    let up = (scale(y) - j) as nat;
    lemma_pow2_adds(up, j);
    lemma_pow2_pos(j);
    let u = pow2(j) as int;
    let m = digits(y) * pow2(up) - digits(x);
    assert(m * u == magnitude(y) - magnitude(x)) by (nonlinear_arith)
        requires
            m == digits(y) * pow2(up) - digits(x),
            magnitude(y) == digits(y) * pow2(scale(y)),
            magnitude(x) == digits(x) * u,
            pow2(scale(y)) == pow2(up) * u,
    ;
    assert(0 <= m <= digits(x)) by (nonlinear_arith)
        requires
            m * u == magnitude(y) - magnitude(x),
            magnitude(x) == digits(x) * u,
            magnitude(x) <= magnitude(y) <= 2 * magnitude(x),
            u > 0,
    ;
    lemma_round_representable(m, j);
    reveal(Single::sum);
    let n = a.negation();
    assert(n.code() == x && n.negative());
    lemma_codes_order(x, 0);
    lemma_codes_order(y, 0);
    if m == 0 {
        assert(m * u == 0) by (nonlinear_arith)
            requires
                m == 0,
        ;
        assert(magnitude(0) == 0);
    } else {
        assert(m * u > 0) by (nonlinear_arith)
            requires
                m > 0,
                u > 0,
        ;
    }
}

/// The sum of two values that are not below nought.
pub proof fn lemma_sum_rounds(a: Single, b: Single)
    requires
        a.finite(),
        b.finite(),
        !a.negative(),
        !b.negative(),
    ensures
        a.sum(b).code() == round_to_code(magnitude(a.code()) + magnitude(b.code()), 1),
        !a.sum(b).negative(),
        !a.sum(b).nan(),
{
    reveal(Single::sum);
    lemma_codes_order(a.code(), 0);
    lemma_codes_order(b.code(), 0);
    let v = magnitude(a.code()) + magnitude(b.code());
    lemma_round_exists(v, 1);
    if v == 0 {
        lemma_round_zero(1);
    }
}

} // verus!
