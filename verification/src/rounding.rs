//! What rounding keeps: every number rounds somewhere, order is kept, and the
//! results of the operations are numbers where their operands are.

use vstd::prelude::*;
use vstd::arithmetic::power2::*;
use crate::single::{
    lemma_codes_order, lemma_magnitude_increases, lemma_round_exact, lemma_rounds_to, magnitude,
    nearest, round_to_code, Single, INFINITE,
};

verus! {

/// The largest code up to `c` whose number is not above `n / d`.
spec fn floor_code(n: int, d: int, c: nat) -> nat
    decreases c,
{
    if c == 0 || magnitude(c as int) * d <= n {
        c
    } else {
        floor_code(n, d, (c - 1) as nat)
    }
}

proof fn lemma_floor_code(n: int, d: int, c: nat)
    requires
        0 <= n,
        d > 0,
    ensures
        floor_code(n, d, c) <= c,
        magnitude(floor_code(n, d, c) as int) * d <= n,
        floor_code(n, d, c) < c ==> n < magnitude(floor_code(n, d, c) as int + 1) * d,
    decreases c,
{
    if c == 0 {
        assert(magnitude(0) == 0);
        assert(0 * d == 0);
    } else if magnitude(c as int) * d > n {
        lemma_floor_code(n, d, (c - 1) as nat);
    }
}

/// Every number rounds to a code.
pub proof fn lemma_round_exists(n: int, d: int)
    requires
        0 <= n,
        d > 0,
    ensures
        nearest(n, d, round_to_code(n, d)),
        0 <= round_to_code(n, d) <= INFINITE,
{
    let top = INFINITE as nat;
    lemma_floor_code(n, d, top);
    let c = floor_code(n, d, top) as int;
    let low = magnitude(c);
    lemma_codes_order(c, c + 1);
    if c > 0 {
        lemma_codes_order(c - 1, c);
        let below = magnitude(c - 1);
        assert((below + low) * d < 2 * n) by (nonlinear_arith)
            requires
                below < low,
                low * d <= n,
                d > 0,
        ;
    }
    if c == INFINITE {
        lemma_rounds_to(n, d, c);
    } else {
        let high = magnitude(c + 1);
        let mid = (low + high) * d;
        if 2 * n < mid || (2 * n == mid && c % 2 == 0) {
            lemma_rounds_to(n, d, c);
        } else {
            if c + 1 < INFINITE {
                lemma_codes_order(c + 1, c + 2);
                let above = magnitude(c + 2);
                assert(2 * n < (high + above) * d) by (nonlinear_arith)
                    requires
                        high < above,
                        n < high * d,
                        d > 0,
                ;
            }
            lemma_rounds_to(n, d, c + 1);
        }
    }
}

/// Rounding keeps the order of numbers.
pub proof fn lemma_round_monotone(n1: int, d1: int, n2: int, d2: int)
    requires
        0 <= n1,
        0 <= n2,
        d1 > 0,
        d2 > 0,
        n1 * d2 <= n2 * d1,
    ensures
        round_to_code(n1, d1) <= round_to_code(n2, d2),
{
    lemma_round_exists(n1, d1);
    lemma_round_exists(n2, d2);
    let r1 = round_to_code(n1, d1);
    let r2 = round_to_code(n2, d2);
    if r1 > r2 {
        let a = magnitude(r1 - 1) + magnitude(r1);
        let b = magnitude(r2) + magnitude(r2 + 1);
        lemma_codes_order(r2, r1 - 1);
        lemma_codes_order(r2 + 1, r1);
        assert(b <= a);
        assert(b * (d1 * d2) <= a * (d1 * d2)) by (nonlinear_arith)
            requires
                b <= a,
                d1 > 0,
                d2 > 0,
        ;
        assert(a * (d1 * d2) <= 2 * (n1 * d2)) by (nonlinear_arith)
            requires
                a * d1 <= 2 * n1,
                d2 > 0,
        ;
        assert(2 * (n2 * d1) <= b * (d1 * d2)) by (nonlinear_arith)
            requires
                2 * n2 <= b * d2,
                d1 > 0,
        ;
        assert(a * (d1 * d2) == b * (d1 * d2));
        assert(a == b && a * d1 == 2 * n1 && 2 * n2 == b * d2) by (nonlinear_arith)
            requires
                a * (d1 * d2) == b * (d1 * d2),
                a * (d1 * d2) == 2 * (n1 * d2),
                2 * (n2 * d1) == b * (d1 * d2),
                d1 > 0,
                d2 > 0,
        {
            assert(a == b) by (nonlinear_arith)
                requires
                    a * (d1 * d2) == b * (d1 * d2),
                    d1 > 0,
                    d2 > 0,
            ;
            assert((a * d1) * d2 == (2 * n1) * d2);
            assert((b * d2) * d1 == (2 * n2) * d1);
        }
        if r1 > r2 + 1 {
            lemma_magnitude_increases(r2, r1 - 1);
        }
        assert(r1 == r2 + 1);
    }
}

/// A number that is not above a single does not round above it.
pub proof fn lemma_round_at_most(n: int, d: int, code: int)
    requires
        0 <= n,
        d > 0,
        0 <= code <= INFINITE,
        n <= magnitude(code) * d,
    ensures
        round_to_code(n, d) <= code,
{
    lemma_codes_order(code, 0);
    lemma_round_exact(code);
    lemma_round_monotone(n, d, magnitude(code), 1);
}

/// A number that is not below a single does not round below it.
pub proof fn lemma_round_at_least(n: int, d: int, code: int)
    requires
        0 <= n,
        d > 0,
        0 <= code <= INFINITE,
        magnitude(code) * d <= n,
    ensures
        code <= round_to_code(n, d),
{
    lemma_codes_order(code, 0);
    lemma_round_exact(code);
    lemma_round_monotone(magnitude(code), 1, n, d);
}

/// The parts of a value put together from a sign and a code.
pub proof fn lemma_with_sign(negative: bool, code: int)
    requires
        0 <= code <= INFINITE,
    ensures
        Single::with_sign(negative, code).code() == code,
        Single::with_sign(negative, code).negative() == negative,
        !Single::with_sign(negative, code).nan(),
{
}

/// A value is its sign and its code.
pub proof fn lemma_single_from_parts(a: Single, b: Single)
    requires
        a.code() == b.code(),
        a.negative() == b.negative(),
    ensures
        a == b,
{
}

/// The sum of two finite values is a number.
pub proof fn lemma_sum_is_number(a: Single, b: Single)
    requires
        a.finite(),
        b.finite(),
    ensures
        !a.sum(b).nan(),
        !a.negative() && !b.negative() ==> !a.sum(b).negative(),
{
    reveal(Single::sum);
    let v = a.value() + b.value();
    lemma_codes_order(a.code(), 0);
    lemma_codes_order(b.code(), 0);
    if v != 0 {
        let n = if v < 0 { -v } else { v };
        lemma_round_exists(n, 1);
        lemma_with_sign(v < 0, round_to_code(n, 1));
    }
}

/// The product of two finite values is a number, and a square is not negative.
pub proof fn lemma_product_is_number(a: Single, b: Single)
    requires
        a.finite(),
        b.finite(),
    ensures
        !a.product(b).nan(),
        a.product(b).negative() == (a.negative() != b.negative()),
{
    reveal(Single::product);
    lemma_pow2_pos(149);
    lemma_codes_order(a.code(), 0);
    lemma_codes_order(b.code(), 0);
    let n = magnitude(a.code()) * magnitude(b.code());
    assert(n >= 0) by (nonlinear_arith)
        requires
            n == magnitude(a.code()) * magnitude(b.code()),
            magnitude(a.code()) >= 0,
            magnitude(b.code()) >= 0,
    ;
    lemma_round_exists(n, pow2(149) as int);
    lemma_with_sign(a.negative() != b.negative(), round_to_code(n, pow2(149) as int));
}

/// The quotient of a finite value by one that is not zero is a number.
pub proof fn lemma_quotient_is_number(a: Single, b: Single)
    requires
        a.finite(),
        b.finite(),
        !b.zero(),
    ensures
        !a.quotient(b).nan(),
        a.quotient(b).negative() == (a.negative() != b.negative()),
{
    reveal(Single::quotient);
    lemma_pow2_pos(149);
    lemma_codes_order(a.code(), 0);
    lemma_codes_order(b.code(), 0);
    let n = magnitude(a.code()) * pow2(149);
    assert(n >= 0) by (nonlinear_arith)
        requires
            n == magnitude(a.code()) * pow2(149),
            magnitude(a.code()) >= 0,
            pow2(149) > 0,
    ;
    lemma_round_exists(n, magnitude(b.code()));
    lemma_with_sign(a.negative() != b.negative(), round_to_code(n, magnitude(b.code())));
}

} // verus!
