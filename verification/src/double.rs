//! A mean that is taken in doubles and then kept as a single.

use vstd::prelude::*;
use vstd::arithmetic::div_mod::lemma_fundamental_div_mod;
use vstd::arithmetic::power2::{
    lemma2_to64, lemma2_to64_rest, lemma_pow2_adds, lemma_pow2_pos, lemma_pow2_strictly_increases,
    lemma_pow2_unfold, pow2,
};
use crate::fixed::half_even;
use crate::rounding::{lemma_round_at_most, lemma_round_exists, lemma_with_sign};
use crate::single::{magnitude, round_to_code, Single, BINADE};

verus! {

/// How many binary places a double has after the point of `n / d`, if it has at least
/// `k`: as many as its fifty-three digits leave room for.
pub open spec fn places(n: int, d: int, k: nat) -> nat
    decreases 85 - k,
{
    if k < 85 && n * pow2(k + 1) < pow2(53) * d {
        places(n, d, k + 1)
    } else {
        k
    }
}

/// The digits of the double nearest to `n / d`, the even ones on a tie.
pub open spec fn double_digits(n: int, d: int) -> int {
    half_even(n * pow2(places(n, d, 0)), d)
}

/// The double nearest to `n / d`, rounded to a single.
#[verifier::opaque]
pub open spec fn through_double(n: int, d: int) -> Single {
    Single::with_sign(
        false,
        round_to_code(double_digits(n, d) * pow2((149 - places(n, d, 0)) as nat), 1),
    )
}

proof fn lemma_places(n: int, d: int, k: nat)
    requires
        0 <= n,
        d > 0,
        k <= 85,
        n * pow2(k) < pow2(53) * d,
    ensures
        k <= places(n, d, k) <= 85,
        n * pow2(places(n, d, k)) < pow2(53) * d,
    decreases 85 - k,
{
    if k < 85 && n * pow2(k + 1) < pow2(53) * d {
        lemma_places(n, d, k + 1);
    }
}

/// The digits of a double are no more than two to the power of fifty-three.
pub proof fn lemma_digits(n: int, d: int)
    requires
        0 <= n < pow2(53) * d,
        d > 0,
    ensures
        0 <= places(n, d, 0) <= 85,
        0 <= double_digits(n, d) <= pow2(53),
{
    lemma2_to64();
    assert(n * pow2(0) == n) by (nonlinear_arith)
        requires
            pow2(0) == 1,
    ;
    lemma_places(n, d, 0);
    let p = pow2(places(n, d, 0)) as int;
    let x = n * p;
    lemma_pow2_pos(places(n, d, 0));
    assert(x >= 0) by (nonlinear_arith)
        requires
            x == n * p,
            n >= 0,
            p > 0,
    ;
    let q = x / d;
    lemma_fundamental_div_mod(x, d);
    assert(0 <= q < pow2(53)) by (nonlinear_arith)
        requires
            x == d * q + x % d,
            0 <= x % d < d,
            0 <= x < pow2(53) * d,
            d > 0,
    ;
}

/// A mean of whole numbers of thirty-two digits is a finite single and not below nought.
pub proof fn lemma_mean_is_finite(n: int, d: int)
    requires
        0 <= n < pow2(53) * d,
        d > 0,
    ensures
        through_double(n, d).finite(),
        !through_double(n, d).negative(),
{
    reveal(through_double);
    lemma_digits(n, d);
    let k = places(n, d, 0);
    let q = double_digits(n, d);
    let code: int = 0x5F80_0000;
    lemma_pow2_adds(23, 190);
    lemma_pow2_adds(64, 149);
    lemma2_to64();
    lemma2_to64_rest();
    assert(code / (BINADE as int) == 191 && code % (BINADE as int) == 0);
    assert(magnitude(code) == pow2(64) * pow2(149));
    lemma_pow2_pos((149 - k) as nat);
    if k > 0 {
        lemma_pow2_strictly_increases((149 - k) as nat, 149);
    }
    let value = q * pow2((149 - k) as nat);
    assert(0 <= value <= magnitude(code) * 1) by (nonlinear_arith)
        requires
            value == q * pow2((149 - k) as nat),
            0 <= q <= pow2(53),
            pow2(53) <= pow2(64),
            0 < pow2((149 - k) as nat) <= pow2(149),
            magnitude(code) == pow2(64) * pow2(149),
    ;
    lemma_round_at_most(value, 1, code);
    lemma_round_exists(value, 1);
    lemma_with_sign(false, round_to_code(value, 1));
}

/// `n / d`, taken in doubles and kept as a single.
pub fn mean(n: u128, d: u32) -> (r: Single)
    requires
        d > 0,
        n < pow2(53) * d,
    ensures
        r == through_double(n as int, d as int),
{
    proof {
        lemma2_to64();
        lemma2_to64_rest();
    }
    let limit: u128 = 0x20_0000_0000_0000 * d as u128;
    let mut k: u32 = 0;
    let mut x: u128 = n;
    proof {
        assert(limit < 0x20_0000_0000_0000 * 0x1_0000_0000) by (nonlinear_arith)
            requires
                limit == 0x20_0000_0000_0000 * d,
                d < 0x1_0000_0000,
        ;
        assert(n * pow2(0) == n) by (nonlinear_arith)
            requires
                pow2(0) == 1,
        ;
    }
    while k < 85 && 2 * x < limit
        invariant
            d > 0,
            limit == pow2(53) * d,
            limit < 0x20_0000_0000_0000 * 0x1_0000_0000,
            k <= 85,
            x == n * pow2(k as nat),
            x < limit,
            places(n as int, d as int, 0) == places(n as int, d as int, k as nat),
        decreases 85 - k,
    {
        proof {
            lemma_pow2_unfold((k + 1) as nat);
            assert(n * pow2((k + 1) as nat) == 2 * x) by (nonlinear_arith)
                requires
                    x == n * pow2(k as nat),
                    pow2((k + 1) as nat) == 2 * pow2(k as nat),
            ;
        }
        x = 2 * x;
        k = k + 1;
    }
    proof {
        lemma_pow2_unfold((k + 1) as nat);
        assert(n * pow2((k + 1) as nat) == 2 * x) by (nonlinear_arith)
            requires
                x == n * pow2(k as nat),
                pow2((k + 1) as nat) == 2 * pow2(k as nat),
        ;
        assert(places(n as int, d as int, 0) == k);
        lemma_digits(n as int, d as int);
    }
    let q: u128 = x / d as u128;
    let rest: u128 = x % d as u128;
    proof {
        lemma_fundamental_div_mod(x as int, d as int);
        assert(q <= x) by (nonlinear_arith)
            requires
                x == d * q + rest,
                rest >= 0,
                d >= 1,
                q >= 0,
        ;
    }
    let digits: u128 = if 2 * rest < d as u128 || (2 * rest == d as u128 && q % 2 == 0) {
        q
    } else {
        q + 1
    };
    proof {
        reveal(through_double);
        assert(digits == double_digits(n as int, d as int));
    }
    Single::scaled_down(digits, k)
}

/// The binary places in front of the point that a double has no room for in the whole
/// number `v`, if there are at least `k`.
pub open spec fn places_lost(v: int, k: nat) -> nat
    decreases 64 - k,
{
    if k < 64 && v >= pow2(53) * pow2(k) {
        places_lost(v, k + 1)
    } else {
        k
    }
}

/// The double nearest to a whole number, the even one on a tie.
pub open spec fn whole_double(v: int) -> int {
    let p = pow2(places_lost(v, 0)) as int;
    half_even(v, p) * p
}

/// The first `k` values of `f` on a list, added up one after the other in doubles.
pub open spec fn added_up(s: Seq<int>, f: spec_fn(int) -> int, k: nat) -> int
    decreases k,
{
    if k == 0 {
        0
    } else {
        whole_double(added_up(s, f, (k - 1) as nat) + f(s[k - 1]))
    }
}

proof fn lemma_places_lost(v: int, k: nat)
    requires
        0 <= v < pow2(66),
        k <= 13,
        k > 0 ==> v >= pow2(53) * pow2((k - 1) as nat),
    ensures
        k <= places_lost(v, k) <= 13,
        v < pow2(53) * pow2(places_lost(v, k)),
    decreases 13 - k,
{
    lemma_pow2_adds(53, 13);
    if k == 13 {
    } else if v >= pow2(53) * pow2(k) {
        lemma_places_lost(v, k + 1);
    }
}

/// A whole number is rounded by no more than a few thousand.
pub proof fn lemma_whole_double(v: int)
    requires
        0 <= v < pow2(66),
    ensures
        0 <= whole_double(v) <= v + 8192,
        v < pow2(53) ==> whole_double(v) == v,
        places_lost(v, 0) <= 13,
{
    lemma2_to64();
    lemma2_to64_rest();
    lemma_places_lost(v, 0);
    let k = places_lost(v, 0);
    let p = pow2(k) as int;
    lemma_pow2_pos(k);
    if k < 13 {
        lemma_pow2_strictly_increases(k, 13);
    }
    let q = v / p;
    let r = v % p;
    lemma_fundamental_div_mod(v, p);
    assert(q >= 0) by (nonlinear_arith)
        requires
            v == p * q + r,
            0 <= r < p,
            v >= 0,
    ;
    assert(q * p <= v && (q + 1) * p <= v + p && 0 <= q * p) by (nonlinear_arith)
        requires
            v == p * q + r,
            0 <= r < p,
            q >= 0,
    ;
    assert((q + 1) * p >= 0) by (nonlinear_arith)
        requires
            q >= 0,
            p > 0,
    ;
    if v < pow2(53) {
        assert(pow2(53) * pow2(0) == pow2(53)) by (nonlinear_arith)
            requires
                pow2(0) == 1,
        ;
        assert(k == 0);
        assert(p == 1 && r == 0 && q == v) by {
            assert(v == 1 * v + 0);
        }
        assert(v * 1 == v);
    }
}

/// `v` as a double holds it.
pub fn to_double(v: u128) -> (r: u128)
    requires
        v < pow2(66),
    ensures
        r == whole_double(v as int),
{
    proof {
        lemma2_to64();
        lemma2_to64_rest();
        lemma_whole_double(v as int);
        lemma_pow2_adds(53, 13);
    }
    let mut k: u32 = 0;
    let mut p: u128 = 1;
    while k < 13 && v >= 0x20_0000_0000_0000 * p
        invariant
            v < pow2(66),
            pow2(53) == 0x20_0000_0000_0000,
            k <= 13,
            p == pow2(k as nat),
            p <= 8192,
            k < 13 ==> p <= 4096,
            pow2(13) == 8192,
            places_lost(v as int, 0) == places_lost(v as int, k as nat),
        decreases 13 - k,
    {
        proof {
            lemma_pow2_unfold((k + 1) as nat);
            if k + 1 < 13 {
                lemma_pow2_strictly_increases((k + 1) as nat, 13);
                lemma_pow2_unfold((k + 2) as nat);
                if k + 2 < 13 {
                    lemma_pow2_strictly_increases((k + 2) as nat, 13);
                }
            }
        }
        p = 2 * p;
        k = k + 1;
    }
    proof {
        lemma_pow2_adds(53, 13);
        assert(places_lost(v as int, 0) == k) by {
            if k == 13 {
                lemma_places_end(v as int);
            }
        }
        lemma_pow2_pos(k as nat);
        lemma_fundamental_div_mod(v as int, p as int);
    }
    let q: u128 = v / p;
    let rest: u128 = v % p;
    proof {
        assert(q <= v && q * p <= v) by (nonlinear_arith)
            requires
                v == p * q + rest,
                rest >= 0,
                p >= 1,
                q >= 0,
        ;
        lemma_pow2_adds(64, 2);
        assert((q + 1) * p <= v + p) by (nonlinear_arith)
            requires
                v == p * q + rest,
                rest >= 0,
        ;
    }
    if 2 * rest < p || (2 * rest == p && q % 2 == 0) {
        q * p
    } else {
        (q + 1) * p
    }
}

proof fn lemma_places_end(v: int)
    requires
        0 <= v < pow2(66),
    ensures
        places_lost(v, 13) == 13,
{
    lemma_pow2_adds(53, 13);
}

/// A running total of numbers of thirty-two digits stays in bounds.
pub proof fn lemma_added_bound(s: Seq<int>, f: spec_fn(int) -> int, k: nat)
    requires
        k <= s.len(),
        k <= 0xFFFF_FFFF,
        forall|a: int| 0 <= a < s.len() ==> 0 <= f(#[trigger] s[a]) <= 0xFFFF_FFFF,
    ensures
        0 <= added_up(s, f, k) <= k * 0x2_0000_0000,
    decreases k,
{
    if k > 0 {
        lemma_added_bound(s, f, (k - 1) as nat);
        let v = added_up(s, f, (k - 1) as nat) + f(s[k - 1]);
        lemma2_to64();
        lemma_pow2_adds(64, 2);
        lemma_whole_double(v);
    }
}

/// The first `k` values of `f` on a list, added up.
pub open spec fn exact_sum(s: Seq<int>, f: spec_fn(int) -> int, k: nat) -> int
    decreases k,
{
    if k == 0 {
        0
    } else {
        exact_sum(s, f, (k - 1) as nat) + f(s[k - 1])
    }
}

/// As long as doubles have room for a sum, adding up in them loses nothing.
pub proof fn small_sums_are_exact(s: Seq<int>, f: spec_fn(int) -> int, k: nat)
    requires
        k <= s.len(),
        forall|a: int| 0 <= a < s.len() ==> 0 <= f(#[trigger] s[a]),
        exact_sum(s, f, k) < pow2(53),
    ensures
        0 <= added_up(s, f, k) == exact_sum(s, f, k),
    decreases k,
{
    if k > 0 {
        assert(0 <= f(s[k - 1]));
        small_sums_are_exact(s, f, (k - 1) as nat);
        lemma_pow2_strictly_increases(53, 66);
        lemma_whole_double(exact_sum(s, f, k));
    }
}

} // verus!
