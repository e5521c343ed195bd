//! A single written out with six decimals, as a sidecar spells a coordinate.

use vstd::prelude::*;
use vstd::string::*;
use vstd::arithmetic::power2::*;
use vstd::arithmetic::div_mod::{lemma_fundamental_div_mod, lemma_fundamental_div_mod_converse};
use crate::single::{magnitude, two_to, unpack, Single};
use crate::text::{decimal, decimal_text, digit, digit_text};

verus! {

/// `n / d` rounded to the nearest whole number, to the even one on a tie.
pub open spec fn half_even(n: int, d: int) -> int {
    let q = n / d;
    let r = n % d;
    if 2 * r < d || (2 * r == d && q % 2 == 0) {
        q
    } else {
        q + 1
    }
}

/// The six decimal digits of `f`, leading zeros and all.
pub open spec fn six_digits(f: int) -> Seq<char> {
    seq![
        digit((f / 100000 % 10) as nat),
        digit((f / 10000 % 10) as nat),
        digit((f / 1000 % 10) as nat),
        digit((f / 100 % 10) as nat),
        digit((f / 10 % 10) as nat),
        digit((f % 10) as nat),
    ]
}

/// The number of millionths in a finite value, rounded.
pub open spec fn millionths(v: Single) -> int {
    half_even(magnitude(v.code()) * 1000000, pow2(149) as int)
}

/// `v` with six decimals.
pub open spec fn fixed(v: Single) -> Seq<char> {
    if v.nan() {
        "NaN"@
    } else {
        let sign = if v.negative() { "-"@ } else { ""@ };
        if v.infinite() {
            sign + "inf"@
        } else {
            let q = millionths(v);
            sign + decimal((q / 1000000) as nat) + "."@ + six_digits(q % 1000000)
        }
    }
}

/// The whole part and the millionths of a finite value.
fn split_millionths(v: Single) -> (r: (u128, u128))
    requires
        v.finite(),
    ensures
        millionths(v) >= 0,
        r.0 == millionths(v) / 1000000,
        r.1 == millionths(v) % 1000000,
{
    let (m, k) = unpack(v.magnitude_code());
    let ghost n = magnitude(v.code()) * 1000000;
    let ghost d = pow2(149) as int;
    proof {
        lemma_pow2_pos(149);
    }
    if k >= 149 {
        let f: u128 = two_to(k - 149);
        proof {
            lemma2_to64();
            lemma2_to64_rest();
            lemma_pow2_adds(24, (k - 149) as nat);
            if k < 253 {
                lemma_pow2_strictly_increases((24 + k - 149) as nat, 128);
            }
            lemma_pow2_adds(64, 64);
            assert(pow2(128) == 0x1_0000_0000_0000_0000_0000_0000_0000_0000) by (nonlinear_arith)
                requires
                    pow2(128) == pow2(64) * pow2(64),
                    pow2(64) == 0x1_0000_0000_0000_0000,
            ;
            assert(m * f < pow2(128)) by (nonlinear_arith)
                requires
                    m < pow2(24),
                    f == pow2((k - 149) as nat),
                    pow2(24) * pow2((k - 149) as nat) <= pow2(128),
                    f > 0,
            ;
        }
        let whole: u128 = (m as u128) * f;
        proof {
            lemma_pow2_adds((k - 149) as nat, 149);
            assert(n == (whole * 1000000) * d + 0) by (nonlinear_arith)
                requires
                    n == (m * pow2(k as nat)) * 1000000,
                    pow2(k as nat) == f * d,
                    whole == m * f,
            ;
            lemma_fundamental_div_mod_converse(n, d, whole * 1000000, 0);
        }
        return (whole, 0);
    }
    let s: u32 = 149 - k;
    let x: u128 = (m as u128) * 1000000;
    let ghost pk = pow2(k as nat) as int;
    proof {
        lemma_pow2_pos(k as nat);
        lemma_pow2_adds(k as nat, s as nat);
        assert(k + s == 149);
        assert(n == x * pk) by (nonlinear_arith)
            requires
                n == (m * pk) * 1000000,
                x == m * 1000000,
        ;
    }
    if s >= 64 {
        proof {
            lemma2_to64();
            if s > 64 {
                lemma_pow2_strictly_increases(64, s as nat);
            }
            assert(0 <= n && 2 * n < d) by (nonlinear_arith)
                requires
                    n == x * pk,
                    d == pk * pow2(s as nat),
                    2 * x < pow2(s as nat),
                    pk > 0,
                    x >= 0,
            ;
            lemma_fundamental_div_mod_converse(n, d, 0, n);
        }
        return (0, 0);
    }
    let p: u128 = two_to(s);
    let half: u128 = p / 2;
    let q: u128 = x / p;
    let r: u128 = x % p;
    proof {
        lemma_pow2_unfold(s as nat);
        lemma_fundamental_div_mod(x as int, p as int);
        assert(n == q * d + r * pk && 0 <= r * pk < d && (2 * (r * pk) < d <==> r < half) && (2 * (r
            * pk) == d <==> r == half)) by (nonlinear_arith)
            requires
                n == x * pk,
                d == pk * p,
                x == p * q + r,
                0 <= r < p,
                p == 2 * half,
                pk > 0,
        ;
        lemma_fundamental_div_mod_converse(n, d, q as int, r * pk);
        assert(q <= x) by (nonlinear_arith)
            requires
                x == p * q + r,
                r >= 0,
                p >= 1,
                q >= 0,
        ;
    }
    let rounded: u128 = if r < half || (r == half && q % 2 == 0) {
        q
    } else {
        q + 1
    };
    (rounded / 1000000, rounded % 1000000)
}

/// Writes `v` with six decimals.
pub fn fixed_text(v: Single) -> (s: String)
    ensures
        s@ == fixed(v),
{
    if v.is_nan() {
        return "NaN".to_owned();
    }
    let mut s: String = if v.is_sign_negative() {
        "-".to_owned()
    } else {
        "".to_owned()
    };
    if !v.is_finite() {
        s.append("inf");
        return s;
    }
    let (whole, f) = split_millionths(v);
    s.append(decimal_text(whole).as_str());
    s.append(".");
    let ghost head = s@;
    s.append(digit_text(f / 100000 % 10));
    s.append(digit_text(f / 10000 % 10));
    s.append(digit_text(f / 1000 % 10));
    s.append(digit_text(f / 100 % 10));
    s.append(digit_text(f / 10 % 10));
    s.append(digit_text(f % 10));
    assert(s@ =~= head + six_digits(f as int));
    s
}

} // verus!
