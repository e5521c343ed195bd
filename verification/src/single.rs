//! IEEE-754 single-precision values, held by their bit pattern.
//!
//! Every slider, coordinate and gain of a recipe is a single-precision number.
//! A [`Single`] carries the 32 bits of one, so a value survives the trip in
//! and out unchanged, and everything the rules ask of it (finiteness, order,
//! clamping, the four operations, rounding) is integer arithmetic whose result
//! is stated against the number that the bits stand for.

use vstd::prelude::*;
use vstd::arithmetic::power2::*;

verus! {

/// The code of infinity: a bit pattern without its sign bit.
pub const INFINITE: u32 = 0x7F80_0000;

/// The sign bit.
pub const SIGN: u32 = 0x8000_0000;

/// The number of codes that share one exponent.
pub const BINADE: u32 = 0x80_0000;

/// A single-precision number, as its bit pattern.
#[derive(Clone, Copy, Debug)]
pub struct Single {
    pub bits: u32,
}

/// The single with the bit pattern `bits`.
pub open spec fn num(bits: u32) -> Single {
    Single { bits }
}

/// The number that the code `code` stands for, in units of the smallest
/// positive single (2^-149). At [`INFINITE`] it is the first power of two past
/// the largest finite single, which is what rounding to infinity compares with.
pub open spec fn magnitude(code: int) -> int {
    if code < BINADE {
        code
    } else {
        (BINADE + code % (BINADE as int)) * pow2((code / (BINADE as int) - 1) as nat)
    }
}

/// `code` is the code nearest to `n / d` units, and the even one of two that
/// are equally near.
pub open spec fn nearest(n: int, d: int, code: int) -> bool {
    &&& 0 <= code <= INFINITE
    &&& code > 0 ==> {
        let mid = (magnitude(code - 1) + magnitude(code)) * d;
        mid < 2 * n || (mid == 2 * n && code % 2 == 0)
    }
    &&& code < INFINITE ==> {
        let mid = (magnitude(code) + magnitude(code + 1)) * d;
        2 * n < mid || (2 * n == mid && code % 2 == 0)
    }
}

/// The code that `n / d` units round to.
pub open spec fn round_to_code(n: int, d: int) -> int {
    choose|code: int| nearest(n, d, code)
}

impl Single {
    /// The bit pattern without its sign bit.
    pub open spec fn code(self) -> int {
        self.bits as int % (SIGN as int)
    }

    /// The sign bit is set.
    pub open spec fn negative(self) -> bool {
        self.bits >= SIGN
    }

    pub open spec fn finite(self) -> bool {
        self.code() < INFINITE
    }

    pub open spec fn nan(self) -> bool {
        self.code() > INFINITE
    }

    /// The place of the value among all values: the two zeros share one.
    pub open spec fn order(self) -> int {
        if self.negative() {
            -self.code()
        } else {
            self.code()
        }
    }

    /// The number itself, in units of 2^-149. Only of a finite value.
    pub open spec fn value(self) -> int {
        if self.negative() {
            -magnitude(self.code())
        } else {
            magnitude(self.code())
        }
    }

    /// `self < other`, false as soon as one of them is no number.
    pub open spec fn less(self, other: Single) -> bool {
        !self.nan() && !other.nan() && self.order() < other.order()
    }

    /// `self <= other`, false as soon as one of them is no number.
    pub open spec fn at_most(self, other: Single) -> bool {
        !self.nan() && !other.nan() && self.order() <= other.order()
    }

    /// `self == other` as numbers: the zeros are equal, no NaN equals anything.
    pub open spec fn equals(self, other: Single) -> bool {
        !self.nan() && !other.nan() && self.order() == other.order()
    }

    /// The value pulled into `lo ..= hi`. A NaN stays as it is.
    pub open spec fn clamped(self, lo: Single, hi: Single) -> Single {
        if self.less(lo) {
            lo
        } else if hi.less(self) {
            hi
        } else {
            self
        }
    }

    /// The value with code `code` and the given sign.
    pub open spec fn with_sign(negative: bool, code: int) -> Single {
        Single { bits: (if negative { SIGN + code } else { code }) as u32 }
    }

    pub fn from_bits(bits: u32) -> (r: Single)
        ensures
            r.bits == bits,
    {
        Single { bits }
    }

    pub fn to_bits(self) -> (r: u32)
        ensures
            r == self.bits,
    {
        self.bits
    }

    pub(crate) fn magnitude_code(self) -> (r: u32)
        ensures
            r == self.code(),
            r < SIGN,
    {
        self.bits % SIGN
    }

    pub fn is_sign_negative(self) -> (r: bool)
        ensures
            r == self.negative(),
    {
        self.bits >= SIGN
    }

    pub fn is_finite(self) -> (r: bool)
        ensures
            r == self.finite(),
    {
        self.bits % SIGN < INFINITE
    }

    pub fn is_nan(self) -> (r: bool)
        ensures
            r == self.nan(),
    {
        self.bits % SIGN > INFINITE
    }

    fn place(self) -> (r: i64)
        ensures
            r == self.order(),
    {
        let code: i64 = (self.bits % SIGN) as i64;
        if self.bits >= SIGN {
            -code
        } else {
            code
        }
    }

    pub fn lt(self, other: Single) -> (r: bool)
        ensures
            r == self.less(other),
    {
        !self.is_nan() && !other.is_nan() && self.place() < other.place()
    }

    pub fn le(self, other: Single) -> (r: bool)
        ensures
            r == self.at_most(other),
    {
        !self.is_nan() && !other.is_nan() && self.place() <= other.place()
    }

    /// Pulls the value into `lo ..= hi`.
    pub fn clamp(self, lo: Single, hi: Single) -> (r: Single)
        requires
            lo.at_most(hi),
        ensures
            r == self.clamped(lo, hi),
            !self.nan() ==> lo.at_most(r) && r.at_most(hi),
            self.nan() ==> r == self,
    {
        if self.lt(lo) {
            lo
        } else if hi.lt(self) {
            hi
        } else {
            self
        }
    }

    pub open spec fn negation(self) -> Single {
        Single::with_sign(!self.negative(), self.code())
    }

    pub fn neg(self) -> (r: Single)
        ensures
            r == self.negation(),
    {
        let code: u32 = self.bits % SIGN;
        if self.bits >= SIGN {
            Single { bits: code }
        } else {
            Single { bits: code + SIGN }
        }
    }

    pub open spec fn absolute(self) -> Single {
        Single::with_sign(false, self.code())
    }

    pub fn abs(self) -> (r: Single)
        ensures
            r == self.absolute(),
    {
        Single { bits: self.bits % SIGN }
    }
}

/// Two singles compare as the numbers they are.
impl PartialEq for Single {
    fn eq(&self, other: &Single) -> (r: bool)
    {
        !self.is_nan() && !other.is_nan() && self.place() == other.place()
    }
}

impl vstd::std_specs::cmp::PartialEqSpecImpl for Single {
    open spec fn obeys_eq_spec() -> bool {
        true
    }

    open spec fn eq_spec(&self, other: &Single) -> bool {
        self.equals(*other)
    }
}

/// A code and the numbers around it: below `BINADE * (k + 1)`, the codes from
/// `BINADE * k` on are evenly spaced by 2^k.
pub proof fn lemma_magnitude_of_scaled(q: int, k: nat)
    requires
        0 <= q < 2 * BINADE,
        k > 0 ==> BINADE <= q,
    ensures
        magnitude(k * BINADE + q) == q * pow2(k),
        magnitude(k * BINADE + q + 1) == (q + 1) * pow2(k),
{
    lemma_magnitude_at(q, k);
    if q + 1 < 2 * BINADE {
        lemma_magnitude_at(q + 1, k);
    } else {
        lemma_magnitude_at(BINADE as int, k + 1);
        lemma_pow2_unfold(k + 1);
        assert((k + 1) * BINADE + BINADE == k * BINADE + q + 1) by (nonlinear_arith)
            requires
                q + 1 == 2 * BINADE,
        ;
        assert(BINADE * pow2(k + 1) == (q + 1) * pow2(k)) by (nonlinear_arith)
            requires
                q + 1 == 2 * BINADE,
                pow2(k + 1) == 2 * pow2(k),
        ;
    }
}

pub proof fn lemma_magnitude_at(q: int, k: nat)
    requires
        0 <= q < 2 * BINADE,
        k > 0 ==> BINADE <= q,
    ensures
        magnitude(k * BINADE + q) == q * pow2(k),
{
    lemma2_to64();
    let code = k * BINADE + q;
    if q < BINADE {
        assert(k == 0);
        assert(code == q) by (nonlinear_arith)
            requires
                k == 0,
                code == k * BINADE + q,
        ;
    } else {
        let b = BINADE as int;
        assert(code == (k + 1) * b + (q - b)) by (nonlinear_arith)
            requires
                code == k * b + q,
        ;
        vstd::arithmetic::div_mod::lemma_fundamental_div_mod_converse(code, b, k as int + 1, q - b);
    }
}

/// Larger codes stand for larger numbers.
pub proof fn lemma_magnitude_increases(a: int, b: int)
    requires
        0 <= a < b,
    ensures
        magnitude(a) < magnitude(b),
    decreases b - a,
{
    if a + 1 < b {
        lemma_magnitude_increases(a + 1, b);
    }
    lemma_magnitude_step(a);
}

proof fn lemma_magnitude_step(a: int)
    requires
        0 <= a,
    ensures
        0 <= magnitude(a) < magnitude(a + 1),
{
    if a < BINADE {
        assert(0 * (BINADE as int) + a == a);
        lemma_magnitude_of_scaled(a, 0);
        lemma2_to64();
    } else {
        let b = BINADE as int;
        let k = (a / b - 1) as nat;
        let q = b + a % b;
        assert(a == k * b + q) by (nonlinear_arith)
            requires
                b > 0,
                k == a / b - 1,
                q == b + a % b,
        ;
        lemma_magnitude_of_scaled(q, k);
        lemma_pow2_pos(k);
        assert(0 <= q * pow2(k) < (q + 1) * pow2(k)) by (nonlinear_arith)
            requires
                q >= 0,
                pow2(k) > 0,
        ;
    }
}

/// There is one nearest code at most.
pub proof fn lemma_nearest_unique(n: int, d: int, a: int, b: int)
    requires
        d > 0,
        nearest(n, d, a),
        nearest(n, d, b),
    ensures
        a == b,
{
    if a < b {
        lemma_nearest_ordered(n, d, a, b);
    } else if b < a {
        lemma_nearest_ordered(n, d, b, a);
    }
}

proof fn lemma_nearest_ordered(n: int, d: int, a: int, b: int)
    requires
        d > 0,
        a < b,
        nearest(n, d, a),
    ensures
        !nearest(n, d, b),
{
    let up = magnitude(a) + magnitude(a + 1);
    let down = magnitude(b - 1) + magnitude(b);
    lemma_magnitude_increases(a, a + 1);
    if a + 1 < b {
        lemma_magnitude_increases(a, b - 1);
        lemma_magnitude_increases(a + 1, b);
        assert(up * d < down * d) by (nonlinear_arith)
            requires
                up < down,
                d > 0,
        ;
    }
}

/// A code found to be nearest is the code that the number rounds to.
pub proof fn lemma_rounds_to(n: int, d: int, code: int)
    requires
        d > 0,
        nearest(n, d, code),
    ensures
        round_to_code(n, d) == code,
{
    lemma_nearest_unique(n, d, round_to_code(n, d), code);
}

pub proof fn lemma_codes_order(a: int, b: int)
    requires
        0 <= a,
        0 <= b,
    ensures
        magnitude(a) >= 0,
        a < b ==> magnitude(a) < magnitude(b),
        b < a ==> magnitude(b) < magnitude(a),
{
    lemma_magnitude_step(a);
    if a < b {
        lemma_magnitude_increases(a, b);
    }
    if b < a {
        lemma_magnitude_increases(b, a);
    }
}

/// How far exponents are shifted so that a power of two below one is a whole
/// number of units.
spec fn offset() -> nat {
    400
}

/// Rounding between two neighbouring codes goes by the half-way point, and to
/// the even code on it.
proof fn lemma_round_between(n: int, d: int, q: int, k: nat)
    requires
        d > 0,
        0 <= q < 2 * BINADE,
        k > 0 ==> BINADE <= q,
        k <= 253,
        q * pow2(k) * d <= n < (q + 1) * pow2(k) * d,
    ensures
        (2 * n < (2 * q + 1) * pow2(k) * d || (2 * n == (2 * q + 1) * pow2(k) * d && q % 2 == 0))
            ==> nearest(n, d, k * BINADE + q),
        (2 * n > (2 * q + 1) * pow2(k) * d || (2 * n == (2 * q + 1) * pow2(k) * d && q % 2 != 0))
            ==> nearest(n, d, k * BINADE + q + 1),
{
    let code = k * BINADE + q;
    let p = pow2(k) as int;
    lemma_pow2_pos(k);
    lemma_magnitude_of_scaled(q, k);
    assert(0 <= code && code + 1 <= INFINITE) by (nonlinear_arith)
        requires
            code == k * BINADE + q,
            k <= 253,
            0 <= q < 2 * BINADE,
    ;
    assert(code % 2 == q % 2) by (nonlinear_arith)
        requires
            code == k * BINADE + q,
    ;
    assert((magnitude(code) + magnitude(code + 1)) * d == (2 * q + 1) * p * d) by (nonlinear_arith)
        requires
            magnitude(code) == q * p,
            magnitude(code + 1) == (q + 1) * p,
    ;
    if code > 0 {
        lemma_magnitude_increases(code - 1, code);
        assert((magnitude(code - 1) + magnitude(code)) * d < 2 * n) by (nonlinear_arith)
            requires
                magnitude(code - 1) < magnitude(code),
                magnitude(code) == q * p,
                q * p * d <= n,
                d > 0,
        ;
    }
    if code + 1 < INFINITE {
        lemma_magnitude_increases(code + 1, code + 2);
        assert((magnitude(code + 1) + magnitude(code + 2)) * d > 2 * n) by (nonlinear_arith)
            requires
                magnitude(code + 1) < magnitude(code + 2),
                magnitude(code + 1) == (q + 1) * p,
                n < (q + 1) * p * d,
                d > 0,
        ;
    }
}

/// Past the largest finite single everything rounds to infinity.
proof fn lemma_round_overflow(n: int, d: int)
    requires
        d > 0,
        n >= pow2(277) * d,
    ensures
        nearest(n, d, INFINITE as int),
{
    lemma_magnitude_at(BINADE as int, 254);
    assert(254 * (BINADE as int) + BINADE == INFINITE);
    lemma2_to64();
    assert(pow2(23) == BINADE);
    lemma_pow2_adds(23, 254);
    lemma_magnitude_increases(INFINITE - 1, INFINITE as int);
    let top = magnitude(INFINITE as int);
    assert((magnitude(INFINITE - 1) + top) * d < 2 * n) by (nonlinear_arith)
        requires
            magnitude(INFINITE - 1) < top,
            top * d <= n,
            d > 0,
    ;
}

/// Where the half-way point of a cut-off tail lies.
proof fn lemma_tail(nn: int, dd: int, m: int, q: int, p: int, half: int, inexact: bool)
    by (nonlinear_arith)
    requires
        dd > 0,
        p == 2 * half,
        half > 0,
        q * p <= m < (q + 1) * p,
        m * dd <= nn < (m + 1) * dd,
        inexact <==> m * dd < nn,
    ensures
        q * p * dd <= nn < (q + 1) * p * dd,
        m - q * p < half ==> 2 * nn < (2 * q + 1) * p * dd,
        m - q * p == half && !inexact ==> 2 * nn == (2 * q + 1) * p * dd,
        m - q * p == half && inexact ==> 2 * nn > (2 * q + 1) * p * dd,
        m - q * p > half ==> 2 * nn > (2 * q + 1) * p * dd,
{
    assert((m + 1) * dd <= (q + 1) * p * dd);
    assert(q * p * dd <= m * dd);
    if m - q * p < half {
        assert(2 * (m + 1) <= (2 * q + 1) * p);
        assert(2 * (m + 1) * dd <= (2 * q + 1) * p * dd);
    } else if m - q * p == half {
        assert(2 * m == (2 * q + 1) * p);
        assert(2 * m * dd == (2 * q + 1) * p * dd);
    } else {
        assert(2 * m > (2 * q + 1) * p);
        assert(2 * m * dd > (2 * q + 1) * p * dd);
    }
}

pub proof fn lemma_cancel(a: int, b: int, t: int)
    by (nonlinear_arith)
    requires
        t > 0,
    ensures
        a * t <= b * t ==> a <= b,
        a * t < b * t ==> a < b,
        a * t == b * t ==> a == b,
{
}

/// 2^s.
pub(crate) fn two_to(s: u32) -> (r: u128)
    requires
        s < 128,
    ensures
        r == pow2(s as nat),
        r > 0,
{
    let mut r: u128 = 1;
    let mut i: u32 = 0;
    proof {
        lemma2_to64();
    }
    while i < s
        invariant
            i <= s < 128,
            r == pow2(i as nat),
        decreases s - i,
    {
        proof {
            lemma_pow2_unfold((i + 1) as nat);
            if i + 1 < 127 {
                lemma_pow2_strictly_increases((i + 1) as nat, 127);
            }
            lemma2_to64_rest();
            lemma_pow2_adds(63, 64);
            assert(pow2(127) == 0x8000_0000_0000_0000_0000_0000_0000_0000) by (nonlinear_arith)
                requires
                    pow2(127) == pow2(63) * pow2(64),
                    pow2(63) == 0x8000_0000_0000_0000,
                    pow2(64) == 0x1_0000_0000_0000_0000,
            ;
        }
        r = r * 2;
        i = i + 1;
    }
    proof {
        lemma_pow2_pos(s as nat);
    }
    r
}

/// The number of binary digits of `m`.
pub(crate) fn bit_length(m: u128) -> (length: u32)
    requires
        0 < m < pow2(110),
    ensures
        1 <= length <= 110,
        pow2((length - 1) as nat) <= m < pow2(length as nat),
{
    let mut p: u128 = 2;
    let mut length: u32 = 1;
    proof {
        lemma2_to64();
    }
    while p <= m
        invariant
            1 <= length <= 110,
            p == pow2(length as nat),
            pow2((length - 1) as nat) <= m < pow2(110),
        decreases 110 - length,
    {
        proof {
            if length == 110 {
                assert(false);
            }
            lemma_pow2_unfold((length + 1) as nat);
            lemma2_to64();
            lemma2_to64_rest();
            lemma_pow2_adds(46, 64);
            assert(pow2(110) == 0x4000_0000_0000_0000_0000_0000_0000) by (nonlinear_arith)
                requires
                    pow2(110) == pow2(46) * pow2(64),
                    pow2(46) == 0x4000_0000_0000,
                    pow2(64) == 0x1_0000_0000_0000_0000,
            ;
        }
        p = p * 2;
        length = length + 1;
    }
    length
}

/// The code nearest to `m * 2^e` units, or, where `inexact`, to a number
/// strictly between `m * 2^e` and `(m + 1) * 2^e`.
#[verifier::rlimit(40)]
fn round_scaled(m: u128, e: i32, inexact: bool, Ghost(n): Ghost<int>, Ghost(d): Ghost<int>) -> (code:
    u32)
    requires
        d > 0,
        0 < m < pow2(110),
        -300 <= e <= 400,
        inexact ==> m >= pow2(26),
        m * (d * pow2((e + offset()) as nat)) <= n * pow2(offset()),
        n * pow2(offset()) < (m + 1) * (d * pow2((e + offset()) as nat)),
        inexact <==> m * (d * pow2((e + offset()) as nat)) < n * pow2(offset()),
    ensures
        nearest(n, d, code as int),
{
    let length: u32 = bit_length(m);
    let top: i32 = e + (length as i32) - 24;
    let ghost scale = pow2(offset()) as int;
    let ghost dd = d * pow2((e + offset()) as nat);
    let ghost nn = n * scale;
    proof {
        lemma_pow2_pos(offset());
        lemma_pow2_pos((e + offset()) as nat);
        assert(dd > 0) by (nonlinear_arith)
            requires
                d > 0,
                pow2((e + offset()) as nat) > 0,
                dd == d * pow2((e + offset()) as nat),
        ;
    }
    if top >= 254 {
        proof {
            let hi = (length - 1) as nat;
            let rest = (e + offset()) as nat;
            lemma_pow2_adds(hi, rest);
            lemma_pow2_adds(277, offset());
            if (277 + offset()) < hi + rest {
                lemma_pow2_strictly_increases(277 + offset(), hi + rest);
            }
            assert((pow2(277) * d) * scale <= n * scale) by (nonlinear_arith)
                requires
                    pow2(277) * scale <= pow2(hi) * pow2(rest),
                    pow2(hi) <= m,
                    m * (d * pow2(rest)) <= n * scale,
                    d > 0,
                    pow2(rest) > 0,
            ;
            lemma_cancel(pow2(277) * d, n, scale);
            lemma_round_overflow(n, d);
        }
        return INFINITE;
    }
    let k: u32 = if top > 0 {
        top as u32
    } else {
        0
    };
    let s: i32 = k as i32 - e;
    if s <= 0 {
        let shift: u32 = (-s) as u32;
        let f: u128 = two_to(shift);
        let ghost big = pow2(shift as nat);
        proof {
            // The cut keeps every digit: q is m itself, written with the last
            // place moved.
            lemma_pow2_adds(length as nat, shift as nat);
            lemma_pow2_adds((length - 1) as nat, shift as nat);
            lemma2_to64();
            assert(m * big < pow2((length + shift) as nat)) by (nonlinear_arith)
                requires
                    m < pow2(length as nat),
                    pow2((length + shift) as nat) == pow2(length as nat) * big,
                    big > 0,
            ;
            assert(m * big >= pow2((length - 1 + shift) as nat)) by (nonlinear_arith)
                requires
                    m >= pow2((length - 1) as nat),
                    pow2((length - 1 + shift) as nat) == pow2((length - 1) as nat) * big,
                    big > 0,
            ;
            if length + shift < 24 {
                lemma_pow2_strictly_increases((length + shift) as nat, 24);
            }
            assert(pow2(24) == 2 * BINADE);
            assert(pow2(23) == BINADE);
            assert(length + shift <= 24);
        }
        let q: u32 = (m * f) as u32;
        proof {
            assert(q < 2 * BINADE);
            if k > 0 {
                assert(length - 1 + shift == 23);
                assert(q >= BINADE);
            }
            if inexact {
                assert(length <= 24);
                if length < 26 {
                    lemma_pow2_strictly_increases(length as nat, 26);
                }
                assert(false);
            }
            lemma_pow2_adds(k as nat, (shift) as nat);
            assert((e + offset()) as nat == (k + shift + offset()) as nat);
            lemma_pow2_adds((k + shift) as nat, offset());
            let pk = pow2(k as nat) as int;
            assert((q * pk * d) * scale == n * scale) by (nonlinear_arith)
                requires
                    q == m * big,
                    pow2((e + offset()) as nat) == pk * big * scale,
                    m * (d * pow2((e + offset()) as nat)) == n * scale,
            ;
            lemma_cancel(q * pk * d, n, scale);
            lemma_pow2_pos(k as nat);
            assert(n < (q + 1) * pk * d && 2 * n < (2 * q + 1) * pk * d) by (nonlinear_arith)
                requires
                    q * pk * d == n,
                    pk > 0,
                    d > 0,
            ;
            lemma_round_between(n, d, q as int, k as nat);
            assert(k * BINADE + q <= INFINITE) by (nonlinear_arith)
                requires
                    k <= 253,
                    q < 2 * BINADE,
            ;
        }
        return k * BINADE + q;
    }
    if s > 112 {
        proof {
            // Less than a quarter of the smallest single.
            assert(k == 0);
            lemma_pow2_strictly_increases(110, (s - 2) as nat);
            lemma_pow2_unfold((s - 1) as nat);
            lemma_pow2_unfold(s as nat);
            lemma_pow2_adds(s as nat, (e + offset()) as nat);
            assert(s + (e + offset()) == offset());
            assert(4 * n * scale < 2 * d * scale) by (nonlinear_arith)
                requires
                    n * scale < (m + 1) * (d * pow2((e + offset()) as nat)),
                    2 * (m + 1) <= pow2(s as nat),
                    pow2(s as nat) * pow2((e + offset()) as nat) == scale,
                    d > 0,
                    pow2((e + offset()) as nat) > 0,
            ;
            lemma_cancel(4 * n, 2 * d, scale);
            assert(n * scale >= 0) by (nonlinear_arith)
                requires
                    m * dd <= n * scale,
                    m > 0,
                    dd > 0,
            ;
            lemma_cancel(0, n, scale);
            lemma2_to64();
            assert(0 * pow2(0) * d == 0 && (0 + 1) * pow2(0) * d == d && (2 * 0 + 1) * pow2(0) * d
                == d) by (nonlinear_arith)
                requires
                    pow2(0) == 1,
            ;
            lemma_round_between(n, d, 0, 0);
        }
        return 0;
    }
    let p: u128 = two_to(s as u32);
    let half: u128 = p / 2;
    let q: u128 = m / p;
    let r: u128 = m % p;
    proof {
        lemma_pow2_unfold(s as nat);
        vstd::arithmetic::div_mod::lemma_fundamental_div_mod(m as int, p as int);
        assert(p * q == q * p) by (nonlinear_arith);
        assert(q * p <= m < (q + 1) * p) by (nonlinear_arith)
            requires
                m == p * q + r,
                0 <= r < p,
        ;
        lemma_tail(nn, dd, m as int, q as int, p as int, half as int, inexact);
        // q has at most 24 digits, and exactly 24 when the exponent is not the
        // smallest one.
        lemma2_to64();
        let l = length as nat;
        if l <= s as nat {
            assert(q < 2 * BINADE) by {
                if l < s as nat {
                    lemma_pow2_strictly_increases(l, s as nat);
                }
                assert(q < 1) by (nonlinear_arith)
                    requires
                        q * p <= m,
                        m < p,
                        p > 0,
                ;
            }
        } else {
            lemma_pow2_adds((l - s) as nat, s as nat);
            if l - s < 24 {
                lemma_pow2_strictly_increases((l - s) as nat, 24);
            }
            assert(q < 2 * BINADE) by (nonlinear_arith)
                requires
                    q * p <= m,
                    m < pow2((l - s) as nat) * p,
                    pow2((l - s) as nat) <= 2 * BINADE,
                    p > 0,
            ;
        }
        if k > 0 {
            assert(l - s == 24);
            lemma_pow2_adds(23, s as nat);
            assert(q >= BINADE) by (nonlinear_arith)
                requires
                    BINADE * p <= m,
                    m < (q + 1) * p,
                    p > 0,
            ;
        }
        // Back from the shifted scale to units.
        lemma_pow2_adds(s as nat, (e + offset()) as nat);
        assert(s + (e + offset()) == k + offset());
        lemma_pow2_adds(k as nat, offset());
        let pk = pow2(k as nat) as int;
        assert forall|t: int| #[trigger] (t * p * dd) == (t * pk * d) * scale by {
            assert(t * p * dd == (t * pk * d) * scale) by (nonlinear_arith)
                requires
                    dd == d * pow2((e + offset()) as nat),
                    p * pow2((e + offset()) as nat) == pk * scale,
            ;
        }
        assert(q * p * dd == (q * pk * d) * scale);
        assert((q + 1) * p * dd == ((q + 1) * pk * d) * scale);
        assert((2 * q + 1) * p * dd == ((2 * q + 1) * pk * d) * scale);
        lemma_cancel(q * pk * d, n, scale);
        lemma_cancel(n, (q + 1) * pk * d, scale);
        lemma_cancel(2 * n, (2 * q + 1) * pk * d, scale);
        lemma_cancel((2 * q + 1) * pk * d, 2 * n, scale);
        assert(2 * nn == (2 * n) * scale) by (nonlinear_arith)
            requires
                nn == n * scale,
        ;
        lemma_round_between(n, d, q as int, k as nat);
        assert(k * BINADE + q + 1 <= INFINITE) by (nonlinear_arith)
            requires
                k <= 253,
                q < 2 * BINADE,
        ;
    }
    let low: u32 = k * BINADE + q as u32;
    if r > half || (r == half && (inexact || q % 2 != 0)) {
        low + 1
    } else {
        low
    }
}

/// Rounding a number that is a single already gives that single.
pub proof fn lemma_round_exact(code: int)
    requires
        0 <= code <= INFINITE,
    ensures
        round_to_code(magnitude(code), 1) == code,
{
    lemma_codes_order(code, code + 1);
    if code > 0 {
        lemma_codes_order(code - 1, code);
    }
    lemma_rounds_to(magnitude(code), 1, code);
}

pub proof fn lemma_round_zero(d: int)
    requires
        d > 0,
    ensures
        round_to_code(0, d) == 0,
{
    assert(magnitude(0) + magnitude(1) == 1);
    assert(1 * d > 0) by (nonlinear_arith)
        requires
            d > 0,
    ;
    lemma_rounds_to(0, d, 0);
}

/// A number so much smaller than `code` that adding or taking it away does
/// not reach the half-way point to a neighbour.
proof fn lemma_round_absorbs(m: int, k: nat, n: int)
    requires
        BINADE <= m < 2 * BINADE,
        2 <= k <= 253,
        -(pow2((k - 2) as nat) as int) < n - m * pow2(k) < pow2((k - 2) as nat),
    ensures
        round_to_code(n, 1) == k * BINADE + m,
{
    let code = k * BINADE + m;
    let p = pow2(k) as int;
    let eighth = pow2((k - 2) as nat) as int;
    lemma_pow2_unfold(k);
    lemma_pow2_unfold((k - 1) as nat);
    lemma_magnitude_of_scaled(m, k);
    assert(0 < code < INFINITE) by (nonlinear_arith)
        requires
            code == k * BINADE + m,
            2 <= k <= 253,
            BINADE <= m < 2 * BINADE,
    ;
    assert((m + 1) * p == m * p + p) by (nonlinear_arith);
    if m > BINADE {
        lemma_magnitude_of_scaled(m - 1, k);
        assert((m - 1) * p == m * p - p) by (nonlinear_arith);
    } else {
        let kk = (k - 1) as nat;
        lemma_magnitude_of_scaled(2 * BINADE - 1, kk);
        assert(kk * BINADE + (2 * BINADE - 1) + 1 == code) by (nonlinear_arith)
            requires
                kk == k - 1,
                m == BINADE,
                code == k * BINADE + m,
        ;
        assert((2 * BINADE - 1) * pow2(kk) == m * p - pow2(kk)) by (nonlinear_arith)
            requires
                m == BINADE,
                p == 2 * pow2(kk),
        ;
    }
    lemma_rounds_to(n, 1, code);
}

/// A code taken apart: `m * 2^k` units.
pub(crate) fn unpack(code: u32) -> (r: (u32, u32))
    requires
        code < INFINITE,
    ensures
        r.0 < 2 * BINADE,
        r.1 <= 253,
        r.1 > 0 ==> BINADE <= r.0,
        code == r.1 * BINADE + r.0,
        magnitude(code as int) == r.0 * pow2(r.1 as nat),
{
    if code < BINADE {
        proof {
            lemma2_to64();
        }
        (code, 0)
    } else {
        let m: u32 = BINADE + code % BINADE;
        let k: u32 = code / BINADE - 1;
        assert(code == k * BINADE + m) by (nonlinear_arith)
            requires
                k == code / BINADE - 1,
                m == BINADE + code % BINADE,
        ;
        (m, k)
    }
}

impl Single {
    /// The value that no number is.
    pub open spec fn quiet_nan() -> Single {
        Single { bits: 0x7FC0_0000 }
    }

    pub open spec fn infinite(self) -> bool {
        self.code() == INFINITE
    }

    pub open spec fn zero(self) -> bool {
        self.code() == 0
    }

    /// `self + other`, correctly rounded.
    #[verifier::opaque]
    pub open spec fn sum(self, other: Single) -> Single {
        if self.nan() || other.nan() {
            Single::quiet_nan()
        } else if self.infinite() {
            if other.infinite() && self.negative() != other.negative() {
                Single::quiet_nan()
            } else {
                self
            }
        } else if other.infinite() {
            other
        } else {
            let v = self.value() + other.value();
            if v == 0 {
                Single::with_sign(self.negative() && other.negative(), 0)
            } else {
                Single::with_sign(v < 0, round_to_code(if v < 0 { -v } else { v }, 1))
            }
        }
    }

    /// `self - other`, correctly rounded.
    pub open spec fn difference(self, other: Single) -> Single {
        self.sum(other.negation())
    }

    /// `self * other`, correctly rounded.
    #[verifier::opaque]
    pub open spec fn product(self, other: Single) -> Single {
        if self.nan() || other.nan() {
            Single::quiet_nan()
        } else if self.infinite() || other.infinite() {
            if self.zero() || other.zero() {
                Single::quiet_nan()
            } else {
                Single::with_sign(self.negative() != other.negative(), INFINITE as int)
            }
        } else {
            Single::with_sign(
                self.negative() != other.negative(),
                round_to_code(
                    magnitude(self.code()) * magnitude(other.code()),
                    pow2(149) as int,
                ),
            )
        }
    }

    /// `self / other`, correctly rounded.
    #[verifier::opaque]
    pub open spec fn quotient(self, other: Single) -> Single {
        let negative = self.negative() != other.negative();
        if self.nan() || other.nan() {
            Single::quiet_nan()
        } else if self.infinite() {
            if other.infinite() {
                Single::quiet_nan()
            } else {
                Single::with_sign(negative, INFINITE as int)
            }
        } else if other.infinite() {
            Single::with_sign(negative, 0)
        } else if other.zero() {
            if self.zero() {
                Single::quiet_nan()
            } else {
                Single::with_sign(negative, INFINITE as int)
            }
        } else {
            Single::with_sign(
                negative,
                round_to_code(magnitude(self.code()) * pow2(149), magnitude(other.code())),
            )
        }
    }

    /// The whole number next to the value, away from zero on a tie.
    #[verifier::opaque]
    pub open spec fn rounded(self) -> Single {
        if !self.finite() {
            self
        } else {
            let whole = (2 * magnitude(self.code()) + pow2(149)) / (pow2(150) as int);
            Single::with_sign(self.negative(), round_to_code(whole * pow2(149), 1))
        }
    }

    /// What is left of `self` when whole multiples of `other` are taken away,
    /// with the sign of `self`.
    #[verifier::opaque]
    pub open spec fn remainder(self, other: Single) -> Single {
        if self.nan() || other.nan() || self.infinite() || other.zero() {
            Single::quiet_nan()
        } else if other.infinite() {
            self
        } else {
            Single::with_sign(
                self.negative(),
                round_to_code(magnitude(self.code()) % magnitude(other.code()), 1),
            )
        }
    }

    /// The remainder moved up into `0 ..= |other|`.
    pub open spec fn euclidean_remainder(self, other: Single) -> Single {
        let r = self.remainder(other);
        if r.less(Single { bits: 0 }) {
            r.sum(other.absolute())
        } else {
            r
        }
    }

    /// The whole number `n`, rounded to a single.
    #[verifier::opaque]
    pub open spec fn of_whole(n: int) -> Single {
        Single::with_sign(false, round_to_code(n * pow2(149), 1))
    }

    pub(crate) fn signed(negative: bool, code: u32) -> (r: Single)
        requires
            code < SIGN,
        ensures
            r == Single::with_sign(negative, code as int),
    {
        if negative {
            Single { bits: SIGN + code }
        } else {
            Single { bits: code }
        }
    }

    /// The sum of two finite values whose codes are ordered, `a >= b`.
    fn sum_ordered(self, other: Single) -> (r: Single)
        requires
            self.finite(),
            other.finite(),
            self.code() >= other.code(),
        ensures
            r == self.sum(other),
    {
        proof {
            reveal(Single::sum);
        }
        let same: bool = self.is_sign_negative() == other.is_sign_negative();
        let negative: bool = self.is_sign_negative();
        let (m1, k1) = unpack(self.magnitude_code());
        let (m2, k2) = unpack(other.magnitude_code());
        let ghost a = magnitude(self.code());
        let ghost b = magnitude(other.code());
        let ghost v = self.value() + other.value();
        proof {
            lemma_codes_order(self.code(), other.code());
            lemma_codes_order(other.code(), 0);
            assert(k1 >= k2) by (nonlinear_arith)
                requires
                    k1 * BINADE + m1 >= k2 * BINADE + m2,
                    m1 < 2 * BINADE,
                    k2 > 0 ==> BINADE <= m2,
            ;
        }
        let gap: u32 = k1 - k2;
        if gap > 80 {
            proof {
                let low = (k1 - 2) as nat;
                lemma2_to64();
                lemma_pow2_adds(24, k2 as nat);
                lemma_pow2_strictly_increases((24 + k2) as nat, low);
                lemma_pow2_pos(k2 as nat);
                assert(b < pow2((24 + k2) as nat)) by (nonlinear_arith)
                    requires
                        b == m2 * pow2(k2 as nat),
                        m2 < pow2(24),
                        pow2((24 + k2) as nat) == pow2(24) * pow2(k2 as nat),
                        pow2(k2 as nat) > 0,
                ;
                let n = if same { a + b } else { a - b };
                lemma_round_absorbs(m1 as int, k1 as nat, n);
                lemma_magnitude_increases(0, self.code());
                lemma_pow2_strictly_increases(low, k1 as nat);
                assert(a >= pow2(k1 as nat)) by (nonlinear_arith)
                    requires
                        a == m1 * pow2(k1 as nat),
                        m1 >= 1,
                        pow2(k1 as nat) > 0,
                ;
                assert(v == if negative { -n } else { n });
                assert(n > 0);
            }
            return self;
        }
        let f: u128 = two_to(gap);
        proof {
            lemma2_to64();
            lemma2_to64_rest();
            lemma_pow2_adds(24, gap as nat);
            lemma_pow2_strictly_increases((24 + gap) as nat, 109);
            lemma_pow2_unfold(110);
            lemma_pow2_strictly_increases(24, 109);
            lemma_pow2_adds(46, 64);
            assert(pow2(110) == 0x4000_0000_0000_0000_0000_0000_0000) by (nonlinear_arith)
                requires
                    pow2(110) == pow2(46) * pow2(64),
                    pow2(46) == 0x4000_0000_0000,
                    pow2(64) == 0x1_0000_0000_0000_0000,
            ;
            assert(m1 * f < pow2(109)) by (nonlinear_arith)
                requires
                    m1 < pow2(24),
                    f == pow2(gap as nat),
                    pow2(24) * pow2(gap as nat) < pow2(109),
                    f > 0,
            ;
            lemma_pow2_adds(gap as nat, k2 as nat);
            assert(a == (m1 * f) * pow2(k2 as nat)) by (nonlinear_arith)
                requires
                    a == m1 * pow2(k1 as nat),
                    pow2(k1 as nat) == f * pow2(k2 as nat),
            ;
        }
        let wide: u128 = (m1 as u128) * f;
        proof {
            let pk = pow2(k2 as nat) as int;
            lemma_pow2_pos(k2 as nat);
            assert(a - b == (wide - m2) * pk && a + b == (wide + m2) * pk) by (nonlinear_arith)
                requires
                    a == wide * pk,
                    b == m2 * pk,
            ;
            assert(wide >= m2) by (nonlinear_arith)
                requires
                    a >= b,
                    a == wide * pk,
                    b == m2 * pk,
                    pk > 0,
            ;
        }
        let m: u128 = if same {
            wide + m2 as u128
        } else {
            wide - m2 as u128
        };
        let ghost n = if same { a + b } else { a - b };
        proof {
            let pk = pow2(k2 as nat) as int;
            assert(n == m * pk);
            assert(m == 0 <==> n == 0) by (nonlinear_arith)
                requires
                    n == m * pk,
                    pk > 0,
            ;
            assert(m > 0 ==> n > 0) by (nonlinear_arith)
                requires
                    n == m * pk,
                    pk > 0,
            ;
            assert(v == if negative { -n } else { n });
        }
        if m == 0 {
            proof {
                if same {
                    assert(a == 0 && b == 0);
                }
            }
            return Single::signed(same && negative, 0);
        }
        proof {
            let e = (k2 + offset()) as nat;
            lemma_pow2_adds(k2 as nat, offset());
            lemma_pow2_pos(e);
            assert(m * (1 * pow2(e)) == n * pow2(offset())) by (nonlinear_arith)
                requires
                    n == m * pow2(k2 as nat),
                    pow2(e) == pow2(k2 as nat) * pow2(offset()),
            ;
            assert(m * (1 * pow2(e)) < (m + 1) * (1 * pow2(e))) by (nonlinear_arith)
                requires
                    pow2(e) > 0,
            ;
        }
        let code: u32 = round_scaled(m, k2 as i32, false, Ghost(n), Ghost(1));
        proof {
            lemma_rounds_to(n, 1, code as int);
        }
        Single::signed(negative, code)
    }

    /// Adds two values.
    pub fn plus(self, other: Single) -> (r: Single)
        ensures
            r == self.sum(other),
    {
        proof {
            reveal(Single::sum);
        }
        let a: u32 = self.magnitude_code();
        let b: u32 = other.magnitude_code();
        if a > INFINITE || b > INFINITE {
            Single { bits: 0x7FC0_0000 }
        } else if a == INFINITE {
            if b == INFINITE && self.is_sign_negative() != other.is_sign_negative() {
                Single { bits: 0x7FC0_0000 }
            } else {
                self
            }
        } else if b == INFINITE {
            other
        } else if a >= b {
            self.sum_ordered(other)
        } else {
            other.sum_ordered(self)
        }
    }

    /// Takes `other` from `self`.
    pub fn minus(self, other: Single) -> (r: Single)
        ensures
            r == self.difference(other),
    {
        self.plus(other.neg())
    }

    /// Multiplies two values.
    pub fn times(self, other: Single) -> (r: Single)
        ensures
            r == self.product(other),
    {
        proof {
            reveal(Single::product);
        }
        let a: u32 = self.magnitude_code();
        let b: u32 = other.magnitude_code();
        let negative: bool = self.is_sign_negative() != other.is_sign_negative();
        if a > INFINITE || b > INFINITE {
            return Single { bits: 0x7FC0_0000 };
        }
        if a == INFINITE || b == INFINITE {
            if a == 0 || b == 0 {
                return Single { bits: 0x7FC0_0000 };
            }
            return Single::signed(negative, INFINITE);
        }
        let (m1, k1) = unpack(a);
        let (m2, k2) = unpack(b);
        let ghost n = magnitude(self.code()) * magnitude(other.code());
        let ghost d = pow2(149) as int;
        assert(m1 * m2 < 0x1_0000_0000_0000) by (nonlinear_arith)
            requires
                m1 < 0x100_0000,
                m2 < 0x100_0000,
        ;
        assert(m1 * m2 >= 0) by (nonlinear_arith);
        let m: u128 = (m1 as u128) * (m2 as u128);
        proof {
            lemma_pow2_pos(149);
            lemma_pow2_adds(k1 as nat, k2 as nat);
            assert(n == m * pow2((k1 + k2) as nat)) by (nonlinear_arith)
                requires
                    n == (m1 * pow2(k1 as nat)) * (m2 * pow2(k2 as nat)),
                    pow2((k1 + k2) as nat) == pow2(k1 as nat) * pow2(k2 as nat),
                    m == m1 * m2,
            ;
        }
        if m == 0 {
            proof {
                assert(n == 0) by (nonlinear_arith)
                    requires
                        n == m * pow2((k1 + k2) as nat),
                        m == 0,
                ;
                lemma_round_zero(d);
            }
            return Single::signed(negative, 0);
        }
        let e: i32 = k1 as i32 + k2 as i32 - 149;
        proof {
            let t = (e + offset()) as nat;
            lemma_pow2_adds(149, t);
            lemma_pow2_adds((k1 + k2) as nat, offset());
            assert(149 + t == (k1 + k2) + offset());
            assert(m * (d * pow2(t)) == n * pow2(offset())) by (nonlinear_arith)
                requires
                    n == m * pow2((k1 + k2) as nat),
                    d * pow2(t) == pow2((k1 + k2) as nat) * pow2(offset()),
            ;
            lemma_pow2_pos(t);
            assert(m * (d * pow2(t)) < (m + 1) * (d * pow2(t))) by (nonlinear_arith)
                requires
                    d > 0,
                    pow2(t) > 0,
            ;
            lemma2_to64();
            lemma2_to64_rest();
            lemma_pow2_strictly_increases(48, 110);
        }
        let code: u32 = round_scaled(m, e, false, Ghost(n), Ghost(d));
        proof {
            lemma_rounds_to(n, d, code as int);
        }
        Single::signed(negative, code)
    }

    /// Divides `self` by `other`.
    pub fn over(self, other: Single) -> (r: Single)
        ensures
            r == self.quotient(other),
    {
        proof {
            reveal(Single::quotient);
        }
        let a: u32 = self.magnitude_code();
        let b: u32 = other.magnitude_code();
        let negative: bool = self.is_sign_negative() != other.is_sign_negative();
        if a > INFINITE || b > INFINITE {
            return Single { bits: 0x7FC0_0000 };
        }
        if a == INFINITE {
            if b == INFINITE {
                return Single { bits: 0x7FC0_0000 };
            }
            return Single::signed(negative, INFINITE);
        }
        if b == INFINITE {
            return Single::signed(negative, 0);
        }
        if b == 0 {
            if a == 0 {
                return Single { bits: 0x7FC0_0000 };
            }
            return Single::signed(negative, INFINITE);
        }
        let (m1, k1) = unpack(a);
        let (m2, k2) = unpack(b);
        let ghost n = magnitude(self.code()) * pow2(149);
        let ghost d = magnitude(other.code());
        proof {
            lemma_magnitude_increases(0, other.code());
            assert(m2 > 0) by (nonlinear_arith)
                requires
                    m2 * pow2(k2 as nat) > 0,
                    pow2(k2 as nat) >= 0,
            ;
        }
        if a == 0 {
            proof {
                assert(n == 0) by (nonlinear_arith)
                    requires
                        n == 0 * pow2(149),
                ;
                lemma_round_zero(d);
            }
            return Single::signed(negative, 0);
        }
        proof {
            lemma_magnitude_increases(0, self.code());
            assert(m1 > 0) by (nonlinear_arith)
                requires
                    m1 * pow2(k1 as nat) > 0,
                    pow2(k1 as nat) >= 0,
            ;
        }
        let wide: u128 = (m1 as u128) * 0x1_0000_0000_0000_0000;
        let divisor: u128 = m2 as u128;
        let m: u128 = wide / divisor;
        let rest: u128 = wide % divisor;
        let e: i32 = k1 as i32 - k2 as i32 + 85;
        proof {
            vstd::arithmetic::div_mod::lemma_fundamental_div_mod(wide as int, divisor as int);
            lemma2_to64();
            lemma2_to64_rest();
            let t = (e + offset()) as nat;
            let u = (k1 + 485) as nat;
            lemma_pow2_pos(u);
            lemma_pow2_adds(k2 as nat, t);
            assert(k2 + t == u);
            lemma_pow2_adds(64, u);
            lemma_pow2_adds(k1 as nat, 149);
            lemma_pow2_adds((k1 + 149) as nat, offset());
            assert((k1 + 149) + offset() == 64 + u);
            let pu = pow2(u) as int;
            assert(d * pow2(t) == divisor * pu) by (nonlinear_arith)
                requires
                    d == m2 * pow2(k2 as nat),
                    divisor == m2,
                    pu == pow2(k2 as nat) * pow2(t),
            ;
            assert(n * pow2(offset()) == wide * pu) by (nonlinear_arith)
                requires
                    n == (m1 * pow2(k1 as nat)) * pow2(149),
                    pow2((k1 + 149) as nat) == pow2(k1 as nat) * pow2(149),
                    pow2((k1 + 149) as nat) * pow2(offset()) == pow2(64) * pu,
                    wide == m1 * pow2(64),
            ;
            assert(m * (divisor * pu) <= wide * pu && wide * pu < (m + 1) * (divisor * pu) && (rest
                != 0 <==> m * (divisor * pu) < wide * pu)) by (nonlinear_arith)
                requires
                    wide == divisor * m + rest,
                    0 <= rest < divisor,
                    pu > 0,
            ;
            assert(m >= 0x100_0000_0000) by (nonlinear_arith)
                requires
                    wide == divisor * m + rest,
                    rest < divisor,
                    divisor < 0x100_0000,
                    wide >= 0x1_0000_0000_0000_0000,
            ;
            assert(m <= wide) by (nonlinear_arith)
                requires
                    wide == divisor * m + rest,
                    rest >= 0,
                    divisor >= 1,
                    m >= 0,
            ;
            lemma_pow2_adds(24, 64);
            lemma_pow2_strictly_increases(88, 110);
        }
        let code: u32 = round_scaled(m, e, rest != 0, Ghost(n), Ghost(d));
        proof {
            lemma_rounds_to(n, d, code as int);
        }
        Single::signed(negative, code)
    }
}

/// The remainder of `m * 2^gap` on division by `modulus`.
fn scaled_remainder(m: u32, gap: u32, modulus: u32) -> (r: u32)
    requires
        0 < modulus < 0x4000_0000,
    ensures
        r < modulus,
        r == (m * pow2(gap as nat)) % (modulus as int),
{
    let mut r: u32 = m % modulus;
    let mut i: u32 = 0;
    proof {
        lemma2_to64();
        assert(m * pow2(0) == m) by (nonlinear_arith)
            requires
                pow2(0) == 1,
        ;
    }
    while i < gap
        invariant
            i <= gap,
            0 < modulus < 0x4000_0000,
            r < modulus,
            r == (m * pow2(i as nat)) % (modulus as int),
        decreases gap - i,
    {
        let ghost x = m * pow2(i as nat);
        proof {
            lemma_pow2_unfold((i + 1) as nat);
            assert(m * pow2((i + 1) as nat) == 2 * x) by (nonlinear_arith)
                requires
                    x == m * pow2(i as nat),
                    pow2((i + 1) as nat) == 2 * pow2(i as nat),
            ;
            vstd::arithmetic::div_mod::lemma_mul_mod_noop_right(2, x, modulus as int);
        }
        r = (2 * r) % modulus;
        i = i + 1;
    }
    r
}

impl Single {
    /// The whole number next to the value, away from zero on a tie.
    pub fn round(self) -> (r: Single)
        ensures
            r == self.rounded(),
    {
        proof {
            reveal(Single::rounded);
        }
        if !self.is_finite() {
            return self;
        }
        let (m, k) = unpack(self.magnitude_code());
        let ghost a = magnitude(self.code());
        let ghost whole = (2 * a + pow2(149)) / (pow2(150) as int);
        proof {
            lemma_pow2_unfold(150);
            lemma_pow2_pos(149);
        }
        if k >= 149 {
            proof {
                lemma_pow2_adds((k - 149) as nat, 149);
                let x = m * pow2((k - 149) as nat);
                assert(a == x * pow2(149)) by (nonlinear_arith)
                    requires
                        a == m * pow2(k as nat),
                        pow2(k as nat) == pow2((k - 149) as nat) * pow2(149),
                        x == m * pow2((k - 149) as nat),
                ;
                assert(2 * a + pow2(149) == x * pow2(150) + pow2(149)) by (nonlinear_arith)
                    requires
                        a == x * pow2(149),
                        pow2(150) == 2 * pow2(149),
                ;
                vstd::arithmetic::div_mod::lemma_fundamental_div_mod_converse(
                    2 * a + pow2(149),
                    pow2(150) as int,
                    x,
                    pow2(149) as int,
                );
                lemma_round_exact(self.code());
            }
            return self;
        }
        let shift: u32 = 149 - k;
        if shift > 30 {
            proof {
                lemma2_to64();
                lemma_pow2_adds(24, k as nat);
                lemma_pow2_strictly_increases((24 + k) as nat, 148);
                lemma_pow2_unfold(149);
                lemma_pow2_pos(k as nat);
                assert(a < pow2((24 + k) as nat)) by (nonlinear_arith)
                    requires
                        a == m * pow2(k as nat),
                        m < pow2(24),
                        pow2((24 + k) as nat) == pow2(24) * pow2(k as nat),
                        pow2(k as nat) > 0,
                ;
                lemma_codes_order(self.code(), 0);
                vstd::arithmetic::div_mod::lemma_fundamental_div_mod_converse(
                    2 * a + pow2(149),
                    pow2(150) as int,
                    0,
                    2 * a + pow2(149),
                );
                assert(0 * pow2(149) == 0);
                lemma_round_zero(1);
            }
            return Single::signed(self.is_sign_negative(), 0);
        }
        let p: u128 = two_to(shift);
        let half: u128 = p / 2;
        proof {
            lemma2_to64();
            lemma_pow2_unfold(shift as nat);
            if shift < 30 {
                lemma_pow2_strictly_increases(shift as nat, 30);
            }
        }
        let n: u128 = (m as u128 + half) / p;
        proof {
            let u = pow2((k + 1) as nat) as int;
            let rest = (m + half) % (p as int);
            lemma_pow2_unfold((k + 1) as nat);
            lemma_pow2_adds((k + 1) as nat, shift as nat);
            lemma_pow2_adds(k as nat, shift as nat);
            assert(k + 1 + shift == 150);
            lemma_pow2_pos((k + 1) as nat);
            vstd::arithmetic::div_mod::lemma_fundamental_div_mod(m + half, p as int);
            assert(2 * a + pow2(149) == (m + half) * u) by (nonlinear_arith)
                requires
                    a == m * pow2(k as nat),
                    u == 2 * pow2(k as nat),
                    pow2(149) == pow2(k as nat) * p,
                    p == 2 * half,
            ;
            assert(2 * a + pow2(149) == n * pow2(150) + rest * u && 0 <= rest * u < pow2(150))
                by (nonlinear_arith)
                requires
                    2 * a + pow2(149) == (m + half) * u,
                    m + half == p * n + rest,
                    pow2(150) == u * p,
                    0 <= rest < p,
                    u > 0,
            ;
            vstd::arithmetic::div_mod::lemma_fundamental_div_mod_converse(
                2 * a + pow2(149),
                pow2(150) as int,
                n as int,
                rest * u,
            );
            assert(n <= m + half) by (nonlinear_arith)
                requires
                    m + half == p * n + rest,
                    rest >= 0,
                    p >= 1,
                    n >= 0,
            ;
        }
        Single::whole(self.is_sign_negative(), n)
    }

    /// The whole number `n` with a sign.
    pub(crate) fn whole(negative: bool, n: u128) -> (r: Single)
        requires
            n < 0x1_0000_0000_0000_0000,
        ensures
            r == Single::with_sign(negative, round_to_code(n * pow2(149), 1)),
    {
        if n == 0 {
            proof {
                assert(n * pow2(149) == 0) by (nonlinear_arith)
                    requires
                        n == 0,
                ;
                lemma_round_zero(1);
            }
            return Single::signed(negative, 0);
        }
        let ghost value = n * pow2(149);
        proof {
            let t = (149 + offset()) as nat;
            lemma_pow2_adds(149, offset());
            lemma_pow2_pos(t);
            lemma2_to64();
            lemma_pow2_strictly_increases(64, 110);
            assert(n * (1 * pow2(t)) == value * pow2(offset())) by (nonlinear_arith)
                requires
                    value == n * pow2(149),
                    pow2(t) == pow2(149) * pow2(offset()),
            ;
            assert(n * (1 * pow2(t)) < (n + 1) * (1 * pow2(t))) by (nonlinear_arith)
                requires
                    pow2(t) > 0,
            ;
        }
        let code: u32 = round_scaled(n, 149, false, Ghost(value), Ghost(1));
        proof {
            lemma_rounds_to(value, 1, code as int);
        }
        Single::signed(negative, code)
    }

    /// `m` times two to the power of minus `k`, rounded to a single.
    pub(crate) fn scaled_down(m: u128, k: u32) -> (r: Single)
        requires
            m < 0x1_0000_0000_0000_0000,
            k <= 149,
        ensures
            r == Single::with_sign(false, round_to_code(m * pow2((149 - k) as nat), 1)),
    {
        if m == 0 {
            proof {
                assert(m * pow2((149 - k) as nat) == 0) by (nonlinear_arith)
                    requires
                        m == 0,
                ;
                lemma_round_zero(1);
            }
            return Single::signed(false, 0);
        }
        let e: i32 = 149 - k as i32;
        let ghost value = m * pow2((149 - k) as nat);
        proof {
            let t = (e + offset()) as nat;
            lemma_pow2_adds((149 - k) as nat, offset());
            lemma_pow2_pos(t);
            lemma2_to64();
            lemma_pow2_strictly_increases(64, 110);
            assert(m * (1 * pow2(t)) == value * pow2(offset())) by (nonlinear_arith)
                requires
                    value == m * pow2((149 - k) as nat),
                    pow2(t) == pow2((149 - k) as nat) * pow2(offset()),
            ;
            assert(m * (1 * pow2(t)) < (m + 1) * (1 * pow2(t))) by (nonlinear_arith)
                requires
                    pow2(t) > 0,
            ;
        }
        let code: u32 = round_scaled(m, e, false, Ghost(value), Ghost(1));
        proof {
            lemma_rounds_to(value, 1, code as int);
        }
        Single::signed(false, code)
    }

    /// The whole number `n` as a single.
    pub fn from_u64(n: u64) -> (r: Single)
        ensures
            r == Single::of_whole(n as int),
    {
        proof {
            reveal(Single::of_whole);
        }
        Single::whole(false, n as u128)
    }

    /// What is left of `self` when whole multiples of `other` are taken away.
    pub fn rem(self, other: Single) -> (r: Single)
        ensures
            r == self.remainder(other),
    {
        proof {
            reveal(Single::remainder);
        }
        let a: u32 = self.magnitude_code();
        let b: u32 = other.magnitude_code();
        if a >= INFINITE || b > INFINITE || b == 0 {
            return Single { bits: 0x7FC0_0000 };
        }
        if b == INFINITE {
            return self;
        }
        let (m1, k1) = unpack(a);
        let (m2, k2) = unpack(b);
        let ghost x = magnitude(self.code());
        let ghost y = magnitude(other.code());
        proof {
            lemma_magnitude_increases(0, other.code());
            lemma_codes_order(self.code(), 0);
            assert(m2 > 0) by (nonlinear_arith)
                requires
                    m2 * pow2(k2 as nat) > 0,
                    pow2(k2 as nat) >= 0,
            ;
        }
        if k1 < k2 {
            proof {
                lemma_codes_order(self.code(), other.code());
                assert(k1 * BINADE + m1 < k2 * BINADE + m2) by (nonlinear_arith)
                    requires
                        k1 < k2,
                        m1 < 2 * BINADE,
                        BINADE <= m2,
                ;
                vstd::arithmetic::div_mod::lemma_small_mod(x as nat, y as nat);
                lemma_round_exact(self.code());
            }
            return self;
        }
        let r: u32 = scaled_remainder(m1, k1 - k2, m2);
        let ghost rest = x % y;
        proof {
            let pk = pow2(k2 as nat) as int;
            let w = m1 * pow2((k1 - k2) as nat);
            lemma_pow2_pos(k2 as nat);
            lemma_pow2_adds((k1 - k2) as nat, k2 as nat);
            assert(x == w * pk) by (nonlinear_arith)
                requires
                    x == m1 * pow2(k1 as nat),
                    pow2(k1 as nat) == pow2((k1 - k2) as nat) * pk,
                    w == m1 * pow2((k1 - k2) as nat),
            ;
            vstd::arithmetic::div_mod::lemma_fundamental_div_mod(w, m2 as int);
            let q = w / (m2 as int);
            assert(x == q * y + r * pk && 0 <= r * pk < y) by (nonlinear_arith)
                requires
                    x == w * pk,
                    y == m2 * pk,
                    w == m2 * q + r,
                    0 <= r < m2,
                    pk > 0,
            ;
            vstd::arithmetic::div_mod::lemma_fundamental_div_mod_converse(x, y, q, r * pk);
        }
        if r == 0 {
            proof {
                assert(r * pow2(k2 as nat) == 0) by (nonlinear_arith)
                    requires
                        r == 0,
                ;
                lemma_round_zero(1);
            }
            return Single::signed(self.is_sign_negative(), 0);
        }
        proof {
            let t = (k2 + offset()) as nat;
            lemma_pow2_adds(k2 as nat, offset());
            lemma_pow2_pos(t);
            lemma2_to64();
            lemma_pow2_strictly_increases(24, 110);
            assert(r * (1 * pow2(t)) == rest * pow2(offset())) by (nonlinear_arith)
                requires
                    rest == r * pow2(k2 as nat),
                    pow2(t) == pow2(k2 as nat) * pow2(offset()),
            ;
            assert(r * (1 * pow2(t)) < (r + 1) * (1 * pow2(t))) by (nonlinear_arith)
                requires
                    pow2(t) > 0,
            ;
        }
        let code: u32 = round_scaled(r as u128, k2 as i32, false, Ghost(rest), Ghost(1));
        proof {
            lemma_rounds_to(rest, 1, code as int);
        }
        Single::signed(self.is_sign_negative(), code)
    }

    /// The remainder moved up into `0 ..= |other|`.
    pub fn rem_euclid(self, other: Single) -> (r: Single)
        ensures
            r == self.euclidean_remainder(other),
    {
        let r: Single = self.rem(other);
        if r.lt(Single { bits: 0 }) {
            r.plus(other.abs())
        } else {
            r
        }
    }

    /// The larger of two values, and the one that is a number if one is not.
    pub open spec fn larger(self, other: Single) -> Single {
        if self.nan() || self.less(other) {
            other
        } else {
            self
        }
    }

    pub fn max(self, other: Single) -> (r: Single)
        ensures
            r == self.larger(other),
    {
        if self.is_nan() || self.lt(other) {
            other
        } else {
            self
        }
    }

    /// The smaller of two values, and the one that is a number if one is not.
    pub open spec fn smaller(self, other: Single) -> Single {
        if self.nan() || other.less(self) {
            other
        } else {
            self
        }
    }

    pub fn min(self, other: Single) -> (r: Single)
        ensures
            r == self.smaller(other),
    {
        if self.is_nan() || other.lt(self) {
            other
        } else {
            self
        }
    }
}

} // verus!
