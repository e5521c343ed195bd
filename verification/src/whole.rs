//! Singles and whole numbers: floor, ceiling, casts, and the square root,
//! whose digits are found as a whole number's.

use vstd::prelude::*;
use vstd::arithmetic::power2::*;
use vstd::arithmetic::div_mod::{lemma_fundamental_div_mod, lemma_fundamental_div_mod_converse};
use crate::single::{
    bit_length, lemma_codes_order, lemma_magnitude_increases, lemma_magnitude_of_scaled,
    lemma_round_exact, magnitude, round_to_code, two_to, unpack, Single, BINADE, INFINITE,
};

verus! {

/// The whole units below the size of a finite value.
pub open spec fn size_floor(v: Single) -> int {
    magnitude(v.code()) / (pow2(149) as int)
}

/// The whole units above the size of a finite value.
pub open spec fn size_ceiling(v: Single) -> int {
    if magnitude(v.code()) % (pow2(149) as int) == 0 {
        size_floor(v)
    } else {
        size_floor(v) + 1
    }
}

/// A number kept between two others.
pub open spec fn kept_between(n: int, lo: int, hi: int) -> int {
    if n < lo {
        lo
    } else if n > hi {
        hi
    } else {
        n
    }
}

impl Single {
    /// The value without its fraction. Only of a finite value.
    pub open spec fn truncated(self) -> int {
        if self.negative() {
            -size_floor(self)
        } else {
            size_floor(self)
        }
    }

    /// The value without its fraction, kept between `lo` and `hi`, and 0 for
    /// what is no number.
    pub open spec fn cast(self, lo: int, hi: int) -> int {
        if self.nan() {
            0
        } else if self.infinite() {
            if self.negative() {
                lo
            } else {
                hi
            }
        } else {
            kept_between(self.truncated(), lo, hi)
        }
    }

    /// The largest whole number that is not above the value.
    #[verifier::opaque]
    pub open spec fn floored(self) -> Single {
        if !self.finite() {
            self
        } else {
            let n = if self.negative() { size_ceiling(self) } else { size_floor(self) };
            Single::with_sign(self.negative(), round_to_code(n * pow2(149), 1))
        }
    }

    /// The smallest whole number that is not below the value.
    #[verifier::opaque]
    pub open spec fn ceiled(self) -> Single {
        if !self.finite() {
            self
        } else {
            let n = if self.negative() { size_floor(self) } else { size_ceiling(self) };
            Single::with_sign(self.negative(), round_to_code(n * pow2(149), 1))
        }
    }

    /// The whole number `n`, rounded to a single.
    #[verifier::opaque]
    pub open spec fn of_int(n: int) -> Single {
        Single::with_sign(n < 0, round_to_code((if n < 0 { -n } else { n }) * pow2(149), 1))
    }

    /// The whole units below the size of a value below 2^64, and whether that
    /// is all of it.
    fn size_parts(self) -> (r: (u128, bool))
        requires
            self.finite(),
        ensures
            r.0 == size_floor(self),
            r.1 <==> size_ceiling(self) == size_floor(self),
    {
        let (m, k) = unpack(self.magnitude_code());
        let ghost a = magnitude(self.code());
        let ghost d = pow2(149) as int;
        proof {
            lemma_pow2_pos(149);
        }
        if k >= 149 {
            let f: u128 = two_to(k - 149);
            proof {
                lemma2_to64();
                lemma2_to64_rest();
                lemma_pow2_adds(24, (k - 149) as nat);
                if k < 253 {
                    lemma_pow2_strictly_increases((24 + k - 149) as nat, 128);
                }
                lemma_pow2_adds(64, 64);
                assert(pow2(128) == 0x1_0000_0000_0000_0000_0000_0000_0000_0000)
                    by (nonlinear_arith)
                    requires
                        pow2(128) == pow2(64) * pow2(64),
                        pow2(64) == 0x1_0000_0000_0000_0000,
                ;
                assert(m * f < pow2(128)) by (nonlinear_arith)
                    requires
                        m < pow2(24),
                        f == pow2((k - 149) as nat),
                        pow2(24) * pow2((k - 149) as nat) <= pow2(128),
                        f > 0,
                ;
                lemma_pow2_adds((k - 149) as nat, 149);
                assert(a == (m * f) * d + 0) by (nonlinear_arith)
                    requires
                        a == m * pow2(k as nat),
                        pow2(k as nat) == f * d,
                ;
                lemma_fundamental_div_mod_converse(a, d, m * f, 0);
            }
            return ((m as u128) * f, true);
        }
        let s: u32 = 149 - k;
        let ghost pk = pow2(k as nat) as int;
        proof {
            lemma_pow2_pos(k as nat);
            lemma_pow2_adds(k as nat, s as nat);
            assert(k + s == 149);
        }
        if s > 24 {
            proof {
                lemma2_to64();
                lemma_pow2_strictly_increases(24, s as nat);
                assert(0 <= a < d && (a == 0 <==> m == 0)) by (nonlinear_arith)
                    requires
                        a == m * pk,
                        d == pk * pow2(s as nat),
                        m < pow2(24),
                        pow2(24) < pow2(s as nat),
                        pk > 0,
                        m >= 0,
                ;
                lemma_fundamental_div_mod_converse(a, d, 0, a);
            }
            return (0, m == 0);
        }
        let p: u128 = two_to(s);
        let wide: u128 = m as u128;
        let q: u128 = wide / p;
        let r: u128 = wide % p;
        proof {
            lemma_fundamental_div_mod(wide as int, p as int);
            assert(a == q * d + r * pk && 0 <= r * pk < d && (r * pk == 0 <==> r == 0))
                by (nonlinear_arith)
                requires
                    a == m * pk,
                    d == pk * p,
                    wide == m,
                    wide == p * q + r,
                    0 <= r < p,
                    pk > 0,
            ;
            lemma_fundamental_div_mod_converse(a, d, q as int, r * pk);
        }
        (q, r == 0)
    }

    /// A finite value as a whole number with its sign.
    fn as_whole(self, n: u128) -> (r: Single)
        requires
            self.finite(),
            n == size_floor(self) || n == size_ceiling(self),
        ensures
            r == Single::with_sign(self.negative(), round_to_code(n * pow2(149), 1)),
    {
        let (m, k) = unpack(self.magnitude_code());
        if k >= 149 {
            proof {
                let a = magnitude(self.code());
                let d = pow2(149) as int;
                let x = m * pow2((k - 149) as nat);
                lemma_pow2_pos(149);
                lemma_pow2_adds((k - 149) as nat, 149);
                assert(a == x * d + 0) by (nonlinear_arith)
                    requires
                        a == m * pow2(k as nat),
                        pow2(k as nat) == pow2((k - 149) as nat) * d,
                        x == m * pow2((k - 149) as nat),
                ;
                lemma_fundamental_div_mod_converse(a, d, x, 0);
                lemma_round_exact(self.code());
            }
            return self;
        }
        proof {
            let a = magnitude(self.code());
            let d = pow2(149) as int;
            lemma2_to64();
            lemma_pow2_pos(k as nat);
            lemma_pow2_strictly_increases(k as nat, 149);
            assert(0 <= a < 0x100_0000 * d) by (nonlinear_arith)
                requires
                    a == m * pow2(k as nat),
                    m < 0x100_0000,
                    pow2(k as nat) < d,
                    m >= 0,
                    pow2(k as nat) > 0,
            ;
            lemma_fundamental_div_mod(a, d);
            let q = a / d;
            assert(q < 0x100_0000) by (nonlinear_arith)
                requires
                    a == d * q + a % d,
                    a % d >= 0,
                    a < 0x100_0000 * d,
                    d > 0,
            ;
        }
        Single::whole(self.is_sign_negative(), n)
    }

    pub fn floor(self) -> (r: Single)
        ensures
            r == self.floored(),
    {
        proof {
            reveal(Single::floored);
        }
        if !self.is_finite() {
            return self;
        }
        let (n, exact) = self.size_parts();
        if self.is_sign_negative() && !exact {
            proof {
                self.lemma_fraction_is_small();
            }
            self.as_whole(n + 1)
        } else {
            self.as_whole(n)
        }
    }

    pub fn ceil(self) -> (r: Single)
        ensures
            r == self.ceiled(),
    {
        proof {
            reveal(Single::ceiled);
        }
        if !self.is_finite() {
            return self;
        }
        let (n, exact) = self.size_parts();
        if !self.is_sign_negative() && !exact {
            proof {
                self.lemma_fraction_is_small();
            }
            self.as_whole(n + 1)
        } else {
            self.as_whole(n)
        }
    }

    /// A value with a fraction is below 2^24.
    proof fn lemma_fraction_is_small(self)
        requires
            self.finite(),
            size_ceiling(self) != size_floor(self),
        ensures
            size_floor(self) < 0x100_0000,
    {
        let code = self.code();
        let d = pow2(149) as int;
        let a = magnitude(code);
        lemma_pow2_pos(149);
        if size_floor(self) >= 0x100_0000 {
            lemma2_to64();
            lemma_fundamental_div_mod(a, d);
            lemma_magnitude_of_scaled(BINADE as int, 150);
            lemma_pow2_unfold(150);
            let edge = 150 * (BINADE as int) + BINADE;
            assert(magnitude(edge) == 0x100_0000 * d) by (nonlinear_arith)
                requires
                    magnitude(edge) == BINADE * pow2(150),
                    pow2(150) == 2 * d,
                    BINADE == 0x80_0000,
            ;
            assert(a >= 0x100_0000 * d) by (nonlinear_arith)
                requires
                    a == d * (a / d) + a % d,
                    a % d >= 0,
                    a / d >= 0x100_0000,
                    d > 0,
            ;
            lemma_codes_order(code, edge);
            assert(code >= edge);
            let b = BINADE as int;
            let k = (code / b - 1) as nat;
            let q = b + code % b;
            assert(code == k * b + q && k >= 150) by (nonlinear_arith)
                requires
                    b == 0x80_0000,
                    k == code / b - 1,
                    q == b + code % b,
                    code >= 151 * b,
            ;
            lemma_magnitude_of_scaled(q, k);
            lemma_pow2_adds((k - 149) as nat, 149);
            let x = q * pow2((k - 149) as nat);
            assert(a == x * d + 0) by (nonlinear_arith)
                requires
                    a == q * pow2(k),
                    pow2(k) == pow2((k - 149) as nat) * d,
                    x == q * pow2((k - 149) as nat),
            ;
            lemma_fundamental_div_mod_converse(a, d, x, 0);
        }
    }

    /// The value without its fraction, as far as an `i32` reaches.
    pub fn to_i32(self) -> (r: i32)
        ensures
            r == self.cast(i32::MIN as int, i32::MAX as int),
    {
        if self.is_nan() {
            return 0;
        }
        if !self.is_finite() {
            return if self.is_sign_negative() {
                i32::MIN
            } else {
                i32::MAX
            };
        }
        let (n, _exact) = self.size_parts();
        if self.is_sign_negative() {
            if n >= 0x8000_0000 {
                i32::MIN
            } else {
                -(n as i32)
            }
        } else {
            if n > 0x7FFF_FFFF {
                i32::MAX
            } else {
                n as i32
            }
        }
    }

    /// The value without its fraction, as far as a `u64` reaches.
    pub fn to_u64(self) -> (r: u64)
        ensures
            r == self.cast(0, u64::MAX as int),
    {
        if self.is_nan() {
            return 0;
        }
        if !self.is_finite() {
            return if self.is_sign_negative() {
                0
            } else {
                u64::MAX
            };
        }
        let (n, _exact) = self.size_parts();
        if self.is_sign_negative() {
            0
        } else if n > 0xFFFF_FFFF_FFFF_FFFF {
            u64::MAX
        } else {
            n as u64
        }
    }

    /// The whole number `n` as a single.
    pub fn from_i64(n: i64) -> (r: Single)
        ensures
            r == Single::of_int(n as int),
    {
        proof {
            reveal(Single::of_int);
        }
        if n < 0 {
            let size: u128 = (-(n as i128)) as u128;
            Single::whole(true, size)
        } else {
            Single::whole(false, n as u128)
        }
    }
}

// ---- square root ----

/// `code` is the code nearest to the square root of `n`, and the even one of
/// two that are equally near.
pub open spec fn nearest_root(n: int, code: int) -> bool {
    &&& 0 <= code <= INFINITE
    &&& code > 0 ==> {
        let mid = magnitude(code - 1) + magnitude(code);
        mid * mid < 4 * n || (mid * mid == 4 * n && code % 2 == 0)
    }
    &&& code < INFINITE ==> {
        let mid = magnitude(code) + magnitude(code + 1);
        4 * n < mid * mid || (4 * n == mid * mid && code % 2 == 0)
    }
}

/// The code that the square root of `n` rounds to.
pub open spec fn root_to_code(n: int) -> int {
    choose|code: int| nearest_root(n, code)
}

proof fn lemma_root_ordered(n: int, a: int, b: int)
    requires
        a < b,
        nearest_root(n, a),
    ensures
        !nearest_root(n, b),
{
    let up = magnitude(a) + magnitude(a + 1);
    let down = magnitude(b - 1) + magnitude(b);
    lemma_codes_order(a, a + 1);
    if a + 1 < b {
        lemma_magnitude_increases(a, b - 1);
        lemma_magnitude_increases(a + 1, b);
        assert(up * up < down * down) by (nonlinear_arith)
            requires
                0 <= up < down,
        ;
    }
}

/// There is one nearest code at most.
pub proof fn lemma_root_unique(n: int, code: int)
    requires
        nearest_root(n, code),
    ensures
        root_to_code(n) == code,
{
    let other = root_to_code(n);
    if other < code {
        lemma_root_ordered(n, other, code);
    } else if code < other {
        lemma_root_ordered(n, code, other);
    }
}

/// The largest code up to `c` whose square is not above `n`.
spec fn floor_root(n: int, c: nat) -> nat
    decreases c,
{
    if c == 0 || magnitude(c as int) * magnitude(c as int) <= n {
        c
    } else {
        floor_root(n, (c - 1) as nat)
    }
}

proof fn lemma_floor_root(n: int, c: nat)
    requires
        0 <= n,
    ensures
        ({
            let f = floor_root(n, c);
            &&& f <= c
            &&& magnitude(f as int) * magnitude(f as int) <= n
            &&& f < c ==> n < magnitude(f as int + 1) * magnitude(f as int + 1)
        }),
    decreases c,
{
    if c == 0 {
        assert(magnitude(0) == 0);
    } else if magnitude(c as int) * magnitude(c as int) > n {
        lemma_floor_root(n, (c - 1) as nat);
    }
}

/// Every number has a square root.
pub proof fn lemma_root_exists(n: int)
    requires
        0 <= n,
    ensures
        nearest_root(n, root_to_code(n)),
        0 <= root_to_code(n) <= INFINITE,
{
    let top = INFINITE as nat;
    lemma_floor_root(n, top);
    let c = floor_root(n, top) as int;
    let low = magnitude(c);
    lemma_codes_order(c, c + 1);
    if c > 0 {
        lemma_codes_order(c - 1, c);
        let mid = magnitude(c - 1) + low;
        assert(mid * mid < 4 * n) by (nonlinear_arith)
            requires
                0 <= mid < 2 * low,
                low * low <= n,
        ;
    }
    if c == INFINITE {
        assert(nearest_root(n, c));
    } else {
        let high = magnitude(c + 1);
        let mid = low + high;
        lemma_codes_order(c + 1, c + 2);
        let above = high + magnitude(c + 2);
        assert(4 * n < above * above) by (nonlinear_arith)
            requires
                n < high * high,
                above > 2 * high,
                high >= 0,
        ;
        if 4 * n < mid * mid || (4 * n == mid * mid && c % 2 == 0) {
            assert(nearest_root(n, c));
        } else {
            assert(nearest_root(n, c + 1));
        }
    }
}

proof fn lemma_root_between(n: int, q: int, k: nat)
    requires
        0 <= q < 2 * BINADE,
        k > 0 ==> BINADE <= q,
        k <= 253,
        (q * pow2(k)) * (q * pow2(k)) <= n,
        n < ((q + 1) * pow2(k)) * ((q + 1) * pow2(k)),
    ensures
        ({
            let mid = (2 * q + 1) * pow2(k);
            &&& (4 * n < mid * mid || (4 * n == mid * mid && q % 2 == 0)) ==> nearest_root(
                n,
                k * BINADE + q,
            )
            &&& (4 * n > mid * mid || (4 * n == mid * mid && q % 2 != 0)) ==> nearest_root(
                n,
                k * BINADE + q + 1,
            )
        }),
{
    let code = k * BINADE + q;
    let p = pow2(k) as int;
    lemma_pow2_pos(k);
    lemma_magnitude_of_scaled(q, k);
    assert(0 <= code && code + 1 <= INFINITE) by (nonlinear_arith)
        requires
            code == k * BINADE + q,
            k <= 253,
            0 <= q < 2 * BINADE,
    ;
    assert(code % 2 == q % 2) by (nonlinear_arith)
        requires
            code == k * BINADE + q,
    ;
    assert(magnitude(code) + magnitude(code + 1) == (2 * q + 1) * p) by (nonlinear_arith)
        requires
            magnitude(code) == q * p,
            magnitude(code + 1) == (q + 1) * p,
    ;
    lemma_codes_order(code, 0);
    if code > 0 {
        lemma_codes_order(code - 1, code);
        let mid = magnitude(code - 1) + magnitude(code);
        let top = q * p;
        assert(mid * mid < 4 * n) by (nonlinear_arith)
            requires
                0 <= mid < 2 * top,
                top * top <= n,
        ;
    }
    if code + 1 < INFINITE {
        lemma_magnitude_increases(code + 1, code + 2);
        lemma_codes_order(code + 1, 0);
        let mid = magnitude(code + 1) + magnitude(code + 2);
        let top = (q + 1) * p;
        assert(mid * mid > 4 * n) by (nonlinear_arith)
            requires
                mid > 2 * top,
                top >= 0,
                n < top * top,
        ;
    }
}

/// The whole square root of `n`.
fn whole_root(n: u128) -> (r: u128)
    requires
        n < 0x1_0000_0000_0000_0000,
    ensures
        r * r <= n < (r + 1) * (r + 1),
        r < 0x1_0000_0000,
{
    let mut lo: u128 = 0;
    let mut hi: u128 = 0x1_0000_0000;
    while hi - lo > 1
        invariant
            lo < hi <= 0x1_0000_0000,
            lo * lo <= n < hi * hi,
            n < 0x1_0000_0000_0000_0000,
        decreases hi - lo,
    {
        let mid: u128 = lo + (hi - lo) / 2;
        assert(mid * mid <= 0x1_0000_0000 * 0x1_0000_0000) by (nonlinear_arith)
            requires
                0 <= mid <= 0x1_0000_0000,
        ;
        if mid * mid <= n {
            lo = mid;
        } else {
            hi = mid;
        }
    }
    lo
}

impl Single {
    /// The square root, correctly rounded.
    #[verifier::opaque]
    pub open spec fn root(self) -> Single {
        if self.nan() {
            Single::quiet_nan()
        } else if self.zero() {
            self
        } else if self.negative() {
            Single::quiet_nan()
        } else if self.infinite() {
            self
        } else {
            Single::with_sign(false, root_to_code(magnitude(self.code()) * pow2(149)))
        }
    }

    #[verifier::rlimit(40)]
    pub fn sqrt(self) -> (r: Single)
        ensures
            r == self.root(),
            !self.nan() && !self.negative() ==> !r.nan() && !r.negative(),
    {
        proof {
            reveal(Single::root);
        }
        let code: u32 = self.magnitude_code();
        if code > INFINITE {
            return Single { bits: 0x7FC0_0000 };
        }
        if code == 0 {
            return self;
        }
        if self.is_sign_negative() {
            return Single { bits: 0x7FC0_0000 };
        }
        if code == INFINITE {
            return self;
        }
        let (m, k) = unpack(code);
        let ghost n = magnitude(self.code()) * pow2(149);
        proof {
            lemma_magnitude_increases(0, self.code());
            assert(m > 0) by (nonlinear_arith)
                requires
                    m * pow2(k as nat) > 0,
                    pow2(k as nat) >= 0,
            ;
            lemma2_to64();
            lemma2_to64_rest();
            lemma_pow2_strictly_increases(24, 110);
        }
        let length: u32 = bit_length(m as u128);
        proof {
            if length > 24 {
                if length - 1 > 24 {
                    lemma_pow2_strictly_increases(24, (length - 1) as nat);
                }
                assert(false);
            }
        }
        // m is written with 61 or 62 digits, so that the exponent that is left
        // is even.
        let total: u32 = k + 149;
        let lift: u32 = if (61 - length) % 2 == total % 2 {
            61 - length
        } else {
            62 - length
        };
        let f: u128 = two_to(lift);
        proof {
            lemma_pow2_adds(length as nat, lift as nat);
            lemma_pow2_adds((length - 1) as nat, lift as nat);
            if length + lift < 62 {
                lemma_pow2_strictly_increases((length + lift) as nat, 62);
            }
            if length - 1 + lift > 60 {
                lemma_pow2_strictly_increases(60, (length - 1 + lift) as nat);
            }
            assert(m * f < pow2(62)) by (nonlinear_arith)
                requires
                    m < pow2(length as nat),
                    pow2(length as nat) * f <= pow2(62),
                    f > 0,
            ;
            assert(m * f >= pow2(60)) by (nonlinear_arith)
                requires
                    m >= pow2((length - 1) as nat),
                    pow2((length - 1) as nat) * f >= pow2(60),
                    f > 0,
            ;
        }
        let wide: u128 = (m as u128) * f;
        let e: u32 = (total - lift) / 2;
        let s: u128 = whole_root(wide);
        let exact: bool = s * s == wide;
        let ghost pe = pow2(e as nat) as int;
        proof {
            // n is wide * 2^(2e).
            lemma_pow2_pos(e as nat);
            lemma_pow2_adds(e as nat, e as nat);
            lemma_pow2_adds(lift as nat, (2 * e) as nat);
            lemma_pow2_adds(k as nat, 149);
            assert(lift + 2 * e == total);
            assert(n == wide * (pe * pe)) by (nonlinear_arith)
                requires
                    n == (m * pow2(k as nat)) * pow2(149),
                    pow2(total as nat) == pow2(k as nat) * pow2(149),
                    pow2(total as nat) == f * (pe * pe),
                    wide == m * f,
            ;
            // s has 31 digits.
            assert(s >= 0x4000_0000 && s < 0x8000_0000) by (nonlinear_arith)
                requires
                    s * s <= wide,
                    wide < (s + 1) * (s + 1),
                    wide >= 0x1000_0000_0000_0000,
                    wide < 0x4000_0000_0000_0000,
                    s >= 0,
            ;
        }
        let q: u128 = s / 128;
        let r: u128 = s % 128;
        let kk: u32 = e + 7;
        proof {
            lemma_pow2_adds(7, e as nat);
            let pk = pow2(kk as nat) as int;
            assert(pk == 128 * pe);
            assert((q * pk) * (q * pk) <= n) by (nonlinear_arith)
                requires
                    q * 128 <= s,
                    pk == 128 * pe,
                    s * s <= wide,
                    n == wide * (pe * pe),
                    pe > 0,
                    q >= 0,
            {
                assert(q * pk == (q * 128) * pe);
                assert((q * 128) * (q * 128) <= s * s);
                assert((q * pk) * (q * pk) == ((q * 128) * (q * 128)) * (pe * pe));
                assert(((q * 128) * (q * 128)) * (pe * pe) <= wide * (pe * pe));
            }
            assert(n < ((q + 1) * pk) * ((q + 1) * pk)) by (nonlinear_arith)
                requires
                    (q + 1) * 128 >= s + 1,
                    pk == 128 * pe,
                    wide < (s + 1) * (s + 1),
                    n == wide * (pe * pe),
                    pe > 0,
                    s >= 0,
            {
                let t = (q + 1) * 128;
                assert((q + 1) * pk == t * pe);
                assert(t * t >= (s + 1) * (s + 1));
                assert(((q + 1) * pk) * ((q + 1) * pk) == (t * t) * (pe * pe));
                assert((t * t) * (pe * pe) > wide * (pe * pe));
            }
            // The half-way point is (2q + 1) * 64 * 2^e, to be held against s.
            let mid = (2 * q + 1) * pk;
            let h = q * 128 + 64;
            assert(mid * mid == 4 * ((h * h) * (pe * pe))) by (nonlinear_arith)
                requires
                    mid == (2 * q + 1) * pk,
                    pk == 128 * pe,
                    h == q * 128 + 64,
            {
                assert(mid == 2 * (h * pe));
                assert(mid * mid == 4 * ((h * pe) * (h * pe)));
                assert((h * pe) * (h * pe) == (h * h) * (pe * pe));
            }
            if s < h {
                assert(4 * n < mid * mid) by (nonlinear_arith)
                    requires
                        mid * mid == 4 * ((h * h) * (pe * pe)),
                        n == wide * (pe * pe),
                        wide < (s + 1) * (s + 1),
                        s + 1 <= h,
                        pe > 0,
                        s >= 0,
                {
                    assert((s + 1) * (s + 1) <= h * h);
                    assert(wide * (pe * pe) < (h * h) * (pe * pe));
                }
            } else if s == h {
                assert(wide == s * s ==> 4 * n == mid * mid) by (nonlinear_arith)
                    requires
                        mid * mid == 4 * ((h * h) * (pe * pe)),
                        n == wide * (pe * pe),
                        s == h,
                ;
                assert(wide > s * s ==> 4 * n > mid * mid) by (nonlinear_arith)
                    requires
                        mid * mid == 4 * ((h * h) * (pe * pe)),
                        n == wide * (pe * pe),
                        s == h,
                        pe > 0,
                {
                    if wide > s * s {
                        assert(wide * (pe * pe) > (h * h) * (pe * pe));
                    }
                }
            } else {
                assert(4 * n > mid * mid) by (nonlinear_arith)
                    requires
                        mid * mid == 4 * ((h * h) * (pe * pe)),
                        n == wide * (pe * pe),
                        s * s <= wide,
                        s > h,
                        pe > 0,
                        h >= 0,
                {
                    assert(s * s > h * h);
                    assert(wide * (pe * pe) > (h * h) * (pe * pe));
                }
            }
            lemma_root_between(n, q as int, kk as nat);
            assert(kk * BINADE + q + 1 <= INFINITE) by (nonlinear_arith)
                requires
                    kk <= 253,
                    q < 2 * BINADE,
            ;
        }
        let low: u32 = kk * BINADE + q as u32;
        let found: u32 = if r > 64 || (r == 64 && (!exact || q % 2 != 0)) {
            low + 1
        } else {
            low
        };
        proof {
            lemma_root_unique(n, found as int);
        }
        Single::signed(false, found)
    }
}

} // verus!
