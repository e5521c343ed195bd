//! Where a spot's patch lies on a picture, and how its donor fades out.

use vstd::prelude::*;
use vstd::arithmetic::div_mod::{lemma_fundamental_div_mod, lemma_mod_bound};
use vstd::arithmetic::power2::{lemma2_to64, lemma_pow2_adds, lemma_pow2_pos, pow2};
use crate::disks::{lemma_root_real, lemma_root_upper};
use crate::exact::{code_of, lemma_round_representable};
use crate::heal::{patch_of, Compass, Frame, HealDepth, Patch};
use crate::mending::lemma_int;
use crate::mixing::{lemma_part_of_way, unit};
use crate::numbers::{HALF, ONE, TWO, ZERO};
use crate::placing::lemma_whole_real;
use crate::reals::{
    lemma_ends, lemma_magnitude_real, lemma_order_real, lemma_real_of_digits, real_of, size,
    size_is_not_below, within,
};
use crate::rounding::lemma_with_sign;
use crate::single::{lemma_codes_order, magnitude, num, round_to_code, Single};
use crate::spots::SpotView;
use crate::wayback::{
    lemma_bounds, lemma_over, lemma_quotient_sound, lemma_rounded_difference,
    lemma_rounded_product, lemma_rounded_quotient, lemma_size_of_both, rounding, tiny,
};
use crate::whole::size_ceiling;

verus! {

broadcast use size_is_not_below;

/// A number held between two others.
pub open spec fn held(x: real, lo: real, hi: real) -> real {
    if x < lo {
        lo
    } else if x > hi {
        hi
    } else {
        x
    }
}

pub proof fn lemma_held(v: Single, lo: Single, hi: Single)
    requires
        v.finite(),
        lo.finite(),
        hi.finite(),
    ensures
        v.clamped(lo, hi).finite(),
        real_of(v.clamped(lo, hi)) == held(real_of(v), real_of(lo), real_of(hi)),
{
    lemma_order_real(v, lo);
    lemma_order_real(hi, v);
}

pub proof fn lemma_half_and_two()
    ensures
        num(HALF).finite(),
        real_of(num(HALF)) == 1real / 2real,
        num(TWO).finite(),
        real_of(num(TWO)) == 2real,
{
    lemma2_to64();
    lemma_real_of_digits(HALF, 0x80_0000, 24);
    lemma_real_of_digits(TWO, 0x80_0000, 22);
    assert(8388608real / 16777216real == 1real / 2real);
    assert(8388608real / 4194304real == 2real);
}

/// The whole number next to a value.
pub proof fn lemma_next_whole(v: Single)
    requires
        v.finite(),
        size(real_of(v)) <= 4000000real,
    ensures
        ({
            let n = v.rounded().cast(i32::MIN as int, i32::MAX as int);
            size((n as real) - real_of(v)) <= 1real / 2real
        }),
        v.rounded().finite(),
        real_of(v.rounded()) == v.rounded().cast(i32::MIN as int, i32::MAX as int) as real,
{
    reveal(Single::rounded);
    reveal(size);
    lemma_magnitude_real(v);
    lemma_pow2_pos(149);
    lemma2_to64();
    lemma_pow2_adds(1, 149);
    let u = pow2(149) as int;
    let ur = u as real;
    let m = magnitude(v.code());
    lemma_codes_order(v.code(), 0);
    assert(magnitude(0) == 0);
    let mr = m as real;
    let x = mr / ur;
    lemma_over(mr, ur);
    let n = (2 * m + u) / (2 * u);
    assert(pow2(150) == 2 * u);
    assert(n * (2 * u) <= 2 * m + u < (n + 1) * (2 * u)) by (nonlinear_arith)
        requires
            n == (2 * m + u) / (2 * u),
            u > 0,
    ;
    let nr = n as real;
    assert(nr * (2real * ur) <= 2real * mr + ur && 2real * mr + ur < (nr + 1real) * (2real * ur))
        by (nonlinear_arith)
        requires
            n * (2 * u) <= 2 * m + u < (n + 1) * (2 * u),
            nr == n as real,
            ur == u as real,
            mr == m as real,
    ;
    assert(nr <= x + 1real / 2real && x < nr + 1real / 2real) by (nonlinear_arith)
        requires
            nr * (2real * ur) <= 2real * mr + ur,
            2real * mr + ur < (nr + 1real) * (2real * ur),
            mr == x * ur,
            ur > 0real,
    ;
    assert(x >= 0real) by (nonlinear_arith)
        requires
            mr == x * ur,
            mr >= 0real,
            ur > 0real,
    ;
    assert(-1 < n <= 4000001);
    lemma_round_representable(n, 149);
    let c = round_to_code(n * pow2(149), 1);
    lemma_with_sign(v.negative(), code_of(n, 149));
    let w = v.rounded();
    assert(magnitude(w.code()) == n * u);
    assert((n * u) / u == n) by (nonlinear_arith)
        requires
            u > 0,
    ;
    lemma_magnitude_real(w);
    assert(((n * u) as real) / ur == nr) by (nonlinear_arith)
        requires
            nr == n as real,
            ur == u as real,
            ur > 0real,
    ;
}

/// A part of a side, in pixels.
pub proof fn lemma_part_of_side(v: Single, n: int, b: real)
    requires
        v.finite(),
        size(real_of(v)) <= b <= 2real,
        0 <= n <= 0x10_0000,
    ensures
        within(v.product(Single::of_whole(n)), real_of(v) * (n as real), (n as real) / 2000000real + 4real * tiny()),
        size(real_of(v) * (n as real)) <= b * (n as real),
{
    lemma_whole_real(n);
    let s = Single::of_whole(n);
    let (x, y, k) = (real_of(v), real_of(s), n as real);
    assert(size(k) == k) by {
        reveal(size);
    }
    lemma_size_of_both(x, y);
    lemma_size_of_both(x, k);
    lemma_size_of_both(x, y - k);
    assert(size(y) <= 2000000real) by {
        reveal(size);
    }
    lemma_bounds(size(x), size(y), 2real, 2000000real);
    lemma_bounds(size(x), size(y - k), 2real, rounding(k));
    lemma_bounds(size(x), k, b, k);
    lemma_rounded_product(v, s);
    let p = real_of(v.product(s));
    assert(size(y) <= k + rounding(k)) by {
        reveal(size);
    }
    lemma_bounds(size(x), size(y), 2real, k + rounding(k));
    assert(x * (y - k) == x * y - x * k) by (nonlinear_arith);
    assert(size(p - x * k) <= size(p - x * y) + size(x * y - x * k)) by {
        reveal(size);
    }
}

/// A patch lies where its spot says: its middle across and down by the parts of the width
/// and of the height, its radius by the part of the short side but not under two pixels,
/// and a donor that was named at its offset, to the next pixel.
pub proof fn a_patch_lies_where_its_spot_says<T: HealDepth>(
    f: Frame<T>,
    s: SpotView,
    compass: Compass,
)
    requires
        0 < f.width <= 0x10_0000,
        0 < f.height <= 0x10_0000,
        s.cx.finite() && s.cy.finite() && s.radius.finite() && s.feather.finite(),
        s.source is Some ==> {
            let v = s.source->0;
            &&& v.0.finite() && size(real_of(v.0)) <= 1real
            &&& v.1.finite() && size(real_of(v.1)) <= 1real
        },
    ensures
        ({
            let p = patch_of(f, s, compass);
            let (w, h) = (f.width as real, f.height as real);
            let short = if w <= h {
                w
            } else {
                h
            };
            let want = held(real_of(s.radius), 0real, 1real / 2real) * short;
            let t = (w + h) / 1000000real;
            &&& within(p.cx, held(real_of(s.cx), 0real, 1real) * w, t)
            &&& within(p.cy, held(real_of(s.cy), 0real, 1real) * h, t)
            &&& p.r.finite() && real_of(p.r) >= 2real
            &&& real_of(p.r) == 2real ==> want <= 2real + t
            &&& real_of(p.r) > 2real ==> size(real_of(p.r) - want) <= t
            &&& p.feather.finite() && real_of(p.feather) == held(real_of(s.feather), 0real, 1real)
            &&& p.raw == s.clone_raw
            &&& p.coverage == s.coverage
            &&& s.source is Some ==> {
                let v = s.source->0;
                &&& size((p.ox as real) - real_of(v.0) * w) <= 1real / 2real + t
                &&& size((p.oy as real) - real_of(v.1) * h) <= 1real / 2real + t
            }
        }),
{
    let (w, h) = (f.width as real, f.height as real);
    let p = patch_of(f, s, compass);
    lemma_ends();
    lemma_half_and_two();
    lemma_held(s.cx, num(ZERO), num(ONE));
    lemma_held(s.cy, num(ZERO), num(ONE));
    lemma_held(s.radius, num(ZERO), num(HALF));
    lemma_held(s.feather, num(ZERO), num(ONE));
    let cx = s.cx.clamped(num(ZERO), num(ONE));
    let cy = s.cy.clamped(num(ZERO), num(ONE));
    let r = s.radius.clamped(num(ZERO), num(HALF));
    assert(size(real_of(cx)) <= 1real && size(real_of(cy)) <= 1real && size(real_of(r)) <= 1real) by {
        reveal(size);
    }
    lemma_part_of_side(cx, f.width, 1real);
    lemma_part_of_side(cy, f.height, 1real);
    let short = if f.width <= f.height {
        f.width
    } else {
        f.height
    };
    lemma_part_of_side(r, short, 1real);
    let q = r.product(Single::of_whole(short));
    lemma_order_real(q, num(TWO));
    assert(size(real_of(q) - real_of(r) * (short as real)) <= (w + h) / 1000000real);
    assert(p.r == q.larger(num(TWO)));
    assert(real_of(p.r) == 2real ==> real_of(r) * (short as real) <= 2real + (w + h) / 1000000real) by {
        reveal(size);
    }
    if s.source is Some {
        let v = s.source->0;
        lemma_part_of_side(v.0, f.width, 1real);
        lemma_part_of_side(v.1, f.height, 1real);
        lemma_offset(v.0, f.width);
        lemma_offset(v.1, f.height);
    }
}

proof fn lemma_offset(v: Single, n: int)
    requires
        v.finite(),
        size(real_of(v)) <= 1real,
        0 < n <= 0x10_0000,
    ensures
        ({
            let k = v.product(Single::of_whole(n)).rounded().cast(i32::MIN as int, i32::MAX as int);
            size((k as real) - real_of(v) * (n as real)) <= 1real / 2real + (n as real) / 1000000real
        }),
{
    lemma_part_of_side(v, n, 1real);
    let q = v.product(Single::of_whole(n));
    let x = real_of(v) * (n as real);
    assert(size(real_of(q)) <= 4000000real) by {
        reveal(size);
    }
    lemma_next_whole(q);
    let k = q.rounded().cast(i32::MIN as int, i32::MAX as int);
    assert(size((k as real) - x) <= size((k as real) - real_of(q)) + size(real_of(q) - x)) by {
        reveal(size);
    }
}

/// A donor stands alone out to the part of the radius that is not feathered, and from
/// there its weight falls evenly to nothing at the edge of the disk.
pub proof fn a_donor_fades_out_evenly(p: Patch, d: Single)
    requires
        p.r.finite() && 2real <= real_of(p.r) <= 1000000real,
        p.feather.finite() && 1real / 1000real <= real_of(p.feather) <= 1real,
        d.finite() && !d.negative() && real_of(d) <= real_of(p.r),
    ensures
        ({
            let a = p.feathered(d);
            let (r, f, x) = (real_of(p.r), real_of(p.feather), real_of(d));
            &&& a.finite() && 0real <= real_of(a) <= 1real
            &&& x <= r * (1real - f) - r / 1000000real ==> a == num(ONE)
            &&& x >= r * (1real - f) + r / 1000000real ==> size(real_of(a) * (r * f) - (r - x)) <= r
                / 1000000real
        }),
{
    let (r, f, x) = (real_of(p.r), real_of(p.feather), real_of(d));
    lemma_ends();
    lemma_magnitude_real(d);
    lemma_nought();
    assert(x >= 0real) by {
        lemma_codes_order(d.code(), 0);
        lemma_below_nothing(magnitude(d.code()));
    }
    reveal(size);
    let plain = num(ONE).difference(p.feather);
    lemma_rounded_difference(num(ONE), p.feather);
    let g = real_of(plain);
    assert(size(g - (1real - f)) <= 1real / 16000000real);
    assert(size(r * g) <= 2000000real) by {
        lemma_size_of_both(r, g);
        lemma_bounds(size(r), size(g), 1000000real, 2real);
    }
    lemma_rounded_product(p.r, plain);
    let inner = p.r.product(plain);
    let n = real_of(inner);
    lemma_bounds_of_inner(r, f, g, n);
    lemma_order_real(d, inner);
    lemma_order_real(inner, p.r);
    lemma_fading(p, d, inner);
}

pub proof fn lemma_nought()
    ensures
        magnitude(0) == 0,
{
}

pub proof fn lemma_below_nothing(m: int)
    requires
        m >= 0,
    ensures
        (m as real) / (pow2(149) as real) >= 0real,
{
    lemma_pow2_pos(149);
    let u = pow2(149) as real;
    lemma_over(m as real, u);
    let q = (m as real) / u;
    assert(q >= 0real) by (nonlinear_arith)
        requires
            q * u == m as real,
            m as real >= 0real,
            u > 0real,
    ;
}

proof fn lemma_bounds_of_inner(r: real, f: real, g: real, n: real)
    requires
        2real <= r,
        1real / 1000real <= f <= 1real,
        size(g - (1real - f)) <= 1real / 16000000real,
        size(n - r * g) <= rounding(r * g),
        size(r * g) <= 2000000real,
    ensures
        size(n - r * (1real - f)) <= r / 4000000real,
        n < r,
{
    reveal(size);
    let e = g - (1real - f);
    assert(r * g == r * (1real - f) + r * e) by (nonlinear_arith)
        requires
            e == g - (1real - f),
    ;
    lemma_size_of_both(r, e);
    lemma_bounds(r, size(e), r, 1real / 16000000real);
    lemma_size_of_both(r, g);
    lemma_bounds(r, size(g), r, 101real / 100real);
    assert(r * (1real - f) <= r * (999real / 1000real)) by (nonlinear_arith)
        requires
            r >= 2real,
            f >= 1real / 1000real,
    ;
}

proof fn lemma_fading(p: Patch, d: Single, inner: Single)
    requires
        inner == p.r.product(num(ONE).difference(p.feather)),
        p.r.finite() && 2real <= real_of(p.r) <= 1000000real,
        p.feather.finite() && 1real / 1000real <= real_of(p.feather) <= 1real,
        d.finite() && !d.negative() && 0real <= real_of(d) <= real_of(p.r),
        inner.finite() && real_of(inner) < real_of(p.r),
        size(real_of(inner) - real_of(p.r) * (1real - real_of(p.feather))) <= real_of(p.r) / 4000000real,
    ensures
        ({
            let a = p.feathered(d);
            let (r, f, x) = (real_of(p.r), real_of(p.feather), real_of(d));
            &&& a.finite() && 0real <= real_of(a) <= 1real
            &&& x <= r * (1real - f) - r / 1000000real ==> a == num(ONE)
            &&& x >= r * (1real - f) + r / 1000000real ==> size(real_of(a) * (r * f) - (r - x)) <= r
                / 1000000real
        }),
{
    let (r, f, x, n) = (real_of(p.r), real_of(p.feather), real_of(d), real_of(inner));
    lemma_ends();
    lemma_order_real(d, inner);
    lemma_order_real(inner, d);
    lemma_order_real(inner, p.r);
    lemma_order_real(d, p.r);
    assert(r * (1real - f) == r - r * f) by (nonlinear_arith);
    assert(x <= r * (1real - f) - r / 1000000real ==> x <= n) by {
        reveal(size);
    }
    assert(x >= r * (1real - f) + r / 1000000real ==> x > n) by {
        reveal(size);
    }
    if x <= n {
        assert(p.feathered(d) == num(ONE));
    } else {
        let top = p.r.difference(d);
        let low = p.r.difference(inner);
        let a = top.quotient(low);
        assert(p.feathered(d) == a);
        assert(!p.r.negative()) by {
            lemma_order_real(num(ZERO), p.r);
        }
        lemma_part_of_way(p.r, d, inner);
        lemma_order_real(a, num(ONE));
        lemma_magnitude_real(a);
        lemma_nought();
        lemma_codes_order(a.code(), 0);
        lemma_below_nothing(magnitude(a.code()));
        assert(size((r - n) - r * f) <= r / 4000000real) by {
            reveal(size);
        }
        lemma_bounds(r, 1real / 1000real, r, f);
        lemma_bounds(r, f, r, 1real);
        lemma_fall(p.r, d, inner, r * f);
    }
}

/// What the quotient of the ways says of its parts.
proof fn lemma_fall(p: Single, d: Single, inner: Single, wide: real)
    requires
        p.finite() && 2real <= real_of(p) <= 1000000real,
        d.finite() && 0real <= real_of(d) <= real_of(p),
        inner.finite() && real_of(inner) < real_of(d),
        size((real_of(p) - real_of(inner)) - wide) <= real_of(p) / 4000000real,
        real_of(p) / 1000real <= wide <= real_of(p),
        ({
            let a = p.difference(d).quotient(p.difference(inner));
            a.finite() && 0real <= real_of(a) <= 1real
        }),
    ensures
        ({
            let a = p.difference(d).quotient(p.difference(inner));
            size(real_of(a) * wide - (real_of(p) - real_of(d))) <= real_of(p) / 1000000real
        }),
{
    let (r, x, n) = (real_of(p), real_of(d), real_of(inner));
    let top = p.difference(d);
    let low = p.difference(inner);
    let a = top.quotient(low);
    assert(size(r - x) == r - x && size(r - n) == r - n) by {
        reveal(size);
    }
    assert(r - n <= 2000000real) by {
        reveal(size);
    }
    lemma_rounded_difference(p, d);
    lemma_rounded_difference(p, inner);
    let (t, l, q) = (real_of(top), real_of(low), real_of(a));
    assert(size(l - wide) <= r / 1900000real && l >= r / 2000real) by {
        reveal(size);
    }
    assert(size(t) <= 1000001real) by {
        reveal(size);
    }
    assert(size(l) == l) by {
        reveal(size);
    }
    lemma_quotient_sound(t, l, 1real / 1000real, 1000001real);
    lemma_rounded_quotient(top, low);
    lemma_over(t, l);
    // The quotient times what it was divided by.
    let y = t / l;
    lemma_size_of_both(q - y, l);
    assert((q - y) * l == q * l - t) by (nonlinear_arith)
        requires
            y * l == t,
    ;
    lemma_size_of_both(y, l);
    assert(size(q - y) * l <= (size(y) / 16777000real + tiny()) * l) by {
        lemma_bounds(size(q - y), l, size(y) / 16777000real + tiny(), l);
    }
    assert((size(y) / 16777000real + tiny()) * l == size(t) / 16777000real + tiny() * l)
        by (nonlinear_arith)
        requires
            size(y) * l == size(t),
    ;
    lemma_size_of_both(q, l - wide);
    assert(size(q) <= 1real) by {
        reveal(size);
    }
    lemma_bounds(size(q), size(l - wide), 1real, r / 1900000real);
    assert(q * (l - wide) == q * l - q * wide) by (nonlinear_arith);
    assert(tiny() * l <= tiny() * 2000001real) by {
        assert(l <= 2000001real) by {
            reveal(size);
        }
        lemma_bounds(tiny(), l, tiny(), 2000001real);
    }
    assert(size(q * wide - (r - x)) <= r / 1000000real) by {
        reveal(size);
    }
}

/// The pixels that a disk reaches over.
proof fn lemma_span(r: Single)
    requires
        r.finite(),
        2real <= real_of(r) <= 1000000real,
    ensures
        ({
            let n = r.ceiled().cast(i32::MIN as int, i32::MAX as int);
            real_of(r) <= n as real <= real_of(r) + 1real
        }),
{
    reveal(Single::ceiled);
    lemma_magnitude_real(r);
    lemma_pow2_pos(149);
    lemma_codes_order(r.code(), 0);
    lemma_nought();
    let u = pow2(149) as int;
    let ur = u as real;
    let m = magnitude(r.code());
    let mr = m as real;
    lemma_below_nothing(m);
    assert(!r.negative());
    let x = mr / ur;
    lemma_over(mr, ur);
    let n = size_ceiling(r);
    let k = m / u;
    lemma_fundamental_div_mod(m, u);
    lemma_mod_bound(m, u);
    assert(u * k == k * u) by (nonlinear_arith);
    assert(k * u <= m < k * u + u);
    assert((k + 1) * u == k * u + u) by (nonlinear_arith);
    let nr = n as real;
    assert(m <= n * u && n * u < m + u);
    assert(mr <= nr * ur && nr * ur < mr + ur) by (nonlinear_arith)
        requires
            m <= n * u,
            n * u < m + u,
            mr == m as real,
            nr == n as real,
            ur == u as real,
    ;
    assert(x <= nr && nr < x + 1real) by (nonlinear_arith)
        requires
            mr <= nr * ur,
            nr * ur < mr + ur,
            mr == x * ur,
            ur > 0real,
    ;
    lemma_round_representable(n, 149);
    lemma_with_sign(false, code_of(n, 149));
    let w = r.ceiled();
    assert(magnitude(w.code()) == n * u);
    assert((n * u) / u == n) by (nonlinear_arith)
        requires
            u > 0,
    ;
}

/// A patch is a disk: it holds every pixel within its radius of the middle, and none
/// beyond it, but for a hair's breadth.
pub proof fn a_patch_is_a_disk(p: Patch, x: int, y: int)
    requires
        p.r.finite() && 2real <= real_of(p.r) <= 1000000real,
        -2000 <= x - p.mid_x() <= 2000,
        -2000 <= y - p.mid_y() <= 2000,
    ensures
        ({
            let (dx, dy) = ((x - p.mid_x()) as real, (y - p.mid_y()) as real);
            let (out, inn) = (
                (5001real / 5000real) * real_of(p.r),
                (4999real / 5000real) * real_of(p.r),
            );
            &&& p.holds(x, y) ==> dx * dx + dy * dy <= out * out
            &&& dx * dx + dy * dy <= inn * inn ==> p.holds(x, y)
        }),
{
    let (a, b) = (x - p.mid_x(), y - p.mid_y());
    let (dx, dy) = (a as real, b as real);
    let n = a * a + b * b;
    assert(0 <= n <= 8000000) by (nonlinear_arith)
        requires
            n == a * a + b * b,
            -2000 <= a <= 2000,
            -2000 <= b <= 2000,
    ;
    lemma_int(n);
    let v = Single::of_int(n);
    let far = v.root();
    lemma_pow2_pos(149);
    assert(real_of(v) == n as real) by {
        let u = pow2(149) as real;
        assert(((n * unit()) as real) / u == n as real) by (nonlinear_arith)
            requires
                u == unit() as real,
                u > 0real,
        ;
    }
    assert(n as real == dx * dx + dy * dy) by (nonlinear_arith)
        requires
            n == a * a + b * b,
            dx == a as real,
            dy == b as real,
    ;
    lemma_root_real(v);
    lemma_root_upper(v);
    lemma_order_real(p.r, far);
    lemma_span(p.r);
    let (r, z) = (real_of(p.r), real_of(far));
    let (out, inn) = ((5001real / 5000real) * r, (4999real / 5000real) * r);
    let e = 1real / 1000000000000000000000000000000real;
    let up = (10001real / 10000real) * z + e;
    let low = (9999real / 10000real) * z - e;
    if p.holds(x, y) {
        assert(z <= r);
        lemma_bounds(up, up, out, out);
    }
    if dx * dx + dy * dy <= inn * inn {
        if low > inn {
            lemma_squares_order(inn, low);
        }
        assert(z <= r);
        lemma_side_of(dx, dy, inn);
        lemma_side_of(dy, dx, inn);
    }
}

proof fn lemma_squares_order(a: real, b: real)
    requires
        0real <= a < b,
    ensures
        a * a < b * b,
{
    assert(a * a < b * b) by (nonlinear_arith)
        requires
            0real <= a < b,
    ;
}

proof fn lemma_side_of(a: real, b: real, c: real)
    requires
        c >= 0real,
        a * a + b * b <= c * c,
    ensures
        -c <= a <= c,
{
    assert(b * b >= 0real) by (nonlinear_arith);
    if a > c {
        lemma_squares_order(c, a);
    }
    if -a > c {
        lemma_squares_order(c, -a);
        assert((-a) * (-a) == a * a) by (nonlinear_arith);
    }
}

} // verus!
