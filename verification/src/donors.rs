//! Which donor a spot is healed from.

use vstd::prelude::*;
use vstd::arithmetic::power2::{lemma_pow2_pos, pow2};
use crate::heal::{
    best_donor, disk_at, donor_distance, donor_fits, donor_offset, survey, variance, whole_offset,
    Compass, Frame, HealDepth, Rgb,
};
use crate::mending::{lemma_int, lemma_int_difference, lemma_int_shared, lemma_int_sum, pixel_near};
use crate::mixing::{lemma_one, unit};
use crate::numbers::{HALF, INFINITY, SIX_FIFTHS, ZERO};
use crate::rounding::{
    lemma_round_at_least, lemma_round_at_most, lemma_round_exists, lemma_single_from_parts,
    lemma_with_sign,
};
use crate::single::{
    lemma_codes_order, lemma_round_zero, magnitude, num, round_to_code, Single,
};
use crate::whole::kept_between;

verus! {

/// How far the `k`-th donor lies from the spot.
pub open spec fn donor_way(r: Single, around: Seq<(Single, Single)>, k: int) -> (Single, Single) {
    let dist = r.product(donor_distance(k));
    (dist.product(around[k % 16].0), dist.product(around[k % 16].1))
}

/// The `k`-th donor may be taken: its disk lies in the frame, pixel by pixel too.
pub open spec fn may_be_taken<T: HealDepth>(
    f: Frame<T>,
    cx: Single,
    cy: Single,
    r: Single,
    around: Seq<(Single, Single)>,
    k: int,
) -> bool {
    let v = donor_way(r, around, k);
    donor_fits(f.width, f.height, cx.sum(v.0), cy.sum(v.1), r) && disk_at(
        cx,
        cy,
        r,
        whole_offset(v.0, v.1),
    ).stays_in(f.width, f.height)
}

/// The pixel that a point lies on.
pub open spec fn pixel_under<T>(f: Frame<T>, x: Single, y: Single) -> Rgb<T> {
    pixel_near(
        f,
        x.cast(i32::MIN as int, i32::MAX as int),
        y.cast(i32::MIN as int, i32::MAX as int),
    )
}

/// The pixel of the ring around a disk, in a direction.
pub open spec fn around_disk<T>(f: Frame<T>, x: Single, y: Single, r: Single, way: (Single, Single)) -> Rgb<
    T,
> {
    let rr = r.product(num(SIX_FIFTHS));
    pixel_under(f, x.sum(way.0.product(rr)), y.sum(way.1.product(rr)))
}

/// The pixel halfway out in a disk, in a direction.
pub open spec fn inside_disk<T>(f: Frame<T>, x: Single, y: Single, r: Single, way: (Single, Single)) -> Rgb<
    T,
> {
    pixel_under(
        f,
        x.sum(way.0.product(r).product(num(HALF))),
        y.sum(way.1.product(r).product(num(HALF))),
    )
}

/// Around the spot and around its donor the picture shows the same.
pub open spec fn seamless<T: HealDepth>(
    f: Frame<T>,
    cx: Single,
    cy: Single,
    r: Single,
    v: (Single, Single),
    ring: Seq<(Single, Single)>,
) -> bool {
    forall|j: int|
        0 <= j < 24 ==> #[trigger] around_disk(f, cx, cy, r, ring[j]) == around_disk(
            f,
            cx.sum(v.0),
            cy.sum(v.1),
            r,
            ring[j],
        )
}

/// Within the donor the picture shows one colour.
pub open spec fn plain<T: HealDepth>(
    f: Frame<T>,
    cx: Single,
    cy: Single,
    r: Single,
    v: (Single, Single),
    ring: Seq<(Single, Single)>,
    c: Rgb<T>,
) -> bool {
    forall|j: int|
        0 <= j < 24 ==> #[trigger] inside_disk(f, cx.sum(v.0), cy.sum(v.1), r, ring[j]) == c
}

/// No channel of the picture is above eight binary digits.
pub open spec fn of_bytes<T: HealDepth>(f: Frame<T>) -> bool {
    forall|i: int|
        0 <= i < f.pixels.len() ==> {
            let p = #[trigger] f.pixels[i];
            p.r.number() <= 255 && p.g.number() <= 255 && p.b.number() <= 255
        }
}

proof fn lemma_int_zero()
    ensures
        Single::of_int(0) == num(ZERO),
{
    reveal(Single::of_int);
    assert(0 * unit() == 0);
    lemma_round_zero(1);
}

/// Squares of small whole numbers are exact.
proof fn lemma_int_square(a: int)
    requires
        -255 <= a <= 255,
    ensures
        Single::of_int(a).product(Single::of_int(a)) == Single::of_int(a * a),
        0 <= a * a <= 65025,
{
    assert(0 <= a * a <= 65025) by (nonlinear_arith)
        requires
            -255 <= a <= 255,
    ;
    lemma_int(a);
    lemma_int(a * a);
    lemma_one();
    reveal(Single::product);
    let u = unit();
    let (v, c) = (Single::of_int(a), Single::of_int(a * a));
    let m = magnitude(v.code());
    let n = m * m;
    assert(n == magnitude(c.code()) * u) by (nonlinear_arith)
        requires
            n == m * m,
            m == (if a < 0 { -a } else { a }) * u,
            magnitude(c.code()) == (a * a) * u,
    ;
    lemma_codes_order(c.code(), 0);
    assert(n >= 0) by (nonlinear_arith)
        requires
            n == m * m,
    ;
    lemma_round_exists(n, u);
    lemma_round_at_most(n, u, c.code());
    lemma_round_at_least(n, u, c.code());
    lemma_with_sign(false, c.code());
    lemma_single_from_parts(v.product(v), c);
}

/// How much two pixels differ: the squares of their differences, added up.
pub open spec fn difference_of<T: HealDepth>(a: Rgb<T>, b: Rgb<T>) -> int {
    let (x, y, z) = (
        a.r.number() - b.r.number(),
        a.g.number() - b.g.number(),
        a.b.number() - b.b.number(),
    );
    x * x + y * y + z * z
}

/// How much the borders differ on the first `j` points of the ring.
spec fn differences<T: HealDepth>(
    f: Frame<T>,
    cx: Single,
    cy: Single,
    r: Single,
    v: (Single, Single),
    ring: Seq<(Single, Single)>,
    j: nat,
) -> int
    decreases j,
{
    if j == 0 {
        0
    } else {
        differences(f, cx, cy, r, v, ring, (j - 1) as nat) + difference_of(
            around_disk(f, cx, cy, r, ring[j - 1]),
            around_disk(f, cx.sum(v.0), cy.sum(v.1), r, ring[j - 1]),
        )
    }
}

proof fn lemma_small<T: HealDepth>(f: Frame<T>, x: Single, y: Single)
    requires
        f.well_formed(),
        f.width > 0,
        f.height > 0,
        of_bytes(f),
    ensures
        ({
            let p = pixel_under(f, x, y);
            &&& 0 <= p.r.number() <= 255
            &&& 0 <= p.g.number() <= 255
            &&& 0 <= p.b.number() <= 255
        }),
        f.under(x, y) == pixel_under(f, x, y).levels(),
{
    let a = kept_between(x.cast(i32::MIN as int, i32::MAX as int), 0, f.width - 1);
    let b = kept_between(y.cast(i32::MIN as int, i32::MAX as int), 0, f.height - 1);
    assert(0 <= b * f.width + a < f.width * f.height) by (nonlinear_arith)
        requires
            0 <= a < f.width,
            0 <= b < f.height,
    ;
    let p = f.pixels[b * f.width + a];
    T::lemma_level(p.r);
    T::lemma_level(p.g);
    T::lemma_level(p.b);
}

proof fn lemma_channel<T: HealDepth>(a: T, b: T)
    requires
        0 <= a.number() <= 255,
        0 <= b.number() <= 255,
    ensures
        ({
            let d = a.level().difference(b.level());
            let n = a.number() - b.number();
            d.product(d) == Single::of_int(n * n) && 0 <= n * n <= 65025
        }),
{
    T::lemma_level(a);
    T::lemma_level(b);
    lemma_int(a.number());
    lemma_int(b.number());
    lemma_int_difference(a.number(), b.number());
    lemma_int_square(a.number() - b.number());
}

proof fn lemma_ssd<T: HealDepth>(
    f: Frame<T>,
    cx: Single,
    cy: Single,
    r: Single,
    v: (Single, Single),
    ring: Seq<(Single, Single)>,
    j: nat,
)
    requires
        f.well_formed(),
        f.width > 0,
        f.height > 0,
        of_bytes(f),
        j <= 24,
    ensures
        ({
            let n = differences(f, cx, cy, r, v, ring, j);
            &&& survey(f, cx, cy, r, v.0, v.1, ring, j).ssd == Single::of_int(n)
            &&& 0 <= n <= j * 195075
        }),
    decreases j,
{
    if j == 0 {
        lemma_int_zero();
    } else {
        lemma_ssd(f, cx, cy, r, v, ring, (j - 1) as nat);
        let way = ring[j - 1];
        let rr = r.product(num(SIX_FIFTHS));
        lemma_small(f, cx.sum(way.0.product(rr)), cy.sum(way.1.product(rr)));
        lemma_small(f, cx.sum(v.0).sum(way.0.product(rr)), cy.sum(v.1).sum(way.1.product(rr)));
        let a = around_disk(f, cx, cy, r, way);
        let b = around_disk(f, cx.sum(v.0), cy.sum(v.1), r, way);
        lemma_channel(a.r, b.r);
        lemma_channel(a.g, b.g);
        lemma_channel(a.b, b.b);
        let (x, y, z) = (
            a.r.number() - b.r.number(),
            a.g.number() - b.g.number(),
            a.b.number() - b.b.number(),
        );
        let n = differences(f, cx, cy, r, v, ring, (j - 1) as nat);
        lemma_int_sum(n, x * x);
        lemma_int_sum(n + x * x, y * y);
        lemma_int_sum(n + x * x + y * y, z * z);
    }
}

/// The sums over a plain donor.
proof fn lemma_plain<T: HealDepth>(
    f: Frame<T>,
    cx: Single,
    cy: Single,
    r: Single,
    v: (Single, Single),
    ring: Seq<(Single, Single)>,
    c: Rgb<T>,
    j: nat,
)
    requires
        f.well_formed(),
        f.width > 0,
        f.height > 0,
        of_bytes(f),
        plain(f, cx, cy, r, v, ring, c),
        j <= 24,
    ensures
        ({
            let s = survey(f, cx, cy, r, v.0, v.1, ring, j);
            let (x, y, z) = (c.r.number(), c.g.number(), c.b.number());
            &&& s.mean == Rgb {
                r: Single::of_int(j * x),
                g: Single::of_int(j * y),
                b: Single::of_int(j * z),
            }
            &&& s.square == Rgb {
                r: Single::of_int(j * (x * x)),
                g: Single::of_int(j * (y * y)),
                b: Single::of_int(j * (z * z)),
            }
            &&& j > 0 ==> 0 <= x <= 255 && 0 <= y <= 255 && 0 <= z <= 255
        }),
    decreases j,
{
    let (x, y, z) = (c.r.number(), c.g.number(), c.b.number());
    if j == 0 {
        lemma_int_zero();
        assert(0 * x == 0 && 0 * y == 0 && 0 * z == 0);
        assert(0 * (x * x) == 0 && 0 * (y * y) == 0 && 0 * (z * z) == 0);
    } else {
        lemma_plain(f, cx, cy, r, v, ring, c, (j - 1) as nat);
        let way = ring[j - 1];
        assert(inside_disk(f, cx.sum(v.0), cy.sum(v.1), r, way) == c);
        lemma_small(
            f,
            cx.sum(v.0).sum(way.0.product(r).product(num(HALF))),
            cy.sum(v.1).sum(way.1.product(r).product(num(HALF))),
        );
        lemma_another(c.r, j);
        lemma_another(c.g, j);
        lemma_another(c.b, j);
    }
}

proof fn lemma_another<T: HealDepth>(a: T, j: nat)
    requires
        0 <= a.number() <= 255,
        1 <= j <= 24,
    ensures
        ({
            let n = a.number();
            &&& Single::of_int((j - 1) * n).sum(a.level()) == Single::of_int(j * n)
            &&& Single::of_int((j - 1) * (n * n)).sum(a.level().product(a.level())) == Single::of_int(
                j * (n * n),
            )
        }),
{
    let n = a.number();
    T::lemma_level(a);
    lemma_int(n);
    lemma_int_square(n);
    let q = n * n;
    assert((j - 1) * n + n == j * n && 0 <= (j - 1) * n <= 6120) by (nonlinear_arith)
        requires
            0 <= n <= 255,
            1 <= j <= 24,
    ;
    assert((j - 1) * q + q == j * q && 0 <= (j - 1) * q <= 1560600) by (nonlinear_arith)
        requires
            0 <= q <= 65025,
            1 <= j <= 24,
    ;
    lemma_int_sum((j - 1) * n, n);
    lemma_int_sum((j - 1) * q, q);
}

/// A channel that is the same all over does not vary.
proof fn lemma_no_variance(n: int)
    requires
        0 <= n <= 255,
    ensures
        variance(Single::of_int(24 * n), Single::of_int(24 * (n * n))) == num(ZERO),
{
    lemma_int_square(n);
    lemma_int_shared(n);
    lemma_int_shared(n * n);
    lemma_int_difference(n * n, n * n);
    lemma_int_zero();
}

/// A number that is not below nought.
spec fn not_below(v: Single) -> bool {
    !v.nan() && (v.negative() ==> v.zero())
}

/// A sum of numbers that are not below nought is nought only if both are.
proof fn lemma_sum_not_below(a: Single, b: Single)
    requires
        not_below(a),
        not_below(b),
    ensures
        not_below(a.sum(b)),
        a.finite() && a.sum(b).at_most(num(ZERO)) ==> a.value() == 0,
{
    reveal(Single::sum);
    lemma_codes_order(a.code(), 0);
    lemma_codes_order(b.code(), 0);
    assert(magnitude(0) == 0);
    let v = a.value() + b.value();
    if a.finite() && b.finite() {
        if v > 0 {
            lemma_round_exists(v, 1);
            assert(magnitude(1) == 1);
            lemma_round_at_least(v, 1, 1);
            lemma_with_sign(false, round_to_code(v, 1));
        } else {
            lemma_with_sign(false, 0);
            lemma_with_sign(true, 0);
        }
    }
}

proof fn lemma_half_not_below(a: Single)
    requires
        not_below(a),
    ensures
        not_below(a.product(num(HALF))),
{
    reveal(Single::product);
    lemma_pow2_pos(149);
    lemma_codes_order(a.code(), 0);
    lemma_codes_order(HALF as int, 0);
    assert(magnitude(0) == 0);
    let n = magnitude(a.code()) * magnitude(HALF as int);
    assert(n >= 0 && (magnitude(a.code()) == 0 ==> n == 0)) by (nonlinear_arith)
        requires
            n == magnitude(a.code()) * magnitude(HALF as int),
            magnitude(a.code()) >= 0,
            magnitude(HALF as int) >= 0,
    ;
    if a.finite() {
        lemma_round_exists(n, pow2(149) as int);
        lemma_with_sign(a.negative(), round_to_code(n, pow2(149) as int));
        if a.zero() {
            lemma_round_zero(pow2(149) as int);
        }
    }
}

/// A score counts what differs around the donor: it is nought only without a seam, and
/// it is nought without a seam over a plain donor.
proof fn lemma_score<T: HealDepth>(
    f: Frame<T>,
    cx: Single,
    cy: Single,
    r: Single,
    v: (Single, Single),
    ring: Seq<(Single, Single)>,
)
    requires
        f.well_formed(),
        f.width > 0,
        f.height > 0,
        of_bytes(f),
    ensures
        ({
            let score = survey(f, cx, cy, r, v.0, v.1, ring, 24).score();
            &&& !score.nan()
            &&& score.at_most(num(ZERO)) ==> differences(f, cx, cy, r, v, ring, 24) == 0
        }),
{
    let s = survey(f, cx, cy, r, v.0, v.1, ring, 24);
    lemma_ssd(f, cx, cy, r, v, ring, 24);
    let n = differences(f, cx, cy, r, v, ring, 24);
    lemma_int(n);
    lemma_one();
    let (a, b, c) = (
        variance(s.mean.r, s.square.r),
        variance(s.mean.g, s.square.g),
        variance(s.mean.b, s.square.b),
    );
    let zero = num(ZERO);
    lemma_sum_not_below(zero, a);
    lemma_sum_not_below(zero.sum(a), b);
    lemma_sum_not_below(zero.sum(a).sum(b), c);
    let var = zero.sum(a).sum(b).sum(c);
    lemma_half_not_below(var);
    lemma_sum_not_below(s.ssd, var.product(num(HALF)));
    if n * unit() == 0 {
        assert(n == 0) by (nonlinear_arith)
            requires
                n * unit() == 0,
                unit() > 0,
        ;
    }
}

#[verifier::spinoff_prover]
#[verifier::rlimit(60)]
proof fn lemma_perfect<T: HealDepth>(
    f: Frame<T>,
    cx: Single,
    cy: Single,
    r: Single,
    v: (Single, Single),
    ring: Seq<(Single, Single)>,
    c: Rgb<T>,
)
    requires
        f.well_formed(),
        f.width > 0,
        f.height > 0,
        of_bytes(f),
        seamless(f, cx, cy, r, v, ring),
        plain(f, cx, cy, r, v, ring, c),
    ensures
        survey(f, cx, cy, r, v.0, v.1, ring, 24).score() == num(ZERO),
{
    let s = survey(f, cx, cy, r, v.0, v.1, ring, 24);
    lemma_ssd(f, cx, cy, r, v, ring, 24);
    lemma_no_difference(f, cx, cy, r, v, ring, 24);
    lemma_plain(f, cx, cy, r, v, ring, c, 24);
    lemma_no_variance(c.r.number());
    lemma_no_variance(c.g.number());
    lemma_no_variance(c.b.number());
    lemma_int_zero();
    lemma_int_sum(0, 0);
    let zero = num(ZERO);
    assert(zero.sum(zero) == zero);
    assert(zero.product(num(HALF)) == zero) by {
        reveal(Single::product);
        lemma_pow2_pos(149);
        lemma_round_zero(pow2(149) as int);
        assert(magnitude(0) == 0);
        assert(0 * magnitude(HALF as int) == 0);
        lemma_with_sign(false, 0);
        lemma_single_from_parts(zero.product(num(HALF)), zero);
    }
}

proof fn lemma_no_difference<T: HealDepth>(
    f: Frame<T>,
    cx: Single,
    cy: Single,
    r: Single,
    v: (Single, Single),
    ring: Seq<(Single, Single)>,
    j: nat,
)
    requires
        seamless(f, cx, cy, r, v, ring),
        j <= 24,
    ensures
        differences(f, cx, cy, r, v, ring, j) == 0,
    decreases j,
{
    if j > 0 {
        lemma_no_difference(f, cx, cy, r, v, ring, (j - 1) as nat);
        let a = around_disk(f, cx, cy, r, ring[j - 1]);
        assert(a == around_disk(f, cx.sum(v.0), cy.sum(v.1), r, ring[j - 1]));
        assert(0int * 0int == 0);
    }
}

/// Where nothing differs, there is no seam.
proof fn lemma_seamless<T: HealDepth>(
    f: Frame<T>,
    cx: Single,
    cy: Single,
    r: Single,
    v: (Single, Single),
    ring: Seq<(Single, Single)>,
    j: nat,
)
    requires
        j <= 24,
        differences(f, cx, cy, r, v, ring, j) == 0,
    ensures
        forall|i: int|
            0 <= i < j ==> #[trigger] around_disk(f, cx, cy, r, ring[i]) == around_disk(
                f,
                cx.sum(v.0),
                cy.sum(v.1),
                r,
                ring[i],
            ),
    decreases j,
{
    if j > 0 {
        let before = differences(f, cx, cy, r, v, ring, (j - 1) as nat);
        lemma_differences_not_below(f, cx, cy, r, v, ring, (j - 1) as nat);
        let a = around_disk(f, cx, cy, r, ring[j - 1]);
        let b = around_disk(f, cx.sum(v.0), cy.sum(v.1), r, ring[j - 1]);
        let (x, y, z) = (
            a.r.number() - b.r.number(),
            a.g.number() - b.g.number(),
            a.b.number() - b.b.number(),
        );
        lemma_square_sign(x);
        lemma_square_sign(y);
        lemma_square_sign(z);
        assert(before == 0);
        lemma_seamless(f, cx, cy, r, v, ring, (j - 1) as nat);
        T::lemma_number(a.r, b.r);
        T::lemma_number(a.g, b.g);
        T::lemma_number(a.b, b.b);
        assert forall|i: int| 0 <= i < j implies #[trigger] around_disk(f, cx, cy, r, ring[i])
            == around_disk(f, cx.sum(v.0), cy.sum(v.1), r, ring[i]) by {
            if i == j - 1 {
                assert(a == b);
            }
        }
    }
}

proof fn lemma_square_sign(x: int)
    ensures
        x * x >= 0,
        x * x == 0 ==> x == 0,
{
    assert(x * x >= 0 && (x * x == 0 ==> x == 0)) by (nonlinear_arith);
}

proof fn lemma_differences_not_below<T: HealDepth>(
    f: Frame<T>,
    cx: Single,
    cy: Single,
    r: Single,
    v: (Single, Single),
    ring: Seq<(Single, Single)>,
    j: nat,
)
    ensures
        differences(f, cx, cy, r, v, ring, j) >= 0,
    decreases j,
{
    if j > 0 {
        lemma_differences_not_below(f, cx, cy, r, v, ring, (j - 1) as nat);
        let a = around_disk(f, cx, cy, r, ring[j - 1]);
        let b = around_disk(f, cx.sum(v.0), cy.sum(v.1), r, ring[j - 1]);
        lemma_square_sign(a.r.number() - b.r.number());
        lemma_square_sign(a.g.number() - b.g.number());
        lemma_square_sign(a.b.number() - b.b.number());
    }
}

/// The score of the `k`-th donor.
spec fn score_of<T: HealDepth>(
    f: Frame<T>,
    cx: Single,
    cy: Single,
    r: Single,
    around: Seq<(Single, Single)>,
    ring: Seq<(Single, Single)>,
    k: int,
) -> Single {
    let v = donor_way(r, around, k);
    survey(f, cx, cy, r, v.0, v.1, ring, 24).score()
}

proof fn lemma_best<T: HealDepth>(
    f: Frame<T>,
    cx: Single,
    cy: Single,
    r: Single,
    around: Seq<(Single, Single)>,
    ring: Seq<(Single, Single)>,
    n: nat,
    k: int,
) -> (i: int)
    requires
        0 <= k < n,
        may_be_taken(f, cx, cy, r, around, k),
        score_of(f, cx, cy, r, around, ring, k).less(num(INFINITY)),
    ensures
        0 <= i < n,
        may_be_taken(f, cx, cy, r, around, i),
        ({
            let best = best_donor(f, cx, cy, r, around, ring, n);
            let v = donor_way(r, around, i);
            &&& best.0 == score_of(f, cx, cy, r, around, ring, i)
            &&& best.1 == whole_offset(v.0, v.1)
            &&& best.0.at_most(score_of(f, cx, cy, r, around, ring, k))
        }),
    decreases n,
{
    let before = best_donor(f, cx, cy, r, around, ring, (n - 1) as nat);
    let last = score_of(f, cx, cy, r, around, ring, n - 1);
    if k < n - 1 {
        let i = lemma_best(f, cx, cy, r, around, ring, (n - 1) as nat, k);
        if may_be_taken(f, cx, cy, r, around, n - 1) && last.less(before.0) {
            n - 1
        } else {
            i
        }
    } else {
        if last.less(before.0) {
            n - 1
        } else {
            lemma_best_so_far(f, cx, cy, r, around, ring, (n - 1) as nat)
        }
    }
}

/// Where some donor was taken, the best is one of them.
proof fn lemma_best_so_far<T: HealDepth>(
    f: Frame<T>,
    cx: Single,
    cy: Single,
    r: Single,
    around: Seq<(Single, Single)>,
    ring: Seq<(Single, Single)>,
    n: nat,
) -> (i: int)
    requires
        best_donor(f, cx, cy, r, around, ring, n).0 != num(INFINITY),
    ensures
        0 <= i < n,
        may_be_taken(f, cx, cy, r, around, i),
        ({
            let best = best_donor(f, cx, cy, r, around, ring, n);
            let v = donor_way(r, around, i);
            &&& best.0 == score_of(f, cx, cy, r, around, ring, i)
            &&& best.1 == whole_offset(v.0, v.1)
            &&& !best.0.nan()
        }),
    decreases n,
{
    let before = best_donor(f, cx, cy, r, around, ring, (n - 1) as nat);
    let last = score_of(f, cx, cy, r, around, ring, n - 1);
    if may_be_taken(f, cx, cy, r, around, n - 1) && last.less(before.0) {
        n - 1
    } else {
        lemma_best_so_far(f, cx, cy, r, around, ring, (n - 1) as nat)
    }
}

/// A spot is healed without a seam wherever it can be: if among the donors that may be
/// taken there is one with the same border as the spot and one colour within, then the
/// donor that is taken has the same border as the spot.
pub proof fn a_seamless_donor_is_preferred<T: HealDepth>(
    f: Frame<T>,
    cx: Single,
    cy: Single,
    r: Single,
    compass: Compass,
    k: int,
    c: Rgb<T>,
) -> (i: int)
    requires
        f.well_formed(),
        f.width > 0,
        f.height > 0,
        of_bytes(f),
        0 <= k < 48,
        may_be_taken(f, cx, cy, r, compass.around@, k),
        seamless(f, cx, cy, r, donor_way(r, compass.around@, k), compass.ring@),
        plain(f, cx, cy, r, donor_way(r, compass.around@, k), compass.ring@, c),
    ensures
        0 <= i < 48,
        may_be_taken(f, cx, cy, r, compass.around@, i),
        ({
            let v = donor_way(r, compass.around@, i);
            &&& donor_offset(f, cx, cy, r, compass) == whole_offset(v.0, v.1)
            &&& seamless(f, cx, cy, r, v, compass.ring@)
        }),
{
    let (around, ring) = (compass.around@, compass.ring@);
    lemma_perfect(f, cx, cy, r, donor_way(r, around, k), ring, c);
    let i = lemma_best(f, cx, cy, r, around, ring, 48, k);
    let v = donor_way(r, around, i);
    lemma_score(f, cx, cy, r, v, ring);
    lemma_seamless(f, cx, cy, r, v, ring, 24);
    i
}

} // verus!
