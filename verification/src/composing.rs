//! One map after another, among the real numbers.

use vstd::prelude::*;
use crate::cofactors::{lemma_less, lemma_orders, lemma_shared, rows_exactly};
use crate::homography::{centred, composed, shift};
use crate::numbers::{HALF, ONE, ZERO};
use crate::reals::{lemma_ends, lemma_negation_real, real_of, size, size_is_not_below, within};
use crate::single::{num, Single};
use crate::stamping::lemma_half_and_two;
use crate::transform::{stage, ManualSliders};
use crate::wayback::{
    lemma_bounds, lemma_rounded_product, lemma_rounded_sum, lemma_size_of_both, lemma_size_of_sum,
    reals_of, tiny,
};

verus! {

broadcast use size_is_not_below;

/// The nine numbers of a map are finite and not above a bound.
pub open spec fn no_more_than(m: Seq<Single>, b: real) -> bool {
    m.len() == 9 && forall|i: int|
        0 <= i < 9 ==> (#[trigger] m[i]).finite() && size(real_of(m[i])) <= b
}

/// What composing two maps may lose: their bounds multiplied, by a million.
pub open spec fn lost(a: real, b: real) -> real {
    (a * b) / 1000000real + 1real / 1000000000000000000000000000000000000real
}

/// Three real numbers, each no further from another three than `e`.
pub open spec fn close(p: (real, real, real), q: (real, real, real), e: real) -> bool {
    size(p.0 - q.0) <= e && size(p.1 - q.1) <= e && size(p.2 - q.2) <= e
}

/// A map on a point in three numbers, the third its denominator.
pub open spec fn sent(m: Seq<real>, p: (real, real, real)) -> (real, real, real) {
    (
        m[0] * p.0 + m[1] * p.1 + m[2] * p.2,
        m[3] * p.0 + m[4] * p.1 + m[5] * p.2,
        m[6] * p.0 + m[7] * p.1 + m[8] * p.2,
    )
}

proof fn lemma_apart(u: real, p: real, v: real, q: real)
    ensures
        size((u + v) - (p + q)) <= size(u - p) + size(v - q),
        size(u + v) <= size(p + q) + size(u - p) + size(v - q),
{
    lemma_size_of_sum(u - p, v - q);
    assert((u + v) - (p + q) == (u - p) + (v - q));
    lemma_size_of_sum(p + q, (u + v) - (p + q));
    assert(u + v == (p + q) + ((u + v) - (p + q)));
}

pub proof fn lemma_three(a: Single, x: Single, b: Single, y: Single, c: Single, z: Single, k: real)
    requires
        a.finite() && b.finite() && c.finite() && x.finite() && y.finite() && z.finite(),
        size(real_of(a) * real_of(x)) <= k,
        size(real_of(b) * real_of(y)) <= k,
        size(real_of(c) * real_of(z)) <= k,
        k <= 1000000000000real,
    ensures
        within(
            a.product(x).sum(b.product(y)).sum(c.product(z)),
            real_of(a) * real_of(x) + real_of(b) * real_of(y) + real_of(c) * real_of(z),
            k / 2000000real + 10real * tiny(),
        ),
{
    let (p, q, r) = (
        real_of(a) * real_of(x),
        real_of(b) * real_of(y),
        real_of(c) * real_of(z),
    );
    lemma_rounded_product(a, x);
    lemma_rounded_product(b, y);
    lemma_rounded_product(c, z);
    let (u, v, w) = (a.product(x), b.product(y), c.product(z));
    lemma_apart(real_of(u), p, real_of(v), q);
    lemma_size_of_sum(p, q);
    lemma_rounded_sum(u, v);
    let s = u.sum(v);
    lemma_size_of_sum(real_of(s) - (real_of(u) + real_of(v)), (real_of(u) + real_of(v)) - (p + q));
    lemma_apart(real_of(s), p + q, real_of(w), r);
    lemma_size_of_sum(p, q);
    lemma_size_of_sum(p + q, r);
    lemma_rounded_sum(s, w);
    lemma_size_of_sum(real_of(s.sum(w)) - (real_of(s) + real_of(w)), (real_of(s) + real_of(w)) - (p + q + r));
}

proof fn lemma_cell(inner: Seq<Single>, outer: Seq<Single>, r: int, c: int, a: real, b: real)
    requires
        no_more_than(inner, a),
        no_more_than(outer, b),
        0real <= a <= 1000000real,
        0real <= b <= 1000000real,
        0 <= r < 3,
        0 <= c < 3,
    ensures
        composed(inner, outer).len() == 9,
        ({
            let (m, n) = (reals_of(outer), reals_of(inner));
            within(
                composed(inner, outer)[3 * r + c],
                m[3 * r] * n[c] + m[3 * r + 1] * n[3 + c] + m[3 * r + 2] * n[6 + c],
                (a * b) / 2000000real + 10real * tiny(),
            )
        }),
{
    reveal(composed);
    assert((3 * r + c) / 3 == r && (3 * r + c) % 3 == c);
    let (o, i) = (outer, inner);
    lemma_size_of_both(real_of(o[r * 3]), real_of(i[c]));
    lemma_size_of_both(real_of(o[r * 3 + 1]), real_of(i[3 + c]));
    lemma_size_of_both(real_of(o[r * 3 + 2]), real_of(i[6 + c]));
    lemma_bounds(size(real_of(o[r * 3])), size(real_of(i[c])), b, a);
    lemma_bounds(size(real_of(o[r * 3 + 1])), size(real_of(i[3 + c])), b, a);
    lemma_bounds(size(real_of(o[r * 3 + 2])), size(real_of(i[6 + c])), b, a);
    assert(b * a == a * b) by (nonlinear_arith);
    lemma_bounds(a, b, 1000000real, 1000000real);
    lemma_three(o[r * 3], i[c], o[r * 3 + 1], i[3 + c], o[r * 3 + 2], i[6 + c], a * b);
}

/// A row of a composed map, from its three numbers.
proof fn lemma_row_close(
    c: (real, real, real),
    k: (real, real, real),
    x: real,
    y: real,
    e: real,
)
    requires
        close(c, k, e),
        size(x) <= 1real,
        size(y) <= 1real,
    ensures
        size((c.0 * x + c.1 * y + c.2) - (k.0 * x + k.1 * y + k.2)) <= 3real * e,
{
    lemma_size_of_both(c.0 - k.0, x);
    lemma_size_of_both(c.1 - k.1, y);
    lemma_bounds(size(c.0 - k.0), size(x), e, 1real);
    lemma_bounds(size(c.1 - k.1), size(y), e, 1real);
    lemma_less(c.0, k.0, x);
    lemma_less(c.1, k.1, y);
    lemma_size_of_sum((c.0 - k.0) * x, (c.1 - k.1) * y);
    lemma_size_of_sum((c.0 - k.0) * x + (c.1 - k.1) * y, c.2 - k.2);
}

proof fn lemma_spread(a: real, d: real, b: real, g: real, c: real, j: real, x: real)
    ensures
        (a * d + b * g + c * j) * x == (a * d) * x + (b * g) * x + (c * j) * x,
{
    lemma_shared(a * d, b * g, c * j, x);
}

proof fn lemma_taken(a: real, d: real, x: real, e: real, y: real, f: real)
    ensures
        a * (d * x + e * y + f) == (a * d) * x + (a * e) * y + a * f,
{
    lemma_shared(d * x, e * y, f, a);
    lemma_orders(a, d, x);
    lemma_orders(a, e, y);
}

proof fn lemma_regrouped(o: (real, real, real), n: Seq<real>, x: real, y: real)
    ensures
        (o.0 * n[0] + o.1 * n[3] + o.2 * n[6]) * x + (o.0 * n[1] + o.1 * n[4] + o.2 * n[7]) * y + (o.0
            * n[2] + o.1 * n[5] + o.2 * n[8]) == o.0 * (n[0] * x + n[1] * y + n[2]) + o.1 * (n[3] * x
            + n[4] * y + n[5]) + o.2 * (n[6] * x + n[7] * y + n[8]),
{
    let (a, b, c) = o;
    lemma_spread(a, n[0], b, n[3], c, n[6], x);
    lemma_spread(a, n[1], b, n[4], c, n[7], y);
    lemma_taken(a, n[0], x, n[1], y, n[2]);
    lemma_taken(b, n[3], x, n[4], y, n[5]);
    lemma_taken(c, n[6], x, n[7], y, n[8]);
}

proof fn lemma_composed_row(inner: Seq<Single>, outer: Seq<Single>, r: int, a: real, b: real, x: real, y: real)
    requires
        no_more_than(inner, a),
        no_more_than(outer, b),
        0real <= a <= 1000000real,
        0real <= b <= 1000000real,
        0 <= r < 3,
        size(x) <= 1real,
        size(y) <= 1real,
    ensures
        ({
            let c = reals_of(composed(inner, outer));
            let m = reals_of(outer);
            let p = rows_exactly(reals_of(inner), x, y);
            size(
                (c[3 * r] * x + c[3 * r + 1] * y + c[3 * r + 2]) - (m[3 * r] * p.0 + m[3 * r + 1] * p.1
                    + m[3 * r + 2] * p.2),
            ) <= 2real * lost(a, b)
        }),
{
    let c = reals_of(composed(inner, outer));
    let (m, n) = (reals_of(outer), reals_of(inner));
    lemma_cell(inner, outer, r, 0, a, b);
    lemma_cell(inner, outer, r, 1, a, b);
    lemma_cell(inner, outer, r, 2, a, b);
    let o = (m[3 * r], m[3 * r + 1], m[3 * r + 2]);
    lemma_regrouped(o, n, x, y);
    let k = (
        o.0 * n[0] + o.1 * n[3] + o.2 * n[6],
        o.0 * n[1] + o.1 * n[4] + o.2 * n[7],
        o.0 * n[2] + o.1 * n[5] + o.2 * n[8],
    );
    let e = (a * b) / 2000000real + 10real * tiny();
    lemma_row_close((c[3 * r], c[3 * r + 1], c[3 * r + 2]), k, x, y, e);
    assert(a * b >= 0real) by (nonlinear_arith)
        requires
            a >= 0real,
            b >= 0real,
    ;
}

/// A composed map takes a point through its first map, and what comes of it through its
/// second.
pub proof fn a_composed_map_takes_one_after_the_other(
    inner: Seq<Single>,
    outer: Seq<Single>,
    a: real,
    b: real,
    x: real,
    y: real,
)
    requires
        no_more_than(inner, a),
        no_more_than(outer, b),
        0real <= a <= 1000000real,
        0real <= b <= 1000000real,
        size(x) <= 1real,
        size(y) <= 1real,
    ensures
        close(
            rows_exactly(reals_of(composed(inner, outer)), x, y),
            sent(reals_of(outer), rows_exactly(reals_of(inner), x, y)),
            2real * lost(a, b),
        ),
{
    lemma_composed_row(inner, outer, 0, a, b, x, y);
    lemma_composed_row(inner, outer, 1, a, b, x, y);
    lemma_composed_row(inner, outer, 2, a, b, x, y);
}

/// A frame is first set upright, and then the sliders move what came of it; either of
/// them alone is the whole of it.
pub proof fn sliders_move_the_upright_frame(
    upright: Seq<Single>,
    sliders: Seq<Single>,
    a: real,
    b: real,
    x: real,
    y: real,
)
    requires
        no_more_than(upright, a),
        no_more_than(sliders, b),
        0real <= a <= 1000000real,
        0real <= b <= 1000000real,
        size(x) <= 1real,
        size(y) <= 1real,
    ensures
        stage(Some(upright), None) == Some(upright),
        stage(None, Some(sliders)) == Some(sliders),
        stage(None, None) is None,
        stage(Some(upright), Some(sliders)) is Some,
        close(
            rows_exactly(reals_of(stage(Some(upright), Some(sliders))->0), x, y),
            sent(reals_of(sliders), rows_exactly(reals_of(upright), x, y)),
            2real * lost(a, b),
        ),
{
    a_composed_map_takes_one_after_the_other(upright, sliders, a, b, x, y);
}

proof fn lemma_by_one(x: real)
    ensures
        x * 1real == x,
        1real * x == x,
        x * 0real == 0real,
        0real * x == 0real,
{
    assert(x * 1real == x && 1real * x == x && x * 0real == 0real && 0real * x == 0real)
        by (nonlinear_arith);
}

/// The numbers of a shift by a half.
proof fn lemma_shift(d: Single)
    requires
        d == num(HALF) || d == num(HALF).negation(),
    ensures
        no_more_than(shift(d), 1real),
        ({
            let m = reals_of(shift(d));
            let h = if d == num(HALF) {
                1real / 2real
            } else {
                -(1real / 2real)
            };
            &&& m[0] == 1real && m[1] == 0real && m[2] == h
            &&& m[3] == 0real && m[4] == 1real && m[5] == h
            &&& m[6] == 0real && m[7] == 0real && m[8] == 1real
        }),
{
    lemma_ends();
    lemma_half_and_two();
    lemma_negation_real(num(HALF));
    assert(num(HALF).negation() != num(HALF)) by {
        assert(real_of(num(HALF).negation()) == -(1real / 2real));
    }
    reveal(size);
    let m = shift(d);
    assert forall|i: int| 0 <= i < 9 implies (#[trigger] m[i]).finite() && size(real_of(m[i]))
        <= 1real by {
        assert(i == 0 || i == 1 || i == 2 || i == 3 || i == 4 || i == 5 || i == 6 || i == 7 || i == 8);
    }
}

/// The numbers of a map behind a shift.
proof fn lemma_behind_shift(m: Seq<Single>, b: real)
    requires
        no_more_than(m, b),
        1real <= b <= 10000real,
    ensures
        no_more_than(composed(shift(num(HALF).negation()), m), 4real * b),
{
    let s = shift(num(HALF).negation());
    lemma_shift(num(HALF).negation());
    let c = composed(s, m);
    lemma_cell(s, m, 0, 0, 1real, b);
    assert(1real * b == b);
    assert forall|i: int| 0 <= i < 9 implies (#[trigger] c[i]).finite() && size(real_of(c[i]))
        <= 4real * b by {
        let (r, k) = (i / 3, i % 3);
        lemma_cell(s, m, r, k, 1real, b);
        let (o, n) = (reals_of(m), reals_of(s));
        let (x, y, z) = (o[3 * r] * n[k], o[3 * r + 1] * n[3 + k], o[3 * r + 2] * n[6 + k]);
        lemma_size_of_both(o[3 * r], n[k]);
        lemma_size_of_both(o[3 * r + 1], n[3 + k]);
        lemma_size_of_both(o[3 * r + 2], n[6 + k]);
        assert(n[k] == real_of(s[k]) && n[3 + k] == real_of(s[3 + k]) && n[6 + k] == real_of(
            s[6 + k],
        ));
        lemma_bounds(size(o[3 * r]), size(n[k]), b, 1real);
        lemma_bounds(size(o[3 * r + 1]), size(n[3 + k]), b, 1real);
        lemma_bounds(size(o[3 * r + 2]), size(n[6 + k]), b, 1real);
        lemma_size_of_sum(x, y);
        lemma_size_of_sum(x + y, z);
        lemma_size_of_sum(x + y + z, real_of(c[i]) - (x + y + z));
        assert(3 * r + k == i);
    }
}

/// A map about the middle of the frame does to a point beside the middle what the map does
/// to one beside the origin.
pub proof fn a_centred_map_acts_about_the_middle(m: Seq<Single>, b: real, x: real, y: real)
    requires
        no_more_than(m, b),
        1real <= b <= 10000real,
        size(x) <= 1real / 2real,
        size(y) <= 1real / 2real,
    ensures
        ({
            let p = rows_exactly(reals_of(m), x, y);
            let h = 1real / 2real;
            close(
                rows_exactly(reals_of(centred(m)), h + x, h + y),
                (p.0 + h * p.2, p.1 + h * p.2, p.2),
                13real * lost(1real, b),
            )
        }),
{
    let h = 1real / 2real;
    let (u, v) = (h + x, h + y);
    let back = shift(num(HALF).negation());
    let there = shift(num(HALF));
    lemma_shift(num(HALF).negation());
    lemma_shift(num(HALF));
    lemma_half_and_two();
    lemma_negation_real(num(HALF));
    assert(size(u) <= 1real && size(v) <= 1real) by {
        lemma_size_of_sum(h, x);
        lemma_size_of_sum(h, y);
        assert(size(h) == h) by {
            reveal(size);
        }
    }
    let inner = composed(back, m);
    a_composed_map_takes_one_after_the_other(back, m, 1real, b, u, v);
    lemma_behind_shift(m, b);
    a_composed_map_takes_one_after_the_other(inner, there, 4real * b, 1real, u, v);
    let q = rows_exactly(reals_of(back), u, v);
    lemma_by_one(u);
    lemma_by_one(v);
    assert(q == (x, y, 1real));
    let o = reals_of(m);
    let p = rows_exactly(o, x, y);
    lemma_by_one(o[2]);
    lemma_by_one(o[5]);
    lemma_by_one(o[8]);
    assert(sent(o, q) == p);
    let g = rows_exactly(reals_of(inner), u, v);
    let e = 2real * lost(1real, b);
    assert(close(g, p, e));
    let k = sent(reals_of(there), g);
    lemma_by_one(g.0);
    lemma_by_one(g.1);
    lemma_by_one(g.2);
    assert(k == (g.0 + h * g.2, g.1 + h * g.2, g.2));
    lemma_by_one(4real * b);
    lemma_by_one(b);
    let c = rows_exactly(reals_of(centred(m)), u, v);
    let w = (p.0 + h * p.2, p.1 + h * p.2, p.2);
    lemma_on_the_way(c.0, k.0, w.0, g.0 - p.0, g.2 - p.2, e, 2real * lost(4real * b, 1real));
    lemma_on_the_way(c.1, k.1, w.1, g.1 - p.1, g.2 - p.2, e, 2real * lost(4real * b, 1real));
    lemma_on_the_way(c.2, k.2, w.2, g.2 - p.2, 0real, e, 2real * lost(4real * b, 1real));
}

proof fn lemma_on_the_way(c: real, k: real, w: real, d: real, f: real, e: real, t: real)
    requires
        size(c - k) <= t,
        k - w == d + (1real / 2real) * f,
        size(d) <= e,
        size(f) <= e || f == 0real,
        e >= 0real,
    ensures
        size(c - w) <= t + 2real * e,
{
    reveal(size);
}

/// The numbers of a composed map.
proof fn lemma_composed_bound(inner: Seq<Single>, outer: Seq<Single>, a: real, b: real)
    requires
        no_more_than(inner, a),
        no_more_than(outer, b),
        1real <= a <= 1000real,
        1real <= b <= 10real,
    ensures
        no_more_than(composed(inner, outer), 4real * (a * b)),
{
    let c = composed(inner, outer);
    lemma_cell(inner, outer, 0, 0, a, b);
    let k = a * b;
    assert(k >= 1real) by (nonlinear_arith)
        requires
            k == a * b,
            a >= 1real,
            b >= 1real,
    ;
    assert forall|i: int| 0 <= i < 9 implies (#[trigger] c[i]).finite() && size(real_of(c[i]))
        <= 4real * k by {
        let (r, j) = (i / 3, i % 3);
        lemma_cell(inner, outer, r, j, a, b);
        let (o, n) = (reals_of(outer), reals_of(inner));
        let (x, y, z) = (o[3 * r] * n[j], o[3 * r + 1] * n[3 + j], o[3 * r + 2] * n[6 + j]);
        lemma_size_of_both(o[3 * r], n[j]);
        lemma_size_of_both(o[3 * r + 1], n[3 + j]);
        lemma_size_of_both(o[3 * r + 2], n[6 + j]);
        assert(n[j] == real_of(inner[j]) && n[3 + j] == real_of(inner[3 + j]) && n[6 + j] == real_of(
            inner[6 + j],
        ));
        lemma_bounds(size(o[3 * r]), size(n[j]), b, a);
        lemma_bounds(size(o[3 * r + 1]), size(n[3 + j]), b, a);
        lemma_bounds(size(o[3 * r + 2]), size(n[6 + j]), b, a);
        assert(b * a == k) by (nonlinear_arith)
            requires
                k == a * b,
        ;
        lemma_size_of_sum(x, y);
        lemma_size_of_sum(x + y, z);
        lemma_size_of_sum(x + y + z, real_of(c[i]) - (x + y + z));
        assert(3 * r + j == i);
    }
}

/// One number of a map on two points that are close.
proof fn lemma_sent_row(x: real, y: real, z: real, p: (real, real, real), q: (real, real, real), b: real, e: real)
    requires
        size(x) <= b,
        size(y) <= b,
        size(z) <= b,
        close(p, q, e),
        b >= 0real,
    ensures
        size((x * p.0 + y * p.1 + z * p.2) - (x * q.0 + y * q.1 + z * q.2)) <= 3real * (b * e),
{
    lemma_size_of_both(x, p.0 - q.0);
    lemma_size_of_both(y, p.1 - q.1);
    lemma_size_of_both(z, p.2 - q.2);
    lemma_bounds(size(x), size(p.0 - q.0), b, e);
    lemma_bounds(size(y), size(p.1 - q.1), b, e);
    lemma_bounds(size(z), size(p.2 - q.2), b, e);
    lemma_less(p.0, q.0, x);
    lemma_less(p.1, q.1, y);
    lemma_less(p.2, q.2, z);
    lemma_size_of_sum(x * (p.0 - q.0), y * (p.1 - q.1));
    lemma_size_of_sum(x * (p.0 - q.0) + y * (p.1 - q.1), z * (p.2 - q.2));
}

proof fn lemma_sent_close(m: Seq<Single>, p: (real, real, real), q: (real, real, real), b: real, e: real)
    requires
        no_more_than(m, b),
        close(p, q, e),
        b >= 0real,
    ensures
        close(sent(reals_of(m), p), sent(reals_of(m), q), 3real * (b * e)),
{
    let r = reals_of(m);
    assert forall|i: int| 0 <= i < 9 implies size(#[trigger] r[i]) <= b by {
        assert(r[i] == real_of(m[i]));
    }
    lemma_sent_row(r[0], r[1], r[2], p, q, b, e);
    lemma_sent_row(r[3], r[4], r[5], p, q, b, e);
    lemma_sent_row(r[6], r[7], r[8], p, q, b, e);
}

proof fn lemma_close_on(p: (real, real, real), q: (real, real, real), r: (real, real, real), d: real, e: real)
    requires
        close(p, q, d),
        close(q, r, e),
    ensures
        close(p, r, d + e),
{
    lemma_size_of_sum(p.0 - q.0, q.0 - r.0);
    lemma_size_of_sum(p.1 - q.1, q.1 - r.1);
    lemma_size_of_sum(p.2 - q.2, q.2 - r.2);
    assert((p.0 - q.0) + (q.0 - r.0) == p.0 - r.0);
    assert((p.1 - q.1) + (q.1 - r.1) == p.1 - r.1);
    assert((p.2 - q.2) + (q.2 - r.2) == p.2 - r.2);
}

/// One map more behind a chain of maps.
proof fn lemma_one_more_map(
    inner: Seq<Single>,
    outer: Seq<Single>,
    a: real,
    b: real,
    x: real,
    y: real,
    ideal: (real, real, real),
    e: real,
    out: real,
)
    requires
        no_more_than(inner, a),
        no_more_than(outer, b),
        1real <= a <= 1000real,
        1real <= b <= 10real,
        size(x) <= 1real,
        size(y) <= 1real,
        close(rows_exactly(reals_of(inner), x, y), ideal, e),
        2real * lost(a, b) + 3real * (b * e) <= out,
    ensures
        close(rows_exactly(reals_of(composed(inner, outer)), x, y), sent(reals_of(outer), ideal), out),
{
    a_composed_map_takes_one_after_the_other(inner, outer, a, b, x, y);
    let p = rows_exactly(reals_of(inner), x, y);
    lemma_sent_close(outer, p, ideal, b, e);
    lemma_close_on(
        rows_exactly(reals_of(composed(inner, outer)), x, y),
        sent(reals_of(outer), p),
        sent(reals_of(outer), ideal),
        2real * lost(a, b),
        3real * (b * e),
    );
}

/// The six sliders that move a frame: what each of them does alone, in the order in which
/// they act.
pub open spec fn slider_maps(p: ManualSliders, aspect: Single) -> Seq<Seq<Single>> {
    let o = num(ONE);
    let z = num(ZERO);
    seq![
        seq![o, z, z, z, o, z, z, p.keystone_v(aspect), o],
        seq![o, z, z, z, o, z, p.keystone_h(aspect), z, o],
        seq![
            p.cos, p.sin.negation().quotient(aspect), z,
            p.sin.product(aspect), p.cos, z,
            z, z, o,
        ],
        seq![o.quotient(p.growth), z, z, z, p.growth, z, z, z, o],
        seq![
            p.magnification(), z, z,
            z, p.magnification(), z,
            z, z, o,
        ],
        seq![o, z, p.shift_x(), z, o, p.shift_y(), z, z, o],
    ]
}

/// The sliders act one after the other: the vertical and the horizontal keystone, the turn,
/// the stretch, the scale, and the offsets on what came of all the others.
#[verifier::spinoff_prover]
pub proof fn the_sliders_act_one_after_the_other(p: ManualSliders, aspect: Single, x: real, y: real)
    requires
        ({
            let m = slider_maps(p, aspect);
            &&& no_more_than(m[0], 1real)
            &&& no_more_than(m[1], 1real)
            &&& no_more_than(m[2], 3real / 2real)
            &&& no_more_than(m[3], 3real / 2real)
            &&& no_more_than(m[4], 3real / 2real)
            &&& no_more_than(m[5], 1real)
        }),
        size(x) <= 1real / 2real,
        size(y) <= 1real / 2real,
    ensures
        ({
            let m = slider_maps(p, aspect);
            let leaning = sent(reals_of(m[1]), rows_exactly(reals_of(m[0]), x, y));
            let turned = sent(reals_of(m[2]), leaning);
            let stretched = sent(reals_of(m[3]), turned);
            let scaled = sent(reals_of(m[4]), stretched);
            close(
                rows_exactly(reals_of(p.chain(aspect)), x, y),
                sent(reals_of(m[5]), scaled),
                1real / 100real,
            )
        }),
{
    let m = slider_maps(p, aspect);
    let k = 3real / 2real;
    let first = rows_exactly(reals_of(m[0]), x, y);
    let c1 = composed(m[0], m[1]);
    let c2 = composed(c1, m[2]);
    let c3 = composed(c2, m[3]);
    let c4 = composed(c3, m[4]);
    assert(p.chain(aspect) == composed(c4, m[5]));
    lemma_composed_bound(m[0], m[1], 1real, 1real);
    lemma_composed_bound(c1, m[2], 4real, k);
    lemma_composed_bound(c2, m[3], 24real, k);
    lemma_composed_bound(c3, m[4], 144real, k);
    assert(4real * (1real * 1real) == 4real && 4real * (4real * k) == 24real && 4real * (24real * k)
        == 144real && 4real * (144real * k) == 864real);
    assert(size(first.0 - first.0) <= 0real && size(first.1 - first.1) <= 0real && size(
        first.2 - first.2,
    ) <= 0real) by {
        reveal(size);
    }
    let leaning = sent(reals_of(m[1]), first);
    let turned = sent(reals_of(m[2]), leaning);
    let stretched = sent(reals_of(m[3]), turned);
    let scaled = sent(reals_of(m[4]), stretched);
    let (e1, e2, e3, e4) = (
        3real / 1000000real,
        30real / 1000000real,
        250real / 1000000real,
        1600real / 1000000real,
    );
    lemma_one_more_map(m[0], m[1], 1real, 1real, x, y, first, 0real, e1);
    lemma_one_more_map(c1, m[2], 4real, k, x, y, leaning, e1, e2);
    lemma_one_more_map(c2, m[3], 24real, k, x, y, turned, e2, e3);
    lemma_one_more_map(c3, m[4], 144real, k, x, y, stretched, e3, e4);
    lemma_one_more_map(c4, m[5], 864real, 1real, x, y, scaled, e4, 1real / 100real);
}

} // verus!
