//! The minors of a map on its own rows: they give a point back, times the determinant.

use vstd::prelude::*;

verus! {

/// A product of three in every order.
pub proof fn lemma_orders(x: real, y: real, z: real)
    ensures
        (y * x) * z == (x * y) * z,
        (x * z) * y == (x * y) * z,
        (z * x) * y == (x * y) * z,
        (y * z) * x == (x * y) * z,
        (z * y) * x == (x * y) * z,
        x * (y * z) == (x * y) * z,
        x * (z * y) == (x * y) * z,
        y * (x * z) == (x * y) * z,
        y * (z * x) == (x * y) * z,
        z * (x * y) == (x * y) * z,
        z * (y * x) == (x * y) * z,
{
    assert(y * x == x * y && z * x == x * z && z * y == y * z) by (nonlinear_arith);
    assert((x * z) * y == (x * y) * z) by (nonlinear_arith);
    assert((y * z) * x == (x * y) * z) by (nonlinear_arith);
    assert(x * (y * z) == (x * y) * z) by (nonlinear_arith);
    assert(y * (x * z) == (x * y) * z) by (nonlinear_arith);
    assert(z * (x * y) == (x * y) * z) by (nonlinear_arith);
}

pub proof fn lemma_less(p: real, q: real, r: real)
    ensures
        (p - q) * r == p * r - q * r,
        r * (p - q) == r * p - r * q,
{
    assert((p - q) * r == p * r - q * r) by (nonlinear_arith);
    assert(r * (p - q) == r * p - r * q) by (nonlinear_arith);
}

// The minors of a map, row by row, on its columns: the determinant on the column of the
// same place, and nought on the other two.

proof fn lemma_first_row_first_column(
    a: real,
    b: real,
    c: real,
    d: real,
    e: real,
    f: real,
    g: real,
    h: real,
    i: real,
)
    ensures
        (e * i - f * h) * a + (c * h - b * i) * d + (b * f - c * e) * g == a * (e * i - f * h) + b * (f * g - d * i) + c * (d * h - e * g),
{
    lemma_less(e * i, f * h, a);
    lemma_less(c * h, b * i, d);
    lemma_less(b * f, c * e, g);
    lemma_less(e * i, f * h, a);
    lemma_less(f * g, d * i, b);
    lemma_less(d * h, e * g, c);
    lemma_orders(a, e, i);
    lemma_orders(a, f, h);
    lemma_orders(b, d, i);
    lemma_orders(b, f, g);
    lemma_orders(c, d, h);
    lemma_orders(c, e, g);
}

proof fn lemma_first_row_second_column(
    a: real,
    b: real,
    c: real,
    d: real,
    e: real,
    f: real,
    g: real,
    h: real,
    i: real,
)
    ensures
        (e * i - f * h) * b + (c * h - b * i) * e + (b * f - c * e) * h == 0real,
{
    lemma_less(e * i, f * h, b);
    lemma_less(c * h, b * i, e);
    lemma_less(b * f, c * e, h);
    lemma_orders(b, e, i);
    lemma_orders(b, f, h);
    lemma_orders(c, e, h);
}

proof fn lemma_first_row_third_column(
    a: real,
    b: real,
    c: real,
    d: real,
    e: real,
    f: real,
    g: real,
    h: real,
    i: real,
)
    ensures
        (e * i - f * h) * c + (c * h - b * i) * f + (b * f - c * e) * i == 0real,
{
    lemma_less(e * i, f * h, c);
    lemma_less(c * h, b * i, f);
    lemma_less(b * f, c * e, i);
    lemma_orders(b, f, i);
    lemma_orders(c, e, i);
    lemma_orders(c, f, h);
}

proof fn lemma_second_row_first_column(
    a: real,
    b: real,
    c: real,
    d: real,
    e: real,
    f: real,
    g: real,
    h: real,
    i: real,
)
    ensures
        (f * g - d * i) * a + (a * i - c * g) * d + (c * d - a * f) * g == 0real,
{
    lemma_less(f * g, d * i, a);
    lemma_less(a * i, c * g, d);
    lemma_less(c * d, a * f, g);
    lemma_orders(a, d, i);
    lemma_orders(a, f, g);
    lemma_orders(c, d, g);
}

proof fn lemma_second_row_second_column(
    a: real,
    b: real,
    c: real,
    d: real,
    e: real,
    f: real,
    g: real,
    h: real,
    i: real,
)
    ensures
        (f * g - d * i) * b + (a * i - c * g) * e + (c * d - a * f) * h == a * (e * i - f * h) + b * (f * g - d * i) + c * (d * h - e * g),
{
    lemma_less(f * g, d * i, b);
    lemma_less(a * i, c * g, e);
    lemma_less(c * d, a * f, h);
    lemma_less(e * i, f * h, a);
    lemma_less(f * g, d * i, b);
    lemma_less(d * h, e * g, c);
    lemma_orders(a, e, i);
    lemma_orders(a, f, h);
    lemma_orders(b, d, i);
    lemma_orders(b, f, g);
    lemma_orders(c, d, h);
    lemma_orders(c, e, g);
}

proof fn lemma_second_row_third_column(
    a: real,
    b: real,
    c: real,
    d: real,
    e: real,
    f: real,
    g: real,
    h: real,
    i: real,
)
    ensures
        (f * g - d * i) * c + (a * i - c * g) * f + (c * d - a * f) * i == 0real,
{
    lemma_less(f * g, d * i, c);
    lemma_less(a * i, c * g, f);
    lemma_less(c * d, a * f, i);
    lemma_orders(a, f, i);
    lemma_orders(c, d, i);
    lemma_orders(c, f, g);
}

proof fn lemma_third_row_first_column(
    a: real,
    b: real,
    c: real,
    d: real,
    e: real,
    f: real,
    g: real,
    h: real,
    i: real,
)
    ensures
        (d * h - e * g) * a + (b * g - a * h) * d + (a * e - b * d) * g == 0real,
{
    lemma_less(d * h, e * g, a);
    lemma_less(b * g, a * h, d);
    lemma_less(a * e, b * d, g);
    lemma_orders(a, d, h);
    lemma_orders(a, e, g);
    lemma_orders(b, d, g);
}

proof fn lemma_third_row_second_column(
    a: real,
    b: real,
    c: real,
    d: real,
    e: real,
    f: real,
    g: real,
    h: real,
    i: real,
)
    ensures
        (d * h - e * g) * b + (b * g - a * h) * e + (a * e - b * d) * h == 0real,
{
    lemma_less(d * h, e * g, b);
    lemma_less(b * g, a * h, e);
    lemma_less(a * e, b * d, h);
    lemma_orders(a, e, h);
    lemma_orders(b, d, h);
    lemma_orders(b, e, g);
}

proof fn lemma_third_row_third_column(
    a: real,
    b: real,
    c: real,
    d: real,
    e: real,
    f: real,
    g: real,
    h: real,
    i: real,
)
    ensures
        (d * h - e * g) * c + (b * g - a * h) * f + (a * e - b * d) * i == a * (e * i - f * h) + b * (f * g - d * i) + c * (d * h - e * g),
{
    lemma_less(d * h, e * g, c);
    lemma_less(b * g, a * h, f);
    lemma_less(a * e, b * d, i);
    lemma_less(e * i, f * h, a);
    lemma_less(f * g, d * i, b);
    lemma_less(d * h, e * g, c);
    lemma_orders(a, e, i);
    lemma_orders(a, f, h);
    lemma_orders(b, d, i);
    lemma_orders(b, f, g);
    lemma_orders(c, d, h);
    lemma_orders(c, e, g);
}

/// `a x + b y + c`
pub open spec fn row_exactly(a: real, b: real, c: real, x: real, y: real) -> real {
    a * x + b * y + c
}

pub proof fn lemma_shared(x: real, y: real, z: real, a: real)
    ensures
        (x + y + z) * a == x * a + y * a + z * a,
{
    assert((x + y + z) * a == x * a + y * a + z * a) by (nonlinear_arith);
}

/// The nine minors among the real numbers.
pub open spec fn minors_exactly(m: Seq<real>) -> Seq<real> {
    seq![
        m[4] * m[8] - m[5] * m[7],
        m[2] * m[7] - m[1] * m[8],
        m[1] * m[5] - m[2] * m[4],
        m[5] * m[6] - m[3] * m[8],
        m[0] * m[8] - m[2] * m[6],
        m[2] * m[3] - m[0] * m[5],
        m[3] * m[7] - m[4] * m[6],
        m[1] * m[6] - m[0] * m[7],
        m[0] * m[4] - m[1] * m[3],
    ]
}

pub open spec fn det_exactly(m: Seq<real>) -> real {
    m[0] * (m[4] * m[8] - m[5] * m[7]) + m[1] * (m[5] * m[6] - m[3] * m[8]) + m[2] * (m[3] * m[7]
        - m[4] * m[6])
}

proof fn lemma_minor_on_row(k: real, a: real, b: real, c: real, x: real, y: real)
    ensures
        k * row_exactly(a, b, c, x, y) == (k * a) * x + (k * b) * y + k * c,
{
    lemma_shared(a * x, b * y, c, k);
    lemma_orders(k, a, x);
    lemma_orders(k, b, y);
    let r = row_exactly(a, b, c, x, y);
    assert(k * r == r * k && k * c == c * k) by (nonlinear_arith);
}

/// A row of minors on the rows of a map.
proof fn lemma_minors_on_rows(
    k: (real, real, real),
    a: (real, real, real),
    b: (real, real, real),
    c: (real, real, real),
    x: real,
    y: real,
)
    ensures
        k.0 * row_exactly(a.0, b.0, c.0, x, y) + k.1 * row_exactly(a.1, b.1, c.1, x, y) + k.2
            * row_exactly(a.2, b.2, c.2, x, y) == (k.0 * a.0 + k.1 * a.1 + k.2 * a.2) * x + (k.0
            * b.0 + k.1 * b.1 + k.2 * b.2) * y + (k.0 * c.0 + k.1 * c.1 + k.2 * c.2),
{
    lemma_minor_on_row(k.0, a.0, b.0, c.0, x, y);
    lemma_minor_on_row(k.1, a.1, b.1, c.1, x, y);
    lemma_minor_on_row(k.2, a.2, b.2, c.2, x, y);
    lemma_shared(k.0 * a.0, k.1 * a.1, k.2 * a.2, x);
    lemma_shared(k.0 * b.0, k.1 * b.1, k.2 * b.2, y);
}

/// The rows of a map at a point.
pub open spec fn rows_exactly(m: Seq<real>, x: real, y: real) -> (real, real, real) {
    (
        row_exactly(m[0], m[1], m[2], x, y),
        row_exactly(m[3], m[4], m[5], x, y),
        row_exactly(m[6], m[7], m[8], x, y),
    )
}

/// The minors on the rows at a point give the point back, times the determinant.
pub proof fn lemma_adjugate(m: Seq<real>, x: real, y: real)
    ensures
        ({
            let k = minors_exactly(m);
            let r = rows_exactly(m, x, y);
            &&& k[0] * r.0 + k[1] * r.1 + k[2] * r.2 == det_exactly(m) * x
            &&& k[3] * r.0 + k[4] * r.1 + k[5] * r.2 == det_exactly(m) * y
            &&& k[6] * r.0 + k[7] * r.1 + k[8] * r.2 == det_exactly(m)
        }),
{
    let k = minors_exactly(m);
    let (a, b, c) = ((m[0], m[3], m[6]), (m[1], m[4], m[7]), (m[2], m[5], m[8]));
    lemma_minors_on_rows((k[0], k[1], k[2]), a, b, c, x, y);
    lemma_minors_on_rows((k[3], k[4], k[5]), a, b, c, x, y);
    lemma_minors_on_rows((k[6], k[7], k[8]), a, b, c, x, y);
    lemma_first_row_first_column(m[0], m[1], m[2], m[3], m[4], m[5], m[6], m[7], m[8]);
    lemma_first_row_second_column(m[0], m[1], m[2], m[3], m[4], m[5], m[6], m[7], m[8]);
    lemma_first_row_third_column(m[0], m[1], m[2], m[3], m[4], m[5], m[6], m[7], m[8]);
    lemma_second_row_first_column(m[0], m[1], m[2], m[3], m[4], m[5], m[6], m[7], m[8]);
    lemma_second_row_second_column(m[0], m[1], m[2], m[3], m[4], m[5], m[6], m[7], m[8]);
    lemma_second_row_third_column(m[0], m[1], m[2], m[3], m[4], m[5], m[6], m[7], m[8]);
    lemma_third_row_first_column(m[0], m[1], m[2], m[3], m[4], m[5], m[6], m[7], m[8]);
    lemma_third_row_second_column(m[0], m[1], m[2], m[3], m[4], m[5], m[6], m[7], m[8]);
    lemma_third_row_third_column(m[0], m[1], m[2], m[3], m[4], m[5], m[6], m[7], m[8]);
    let d = det_exactly(m);
    assert(0real * x == 0real && 0real * y == 0real) by (nonlinear_arith);
}

} // verus!
