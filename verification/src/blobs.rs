//! Measures of one region of a painted mask: how many pixels it has, where its
//! middle is, how far it reaches and which rectangle holds it.

use vstd::prelude::*;
use vstd::arithmetic::power2::{
    lemma2_to64, lemma2_to64_rest, lemma_pow2_adds, lemma_pow2_pos, pow2,
};
use crate::double::{
    added_up, lemma_added_bound, lemma_mean_is_finite, mean, through_double, to_double,
};
use crate::regions::{listed, members};
use crate::rounding::{
    lemma_product_is_number, lemma_round_at_most, lemma_round_exists, lemma_sum_is_number,
};
use crate::single::{magnitude, Single, BINADE};
use crate::walk::{numbers, walked};

verus! {

/// The sum of `f` over the members of `r` below `n`.
pub open spec fn tally(r: Set<int>, f: spec_fn(int) -> int, n: nat) -> int
    decreases n,
{
    if n == 0 {
        0
    } else {
        tally(r, f, (n - 1) as nat) + if r.contains(n - 1) {
            f(n - 1)
        } else {
            0
        }
    }
}

/// One for each pixel.
pub open spec fn one() -> spec_fn(int) -> int {
    |i: int| 1int
}

/// The column of a pixel, in rows of `w`.
pub open spec fn column(w: int) -> spec_fn(int) -> int {
    |i: int| i % w
}

/// The row of a pixel, in rows of `w`.
pub open spec fn row(w: int) -> spec_fn(int) -> int {
    |i: int| i / w
}

pub open spec fn is_least(r: Set<int>, f: spec_fn(int) -> int, m: int) -> bool {
    &&& exists|i: int| #[trigger] r.contains(i) && f(i) == m
    &&& forall|i: int| #[trigger] r.contains(i) ==> m <= f(i)
}

pub open spec fn is_greatest(r: Set<int>, f: spec_fn(int) -> int, m: int) -> bool {
    &&& exists|i: int| #[trigger] r.contains(i) && f(i) == m
    &&& forall|i: int| #[trigger] r.contains(i) ==> f(i) <= m
}

/// The least value of `f` on `r`.
pub open spec fn least(r: Set<int>, f: spec_fn(int) -> int) -> int {
    choose|m: int| is_least(r, f, m)
}

/// The greatest value of `f` on `r`.
pub open spec fn greatest(r: Set<int>, f: spec_fn(int) -> int) -> int {
    choose|m: int| is_greatest(r, f, m)
}

/// How far pixel `i` is from the point `(cx, cy)`.
pub open spec fn distance(w: int, i: int, cx: Single, cy: Single) -> Single {
    let dx = Single::of_whole(i % w).difference(cx);
    let dy = Single::of_whole(i / w).difference(cy);
    dx.product(dx).sum(dy.product(dy)).root()
}

pub open spec fn is_reach(r: Set<int>, w: int, cx: Single, cy: Single, d: Single) -> bool {
    &&& exists|i: int| #[trigger] r.contains(i) && distance(w, i, cx, cy) == d
    &&& forall|i: int| #[trigger] r.contains(i) ==> distance(w, i, cx, cy).at_most(d)
}

/// How far the pixel of `r` is from `(cx, cy)` that is farthest from it.
pub open spec fn reach(r: Set<int>, w: int, cx: Single, cy: Single) -> Single {
    choose|d: Single| is_reach(r, w, cx, cy, d)
}

proof fn lemma_tally_insert(r: Set<int>, f: spec_fn(int) -> int, v: int, n: nat)
    requires
        !r.contains(v),
        v >= 0,
    ensures
        tally(r.insert(v), f, n) == tally(r, f, n) + if v < n {
            f(v)
        } else {
            0
        },
    decreases n,
{
    if n > 0 {
        lemma_tally_insert(r, f, v, (n - 1) as nat);
    }
}

proof fn lemma_tally_empty(f: spec_fn(int) -> int, n: nat)
    ensures
        tally(Set::empty(), f, n) == 0,
    decreases n,
{
    if n > 0 {
        lemma_tally_empty(f, (n - 1) as nat);
    }
}

/// The members of a list that got one more.
proof fn lemma_members_push(s: Seq<usize>, v: usize)
    ensures
        members(s.push(v)) == members(s).insert(v as int),
        members(Seq::<usize>::empty()) == Set::<int>::empty(),
{
    let t = s.push(v);
    assert forall|j: int| members(t).contains(j) == members(s).insert(v as int).contains(j) by {
        if listed(t, j) {
            let a = choose|a: int| 0 <= a < t.len() && #[trigger] t[a] == j;
            if a < s.len() {
                assert(s[a] == j);
            }
        }
        if listed(s, j) {
            let a = choose|a: int| 0 <= a < s.len() && #[trigger] s[a] == j;
            assert(t[a] == j);
        }
        if j == v {
            assert(t[s.len() as int] == j);
        }
    }
    assert(members(t) =~= members(s).insert(v as int));
    assert(members(Seq::<usize>::empty()) =~= Set::<int>::empty());
}

/// Whole numbers of 64 digits are finite singles.
pub proof fn lemma_whole_is_finite(n: int)
    requires
        0 <= n <= 0x1_0000_0000_0000_0000,
    ensures
        Single::of_whole(n).finite(),
        !Single::of_whole(n).negative(),
{
    reveal(Single::of_whole);
    let code: int = 0x5F80_0000;
    lemma_pow2_adds(23, 190);
    lemma_pow2_adds(64, 149);
    vstd::arithmetic::power2::lemma2_to64();
    vstd::arithmetic::power2::lemma2_to64_rest();
    assert(code / (BINADE as int) == 191 && code % (BINADE as int) == 0);
    assert(magnitude(code) == pow2(64) * pow2(149));
    lemma_pow2_pos(149);
    assert(0 <= n * pow2(149) <= magnitude(code) * 1) by (nonlinear_arith)
        requires
            0 <= n <= pow2(64),
            pow2(149) > 0,
            magnitude(code) == pow2(64) * pow2(149),
    ;
    lemma_round_at_most(n * pow2(149), 1, code);
    lemma_round_exists(n * pow2(149), 1);
}

/// A square is a number and not below zero.
proof fn lemma_square(a: Single)
    requires
        !a.nan(),
    ensures
        !a.product(a).nan(),
        !a.product(a).negative(),
{
    if a.finite() {
        lemma_product_is_number(a, a);
    } else {
        reveal(Single::product);
    }
}

/// The sum of two numbers that are not below zero is one too.
proof fn lemma_sum_not_below(a: Single, b: Single)
    requires
        !a.nan(),
        !b.nan(),
        !a.negative(),
        !b.negative(),
    ensures
        !a.sum(b).nan(),
        !a.sum(b).negative(),
{
    if a.finite() && b.finite() {
        lemma_sum_is_number(a, b);
    } else {
        reveal(Single::sum);
    }
}

/// How far pixel `i` is from `(cx, cy)`.
fn pixel_distance(w: usize, i: usize, cx: Single, cy: Single) -> (r: Single)
    requires
        w > 0,
        cx.finite(),
        cy.finite(),
    ensures
        r == distance(w as int, i as int, cx, cy),
        !r.nan(),
        !r.negative(),
{
    let dx: Single = Single::from_u64((i % w) as u64).minus(cx);
    let dy: Single = Single::from_u64((i / w) as u64).minus(cy);
    proof {
        vstd::arithmetic::div_mod::lemma_mod_decreases(i as nat, w as nat);
        vstd::arithmetic::div_mod::lemma_div_is_ordered_by_denominator(i as int, 1, w as int);
        lemma_whole_is_finite(i as int % w as int);
        lemma_whole_is_finite(i as int / w as int);
        lemma_sum_is_number(Single::of_whole(i as int % w as int), cx.negation());
        lemma_sum_is_number(Single::of_whole(i as int / w as int), cy.negation());
        lemma_square(dx);
        lemma_square(dy);
        lemma_sum_not_below(dx.product(dx), dy.product(dy));
    }
    dx.times(dx).plus(dy.times(dy)).sqrt()
}

/// What one region measures.
pub struct Blob {
    pub cx: Single,
    pub cy: Single,
    pub rad: Single,
    pub left: u32,
    pub top: u32,
    pub right: u32,
    pub bottom: u32,
}

/// The sum of `f` over a region, as doubles hold it: the sum itself while they have room
/// for it, and what adding up along the walk makes of it beyond.
pub open spec fn double_sum(r: Set<int>, f: spec_fn(int) -> int, w: int, n: nat) -> int {
    if tally(r, f, n) < pow2(53) {
        tally(r, f, n)
    } else {
        added_up(walked(r, w, n), f, walked(r, w, n).len())
    }
}

/// The middle of a region in one direction: the mean of its pixels, taken in doubles and
/// rounded to a single.
pub open spec fn middle(r: Set<int>, f: spec_fn(int) -> int, w: int, n: nat) -> Single {
    through_double(double_sum(r, f, w, n), tally(r, one(), n))
}

impl Blob {
    /// The measures of the region `r` of `n` pixels in rows of `w`.
    pub open spec fn measures(self, r: Set<int>, w: int, n: nat) -> bool {
        &&& self.cx == middle(r, column(w), w, n)
        &&& self.cy == middle(r, row(w), w, n)
        &&& self.rad == reach(r, w, self.cx, self.cy)
        &&& !self.rad.nan()
        &&& self.left == least(r, column(w))
        &&& self.top == least(r, row(w))
        &&& self.right == greatest(r, column(w))
        &&& self.bottom == greatest(r, row(w))
        &&& is_least(r, column(w), self.left as int)
        &&& is_least(r, row(w), self.top as int)
        &&& is_greatest(r, column(w), self.right as int)
        &&& is_greatest(r, row(w), self.bottom as int)
    }
}

proof fn lemma_least(r: Set<int>, f: spec_fn(int) -> int, m: int)
    requires
        is_least(r, f, m),
    ensures
        least(r, f) == m,
{
    let k = least(r, f);
    assert(is_least(r, f, k));
    let i = choose|i: int| #[trigger] r.contains(i) && f(i) == m;
    let j = choose|j: int| #[trigger] r.contains(j) && f(j) == k;
    assert(k <= f(i) && m <= f(j));
}

proof fn lemma_greatest(r: Set<int>, f: spec_fn(int) -> int, m: int)
    requires
        is_greatest(r, f, m),
    ensures
        greatest(r, f) == m,
{
    let k = greatest(r, f);
    assert(is_greatest(r, f, k));
    let i = choose|i: int| #[trigger] r.contains(i) && f(i) == m;
    let j = choose|j: int| #[trigger] r.contains(j) && f(j) == k;
    assert(f(i) <= k && f(j) <= m);
}

/// How many pixels a list has, counted over its members.
pub proof fn lemma_count(s: Seq<usize>, n: nat)
    requires
        s.no_duplicates(),
        forall|a: int| 0 <= a < s.len() ==> #[trigger] s[a] < n,
    ensures
        tally(members(s), one(), n) == s.len(),
    decreases s.len(),
{
    if s.len() == 0 {
        lemma_members_push(s, 0);
        assert(s =~= Seq::<usize>::empty());
        lemma_tally_empty(one(), n);
    } else {
        let t = s.drop_last();
        assert forall|a: int| 0 <= a < t.len() implies #[trigger] t[a] < n by {
            assert(t[a] == s[a]);
        }
        lemma_count(t, n);
        lemma_step(s, s.len() - 1, one(), n);
        assert(s.take(s.len() - 1) =~= t);
        assert(s.take(s.len() as int) =~= s);
    }
}

/// The members of the first `a + 1` of a list, and the sum of `f` over them.
proof fn lemma_step(s: Seq<usize>, a: int, f: spec_fn(int) -> int, n: nat)
    requires
        s.no_duplicates(),
        0 <= a < s.len(),
        s[a] < n,
    ensures
        members(s.take(a + 1)) == members(s.take(a)).insert(s[a] as int),
        tally(members(s.take(a + 1)), f, n) == tally(members(s.take(a)), f, n) + f(s[a] as int),
{
    let t = s.take(a);
    let v = s[a];
    assert(s.take(a + 1) =~= t.push(v));
    lemma_members_push(t, v);
    if listed(t, v as int) {
        let b = choose|b: int| 0 <= b < t.len() && #[trigger] t[b] == v;
        assert(s[b] == v);
    }
    lemma_tally_insert(members(t), f, v as int, n);
}

/// The sums of the columns and of the rows of the pixels.
fn sums(out: &Vec<usize>, w: usize, Ghost(n): Ghost<nat>) -> (r: (u64, u64))
    requires
        w > 0,
        n <= 0xFFFF_FFFF,
        out@.no_duplicates(),
        forall|a: int| 0 <= a < out@.len() ==> #[trigger] out@[a] < n,
        out@.len() <= n,
    ensures
        r.0 == tally(members(out@), column(w as int), n),
        r.1 == tally(members(out@), row(w as int), n),
        r.0 <= out@.len() * 0xFFFF_FFFF,
        r.1 <= out@.len() * 0xFFFF_FFFF,
{
    let mut sx: u64 = 0;
    let mut sy: u64 = 0;
    let count: usize = out.len();
    proof {
        lemma_members_push(out@.take(0), 0);
        assert(out@.take(0) =~= Seq::<usize>::empty());
        lemma_tally_empty(column(w as int), n);
        lemma_tally_empty(row(w as int), n);
    }
    for a in 0..count
        invariant
            w > 0,
            n <= 0xFFFF_FFFF,
            count == out@.len(),
            count <= n,
            out@.no_duplicates(),
            forall|b: int| 0 <= b < out@.len() ==> #[trigger] out@[b] < n,
            sx == tally(members(out@.take(a as int)), column(w as int), n),
            sy == tally(members(out@.take(a as int)), row(w as int), n),
            sx <= a * 0xFFFF_FFFF,
            sy <= a * 0xFFFF_FFFF,
    {
        let i: usize = out[a];
        proof {
            lemma_step(out@, a as int, column(w as int), n);
            lemma_step(out@, a as int, row(w as int), n);
            vstd::arithmetic::div_mod::lemma_mod_decreases(i as nat, w as nat);
            vstd::arithmetic::div_mod::lemma_div_is_ordered_by_denominator(i as int, 1, w as int);
        }
        sx = sx + (i % w) as u64;
        sy = sy + (i / w) as u64;
    }
    assert(out@.take(count as int) =~= out@);
    (sx, sy)
}

/// The rows, or the columns, of the pixels of a list added up in doubles.
fn running_sum(out: &Vec<usize>, w: usize, rows: bool, Ghost(n): Ghost<nat>) -> (r: u128)
    requires
        w > 0,
        n <= 0xFFFF_FFFF,
        forall|a: int| 0 <= a < out@.len() ==> #[trigger] out@[a] < n,
        out@.len() <= n,
    ensures
        ({
            let f = if rows {
                row(w as int)
            } else {
                column(w as int)
            };
            r == added_up(numbers(out@), f, out@.len())
        }),
        r <= out@.len() * 0x2_0000_0000,
{
    let ghost f = if rows { row(w as int) } else { column(w as int) };
    let ghost s = numbers(out@);
    let mut r: u128 = 0;
    proof {
        assert forall|a: int| 0 <= a < s.len() implies 0 <= f(#[trigger] s[a]) <= 0xFFFF_FFFF by {
            assert(out@[a] < n);
            vstd::arithmetic::div_mod::lemma_mod_decreases(out@[a] as nat, w as nat);
            vstd::arithmetic::div_mod::lemma_div_is_ordered_by_denominator(
                out@[a] as int,
                1,
                w as int,
            );
        }
    }
    for a in 0..out.len()
        invariant
            w > 0,
            f == (if rows {
                row(w as int)
            } else {
                column(w as int)
            }),
            s == numbers(out@),
            out@.len() <= n <= 0xFFFF_FFFF,
            forall|b: int| 0 <= b < s.len() ==> 0 <= f(#[trigger] s[b]) <= 0xFFFF_FFFF,
            r == added_up(s, f, a as nat),
            r <= a * 0x2_0000_0000,
    {
        let i: usize = out[a];
        assert(s[a as int] == i);
        let x: u128 = if rows {
            (i / w) as u128
        } else {
            (i % w) as u128
        };
        proof {
            assert(x == f(s[a as int]));
            lemma2_to64();
            lemma_pow2_adds(64, 2);
            lemma_added_bound(s, f, (a + 1) as nat);
        }
        r = to_double(r + x);
    }
    r
}

/// The sum of the rows, or of the columns, as doubles hold it.
fn held_sum(out: &Vec<usize>, w: usize, rows: bool, sum: u64, Ghost(n): Ghost<nat>) -> (r: u128)
    requires
        w > 0,
        n <= 0xFFFF_FFFF,
        forall|a: int| 0 <= a < out@.len() ==> #[trigger] out@[a] < n,
        out@.len() <= n,
        numbers(out@) == walked(members(out@), w as int, n),
        sum <= out@.len() * 0xFFFF_FFFF,
        sum == tally(
            members(out@),
            if rows {
                row(w as int)
            } else {
                column(w as int)
            },
            n,
        ),
    ensures
        r == double_sum(
            members(out@),
            if rows {
                row(w as int)
            } else {
                column(w as int)
            },
            w as int,
            n,
        ),
        r <= out@.len() * 0x2_0000_0000,
{
    proof {
        lemma2_to64_rest();
    }
    if sum < 0x20_0000_0000_0000 {
        sum as u128
    } else {
        running_sum(out, w, rows, Ghost(n))
    }
}

/// Measures the region whose pixels are listed.
#[verifier::rlimit(40)]
pub fn measure(out: &Vec<usize>, w: usize, Ghost(n): Ghost<nat>) -> (r: Blob)
    requires
        0 < w <= 0xFFFF_FFFF,
        n <= 0xFFFF_FFFF,
        out@.no_duplicates(),
        forall|a: int| 0 <= a < out@.len() ==> #[trigger] out@[a] < n,
        0 < out@.len() <= n,
        numbers(out@) == walked(members(out@), w as int, n),
    ensures
        r.measures(members(out@), w as int, n),
{
    let (sx, sy) = sums(out, w, Ghost(n));
    let count: usize = out.len();
    let ghost set = members(out@);
    let ghost wi = w as int;
    let tx: u128 = held_sum(out, w, false, sx, Ghost(n));
    let ty: u128 = held_sum(out, w, true, sy, Ghost(n));
    proof {
        lemma2_to64_rest();
        assert(tx < pow2(53) * count && ty < pow2(53) * count) by (nonlinear_arith)
            requires
                tx <= count * 0x2_0000_0000,
                ty <= count * 0x2_0000_0000,
                pow2(53) == 0x20_0000_0000_0000,
                count > 0,
        ;
    }
    let cx: Single = mean(tx, count as u32);
    let cy: Single = mean(ty, count as u32);
    proof {
        lemma_count(out@, n);
        lemma_mean_is_finite(tx as int, count as int);
        lemma_mean_is_finite(ty as int, count as int);
        vstd::arithmetic::div_mod::lemma_mod_decreases(out@[0] as nat, w as nat);
        vstd::arithmetic::div_mod::lemma_div_is_ordered_by_denominator(out@[0] as int, 1, wi);
    }
    let mut rad: Single = pixel_distance(w, out[0], cx, cy);
    let mut left: u32 = (out[0] % w) as u32;
    let mut right: u32 = (out[0] % w) as u32;
    let mut top: u32 = (out[0] / w) as u32;
    let mut bottom: u32 = (out[0] / w) as u32;
    proof {
        assert(set.contains(out@[0] as int));
    }
    for a in 1..count
        invariant
            0 < w <= 0xFFFF_FFFF,
            wi == w,
            count == out@.len(),
            set == members(out@),
            n <= 0xFFFF_FFFF,
            forall|b: int| 0 <= b < out@.len() ==> #[trigger] out@[b] < n,
            cx.finite(),
            cy.finite(),
            exists|i: int| #[trigger] set.contains(i) && i % wi == left,
            exists|i: int| #[trigger] set.contains(i) && i % wi == right,
            exists|i: int| #[trigger] set.contains(i) && i / wi == top,
            exists|i: int| #[trigger] set.contains(i) && i / wi == bottom,
            exists|i: int| #[trigger] set.contains(i) && distance(wi, i, cx, cy) == rad,
            forall|b: int| 0 <= b < a ==> left <= (#[trigger] out@[b]) as int % wi <= right,
            forall|b: int| 0 <= b < a ==> top <= (#[trigger] out@[b]) as int / wi <= bottom,
            forall|b: int|
                0 <= b < a ==> {
                    let d = distance(wi, #[trigger] out@[b] as int, cx, cy);
                    d.at_most(rad) && !d.negative()
                },
            !rad.nan(),
            !rad.negative(),
    {
        let i: usize = out[a];
        let dd: Single = pixel_distance(w, i, cx, cy);
        proof {
            assert(set.contains(i as int)) by {
                assert(out@[a as int] == i);
            }
            vstd::arithmetic::div_mod::lemma_mod_decreases(i as nat, w as nat);
            vstd::arithmetic::div_mod::lemma_div_is_ordered_by_denominator(i as int, 1, wi);
        }
        let x: u32 = (i % w) as u32;
        let y: u32 = (i / w) as u32;
        if x < left {
            left = x;
        }
        if right < x {
            right = x;
        }
        if y < top {
            top = y;
        }
        if bottom < y {
            bottom = y;
        }
        if rad.lt(dd) {
            rad = dd;
        }
    }
    proof {
        assert forall|i: int| #[trigger] set.contains(i) implies left <= column(wi)(i) <= right
            && top <= row(wi)(i) <= bottom && distance(wi, i, cx, cy).at_most(rad) && !distance(
            wi,
            i,
            cx,
            cy,
        ).negative() by {
            let b = choose|b: int| 0 <= b < out@.len() && #[trigger] out@[b] == i;
            assert(left <= out@[b] as int % wi);
        }
        let f = column(wi);
        let g = row(wi);
        let i1 = choose|i: int| #[trigger] set.contains(i) && i % wi == left;
        assert(set.contains(i1) && f(i1) == left);
        let i2 = choose|i: int| #[trigger] set.contains(i) && i % wi == right;
        assert(set.contains(i2) && f(i2) == right);
        let i3 = choose|i: int| #[trigger] set.contains(i) && i / wi == top;
        assert(set.contains(i3) && g(i3) == top);
        let i4 = choose|i: int| #[trigger] set.contains(i) && i / wi == bottom;
        assert(set.contains(i4) && g(i4) == bottom);
        lemma_least(set, f, left as int);
        lemma_least(set, g, top as int);
        lemma_greatest(set, f, right as int);
        lemma_greatest(set, g, bottom as int);
        assert(is_reach(set, wi, cx, cy, rad));
        let d = reach(set, wi, cx, cy);
        assert(is_reach(set, wi, cx, cy, d));
        let j = choose|j: int| #[trigger] set.contains(j) && distance(wi, j, cx, cy) == d;
        let k = choose|k: int| #[trigger] set.contains(k) && distance(wi, k, cx, cy) == rad;
        assert(distance(wi, j, cx, cy).at_most(rad));
        assert(distance(wi, k, cx, cy).at_most(d));
        assert(d == rad);
    }
    Blob { cx, cy, rad, left, top, right, bottom }
}

} // verus!
