//! Rectangles of a plane of numbers: their sums and their extremes.

use vstd::prelude::*;
use vstd::arithmetic::div_mod::{lemma_fundamental_div_mod, lemma_mod_bound};
use crate::detail::{blocks_hold_the_raster, parts};
use crate::numbers::ZERO;
use crate::single::{num, Single};

verus! {

/// The largest finite number.
pub const LARGEST: u32 = 0x7F7F_FFFF;

/// The least finite number.
pub const LEAST: u32 = 0xFF7F_FFFF;

/// A rectangle of `cw` times `ch` pixels at `(x, y)`, in rows of `w`.
#[derive(Clone, Copy, Debug)]
pub struct Rect {
    pub w: usize,
    pub x: usize,
    pub y: usize,
    pub cw: usize,
    pub ch: usize,
}

impl Rect {
    /// Which pixel of the plane is the `k`th of the rectangle, row by row.
    pub open spec fn pixel(self, k: int) -> int {
        (self.y + k / self.cw as int) * self.w + (self.x + k % self.cw as int)
    }

    pub open spec fn size(self) -> nat {
        (self.cw * self.ch) as nat
    }

    /// The rectangle lies in a plane of `n` pixels.
    pub open spec fn inside(self, n: int) -> bool {
        &&& 0 < self.cw
        &&& 0 < self.ch
        &&& self.x + self.cw <= self.w
        &&& (self.y + self.ch) * self.w <= n <= usize::MAX
    }

    /// The sum of its first `k` pixels.
    pub open spec fn sum(self, plane: Seq<Single>, k: nat) -> Single
        decreases k,
    {
        if k == 0 {
            num(ZERO)
        } else {
            self.sum(plane, (k - 1) as nat).sum(plane[self.pixel(k - 1)])
        }
    }

    /// The least of its first `k` pixels.
    pub open spec fn lowest(self, plane: Seq<Single>, k: nat) -> Single
        decreases k,
    {
        if k == 0 {
            num(LARGEST)
        } else {
            self.lowest(plane, (k - 1) as nat).smaller(plane[self.pixel(k - 1)])
        }
    }

    /// The greatest of its first `k` pixels.
    pub open spec fn highest(self, plane: Seq<Single>, k: nat) -> Single
        decreases k,
    {
        if k == 0 {
            num(LEAST)
        } else {
            self.highest(plane, (k - 1) as nat).larger(plane[self.pixel(k - 1)])
        }
    }
}

/// A pixel of a rectangle is one of the plane.
proof fn lemma_pixel(r: Rect, n: int, k: int)
    requires
        r.inside(n),
        0 <= k < r.size(),
    ensures
        0 <= r.pixel(k) < n,
        0 <= k / r.cw as int <= r.ch - 1,
        0 <= k % r.cw as int <= r.cw - 1,
        (r.y + k / r.cw as int) * r.w <= r.pixel(k),
{
    let cw = r.cw as int;
    let row = k / cw;
    let col = k % cw;
    lemma_fundamental_div_mod(k, cw);
    lemma_mod_bound(k, cw);
    assert(0 <= row < r.ch) by (nonlinear_arith)
        requires
            k == cw * row + col,
            0 <= col < cw,
            0 <= k < cw * r.ch,
            cw > 0,
    ;
    assert((r.y + row) * r.w + (r.x + col) < (r.y + r.ch) * r.w) by (nonlinear_arith)
        requires
            row <= r.ch - 1,
            r.x + col < r.w,
            r.y >= 0,
            row >= 0,
    ;
    assert((r.y + row) * r.w >= 0) by (nonlinear_arith)
        requires
            r.y >= 0,
            row >= 0,
            r.w >= 0,
    ;
}

proof fn lemma_size(r: Rect, n: int)
    requires
        r.inside(n),
    ensures
        r.size() <= n,
{
    assert(r.cw * r.ch <= (r.y + r.ch) * r.w) by (nonlinear_arith)
        requires
            0 < r.cw <= r.w,
            0 < r.ch,
            r.y >= 0,
    ;
}

fn index(r: &Rect, k: usize, n: usize) -> (i: usize)
    requires
        r.inside(n as int),
        k < r.size(),
    ensures
        i == r.pixel(k as int),
        i < n,
{
    proof {
        lemma_pixel(*r, n as int, k as int);
        assert(r.y + r.ch <= usize::MAX) by (nonlinear_arith)
            requires
                (r.y + r.ch) * r.w <= usize::MAX,
                r.w >= 1,
        ;
    }
    (r.y + k / r.cw) * r.w + (r.x + k % r.cw)
}

/// The sum of a rectangle's pixels.
pub fn total(plane: &Vec<Single>, r: &Rect) -> (t: Single)
    requires
        r.inside(plane@.len() as int),
    ensures
        t == r.sum(plane@, r.size()),
{
    proof {
        lemma_size(*r, plane@.len() as int);
    }
    let n: usize = plane.len();
    let count: usize = r.cw * r.ch;
    let mut t: Single = Single::from_bits(ZERO);
    for k in 0..count
        invariant
            count == r.size(),
            n == plane@.len(),
            r.inside(n as int),
            t == r.sum(plane@, k as nat),
    {
        t = t.plus(plane[index(r, k, n)]);
    }
    t
}

/// The least and the greatest of a rectangle's pixels.
pub fn extremes(plane: &Vec<Single>, r: &Rect) -> (t: (Single, Single))
    requires
        r.inside(plane@.len() as int),
    ensures
        t.0 == r.lowest(plane@, r.size()),
        t.1 == r.highest(plane@, r.size()),
{
    proof {
        lemma_size(*r, plane@.len() as int);
    }
    let n: usize = plane.len();
    let count: usize = r.cw * r.ch;
    let mut lo: Single = Single::from_bits(LARGEST);
    let mut hi: Single = Single::from_bits(LEAST);
    for k in 0..count
        invariant
            count == r.size(),
            n == plane@.len(),
            r.inside(n as int),
            lo == r.lowest(plane@, k as nat),
            hi == r.highest(plane@, k as nat),
    {
        let v: Single = plane[index(r, k, n)];
        lo = lo.min(v);
        hi = hi.max(v);
    }
    (lo, hi)
}

/// The part of a plane next to a pixel: the pixel and its neighbours.
pub open spec fn around(x: int, y: int, w: int, h: int) -> Rect {
    let x0 = if x > 0 { x - 1 } else { 0 };
    let y0 = if y > 0 { y - 1 } else { 0 };
    let x1 = if x + 2 < w { x + 2 } else { w };
    let y1 = if y + 2 < h { y + 2 } else { h };
    Rect {
        w: w as usize,
        x: x0 as usize,
        y: y0 as usize,
        cw: (x1 - x0) as usize,
        ch: (y1 - y0) as usize,
    }
}

/// How far the brightest of a pixel and its neighbours is above the darkest.
pub fn contrast_around(plane: &Vec<Single>, x: usize, y: usize, w: usize, h: usize) -> (r: Single)
    requires
        x < w,
        y < h,
        plane@.len() == w * h,
    ensures
        r == ({
            let a = around(x as int, y as int, w as int, h as int);
            a.highest(plane@, a.size()).difference(a.lowest(plane@, a.size()))
        }),
{
    let x0: usize = if x > 0 {
        x - 1
    } else {
        0
    };
    let y0: usize = if y > 0 {
        y - 1
    } else {
        0
    };
    let x1: usize = if w - x > 2 {
        x + 2
    } else {
        w
    };
    let y1: usize = if h - y > 2 {
        y + 2
    } else {
        h
    };
    let a: Rect = Rect { w, x: x0, y: y0, cw: x1 - x0, ch: y1 - y0 };
    let n: usize = plane.len();
    proof {
        assert(n == w * h);
        assert((a.y + a.ch) * w <= w * h) by (nonlinear_arith)
            requires
                a.y + a.ch <= h,
                w >= 0,
        ;
    }
    let (lo, hi) = extremes(plane, &a);
    hi.minus(lo)
}

/// One of the blocks of `s` times `s` pixels that a plane is cut into, row by row.
/// Those at its right and lower edge hold what is left.
pub open spec fn block(i: int, w: int, h: int, s: int) -> Rect {
    let x = (i % parts(w, s)) * s;
    let y = (i / parts(w, s)) * s;
    Rect {
        w: w as usize,
        x: x as usize,
        y: y as usize,
        cw: (if w - x < s { w - x } else { s }) as usize,
        ch: (if h - y < s { h - y } else { s }) as usize,
    }
}

/// The mean of a block.
pub open spec fn block_mean(plane: Seq<Single>, i: int, w: int, h: int, s: int) -> Single {
    let b = block(i, w, h, s);
    b.sum(plane, b.size()).quotient(Single::of_whole(b.size() as int))
}

/// The means of the blocks of a plane.
pub fn block_means(plane: &Vec<Single>, w: usize, h: usize, s: usize) -> (r: Vec<Single>)
    requires
        0 < w,
        0 < h,
        0 < s,
        w + s <= usize::MAX,
        h + s <= usize::MAX,
        plane@.len() == w * h,
    ensures
        r@.len() == parts(w as int, s as int) * parts(h as int, s as int),
        forall|i: int|
            0 <= i < r@.len() ==> #[trigger] r@[i] == block_mean(
                plane@,
                i,
                w as int,
                h as int,
                s as int,
            ),
{
    let n: usize = plane.len();
    let across: usize = (w + s - 1) / s;
    let down: usize = (h + s - 1) / s;
    proof {
        assert(n == w * h);
        lemma_parts_fit(w as int, s as int);
        lemma_parts_fit(h as int, s as int);
        assert(across * down <= w * h) by (nonlinear_arith)
            requires
                0 <= across <= w,
                0 <= down <= h,
        ;
    }
    let mut r: Vec<Single> = Vec::new();
    let count: usize = across * down;
    for i in 0..count
        invariant
            0 < w,
            0 < h,
            0 < s,
            n == w * h,
            plane@.len() == n,
            across == parts(w as int, s as int),
            down == parts(h as int, s as int),
            0 < across <= w,
            0 < down <= h,
            count == across * down,
            w + s <= usize::MAX,
            h + s <= usize::MAX,
            r@.len() == i,
            forall|j: int|
                0 <= j < i ==> #[trigger] r@[j] == block_mean(
                    plane@,
                    j,
                    w as int,
                    h as int,
                    s as int,
                ),
    {
        let lx: usize = i % across;
        let ly: usize = i / across;
        proof {
            lemma_fundamental_div_mod(i as int, across as int);
            lemma_mod_bound(i as int, across as int);
            assert(ly < down) by (nonlinear_arith)
                requires
                    i == across * ly + lx,
                    0 <= lx < across,
                    i < across * down,
                    ly >= 0,
            ;
            lemma_block_starts(lx as int, w as int, s as int);
            lemma_block_starts(ly as int, h as int, s as int);
        }
        let x: usize = lx * s;
        let y: usize = ly * s;
        let b: Rect = Rect {
            w,
            x,
            y,
            cw: if w - x < s {
                w - x
            } else {
                s
            },
            ch: if h - y < s {
                h - y
            } else {
                s
            },
        };
        proof {
            assert((b.y + b.ch) * w <= w * h) by (nonlinear_arith)
                requires
                    b.y + b.ch <= h,
                    w >= 0,
            ;
            lemma_size(b, n as int);
        }
        let size: usize = b.cw * b.ch;
        let mean: Single = total(plane, &b).over(Single::from_u64(size as u64));
        r.push(mean);
    }
    r
}

proof fn lemma_parts_fit(n: int, s: int)
    requires
        n > 0,
        s > 0,
    ensures
        0 < parts(n, s) <= n,
{
    lemma_fundamental_div_mod(n + s - 1, s);
    lemma_mod_bound(n + s - 1, s);
    let q = parts(n, s);
    assert(0 < q <= n) by (nonlinear_arith)
        requires
            n + s - 1 == s * q + (n + s - 1) % s,
            0 <= (n + s - 1) % s < s,
            n > 0,
            s > 0,
    ;
}

/// Every block begins inside of the plane.
proof fn lemma_block_starts(k: int, n: int, s: int)
    requires
        n > 0,
        s > 0,
        0 <= k < parts(n, s),
    ensures
        0 <= k * s < n,
{
    blocks_hold_the_raster(n, s);
    assert(0 <= k * s <= (parts(n, s) - 1) * s) by (nonlinear_arith)
        requires
            0 <= k <= parts(n, s) - 1,
            s > 0,
    ;
}

} // verus!
