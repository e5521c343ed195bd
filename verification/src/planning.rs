//! What a plan makes of the regions of a mask, and what a plane is cut into.

use vstd::prelude::*;
use vstd::arithmetic::div_mod::{
    lemma_fundamental_div_mod, lemma_fundamental_div_mod_converse, lemma_mod_bound,
};
use crate::blobs::{one, tally};
use crate::detail::parts;
use crate::painted::{budget_note, leads, plan, planned, spot_of, PaintedMask};
use crate::patches::{around, block, Rect};
use crate::reals::{real_of, size, size_is_not_below, within};
use crate::regions::region;
use crate::retouch::{cloned_spot, run_notes, run_spots, Detection};
use crate::single::Single;
use crate::spots::{NoteView, SpotView};
use crate::wayback::lemma_rounded_difference;

verus! {

broadcast use size_is_not_below;

/// Pixel `k` leads a region of six pixels or more.
pub open spec fn leads_a_region(p: Seq<bool>, w: int, h: int, k: int) -> bool {
    leads(p, w, k) && tally(region(p, w, k), one(), (w * h) as nat) >= 6
}

/// How many regions of six pixels or more begin at the first `k` pixels.
pub open spec fn regions_before(p: Seq<bool>, w: int, h: int, k: nat) -> nat
    decreases k,
{
    if k == 0 {
        0
    } else {
        regions_before(p, w, h, (k - 1) as nat) + if leads_a_region(p, w, h, k - 1) {
            1nat
        } else {
            0nat
        }
    }
}

/// Every region of six pixels or more is planned or counted as passed over, and nothing
/// else is; a note names both numbers if and only if some were passed over.
pub proof fn a_plan_accounts_for_every_region(p: Seq<bool>, w: int, h: int)
    requires
        p.len() <= u32::MAX,
    ensures
        ({
            let q = plan(p, w, h);
            let all = regions_before(p, w, h, p.len());
            &&& q.spots.len() + q.skipped == all
            &&& q.spots.len() == all ==> budget_note(q) is None
            &&& q.spots.len() < all ==> budget_note(q) == Some(
                NoteView::Budget { planned: q.spots.len(), total: all },
            )
        }),
{
    lemma_accounts(p, w, h, p.len());
}

proof fn lemma_accounts(p: Seq<bool>, w: int, h: int, k: nat)
    ensures
        planned(p, w, h, k).spots.len() + planned(p, w, h, k).skipped == regions_before(p, w, h, k),
    decreases k,
{
    if k > 0 {
        lemma_accounts(p, w, h, (k - 1) as nat);
    }
}

/// Where no region is passed over, every region of six pixels or more has its spot, in the
/// order in which the regions begin.
pub proof fn a_plan_heals_every_region(p: Seq<bool>, w: int, h: int, k: nat, i: int)
    requires
        planned(p, w, h, k).skipped == 0,
        0 <= i < k,
        leads_a_region(p, w, h, i),
    ensures
        ({
            let s = planned(p, w, h, k).spots;
            let n = regions_before(p, w, h, i as nat) as int;
            &&& n < s.len()
            &&& s[n] == spot_of(region(p, w, i), w, h)
        }),
    decreases k,
{
    lemma_accounts(p, w, h, (k - 1) as nat);
    if i < k - 1 {
        a_plan_heals_every_region(p, w, h, (k - 1) as nat, i);
    }
}

/// A plan that goes on only adds to what it has: a spot once planned stays where it is.
pub proof fn a_plan_only_grows(p: Seq<bool>, w: int, h: int, i: nat, k: nat)
    requires
        i <= k,
    ensures
        planned(p, w, h, i).spots.len() <= planned(p, w, h, k).spots.len(),
        planned(p, w, h, i).spots == planned(p, w, h, k).spots.take(
            planned(p, w, h, i).spots.len() as int,
        ),
        planned(p, w, h, i).skipped <= planned(p, w, h, k).skipped,
    decreases k,
{
    let a = planned(p, w, h, i).spots;
    if i < k {
        a_plan_only_grows(p, w, h, i, (k - 1) as nat);
        let b = planned(p, w, h, (k - 1) as nat).spots;
        let c = planned(p, w, h, k).spots;
        assert(c.take(a.len() as int) =~= b.take(a.len() as int));
    } else {
        assert(a =~= a.take(a.len() as int));
    }
}

/// The clone stamp copies from the point that was picked: from the middle of a target its
/// donor is reached by the way from the middle to that point. Nothing is toned, and the
/// place, the size and the paint of the target stay.
pub proof fn a_clone_is_taken_from_the_point(s: SpotView, source: (Single, Single))
    requires
        s.cx.finite() && size(real_of(s.cx)) <= 2real,
        s.cy.finite() && size(real_of(s.cy)) <= 2real,
        source.0.finite() && size(real_of(source.0)) <= 2real,
        source.1.finite() && size(real_of(source.1)) <= 2real,
    ensures
        ({
            let c = cloned_spot(s, source);
            &&& c.source is Some
            &&& within((c.source->0).0, real_of(source.0) - real_of(s.cx), 1real / 1000000real)
            &&& within((c.source->0).1, real_of(source.1) - real_of(s.cy), 1real / 1000000real)
            &&& c.clone_raw
            &&& c.cx == s.cx && c.cy == s.cy && c.radius == s.radius
            &&& c.coverage == s.coverage
        }),
{
    assert(size(real_of(source.0) - real_of(s.cx)) <= 4real && size(
        real_of(source.1) - real_of(s.cy),
    ) <= 4real) by {
        reveal(size);
    }
    lemma_rounded_difference(source.0, s.cx);
    lemma_rounded_difference(source.1, s.cy);
}

/// A pixel of the plane lies in a rectangle.
pub open spec fn lies_in(r: Rect, x: int, y: int) -> bool {
    r.x <= x < r.x + r.cw && r.y <= y < r.y + r.ch
}

/// What is next to a pixel is the pixel and those that touch it, as far as the plane goes.
pub proof fn a_pixel_is_next_to_what_touches_it(x: int, y: int, w: int, h: int, a: int, b: int)
    requires
        0 <= x < w <= 0x7FFF_FFFF,
        0 <= y < h <= 0x7FFF_FFFF,
    ensures
        lies_in(around(x, y, w, h), a, b) <==> 0 <= a < w && 0 <= b < h && -1 <= a - x <= 1 && -1 <= b
            - y <= 1,
        around(x, y, w, h).w == w,
{
}

/// A plane is cut into blocks without a gap and without an overlap: a pixel lies in the
/// block in whose row and column of blocks it stands, and in no other.
pub proof fn a_pixel_lies_in_one_block(x: int, y: int, w: int, h: int, s: int, i: int)
    requires
        0 <= x < w <= 0x7FFF_FFFF,
        0 <= y < h <= 0x7FFF_FFFF,
        0 < s <= 0x7FFF_FFFF,
        0 <= i < parts(w, s) * parts(h, s),
    ensures
        lies_in(block(i, w, h, s), x, y) <==> i == (y / s) * parts(w, s) + x / s,
{
    let n = parts(w, s);
    let m = parts(h, s);
    lemma_parts(w, s);
    lemma_parts(h, s);
    let (c, r) = (i % n, i / n);
    lemma_fundamental_div_mod(i, n);
    lemma_mod_bound(i, n);
    assert(n * r == r * n) by (nonlinear_arith);
    assert(0 <= r < m) by (nonlinear_arith)
        requires
            i == r * n + c,
            0 <= c < n,
            0 <= i < n * m,
    ;
    lemma_in_strip(c, s, w, x);
    lemma_in_strip(r, s, h, y);
    lemma_strip(c, s, n, w);
    lemma_strip(r, s, m, h);
    if i == (y / s) * n + x / s {
        lemma_inside(x, s, w, n);
        lemma_fundamental_div_mod_converse(i, n, y / s, x / s);
    }
}

proof fn lemma_parts(n: int, s: int)
    requires
        n > 0,
        s > 0,
    ensures
        parts(n, s) > 0,
        (parts(n, s) - 1) * s < n <= parts(n, s) * s,
{
    let k = parts(n, s);
    lemma_fundamental_div_mod(n + s - 1, s);
    lemma_mod_bound(n + s - 1, s);
    assert(s * k == k * s) by (nonlinear_arith);
    assert((k - 1) * s == k * s - s) by (nonlinear_arith);
    assert(k > 0) by (nonlinear_arith)
        requires
            n <= k * s,
            n > 0,
            s > 0,
    ;
}

proof fn lemma_strip(c: int, s: int, n: int, w: int)
    requires
        0 <= c < n,
        s > 0,
        (n - 1) * s < w,
    ensures
        0 <= c * s < w,
{
    assert(0 <= c * s && c * s <= (n - 1) * s) by (nonlinear_arith)
        requires
            0 <= c <= n - 1,
            s > 0,
    ;
}

/// A number lies in the `c`-th strip if and only if so many strips go into it.
proof fn lemma_in_strip(c: int, s: int, w: int, x: int)
    requires
        0 < s,
        0 <= x < w,
        0 <= c,
    ensures
        (c * s <= x && x < c * s + s) <==> c == x / s,
{
    if c * s <= x && x < c * s + s {
        lemma_fundamental_div_mod_converse(x, s, c, x - c * s);
    }
    if c == x / s {
        lemma_fundamental_div_mod(x, s);
        lemma_mod_bound(x, s);
        assert(s * c == c * s) by (nonlinear_arith);
    }
}

proof fn lemma_inside(x: int, s: int, w: int, n: int)
    requires
        0 <= x < w,
        0 < s,
        w <= n * s,
    ensures
        0 <= x / s < n,
{
    lemma_fundamental_div_mod(x, s);
    lemma_mod_bound(x, s);
    let k = x / s;
    assert(0 <= k < n) by (nonlinear_arith)
        requires
            x == s * k + x % s,
            0 <= x % s < s,
            0 <= x < n * s,
            0 < s,
    ;
}

/// A run heals what was detected before what was painted, and says first that detection
/// failed.
pub proof fn a_run_begins_with_what_was_detected(
    mask: Option<&PaintedMask>,
    detection: Detection,
)
    ensures
        ({
            let s = run_spots(mask, detection);
            let d = detection.found();
            let m = run_spots(mask, Detection::Off);
            &&& s.take(d.len() as int) == d
            &&& s.skip(d.len() as int) == m
            &&& run_spots(None, detection) == d
        }),
        detection is Failed ==> run_notes(mask, detection).len() > 0 && run_notes(mask, detection)[0]
            is DetectFailed,
        mask is None && !(detection is Failed) ==> run_notes(mask, detection).len() == 0,
{
    let s = run_spots(mask, detection);
    let d = detection.found();
    assert(s.take(d.len() as int) =~= d);
    assert(s.skip(d.len() as int) =~= run_spots(mask, Detection::Off));
    assert(run_spots(None, detection) =~= d);
}

} // verus!
