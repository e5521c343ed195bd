//! From a painted mask to the spots that heal it.

use vstd::prelude::*;
use vstd::arithmetic::div_mod::{
    lemma_fundamental_div_mod, lemma_fundamental_div_mod_converse, lemma_mod_bound,
};
use vstd::string::*;
use crate::bits::Bits;
use crate::blobs::{
    column, greatest, is_greatest, is_least, least, lemma_count, measure, middle, one, reach, row,
    tally, Blob,
};
use crate::numbers::{ELEVEN_TENTHS, HALF, ONE, TWO, TWO_FIFTHS};
use crate::regions::{
    adjacent, closed_under, flood, joined, lemma_distinct_bound, linked, listed, members, region,
};
use crate::single::{num, Single};
use crate::spots::{
    all_well_formed, spot_views, CoverageView, HealNote, HealSpot, NoteView, SpotCoverage, SpotView,
    MAX_BBOX_COVERAGE, MAX_DISK_COVERAGE, MAX_PAINTED_SPOTS,
};
use crate::walk::{first_pixel, lemma_first, numbers, walked};

verus! {

/// The opacity of each pixel of a mask, row by row. Where it is below 128 the
/// mask is painted: heal here.
pub struct PaintedMask {
    pub width: u32,
    pub height: u32,
    pub alpha: Vec<u8>,
}

impl PaintedMask {
    pub open spec fn well_formed(self) -> bool {
        self.alpha@.len() == self.width * self.height
    }
}

/// Which pixels are painted.
pub open spec fn painted(alpha: Seq<u8>) -> Seq<bool> {
    Seq::new(alpha.len(), |i: int| alpha[i] < 128)
}

/// Pixel `k` is the first of its region.
pub open spec fn leads(p: Seq<bool>, w: int, k: int) -> bool {
    p[k] && forall|j: int| 0 <= j < k ==> !joined(p, w, j, k)
}

/// The smallest regions that are healed: what is smaller is a stray dot.
pub const SMALLEST_REGION: usize = 6;

/// The pixels of `r` in the rectangle of `cw` times `ch` pixels at
/// `(left, top)`.
pub open spec fn covered(r: Set<int>, w: int, left: int, top: int, cw: int, ch: int) -> Seq<bool> {
    Seq::new((cw * ch) as nat, |k: int| r.contains((top + k / cw) * w + (left + k % cw)))
}

/// The radius that a region is healed with, in pixels.
pub open spec fn healed_radius(r: Set<int>, w: int, n: nat) -> Single {
    reach(r, w, middle(r, column(w), w, n), middle(r, row(w), w, n)).product(num(ELEVEN_TENTHS)).larger(
        num(TWO),
    )
}

/// The short side of the mask.
pub open spec fn short_side(w: int, h: int) -> Single {
    Single::of_whole(
        if w <= h {
            w
        } else {
            h
        },
    )
}

/// How many pixels the rectangle around a region has.
pub open spec fn bbox_of(r: Set<int>, w: int) -> int {
    (greatest(r, column(w)) - least(r, column(w)) + 1) * (greatest(r, row(w)) - least(r, row(w))
        + 1)
}

/// How many pixels the square around a region's disk has, where the disk is
/// kept to half of the short side.
pub open spec fn disk_of(r: Set<int>, w: int, h: int) -> int {
    let kept = healed_radius(r, w, (w * h) as nat).smaller(num(HALF).product(short_side(w, h)));
    let d = num(TWO).product(kept).sum(num(ONE)).cast(0, u64::MAX as int);
    d * d
}

/// The spot that heals a region.
pub open spec fn spot_of(r: Set<int>, w: int, h: int) -> SpotView {
    let n = (w * h) as nat;
    let left = least(r, column(w));
    let top = least(r, row(w));
    let cw = greatest(r, column(w)) - left + 1;
    let ch = greatest(r, row(w)) - top + 1;
    SpotView {
        cx: middle(r, column(w), w, n).quotient(Single::of_whole(w)),
        cy: middle(r, row(w), w, n).quotient(Single::of_whole(h)),
        radius: healed_radius(r, w, n).quotient(short_side(w, h)),
        feather: num(TWO_FIFTHS),
        source: None,
        coverage: Some(
            CoverageView {
                mask_width: w as u32,
                mask_height: h as u32,
                x: left as u32,
                y: top as u32,
                width: cw as u32,
                height: ch as u32,
                bits: covered(r, w, left, top, cw, ch),
            },
        ),
        clone_raw: false,
        label: "painted"@,
    }
}

/// The regions planned so far, those passed over, and what the planned ones
/// spend.
pub struct Planned {
    pub spots: Seq<SpotView>,
    pub skipped: nat,
    pub bbox: int,
    pub disk: int,
}

impl Planned {
    /// With one region more: planned if it is no stray dot and fits the budgets.
    pub open spec fn with_region(self, r: Set<int>, w: int, h: int) -> Planned {
        if tally(r, one(), (w * h) as nat) < SMALLEST_REGION {
            self
        } else if self.spots.len() >= MAX_PAINTED_SPOTS || self.bbox + bbox_of(r, w)
            > MAX_BBOX_COVERAGE * (w * h) || self.disk + disk_of(r, w, h) > MAX_DISK_COVERAGE * (w
            * h) {
            Planned { skipped: self.skipped + 1, ..self }
        } else {
            Planned {
                spots: self.spots.push(spot_of(r, w, h)),
                skipped: self.skipped,
                bbox: self.bbox + bbox_of(r, w),
                disk: self.disk + disk_of(r, w, h),
            }
        }
    }
}

/// What the regions plan whose first pixel is one of the first `k`.
pub open spec fn planned(p: Seq<bool>, w: int, h: int, k: nat) -> Planned
    decreases k,
{
    if k == 0 {
        Planned { spots: Seq::empty(), skipped: 0, bbox: 0, disk: 0 }
    } else {
        let before = planned(p, w, h, (k - 1) as nat);
        if leads(p, w, k - 1) {
            before.with_region(region(p, w, k - 1), w, h)
        } else {
            before
        }
    }
}

/// A mask whose pixels have no number of 32 digits is not planned at all.
pub open spec fn plan(p: Seq<bool>, w: int, h: int) -> Planned {
    if p.len() > u32::MAX {
        planned(p, w, h, 0)
    } else {
        planned(p, w, h, p.len())
    }
}

/// A chain begins at a painted pixel.
proof fn lemma_linked_start(p: Seq<bool>, w: int, i: int, j: int, k: nat)
    requires
        linked(p, w, i, j, k),
    ensures
        0 <= i < p.len() && p[i],
    decreases k,
{
    if k > 0 {
        let m = choose|m: int|
            linked(p, w, i, m, (k - 1) as nat) && #[trigger] adjacent(w, m, j);
        lemma_linked_start(p, w, i, m, (k - 1) as nat);
    }
}

/// Two chains make one.
proof fn lemma_linked_chain(p: Seq<bool>, w: int, i: int, j: int, l: int, a: nat, b: nat)
    requires
        linked(p, w, i, j, a),
        linked(p, w, j, l, b),
    ensures
        linked(p, w, i, l, a + b),
    decreases b,
{
    if b > 0 {
        let m = choose|m: int|
            linked(p, w, j, m, (b - 1) as nat) && #[trigger] adjacent(w, m, l);
        lemma_linked_chain(p, w, i, j, m, a, (b - 1) as nat);
        assert(linked(p, w, i, m, (a + b - 1) as nat));
        assert((a + b - 1) as nat == (a + (b - 1) as nat));
    }
}

/// What is joined to a pixel that is joined to `i` is joined to `i`.
pub proof fn lemma_joined_transitive(p: Seq<bool>, w: int, i: int, j: int, l: int)
    requires
        joined(p, w, i, j),
        joined(p, w, j, l),
    ensures
        joined(p, w, i, l),
{
    let a = choose|a: nat| linked(p, w, i, j, a);
    let b = choose|b: nat| linked(p, w, j, l, b);
    lemma_linked_chain(p, w, i, j, l, a, b);
}

/// `i` is marked if and only if a pixel before `k` is joined to it.
spec fn marked(p: Seq<bool>, w: int, seen: Seq<bool>, k: int) -> bool {
    forall|i: int|
        0 <= i < p.len() ==> (#[trigger] seen[i] <==> exists|j: int|
            0 <= j < k && #[trigger] joined(p, w, j, i))
}

/// The place of pixel `i` in a rectangle of `cw` columns at `(left, top)`.
spec fn place(i: int, w: int, left: int, top: int, cw: int) -> int {
    (i / w - top) * cw + (i % w - left)
}

proof fn lemma_place(i: int, w: int, left: int, top: int, cw: int)
    requires
        w > 0,
        0 <= left <= i % w < left + cw,
        0 <= top <= i / w,
    ensures
        place(i, w, left, top, cw) / cw == i / w - top,
        place(i, w, left, top, cw) % cw == i % w - left,
        (top + place(i, w, left, top, cw) / cw) * w + (left + place(i, w, left, top, cw) % cw) == i,
        place(i, w, left, top, cw) >= 0,
{
    let k = place(i, w, left, top, cw);
    lemma_fundamental_div_mod_converse(k, cw, i / w - top, i % w - left);
    lemma_fundamental_div_mod(i, w);
    assert((i / w) * w == w * (i / w)) by (nonlinear_arith);
    assert(k >= 0) by (nonlinear_arith)
        requires
            k == (i / w - top) * cw + (i % w - left),
            i / w >= top,
            i % w >= left,
            cw > 0,
    ;
}

proof fn lemma_place_back(k: int, w: int, left: int, top: int, cw: int)
    requires
        w > 0,
        cw > 0,
        left >= 0,
        top >= 0,
        left + cw <= w,
        k >= 0,
    ensures
        ({
            let i = (top + k / cw) * w + (left + k % cw);
            place(i, w, left, top, cw) == k
        }),
{
    let i = (top + k / cw) * w + (left + k % cw);
    lemma_fundamental_div_mod(k, cw);
    lemma_mod_bound(k, cw);
    lemma_fundamental_div_mod_converse(i, w, top + k / cw, left + k % cw);
    assert((k / cw) * cw == cw * (k / cw)) by (nonlinear_arith);
}

/// The painted pixels of a region, bit by bit.
#[verifier::rlimit(30)]
fn cover(out: &Vec<usize>, w: usize, h: usize, blob: &Blob) -> (bits: Bits)
    requires
        0 < w <= 0xFFFF_FFFF,
        w * h <= 0xFFFF_FFFF,
        w * h <= usize::MAX,
        forall|a: int| 0 <= a < out@.len() ==> #[trigger] out@[a] < w * h,
        is_least(members(out@), column(w as int), blob.left as int),
        is_least(members(out@), row(w as int), blob.top as int),
        is_greatest(members(out@), column(w as int), blob.right as int),
        is_greatest(members(out@), row(w as int), blob.bottom as int),
        blob.left <= blob.right < w,
        blob.top <= blob.bottom < h,
    ensures
        bits.well_formed(),
        bits@ == covered(
            members(out@),
            w as int,
            blob.left as int,
            blob.top as int,
            blob.right - blob.left + 1,
            blob.bottom - blob.top + 1,
        ),
{
    let cw: usize = (blob.right - blob.left) as usize + 1;
    let ch: usize = (blob.bottom - blob.top) as usize + 1;
    let ghost wi = w as int;
    let ghost left = blob.left as int;
    let ghost top = blob.top as int;
    let ghost r = members(out@);
    proof {
        assert(cw * ch <= w * h) by (nonlinear_arith)
            requires
                0 < cw <= w,
                0 < ch <= h,
        ;
    }
    let mut bits: Bits = Bits::new(cw * ch);
    let count: usize = out.len();
    for a in 0..count
        invariant
            bits.well_formed(),
            bits@.len() == cw * ch,
            count == out@.len(),
            0 < w <= 0xFFFF_FFFF,
            wi == w,
            w * h <= usize::MAX,
            cw == blob.right - blob.left + 1,
            ch == blob.bottom - blob.top + 1,
            left == blob.left,
            top == blob.top,
            cw * ch <= w * h,
            r == members(out@),
            forall|b: int| 0 <= b < out@.len() ==> #[trigger] out@[b] < w * h,
            is_least(r, column(wi), left),
            is_least(r, row(wi), top),
            is_greatest(r, column(wi), blob.right as int),
            is_greatest(r, row(wi), blob.bottom as int),
            forall|k: int|
                0 <= k < bits@.len() ==> (#[trigger] bits@[k] <==> exists|b: int|
                    0 <= b < a && place(#[trigger] out@[b] as int, wi, left, top, cw as int) == k),
    {
        let i: usize = out[a];
        let ghost was = bits@;
        proof {
            assert(r.contains(i as int)) by {
                assert(out@[a as int] == i);
            }
            assert(left <= column(wi)(i as int) <= blob.right);
            assert(top <= row(wi)(i as int) <= blob.bottom);
            lemma_place(i as int, wi, left, top, cw as int);
            assert(0 <= (i / w - top) * cw && place(i as int, wi, left, top, cw as int) < cw * ch)
                by (nonlinear_arith)
                requires
                    place(i as int, wi, left, top, cw as int) == (i / w - top) * cw + (i % w
                        - left),
                    0 <= i / w - top < ch,
                    0 <= i % w - left < cw,
            ;
        }
        let local: usize = (i / w - blob.top as usize) * cw + (i % w - blob.left as usize);
        bits.set(local);
        proof {
            assert forall|k: int| 0 <= k < bits@.len() implies (#[trigger] bits@[k] <==> exists|
                b: int,
            |
                0 <= b < a + 1 && place(#[trigger] out@[b] as int, wi, left, top, cw as int)
                    == k) by {
                if bits@[k] {
                    if k == local {
                        assert(place(out@[a as int] as int, wi, left, top, cw as int) == k);
                    } else {
                        assert(was[k]);
                    }
                }
                if exists|b: int|
                    0 <= b < a + 1 && place(#[trigger] out@[b] as int, wi, left, top, cw as int)
                        == k {
                    let b = choose|b: int|
                        0 <= b < a + 1 && place(
                            #[trigger] out@[b] as int,
                            wi,
                            left,
                            top,
                            cw as int,
                        ) == k;
                    if b < a {
                        assert(was[k]);
                    }
                }
            }
        }
    }
    proof {
        let c = covered(r, wi, left, top, cw as int, ch as int);
        assert forall|k: int| 0 <= k < bits@.len() implies bits@[k] == c[k] by {
            let pos = (top + k / (cw as int)) * wi + (left + k % (cw as int));
            if bits@[k] {
                let b = choose|b: int|
                    0 <= b < count && place(#[trigger] out@[b] as int, wi, left, top, cw as int)
                        == k;
                let i = out@[b] as int;
                assert(r.contains(i));
                assert(left <= column(wi)(i) <= blob.right);
                assert(top <= row(wi)(i) <= blob.bottom);
                lemma_place(i, wi, left, top, cw as int);
            }
            if r.contains(pos) {
                lemma_place_back(k, wi, left, top, cw as int);
                let b = choose|b: int| 0 <= b < out@.len() && #[trigger] out@[b] == pos;
                assert(place(out@[b] as int, wi, left, top, cw as int) == k);
            }
        }
        assert(bits@ =~= c);
    }
    bits
}

/// A plan in the making.
struct PlanRun {
    spots: Vec<HealSpot>,
    skipped: usize,
    bbox: u64,
    disk: u64,
}

impl PlanRun {
    spec fn state(self) -> Planned {
        Planned {
            spots: spot_views(self.spots@),
            skipped: self.skipped as nat,
            bbox: self.bbox as int,
            disk: self.disk as int,
        }
    }

    /// Takes the region whose pixels are listed into the plan.
    #[verifier::rlimit(40)]
    fn take(&mut self, out: &Vec<usize>, w: u32, h: u32)
        requires
            w > 0,
            w * h <= 0xFFFF_FFFF,
            w * h <= usize::MAX,
            out@.no_duplicates(),
            forall|a: int| 0 <= a < out@.len() ==> #[trigger] out@[a] < w * h,
            0 < out@.len(),
            numbers(out@) == walked(members(out@), w as int, (w * h) as nat),
            old(self).skipped < usize::MAX,
            old(self).bbox <= MAX_BBOX_COVERAGE * (w * h),
            old(self).disk <= MAX_DISK_COVERAGE * (w * h),
            all_well_formed(old(self).spots@),
        ensures
            final(self).state() == old(self).state().with_region(members(out@), w as int, h as int),
            final(self).spots@.len() + final(self).skipped <= old(self).spots@.len() + old(self).skipped + 1,
            final(self).bbox <= MAX_BBOX_COVERAGE * (w * h),
            final(self).disk <= MAX_DISK_COVERAGE * (w * h),
            all_well_formed(final(self).spots@),
    {
        let ghost n = (w * h) as nat;
        let ghost r = members(out@);
        let ghost wi = w as int;
        let ghost hi = h as int;
        let ghost before = self.state();
        proof {
            lemma_count(out@, n);
        }
        if out.len() < SMALLEST_REGION {
            return;
        }
        if self.spots.len() >= MAX_PAINTED_SPOTS {
            self.skipped = self.skipped + 1;
            return;
        }
        proof {
            lemma_distinct_bound(out@, n);
        }
        let blob: Blob = measure(out, w as usize, Ghost(n));
        proof {
            let i = choose|i: int| #[trigger] r.contains(i) && column(wi)(i) == blob.right;
            lemma_mod_bound(i, wi);
            let j = choose|j: int| #[trigger] r.contains(j) && row(wi)(j) == blob.bottom;
            assert(listed(out@, j));
            let b = choose|b: int| 0 <= b < out@.len() && #[trigger] out@[b] == j;
            assert(j < w * h);
            assert(j / wi < hi) by {
                lemma_fundamental_div_mod(j, wi);
                lemma_mod_bound(j, wi);
                assert(j / wi < hi) by (nonlinear_arith)
                    requires
                        j == wi * (j / wi) + j % wi,
                        0 <= j % wi,
                        j < wi * hi,
                        wi > 0,
                ;
            }
            assert(blob.left <= column(wi)(i) && blob.top <= row(wi)(j));
        }
        let cw: u32 = blob.right - blob.left + 1;
        let ch: u32 = blob.bottom - blob.top + 1;
        proof {
            assert(0 < cw * ch <= w * h) by (nonlinear_arith)
                requires
                    0 < cw <= w,
                    0 < ch <= h,
            ;
        }
        let this_bbox: u64 = cw as u64 * ch as u64;
        let short: Single = Single::from_u64(
            if w <= h {
                w as u64
            } else {
                h as u64
            },
        );
        let rad: Single = blob.rad.times(Single::from_bits(ELEVEN_TENTHS)).max(
            Single::from_bits(TWO),
        );
        let kept: Single = rad.min(Single::from_bits(HALF).times(short));
        let d: u64 = Single::from_bits(TWO).times(kept).plus(Single::from_bits(ONE)).to_u64();
        proof {
            assert(0 <= d * d <= 0xFFFF_FFFF_FFFF_FFFF * 0xFFFF_FFFF_FFFF_FFFF) by (nonlinear_arith)
                requires
                    0 <= d <= 0xFFFF_FFFF_FFFF_FFFF,
            ;
        }
        let this_disk: u128 = d as u128 * d as u128;
        let n_px: u64 = w as u64 * h as u64;
        if self.bbox + this_bbox > MAX_BBOX_COVERAGE * n_px || self.disk as u128 + this_disk > (
        MAX_DISK_COVERAGE * n_px) as u128 {
            self.skipped = self.skipped + 1;
            return;
        }
        self.bbox = self.bbox + this_bbox;
        self.disk = self.disk + this_disk as u64;
        let bits: Bits = cover(out, w as usize, h as usize, &blob);
        let label: String = "painted".to_owned();
        let spot: HealSpot = HealSpot {
            cx: blob.cx.over(Single::from_u64(w as u64)),
            cy: blob.cy.over(Single::from_u64(h as u64)),
            radius: rad.over(short),
            feather: Single::from_bits(TWO_FIFTHS),
            source: None,
            coverage: Some(
                SpotCoverage {
                    mask_width: w,
                    mask_height: h,
                    x: blob.left,
                    y: blob.top,
                    width: cw,
                    height: ch,
                    bits,
                },
            ),
            clone_raw: false,
            label,
        };
        let ghost view = spot@;
        proof {
            assert(view =~= spot_of(r, wi, hi));
        }
        self.spots.push(spot);
        proof {
            assert(spot_views(self.spots@) =~= before.spots.push(view));
        }
    }
}

/// The note that regions were passed over, with how many were planned and how
/// many there are.
pub open spec fn budget_note(plan: Planned) -> Option<NoteView> {
    if plan.skipped > 0 {
        Some(
            NoteView::Budget {
                planned: plan.spots.len(),
                total: plan.spots.len() + plan.skipped,
            },
        )
    } else {
        None
    }
}

/// What a note says that may be missing.
pub open spec fn note_view(note: Option<HealNote>) -> Option<NoteView> {
    match note {
        Some(n) => Some(n@),
        None => None,
    }
}

/// One spot for each painted region of the mask, in the order of their first
/// pixels, as far as the budgets go; and a note if they did not go far enough.
#[verifier::rlimit(40)]
pub fn plan_from_mask(mask: &PaintedMask) -> (r: (Vec<HealSpot>, Option<HealNote>))
    requires
        mask.well_formed(),
    ensures
        all_well_formed(r.0@),
        spot_views(r.0@) == plan(
            painted(mask.alpha@),
            mask.width as int,
            mask.height as int,
        ).spots,
        note_view(r.1) == budget_note(
            plan(painted(mask.alpha@), mask.width as int, mask.height as int),
        ),
{
    let w: u32 = mask.width;
    let h: u32 = mask.height;
    let n: usize = mask.alpha.len();
    let ghost p = painted(mask.alpha@);
    let ghost wi = w as int;
    let ghost hi = h as int;
    let mut run: PlanRun = PlanRun { spots: Vec::new(), skipped: 0, bbox: 0, disk: 0 };
    assert(run.state().spots =~= Seq::<SpotView>::empty());
    if n > u32::MAX as usize {
        return (run.spots, None);
    }
    let mut bits: Bits = Bits::new(n);
    for i in 0..n
        invariant
            bits.well_formed(),
            n == mask.alpha@.len(),
            bits@.len() == n,
            p == painted(mask.alpha@),
            forall|j: int| 0 <= j < i ==> #[trigger] bits@[j] == p[j],
            forall|j: int| i <= j < n ==> !#[trigger] bits@[j],
    {
        if mask.alpha[i] < 128 {
            bits.set(i);
        }
    }
    assert(bits@ =~= p);
    let mut seen: Bits = Bits::new(n);
    for start in 0..n
        invariant
            bits.well_formed(),
            seen.well_formed(),
            bits@ == p,
            seen@.len() == n,
            n == p.len(),
            n == w * h,
            n <= u32::MAX,
            wi == w,
            hi == h,
            closed_under(p, seen@, wi),
            marked(p, wi, seen@, start as int),
            run.state() == planned(p, wi, hi, start as nat),
            run.spots@.len() + run.skipped <= start,
            run.bbox <= MAX_BBOX_COVERAGE * (w * h),
            run.disk <= MAX_DISK_COVERAGE * (w * h),
            all_well_formed(run.spots@),
    {
        let ghost was = seen@;
        let ghost k = start as int;
        proof {
            assert(w > 0) by (nonlinear_arith)
                requires
                    start < n,
                    n == w * h,
            ;
            assert(leads(p, wi, k) == (p[k] && !was[k]));
        }
        if bits.get(start) && !seen.get(start) {
            let out: Vec<usize> = flood(&bits, &mut seen, w as usize, start);
            proof {
                lemma_leader_is_first(p, wi, k);
            }
            run.take(&out, w, h);
        }
        proof {
            assert forall|i: int| 0 <= i < p.len() implies (#[trigger] seen@[i] <==> exists|j: int|
                0 <= j < start + 1 && #[trigger] joined(p, wi, j, i)) by {
                if p[k] && !was[k] {
                    assert(region(p, wi, k).contains(i) == joined(p, wi, k, i));
                    if seen@[i] && !was[i] {
                        assert(joined(p, wi, k, i));
                    }
                    assert(was[i] <==> exists|j: int| 0 <= j < k && #[trigger] joined(p, wi, j, i));
                } else {
                    assert(seen@ == was);
                    if joined(p, wi, k, i) {
                        let c = choose|c: nat| linked(p, wi, k, i, c);
                        lemma_linked_start(p, wi, k, i, c);
                        let j = choose|j: int| 0 <= j < k && #[trigger] joined(p, wi, j, k);
                        lemma_joined_transitive(p, wi, j, k, i);
                    }
                }
            }
        }
    }
    if run.skipped > 0 {
        let planned: usize = run.spots.len();
        let total: usize = planned + run.skipped;
        (run.spots, Some(HealNote::Budget { planned, total }))
    } else {
        (run.spots, None)
    }
}

/// A chain can be walked backwards.
pub proof fn lemma_linked_back(p: Seq<bool>, w: int, i: int, j: int, k: nat)
    requires
        linked(p, w, i, j, k),
    ensures
        linked(p, w, j, i, k),
    decreases k,
{
    if k > 0 {
        let m = choose|m: int|
            linked(p, w, i, m, (k - 1) as nat) && #[trigger] adjacent(w, m, j);
        lemma_linked_back(p, w, i, m, (k - 1) as nat);
        assert(linked(p, w, j, j, 0));
        assert(adjacent(w, j, m));
        assert(linked(p, w, j, m, 1));
        lemma_linked_chain(p, w, j, m, i, 1, (k - 1) as nat);
        assert(1 + (k - 1) as nat == k);
    }
}

/// A pixel that leads is the first of its region.
proof fn lemma_leader_is_first(p: Seq<bool>, w: int, k: int)
    requires
        0 <= k < p.len(),
        leads(p, w, k),
    ensures
        first_pixel(region(p, w, k)) == k,
{
    let r = region(p, w, k);
    assert(linked(p, w, k, k, 0));
    assert forall|j: int| #[trigger] r.contains(j) implies k <= j by {
        let c = choose|c: nat| linked(p, w, k, j, c);
        lemma_linked_back(p, w, k, j, c);
        assert(joined(p, w, j, k));
    }
    lemma_first(r, k);
}

/// Pixels of one region have the same region: two regions are the same or share
/// no pixel.
pub proof fn joined_pixels_share_a_region(p: Seq<bool>, w: int, i: int, j: int)
    requires
        joined(p, w, i, j),
    ensures
        region(p, w, i) == region(p, w, j),
{
    let k = choose|k: nat| linked(p, w, i, j, k);
    lemma_linked_back(p, w, i, j, k);
    assert forall|l: int| region(p, w, i).contains(l) == region(p, w, j).contains(l) by {
        if joined(p, w, i, l) {
            lemma_joined_transitive(p, w, j, i, l);
        }
        if joined(p, w, j, l) {
            lemma_joined_transitive(p, w, i, j, l);
        }
    }
    assert(region(p, w, i) =~= region(p, w, j));
}

/// Every painted pixel belongs to the region of a pixel that leads.
proof fn lemma_led(p: Seq<bool>, w: int, i: int) -> (k: int)
    requires
        0 <= i < p.len(),
        p[i],
    ensures
        0 <= k <= i,
        leads(p, w, k),
        joined(p, w, k, i),
    decreases i,
{
    if leads(p, w, i) {
        assert(linked(p, w, i, i, 0));
        i
    } else {
        let j = choose|j: int| 0 <= j < i && joined(p, w, j, i);
        let a = choose|a: nat| linked(p, w, j, i, a);
        lemma_linked_start(p, w, j, i, a);
        let k = lemma_led(p, w, j);
        lemma_joined_transitive(p, w, k, j, i);
        k
    }
}

/// Every painted pixel belongs to exactly one of the regions that a plan goes
/// through.
pub proof fn every_painted_pixel_is_in_one_region(p: Seq<bool>, w: int, i: int)
    requires
        0 <= i < p.len(),
        p[i],
    ensures
        exists|k: int| 0 <= k < p.len() && #[trigger] leads(p, w, k) && region(p, w, k).contains(i),
        forall|k: int, l: int|
            0 <= k < p.len() && 0 <= l < p.len() && #[trigger] leads(p, w, k) && #[trigger] leads(
                p,
                w,
                l,
            ) && region(p, w, k).contains(i) && region(p, w, l).contains(i) ==> k == l,
{
    let first = lemma_led(p, w, i);
    assert(leads(p, w, first) && region(p, w, first).contains(i));
    assert forall|k: int, l: int|
        0 <= k < p.len() && 0 <= l < p.len() && #[trigger] leads(p, w, k) && #[trigger] leads(
            p,
            w,
            l,
        ) && region(p, w, k).contains(i) && region(p, w, l).contains(i) implies k == l by {
        joined_pixels_share_a_region(p, w, k, i);
        joined_pixels_share_a_region(p, w, l, i);
        assert(linked(p, w, l, l, 0));
        assert(region(p, w, l).contains(l));
        assert(joined(p, w, k, l));
        assert(linked(p, w, k, k, 0));
        assert(region(p, w, k).contains(k));
        assert(joined(p, w, l, k));
    }
}

/// A plan stays within its budgets: so many spots, and so many pixels in their
/// rectangles and in the squares around their disks, for each pixel of the mask.
pub proof fn a_plan_keeps_its_budgets(p: Seq<bool>, w: nat, h: nat, k: nat)
    ensures
        planned(p, w as int, h as int, k).spots.len() <= MAX_PAINTED_SPOTS,
        planned(p, w as int, h as int, k).bbox <= MAX_BBOX_COVERAGE * (w * h),
        planned(p, w as int, h as int, k).disk <= MAX_DISK_COVERAGE * (w * h),
    decreases k,
{
    assert(w * h >= 0) by (nonlinear_arith);
    if k > 0 {
        a_plan_keeps_its_budgets(p, w, h, (k - 1) as nat);
    }
}

/// Every spot of a plan heals the region of a pixel that leads.
pub proof fn every_spot_heals_a_region(p: Seq<bool>, w: int, h: int, k: nat, n: int) -> (lead: int)
    requires
        0 <= n < planned(p, w, h, k).spots.len(),
    ensures
        0 <= lead < k,
        leads(p, w, lead),
        planned(p, w, h, k).spots[n] == spot_of(region(p, w, lead), w, h),
    decreases k,
{
    let before = planned(p, w, h, (k - 1) as nat);
    if n < before.spots.len() {
        every_spot_heals_a_region(p, w, h, (k - 1) as nat, n)
    } else {
        k - 1
    }
}

/// The pixel of the mask that a bit of a coverage stands for.
pub open spec fn covered_pixel(c: CoverageView, b: int) -> int {
    (c.y + b / c.width as int) * c.mask_width + (c.x + b % c.width as int)
}

/// A region of a mask has a least and a greatest column and row.
pub proof fn lemma_region_bounds(p: Seq<bool>, w: int, h: int, i: int)
    requires
        w > 0,
        p.len() == w * h,
        0 <= i < p.len(),
        p[i],
    ensures
        is_least(region(p, w, i), column(w), least(region(p, w, i), column(w))),
        is_least(region(p, w, i), row(w), least(region(p, w, i), row(w))),
        is_greatest(region(p, w, i), column(w), greatest(region(p, w, i), column(w))),
        is_greatest(region(p, w, i), row(w), greatest(region(p, w, i), row(w))),
        0 <= least(region(p, w, i), column(w)) <= greatest(region(p, w, i), column(w)) < w,
        0 <= least(region(p, w, i), row(w)) <= greatest(region(p, w, i), row(w)) < h,
{
    let r = region(p, w, i);
    assert(linked(p, w, i, i, 0));
    assert(r.contains(i));
    assert forall|j: int| #[trigger] r.contains(j) implies 0 <= column(w)(j) < w && 0 <= row(w)(j)
        < h by {
        let a = choose|a: nat| linked(p, w, i, j, a);
        assert(0 <= j < w * h);
        lemma_mod_bound(j, w);
        lemma_fundamental_div_mod(j, w);
        assert(0 <= j / w < h) by (nonlinear_arith)
            requires
                j == w * (j / w) + j % w,
                0 <= j % w < w,
                0 <= j < w * h,
                w > 0,
        ;
    }
    lemma_has_least(r, column(w), i, column(w)(i));
    lemma_has_least(r, row(w), i, row(w)(i));
    lemma_has_greatest(r, column(w), i, w - column(w)(i), w);
    lemma_has_greatest(r, row(w), i, h - row(w)(i), h);
}

/// What is nowhere negative has a least value.
proof fn lemma_has_least(r: Set<int>, f: spec_fn(int) -> int, i: int, n: int)
    requires
        r.contains(i),
        f(i) == n,
        forall|j: int| #[trigger] r.contains(j) ==> 0 <= f(j),
    ensures
        exists|m: int| is_least(r, f, m),
    decreases n,
{
    if is_least(r, f, n) {
    } else {
        let j = choose|j: int| #[trigger] r.contains(j) && f(j) < n;
        lemma_has_least(r, f, j, f(j));
    }
}

/// What is everywhere below a bound has a greatest value.
proof fn lemma_has_greatest(r: Set<int>, f: spec_fn(int) -> int, i: int, room: int, bound: int)
    requires
        r.contains(i),
        f(i) == bound - room,
        forall|j: int| #[trigger] r.contains(j) ==> f(j) < bound,
    ensures
        exists|m: int| is_greatest(r, f, m),
    decreases room,
{
    if is_greatest(r, f, bound - room) {
    } else {
        let j = choose|j: int| #[trigger] r.contains(j) && f(j) > bound - room;
        lemma_has_greatest(r, f, j, bound - f(j), bound);
    }
}

/// A spot covers its region and nothing else: every set bit stands for a painted
/// pixel of the region, and every pixel of the region has a set bit.
pub proof fn a_spot_covers_its_region(p: Seq<bool>, w: int, h: int, i: int)
    requires
        0 < w <= u32::MAX,
        0 < h <= u32::MAX,
        p.len() == w * h,
        0 <= i < p.len(),
        p[i],
    ensures
        ({
            let c = spot_of(region(p, w, i), w, h).coverage->0;
            &&& forall|b: int|
                0 <= b < c.bits.len() && #[trigger] c.bits[b] ==> region(p, w, i).contains(
                    covered_pixel(c, b),
                ) && p[covered_pixel(c, b)]
            &&& forall|j: int| #[trigger]
                region(p, w, i).contains(j) ==> exists|b: int|
                    0 <= b < c.bits.len() && #[trigger] c.bits[b] && covered_pixel(c, b) == j
        }),
{
    let r = region(p, w, i);
    let c = spot_of(r, w, h).coverage->0;
    lemma_region_bounds(p, w, h, i);
    let left = least(r, column(w));
    let top = least(r, row(w));
    let cw = greatest(r, column(w)) - left + 1;
    let ch = greatest(r, row(w)) - top + 1;
    assert(c.x == left && c.y == top && c.width == cw && c.height == ch && c.mask_width == w);
    assert(c.bits == covered(r, w, left, top, cw, ch));
    assert(cw * ch >= 0) by (nonlinear_arith)
        requires
            cw > 0,
            ch > 0,
    ;
    assert forall|b: int| 0 <= b < c.bits.len() && #[trigger] c.bits[b] implies r.contains(
        covered_pixel(c, b),
    ) && p[covered_pixel(c, b)] by {
        assert(r.contains((top + b / cw) * w + (left + b % cw)));
    }
    assert forall|j: int| #[trigger] r.contains(j) implies exists|b: int|
        0 <= b < c.bits.len() && #[trigger] c.bits[b] && covered_pixel(c, b) == j by {
        let b = place(j, w, left, top, cw);
        assert(left <= column(w)(j) <= left + cw - 1);
        assert(top <= row(w)(j) <= top + ch - 1);
        lemma_place(j, w, left, top, cw);
        assert(b < cw * ch) by (nonlinear_arith)
            requires
                b == (j / w - top) * cw + (j % w - left),
                0 <= j / w - top <= ch - 1,
                0 <= j % w - left <= cw - 1,
                cw > 0,
        ;
        assert(c.bits[b]);
        assert(covered_pixel(c, b) == j);
    }
}

} // verus!
