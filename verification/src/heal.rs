//! The heal engine: defects are repaired by copying, shifting and averaging
//! pixels that the picture already has.

use vstd::prelude::*;
use vstd::arithmetic::div_mod::{
    lemma_fundamental_div_mod, lemma_fundamental_div_mod_converse, lemma_mod_bound,
};
use crate::mixing::{lemma_kept_level, lemma_rounds_to_whole, lemma_tops, whole_of};
use crate::numbers::{
    BYTE_TOP, HALF, INFINITY, ONE, SIXTEEN_FIFTHS, SIX_FIFTHS, TWELVE_FIFTHS, TWENTY_FOUR,
    TWENTY_THREE_TWENTIETHS, TWENTY_TWO_FIFTHS, TWO, WORD_TOP, ZERO,
};
use crate::single::{num, Single};
use crate::spots::{all_well_formed, spot_views, CoverageView, HealSpot, SpotCoverage, SpotView};
use crate::whole::kept_between;

verus! {

/// A channel of a pixel at some depth. The engine computes in singles at every
/// depth.
pub trait HealDepth: Copy {
    spec fn level(self) -> Single;

    spec fn of_level(v: Single) -> Self;

    /// The channel as a number.
    spec fn number(self) -> int;

    /// The level of a channel is its number.
    proof fn lemma_level(a: Self)
        ensures
            0 <= a.number() <= 65535,
            a.level() == Single::of_whole(a.number()),
    ;

    /// A level goes back to the number next to it, if some channel has that.
    proof fn lemma_of_level(v: Single, top: Self)
        requires
            v.finite(),
            !v.negative(),
            0 <= whole_of(v) <= top.number(),
        ensures
            Self::of_level(v).number() == whole_of(v),
    ;

    /// Channels are told apart by their numbers.
    proof fn lemma_number(a: Self, b: Self)
        requires
            a.number() == b.number(),
        ensures
            a == b,
    ;

    fn chan_f32(self) -> (r: Single)
        ensures
            r == self.level(),
    ;

    fn from_chan(v: Single) -> (r: Self)
        ensures
            r == Self::of_level(v),
    ;
}

impl HealDepth for u8 {
    open spec fn level(self) -> Single {
        Single::of_whole(self as int)
    }

    open spec fn of_level(v: Single) -> u8 {
        v.rounded().clamped(num(ZERO), num(BYTE_TOP)).cast(0, 255) as u8
    }

    open spec fn number(self) -> int {
        self as int
    }

    proof fn lemma_level(a: u8) {
    }

    proof fn lemma_of_level(v: Single, top: u8) {
        lemma_rounds_to_whole(v, whole_of(v));
        lemma_tops();
        lemma_kept_level(whole_of(v), num(BYTE_TOP), 255);
    }

    proof fn lemma_number(a: u8, b: u8) {
    }

    fn chan_f32(self) -> (r: Single) {
        Single::from_u64(self as u64)
    }

    fn from_chan(v: Single) -> (r: u8) {
        let n: u64 = v.round().clamp(Single::from_bits(ZERO), Single::from_bits(BYTE_TOP)).to_u64();
        if n > 255 {
            255
        } else {
            n as u8
        }
    }
}

impl HealDepth for u16 {
    open spec fn level(self) -> Single {
        Single::of_whole(self as int)
    }

    open spec fn of_level(v: Single) -> u16 {
        v.rounded().clamped(num(ZERO), num(WORD_TOP)).cast(0, 65535) as u16
    }

    open spec fn number(self) -> int {
        self as int
    }

    proof fn lemma_level(a: u16) {
    }

    proof fn lemma_of_level(v: Single, top: u16) {
        lemma_rounds_to_whole(v, whole_of(v));
        lemma_tops();
        lemma_kept_level(whole_of(v), num(WORD_TOP), 65535);
    }

    proof fn lemma_number(a: u16, b: u16) {
    }

    fn chan_f32(self) -> (r: Single) {
        Single::from_u64(self as u64)
    }

    fn from_chan(v: Single) -> (r: u16) {
        let n: u64 = v.round().clamp(Single::from_bits(ZERO), Single::from_bits(WORD_TOP)).to_u64();
        if n > 65535 {
            65535
        } else {
            n as u16
        }
    }
}

/// The three channels of a pixel.
#[derive(Clone, Copy, Debug, PartialEq, Eq)]
pub struct Rgb<T> {
    pub r: T,
    pub g: T,
    pub b: T,
}

impl<T: HealDepth> Rgb<T> {
    pub open spec fn levels(self) -> Rgb<Single> {
        Rgb { r: self.r.level(), g: self.g.level(), b: self.b.level() }
    }

    pub open spec fn of_levels(v: Rgb<Single>) -> Rgb<T> {
        Rgb { r: T::of_level(v.r), g: T::of_level(v.g), b: T::of_level(v.b) }
    }
}

impl Rgb<Single> {
    pub open spec fn all(v: Single) -> Rgb<Single> {
        Rgb { r: v, g: v, b: v }
    }

    pub open spec fn sum(self, o: Rgb<Single>) -> Rgb<Single> {
        Rgb { r: self.r.sum(o.r), g: self.g.sum(o.g), b: self.b.sum(o.b) }
    }

    pub open spec fn difference(self, o: Rgb<Single>) -> Rgb<Single> {
        Rgb { r: self.r.difference(o.r), g: self.g.difference(o.g), b: self.b.difference(o.b) }
    }

    pub open spec fn product(self, o: Rgb<Single>) -> Rgb<Single> {
        Rgb { r: self.r.product(o.r), g: self.g.product(o.g), b: self.b.product(o.b) }
    }

    pub open spec fn scaled(self, k: Single) -> Rgb<Single> {
        Rgb { r: self.r.product(k), g: self.g.product(k), b: self.b.product(k) }
    }

    pub open spec fn shared(self, k: Single) -> Rgb<Single> {
        Rgb { r: self.r.quotient(k), g: self.g.quotient(k), b: self.b.quotient(k) }
    }

    /// The channels added to `v`, one after the other.
    pub open spec fn added_to(self, v: Single) -> Single {
        v.sum(self.r).sum(self.g).sum(self.b)
    }

    fn all_of(v: Single) -> (x: Rgb<Single>)
        ensures
            x == Rgb::all(v),
    {
        Rgb { r: v, g: v, b: v }
    }

    fn plus(self, o: Rgb<Single>) -> (x: Rgb<Single>)
        ensures
            x == self.sum(o),
    {
        Rgb { r: self.r.plus(o.r), g: self.g.plus(o.g), b: self.b.plus(o.b) }
    }

    fn minus(self, o: Rgb<Single>) -> (x: Rgb<Single>)
        ensures
            x == self.difference(o),
    {
        Rgb { r: self.r.minus(o.r), g: self.g.minus(o.g), b: self.b.minus(o.b) }
    }

    fn times(self, o: Rgb<Single>) -> (x: Rgb<Single>)
        ensures
            x == self.product(o),
    {
        Rgb { r: self.r.times(o.r), g: self.g.times(o.g), b: self.b.times(o.b) }
    }

    fn scale(self, k: Single) -> (x: Rgb<Single>)
        ensures
            x == self.scaled(k),
    {
        Rgb { r: self.r.times(k), g: self.g.times(k), b: self.b.times(k) }
    }

    fn share(self, k: Single) -> (x: Rgb<Single>)
        ensures
            x == self.shared(k),
    {
        Rgb { r: self.r.over(k), g: self.g.over(k), b: self.b.over(k) }
    }

    fn add_to(self, v: Single) -> (x: Single)
        ensures
            x == self.added_to(v),
    {
        v.plus(self.r).plus(self.g).plus(self.b)
    }
}

/// A picture, its pixels row by row.
#[derive(Debug)]
pub struct Raster<T> {
    pub width: u32,
    pub height: u32,
    pub pixels: Vec<Rgb<T>>,
}

/// What a [`Raster`] shows.
#[verifier::ext_equal]
pub struct Frame<T> {
    pub width: int,
    pub height: int,
    pub pixels: Seq<Rgb<T>>,
}

impl<T> View for Raster<T> {
    type V = Frame<T>;

    open spec fn view(&self) -> Frame<T> {
        Frame { width: self.width as int, height: self.height as int, pixels: self.pixels@ }
    }
}

impl<T> Frame<T> {
    /// There is a pixel for each place, and the places have numbers of 31
    /// digits.
    pub open spec fn well_formed(self) -> bool {
        &&& self.pixels.len() == self.width * self.height
        &&& 0 <= self.width <= i32::MAX
        &&& 0 <= self.height <= i32::MAX
    }
}

impl<T: HealDepth> Frame<T> {
    /// The pixel at a place, or the one of the edge that is nearest to it.
    pub open spec fn sampled(self, x: int, y: int) -> Rgb<Single> {
        self.pixels[kept_between(y, 0, self.height - 1) * self.width + kept_between(
            x,
            0,
            self.width - 1,
        )].levels()
    }

    /// The pixel under a point.
    pub open spec fn under(self, x: Single, y: Single) -> Rgb<Single> {
        self.sampled(
            x.cast(i32::MIN as int, i32::MAX as int),
            y.cast(i32::MIN as int, i32::MAX as int),
        )
    }
}

proof fn lemma_index(x: int, y: int, w: int, h: int)
    requires
        0 <= x < w,
        0 <= y < h,
    ensures
        0 <= y * w,
        0 <= y * w + x < w * h,
        (y * w + x) / w == y,
        (y * w + x) % w == x,
{
    assert(0 <= y * w && y * w + x < w * h) by (nonlinear_arith)
        requires
            0 <= x < w,
            0 <= y < h,
    ;
    lemma_fundamental_div_mod_converse(y * w + x, w, y, x);
}

impl<T: HealDepth> Raster<T> {
    pub open spec fn well_formed(self) -> bool {
        self@.well_formed()
    }

    fn px(&self, x: i64, y: i64) -> (r: Rgb<Single>)
        requires
            self.well_formed(),
            self.width > 0,
            self.height > 0,
        ensures
            r == self@.sampled(x as int, y as int),
    {
        let right: i64 = self.width as i64 - 1;
        let bottom: i64 = self.height as i64 - 1;
        let xx: i64 = if x < 0 {
            0
        } else if x > right {
            right
        } else {
            x
        };
        let yy: i64 = if y < 0 {
            0
        } else if y > bottom {
            bottom
        } else {
            y
        };
        let n: usize = self.pixels.len();
        proof {
            lemma_index(xx as int, yy as int, self.width as int, self.height as int);
        }
        let p: Rgb<T> = self.pixels[yy as usize * self.width as usize + xx as usize];
        Rgb { r: p.r.chan_f32(), g: p.g.chan_f32(), b: p.b.chan_f32() }
    }

    fn px_under(&self, x: Single, y: Single) -> (r: Rgb<Single>)
        requires
            self.well_formed(),
            self.width > 0,
            self.height > 0,
        ensures
            r == self@.under(x, y),
    {
        self.px(x.to_i32() as i64, y.to_i32() as i64)
    }
}

/// Directions as pairs of a cosine and a sine: the sixteen in which a donor is
/// searched, and the twenty-four points of a ring. How a platform rounds a sine
/// is its own affair, so they come from outside.
pub struct Compass {
    pub around: Vec<(Single, Single)>,
    pub ring: Vec<(Single, Single)>,
}

impl Compass {
    pub open spec fn well_formed(self) -> bool {
        self.around@.len() == 16 && self.ring@.len() == 24
    }
}

/// What a donor shows on a ring: how much its border differs from the spot's,
/// and the sums of its inner levels and of their squares.
pub struct Survey {
    pub ssd: Single,
    pub mean: Rgb<Single>,
    pub square: Rgb<Single>,
}

/// The survey of the donor at `(vx, vy)` from the spot over the first `j` points
/// of the ring.
pub open spec fn survey<T: HealDepth>(
    f: Frame<T>,
    cx: Single,
    cy: Single,
    r: Single,
    vx: Single,
    vy: Single,
    ring: Seq<(Single, Single)>,
    j: nat,
) -> Survey
    decreases j,
{
    if j == 0 {
        Survey { ssd: num(ZERO), mean: Rgb::all(num(ZERO)), square: Rgb::all(num(ZERO)) }
    } else {
        let before = survey(f, cx, cy, r, vx, vy, ring, (j - 1) as nat);
        let ox = ring[j - 1].0;
        let oy = ring[j - 1].1;
        let rr = r.product(num(SIX_FIFTHS));
        let dcx = cx.sum(vx);
        let dcy = cy.sum(vy);
        let target = f.under(cx.sum(ox.product(rr)), cy.sum(oy.product(rr)));
        let donor = f.under(dcx.sum(ox.product(rr)), dcy.sum(oy.product(rr)));
        let inner = f.under(
            dcx.sum(ox.product(r).product(num(HALF))),
            dcy.sum(oy.product(r).product(num(HALF))),
        );
        let d = target.difference(donor);
        Survey {
            ssd: d.product(d).added_to(before.ssd),
            mean: before.mean.sum(inner),
            square: before.square.sum(inner.product(inner)),
        }
    }
}

/// How much a channel varies, from its sum and the sum of its squares over the
/// ring.
pub open spec fn variance(mean: Single, square: Single) -> Single {
    let mu = mean.quotient(num(TWENTY_FOUR));
    square.quotient(num(TWENTY_FOUR)).difference(mu.product(mu)).larger(num(ZERO))
}

impl Survey {
    /// The lower, the better the donor blends in, and the smoother it is.
    pub open spec fn score(self) -> Single {
        let var = (Rgb {
            r: variance(self.mean.r, self.square.r),
            g: variance(self.mean.g, self.square.g),
            b: variance(self.mean.b, self.square.b),
        }).added_to(num(ZERO));
        self.ssd.sum(var.product(num(HALF)))
    }
}

/// How far the `k`-th donor is from the spot, in radii.
pub open spec fn donor_distance(k: int) -> Single {
    if k < 16 {
        num(TWELVE_FIFTHS)
    } else if k < 32 {
        num(SIXTEEN_FIFTHS)
    } else {
        num(TWENTY_TWO_FIFTHS)
    }
}

/// The disk of a donor lies in the frame.
pub open spec fn donor_fits(w: int, h: int, dcx: Single, dcy: Single, r: Single) -> bool {
    !(dcx.difference(r).less(num(ZERO)) || Single::of_whole(w).at_most(dcx.sum(r))
        || dcy.difference(r).less(num(ZERO)) || Single::of_whole(h).at_most(dcy.sum(r)))
}

/// The disk around `(cx, cy)` with the radius `r`, and a donor at the offset `off`.
pub open spec fn disk_at(cx: Single, cy: Single, r: Single, off: (int, int)) -> Patch {
    Patch {
        cx,
        cy,
        r,
        feather: num(ZERO),
        ox: off.0,
        oy: off.1,
        raw: false,
        coverage: None,
    }
}

/// An offset in whole pixels.
pub open spec fn whole_offset(vx: Single, vy: Single) -> (int, int) {
    (
        vx.rounded().cast(i32::MIN as int, i32::MAX as int),
        vy.rounded().cast(i32::MIN as int, i32::MAX as int),
    )
}

/// The best of the first `k` donors and its score: the offset of the one with
/// the lowest score of those whose disk lies in the frame, pixel by pixel too, the first of them
/// where several have it; no offset if there is none.
pub open spec fn best_donor<T: HealDepth>(
    f: Frame<T>,
    cx: Single,
    cy: Single,
    r: Single,
    around: Seq<(Single, Single)>,
    ring: Seq<(Single, Single)>,
    k: nat,
) -> (Single, (int, int))
    decreases k,
{
    if k == 0 {
        (num(INFINITY), (0, 0))
    } else {
        let before = best_donor(f, cx, cy, r, around, ring, (k - 1) as nat);
        let dist = r.product(donor_distance(k - 1));
        let vx = dist.product(around[(k - 1) % 16].0);
        let vy = dist.product(around[(k - 1) % 16].1);
        let score = survey(f, cx, cy, r, vx, vy, ring, 24).score();
        let off = whole_offset(vx, vy);
        if donor_fits(f.width, f.height, cx.sum(vx), cy.sum(vy), r) && disk_at(
            cx,
            cy,
            r,
            off,
        ).stays_in(f.width, f.height) && score.less(before.0) {
            (score, off)
        } else {
            before
        }
    }
}

/// Where the best of the forty-eight donors lies.
pub open spec fn donor_offset<T: HealDepth>(
    f: Frame<T>,
    cx: Single,
    cy: Single,
    r: Single,
    compass: Compass,
) -> (int, int) {
    best_donor(f, cx, cy, r, compass.around@, compass.ring@, 48).1
}

fn spread(mean: Single, square: Single) -> (v: Single)
    ensures
        v == variance(mean, square),
{
    let n: Single = Single::from_bits(TWENTY_FOUR);
    let mu: Single = mean.over(n);
    square.over(n).minus(mu.times(mu)).max(Single::from_bits(ZERO))
}

fn donor_score<T: HealDepth>(
    src: &Raster<T>,
    cx: Single,
    cy: Single,
    r: Single,
    vx: Single,
    vy: Single,
    compass: &Compass,
) -> (score: Single)
    requires
        src.well_formed(),
        src.width > 0,
        src.height > 0,
        compass.well_formed(),
    ensures
        score == survey(src@, cx, cy, r, vx, vy, compass.ring@, 24).score(),
{
    let zero: Single = Single::from_bits(ZERO);
    let half: Single = Single::from_bits(HALF);
    let mut ssd: Single = zero;
    let mut mean: Rgb<Single> = Rgb::all_of(zero);
    let mut square: Rgb<Single> = Rgb::all_of(zero);
    let rr: Single = r.times(Single::from_bits(SIX_FIFTHS));
    let dcx: Single = cx.plus(vx);
    let dcy: Single = cy.plus(vy);
    for j in 0..24usize
        invariant
            src.well_formed(),
            src.width > 0,
            src.height > 0,
            compass.well_formed(),
            half == num(HALF),
            rr == r.product(num(SIX_FIFTHS)),
            dcx == cx.sum(vx),
            dcy == cy.sum(vy),
            (Survey { ssd, mean, square }) == survey(
                src@,
                cx,
                cy,
                r,
                vx,
                vy,
                compass.ring@,
                j as nat,
            ),
    {
        let (ox, oy) = compass.ring[j];
        let target: Rgb<Single> = src.px_under(cx.plus(ox.times(rr)), cy.plus(oy.times(rr)));
        let donor: Rgb<Single> = src.px_under(dcx.plus(ox.times(rr)), dcy.plus(oy.times(rr)));
        let d: Rgb<Single> = target.minus(donor);
        ssd = d.times(d).add_to(ssd);
        let inner: Rgb<Single> = src.px_under(
            dcx.plus(ox.times(r).times(half)),
            dcy.plus(oy.times(r).times(half)),
        );
        mean = mean.plus(inner);
        square = square.plus(inner.times(inner));
    }
    let var: Single = (Rgb {
        r: spread(mean.r, square.r),
        g: spread(mean.g, square.g),
        b: spread(mean.b, square.b),
    }).add_to(zero);
    ssd.plus(var.times(half))
}

/// Whether the donor of every pixel of a disk that lies in the frame lies in it too.
fn donor_stays_in(
    width: u32,
    height: u32,
    cx: Single,
    cy: Single,
    r: Single,
    ox: i32,
    oy: i32,
) -> (b: bool)
    ensures
        b == disk_at(cx, cy, r, (ox as int, oy as int)).stays_in(width as int, height as int),
{
    let ghost p = disk_at(cx, cy, r, (ox as int, oy as int));
    let w: i64 = width as i64;
    let h: i64 = height as i64;
    let mid_x: i64 = cx.to_i32() as i64;
    let mid_y: i64 = cy.to_i32() as i64;
    let span: i64 = r.ceil().to_i32() as i64;
    let x_lo: i64 = if mid_x - span < 0 {
        0
    } else {
        mid_x - span
    };
    let x_hi: i64 = if mid_x + span >= w {
        w
    } else {
        mid_x + span + 1
    };
    let y_lo: i64 = if mid_y - span < 0 {
        0
    } else {
        mid_y - span
    };
    let y_hi: i64 = if mid_y + span >= h {
        h
    } else {
        mid_y + span + 1
    };
    let mut y: i64 = y_lo;
    while y < y_hi
        invariant
            p == disk_at(cx, cy, r, (ox as int, oy as int)),
            w == width,
            h == height,
            mid_x == p.mid_x(),
            mid_y == p.mid_y(),
            span == p.span(),
            -0x8000_0000 <= mid_x <= 0x7FFF_FFFF,
            -0x8000_0000 <= mid_y <= 0x7FFF_FFFF,
            -0x8000_0000 <= span <= 0x7FFF_FFFF,
            0 <= x_lo,
            x_hi <= w,
            mid_x - span <= x_lo,
            x_hi <= mid_x + span + 1,
            mid_y - span <= y_lo,
            y_hi <= mid_y + span + 1,
            x_lo == 0 || x_lo == mid_x - span,
            x_hi == w || x_hi == mid_x + span + 1,
            0 <= y_lo <= y,
            y_hi <= h,
            forall|i: int, j: int|
                0 <= i < w && y_lo <= j < y && #[trigger] p.holds(i, j) ==> 0 <= i + ox < w && 0
                    <= j + oy < h,
        decreases y_hi - y,
    {
        let mut x: i64 = x_lo;
        while x < x_hi
            invariant
                p == disk_at(cx, cy, r, (ox as int, oy as int)),
                w == width,
                h == height,
                mid_x == p.mid_x(),
                mid_y == p.mid_y(),
                span == p.span(),
                -0x8000_0000 <= mid_x <= 0x7FFF_FFFF,
                -0x8000_0000 <= mid_y <= 0x7FFF_FFFF,
                -0x8000_0000 <= span <= 0x7FFF_FFFF,
                0 <= x_lo <= x,
                x_hi <= w,
                mid_x - span <= x_lo,
                x_hi <= mid_x + span + 1,
                mid_y - span <= y_lo <= y < y_hi <= mid_y + span + 1,
                0 <= y < h,
                forall|i: int|
                    x_lo <= i < x && #[trigger] p.holds(i, y as int) ==> 0 <= i + ox < w && 0 <= y
                        + oy < h,
            decreases x_hi - x,
        {
            let sx: i64 = x + ox as i64;
            let sy: i64 = y + oy as i64;
            if sx < 0 || sx >= w || sy < 0 || sy >= h {
                let dx: i64 = x - mid_x;
                let dy: i64 = y - mid_y;
                proof {
                    assert(dx * dx + dy * dy <= i64::MAX && 0 <= dx * dx && 0 <= dy * dy)
                        by (nonlinear_arith)
                        requires
                            -0x7FFF_FFFF <= dx <= 0x7FFF_FFFF,
                            -0x7FFF_FFFF <= dy <= 0x7FFF_FFFF,
                    ;
                }
                if !r.lt(Single::from_i64(dx * dx + dy * dy).sqrt()) {
                    assert(p.holds(x as int, y as int));
                    return false;
                }
            }
            x = x + 1;
        }
        y = y + 1;
    }
    true
}

/// The offset of the donor that blends in best, or `(0, 0)` if none lies in the
/// frame.
pub fn find_donor<T: HealDepth>(
    src: &Raster<T>,
    cx: Single,
    cy: Single,
    r: Single,
    compass: &Compass,
) -> (best: (i32, i32))
    requires
        src.well_formed(),
        src.width > 0,
        src.height > 0,
        compass.well_formed(),
    ensures
        best.0 == donor_offset(src@, cx, cy, r, *compass).0,
        best.1 == donor_offset(src@, cx, cy, r, *compass).1,
{
    let zero: Single = Single::from_bits(ZERO);
    let w: Single = Single::from_u64(src.width as u64);
    let h: Single = Single::from_u64(src.height as u64);
    let mut best_x: i32 = 0;
    let mut best_y: i32 = 0;
    let mut best_score: Single = Single::from_bits(INFINITY);
    for k in 0..48usize
        invariant
            src.well_formed(),
            src.width > 0,
            src.height > 0,
            compass.well_formed(),
            zero == num(ZERO),
            w == Single::of_whole(src.width as int),
            h == Single::of_whole(src.height as int),
            (best_score, (best_x as int, best_y as int)) == best_donor(
                src@,
                cx,
                cy,
                r,
                compass.around@,
                compass.ring@,
                k as nat,
            ),
    {
        let far: u32 = if k < 16 {
            TWELVE_FIFTHS
        } else if k < 32 {
            SIXTEEN_FIFTHS
        } else {
            TWENTY_TWO_FIFTHS
        };
        let dist: Single = r.times(Single::from_bits(far));
        let (ax, ay) = compass.around[k % 16];
        let vx: Single = dist.times(ax);
        let vy: Single = dist.times(ay);
        let dcx: Single = cx.plus(vx);
        let dcy: Single = cy.plus(vy);
        let outside: bool = dcx.minus(r).lt(zero) || w.le(dcx.plus(r)) || dcy.minus(r).lt(zero)
            || h.le(dcy.plus(r));
        if !outside {
            let ox: i32 = vx.round().to_i32();
            let oy: i32 = vy.round().to_i32();
            if donor_stays_in(src.width, src.height, cx, cy, r, ox, oy) {
                let score: Single = donor_score(src, cx, cy, r, vx, vy, compass);
                if score.lt(best_score) {
                    best_score = score;
                    best_x = ox;
                    best_y = oy;
                }
            }
        }
    }
    (best_x, best_y)
}

/// One spot in pixels: the disk to heal, where its donor lies, and how the donor
/// is laid over it.
#[verifier::ext_equal]
pub struct Patch {
    pub cx: Single,
    pub cy: Single,
    pub r: Single,
    pub feather: Single,
    pub ox: int,
    pub oy: int,
    pub raw: bool,
    pub coverage: Option<CoverageView>,
}

/// The sum of what the border of the spot has over that of its donor, on the
/// first `j` points of the ring.
pub open spec fn border<T: HealDepth>(
    f: Frame<T>,
    p: Patch,
    ring: Seq<(Single, Single)>,
    j: nat,
) -> Rgb<Single>
    decreases j,
{
    if j == 0 {
        Rgb::all(num(ZERO))
    } else {
        let before = border(f, p, ring, (j - 1) as nat);
        let dx = ring[j - 1].0.product(p.r).product(num(TWENTY_THREE_TWENTIETHS));
        let dy = ring[j - 1].1.product(p.r).product(num(TWENTY_THREE_TWENTIETHS));
        let x = p.cx.sum(dx).cast(i32::MIN as int, i32::MAX as int);
        let y = p.cy.sum(dy).cast(i32::MIN as int, i32::MAX as int);
        before.sum(f.sampled(x, y).difference(f.sampled(x + p.ox, y + p.oy)))
    }
}

/// What is added to the donor so that its border meets the spot's. A donor that
/// is copied as it is gets nothing.
pub open spec fn correction<T: HealDepth>(
    f: Frame<T>,
    p: Patch,
    ring: Seq<(Single, Single)>,
) -> Rgb<Single> {
    if p.raw {
        Rgb::all(num(ZERO))
    } else {
        border(f, p, ring, 24).shared(num(TWENTY_FOUR))
    }
}

impl Patch {
    /// The pixel in the middle of the disk.
    pub open spec fn mid_x(self) -> int {
        self.cx.cast(i32::MIN as int, i32::MAX as int)
    }

    pub open spec fn mid_y(self) -> int {
        self.cy.cast(i32::MIN as int, i32::MAX as int)
    }

    /// How many pixels the disk reaches in each direction.
    pub open spec fn span(self) -> int {
        self.r.ceiled().cast(i32::MIN as int, i32::MAX as int)
    }

    /// How far a pixel is from the middle of the disk.
    pub open spec fn off_middle(self, x: int, y: int) -> Single {
        let dx = x - self.mid_x();
        let dy = y - self.mid_y();
        Single::of_int(dx * dx + dy * dy).root()
    }

    /// The pixel lies in the disk.
    pub open spec fn holds(self, x: int, y: int) -> bool {
        &&& -self.span() <= x - self.mid_x() <= self.span()
        &&& -self.span() <= y - self.mid_y() <= self.span()
        &&& !self.r.less(self.off_middle(x, y))
    }

    /// The donor of every pixel of the disk that lies in a frame lies in it too.
    pub open spec fn stays_in(self, w: int, h: int) -> bool {
        forall|x: int, y: int|
            0 <= x < w && 0 <= y < h && #[trigger] self.holds(x, y) ==> 0 <= x + self.ox < w && 0
                <= y + self.oy < h
    }

    /// The weight of the donor at `d` from the middle: one inside, falling to
    /// zero at the edge of the disk.
    pub open spec fn feathered(self, d: Single) -> Single {
        let inner = self.r.product(num(ONE).difference(self.feather));
        if d.at_most(inner) {
            num(ONE)
        } else if inner.less(self.r) {
            self.r.difference(d).quotient(self.r.difference(inner))
        } else {
            num(ONE)
        }
    }

    /// The weight of the donor at a pixel of a frame.
    pub open spec fn weight(self, x: int, y: int, w: int, h: int) -> Single {
        let alpha = self.feathered(self.off_middle(x, y));
        match self.coverage {
            None => alpha,
            Some(c) => alpha.product(
                c.alpha_at(
                    Single::of_int(x).sum(num(HALF)).quotient(Single::of_whole(w)),
                    Single::of_int(y).sum(num(HALF)).quotient(Single::of_whole(h)),
                ),
            ),
        }
    }

    /// The patch writes the pixel: it lies in the disk, it is painted if the spot
    /// was painted, and its donor pixel lies in the frame.
    pub open spec fn writes(self, x: int, y: int, w: int, h: int) -> bool {
        &&& self.holds(x, y)
        &&& self.coverage is Some ==> !self.weight(x, y, w, h).at_most(num(ZERO))
        &&& 0 <= x + self.ox < w
        &&& 0 <= y + self.oy < h
    }

    /// What the patch writes at a pixel: the donor, corrected and laid over.
    pub open spec fn laid<T: HealDepth>(
        self,
        f: Frame<T>,
        corr: Rgb<Single>,
        x: int,
        y: int,
    ) -> Rgb<T> {
        let alpha = self.weight(x, y, f.width, f.height);
        let donor = f.sampled(x + self.ox, y + self.oy).sum(corr);
        let base = f.sampled(x, y);
        Rgb::of_levels(base.scaled(num(ONE).difference(alpha)).sum(donor.scaled(alpha)))
    }

    /// A frame after the patch, which reads the pixels of `src`. Without an
    /// offset there is no donor, and nothing is written.
    pub open spec fn applied<T: HealDepth>(
        self,
        src: Frame<T>,
        dst: Frame<T>,
        ring: Seq<(Single, Single)>,
    ) -> Frame<T> {
        if self.ox == 0 && self.oy == 0 {
            dst
        } else {
            let corr = correction(src, self, ring);
            Frame {
                width: dst.width,
                height: dst.height,
                pixels: Seq::new(
                    dst.pixels.len(),
                    |i: int|
                        if self.writes(i % dst.width, i / dst.width, dst.width, dst.height) {
                            self.laid(src, corr, i % dst.width, i / dst.width)
                        } else {
                            dst.pixels[i]
                        },
                ),
            }
        }
    }
}

/// A spot on its way: what a [`Patch`] says of it.
struct Stamp<'a> {
    cx: Single,
    cy: Single,
    r: Single,
    feather: Single,
    ox: i32,
    oy: i32,
    raw: bool,
    coverage: Option<&'a SpotCoverage>,
}

impl<'a> Stamp<'a> {
    spec fn patch(self) -> Patch {
        Patch {
            cx: self.cx,
            cy: self.cy,
            r: self.r,
            feather: self.feather,
            ox: self.ox as int,
            oy: self.oy as int,
            raw: self.raw,
            coverage: match self.coverage {
                Some(c) => Some(c@),
                None => None,
            },
        }
    }

    spec fn well_formed(self) -> bool {
        match self.coverage {
            Some(c) => c.well_formed(),
            None => true,
        }
    }

    /// What is added to the donor.
    fn tone_match<T: HealDepth>(&self, src: &Raster<T>, compass: &Compass) -> (corr: Rgb<Single>)
        requires
            src.well_formed(),
            src.width > 0,
            src.height > 0,
            compass.well_formed(),
        ensures
            corr == correction(src@, self.patch(), compass.ring@),
    {
        let mut corr: Rgb<Single> = Rgb::all_of(Single::from_bits(ZERO));
        if self.raw {
            return corr;
        }
        let far: Single = Single::from_bits(TWENTY_THREE_TWENTIETHS);
        for j in 0..24usize
            invariant
                src.well_formed(),
                src.width > 0,
                src.height > 0,
                compass.well_formed(),
                far == num(TWENTY_THREE_TWENTIETHS),
                corr == border(src@, self.patch(), compass.ring@, j as nat),
        {
            let (c, s) = compass.ring[j];
            let dx: Single = c.times(self.r).times(far);
            let dy: Single = s.times(self.r).times(far);
            let x: i64 = self.cx.plus(dx).to_i32() as i64;
            let y: i64 = self.cy.plus(dy).to_i32() as i64;
            let target: Rgb<Single> = src.px(x, y);
            let donor: Rgb<Single> = src.px(x + self.ox as i64, y + self.oy as i64);
            corr = corr.plus(target.minus(donor));
        }
        corr.share(Single::from_bits(TWENTY_FOUR))
    }

    /// What is written at a pixel of the frame, if anything is.
    fn at<T: HealDepth>(&self, src: &Raster<T>, corr: Rgb<Single>, x: i64, y: i64) -> (out: Option<
        Rgb<T>,
    >)
        requires
            self.well_formed(),
            src.well_formed(),
            0 <= x < src.width,
            0 <= y < src.height,
            -self.patch().span() <= x - self.patch().mid_x() <= self.patch().span(),
            -self.patch().span() <= y - self.patch().mid_y() <= self.patch().span(),
        ensures
            out is Some <==> self.patch().writes(
                x as int,
                y as int,
                src.width as int,
                src.height as int,
            ),
            out is Some ==> out->0 == self.patch().laid(src@, corr, x as int, y as int),
    {
        let one: Single = Single::from_bits(ONE);
        let half: Single = Single::from_bits(HALF);
        let w: i64 = src.width as i64;
        let h: i64 = src.height as i64;
        let dx: i64 = x - self.cx.to_i32() as i64;
        let dy: i64 = y - self.cy.to_i32() as i64;
        proof {
            assert(dx * dx + dy * dy <= i64::MAX && 0 <= dx * dx && 0 <= dy * dy)
                by (nonlinear_arith)
                requires
                    -0x7FFF_FFFF <= dx <= 0x7FFF_FFFF,
                    -0x7FFF_FFFF <= dy <= 0x7FFF_FFFF,
            ;
        }
        let d: Single = Single::from_i64(dx * dx + dy * dy).sqrt();
        if self.r.lt(d) {
            return None;
        }
        let inner: Single = self.r.times(one.minus(self.feather));
        let mut alpha: Single = if d.le(inner) {
            one
        } else if inner.lt(self.r) {
            self.r.minus(d).over(self.r.minus(inner))
        } else {
            one
        };
        match self.coverage {
            None => {},
            Some(c) => {
                let nx: Single = Single::from_i64(x).plus(half).over(
                    Single::from_u64(src.width as u64),
                );
                let ny: Single = Single::from_i64(y).plus(half).over(
                    Single::from_u64(src.height as u64),
                );
                alpha = alpha.times(c.alpha_at(nx, ny));
                if alpha.le(Single::from_bits(ZERO)) {
                    return None;
                }
            },
        }
        let sx: i64 = x + self.ox as i64;
        let sy: i64 = y + self.oy as i64;
        if sx < 0 || sy < 0 || sx >= w || sy >= h {
            return None;
        }
        let donor: Rgb<Single> = src.px(sx, sy).plus(corr);
        let base: Rgb<Single> = src.px(x, y);
        let v: Rgb<Single> = base.scale(one.minus(alpha)).plus(donor.scale(alpha));
        Some(Rgb { r: T::from_chan(v.r), g: T::from_chan(v.g), b: T::from_chan(v.b) })
    }
}

/// Lays one spot's donor over it. The pixels of the donor, and those it is laid
/// over, are read from `src`.
#[verifier::rlimit(40)]
fn heal_one<T: HealDepth>(
    src: &Raster<T>,
    dst: &mut Raster<T>,
    stamp: &Stamp<'_>,
    compass: &Compass,
)
    requires
        stamp.well_formed(),
        src.well_formed(),
        src.width > 0,
        src.height > 0,
        old(dst).well_formed(),
        old(dst).width == src.width,
        old(dst).height == src.height,
        compass.well_formed(),
    ensures
        final(dst).well_formed(),
        final(dst)@ == stamp.patch().applied(src@, old(dst)@, compass.ring@),
{
    if stamp.ox == 0 && stamp.oy == 0 {
        return;
    }
    let corr: Rgb<Single> = stamp.tone_match(src, compass);
    let w: i64 = src.width as i64;
    let h: i64 = src.height as i64;
    let mid_x: i64 = stamp.cx.to_i32() as i64;
    let mid_y: i64 = stamp.cy.to_i32() as i64;
    let span: i64 = stamp.r.ceil().to_i32() as i64;
    let x_lo: i64 = if mid_x - span < 0 {
        0
    } else {
        mid_x - span
    };
    let x_hi: i64 = if mid_x + span >= w {
        w
    } else {
        mid_x + span + 1
    };
    let y_lo: i64 = if mid_y - span < 0 {
        0
    } else {
        mid_y - span
    };
    let y_hi: i64 = if mid_y + span >= h {
        h
    } else {
        mid_y + span + 1
    };
    let ghost before = dst@;
    let ghost after = stamp.patch().applied(src@, before, compass.ring@);
    let ghost wi = w as int;
    let ghost p = stamp.patch();
    let mut y: i64 = y_lo;
    proof {
        assert forall|i: int| 0 <= i < before.pixels.len() && !(y_lo <= i / wi < y_hi && x_lo <= i
            % wi < x_hi) implies #[trigger] after.pixels[i] == before.pixels[i] by {
            lemma_mod_bound(i, wi);
            lemma_fundamental_div_mod(i, wi);
            assert(0 <= i / wi < h) by (nonlinear_arith)
                requires
                    i == wi * (i / wi) + i % wi,
                    0 <= i % wi < wi,
                    0 <= i < wi * h,
                    wi > 0,
            ;
            assert(!p.holds(i % wi, i / wi));
        }
        assert forall|i: int| 0 <= i < dst@.pixels.len() implies #[trigger] dst@.pixels[i] == (if i
            / wi < y {
            after.pixels[i]
        } else {
            before.pixels[i]
        }) by {}
    }
    while y < y_hi
        invariant
            stamp.well_formed(),
            p == stamp.patch(),
            src.well_formed(),
            wi == w,
            w == src.width,
            h == src.height,
            w > 0,
            0 <= y_lo <= y,
            y_hi <= h,
            0 <= x_lo,
            x_hi <= w,
            mid_x == p.mid_x(),
            mid_y == p.mid_y(),
            span == p.span(),
            mid_x - span <= x_lo,
            x_hi <= mid_x + span + 1,
            mid_y - span <= y_lo,
            y_hi <= mid_y + span + 1,
            before.well_formed(),
            before.width == w,
            before.height == h,
            after == p.applied(src@, before, compass.ring@),
            corr == correction(src@, p, compass.ring@),
            p.ox != 0 || p.oy != 0,
            dst@.well_formed(),
            dst@.width == w,
            dst@.height == h,
            forall|i: int|
                0 <= i < before.pixels.len() && !(y_lo <= i / wi < y_hi && x_lo <= i % wi < x_hi)
                    ==> #[trigger] after.pixels[i] == before.pixels[i],
            forall|i: int|
                0 <= i < before.pixels.len() ==> #[trigger] dst@.pixels[i] == (if i / wi < y {
                    after.pixels[i]
                } else {
                    before.pixels[i]
                }),
        decreases y_hi - y,
    {
        let mut x: i64 = x_lo;
        proof {
            assert forall|i: int| 0 <= i < before.pixels.len() implies #[trigger] dst@.pixels[i] == (
            if i / wi < y || (i / wi == y && i % wi < x) {
                after.pixels[i]
            } else {
                before.pixels[i]
            }) by {}
        }
        while x < x_hi
            invariant
                stamp.well_formed(),
                p == stamp.patch(),
                src.well_formed(),
                wi == w,
                w == src.width,
                h == src.height,
                w > 0,
                0 <= y_lo <= y < y_hi,
                y_hi <= h,
                0 <= x_lo <= x,
                x_hi <= w,
                mid_x == p.mid_x(),
                mid_y == p.mid_y(),
                span == p.span(),
                mid_x - span <= x_lo,
                x_hi <= mid_x + span + 1,
                mid_y - span <= y_lo,
                y_hi <= mid_y + span + 1,
                before.well_formed(),
                before.width == w,
                before.height == h,
                after == p.applied(src@, before, compass.ring@),
                corr == correction(src@, p, compass.ring@),
                p.ox != 0 || p.oy != 0,
                dst@.well_formed(),
                dst@.width == w,
                dst@.height == h,
                forall|i: int|
                    0 <= i < before.pixels.len() ==> #[trigger] dst@.pixels[i] == (if i / wi < y
                        || (i / wi == y && i % wi < x) {
                        after.pixels[i]
                    } else {
                        before.pixels[i]
                    }),
            decreases x_hi - x,
        {
            let n: usize = dst.pixels.len();
            proof {
                lemma_index(x as int, y as int, wi, h as int);
            }
            let at: usize = y as usize * w as usize + x as usize;
            let ghost was = dst@.pixels;
            match stamp.at(src, corr, x, y) {
                Some(v) => {
                    dst.pixels.set(at, v);
                },
                None => {},
            }
            proof {
                assert(dst@.pixels[at as int] == after.pixels[at as int]);
                assert forall|i: int| 0 <= i < before.pixels.len() implies #[trigger] dst@.pixels[i]
                    == (if i / wi < y || (i / wi == y && i % wi < x + 1) {
                    after.pixels[i]
                } else {
                    before.pixels[i]
                }) by {
                    if i != at {
                        assert(dst@.pixels[i] == was[i]);
                        lemma_fundamental_div_mod(i, wi);
                        assert((i / wi) * wi == wi * (i / wi)) by (nonlinear_arith);
                    }
                }
            }
            x = x + 1;
        }
        proof {
            assert forall|i: int| 0 <= i < before.pixels.len() implies #[trigger] dst@.pixels[i] == (
            if i / wi < y + 1 {
                after.pixels[i]
            } else {
                before.pixels[i]
            }) by {}
        }
        y = y + 1;
    }
    proof {
        assert(dst@.pixels =~= after.pixels);
    }
}

/// The patch that a spot makes on a picture.
pub open spec fn patch_of<T: HealDepth>(f: Frame<T>, s: SpotView, compass: Compass) -> Patch {
    let short = Single::of_whole(
        if f.width <= f.height {
            f.width
        } else {
            f.height
        },
    );
    let cx = s.cx.clamped(num(ZERO), num(ONE)).product(Single::of_whole(f.width));
    let cy = s.cy.clamped(num(ZERO), num(ONE)).product(Single::of_whole(f.height));
    let r = s.radius.clamped(num(ZERO), num(HALF)).product(short).larger(num(TWO));
    let off = match s.source {
        Some(v) => (
            v.0.product(Single::of_whole(f.width)).rounded().cast(
                i32::MIN as int,
                i32::MAX as int,
            ),
            v.1.product(Single::of_whole(f.height)).rounded().cast(
                i32::MIN as int,
                i32::MAX as int,
            ),
        ),
        None => donor_offset(f, cx, cy, r, compass),
    };
    Patch {
        cx,
        cy,
        r,
        feather: s.feather.clamped(num(ZERO), num(ONE)),
        ox: off.0,
        oy: off.1,
        raw: s.clone_raw,
        coverage: s.coverage,
    }
}

/// A picture after the first `k` spots. Every spot reads the pixels that the
/// picture had at first; where two overlap, the later one stands.
pub open spec fn healed<T: HealDepth>(
    f: Frame<T>,
    spots: Seq<SpotView>,
    compass: Compass,
    k: nat,
) -> Frame<T>
    decreases k,
{
    if k == 0 {
        f
    } else {
        patch_of(f, spots[k - 1], compass).applied(
            f,
            healed(f, spots, compass, (k - 1) as nat),
            compass.ring@,
        )
    }
}

/// A picture without pixels stays as it is.
proof fn lemma_nothing_to_heal<T: HealDepth>(
    f: Frame<T>,
    spots: Seq<SpotView>,
    compass: Compass,
    k: nat,
)
    requires
        f.pixels.len() == 0,
    ensures
        healed(f, spots, compass, k) == f,
    decreases k,
{
    if k > 0 {
        lemma_nothing_to_heal(f, spots, compass, (k - 1) as nat);
        assert(healed(f, spots, compass, k) =~= f);
    }
}

/// Heals every spot from the real pixels around it.
pub fn heal_image<T: HealDepth>(img: &mut Raster<T>, spots: &Vec<HealSpot>, compass: &Compass)
    requires
        old(img).well_formed(),
        all_well_formed(spots@),
        compass.well_formed(),
    ensures
        final(img).well_formed(),
        final(img)@ == healed(old(img)@, spot_views(spots@), *compass, spots@.len()),
{
    let ghost f = img@;
    if img.width == 0 || img.height == 0 {
        proof {
            assert(f.pixels.len() == 0) by (nonlinear_arith)
                requires
                    f.pixels.len() == f.width * f.height,
                    f.width == 0 || f.height == 0,
            ;
            lemma_nothing_to_heal(f, spot_views(spots@), *compass, spots@.len());
        }
        return;
    }
    let src: Raster<T> = Raster {
        width: img.width,
        height: img.height,
        pixels: copy_pixels(&img.pixels),
    };
    let n: usize = spots.len();
    for k in 0..n
        invariant
            n == spots@.len(),
            all_well_formed(spots@),
            compass.well_formed(),
            src@ == f,
            src.well_formed(),
            src.width > 0,
            src.height > 0,
            img.well_formed(),
            img.width == src.width,
            img.height == src.height,
            img@ == healed(f, spot_views(spots@), *compass, k as nat),
    {
        let stamp: Stamp<'_> = stamp_of(&src, &spots[k], compass);
        proof {
            assert(spot_views(spots@)[k as int] == spots@[k as int]@);
        }
        heal_one(&src, img, &stamp, compass);
    }
}

/// The stamp that a spot makes on a picture.
fn stamp_of<'a, T: HealDepth>(src: &Raster<T>, s: &'a HealSpot, compass: &Compass) -> (stamp:
    Stamp<'a>)
    requires
        src.well_formed(),
        src.width > 0,
        src.height > 0,
        s.well_formed(),
        compass.well_formed(),
    ensures
        stamp.well_formed(),
        stamp.patch() == patch_of(src@, s@, *compass),
{
    let zero: Single = Single::from_bits(ZERO);
    let one: Single = Single::from_bits(ONE);
    let half: Single = Single::from_bits(HALF);
    let w: Single = Single::from_u64(src.width as u64);
    let h: Single = Single::from_u64(src.height as u64);
    let short: Single = Single::from_u64(
        if src.width <= src.height {
            src.width as u64
        } else {
            src.height as u64
        },
    );
    let cx: Single = s.cx.clamp(zero, one).times(w);
    let cy: Single = s.cy.clamp(zero, one).times(h);
    let r: Single = s.radius.clamp(zero, half).times(short).max(Single::from_bits(TWO));
    let (ox, oy) = match s.source {
        Some((sx, sy)) => (sx.times(w).round().to_i32(), sy.times(h).round().to_i32()),
        None => find_donor(src, cx, cy, r, compass),
    };
    Stamp {
        cx,
        cy,
        r,
        feather: s.feather.clamp(zero, one),
        ox,
        oy,
        raw: s.clone_raw,
        coverage: match &s.coverage {
            Some(c) => Some(c),
            None => None,
        },
    }
}

fn copy_pixels<T: HealDepth>(pixels: &Vec<Rgb<T>>) -> (r: Vec<Rgb<T>>)
    ensures
        r@ == pixels@,
{
    let mut r: Vec<Rgb<T>> = Vec::new();
    let n: usize = pixels.len();
    for i in 0..n
        invariant
            n == pixels@.len(),
            r@ == pixels@.take(i as int),
    {
        r.push(pixels[i]);
        assert(pixels@.take(i + 1) =~= pixels@.take(i as int).push(pixels@[i as int]));
    }
    assert(pixels@.take(n as int) =~= pixels@);
    r
}

/// A spot's patch writes pixel `i` of a picture.
pub open spec fn touches<T: HealDepth>(f: Frame<T>, s: SpotView, compass: Compass, i: int) -> bool {
    let p = patch_of(f, s, compass);
    (p.ox != 0 || p.oy != 0) && p.writes(i % f.width, i / f.width, f.width, f.height)
}

/// A donor that was searched for drops no pixel: wherever the disk lies in the frame, its
/// donor does too.
pub proof fn a_found_donor_stays_in_the_frame<T: HealDepth>(
    f: Frame<T>,
    cx: Single,
    cy: Single,
    r: Single,
    compass: Compass,
)
    ensures
        disk_at(cx, cy, r, donor_offset(f, cx, cy, r, compass)).stays_in(f.width, f.height),
{
    lemma_donor_stays(f, cx, cy, r, compass.around@, compass.ring@, 48);
}

proof fn lemma_donor_stays<T: HealDepth>(
    f: Frame<T>,
    cx: Single,
    cy: Single,
    r: Single,
    around: Seq<(Single, Single)>,
    ring: Seq<(Single, Single)>,
    k: nat,
)
    ensures
        disk_at(cx, cy, r, best_donor(f, cx, cy, r, around, ring, k).1).stays_in(
            f.width,
            f.height,
        ),
    decreases k,
{
    if k > 0 {
        lemma_donor_stays(f, cx, cy, r, around, ring, (k - 1) as nat);
    }
}

/// A spot without a source of its own that finds a donor writes every painted pixel of
/// its disk that lies in the frame.
pub proof fn a_healed_spot_is_healed_whole<T: HealDepth>(
    f: Frame<T>,
    s: SpotView,
    compass: Compass,
    x: int,
    y: int,
)
    requires
        s.source is None,
        0 <= x < f.width,
        0 <= y < f.height,
        patch_of(f, s, compass).holds(x, y),
    ensures
        ({
            let p = patch_of(f, s, compass);
            p.coverage is None || !p.weight(x, y, f.width, f.height).at_most(num(ZERO)) ==> p.writes(
                x,
                y,
                f.width,
                f.height,
            )
        }),
{
    let p = patch_of(f, s, compass);
    a_found_donor_stays_in_the_frame(f, p.cx, p.cy, p.r, compass);
    assert(disk_at(p.cx, p.cy, p.r, (p.ox, p.oy)).holds(x, y));
}

/// Healing keeps the size of a picture.
pub proof fn healing_keeps_the_size<T: HealDepth>(
    f: Frame<T>,
    spots: Seq<SpotView>,
    compass: Compass,
    k: nat,
)
    ensures
        healed(f, spots, compass, k).width == f.width,
        healed(f, spots, compass, k).height == f.height,
        healed(f, spots, compass, k).pixels.len() == f.pixels.len(),
    decreases k,
{
    if k > 0 {
        healing_keeps_the_size(f, spots, compass, (k - 1) as nat);
    }
}

/// A pixel that no spot writes stays as it was.
pub proof fn what_no_spot_writes_stays<T: HealDepth>(
    f: Frame<T>,
    spots: Seq<SpotView>,
    compass: Compass,
    k: nat,
    i: int,
)
    requires
        k <= spots.len(),
        0 <= i < f.pixels.len(),
        forall|n: int| 0 <= n < k ==> !touches(f, #[trigger] spots[n], compass, i),
    ensures
        healed(f, spots, compass, k).pixels[i] == f.pixels[i],
    decreases k,
{
    if k > 0 {
        healing_keeps_the_size(f, spots, compass, (k - 1) as nat);
        what_no_spot_writes_stays(f, spots, compass, (k - 1) as nat, i);
        assert(!touches(f, spots[k - 1], compass, i));
    }
}

/// Where spots overlap, the last one that writes a pixel decides it, and it reads
/// the picture as it was before any of them.
pub proof fn the_last_spot_stands<T: HealDepth>(
    f: Frame<T>,
    spots: Seq<SpotView>,
    compass: Compass,
    k: nat,
    last: int,
    i: int,
)
    requires
        k <= spots.len(),
        0 <= last < k,
        0 <= i < f.pixels.len(),
        touches(f, spots[last], compass, i),
        forall|n: int| last < n < k ==> !touches(f, #[trigger] spots[n], compass, i),
    ensures
        ({
            let p = patch_of(f, spots[last], compass);
            healed(f, spots, compass, k).pixels[i] == p.laid(
                f,
                correction(f, p, compass.ring@),
                i % f.width,
                i / f.width,
            )
        }),
    decreases k,
{
    healing_keeps_the_size(f, spots, compass, (k - 1) as nat);
    if last < k - 1 {
        the_last_spot_stands(f, spots, compass, (k - 1) as nat, last, i);
        assert(!touches(f, spots[k - 1], compass, i));
    }
}

} // verus!
