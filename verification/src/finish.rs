//! The finishing pass: where the crop lies, what the vignette and the grain are
//! made of, and the field that the grain comes from.

use vstd::prelude::*;
use vstd::arithmetic::power2::{
    lemma2_to64, lemma2_to64_rest, lemma_pow2_adds, lemma_pow2_pos, pow2,
};
use crate::blobs::lemma_whole_is_finite;
use crate::film::{FilmScale, Ramp};
use crate::homography::Homography;
use crate::numbers::{
    FOUR, HALF, HUNDRED, MINUS_ONE, ONE, ONE_THOUSANDTH, QUARTER, THREE, TWO, ZERO,
};
use crate::recipe::{Crop, EditRecipe, LensProfile};
use crate::rounding::{lemma_round_at_most, lemma_round_exists};
use crate::single::{lemma_codes_order, magnitude, num, Single, BINADE};
use crate::transform::{constrain_crop, constrained};

verus! {

/// 0.4: where the falloff sits at the near end of its slider.
pub const MID_NEAR: u32 = 0x3ECC_CCCD;

/// 0.02: half of the falloff's width at the near end of its slider.
pub const FEATHER_NEAR: u32 = 0x3CA3_D70A;

/// 0.6: the same at the far end.
pub const FEATHER_FAR: u32 = 0x3F19_999A;

/// 6.0: the exponent of the contour at the far end of its slider.
pub const ROUND_FAR: u32 = 0x40C0_0000;

/// 0.09: the grain's amplitude at the end of its slider.
pub const GRAIN_TOP: u32 = 0x3DB8_51EC;

/// 12.0: a cell of the grain, in pixels of film, at the far end of its slider.
pub const CELL_FAR: u32 = 0x4140_0000;

/// 2 to the power of 24.
pub const TWO_TO_24: u32 = 0x4B80_0000;

/// What is done with the crop before the finishing pass.
#[derive(Clone, Copy, Debug, PartialEq, Eq, Structural)]
pub enum CropPolicy {
    /// It is cut out.
    Cut,
    /// The whole frame is kept; the pass is only placed on the crop.
    Keep,
}

/// The cropped frame, in pixels of the picture that is finished.
#[derive(Clone, Copy, Debug)]
pub struct CropRect {
    pub x0: Single,
    pub y0: Single,
    pub w: Single,
    pub h: Single,
}

/// A side, and one for a side of none.
pub open spec fn side(n: int) -> Single {
    Single::of_whole(
        if n < 1 {
            1
        } else {
            n
        },
    )
}

/// All of a picture.
pub open spec fn whole_rect(w: int, h: int) -> CropRect {
    CropRect { x0: num(ZERO), y0: num(ZERO), w: side(w), h: side(h) }
}

/// A fraction of a side, kept to the side.
pub open spec fn share_of(v: Single, side: Single) -> Single {
    v.clamped(num(ZERO), num(ONE)).product(side)
}

/// Where a crop lies in a picture that still holds the whole frame. A crop
/// without a pixel is no frame; the whole picture stands for it.
pub open spec fn crop_rect(w: int, h: int, crop: Option<Crop>) -> CropRect {
    let all = whole_rect(w, h);
    match crop {
        None => all,
        Some(c) => {
            let x0 = share_of(c.left, all.w);
            let y0 = share_of(c.top, all.h);
            let x1 = share_of(c.right, all.w);
            let y1 = share_of(c.bottom, all.h);
            if x1.difference(x0).less(num(ONE)) || y1.difference(y0).less(num(ONE)) {
                all
            } else {
                CropRect { x0, y0, w: x1.difference(x0), h: y1.difference(y0) }
            }
        },
    }
}

impl CropRect {
    pub fn whole(w: u32, h: u32) -> (r: CropRect)
        ensures
            r == whole_rect(w as int, h as int),
    {
        CropRect {
            x0: Single::from_bits(ZERO),
            y0: Single::from_bits(ZERO),
            w: Single::from_u64(
                if w < 1 {
                    1
                } else {
                    w as u64
                },
            ),
            h: Single::from_u64(
                if h < 1 {
                    1
                } else {
                    h as u64
                },
            ),
        }
    }

    pub fn of(w: u32, h: u32, crop: Option<Crop>) -> (r: CropRect)
        ensures
            r == crop_rect(w as int, h as int, crop),
    {
        let all: CropRect = CropRect::whole(w, h);
        let zero: Single = Single::from_bits(ZERO);
        let one: Single = Single::from_bits(ONE);
        match crop {
            None => all,
            Some(c) => {
                let x0: Single = c.left.clamp(zero, one).times(all.w);
                let y0: Single = c.top.clamp(zero, one).times(all.h);
                let x1: Single = c.right.clamp(zero, one).times(all.w);
                let y1: Single = c.bottom.clamp(zero, one).times(all.h);
                if x1.minus(x0).lt(one) || y1.minus(y0).lt(one) {
                    all
                } else {
                    CropRect { x0, y0, w: x1.minus(x0), h: y1.minus(y0) }
                }
            },
        }
    }

    pub fn cx(self) -> (r: Single)
        ensures
            r == self.x0.sum(self.w.product(num(HALF))),
    {
        self.x0.plus(self.w.times(Single::from_bits(HALF)))
    }

    pub fn cy(self) -> (r: Single)
        ensures
            r == self.y0.sum(self.h.product(num(HALF))),
    {
        self.y0.plus(self.h.times(Single::from_bits(HALF)))
    }
}

/// Whether a frame is resampled for its lens: the profile bends it or shifts its
/// colours, or the distortion slider is moved.
pub fn resamples_lens(profile: &LensProfile, distortion: Single) -> (r: bool)
    ensures
        r == ((profile.distortion_on && profile.distortion@.len() > 0) || (profile.ca_on
            && profile.ca_r@.len() > 0 && profile.ca_b@.len() > 0) || !distortion.equals(
            num(ZERO),
        )),
{
    let zero: Single = Single::from_bits(ZERO);
    profile.geometry_active() || !(distortion.le(zero) && zero.le(distortion))
}

/// Whether a frame is rotated.
pub fn straightens(degrees: Single) -> (r: bool)
    ensures
        r == !degrees.equals(num(ZERO)),
{
    let zero: Single = Single::from_bits(ZERO);
    !(degrees.le(zero) && zero.le(degrees))
}

/// The crop that a frame is cut to: the one that its reshaping allows, if it is
/// to be kept to that and does not lie inside already; else its own.
pub open spec fn crop_in_force(
    warp: Option<Homography>,
    constrain: bool,
    crop: Option<Crop>,
    w: int,
    h: int,
) -> Option<Crop> {
    match warp {
        Some(m) => if constrain && constrained(m@, crop, w, h) is Some {
            constrained(m@, crop, w, h)
        } else {
            crop
        },
        None => crop,
    }
}

pub fn framed_crop(
    warp: Option<Homography>,
    constrain: bool,
    crop: Option<Crop>,
    dims: (u32, u32),
) -> (r: Option<Crop>)
    ensures
        r == crop_in_force(warp, constrain, crop, dims.0 as int, dims.1 as int),
{
    match warp {
        Some(m) => {
            if constrain {
                match constrain_crop(m, crop, dims) {
                    Some(c) => Some(c),
                    None => crop,
                }
            } else {
                crop
            }
        },
        None => crop,
    }
}

/// The frame that the finishing pass works on: all of a picture that was cut, or
/// the crop in one that was kept whole.
pub fn finishing_rect(policy: CropPolicy, dims: (u32, u32), crop: Option<Crop>) -> (r: CropRect)
    ensures
        r == match policy {
            CropPolicy::Cut => whole_rect(dims.0 as int, dims.1 as int),
            CropPolicy::Keep => crop_rect(dims.0 as int, dims.1 as int, crop),
        },
{
    match policy {
        CropPolicy::Cut => CropRect::whole(dims.0, dims.1),
        CropPolicy::Keep => CropRect::of(dims.0, dims.1, crop),
    }
}

/// How a vignette spares the highlights.
#[derive(Clone, Copy, Debug, PartialEq, Eq, Structural)]
pub enum Style {
    /// Each channel by its own level.
    Highlight,
    /// All channels by the pixel's level.
    Colour,
    /// Not at all: black or white is mixed in.
    Paint,
}

/// The vignette of a cropped frame.
#[derive(Clone, Copy, Debug)]
pub struct Vignette {
    /// The change of exposure where the falloff is complete.
    pub stops: Single,
    /// Where the falloff sits, one being the corner.
    pub mid: Single,
    /// Half of its width.
    pub half: Single,
    /// The exponent of its contour, two being an ellipse.
    pub exp: Single,
    /// How much the contour is a circle.
    pub circle: Single,
    pub style: Style,
    /// How far highlights are spared.
    pub hl: Single,
}

/// A slider's share of its way, from nought to one.
pub open spec fn fraction(v: Single) -> Single {
    v.quotient(num(HUNDRED)).clamped(num(ZERO), num(ONE))
}

/// A slider's share of its way to either side.
pub open spec fn signed_fraction(v: Single) -> Single {
    v.quotient(num(HUNDRED)).clamped(num(MINUS_ONE), num(ONE))
}

/// The style that a slider's number names; the first, for a number that names
/// none.
pub open spec fn style_of(v: Single) -> Style {
    let n = v.rounded().cast(i32::MIN as int, i32::MAX as int);
    if n == 2 {
        Style::Colour
    } else if n == 3 {
        Style::Paint
    } else {
        Style::Highlight
    }
}

/// The value at `t` of what goes from one number to another.
pub open spec fn ramp(from: u32, to: u32, t: Single) -> Single {
    num(from).sum(num(to).difference(num(from)).product(t))
}

/// The vignette that the sliders ask for; none at an amount of nought.
pub open spec fn vignette(
    amount: Single,
    mid: Single,
    feather: Single,
    round: Single,
    style: Single,
    hl: Single,
) -> Option<Vignette> {
    let r = signed_fraction(round);
    if amount.equals(num(ZERO)) {
        None
    } else {
        Some(
            Vignette {
                stops: num(FOUR).product(signed_fraction(amount)),
                mid: ramp(MID_NEAR, ONE, fraction(mid)),
                half: ramp(FEATHER_NEAR, FEATHER_FAR, fraction(feather)).larger(
                    num(ONE_THOUSANDTH),
                ),
                exp: ramp(TWO, ROUND_FAR, r.negation().larger(num(ZERO))),
                circle: r.larger(num(ZERO)),
                style: style_of(style),
                hl: fraction(hl),
            },
        )
    }
}

pub(crate) fn share(v: Single) -> (r: Single)
    ensures
        r == fraction(v),
{
    v.over(Single::from_bits(HUNDRED)).clamp(Single::from_bits(ZERO), Single::from_bits(ONE))
}

pub(crate) fn signed_share(v: Single) -> (r: Single)
    ensures
        r == signed_fraction(v),
{
    v.over(Single::from_bits(HUNDRED)).clamp(Single::from_bits(MINUS_ONE), Single::from_bits(ONE))
}

pub(crate) fn along(from: u32, to: u32, t: Single) -> (r: Single)
    ensures
        r == ramp(from, to, t),
{
    (Ramp { from: Single::from_bits(from), to: Single::from_bits(to) }).at(t)
}

impl Vignette {
    /// The vignette of a recipe. The middle, the feather and the style are those
    /// in force: a recipe may leave them to their defaults.
    pub fn of(r: &EditRecipe, mid: Single, feather: Single, style: Single) -> (v: Option<Vignette>)
        ensures
            v == vignette(
                r.post_crop_vignette,
                mid,
                feather,
                r.post_crop_vignette_round,
                style,
                r.post_crop_vignette_hl,
            ),
    {
        let zero: Single = Single::from_bits(ZERO);
        if r.post_crop_vignette.le(zero) && zero.le(r.post_crop_vignette) {
            return None;
        }
        let round: Single = signed_share(r.post_crop_vignette_round);
        let n: i32 = style.round().to_i32();
        Some(
            Vignette {
                stops: Single::from_bits(FOUR).times(signed_share(r.post_crop_vignette)),
                mid: along(MID_NEAR, ONE, share(mid)),
                half: along(FEATHER_NEAR, FEATHER_FAR, share(feather)).max(
                    Single::from_bits(ONE_THOUSANDTH),
                ),
                exp: along(TWO, ROUND_FAR, round.neg().max(zero)),
                circle: round.max(zero),
                style: if n == 2 {
                    Style::Colour
                } else if n == 3 {
                    Style::Paint
                } else {
                    Style::Highlight
                },
                hl: share(r.post_crop_vignette_hl),
            },
        )
    }
}

/// Film grain on a raster.
#[derive(Clone, Copy, Debug)]
pub struct Grain {
    pub sigma: Single,
    /// A cell of the field, in pixels of the raster.
    pub cell: Single,
    pub rough: Single,
}

/// The grain that the sliders ask for; none at an amount of nought.
pub open spec fn grain(amount: Single, size: Single, rough: Single, per_pixel: Single) -> Option<
    Grain,
> {
    if amount.equals(num(ZERO)) {
        None
    } else {
        Some(
            Grain {
                sigma: ramp(ZERO, GRAIN_TOP, fraction(amount)),
                cell: ramp(ONE, CELL_FAR, fraction(size)).quotient(per_pixel).larger(num(QUARTER)),
                rough: fraction(rough),
            },
        )
    }
}

impl Grain {
    /// The grain of a recipe on a raster. The size and the roughness are those in
    /// force.
    pub fn of(r: &EditRecipe, size: Single, rough: Single, film: FilmScale) -> (g: Option<Grain>)
        ensures
            g == grain(r.grain, size, rough, film.per_pixel()),
    {
        let zero: Single = Single::from_bits(ZERO);
        if r.grain.le(zero) && zero.le(r.grain) {
            return None;
        }
        Some(
            Grain {
                sigma: along(ZERO, GRAIN_TOP, share(r.grain)),
                cell: film.raster_px(along(ONE, CELL_FAR, share(size))).max(
                    Single::from_bits(QUARTER),
                ),
                rough: share(rough),
            },
        )
    }
}

/// A whole number as 32 bits, the higher ones left out.
pub open spec fn wrapped(n: int) -> u32 {
    (n % 0x1_0000_0000) as u32
}

/// The bits that a point of the field is given.
pub open spec fn scrambled(x: u32, y: u32) -> u32 {
    let a = x.wrapping_mul(0x9E37_79B9) ^ y.wrapping_mul(0x85EB_CA6B);
    let b = a ^ (a >> 15u32);
    let c = b.wrapping_mul(0x2545_F491);
    c ^ (c >> 13u32)
}

/// The value of a point of the field: the upper 24 bits, as a fraction.
pub open spec fn field_value(x: int, y: int) -> Single {
    Single::of_whole((scrambled(wrapped(x), wrapped(y)) >> 8u32) as int).quotient(num(TWO_TO_24))
}

/// The value of a point of the field is the same at any time and in any picture,
/// at least nought, and below one.
pub fn hash01(x: i64, y: i64) -> (r: Single)
    requires
        -0x100_0000_0000 <= x <= 0x100_0000_0000,
        -0x100_0000_0000 <= y <= 0x100_0000_0000,
    ensures
        r == field_value(x as int, y as int),
        num(ZERO).at_most(r),
        r.less(num(ONE)),
{
    let ux: u32 = ((x + 0x200_0000_0000) % 0x1_0000_0000) as u32;
    let uy: u32 = ((y + 0x200_0000_0000) % 0x1_0000_0000) as u32;
    proof {
        assert((x + 0x200_0000_0000) as int % 0x1_0000_0000 == x as int % 0x1_0000_0000);
        assert((y + 0x200_0000_0000) as int % 0x1_0000_0000 == y as int % 0x1_0000_0000);
    }
    let a: u32 = ux.wrapping_mul(0x9E37_79B9) ^ uy.wrapping_mul(0x85EB_CA6B);
    let b: u32 = a ^ (a >> 15u32);
    let c: u32 = b.wrapping_mul(0x2545_F491);
    let d: u32 = c ^ (c >> 13u32);
    let top: u32 = d >> 8u32;
    assert(top <= 0xFF_FFFF) by (bit_vector)
        requires
            top == d >> 8u32,
    ;
    proof {
        lemma_below_one(top as int);
    }
    Single::from_u64(top as u64).over(Single::from_bits(TWO_TO_24))
}

/// A whole number of 24 bits is less than one such part of one.
proof fn lemma_below_one(k: int)
    requires
        0 <= k <= 0xFF_FFFF,
    ensures
        num(ZERO).at_most(Single::of_whole(k).quotient(num(TWO_TO_24))),
        Single::of_whole(k).quotient(num(TWO_TO_24)).less(num(ONE)),
{
    let a = Single::of_whole(k);
    let unit = pow2(149) as int;
    lemma_pow2_pos(149);
    lemma2_to64();
    lemma2_to64_rest();
    lemma_whole_is_finite(k);
    reveal(Single::of_whole);
    let top: int = 0x4B7F_FFFF;
    assert(top / (BINADE as int) == 150 && top % (BINADE as int) == 0x7F_FFFF);
    assert(magnitude(top) == 0xFF_FFFF * unit);
    assert(0 <= k * unit <= magnitude(top) * 1) by (nonlinear_arith)
        requires
            0 <= k <= 0xFF_FFFF,
            unit > 0,
            magnitude(top) == 0xFF_FFFF * unit,
    ;
    lemma_round_at_most(k * unit, 1, top);
    lemma_round_exists(k * unit, 1);
    lemma_codes_order(a.code(), top);
    lemma_codes_order(0, a.code());
    let b: int = TWO_TO_24 as int;
    assert(b / (BINADE as int) == 151 && b % (BINADE as int) == 0);
    lemma_pow2_adds(23, 150);
    lemma_pow2_adds(24, 149);
    assert(magnitude(b) == 0x100_0000 * unit);
    let below: int = ONE - 1;
    assert(below / (BINADE as int) == 126 && below % (BINADE as int) == 0x7F_FFFF);
    lemma_pow2_adds(24, 125);
    let quarter = pow2(125) as int;
    assert(magnitude(below) == 0xFF_FFFF * quarter);
    assert(unit == 0x100_0000 * quarter);
    let n = magnitude(a.code()) * unit;
    let d = magnitude(b);
    assert(0 <= n <= magnitude(below) * d) by (nonlinear_arith)
        requires
            n == magnitude(a.code()) * unit,
            0 <= magnitude(a.code()) <= 0xFF_FFFF * unit,
            d == 0x100_0000 * unit,
            unit == 0x100_0000 * quarter,
            magnitude(below) == 0xFF_FFFF * quarter,
            unit > 0,
            quarter > 0,
    {
        assert(magnitude(a.code()) * unit <= (0xFF_FFFF * unit) * unit) by (nonlinear_arith)
            requires
                0 <= magnitude(a.code()) <= 0xFF_FFFF * unit,
                unit > 0,
        ;
        assert((0xFF_FFFF * unit) * unit == (0xFF_FFFF * quarter) * (0x100_0000 * unit))
            by (nonlinear_arith)
            requires
                unit == 0x100_0000 * quarter,
        ;
        assert(n >= 0) by (nonlinear_arith)
            requires
                n == magnitude(a.code()) * unit,
                0 <= magnitude(a.code()),
                unit > 0,
        ;
    }
    reveal(Single::quotient);
    lemma_round_exists(n, d);
    lemma_round_at_most(n, d, below);
}

/// The value of a point of the field lies from nought to one.
pub proof fn a_field_value_is_a_share(x: int, y: int)
    ensures
        num(ZERO).at_most(field_value(x, y)),
        field_value(x, y).less(num(ONE)),
{
    let d = scrambled(wrapped(x), wrapped(y));
    let top = d >> 8u32;
    assert(top <= 0xFF_FFFF) by (bit_vector)
        requires
            top == d >> 8u32,
    ;
    lemma_below_one(top as int);
}

/// A step that begins and ends flat: `t t (3 - 2 t)`.
pub open spec fn eased(t: Single) -> Single {
    t.product(t).product(num(THREE).difference(num(TWO).product(t)))
}

/// A value between two, by its share of the way.
pub open spec fn mixed(a: Single, b: Single, t: Single) -> Single {
    a.sum(b.difference(a).product(t))
}

/// The field between its points: their values mixed by the place between them, doubled,
/// less one. `salt` picks one of several fields.
pub open spec fn noise(x: Single, y: Single, cell: Single, salt: int) -> Single {
    let u = x.quotient(cell);
    let v = y.quotient(cell);
    let fx = eased(u.difference(u.floored()));
    let fy = eased(v.difference(v.floored()));
    let ix = u.floored().cast(i32::MIN as int, i32::MAX as int) + salt * 131;
    let iy = v.floored().cast(i32::MIN as int, i32::MAX as int) - salt * 37;
    let top = mixed(field_value(ix, iy), field_value(ix + 1, iy), fx);
    let bottom = mixed(field_value(ix, iy + 1), field_value(ix + 1, iy + 1), fx);
    mixed(top, bottom, fy).product(num(TWO)).difference(num(ONE))
}

fn ease(t: Single) -> (r: Single)
    ensures
        r == eased(t),
{
    t.times(t).times(Single::from_bits(THREE).minus(Single::from_bits(TWO).times(t)))
}

fn mix(a: Single, b: Single, t: Single) -> (r: Single)
    ensures
        r == mixed(a, b, t),
{
    a.plus(b.minus(a).times(t))
}

pub fn value_noise(x: Single, y: Single, cell: Single, salt: i32) -> (r: Single)
    ensures
        r == noise(x, y, cell, salt as int),
{
    let u: Single = x.over(cell);
    let v: Single = y.over(cell);
    let ux: Single = u.floor();
    let uy: Single = v.floor();
    let fx: Single = ease(u.minus(ux));
    let fy: Single = ease(v.minus(uy));
    let ix: i64 = ux.to_i32() as i64 + salt as i64 * 131;
    let iy: i64 = uy.to_i32() as i64 - salt as i64 * 37;
    let top: Single = mix(hash01(ix, iy), hash01(ix + 1, iy), fx);
    let bottom: Single = mix(hash01(ix, iy + 1), hash01(ix + 1, iy + 1), fx);
    mix(top, bottom, fy).times(Single::from_bits(TWO)).minus(Single::from_bits(ONE))
}

} // verus!
