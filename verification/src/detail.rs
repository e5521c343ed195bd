//! The detail panel: what its sliders come to on a raster.

use vstd::prelude::*;
use crate::film::FilmScale;
use crate::finish::{along, fraction, ramp, share};
use crate::heal::Rgb;
use crate::numbers::{FOUR, HALF, HUNDRED, ONE, QUARTER, THREE, TWO, ZERO};
use crate::recipe::EditRecipe;
use crate::single::{num, Single};

verus! {

/// 0.6: the smallest radius that a blur is sampled at.
pub const MIN_SIGMA: u32 = 0x3F19_999A;

/// 0.02: the limit of the boost at a detail of nought.
pub const HALO_NEAR: u32 = 0x3CA3_D70A;

/// 0.04: the gradient at which masking opens, at the end of its slider.
pub const EDGE_FAR: u32 = 0x3D23_D70A;

/// 0.004: the variation that is taken for noise, at the near end.
pub const NOISE_NEAR: u32 = 0x3B83_126F;

/// 0.054: the same at the far end.
pub const NOISE_FAR: u32 = 0x3D5D_2F1B;

/// 1.6: how the threshold is scaled at a detail of nought.
pub const KEEP_NEAR: u32 = 0x3FCC_CCCD;

/// 0.4: the same at full detail.
pub const KEEP_FAR: u32 = 0x3ECC_CCCD;

/// 16.0: the reach of colour noise reduction at the end of its slider.
pub const COLOR_FAR: u32 = 0x4180_0000;

/// 0.08: the luma variation that stops colour, at a detail of nought.
pub const COLOR_EDGE_NEAR: u32 = 0x3DA3_D70A;

/// 0.01: the same at full detail.
pub const COLOR_EDGE_FAR: u32 = 0x3C23_D70A;

/// 2.5: the pixels of the reach to a block.
pub const BLOCKS: u32 = 0x4020_0000;

/// The sharpening sliders.
#[derive(Clone, Copy, Debug)]
pub struct SharpenParams {
    /// The slider's share of its way; below nought it softens.
    pub amount: Single,
    /// In pixels of film.
    pub radius: Single,
    pub detail: Single,
    pub masking: Single,
}

/// The sharpening sliders at an amount. The radius is at least half a pixel.
pub open spec fn sharpen_params(
    amount: Single,
    radius: Single,
    detail: Single,
    masking: Single,
) -> SharpenParams {
    SharpenParams {
        amount: amount.quotient(num(HUNDRED)),
        radius: radius.larger(num(HALF)),
        detail: fraction(detail),
        masking: fraction(masking),
    }
}

/// What a sharpening pass uses.
#[derive(Clone, Copy, Debug)]
pub struct SharpenPlan {
    /// The radius on the raster.
    pub sigma_true: Single,
    /// The radius that is sampled.
    pub sigma: Single,
    /// The limit of the boost.
    pub limit: Single,
    /// The weight of the finest detail.
    pub fine: Single,
    /// The gradients between which masking opens.
    pub edge_from: Single,
    pub edge_to: Single,
}

impl SharpenParams {
    /// The plan of a pass over a raster; none where it has nothing to do.
    pub open spec fn planned(self, w: int, h: int, per_pixel: Single) -> Option<SharpenPlan> {
        let sigma_true = self.radius.larger(num(HALF)).quotient(per_pixel);
        let full = ramp(ZERO, EDGE_FAR, self.masking);
        if w == 0 || h == 0 || self.amount.equals(num(ZERO)) || !self.amount.finite() {
            None
        } else {
            Some(
                SharpenPlan {
                    sigma_true,
                    sigma: sigma_true.larger(num(MIN_SIGMA)),
                    limit: ramp(HALO_NEAR, ONE, self.detail.product(self.detail)),
                    fine: if self.amount.less(num(ZERO)) {
                        num(ZERO)
                    } else {
                        ramp(ZERO, HALF, self.detail)
                    },
                    edge_from: num(QUARTER).product(full),
                    edge_to: full,
                },
            )
        }
    }

    /// The sliders of a recipe at an amount. The radius and the detail are those
    /// in force: a recipe may leave them to their defaults.
    pub fn at_amount(r: &EditRecipe, radius: Single, detail: Single, amount: Single) -> (p:
        SharpenParams)
        ensures
            p == sharpen_params(amount, radius, detail, r.sharpen_mask),
    {
        SharpenParams {
            amount: amount.over(Single::from_bits(HUNDRED)),
            radius: radius.max(Single::from_bits(HALF)),
            detail: share(detail),
            masking: share(r.sharpen_mask),
        }
    }

    /// The sliders of a recipe; none at an amount of nought.
    pub fn global(r: &EditRecipe, radius: Single, detail: Single) -> (p: Option<SharpenParams>)
        ensures
            p == (if num(ZERO).less(r.sharpening) {
                Some(sharpen_params(r.sharpening, radius, detail, r.sharpen_mask))
            } else {
                None
            }),
    {
        if Single::from_bits(ZERO).lt(r.sharpening) {
            Some(SharpenParams::at_amount(r, radius, detail, r.sharpening))
        } else {
            None
        }
    }

    pub fn plan(&self, w: usize, h: usize, film: FilmScale) -> (p: Option<SharpenPlan>)
        ensures
            p == self.planned(w as int, h as int, film.per_pixel()),
    {
        let zero: Single = Single::from_bits(ZERO);
        if w == 0 || h == 0 || (self.amount.le(zero) && zero.le(self.amount))
            || !self.amount.is_finite() {
            return None;
        }
        let sigma_true: Single = film.raster_px(self.radius.max(Single::from_bits(HALF)));
        let full: Single = along(ZERO, EDGE_FAR, self.masking);
        Some(
            SharpenPlan {
                sigma_true,
                sigma: sigma_true.max(Single::from_bits(MIN_SIGMA)),
                limit: along(HALO_NEAR, ONE, self.detail.times(self.detail)),
                fine: if self.amount.lt(zero) {
                    zero
                } else {
                    along(ZERO, HALF, self.detail)
                },
                edge_from: Single::from_bits(QUARTER).times(full),
                edge_to: full,
            },
        )
    }
}

/// The sliders of luminance noise reduction, each from nought to one.
#[derive(Clone, Copy, Debug)]
pub struct LumaNrParams {
    pub amount: Single,
    pub detail: Single,
    pub contrast: Single,
}

/// What a pass of it uses: its reach in pixels of the raster, and the variation
/// that it takes for noise, squared.
#[derive(Clone, Copy, Debug)]
pub struct LumaNrPlan {
    pub radius: u64,
    pub eps: Single,
}

/// A length as a number of pixels, at least `least`.
pub open spec fn pixels(v: Single, least: int) -> int {
    let n = v.rounded().cast(0, u64::MAX as int);
    if n < least {
        least
    } else {
        n
    }
}

fn to_pixels(v: Single, least: u64) -> (r: u64)
    ensures
        r == pixels(v, least as int),
{
    let n: u64 = v.round().to_u64();
    if n < least {
        least
    } else {
        n
    }
}

impl LumaNrParams {
    /// The plan of a pass over a raster; none at an amount of nought, and none
    /// where the reach is below a quarter of a pixel.
    pub open spec fn planned(self, w: int, h: int, per_pixel: Single) -> Option<LumaNrPlan> {
        let reach = ramp(ONE, FOUR, self.amount).quotient(per_pixel);
        let noise = ramp(NOISE_NEAR, NOISE_FAR, self.amount).product(
            ramp(KEEP_NEAR, KEEP_FAR, self.detail),
        ).quotient(per_pixel);
        if w == 0 || h == 0 || self.amount.at_most(num(ZERO)) || reach.less(num(QUARTER)) {
            None
        } else {
            Some(LumaNrPlan { radius: pixels(reach, 1) as u64, eps: noise.product(noise) })
        }
    }

    /// The sliders of a recipe at an amount. The detail is that in force.
    pub fn at_amount(r: &EditRecipe, detail: Single, amount: Single) -> (p: LumaNrParams)
        ensures
            p == (LumaNrParams {
                amount: fraction(amount),
                detail: fraction(detail),
                contrast: fraction(r.nr_contrast),
            }),
    {
        LumaNrParams { amount: share(amount), detail: share(detail), contrast: share(r.nr_contrast) }
    }

    /// The sliders of a recipe; none at an amount of nought.
    pub fn global(r: &EditRecipe, detail: Single) -> (p: Option<LumaNrParams>)
        ensures
            p == (if num(ZERO).less(r.noise_reduction) {
                Some(
                    LumaNrParams {
                        amount: fraction(r.noise_reduction),
                        detail: fraction(detail),
                        contrast: fraction(r.nr_contrast),
                    },
                )
            } else {
                None
            }),
    {
        if Single::from_bits(ZERO).lt(r.noise_reduction) {
            Some(LumaNrParams::at_amount(r, detail, r.noise_reduction))
        } else {
            None
        }
    }

    pub fn plan(&self, w: usize, h: usize, film: FilmScale) -> (p: Option<LumaNrPlan>)
        ensures
            p == self.planned(w as int, h as int, film.per_pixel()),
    {
        if w == 0 || h == 0 || self.amount.le(Single::from_bits(ZERO)) {
            return None;
        }
        let reach: Single = film.raster_px(along(ONE, FOUR, self.amount));
        if reach.lt(Single::from_bits(QUARTER)) {
            return None;
        }
        let noise: Single = along(NOISE_NEAR, NOISE_FAR, self.amount).times(
            along(KEEP_NEAR, KEEP_FAR, self.detail),
        ).over(film.factor());
        Some(LumaNrPlan { radius: to_pixels(reach, 1), eps: noise.times(noise) })
    }
}

/// The sliders of colour noise reduction, each from nought to one.
#[derive(Clone, Copy, Debug)]
pub struct ChromaNrParams {
    pub amount: Single,
    pub detail: Single,
    pub smoothness: Single,
}

/// What a pass of it uses. It works on blocks of the raster.
#[derive(Clone, Copy, Debug)]
pub struct ChromaNrPlan {
    /// The side of a block.
    pub block: u64,
    /// The blocks across and down.
    pub across: u64,
    pub down: u64,
    /// The reach, in blocks.
    pub radius: u64,
    /// The luma variation that stops colour, squared.
    pub eps: Single,
    /// The reach of the offsets, in blocks.
    pub smooth_radius: u64,
    /// How much of the result replaces the picture.
    pub blend: Single,
}

/// The parts of `s` that it takes to hold `n`.
pub open spec fn parts(n: int, s: int) -> int {
    (n + s - 1) / s
}

/// The side of a block: the reach in blocks of two and a half pixels, at least
/// two, and no longer than the raster.
pub open spec fn block_side(reach: Single, w: int, h: int) -> int {
    let n = reach.quotient(num(BLOCKS)).floored().cast(0, u64::MAX as int);
    let longest = if w < h {
        h
    } else {
        w
    };
    let m = if n < 2 {
        2
    } else {
        n
    };
    if m > longest {
        longest
    } else {
        m
    }
}

impl ChromaNrParams {
    /// The plan of a pass over a raster; none at an amount of nought, and none
    /// where the reach is below half a pixel.
    pub open spec fn planned(self, w: int, h: int, per_pixel: Single) -> Option<ChromaNrPlan> {
        let reach = ramp(TWO, COLOR_FAR, self.amount).quotient(per_pixel);
        let edge = ramp(COLOR_EDGE_NEAR, COLOR_EDGE_FAR, self.detail).quotient(per_pixel);
        let s = block_side(reach, w, h);
        let radius = pixels(reach.quotient(Single::of_whole(s)), 1);
        if w == 0 || h == 0 || self.amount.at_most(num(ZERO)) || reach.less(num(HALF)) {
            None
        } else {
            Some(
                ChromaNrPlan {
                    block: s as u64,
                    across: parts(w, s) as u64,
                    down: parts(h, s) as u64,
                    radius: radius as u64,
                    eps: edge.product(edge),
                    smooth_radius: pixels(
                        Single::of_whole(radius).product(ramp(ONE, THREE, self.smoothness)),
                        radius,
                    ) as u64,
                    blend: self.amount.quotient(num(QUARTER)).smaller(num(ONE)),
                },
            )
        }
    }

    /// The sliders of a recipe; none at an amount of nought. The detail and the
    /// smoothness are those in force.
    pub fn global(r: &EditRecipe, detail: Single, smoothness: Single) -> (p: Option<
        ChromaNrParams,
    >)
        ensures
            p == (if num(ZERO).less(r.color_nr) {
                Some(
                    ChromaNrParams {
                        amount: fraction(r.color_nr),
                        detail: fraction(detail),
                        smoothness: fraction(smoothness),
                    },
                )
            } else {
                None
            }),
    {
        if Single::from_bits(ZERO).lt(r.color_nr) {
            Some(
                ChromaNrParams {
                    amount: share(r.color_nr),
                    detail: share(detail),
                    smoothness: share(smoothness),
                },
            )
        } else {
            None
        }
    }

    pub fn plan(&self, w: usize, h: usize, film: FilmScale) -> (p: Option<ChromaNrPlan>)
        ensures
            p == self.planned(w as int, h as int, film.per_pixel()),
    {
        if w == 0 || h == 0 || self.amount.le(Single::from_bits(ZERO)) {
            return None;
        }
        let reach: Single = film.raster_px(along(TWO, COLOR_FAR, self.amount));
        if reach.lt(Single::from_bits(HALF)) {
            return None;
        }
        let n: u64 = reach.over(Single::from_bits(BLOCKS)).floor().to_u64();
        let longest: u64 = if w < h {
            h as u64
        } else {
            w as u64
        };
        let m: u64 = if n < 2 {
            2
        } else {
            n
        };
        let s: u64 = if m > longest {
            longest
        } else {
            m
        };
        let across: u64 = ((w as u128 + s as u128 - 1) / s as u128) as u64;
        let down: u64 = ((h as u128 + s as u128 - 1) / s as u128) as u64;
        let radius: u64 = to_pixels(reach.over(Single::from_u64(s)), 1);
        let edge: Single = along(COLOR_EDGE_NEAR, COLOR_EDGE_FAR, self.detail).over(film.factor());
        let smooth_radius: u64 = to_pixels(
            Single::from_u64(radius).times(along(ONE, THREE, self.smoothness)),
            radius,
        );
        Some(
            ChromaNrPlan {
                block: s,
                across,
                down,
                radius,
                eps: edge.times(edge),
                smooth_radius,
                blend: self.amount.over(Single::from_bits(QUARTER)).min(Single::from_bits(ONE)),
            },
        )
    }
}

/// The blocks of a raster hold every pixel of it, and none of them is empty.
pub proof fn blocks_hold_the_raster(n: int, s: int)
    requires
        n > 0,
        s > 0,
    ensures
        parts(n, s) * s >= n,
        (parts(n, s) - 1) * s < n,
{
    let q = parts(n, s);
    vstd::arithmetic::div_mod::lemma_fundamental_div_mod(n + s - 1, s);
    vstd::arithmetic::div_mod::lemma_mod_bound(n + s - 1, s);
    assert(q * s == s * q && (q - 1) * s == s * q - s) by (nonlinear_arith);
}

/// The level of a pixel, by the weights of its channels.
pub open spec fn weighed(rgb: Rgb<Single>, weights: Rgb<Single>) -> Single {
    rgb.r.product(weights.r).sum(rgb.g.product(weights.g)).sum(rgb.b.product(weights.b))
}

pub fn luminance(rgb: Rgb<Single>, weights: Rgb<Single>) -> (r: Single)
    ensures
        r == weighed(rgb, weights),
{
    rgb.r.times(weights.r).plus(rgb.g.times(weights.g)).plus(rgb.b.times(weights.b))
}

/// Whether the picture from before noise reduction is needed: only where some,
/// but not all, of its grain is given back.
pub fn captures_original(strength: Single, applicable: bool) -> (r: bool)
    ensures
        r == (num(ZERO).less(strength) && strength.less(num(ONE)) && applicable),
{
    Single::from_bits(ZERO).lt(strength) && strength.lt(Single::from_bits(ONE)) && applicable
}

/// The largest difference of two rows of levels.
pub open spec fn largest_delta(a: Seq<u8>, b: Seq<u8>, n: nat) -> int
    decreases n,
{
    if n == 0 {
        0
    } else {
        let before = largest_delta(a, b, (n - 1) as nat);
        let d = if a[n - 1] < b[n - 1] {
            b[n - 1] - a[n - 1]
        } else {
            a[n - 1] - b[n - 1]
        };
        if d > before {
            d
        } else {
            before
        }
    }
}

/// The largest difference of two pictures of one size.
pub fn max_delta(a: &Vec<u8>, b: &Vec<u8>) -> (r: u8)
    requires
        a@.len() == b@.len(),
    ensures
        r == largest_delta(a@, b@, a@.len()),
        forall|i: int| 0 <= i < a@.len() ==> -r <= a@[i] - #[trigger] b@[i] <= r,
{
    let mut r: u8 = 0;
    let n: usize = a.len();
    for i in 0..n
        invariant
            n == a@.len(),
            n == b@.len(),
            r == largest_delta(a@, b@, i as nat),
            forall|j: int| 0 <= j < i ==> -r <= a@[j] - #[trigger] b@[j] <= r,
    {
        let d: u8 = if a[i] < b[i] {
            b[i] - a[i]
        } else {
            a[i] - b[i]
        };
        if d > r {
            r = d;
        }
    }
    r
}

} // verus!
