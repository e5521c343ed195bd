//! A clamped recipe is within all its limits, and clamping it again changes and
//! loses nothing.

use vstd::prelude::*;
use vstd::arithmetic::power2::{lemma2_to64, lemma_pow2_adds, lemma_pow2_pos, pow2};
use crate::exact::{
    lemma_angle_in_circle, lemma_angle_settles, lemma_hue_below_turn, lemma_hue_in_circle, lemma_hue_settles,
    lemma_rounded_up_to_three, lemma_tenths_settle, tenths,
};
use crate::limits::{
    adjustment_named, all_near_one, angle_clamped, axis_clamped, banded, base_curve_clamped,
    components_clamped, components_cut, components_strokes_lost, crop_clamped, drawable,
    finite_samples, first, gains_banded, gains_clamped, geometry_capped, geometry_clamped,
    geometry_cut, geometry_finite, geometry_strokes_lost, known, mask_components_lost,
    mask_curve_lost, mask_cut, masks_clamped, masks_components_lost, masks_curve_lost, masks_cut,
    pairs_capped, pairs_cut, passthrough_clamped, passthrough_cut, provenance_clamped,
    range_clamped, range_finite, sat, slider, stroke_capped, stroke_clamped, stroke_finite,
    strokes_capped, strokes_clamped, strokes_cut, strokes_finite, unit, usable_center, wheel_hue,
    wheel_saturation, ClampSummary, LENS_KNOTS, MASK_WARP_KNOTS, MAX_AI_PROVENANCE_ENTRIES,
    MAX_AI_PROVENANCE_KEY_CHARS, MAX_AI_PROVENANCE_VALUE_CHARS, MAX_BASE_KNOTS, MAX_BRUSH_STROKES,
    MAX_CURVE_POINTS, MAX_DABS, MAX_MASKS, MAX_MASK_COMPONENTS, MAX_NAME, MAX_PASSTHROUGH,
    MAX_PASSTHROUGH_VALUE, MAX_PATH, MAX_RATIONALE,
};
use crate::numbers::{
    EIGHT, FIFTY, FIVE, FORTY_FIVE, FORTY_THOUSAND, FOUR, HALF, HALF_TURN, HUNDRED, HUNDRED_FIFTY,
    HUNDRED_TWO_HUNDREDTHS, MINUS_EIGHT, MINUS_FIVE, MINUS_FORTY_FIVE, MINUS_HUNDRED,
    NINETY_EIGHT_HUNDREDTHS, ONE, ONE_THOUSANDTH, ONE_TWENTIETH, QUARTER, SEVEN_TENTHS, TEN,
    THIRTEEN_TENTHS, THREE, TURN, TWENTY, TWO_THOUSAND, ZERO,
};
use crate::recipe::{
    AdjustmentView, ColorGrade, ComponentView, Crop, GeometryView, HslView, LensView, RangeMask,
    RecipeView, StrokeView, text_below,
};
use crate::single::{lemma_magnitude_increases, lemma_round_zero, magnitude, num, Single};
use crate::text::{byte_len, lemma_byte_len_grows, lemma_capped_fits, lemma_whole_lines_fit};

verus! {

/// A number between two others, both of which it may be.
#[verifier::opaque]
pub open spec fn in_band(v: Single, lo: u32, hi: u32) -> bool {
    v.finite() && num(lo).at_most(v) && v.at_most(num(hi))
}

proof fn lemma_banded(v: Single, lo: u32, hi: u32, neutral: u32)
    requires
        num(lo).at_most(num(neutral)),
        num(neutral).at_most(num(hi)),
        num(lo).finite(),
        num(hi).finite(),
    ensures
        in_band(banded(v, lo, hi, neutral), lo, hi),
        v.finite() ==> in_band(v.clamped(num(lo), num(hi)), lo, hi),
{
    reveal(in_band);
    reveal(banded);
}

proof fn lemma_banded_fixed(v: Single, lo: u32, hi: u32, neutral: u32)
    requires
        in_band(v, lo, hi),
    ensures
        banded(v, lo, hi, neutral) == v,
        v.clamped(num(lo), num(hi)) == v,
        v.finite(),
{
    reveal(in_band);
    reveal(banded);
}

/// Every number of a list is in a band.
pub open spec fn all_in_band(s: Seq<Single>, lo: u32, hi: u32) -> bool {
    forall|i: int| 0 <= i < s.len() ==> in_band(#[trigger] s[i], lo, hi)
}

// ---- strokes and shapes ----

impl StrokeView {
    pub open spec fn within_limits(self) -> bool {
        &&& in_band(self.value, ZERO, ONE)
        &&& in_band(self.flow, ZERO, ONE)
        &&& in_band(self.center_weight, ZERO, ONE)
        &&& in_band(self.radius, ZERO, EIGHT)
        &&& byte_len(self.sync_id) <= MAX_NAME
        &&& byte_len(self.dabs) <= MAX_DABS
        &&& self.dabs.len() > 0
    }
}

/// A list of strokes that is not too long, each within its limits.
pub open spec fn strokes_within(s: Seq<StrokeView>) -> bool {
    s.len() <= MAX_BRUSH_STROKES && forall|i: int|
        0 <= i < s.len() ==> (#[trigger] s[i]).within_limits()
}

/// Provenance that is not too long, neither in entries nor in their texts.
pub open spec fn provenance_within(s: Seq<(Seq<char>, Seq<char>)>) -> bool {
    s.len() <= MAX_AI_PROVENANCE_ENTRIES && forall|i: int|
        0 <= i < s.len() ==> (#[trigger] s[i]).0.len() <= MAX_AI_PROVENANCE_KEY_CHARS && s[i].1.len()
            <= MAX_AI_PROVENANCE_VALUE_CHARS && byte_len(s[i].0) <= MAX_NAME && byte_len(s[i].1)
            <= MAX_NAME
}

impl GeometryView {
    pub open spec fn within_limits(self) -> bool {
        match self {
            GeometryView::Linear { zero_x, zero_y, full_x, full_y } => {
                &&& in_band(zero_x, MINUS_EIGHT, EIGHT)
                &&& in_band(zero_y, MINUS_EIGHT, EIGHT)
                &&& in_band(full_x, MINUS_EIGHT, EIGHT)
                &&& in_band(full_y, MINUS_EIGHT, EIGHT)
            },
            GeometryView::Radial {
                top,
                left,
                bottom,
                right,
                feather,
                roundness,
                angle,
                midpoint,
                ..
            } => {
                &&& in_band(top, MINUS_EIGHT, EIGHT)
                &&& in_band(left, MINUS_EIGHT, EIGHT)
                &&& in_band(bottom, MINUS_EIGHT, EIGHT)
                &&& in_band(right, MINUS_EIGHT, EIGHT)
                &&& in_band(feather, ZERO, ONE)
                &&& in_band(roundness, MINUS_HUNDRED, HUNDRED)
                &&& in_band(midpoint, ZERO, HUNDRED)
                &&& angle.finite()
                &&& angle.at_most(num(HALF_TURN))
                &&& num(HALF_TURN).negation().less(angle)
                &&& angle_clamped(angle) == angle
            },
            GeometryView::Bitmap { path } => byte_len(path) <= MAX_PATH,
            GeometryView::Brush { name, value, strokes, .. } => {
                &&& byte_len(name) <= MAX_NAME
                &&& in_band(value, ZERO, ONE)
                &&& strokes_within(strokes)
            },
            GeometryView::AiMask { name, ref_x, ref_y, value, provenance, gesture, raster, .. } => {
                &&& byte_len(name) <= MAX_NAME
                &&& in_band(ref_x, MINUS_EIGHT, EIGHT)
                &&& in_band(ref_y, MINUS_EIGHT, EIGHT)
                &&& in_band(value, ZERO, ONE)
                &&& provenance_within(provenance)
                &&& strokes_within(gesture)
                &&& raster is Some ==> byte_len(raster->0) <= MAX_PATH
            },
        }
    }
}

proof fn lemma_stroke_within(s: StrokeView)
    requires
        stroke_capped(s).dabs.len() > 0,
    ensures
        stroke_clamped(stroke_capped(s)).within_limits(),
{
    lemma_banded(s.value, ZERO, ONE, ONE);
    lemma_banded(s.flow, ZERO, ONE, ONE);
    lemma_banded(s.center_weight, ZERO, ONE, ZERO);
    lemma_banded(s.radius, ZERO, EIGHT, ZERO);
    lemma_capped_fits(s.sync_id, MAX_NAME as nat);
    lemma_whole_lines_fit(s.dabs, MAX_DABS as nat);
}

proof fn lemma_strokes_within(s: Seq<StrokeView>)
    ensures
        strokes_capped(s).len() <= s.len(),
        forall|i: int|
            0 <= i < strokes_capped(s).len() ==> stroke_clamped(
                #[trigger] strokes_capped(s)[i],
            ).within_limits(),
        strokes_finite(s) ==> strokes_finite(strokes_capped(s)),
    decreases s.len(),
{
    if s.len() > 0 {
        lemma_strokes_within(s.drop_last());
        if strokes_finite(s) {
            assert forall|i: int| 0 <= i < s.drop_last().len() implies stroke_finite(
                #[trigger] s.drop_last()[i],
            ) by {
                assert(s.drop_last()[i] == s[i]);
            }
        }
        if stroke_capped(s.last()).dabs.len() > 0 {
            lemma_stroke_within(s.last());
        }
    }
}

proof fn lemma_strokes_fixed(s: Seq<StrokeView>)
    requires
        forall|i: int| 0 <= i < s.len() ==> (#[trigger] s[i]).within_limits(),
    ensures
        strokes_capped(s) == s,
        strokes_clamped(s) == s,
        strokes_cut(s) == 0,
        strokes_finite(s),
    decreases s.len(),
{
    if s.len() > 0 {
        let t = s.drop_last();
        assert forall|i: int| 0 <= i < t.len() implies (#[trigger] t[i]).within_limits() by {
            assert(t[i] == s[i]);
        }
        lemma_strokes_fixed(t);
        let k = s.last();
        assert(k == s[s.len() - 1]);
        lemma_capped_fits(k.sync_id, MAX_NAME as nat);
        lemma_whole_lines_fit(k.dabs, MAX_DABS as nat);
        assert(stroke_capped(k) == k);
        assert(s =~= t.push(k));
    }
    assert forall|i: int| 0 <= i < s.len() implies stroke_clamped(#[trigger] s[i]) == s[i]
        && stroke_finite(s[i]) by {
        lemma_banded_fixed(s[i].value, ZERO, ONE, ONE);
        lemma_banded_fixed(s[i].flow, ZERO, ONE, ONE);
        lemma_banded_fixed(s[i].center_weight, ZERO, ONE, ZERO);
        lemma_banded_fixed(s[i].radius, ZERO, EIGHT, ZERO);
    }
    assert(strokes_clamped(s) =~= s);
}

proof fn lemma_prefix_bytes(s: Seq<char>, max: nat)
    ensures
        byte_len(first(s, max)) <= byte_len(s),
        first(s, max).len() <= max,
        s.len() <= max ==> first(s, max) == s,
{
    if s.len() > max {
        lemma_byte_len_grows(s, max as int, s.len() as int);
        assert(s.take(s.len() as int) =~= s);
    }
}

proof fn lemma_provenance_within(s: Seq<(Seq<char>, Seq<char>)>)
    ensures
        provenance_within(provenance_clamped(pairs_capped(s))),
{
    let c = pairs_capped(s);
    let k = first(c, MAX_AI_PROVENANCE_ENTRIES as nat);
    let r = provenance_clamped(c);
    assert forall|i: int| 0 <= i < r.len() implies (#[trigger] r[i]).0.len()
        <= MAX_AI_PROVENANCE_KEY_CHARS && r[i].1.len() <= MAX_AI_PROVENANCE_VALUE_CHARS && byte_len(
        r[i].0,
    ) <= MAX_NAME && byte_len(r[i].1) <= MAX_NAME by {
        assert(k[i] == c[i]);
        lemma_capped_fits(s[i].0, MAX_NAME as nat);
        lemma_capped_fits(s[i].1, MAX_NAME as nat);
        lemma_prefix_bytes(k[i].0, MAX_AI_PROVENANCE_KEY_CHARS as nat);
        lemma_prefix_bytes(k[i].1, MAX_AI_PROVENANCE_VALUE_CHARS as nat);
    }
}

proof fn lemma_pairs_cut_none(s: Seq<(Seq<char>, Seq<char>)>)
    requires
        forall|i: int|
            0 <= i < s.len() ==> byte_len((#[trigger] s[i]).0) <= MAX_NAME && byte_len(s[i].1)
                <= MAX_NAME,
    ensures
        pairs_cut(s) == 0,
        pairs_capped(s) == s,
    decreases s.len(),
{
    if s.len() > 0 {
        let t = s.drop_last();
        assert forall|i: int| 0 <= i < t.len() implies byte_len((#[trigger] t[i]).0) <= MAX_NAME
            && byte_len(t[i].1) <= MAX_NAME by {
            assert(t[i] == s[i]);
        }
        lemma_pairs_cut_none(t);
        assert(s.last() == s[s.len() - 1]);
        lemma_capped_fits(s.last().0, MAX_NAME as nat);
        lemma_capped_fits(s.last().1, MAX_NAME as nat);
    }
    assert forall|i: int| 0 <= i < s.len() implies #[trigger] pairs_capped(s)[i] == s[i] by {
        lemma_capped_fits(s[i].0, MAX_NAME as nat);
        lemma_capped_fits(s[i].1, MAX_NAME as nat);
    }
    assert(pairs_capped(s) =~= s);
}

proof fn lemma_provenance_fixed(s: Seq<(Seq<char>, Seq<char>)>)
    requires
        provenance_within(s),
    ensures
        provenance_clamped(s) == s,
        pairs_capped(s) == s,
        pairs_cut(s) == 0,
{
    lemma_pairs_cut_none(s);
    assert forall|i: int| 0 <= i < s.len() implies #[trigger] provenance_clamped(s)[i] == s[i] by {
        lemma_prefix_bytes(s[i].0, MAX_AI_PROVENANCE_KEY_CHARS as nat);
        lemma_prefix_bytes(s[i].1, MAX_AI_PROVENANCE_VALUE_CHARS as nat);
    }
    assert(provenance_clamped(s) =~= s);
}

/// A finite shape, cut and clamped, is within its limits.
proof fn lemma_geometry_within(g: GeometryView)
    requires
        geometry_finite(geometry_capped(g)),
    ensures
        geometry_clamped(geometry_capped(g)).within_limits(),
{
    match g {
        GeometryView::Linear { zero_x, zero_y, full_x, full_y } => {
            lemma_banded(zero_x, MINUS_EIGHT, EIGHT, ZERO);
            lemma_banded(zero_y, MINUS_EIGHT, EIGHT, ZERO);
            lemma_banded(full_x, MINUS_EIGHT, EIGHT, ZERO);
            lemma_banded(full_y, MINUS_EIGHT, EIGHT, ZERO);
        },
        GeometryView::Radial {
            top,
            left,
            bottom,
            right,
            feather,
            roundness,
            flipped,
            angle,
            midpoint,
            mask_version,
        } => {
            lemma_banded(top, MINUS_EIGHT, EIGHT, ZERO);
            lemma_banded(left, MINUS_EIGHT, EIGHT, ZERO);
            lemma_banded(bottom, MINUS_EIGHT, EIGHT, ZERO);
            lemma_banded(right, MINUS_EIGHT, EIGHT, ZERO);
            lemma_banded(feather, ZERO, ONE, ZERO);
            lemma_banded(roundness, MINUS_HUNDRED, HUNDRED, ZERO);
            lemma_banded(midpoint, ZERO, HUNDRED, FIFTY);
            lemma_angle_in_circle(angle);
            lemma_angle_settles(angle);
        },
        GeometryView::Bitmap { path } => {
            lemma_capped_fits(path, MAX_PATH as nat);
        },
        GeometryView::Brush { name, blend_mode, value, inverted, strokes } => {
            lemma_capped_fits(name, MAX_NAME as nat);
            lemma_banded(value, ZERO, ONE, ONE);
            lemma_strokes_within(first(strokes, MAX_BRUSH_STROKES as nat));
        },
        GeometryView::AiMask {
            name,
            subtype,
            ref_x,
            ref_y,
            blend_mode,
            value,
            inverted,
            mask_version,
            provenance,
            gesture,
            raster,
        } => {
            lemma_capped_fits(name, MAX_NAME as nat);
            lemma_banded(ref_x, MINUS_EIGHT, EIGHT, HALF);
            lemma_banded(ref_y, MINUS_EIGHT, EIGHT, HALF);
            lemma_banded(value, ZERO, ONE, ONE);
            lemma_provenance_within(provenance);
            lemma_strokes_within(first(gesture, MAX_BRUSH_STROKES as nat));
            if raster is Some {
                lemma_capped_fits(raster->0, MAX_PATH as nat);
            }
        },
    }
}

/// Cutting a finite shape leaves it finite.
proof fn lemma_capped_stays_finite(g: GeometryView)
    requires
        geometry_finite(g),
    ensures
        geometry_finite(geometry_capped(g)),
{
    match g {
        GeometryView::Brush { strokes, .. } => {
            let f = first(strokes, MAX_BRUSH_STROKES as nat);
            assert forall|i: int| 0 <= i < f.len() implies stroke_finite(#[trigger] f[i]) by {
                assert(f[i] == strokes[i]);
            }
            lemma_strokes_within(f);
        },
        GeometryView::AiMask { gesture, .. } => {
            let f = first(gesture, MAX_BRUSH_STROKES as nat);
            assert forall|i: int| 0 <= i < f.len() implies stroke_finite(#[trigger] f[i]) by {
                assert(f[i] == gesture[i]);
            }
            lemma_strokes_within(f);
        },
        _ => {},
    }
}

/// A shape within its limits stays as it is and loses nothing.
proof fn lemma_geometry_fixed(g: GeometryView)
    requires
        g.within_limits(),
    ensures
        geometry_capped(g) == g,
        geometry_clamped(g) == g,
        geometry_finite(g),
        geometry_cut(g) == 0,
        geometry_strokes_lost(g) == 0,
{
    match g {
        GeometryView::Linear { zero_x, zero_y, full_x, full_y } => {
            lemma_banded_fixed(zero_x, MINUS_EIGHT, EIGHT, ZERO);
            lemma_banded_fixed(zero_y, MINUS_EIGHT, EIGHT, ZERO);
            lemma_banded_fixed(full_x, MINUS_EIGHT, EIGHT, ZERO);
            lemma_banded_fixed(full_y, MINUS_EIGHT, EIGHT, ZERO);
        },
        GeometryView::Radial {
            top,
            left,
            bottom,
            right,
            feather,
            roundness,
            flipped,
            angle,
            midpoint,
            mask_version,
        } => {
            lemma_banded_fixed(top, MINUS_EIGHT, EIGHT, ZERO);
            lemma_banded_fixed(left, MINUS_EIGHT, EIGHT, ZERO);
            lemma_banded_fixed(bottom, MINUS_EIGHT, EIGHT, ZERO);
            lemma_banded_fixed(right, MINUS_EIGHT, EIGHT, ZERO);
            lemma_banded_fixed(feather, ZERO, ONE, ZERO);
            lemma_banded_fixed(roundness, MINUS_HUNDRED, HUNDRED, ZERO);
            lemma_banded_fixed(midpoint, ZERO, HUNDRED, FIFTY);
        },
        GeometryView::Bitmap { path } => {
            lemma_capped_fits(path, MAX_PATH as nat);
        },
        GeometryView::Brush { name, blend_mode, value, inverted, strokes } => {
            lemma_capped_fits(name, MAX_NAME as nat);
            lemma_banded_fixed(value, ZERO, ONE, ONE);
            lemma_strokes_fixed(strokes);
        },
        GeometryView::AiMask {
            name,
            subtype,
            ref_x,
            ref_y,
            blend_mode,
            value,
            inverted,
            mask_version,
            provenance,
            gesture,
            raster,
        } => {
            lemma_capped_fits(name, MAX_NAME as nat);
            lemma_banded_fixed(ref_x, MINUS_EIGHT, EIGHT, HALF);
            lemma_banded_fixed(ref_y, MINUS_EIGHT, EIGHT, HALF);
            lemma_banded_fixed(value, ZERO, ONE, ONE);
            lemma_provenance_fixed(provenance);
            lemma_strokes_fixed(gesture);
            if raster is Some {
                lemma_capped_fits(raster->0, MAX_PATH as nat);
            }
        },
    }
}

// ---- masks ----

/// A range in the unit interval, with its corners in order.
pub open spec fn range_within(r: Option<RangeMask>) -> bool {
    match r {
        None => true,
        Some(RangeMask::Luminance { lo_outer, lo, hi, hi_outer }) => {
            &&& in_band(lo_outer, ZERO, ONE)
            &&& in_band(lo, ZERO, ONE)
            &&& in_band(hi, ZERO, ONE)
            &&& in_band(hi_outer, ZERO, ONE)
            &&& lo_outer.at_most(lo)
            &&& lo.at_most(hi)
            &&& hi.at_most(hi_outer)
        },
        Some(RangeMask::Color { r, g, b, amount, px, py }) => {
            &&& in_band(r, ZERO, ONE)
            &&& in_band(g, ZERO, ONE)
            &&& in_band(b, ZERO, ONE)
            &&& in_band(amount, ZERO, ONE)
            &&& in_band(px, ZERO, ONE)
            &&& in_band(py, ZERO, ONE)
        },
    }
}

proof fn lemma_range_within(r: Option<RangeMask>)
    requires
        range_finite(r),
    ensures
        range_within(range_clamped(r)),
{
    match r {
        None => {},
        Some(RangeMask::Luminance { lo_outer, lo, hi, hi_outer }) => {
            lemma_banded(lo, ZERO, ONE, ZERO);
            lemma_banded(hi, ZERO, ONE, ZERO);
            reveal(in_band);
        },
        Some(RangeMask::Color { r, g, b, amount, px, py }) => {
            lemma_banded(r, ZERO, ONE, ZERO);
            lemma_banded(g, ZERO, ONE, ZERO);
            lemma_banded(b, ZERO, ONE, ZERO);
            lemma_banded(amount, ZERO, ONE, ZERO);
            lemma_banded(px, ZERO, ONE, ZERO);
            lemma_banded(py, ZERO, ONE, ZERO);
        },
    }
}

proof fn lemma_range_fixed(r: Option<RangeMask>)
    requires
        range_within(r),
    ensures
        range_clamped(r) == r,
        range_finite(r),
{
    reveal(in_band);
}

/// Gains in their band that change something.
pub open spec fn gains_within(g: Option<Seq<Single>>) -> bool {
    match g {
        None => true,
        Some(s) => all_in_band(s, ONE_TWENTIETH, EIGHT) && !all_near_one(s),
    }
}

proof fn lemma_gains(g: Option<Seq<Single>>)
    ensures
        gains_within(gains_clamped(g)),
        gains_within(g) ==> gains_clamped(g) == g,
{
    if g is Some {
        let s = g->0;
        assert forall|i: int| 0 <= i < s.len() implies in_band(
            #[trigger] gains_banded(s)[i],
            ONE_TWENTIETH,
            EIGHT,
        ) by {
            lemma_banded(s[i], ONE_TWENTIETH, EIGHT, ONE);
        }
        if gains_within(g) {
            assert forall|i: int| 0 <= i < s.len() implies #[trigger] gains_banded(s)[i] == s[i] by {
                lemma_banded_fixed(s[i], ONE_TWENTIETH, EIGHT, ONE);
            }
            assert(gains_banded(s) =~= s);
        }
    }
}

impl AdjustmentView {
    /// Every slider of the mask is in its band.
    pub open spec fn sliders_within(self) -> bool {
        &&& in_band(self.amount, ZERO, ONE)
        &&& in_band(self.exposure_ev, MINUS_FIVE, FIVE)
        &&& in_band(self.contrast, MINUS_HUNDRED, HUNDRED)
        &&& in_band(self.highlights, MINUS_HUNDRED, HUNDRED)
        &&& in_band(self.shadows, MINUS_HUNDRED, HUNDRED)
        &&& in_band(self.whites, MINUS_HUNDRED, HUNDRED)
        &&& in_band(self.blacks, MINUS_HUNDRED, HUNDRED)
        &&& in_band(self.clarity, MINUS_HUNDRED, HUNDRED)
        &&& in_band(self.dehaze, MINUS_HUNDRED, HUNDRED)
        &&& in_band(self.texture, MINUS_HUNDRED, HUNDRED)
        &&& in_band(self.sharpness, MINUS_HUNDRED, HUNDRED)
        &&& in_band(self.saturation, MINUS_HUNDRED, HUNDRED)
        &&& in_band(self.hue, MINUS_HUNDRED, HUNDRED)
        &&& in_band(self.temperature, MINUS_HUNDRED, HUNDRED)
        &&& in_band(self.tint, MINUS_HUNDRED, HUNDRED)
        &&& in_band(self.noise_reduction, ZERO, HUNDRED)
    }

    /// The mask is within all its limits.
    pub open spec fn within_limits(self) -> bool {
        &&& self.sliders_within()
        &&& byte_len(self.name) <= MAX_NAME
        &&& self.mask.within_limits()
        &&& self.components.len() <= MAX_MASK_COMPONENTS
        &&& forall|i: int|
            0 <= i < self.components.len() ==> (#[trigger] self.components[i]).geometry.within_limits()
        &&& self.main_curve.len() <= MAX_CURVE_POINTS
        &&& self.red_curve.len() <= MAX_CURVE_POINTS
        &&& self.green_curve.len() <= MAX_CURVE_POINTS
        &&& self.blue_curve.len() <= MAX_CURVE_POINTS
        &&& gains_within(self.color_gains)
        &&& range_within(self.range)
    }
}

proof fn lemma_adjustment_sliders(v: AdjustmentView)
    ensures
        v.clamped().sliders_within(),
{
    lemma_banded(v.amount, ZERO, ONE, ZERO);
    lemma_banded(v.exposure_ev, MINUS_FIVE, FIVE, ZERO);
    lemma_banded(v.contrast, MINUS_HUNDRED, HUNDRED, ZERO);
    lemma_banded(v.highlights, MINUS_HUNDRED, HUNDRED, ZERO);
    lemma_banded(v.shadows, MINUS_HUNDRED, HUNDRED, ZERO);
    lemma_banded(v.whites, MINUS_HUNDRED, HUNDRED, ZERO);
    lemma_banded(v.blacks, MINUS_HUNDRED, HUNDRED, ZERO);
    lemma_banded(v.clarity, MINUS_HUNDRED, HUNDRED, ZERO);
    lemma_banded(v.dehaze, MINUS_HUNDRED, HUNDRED, ZERO);
    lemma_banded(v.texture, MINUS_HUNDRED, HUNDRED, ZERO);
    lemma_banded(v.sharpness, MINUS_HUNDRED, HUNDRED, ZERO);
    lemma_banded(v.saturation, MINUS_HUNDRED, HUNDRED, ZERO);
    lemma_banded(v.hue, MINUS_HUNDRED, HUNDRED, ZERO);
    lemma_banded(v.temperature, MINUS_HUNDRED, HUNDRED, ZERO);
    lemma_banded(v.tint, MINUS_HUNDRED, HUNDRED, ZERO);
    lemma_banded(v.noise_reduction, ZERO, HUNDRED, ZERO);
}

/// A mask that can be drawn, clamped, is within its limits.
proof fn lemma_adjustment_within(v: AdjustmentView)
    requires
        drawable(adjustment_named(v)),
    ensures
        adjustment_named(v).clamped().within_limits(),
{
    let n = adjustment_named(v);
    lemma_adjustment_sliders(n);
    lemma_capped_fits(v.name, MAX_NAME as nat);
    lemma_geometry_within(v.mask);
    lemma_gains(v.color_gains);
    lemma_range_within(v.range);
    let kept = first(v.components, MAX_MASK_COMPONENTS as nat);
    let c = components_clamped(v.components);
    assert forall|i: int| 0 <= i < c.len() implies (#[trigger] c[i]).geometry.within_limits() by {
        assert(kept[i] == v.components[i]);
        lemma_capped_stays_finite(kept[i].geometry);
        lemma_geometry_within(kept[i].geometry);
    }
}

proof fn lemma_components_lose_nothing(s: Seq<ComponentView>)
    requires
        forall|i: int| 0 <= i < s.len() ==> (#[trigger] s[i]).geometry.within_limits(),
    ensures
        components_cut(s) == 0,
        components_strokes_lost(s) == 0,
    decreases s.len(),
{
    if s.len() > 0 {
        let t = s.drop_last();
        assert forall|i: int| 0 <= i < t.len() implies (#[trigger] t[i]).geometry.within_limits() by {
            assert(t[i] == s[i]);
        }
        lemma_components_lose_nothing(t);
        assert(s.last() == s[s.len() - 1]);
        lemma_geometry_fixed(s.last().geometry);
    }
}

/// A mask within its limits stays as it is.
#[verifier::rlimit(40)]
proof fn lemma_adjustment_fixed(v: AdjustmentView)
    requires
        v.within_limits(),
    ensures
        adjustment_named(v) == v,
        drawable(v),
        v.clamped() == v,
        mask_cut(v) == 0,
        mask_components_lost(v) == 0,
        mask_curve_lost(v) == 0,
{
    lemma_capped_fits(v.name, MAX_NAME as nat);
    lemma_geometry_fixed(v.mask);
    assert(adjustment_named(v) == v);
    lemma_gains(v.color_gains);
    lemma_range_fixed(v.range);
    assert forall|i: int| 0 <= i < v.components.len() implies geometry_finite(
        (#[trigger] v.components[i]).geometry,
    ) && components_clamped(v.components)[i] == v.components[i] by {
        lemma_geometry_fixed(v.components[i].geometry);
    }
    assert(components_clamped(v.components) =~= v.components);
    lemma_components_lose_nothing(v.components);
    lemma_banded_fixed(v.amount, ZERO, ONE, ZERO);
    lemma_banded_fixed(v.exposure_ev, MINUS_FIVE, FIVE, ZERO);
    lemma_banded_fixed(v.contrast, MINUS_HUNDRED, HUNDRED, ZERO);
    lemma_banded_fixed(v.highlights, MINUS_HUNDRED, HUNDRED, ZERO);
    lemma_banded_fixed(v.shadows, MINUS_HUNDRED, HUNDRED, ZERO);
    lemma_banded_fixed(v.whites, MINUS_HUNDRED, HUNDRED, ZERO);
    lemma_banded_fixed(v.blacks, MINUS_HUNDRED, HUNDRED, ZERO);
    lemma_banded_fixed(v.clarity, MINUS_HUNDRED, HUNDRED, ZERO);
    lemma_banded_fixed(v.dehaze, MINUS_HUNDRED, HUNDRED, ZERO);
    lemma_banded_fixed(v.texture, MINUS_HUNDRED, HUNDRED, ZERO);
    lemma_banded_fixed(v.sharpness, MINUS_HUNDRED, HUNDRED, ZERO);
    lemma_banded_fixed(v.saturation, MINUS_HUNDRED, HUNDRED, ZERO);
    lemma_banded_fixed(v.hue, MINUS_HUNDRED, HUNDRED, ZERO);
    lemma_banded_fixed(v.temperature, MINUS_HUNDRED, HUNDRED, ZERO);
    lemma_banded_fixed(v.tint, MINUS_HUNDRED, HUNDRED, ZERO);
    lemma_banded_fixed(v.noise_reduction, ZERO, HUNDRED, ZERO);
    assert(v.clamped() == v);
}

/// Every mask of a list is within its limits.
pub open spec fn masks_within(s: Seq<AdjustmentView>) -> bool {
    forall|i: int| 0 <= i < s.len() ==> (#[trigger] s[i]).within_limits()
}

proof fn lemma_masks_within(s: Seq<AdjustmentView>)
    ensures
        masks_within(masks_clamped(s)),
        masks_clamped(s).len() <= s.len(),
    decreases s.len(),
{
    if s.len() > 0 {
        lemma_masks_within(s.drop_last());
        if drawable(adjustment_named(s.last())) {
            lemma_adjustment_within(s.last());
        }
    }
}

proof fn lemma_masks_fixed(s: Seq<AdjustmentView>)
    requires
        masks_within(s),
    ensures
        masks_clamped(s) == s,
        masks_cut(s) == 0,
        masks_components_lost(s) == 0,
        masks_curve_lost(s) == 0,
    decreases s.len(),
{
    if s.len() > 0 {
        let t = s.drop_last();
        assert forall|i: int| 0 <= i < t.len() implies (#[trigger] t[i]).within_limits() by {
            assert(t[i] == s[i]);
        }
        lemma_masks_fixed(t);
        assert(s.last() == s[s.len() - 1]);
        lemma_adjustment_fixed(s.last());
        assert(s =~= t.push(s.last()));
    }
}

// ---- lens profile ----

proof fn lemma_samples(s: Seq<Single>, lo: u32, hi: u32)
    requires
        num(lo).at_most(num(hi)),
        num(lo).finite(),
        num(hi).finite(),
    ensures
        all_in_band(finite_samples(s, lo, hi), lo, hi),
        finite_samples(s, lo, hi).len() <= s.len(),
        all_in_band(s, lo, hi) ==> finite_samples(s, lo, hi) == s,
    decreases s.len(),
{
    if s.len() > 0 {
        let t = s.drop_last();
        lemma_samples(t, lo, hi);
        let last = s.last();
        assert(last == s[s.len() - 1]);
        if last.finite() {
            lemma_banded(last, lo, hi, lo);
        }
        if all_in_band(s, lo, hi) {
            assert forall|i: int| 0 <= i < t.len() implies in_band(#[trigger] t[i], lo, hi) by {
                assert(t[i] == s[i]);
            }
            lemma_banded_fixed(last, lo, hi, lo);
            assert(s =~= t.push(last));
        }
    }
}

impl LensView {
    /// The profile is within all its limits: every spline is short enough and in
    /// its band, a warp comes from a source that solved one, and a centre is one.
    pub open spec fn within_limits(self) -> bool {
        &&& self.vignette.len() <= LENS_KNOTS && all_in_band(self.vignette, QUARTER, FOUR)
        &&& self.distortion.len() <= LENS_KNOTS && all_in_band(
            self.distortion,
            SEVEN_TENTHS,
            THIRTEEN_TENTHS,
        )
        &&& self.ca_r.len() <= LENS_KNOTS && all_in_band(
            self.ca_r,
            NINETY_EIGHT_HUNDREDTHS,
            HUNDRED_TWO_HUNDREDTHS,
        )
        &&& self.ca_b.len() <= LENS_KNOTS && all_in_band(
            self.ca_b,
            NINETY_EIGHT_HUNDREDTHS,
            HUNDRED_TWO_HUNDREDTHS,
        )
        &&& self.mask_warp.len() <= MASK_WARP_KNOTS && all_in_band(
            self.mask_warp,
            SEVEN_TENTHS,
            THIRTEEN_TENTHS,
        )
        &&& self.mask_warp_src.solved() <==> self.mask_warp.len() >= 2
        &&& self.mask_warp.len() != 1
        &&& self.linear_handle_warp.len() <= MASK_WARP_KNOTS && all_in_band(
            self.linear_handle_warp,
            SEVEN_TENTHS,
            THIRTEEN_TENTHS,
        )
        &&& self.linear_handle_warp.len() != 1
        &&& self.linear_handle_warp.len() >= 2 ==> self.mask_warp_src is DisabledInSidecar
        &&& self.mask_warp_center is Some ==> usable_center(self.mask_warp_center->0)
    }
}

proof fn lemma_spline(s: Seq<Single>, max: nat, lo: u32, hi: u32)
    requires
        num(lo).at_most(num(hi)),
        num(lo).finite(),
        num(hi).finite(),
    ensures
        all_in_band(finite_samples(first(s, max), lo, hi), lo, hi),
        finite_samples(first(s, max), lo, hi).len() <= max,
        s.len() <= max && all_in_band(s, lo, hi) ==> finite_samples(first(s, max), lo, hi) == s,
{
    lemma_samples(first(s, max), lo, hi);
}

proof fn lemma_lens(p: LensView)
    ensures
        p.clamped().within_limits(),
        p.within_limits() ==> p.clamped() == p,
{
    lemma_spline(p.vignette, LENS_KNOTS as nat, QUARTER, FOUR);
    lemma_spline(p.distortion, LENS_KNOTS as nat, SEVEN_TENTHS, THIRTEEN_TENTHS);
    lemma_spline(p.ca_r, LENS_KNOTS as nat, NINETY_EIGHT_HUNDREDTHS, HUNDRED_TWO_HUNDREDTHS);
    lemma_spline(p.ca_b, LENS_KNOTS as nat, NINETY_EIGHT_HUNDREDTHS, HUNDRED_TWO_HUNDREDTHS);
    lemma_spline(p.mask_warp, MASK_WARP_KNOTS as nat, SEVEN_TENTHS, THIRTEEN_TENTHS);
    lemma_spline(p.linear_handle_warp, MASK_WARP_KNOTS as nat, SEVEN_TENTHS, THIRTEEN_TENTHS);
    if p.within_limits() {
        if !p.mask_warp_src.solved() {
            assert(p.mask_warp =~= Seq::<Single>::empty());
        }
        if p.linear_handle_warp.len() < 2 {
            assert(p.linear_handle_warp =~= Seq::<Single>::empty());
        }
        assert(p.clamped() == p);
    }
}

// ---- colour ----

impl HslView {
    pub open spec fn within_limits(self) -> bool {
        &&& all_in_band(self.hue, MINUS_HUNDRED, HUNDRED)
        &&& all_in_band(self.saturation, MINUS_HUNDRED, HUNDRED)
        &&& all_in_band(self.luminance, MINUS_HUNDRED, HUNDRED)
    }
}

proof fn lemma_axis(s: Seq<Single>)
    ensures
        all_in_band(axis_clamped(s), MINUS_HUNDRED, HUNDRED),
        all_in_band(s, MINUS_HUNDRED, HUNDRED) ==> axis_clamped(s) == s,
{
    assert forall|i: int| 0 <= i < s.len() implies in_band(
        #[trigger] axis_clamped(s)[i],
        MINUS_HUNDRED,
        HUNDRED,
    ) by {
        lemma_banded(s[i], MINUS_HUNDRED, HUNDRED, ZERO);
    }
    if all_in_band(s, MINUS_HUNDRED, HUNDRED) {
        assert forall|i: int| 0 <= i < s.len() implies #[trigger] axis_clamped(s)[i] == s[i] by {
            lemma_banded_fixed(s[i], MINUS_HUNDRED, HUNDRED, ZERO);
        }
        assert(axis_clamped(s) =~= s);
    }
}

proof fn lemma_hsl(h: HslView)
    ensures
        h.clamped().within_limits(),
        h.within_limits() ==> h.clamped() == h,
{
    lemma_axis(h.hue);
    lemma_axis(h.saturation);
    lemma_axis(h.luminance);
}

/// A hue on its circle, from nought to a full turn.
pub open spec fn on_circle(h: Single) -> bool {
    h.finite() && num(ZERO).at_most(h) && h.at_most(num(TURN))
}

impl ColorGrade {
    pub open spec fn within_limits(self) -> bool {
        &&& on_circle(self.shadow_hue)
        &&& in_band(self.shadow_sat, ZERO, HUNDRED)
        &&& in_band(self.shadow_lum, MINUS_HUNDRED, HUNDRED)
        &&& on_circle(self.midtone_hue)
        &&& in_band(self.midtone_sat, ZERO, HUNDRED)
        &&& in_band(self.midtone_lum, MINUS_HUNDRED, HUNDRED)
        &&& on_circle(self.highlight_hue)
        &&& in_band(self.highlight_sat, ZERO, HUNDRED)
        &&& in_band(self.highlight_lum, MINUS_HUNDRED, HUNDRED)
        &&& on_circle(self.global_hue)
        &&& in_band(self.global_sat, ZERO, HUNDRED)
        &&& in_band(self.global_lum, MINUS_HUNDRED, HUNDRED)
        &&& in_band(self.blending, ZERO, HUNDRED)
        &&& in_band(self.balance, MINUS_HUNDRED, HUNDRED)
    }

    /// No hue is a full turn: a full turn is nought.
    pub open spec fn hues_settled(self) -> bool {
        &&& self.shadow_hue.less(num(TURN))
        &&& self.midtone_hue.less(num(TURN))
        &&& self.highlight_hue.less(num(TURN))
        &&& self.global_hue.less(num(TURN))
    }
}

proof fn lemma_wheel(hue: Single, sat: Single)
    ensures
        on_circle(wheel_hue(hue)),
        in_band(wheel_saturation(hue, sat), ZERO, HUNDRED),
        on_circle(hue) && in_band(sat, ZERO, HUNDRED) ==> wheel_saturation(hue, sat) == sat,
        on_circle(hue) && hue.less(num(TURN)) ==> wheel_hue(hue) == hue,
{
    lemma_banded(sat, ZERO, HUNDRED, ZERO);
    lemma_banded(num(ZERO), ZERO, HUNDRED, ZERO);
    if hue.finite() {
        lemma_hue_in_circle(hue);
    } else {
        lemma_hue_in_circle(num(ZERO));
    }
    if on_circle(hue) && in_band(sat, ZERO, HUNDRED) {
        lemma_banded_fixed(sat, ZERO, HUNDRED, ZERO);
    }
    if on_circle(hue) && hue.less(num(TURN)) {
        lemma_hue_settles(hue);
    }
}

proof fn lemma_grade(c: ColorGrade)
    ensures
        c.clamped().within_limits(),
        c.within_limits() && c.hues_settled() ==> c.clamped() == c,
{
    lemma_wheel(c.shadow_hue, c.shadow_sat);
    lemma_banded(c.shadow_lum, MINUS_HUNDRED, HUNDRED, ZERO);
    lemma_wheel(c.midtone_hue, c.midtone_sat);
    lemma_banded(c.midtone_lum, MINUS_HUNDRED, HUNDRED, ZERO);
    lemma_wheel(c.highlight_hue, c.highlight_sat);
    lemma_banded(c.highlight_lum, MINUS_HUNDRED, HUNDRED, ZERO);
    lemma_wheel(c.global_hue, c.global_sat);
    lemma_banded(c.global_lum, MINUS_HUNDRED, HUNDRED, ZERO);
    lemma_banded(c.blending, ZERO, HUNDRED, FIFTY);
    lemma_banded(c.balance, MINUS_HUNDRED, HUNDRED, ZERO);
    if c.within_limits() && c.hues_settled() {
        lemma_banded_fixed(c.shadow_lum, MINUS_HUNDRED, HUNDRED, ZERO);
        lemma_banded_fixed(c.midtone_lum, MINUS_HUNDRED, HUNDRED, ZERO);
        lemma_banded_fixed(c.highlight_lum, MINUS_HUNDRED, HUNDRED, ZERO);
        lemma_banded_fixed(c.global_lum, MINUS_HUNDRED, HUNDRED, ZERO);
        lemma_banded_fixed(c.blending, ZERO, HUNDRED, FIFTY);
        lemma_banded_fixed(c.balance, MINUS_HUNDRED, HUNDRED, ZERO);
    }
}

// ---- the recipe ----

/// A crop inside of the frame that has an area.
pub open spec fn crop_within(c: Option<Crop>) -> bool {
    match c {
        None => true,
        Some(k) => {
            &&& in_band(k.left, ZERO, ONE)
            &&& in_band(k.top, ZERO, ONE)
            &&& in_band(k.right, ZERO, ONE)
            &&& in_band(k.bottom, ZERO, ONE)
            &&& k.left.at_most(k.right)
            &&& k.top.at_most(k.bottom)
            &&& !k.right.difference(k.left).less(num(ONE_THOUSANDTH))
            &&& !k.bottom.difference(k.top).less(num(ONE_THOUSANDTH))
        },
    }
}

proof fn lemma_crop(c: Option<Crop>)
    ensures
        crop_within(crop_clamped(c)),
        crop_within(c) ==> crop_clamped(c) == c,
{
    match c {
        None => {},
        Some(k) => {
            if k.left.finite() && k.top.finite() && k.right.finite() && k.bottom.finite() {
                lemma_banded(k.left, ZERO, ONE, ZERO);
                lemma_banded(k.top, ZERO, ONE, ZERO);
                lemma_banded(k.right, ZERO, ONE, ZERO);
                lemma_banded(k.bottom, ZERO, ONE, ZERO);
            }
            if crop_within(c) {
                lemma_banded_fixed(k.left, ZERO, ONE, ZERO);
                lemma_banded_fixed(k.top, ZERO, ONE, ZERO);
                lemma_banded_fixed(k.right, ZERO, ONE, ZERO);
                lemma_banded_fixed(k.bottom, ZERO, ONE, ZERO);
            }
            reveal(in_band);
        },
    }
}

/// An optional number that is unknown or in its band.
pub open spec fn known_within(v: Option<Single>, lo: u32, hi: u32) -> bool {
    v is Some ==> in_band(v->0, lo, hi)
}

proof fn lemma_known(v: Option<Single>, lo: u32, hi: u32)
    requires
        num(lo).at_most(num(hi)),
        num(lo).finite(),
        num(hi).finite(),
    ensures
        known_within(known(v, lo, hi), lo, hi),
        known_within(v, lo, hi) ==> known(v, lo, hi) == v,
{
    if v is Some {
        let k = v->0;
        lemma_banded(k, lo, hi, lo);
        if known_within(v, lo, hi) {
            lemma_banded_fixed(k, lo, hi, lo);
        }
    }
}

/// Knots in the unit square.
pub open spec fn knots_within(s: Seq<Seq<Single>>) -> bool {
    forall|i: int|
        0 <= i < s.len() ==> (#[trigger] s[i]).len() == 2 && in_band(s[i][0], ZERO, ONE) && in_band(
            s[i][1],
            ZERO,
            ONE,
        )
}

proof fn lemma_base_curve(s: Seq<Seq<Single>>)
    ensures
        knots_within(base_curve_clamped(s)),
        base_curve_clamped(s).len() <= s.len(),
        knots_within(s) ==> base_curve_clamped(s) == s,
    decreases s.len(),
{
    if s.len() > 0 {
        let t = s.drop_last();
        lemma_base_curve(t);
        let k = s.last();
        assert(k == s[s.len() - 1]);
        if k[0].finite() && k[1].finite() {
            lemma_banded(k[0], ZERO, ONE, ZERO);
            lemma_banded(k[1], ZERO, ONE, ZERO);
        }
        if knots_within(s) {
            assert forall|i: int| 0 <= i < t.len() implies (#[trigger] t[i]).len() == 2 && in_band(
                t[i][0],
                ZERO,
                ONE,
            ) && in_band(t[i][1], ZERO, ONE) by {
                assert(t[i] == s[i]);
            }
            lemma_banded_fixed(k[0], ZERO, ONE, ZERO);
            lemma_banded_fixed(k[1], ZERO, ONE, ZERO);
            assert(seq![unit(k[0]), unit(k[1])] =~= k);
            assert(s =~= t.push(k));
        }
    }
}

/// Foreign attributes that are not too many and not too long.
pub open spec fn passthrough_within(s: Seq<(Seq<char>, Seq<char>)>) -> bool {
    s.len() <= MAX_PASSTHROUGH && forall|i: int|
        0 <= i < s.len() ==> byte_len((#[trigger] s[i]).1) <= MAX_PASSTHROUGH_VALUE
}

proof fn lemma_passthrough(s: Seq<(Seq<char>, Seq<char>)>)
    ensures
        passthrough_within(passthrough_clamped(s)),
        passthrough_within(s) ==> passthrough_clamped(s) == s,
{
    let k = first(s, MAX_PASSTHROUGH as nat);
    assert forall|i: int| 0 <= i < k.len() implies byte_len(
        (#[trigger] passthrough_clamped(s)[i]).1,
    ) <= MAX_PASSTHROUGH_VALUE by {
        lemma_capped_fits(k[i].1, MAX_PASSTHROUGH_VALUE as nat);
    }
    if passthrough_within(s) {
        assert forall|i: int| 0 <= i < s.len() implies #[trigger] passthrough_clamped(s)[i]
            == s[i] by {
            lemma_capped_fits(s[i].1, MAX_PASSTHROUGH_VALUE as nat);
        }
        assert(passthrough_clamped(s) =~= s);
    }
}

proof fn lemma_passthrough_lost(s: Seq<(Seq<char>, Seq<char>)>)
    requires
        passthrough_within(s),
    ensures
        passthrough_cut(s) == 0,
    decreases s.len(),
{
    if s.len() > 0 {
        let t = s.drop_last();
        assert forall|i: int| 0 <= i < t.len() implies byte_len((#[trigger] t[i]).1)
            <= MAX_PASSTHROUGH_VALUE by {
            assert(t[i] == s[i]);
        }
        lemma_passthrough_lost(t);
        assert(s.last() == s[s.len() - 1]);
        lemma_capped_fits(s.last().1, MAX_PASSTHROUGH_VALUE as nat);
    }
}

impl RecipeView {
    /// Every slider of tone and detail is in its band.
    pub open spec fn tone_within(self) -> bool {
        &&& in_band(self.exposure_ev, MINUS_FIVE, FIVE)
        &&& in_band(self.contrast, MINUS_HUNDRED, HUNDRED)
        &&& in_band(self.highlights, MINUS_HUNDRED, HUNDRED)
        &&& in_band(self.shadows, MINUS_HUNDRED, HUNDRED)
        &&& in_band(self.whites, MINUS_HUNDRED, HUNDRED)
        &&& in_band(self.blacks, MINUS_HUNDRED, HUNDRED)
        &&& in_band(self.tint, MINUS_HUNDRED, HUNDRED)
        &&& in_band(self.vibrance, MINUS_HUNDRED, HUNDRED)
        &&& in_band(self.saturation, MINUS_HUNDRED, HUNDRED)
        &&& in_band(self.clarity, MINUS_HUNDRED, HUNDRED)
        &&& in_band(self.dehaze, MINUS_HUNDRED, HUNDRED)
        &&& in_band(self.texture, MINUS_HUNDRED, HUNDRED)
        &&& in_band(self.sharpening, ZERO, HUNDRED_FIFTY)
        &&& in_band(self.noise_reduction, ZERO, HUNDRED)
        &&& in_band(self.sharpen_detail, ZERO, HUNDRED)
        &&& in_band(self.sharpen_mask, ZERO, HUNDRED)
        &&& in_band(self.nr_detail, ZERO, HUNDRED)
        &&& in_band(self.nr_contrast, ZERO, HUNDRED)
        &&& in_band(self.color_nr, ZERO, HUNDRED)
        &&& in_band(self.color_nr_detail, ZERO, HUNDRED)
        &&& in_band(self.color_nr_smooth, ZERO, HUNDRED)
    }

    /// Every slider of the lens and the effects is in its band.
    pub open spec fn effects_within(self) -> bool {
        &&& in_band(self.lens_vignette, MINUS_HUNDRED, HUNDRED)
        &&& in_band(self.lens_vignette_mid, ZERO, HUNDRED)
        &&& in_band(self.lens_distortion, MINUS_HUNDRED, HUNDRED)
        &&& in_band(self.ca_r, MINUS_HUNDRED, HUNDRED)
        &&& in_band(self.ca_b, MINUS_HUNDRED, HUNDRED)
        &&& in_band(self.defringe_purple, ZERO, TWENTY)
        &&& in_band(self.defringe_green, ZERO, TWENTY)
        &&& in_band(self.defringe_purple_lo, ZERO, HUNDRED)
        &&& in_band(self.defringe_purple_hi, ZERO, HUNDRED)
        &&& in_band(self.defringe_green_lo, ZERO, HUNDRED)
        &&& in_band(self.defringe_green_hi, ZERO, HUNDRED)
        &&& in_band(self.post_crop_vignette, MINUS_HUNDRED, HUNDRED)
        &&& in_band(self.post_crop_vignette_mid, ZERO, HUNDRED)
        &&& in_band(self.post_crop_vignette_feather, ZERO, HUNDRED)
        &&& in_band(self.post_crop_vignette_round, MINUS_HUNDRED, HUNDRED)
        &&& in_band(self.post_crop_vignette_hl, ZERO, HUNDRED)
        &&& in_band(self.grain, ZERO, HUNDRED)
        &&& in_band(self.grain_size, ZERO, HUNDRED)
        &&& in_band(self.grain_rough, ZERO, HUNDRED)
        &&& in_band(self.straighten_deg, MINUS_FORTY_FIVE, FORTY_FIVE)
        &&& in_band(self.confidence, ZERO, ONE)
        &&& in_band(self.sharpen_radius, ZERO, THREE)
        &&& tenths(self.sharpen_radius) == self.sharpen_radius
        &&& in_band(self.post_crop_vignette_style, ZERO, THREE)
        &&& self.post_crop_vignette_style.rounded() == self.post_crop_vignette_style
    }

    /// Every slider is in its band.
    pub open spec fn sliders_within(self) -> bool {
        self.tone_within() && self.effects_within()
    }

    /// Everything else is within its limits.
    pub open spec fn parts_within(self) -> bool {
        &&& known_within(self.temperature_k, TWO_THOUSAND, FORTY_THOUSAND)
        &&& known_within(self.as_shot_k, TWO_THOUSAND, FORTY_THOUSAND)
        &&& known_within(self.as_shot_tint, MINUS_HUNDRED, HUNDRED)
        &&& self.quarter_turns < 4
        &&& self.color_grade.within_limits()
        &&& crop_within(self.crop)
        &&& self.hsl.within_limits()
        &&& passthrough_within(self.passthrough)
        &&& self.tone_curve.len() <= MAX_CURVE_POINTS
        &&& self.red_curve.len() <= MAX_CURVE_POINTS
        &&& self.green_curve.len() <= MAX_CURVE_POINTS
        &&& self.blue_curve.len() <= MAX_CURVE_POINTS
        &&& self.base_curve.len() <= MAX_BASE_KNOTS
        &&& knots_within(self.base_curve)
        &&& self.lens_profile.within_limits()
        &&& self.masks.len() <= MAX_MASKS
        &&& masks_within(self.masks)
        &&& byte_len(self.rationale) <= MAX_RATIONALE
    }

    /// The recipe is within all its limits.
    pub open spec fn within_limits(self) -> bool {
        self.sliders_within() && self.parts_within()
    }
}

proof fn lemma_radius(v: Single)
    ensures
        ({
            let r = tenths(slider(v, ZERO, THREE));
            in_band(r, ZERO, THREE) && tenths(r) == r
        }),
{
    lemma_banded(v, ZERO, THREE, ZERO);
    let s = slider(v, ZERO, THREE);
    assert(s.finite() && num(ZERO).at_most(s) && s.at_most(num(THREE))) by {
        reveal(in_band);
    }
    lemma_tenths_settle(s);
    reveal(in_band);
}

proof fn lemma_style(v: Single)
    ensures
        ({
            let r = slider(v, ZERO, THREE).rounded();
            in_band(r, ZERO, THREE) && r.rounded() == r
        }),
{
    lemma_banded(v, ZERO, THREE, ZERO);
    let s = slider(v, ZERO, THREE);
    assert(s.finite() && num(ZERO).at_most(s) && s.at_most(num(THREE))) by {
        reveal(in_band);
    }
    lemma_rounded_up_to_three(s);
    reveal(in_band);
}

#[verifier::rlimit(60)]
#[verifier::spinoff_prover]
proof fn lemma_tone_within(r: RecipeView)
    ensures
        r.clamped().tone_within(),
{
    lemma_banded(r.exposure_ev, MINUS_FIVE, FIVE, ZERO);
    lemma_banded(r.contrast, MINUS_HUNDRED, HUNDRED, ZERO);
    lemma_banded(r.highlights, MINUS_HUNDRED, HUNDRED, ZERO);
    lemma_banded(r.shadows, MINUS_HUNDRED, HUNDRED, ZERO);
    lemma_banded(r.whites, MINUS_HUNDRED, HUNDRED, ZERO);
    lemma_banded(r.blacks, MINUS_HUNDRED, HUNDRED, ZERO);
    lemma_banded(r.tint, MINUS_HUNDRED, HUNDRED, ZERO);
    lemma_banded(r.vibrance, MINUS_HUNDRED, HUNDRED, ZERO);
    lemma_banded(r.saturation, MINUS_HUNDRED, HUNDRED, ZERO);
    lemma_banded(r.clarity, MINUS_HUNDRED, HUNDRED, ZERO);
    lemma_banded(r.dehaze, MINUS_HUNDRED, HUNDRED, ZERO);
    lemma_banded(r.texture, MINUS_HUNDRED, HUNDRED, ZERO);
    lemma_banded(r.sharpening, ZERO, HUNDRED_FIFTY, ZERO);
    lemma_banded(r.noise_reduction, ZERO, HUNDRED, ZERO);
    lemma_banded(r.sharpen_detail, ZERO, HUNDRED, ZERO);
    lemma_banded(r.sharpen_mask, ZERO, HUNDRED, ZERO);
    lemma_banded(r.nr_detail, ZERO, HUNDRED, ZERO);
    lemma_banded(r.nr_contrast, ZERO, HUNDRED, ZERO);
    lemma_banded(r.color_nr, ZERO, HUNDRED, ZERO);
    lemma_banded(r.color_nr_detail, ZERO, HUNDRED, ZERO);
    lemma_banded(r.color_nr_smooth, ZERO, HUNDRED, ZERO);
}

#[verifier::rlimit(60)]
#[verifier::spinoff_prover]
proof fn lemma_effects_within(r: RecipeView)
    ensures
        r.clamped().effects_within(),
{
    lemma_banded(r.lens_vignette, MINUS_HUNDRED, HUNDRED, ZERO);
    lemma_banded(r.lens_vignette_mid, ZERO, HUNDRED, ZERO);
    lemma_banded(r.lens_distortion, MINUS_HUNDRED, HUNDRED, ZERO);
    lemma_banded(r.ca_r, MINUS_HUNDRED, HUNDRED, ZERO);
    lemma_banded(r.ca_b, MINUS_HUNDRED, HUNDRED, ZERO);
    lemma_banded(r.defringe_purple, ZERO, TWENTY, ZERO);
    lemma_banded(r.defringe_green, ZERO, TWENTY, ZERO);
    lemma_banded(r.defringe_purple_lo, ZERO, HUNDRED, ZERO);
    lemma_banded(r.defringe_purple_hi, ZERO, HUNDRED, ZERO);
    lemma_banded(r.defringe_green_lo, ZERO, HUNDRED, ZERO);
    lemma_banded(r.defringe_green_hi, ZERO, HUNDRED, ZERO);
    lemma_banded(r.post_crop_vignette, MINUS_HUNDRED, HUNDRED, ZERO);
    lemma_banded(r.post_crop_vignette_mid, ZERO, HUNDRED, ZERO);
    lemma_banded(r.post_crop_vignette_feather, ZERO, HUNDRED, ZERO);
    lemma_banded(r.post_crop_vignette_round, MINUS_HUNDRED, HUNDRED, ZERO);
    lemma_banded(r.post_crop_vignette_hl, ZERO, HUNDRED, ZERO);
    lemma_banded(r.grain, ZERO, HUNDRED, ZERO);
    lemma_banded(r.grain_size, ZERO, HUNDRED, ZERO);
    lemma_banded(r.grain_rough, ZERO, HUNDRED, ZERO);
    lemma_banded(r.straighten_deg, MINUS_FORTY_FIVE, FORTY_FIVE, ZERO);
    lemma_banded(r.confidence, ZERO, ONE, ZERO);
    lemma_radius(r.sharpen_radius);
    lemma_style(r.post_crop_vignette_style);
}

/// A clamped recipe is within all its limits, whatever it was before: every
/// number is finite and in its band, every list and every text is cut to size,
/// and every mask that is left can be drawn.
pub proof fn clamp_bounds_every_part(r: RecipeView)
    ensures
        r.clamped().within_limits(),
{
    lemma_tone_within(r);
    lemma_effects_within(r);
    lemma_known(r.temperature_k, TWO_THOUSAND, FORTY_THOUSAND);
    lemma_known(r.as_shot_k, TWO_THOUSAND, FORTY_THOUSAND);
    lemma_known(r.as_shot_tint, MINUS_HUNDRED, HUNDRED);
    lemma_grade(r.color_grade);
    lemma_crop(r.crop);
    lemma_hsl(r.hsl);
    lemma_passthrough(r.passthrough);
    lemma_base_curve(first(r.base_curve, MAX_BASE_KNOTS as nat));
    lemma_lens(r.lens_profile);
    lemma_masks_within(first(r.masks, MAX_MASKS as nat));
    lemma_capped_fits(r.rationale, MAX_RATIONALE as nat);
}

/// A recipe within its limits loses nothing to a clamp.
pub proof fn nothing_is_lost_within_limits(r: RecipeView)
    requires
        r.within_limits(),
    ensures
        r.lost() == ClampSummary::nothing(),
{
    lemma_masks_fixed(r.masks);
    lemma_passthrough_lost(r.passthrough);
    lemma_capped_fits(r.rationale, MAX_RATIONALE as nat);
}

/// A second clamp loses nothing: all there is to lose was lost, and counted, the
/// first time.
pub proof fn a_second_clamp_loses_nothing(r: RecipeView)
    ensures
        r.clamped().lost() == ClampSummary::nothing(),
{
    clamp_bounds_every_part(r);
    nothing_is_lost_within_limits(r.clamped());
}

#[verifier::rlimit(60)]
proof fn lemma_sliders_fixed(r: RecipeView)
    requires
        r.sliders_within(),
        known_within(r.temperature_k, TWO_THOUSAND, FORTY_THOUSAND),
        known_within(r.as_shot_k, TWO_THOUSAND, FORTY_THOUSAND),
        known_within(r.as_shot_tint, MINUS_HUNDRED, HUNDRED),
        r.quarter_turns < 4,
        r.color_grade.within_limits(),
        r.color_grade.hues_settled(),
        crop_within(r.crop),
    ensures
        r.sliders_clamped() == r,
{
    lemma_banded_fixed(r.exposure_ev, MINUS_FIVE, FIVE, ZERO);
    lemma_banded_fixed(r.contrast, MINUS_HUNDRED, HUNDRED, ZERO);
    lemma_banded_fixed(r.highlights, MINUS_HUNDRED, HUNDRED, ZERO);
    lemma_banded_fixed(r.shadows, MINUS_HUNDRED, HUNDRED, ZERO);
    lemma_banded_fixed(r.whites, MINUS_HUNDRED, HUNDRED, ZERO);
    lemma_banded_fixed(r.blacks, MINUS_HUNDRED, HUNDRED, ZERO);
    lemma_banded_fixed(r.tint, MINUS_HUNDRED, HUNDRED, ZERO);
    lemma_banded_fixed(r.vibrance, MINUS_HUNDRED, HUNDRED, ZERO);
    lemma_banded_fixed(r.saturation, MINUS_HUNDRED, HUNDRED, ZERO);
    lemma_banded_fixed(r.clarity, MINUS_HUNDRED, HUNDRED, ZERO);
    lemma_banded_fixed(r.dehaze, MINUS_HUNDRED, HUNDRED, ZERO);
    lemma_banded_fixed(r.texture, MINUS_HUNDRED, HUNDRED, ZERO);
    lemma_banded_fixed(r.sharpening, ZERO, HUNDRED_FIFTY, ZERO);
    lemma_banded_fixed(r.noise_reduction, ZERO, HUNDRED, ZERO);
    lemma_banded_fixed(r.sharpen_detail, ZERO, HUNDRED, ZERO);
    lemma_banded_fixed(r.sharpen_mask, ZERO, HUNDRED, ZERO);
    lemma_banded_fixed(r.nr_detail, ZERO, HUNDRED, ZERO);
    lemma_banded_fixed(r.nr_contrast, ZERO, HUNDRED, ZERO);
    lemma_banded_fixed(r.color_nr, ZERO, HUNDRED, ZERO);
    lemma_banded_fixed(r.color_nr_detail, ZERO, HUNDRED, ZERO);
    lemma_banded_fixed(r.color_nr_smooth, ZERO, HUNDRED, ZERO);
    lemma_banded_fixed(r.lens_vignette, MINUS_HUNDRED, HUNDRED, ZERO);
    lemma_banded_fixed(r.lens_vignette_mid, ZERO, HUNDRED, ZERO);
    lemma_banded_fixed(r.lens_distortion, MINUS_HUNDRED, HUNDRED, ZERO);
    lemma_banded_fixed(r.ca_r, MINUS_HUNDRED, HUNDRED, ZERO);
    lemma_banded_fixed(r.ca_b, MINUS_HUNDRED, HUNDRED, ZERO);
    lemma_banded_fixed(r.defringe_purple, ZERO, TWENTY, ZERO);
    lemma_banded_fixed(r.defringe_green, ZERO, TWENTY, ZERO);
    lemma_banded_fixed(r.defringe_purple_lo, ZERO, HUNDRED, ZERO);
    lemma_banded_fixed(r.defringe_purple_hi, ZERO, HUNDRED, ZERO);
    lemma_banded_fixed(r.defringe_green_lo, ZERO, HUNDRED, ZERO);
    lemma_banded_fixed(r.defringe_green_hi, ZERO, HUNDRED, ZERO);
    lemma_banded_fixed(r.post_crop_vignette, MINUS_HUNDRED, HUNDRED, ZERO);
    lemma_banded_fixed(r.post_crop_vignette_mid, ZERO, HUNDRED, ZERO);
    lemma_banded_fixed(r.post_crop_vignette_feather, ZERO, HUNDRED, ZERO);
    lemma_banded_fixed(r.post_crop_vignette_round, MINUS_HUNDRED, HUNDRED, ZERO);
    lemma_banded_fixed(r.post_crop_vignette_hl, ZERO, HUNDRED, ZERO);
    lemma_banded_fixed(r.grain, ZERO, HUNDRED, ZERO);
    lemma_banded_fixed(r.grain_size, ZERO, HUNDRED, ZERO);
    lemma_banded_fixed(r.grain_rough, ZERO, HUNDRED, ZERO);
    lemma_banded_fixed(r.straighten_deg, MINUS_FORTY_FIVE, FORTY_FIVE, ZERO);
    lemma_banded_fixed(r.confidence, ZERO, ONE, ZERO);
    lemma_banded_fixed(r.sharpen_radius, ZERO, THREE, ZERO);
    lemma_banded_fixed(r.post_crop_vignette_style, ZERO, THREE, ZERO);
    lemma_known(r.temperature_k, TWO_THOUSAND, FORTY_THOUSAND);
    lemma_known(r.as_shot_k, TWO_THOUSAND, FORTY_THOUSAND);
    lemma_known(r.as_shot_tint, MINUS_HUNDRED, HUNDRED);
    lemma_grade(r.color_grade);
    lemma_crop(r.crop);
    assert(r.sliders_clamped() == r);
}

/// A recipe within its limits is left as it is by a clamp, but for a hue of a
/// full turn, which becomes nought.
pub proof fn a_recipe_within_limits_is_left_alone(r: RecipeView)
    requires
        r.within_limits(),
        r.color_grade.hues_settled(),
    ensures
        r.clamped() == r,
{
    lemma_sliders_fixed(r);
    lemma_hsl(r.hsl);
    lemma_passthrough(r.passthrough);
    lemma_base_curve(r.base_curve);
    lemma_lens(r.lens_profile);
    lemma_masks_fixed(r.masks);
    lemma_capped_fits(r.rationale, MAX_RATIONALE as nat);
    assert(r.clamped() == r);
}

/// Clamping twice is clamping once, wherever no hue is below nought: one just below
/// nought is rounded up to a full turn by the first clamp, and made nought by the
/// second.
pub proof fn clamping_twice_is_clamping_once(r: RecipeView)
    requires
        !hue_below_nought(r.color_grade.shadow_hue),
        !hue_below_nought(r.color_grade.midtone_hue),
        !hue_below_nought(r.color_grade.highlight_hue),
        !hue_below_nought(r.color_grade.global_hue),
    ensures
        r.clamped().clamped() == r.clamped(),
{
    clamp_bounds_every_part(r);
    lemma_wheel_settles(r.color_grade.shadow_hue);
    lemma_wheel_settles(r.color_grade.midtone_hue);
    lemma_wheel_settles(r.color_grade.highlight_hue);
    lemma_wheel_settles(r.color_grade.global_hue);
    a_recipe_within_limits_is_left_alone(r.clamped());
}

/// A number below nought.
pub open spec fn hue_below_nought(hue: Single) -> bool {
    hue.finite() && hue.less(num(ZERO))
}

proof fn lemma_wheel_settles(hue: Single)
    requires
        !hue_below_nought(hue),
    ensures
        wheel_hue(hue).less(num(TURN)),
{
    if hue.finite() {
        lemma_hue_below_turn(hue);
    } else {
        lemma_hue_below_turn(num(ZERO));
    }
}

/// A clamp keeps a recipe valid: foreign attributes go from the end, those with the last
/// keys, and the rest stays in order.
pub proof fn clamping_keeps_a_recipe_valid(r: RecipeView)
    requires
        r.well_formed(),
    ensures
        r.clamped().well_formed(),
{
    let kept = r.clamped().passthrough;
    assert forall|i: int, j: int| 0 <= i < j < kept.len() implies text_below(
        (#[trigger] kept[i]).0,
        (#[trigger] kept[j]).0,
    ) by {
        assert(kept[i].0 == r.passthrough[i].0 && kept[j].0 == r.passthrough[j].0);
    }
}

/// A new recipe is within its limits, and a clamp leaves it as it is.
pub proof fn a_new_recipe_is_within_limits()
    ensures
        RecipeView::neutral().within_limits(),
        RecipeView::neutral().clamped() == RecipeView::neutral(),
        RecipeView::neutral().lost() == ClampSummary::nothing(),
{
    let r = RecipeView::neutral();
    assert(r.sliders_within()) by {
        reveal(in_band);
        lemma_zero_settles();
    }
    assert(r.parts_within()) by {
        reveal(in_band);
    }
    a_recipe_within_limits_is_left_alone(r);
    nothing_is_lost_within_limits(r);
}

proof fn lemma_zero_settles()
    ensures
        tenths(num(ZERO)) == num(ZERO),
        num(ZERO).rounded() == num(ZERO),
{
    let z = num(ZERO);
    lemma_pow2_pos(149);
    lemma_pow2_adds(149, 1);
    lemma2_to64();
    lemma_magnitude_increases(0, TEN as int);
    lemma_round_zero(1);
    lemma_round_zero(pow2(149) as int);
    lemma_round_zero(magnitude(TEN as int));
    assert(num(TEN).code() == TEN && !num(TEN).negative());
    assert(magnitude(0) == 0);
    assert(0 * magnitude(TEN as int) == 0);
    assert(z.product(num(TEN)) == z) by {
        reveal(Single::product);
    }
    assert(z.rounded() == z) by {
        reveal(Single::rounded);
        assert((2 * 0int + pow2(149)) / (pow2(150) as int) == 0) by (nonlinear_arith)
            requires
                pow2(150) == pow2(149) * 2,
                pow2(149) > 0,
        ;
        assert(0 * pow2(149) == 0);
    }
    assert(z.quotient(num(TEN)) == z) by {
        reveal(Single::quotient);
        assert(0 * pow2(149) == 0);
    }
}

} // verus!
