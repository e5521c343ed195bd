//! The limits of a recipe: every number pulled into its band, every list and
//! text cut to its size, and an account of what was lost.

use vstd::prelude::*;
use crate::numbers::{
    EIGHT, FIFTY, FIVE, FORTY_FIVE, FORTY_THOUSAND, FOUR, HALF, HALF_TURN, HUNDRED, HUNDRED_FIFTY,
    HUNDRED_TWO_HUNDREDTHS, MINUS_EIGHT, MINUS_FIVE, MINUS_FORTY_FIVE, MINUS_HUNDRED,
    NINETY_EIGHT_HUNDREDTHS, ONE, ONE_THOUSANDTH, ONE_TWENTIETH, QUARTER, SEVEN_TENTHS, TEN,
    THIRTEEN_TENTHS, THREE, TURN, TWENTY, TWO_THOUSAND, ZERO,
};
use crate::recipe::{
    component_views, gains_view, knot_views, pair_views, stroke_views, adjustment_views,
    AdjustmentView, BrushStroke, ColorGrade, ComponentView, Crop, CurvePoint, EditRecipe,
    GeometryView, Hsl, HslView, LensProfile, LensView, LocalAdjustment, MaskComponent, MaskGeometry,
    MaskWarpCenter, MaskWarpSource, RangeMask, RecipeView, StrokeView,
};
use crate::single::{num, Single};
use crate::text::{byte_len, cap, cap_tokens, capped, truncate_chars, whole_lines, byte_length};

verus! {

/// The number of knots that a mask warp may have.
pub const MASK_WARP_KNOTS: usize = 64;

/// The number of knots that a lens spline may have.
pub const LENS_KNOTS: usize = 32;

pub const MAX_MASKS: usize = 64;

pub const MAX_CURVE_POINTS: usize = 256;

pub const MAX_BASE_KNOTS: usize = 256;

pub const MAX_RATIONALE: usize = 16384;

pub const MAX_NAME: usize = 256;

pub const MAX_PATH: usize = 4096;

pub const MAX_BRUSH_STROKES: usize = 256;

pub const MAX_DABS: usize = 262144;

pub const MAX_PASSTHROUGH: usize = 64;

pub const MAX_PASSTHROUGH_VALUE: usize = 512;

pub const MAX_MASK_COMPONENTS: usize = 16;

pub const MAX_AI_PROVENANCE_ENTRIES: usize = 16;

pub const MAX_AI_PROVENANCE_KEY_CHARS: usize = 48;

pub const MAX_AI_PROVENANCE_VALUE_CHARS: usize = 128;

/// A number pulled into `lo ..= hi`, or `neutral` if it is not finite.
#[verifier::opaque]
pub open spec fn banded(v: Single, lo: u32, hi: u32, neutral: u32) -> Single {
    if v.finite() {
        v.clamped(num(lo), num(hi))
    } else {
        num(neutral)
    }
}

/// A slider pulled into its band: what is not finite is no edit.
pub open spec fn slider(v: Single, lo: u32, hi: u32) -> Single {
    banded(v, lo, hi, ZERO)
}

fn band(v: Single, lo: u32, hi: u32, neutral: u32) -> (r: Single)
    requires
        num(lo).at_most(num(hi)),
    ensures
        r == banded(v, lo, hi, neutral),
{
    proof {
        reveal(banded);
    }
    if v.is_finite() {
        v.clamp(Single { bits: lo }, Single { bits: hi })
    } else {
        Single { bits: neutral }
    }
}

fn slide(v: Single, lo: u32, hi: u32) -> (r: Single)
    requires
        num(lo).at_most(num(hi)),
    ensures
        r == slider(v, lo, hi),
{
    band(v, lo, hi, ZERO)
}

/// A sum that stops at the largest count.
pub open spec fn sat(n: nat) -> usize {
    if n > usize::MAX {
        usize::MAX
    } else {
        n as usize
    }
}

/// What is over a limit.
pub open spec fn excess(n: nat, max: nat) -> nat {
    if n > max {
        (n - max) as nat
    } else {
        0
    }
}

/// The first `max` of a list.
pub open spec fn first<A>(s: Seq<A>, max: nat) -> Seq<A> {
    if s.len() > max {
        s.take(max as int)
    } else {
        s
    }
}

// ---- lens profile ----

/// The finite samples of a spline, in order, each pulled into its band.
pub open spec fn finite_samples(s: Seq<Single>, lo: u32, hi: u32) -> Seq<Single>
    decreases s.len(),
{
    if s.len() == 0 {
        seq![]
    } else {
        let before = finite_samples(s.drop_last(), lo, hi);
        if s.last().finite() {
            before.push(s.last().clamped(num(lo), num(hi)))
        } else {
            before
        }
    }
}

/// A centre that a warp can be radial about.
pub open spec fn usable_center(c: MaskWarpCenter) -> bool {
    &&& c.stored_px@[0].finite() && c.stored_px@[1].finite()
    &&& c.stored_dims@[0].finite() && c.stored_dims@[1].finite()
    &&& !c.stored_px@[0].less(num(ZERO)) && !c.stored_px@[1].less(num(ZERO))
    &&& !c.stored_dims@[0].at_most(num(ZERO)) && !c.stored_dims@[1].at_most(num(ZERO))
}

impl LensView {
    /// The profile within its limits. A source that solved nothing carries no
    /// warp, and a solved one without a usable spline could not be read.
    pub open spec fn clamped(self) -> LensView {
        let warp = finite_samples(
            first(self.mask_warp, MASK_WARP_KNOTS as nat),
            SEVEN_TENTHS,
            THIRTEEN_TENTHS,
        );
        let handles = finite_samples(
            first(self.linear_handle_warp, MASK_WARP_KNOTS as nat),
            SEVEN_TENTHS,
            THIRTEEN_TENTHS,
        );
        let usable = self.mask_warp_src.solved() && warp.len() >= 2;
        let carried = self.mask_warp_src is DisabledInSidecar && handles.len() >= 2;
        LensView {
            vignette: finite_samples(first(self.vignette, LENS_KNOTS as nat), QUARTER, FOUR),
            distortion: finite_samples(
                first(self.distortion, LENS_KNOTS as nat),
                SEVEN_TENTHS,
                THIRTEEN_TENTHS,
            ),
            ca_r: finite_samples(
                first(self.ca_r, LENS_KNOTS as nat),
                NINETY_EIGHT_HUNDREDTHS,
                HUNDRED_TWO_HUNDREDTHS,
            ),
            ca_b: finite_samples(
                first(self.ca_b, LENS_KNOTS as nat),
                NINETY_EIGHT_HUNDREDTHS,
                HUNDRED_TWO_HUNDREDTHS,
            ),
            mask_warp: if usable { warp } else { seq![] },
            linear_handle_warp: if carried { handles } else { seq![] },
            mask_warp_src: if self.mask_warp_src.solved() && !usable {
                MaskWarpSource::Unparseable
            } else {
                self.mask_warp_src
            },
            mask_warp_center: match self.mask_warp_center {
                Some(c) if usable_center(c) => Some(c),
                _ => None,
            },
            ..self
        }
    }

    /// Every component that the profile has is on, and no other.
    pub open spec fn as_stamped(self) -> bool {
        &&& self.vignette_on == (self.vignette.len() > 0)
        &&& self.distortion_on == (self.distortion.len() > 0)
        &&& self.ca_on == (self.ca_r.len() > 0 && self.ca_b.len() > 0)
    }
}

/// Keeps the finite samples among the first `max`, pulled into the band.
fn clamp_samples(v: &mut Vec<Single>, max: usize, lo: u32, hi: u32)
    requires
        num(lo).at_most(num(hi)),
    ensures
        final(v)@ == finite_samples(first(old(v)@, max as nat), lo, hi),
{
    v.truncate(max);
    let ghost all = v@;
    assert(all =~= first(old(v)@, max as nat));
    let mut kept: Vec<Single> = Vec::new();
    for i in 0..v.len()
        invariant
            v@ == all,
            num(lo).at_most(num(hi)),
            kept@ == finite_samples(all.take(i as int), lo, hi),
    {
        assert(all.take(i + 1).drop_last() =~= all.take(i as int));
        if v[i].is_finite() {
            kept.push(v[i].clamp(Single { bits: lo }, Single { bits: hi }));
        }
    }
    assert(all.take(all.len() as int) =~= all);
    *v = kept;
}

impl LensProfile {
    /// The warp that a linear mask's handles ride.
    pub fn linear_handle_warp(&self) -> (r: &Vec<Single>)
        ensures
            r@ == (if self.mask_warp_src is DisabledInSidecar {
                self.linear_handle_warp@
            } else {
                self.mask_warp@
            }),
    {
        if self.mask_warp_src == MaskWarpSource::DisabledInSidecar {
            &self.linear_handle_warp
        } else {
            &self.mask_warp
        }
    }

    pub fn vignette_active(&self) -> (r: bool)
        ensures
            r == (self.vignette_on && self.vignette@.len() > 0),
    {
        self.vignette_on && self.vignette.len() > 0
    }

    pub fn geometry_active(&self) -> (r: bool)
        ensures
            r == ((self.distortion_on && self.distortion@.len() > 0) || (self.ca_on
                && self.ca_r@.len() > 0 && self.ca_b@.len() > 0)),
    {
        (self.distortion_on && self.distortion.len() > 0) || (self.ca_on && self.ca_r.len() > 0
            && self.ca_b.len() > 0)
    }

    pub fn is_as_stamped(&self) -> (r: bool)
        ensures
            r == self@.as_stamped(),
    {
        let ca_present: bool = self.ca_r.len() > 0 && self.ca_b.len() > 0;
        self.vignette_on == (self.vignette.len() > 0) && self.distortion_on == (
        self.distortion.len() > 0) && self.ca_on == ca_present
    }

    /// Pulls the profile into its limits.
    pub fn clamp(&mut self)
        ensures
            final(self)@ == old(self)@.clamped(),
    {
        clamp_samples(&mut self.vignette, LENS_KNOTS, QUARTER, FOUR);
        clamp_samples(&mut self.distortion, LENS_KNOTS, SEVEN_TENTHS, THIRTEEN_TENTHS);
        clamp_samples(
            &mut self.ca_r,
            LENS_KNOTS,
            NINETY_EIGHT_HUNDREDTHS,
            HUNDRED_TWO_HUNDREDTHS,
        );
        clamp_samples(
            &mut self.ca_b,
            LENS_KNOTS,
            NINETY_EIGHT_HUNDREDTHS,
            HUNDRED_TWO_HUNDREDTHS,
        );
        clamp_samples(&mut self.mask_warp, MASK_WARP_KNOTS, SEVEN_TENTHS, THIRTEEN_TENTHS);
        clamp_samples(&mut self.linear_handle_warp, MASK_WARP_KNOTS, SEVEN_TENTHS, THIRTEEN_TENTHS);
        if let Some(c) = self.mask_warp_center {
            let zero: Single = Single { bits: ZERO };
            let x: Single = c.stored_px[0];
            let y: Single = c.stored_px[1];
            let w: Single = c.stored_dims[0];
            let h: Single = c.stored_dims[1];
            if !x.is_finite() || !y.is_finite() || !w.is_finite() || !h.is_finite() || x.lt(zero)
                || y.lt(zero) || w.le(zero) || h.le(zero) {
                self.mask_warp_center = None;
            }
        }
        if !self.mask_warp_src.is_solved() {
            self.mask_warp.clear();
        } else if self.mask_warp.len() < 2 {
            self.mask_warp.clear();
            self.mask_warp_src = MaskWarpSource::Unparseable;
        }
        if self.mask_warp_src != MaskWarpSource::DisabledInSidecar || self.linear_handle_warp.len()
            < 2 {
            self.linear_handle_warp.clear();
        }
        assert(self@ =~= old(self)@.clamped());
    }
}

// ---- colour ----

/// Each slider of an axis in its band.
pub open spec fn axis_clamped(s: Seq<Single>) -> Seq<Single> {
    Seq::new(s.len(), |i: int| slider(s[i], MINUS_HUNDRED, HUNDRED))
}

/// Every slider of an axis at rest.
pub open spec fn axis_neutral(s: Seq<Single>) -> bool {
    forall|i: int| 0 <= i < s.len() ==> (#[trigger] s[i]).equals(num(ZERO))
}

impl HslView {
    pub open spec fn clamped(self) -> HslView {
        HslView {
            hue: axis_clamped(self.hue),
            saturation: axis_clamped(self.saturation),
            luminance: axis_clamped(self.luminance),
        }
    }

    pub open spec fn at_rest(self) -> bool {
        axis_neutral(self.hue) && axis_neutral(self.saturation) && axis_neutral(self.luminance)
    }
}

fn axis_is_neutral(a: &[Single; 8]) -> (r: bool)
    ensures
        r == axis_neutral(a@),
{
    let zero: Single = Single { bits: ZERO };
    for i in 0..8usize
        invariant
            zero == num(ZERO),
            a@.len() == 8,
            forall|j: int| 0 <= j < i ==> (#[trigger] a@[j]).equals(num(ZERO)),
    {
        if a[i] != zero {
            return false;
        }
    }
    true
}

fn clamp_axis(a: &mut [Single; 8])
    ensures
        final(a)@ == axis_clamped(old(a)@),
{
    let ghost before = a@;
    for i in 0..8usize
        invariant
            a@.len() == 8,
            before.len() == 8,
            forall|j: int| 0 <= j < i ==> a@[j] == slider(before[j], MINUS_HUNDRED, HUNDRED),
            forall|j: int| i <= j < 8 ==> a@[j] == before[j],
    {
        let v: Single = slide(a[i], MINUS_HUNDRED, HUNDRED);
        a[i] = v;
    }
    assert(a@ =~= axis_clamped(before));
}

impl Hsl {
    pub fn is_neutral(&self) -> (r: bool)
        ensures
            r == self@.at_rest(),
    {
        axis_is_neutral(&self.hue) && axis_is_neutral(&self.saturation) && axis_is_neutral(
            &self.luminance,
        )
    }

    pub fn clamp(&mut self)
        ensures
            final(self)@ == old(self)@.clamped(),
    {
        clamp_axis(&mut self.hue);
        clamp_axis(&mut self.saturation);
        clamp_axis(&mut self.luminance);
    }
}

/// The hue of a wheel, once round the circle. A hue that is no number is 0.
pub open spec fn wheel_hue(hue: Single) -> Single {
    if hue.finite() {
        hue.euclidean_remainder(num(TURN))
    } else {
        num(ZERO).euclidean_remainder(num(TURN))
    }
}

/// The saturation of a wheel. Under a hue that is no number it is 0.
pub open spec fn wheel_saturation(hue: Single, sat: Single) -> Single {
    if hue.finite() {
        slider(sat, ZERO, HUNDRED)
    } else {
        slider(num(ZERO), ZERO, HUNDRED)
    }
}

impl ColorGrade {
    pub open spec fn clamped(self) -> ColorGrade {
        ColorGrade {
            shadow_hue: wheel_hue(self.shadow_hue),
            shadow_sat: wheel_saturation(self.shadow_hue, self.shadow_sat),
            shadow_lum: slider(self.shadow_lum, MINUS_HUNDRED, HUNDRED),
            midtone_hue: wheel_hue(self.midtone_hue),
            midtone_sat: wheel_saturation(self.midtone_hue, self.midtone_sat),
            midtone_lum: slider(self.midtone_lum, MINUS_HUNDRED, HUNDRED),
            highlight_hue: wheel_hue(self.highlight_hue),
            highlight_sat: wheel_saturation(self.highlight_hue, self.highlight_sat),
            highlight_lum: slider(self.highlight_lum, MINUS_HUNDRED, HUNDRED),
            global_hue: wheel_hue(self.global_hue),
            global_sat: wheel_saturation(self.global_hue, self.global_sat),
            global_lum: slider(self.global_lum, MINUS_HUNDRED, HUNDRED),
            blending: banded(self.blending, ZERO, HUNDRED, FIFTY),
            balance: slider(self.balance, MINUS_HUNDRED, HUNDRED),
        }
    }

    /// No wheel moves a colour: a hue alone does nothing.
    pub open spec fn at_rest(self) -> bool {
        let z = num(ZERO);
        &&& self.shadow_sat.equals(z) && self.shadow_lum.equals(z)
        &&& self.midtone_sat.equals(z) && self.midtone_lum.equals(z)
        &&& self.highlight_sat.equals(z) && self.highlight_lum.equals(z)
        &&& self.global_sat.equals(z) && self.global_lum.equals(z)
    }

    pub fn is_neutral(&self) -> (r: bool)
        ensures
            r == self.at_rest(),
    {
        let z: Single = Single { bits: ZERO };
        self.shadow_sat == z && self.shadow_lum == z && self.midtone_sat == z && self.midtone_lum
            == z && self.highlight_sat == z && self.highlight_lum == z && self.global_sat == z
            && self.global_lum == z
    }

    fn clamp_wheel(hue: Single, sat: Single) -> (r: (Single, Single))
        ensures
            r.0 == wheel_hue(hue),
            r.1 == wheel_saturation(hue, sat),
    {
        let zero: Single = Single { bits: ZERO };
        let turn: Single = Single { bits: TURN };
        if hue.is_finite() {
            (hue.rem_euclid(turn), slide(sat, ZERO, HUNDRED))
        } else {
            (zero.rem_euclid(turn), slide(zero, ZERO, HUNDRED))
        }
    }

    pub fn clamp(&mut self)
        ensures
            *final(self) == old(self).clamped(),
    {
        let (hue, sat) = ColorGrade::clamp_wheel(self.shadow_hue, self.shadow_sat);
        self.shadow_hue = hue;
        self.shadow_sat = sat;
        let (hue, sat) = ColorGrade::clamp_wheel(self.midtone_hue, self.midtone_sat);
        self.midtone_hue = hue;
        self.midtone_sat = sat;
        let (hue, sat) = ColorGrade::clamp_wheel(self.highlight_hue, self.highlight_sat);
        self.highlight_hue = hue;
        self.highlight_sat = sat;
        let (hue, sat) = ColorGrade::clamp_wheel(self.global_hue, self.global_sat);
        self.global_hue = hue;
        self.global_sat = sat;
        self.shadow_lum = slide(self.shadow_lum, MINUS_HUNDRED, HUNDRED);
        self.midtone_lum = slide(self.midtone_lum, MINUS_HUNDRED, HUNDRED);
        self.highlight_lum = slide(self.highlight_lum, MINUS_HUNDRED, HUNDRED);
        self.global_lum = slide(self.global_lum, MINUS_HUNDRED, HUNDRED);
        self.blending = band(self.blending, ZERO, HUNDRED, FIFTY);
        self.balance = slide(self.balance, MINUS_HUNDRED, HUNDRED);
    }
}

// ---- strokes and shapes ----

/// The numbers of a stroke are finite.
pub open spec fn stroke_finite(s: StrokeView) -> bool {
    s.value.finite() && s.radius.finite() && s.flow.finite() && s.center_weight.finite()
}

/// The numbers of every stroke are finite.
pub open spec fn strokes_finite(s: Seq<StrokeView>) -> bool {
    forall|i: int| 0 <= i < s.len() ==> stroke_finite(#[trigger] s[i])
}

/// The numbers that a shape is drawn by are finite.
pub open spec fn geometry_finite(g: GeometryView) -> bool {
    match g {
        GeometryView::Linear { zero_x, zero_y, full_x, full_y } => zero_x.finite()
            && zero_y.finite() && full_x.finite() && full_y.finite(),
        GeometryView::Radial { top, left, bottom, right, feather, roundness, angle, .. } =>
            top.finite() && left.finite() && bottom.finite() && right.finite() && feather.finite()
            && roundness.finite() && angle.finite(),
        GeometryView::Bitmap { .. } => true,
        GeometryView::Brush { value, strokes, .. } => value.finite() && strokes_finite(
            strokes,
        ),
        GeometryView::AiMask { ref_x, ref_y, value, gesture, .. } => ref_x.finite()
            && ref_y.finite() && value.finite() && strokes_finite(gesture),
    }
}

/// The numbers of a range are finite.
pub open spec fn range_finite(r: Option<RangeMask>) -> bool {
    match r {
        Some(RangeMask::Luminance { lo_outer, lo, hi, hi_outer }) => lo_outer.finite()
            && lo.finite() && hi.finite() && hi_outer.finite(),
        Some(RangeMask::Color { r, g, b, amount, px, py }) => r.finite() && g.finite()
            && b.finite() && amount.finite() && px.finite() && py.finite(),
        None => true,
    }
}

fn strokes_are_finite(v: &Vec<BrushStroke>) -> (r: bool)
    ensures
        r == strokes_finite(stroke_views(v@)),
{
    for i in 0..v.len()
        invariant
            forall|j: int| 0 <= j < i ==> stroke_finite(#[trigger] stroke_views(v@)[j]),
    {
        let s: &BrushStroke = &v[i];
        if !(s.value.is_finite() && s.radius.is_finite() && s.flow.is_finite()
            && s.center_weight.is_finite()) {
            assert(!stroke_finite(stroke_views(v@)[i as int]));
            return false;
        }
    }
    true
}

pub fn geometry_is_finite(g: &MaskGeometry) -> (r: bool)
    ensures
        r == geometry_finite(g@),
{
    match g {
        MaskGeometry::Linear { zero_x, zero_y, full_x, full_y } => zero_x.is_finite()
            && zero_y.is_finite() && full_x.is_finite() && full_y.is_finite(),
        MaskGeometry::Radial { top, left, bottom, right, feather, roundness, angle, .. } =>
            top.is_finite() && left.is_finite() && bottom.is_finite() && right.is_finite()
            && feather.is_finite() && roundness.is_finite() && angle.is_finite(),
        MaskGeometry::Bitmap { .. } => true,
        MaskGeometry::Brush { value, strokes, .. } => value.is_finite() && strokes_are_finite(
            strokes,
        ),
        MaskGeometry::AiMask { ref_x, ref_y, value, gesture, .. } => ref_x.is_finite()
            && ref_y.is_finite() && value.is_finite() && strokes_are_finite(gesture),
    }
}

pub fn range_is_finite(range: &Option<RangeMask>) -> (r: bool)
    ensures
        r == range_finite(*range),
{
    match range {
        Some(RangeMask::Luminance { lo_outer, lo, hi, hi_outer }) => lo_outer.is_finite()
            && lo.is_finite() && hi.is_finite() && hi_outer.is_finite(),
        Some(RangeMask::Color { r, g, b, amount, px, py }) => r.is_finite() && g.is_finite()
            && b.is_finite() && amount.is_finite() && px.is_finite() && py.is_finite(),
        None => true,
    }
}

/// The bytes that a text loses to a byte limit.
pub open spec fn cut(s: Seq<char>, max: nat) -> nat {
    (byte_len(s) - byte_len(capped(s, max))) as nat
}

/// A stroke with its texts cut; the dab stream only between its lines.
pub open spec fn stroke_capped(s: StrokeView) -> StrokeView {
    StrokeView {
        sync_id: capped(s.sync_id, MAX_NAME as nat),
        dabs: whole_lines(s.dabs, MAX_DABS as nat),
        ..s
    }
}

/// The bytes that a stroke loses.
pub open spec fn stroke_cut(s: StrokeView) -> nat {
    cut(s.sync_id, MAX_NAME as nat) + (byte_len(s.dabs) - byte_len(
        whole_lines(s.dabs, MAX_DABS as nat),
    )) as nat
}

/// The strokes cut, without those that have no dab left.
pub open spec fn strokes_capped(s: Seq<StrokeView>) -> Seq<StrokeView>
    decreases s.len(),
{
    if s.len() == 0 {
        seq![]
    } else {
        let before = strokes_capped(s.drop_last());
        let last = stroke_capped(s.last());
        if last.dabs.len() > 0 {
            before.push(last)
        } else {
            before
        }
    }
}

/// The bytes that the strokes lose.
pub open spec fn strokes_cut(s: Seq<StrokeView>) -> nat
    decreases s.len(),
{
    if s.len() == 0 {
        0
    } else {
        strokes_cut(s.drop_last()) + stroke_cut(s.last())
    }
}

/// The pairs with both texts cut.
pub open spec fn pairs_capped(s: Seq<(Seq<char>, Seq<char>)>) -> Seq<(Seq<char>, Seq<char>)> {
    Seq::new(
        s.len(),
        |i: int| (capped(s[i].0, MAX_NAME as nat), capped(s[i].1, MAX_NAME as nat)),
    )
}

/// The bytes that the pairs lose.
pub open spec fn pairs_cut(s: Seq<(Seq<char>, Seq<char>)>) -> nat
    decreases s.len(),
{
    if s.len() == 0 {
        0
    } else {
        pairs_cut(s.drop_last()) + cut(s.last().0, MAX_NAME as nat) + cut(
            s.last().1,
            MAX_NAME as nat,
        )
    }
}

/// A shape with its texts and stroke list cut to size.
pub open spec fn geometry_capped(g: GeometryView) -> GeometryView {
    match g {
        GeometryView::Bitmap { path } => GeometryView::Bitmap {
            path: capped(path, MAX_PATH as nat),
        },
        GeometryView::Brush { name, blend_mode, value, inverted, strokes } => GeometryView::Brush {
            name: capped(name, MAX_NAME as nat),
            blend_mode,
            value,
            inverted,
            strokes: strokes_capped(first(strokes, MAX_BRUSH_STROKES as nat)),
        },
        GeometryView::AiMask {
            name,
            subtype,
            ref_x,
            ref_y,
            blend_mode,
            value,
            inverted,
            mask_version,
            provenance,
            gesture,
            raster,
        } => GeometryView::AiMask {
            name: capped(name, MAX_NAME as nat),
            subtype,
            ref_x,
            ref_y,
            blend_mode,
            value,
            inverted,
            mask_version,
            provenance: pairs_capped(provenance),
            gesture: strokes_capped(first(gesture, MAX_BRUSH_STROKES as nat)),
            raster: match raster {
                Some(p) => Some(capped(p, MAX_PATH as nat)),
                None => None,
            },
        },
        _ => g,
    }
}

/// The bytes that a shape loses.
pub open spec fn geometry_cut(g: GeometryView) -> nat {
    match g {
        GeometryView::Bitmap { path } => cut(path, MAX_PATH as nat),
        GeometryView::Brush { name, strokes, .. } => cut(name, MAX_NAME as nat) + strokes_cut(
            first(strokes, MAX_BRUSH_STROKES as nat),
        ),
        GeometryView::AiMask { name, provenance, gesture, raster, .. } => cut(
            name,
            MAX_NAME as nat,
        ) + (match raster {
            Some(p) => cut(p, MAX_PATH as nat),
            None => 0,
        }) + strokes_cut(first(gesture, MAX_BRUSH_STROKES as nat)) + pairs_cut(provenance),
        _ => 0,
    }
}

/// The strokes that a shape loses.
pub open spec fn geometry_strokes_lost(g: GeometryView) -> nat {
    match g {
        GeometryView::Brush { strokes, .. } => (strokes.len() - strokes_capped(
            first(strokes, MAX_BRUSH_STROKES as nat),
        ).len()) as nat,
        GeometryView::AiMask { gesture, .. } => (gesture.len() - strokes_capped(
            first(gesture, MAX_BRUSH_STROKES as nat),
        ).len()) as nat,
        _ => 0,
    }
}

proof fn lemma_strokes_capped_len(s: Seq<StrokeView>)
    ensures
        strokes_capped(s).len() <= s.len(),
    decreases s.len(),
{
    if s.len() > 0 {
        lemma_strokes_capped_len(s.drop_last());
    }
}

/// Cuts the texts of the first strokes and drops those without a dab left.
/// Returns the bytes and the strokes that went.
fn cap_strokes(strokes: &mut Vec<BrushStroke>) -> (lost: (usize, usize))
    ensures
        stroke_views(final(strokes)@) == strokes_capped(
            first(stroke_views(old(strokes)@), MAX_BRUSH_STROKES as nat),
        ),
        lost.0 == sat(strokes_cut(first(stroke_views(old(strokes)@), MAX_BRUSH_STROKES as nat))),
        lost.1 == stroke_views(old(strokes)@).len() - stroke_views(final(strokes)@).len(),
{
    let before: usize = strokes.len();
    let ghost all = stroke_views(strokes@);
    strokes.truncate(MAX_BRUSH_STROKES);
    let ghost taken = stroke_views(strokes@);
    assert(taken =~= first(all, MAX_BRUSH_STROKES as nat));
    let mut pending: Vec<BrushStroke> = Vec::new();
    std::mem::swap(&mut pending, strokes);
    let ghost source = pending@;
    let mut kept: Vec<BrushStroke> = Vec::new();
    let mut bytes: usize = 0;
    assert(taken.take(0) =~= Seq::<StrokeView>::empty());
    assert(stroke_views(kept@) =~= Seq::<StrokeView>::empty());
    for s in it: pending
        invariant
            it.seq() == source,
            taken == stroke_views(source),
            stroke_views(kept@) == strokes_capped(taken.take(it.index() as int)),
            bytes == sat(strokes_cut(taken.take(it.index() as int))),
    {
        let mut t: BrushStroke = s;
        let ghost k = it.index() as int;
        let ghost v = t@;
        let a: usize = cap(&mut t.sync_id, MAX_NAME);
        let b: usize = cap_tokens(&mut t.dabs, MAX_DABS);
        proof {
            assert(v == taken[k]);
            assert(t@ =~= stroke_capped(v));
            assert(taken.take(k + 1).drop_last() =~= taken.take(k));
            assert(taken.take(k + 1).last() == v);
        }
        bytes = bytes.saturating_add(a).saturating_add(b);
        if !t.dabs.as_str().is_empty() {
            let ghost earlier = kept@;
            kept.push(t);
            assert(stroke_views(kept@) =~= stroke_views(earlier).push(stroke_capped(v)));
        }
    }
    assert(taken.take(taken.len() as int) =~= taken);
    proof {
        lemma_strokes_capped_len(taken);
    }
    let after: usize = kept.len();
    *strokes = kept;
    (bytes, before - after)
}

/// Cuts both texts of each pair. Returns the bytes that went.
fn cap_pairs(pairs: &mut Vec<(String, String)>) -> (lost: usize)
    ensures
        pair_views(final(pairs)@) == pairs_capped(pair_views(old(pairs)@)),
        lost == sat(pairs_cut(pair_views(old(pairs)@))),
{
    let ghost all = pair_views(pairs@);
    let mut bytes: usize = 0;
    assert(all.take(0) =~= Seq::<(Seq<char>, Seq<char>)>::empty());
    let n: usize = pairs.len();
    for i in 0..n
        invariant
            n == all.len(),
            pairs@.len() == all.len(),
            forall|j: int|
                0 <= j < i ==> pair_views(pairs@)[j] == #[trigger] pairs_capped(all)[j],
            forall|j: int| i <= j < all.len() ==> pair_views(pairs@)[j] == #[trigger] all[j],
            bytes == sat(pairs_cut(all.take(i as int))),
    {
        let ghost k = i as int;
        let ghost v = all[k];
        assert(pair_views(pairs@)[k] == v);
        let ghost was = pairs@;
        let a: usize = cap(&mut pairs[i].0, MAX_NAME);
        let b: usize = cap(&mut pairs[i].1, MAX_NAME);
        proof {
            assert(all.take(k + 1).drop_last() =~= all.take(k));
            assert(pair_views(pairs@)[k] == pairs_capped(all)[k]);
            assert forall|j: int| 0 <= j < all.len() && j != k implies pair_views(pairs@)[j]
                == pair_views(was)[j] by {
                assert(pairs@[j] == was[j]);
            }
        }
        bytes = bytes.saturating_add(a).saturating_add(b);
    }
    assert(all.take(all.len() as int) =~= all);
    assert(pair_views(pairs@) =~= pairs_capped(all));
    bytes
}

/// Cuts the texts and the stroke list of a shape. Returns the bytes and the
/// strokes that went.
fn cap_geometry(g: &mut MaskGeometry) -> (lost: (usize, usize))
    ensures
        final(g)@ == geometry_capped(old(g)@),
        lost.0 == sat(geometry_cut(old(g)@)),
        lost.1 == geometry_strokes_lost(old(g)@),
{
    let ghost before = g@;
    match g {
        MaskGeometry::Bitmap { path } => {
            let bytes: usize = cap(path, MAX_PATH);
            (bytes, 0)
        },
        MaskGeometry::Brush { name, strokes, .. } => {
            let bytes: usize = cap(name, MAX_NAME);
            let (stroke_bytes, gone) = cap_strokes(strokes);
            (bytes.saturating_add(stroke_bytes), gone)
        },
        MaskGeometry::AiMask { name, gesture, provenance, raster, .. } => {
            let mut bytes: usize = cap(name, MAX_NAME);
            if let Some(p) = raster {
                bytes = bytes.saturating_add(cap(p, MAX_PATH));
            }
            let (stroke_bytes, gone) = cap_strokes(gesture);
            bytes = bytes.saturating_add(stroke_bytes);
            bytes = bytes.saturating_add(cap_pairs(provenance));
            (bytes, gone)
        },
        MaskGeometry::Linear { .. } | MaskGeometry::Radial { .. } => (0, 0),
    }
}

/// A stroke with its numbers in their bands.
pub open spec fn stroke_clamped(s: StrokeView) -> StrokeView {
    StrokeView {
        value: banded(s.value, ZERO, ONE, ONE),
        flow: banded(s.flow, ZERO, ONE, ONE),
        center_weight: slider(s.center_weight, ZERO, ONE),
        radius: slider(s.radius, ZERO, EIGHT),
        ..s
    }
}

pub open spec fn strokes_clamped(s: Seq<StrokeView>) -> Seq<StrokeView> {
    Seq::new(s.len(), |i: int| stroke_clamped(s[i]))
}

/// An angle as a turn of at most half a circle either way.
pub open spec fn angle_clamped(angle: Single) -> Single {
    let a = angle.euclidean_remainder(num(TURN));
    if num(HALF_TURN).less(a) {
        a.difference(num(TURN))
    } else {
        a
    }
}

/// Provenance within its limits on entries and characters.
pub open spec fn provenance_clamped(s: Seq<(Seq<char>, Seq<char>)>) -> Seq<(Seq<char>, Seq<char>)> {
    let kept = first(s, MAX_AI_PROVENANCE_ENTRIES as nat);
    Seq::new(
        kept.len(),
        |i: int|
            (
                first(kept[i].0, MAX_AI_PROVENANCE_KEY_CHARS as nat),
                first(kept[i].1, MAX_AI_PROVENANCE_VALUE_CHARS as nat),
            ),
    )
}

/// A coordinate, not further from the frame than eight times its size.
pub open spec fn coordinate(v: Single) -> Single {
    v.clamped(num(MINUS_EIGHT), num(EIGHT))
}

/// A shape with its numbers in their bands.
pub open spec fn geometry_clamped(g: GeometryView) -> GeometryView {
    match g {
        GeometryView::Linear { zero_x, zero_y, full_x, full_y } => GeometryView::Linear {
            zero_x: coordinate(zero_x),
            zero_y: coordinate(zero_y),
            full_x: coordinate(full_x),
            full_y: coordinate(full_y),
        },
        GeometryView::Radial {
            top,
            left,
            bottom,
            right,
            feather,
            roundness,
            flipped,
            angle,
            midpoint,
            mask_version,
        } => GeometryView::Radial {
            top: coordinate(top),
            left: coordinate(left),
            bottom: coordinate(bottom),
            right: coordinate(right),
            feather: feather.clamped(num(ZERO), num(ONE)),
            roundness: roundness.clamped(num(MINUS_HUNDRED), num(HUNDRED)),
            flipped,
            angle: angle_clamped(angle),
            midpoint: banded(midpoint, ZERO, HUNDRED, FIFTY),
            mask_version,
        },
        GeometryView::Bitmap { path } => g,
        GeometryView::Brush { name, blend_mode, value, inverted, strokes } => GeometryView::Brush {
            name,
            blend_mode,
            value: banded(value, ZERO, ONE, ONE),
            inverted,
            strokes: strokes_clamped(strokes),
        },
        GeometryView::AiMask {
            name,
            subtype,
            ref_x,
            ref_y,
            blend_mode,
            value,
            inverted,
            mask_version,
            provenance,
            gesture,
            raster,
        } => GeometryView::AiMask {
            name,
            subtype,
            ref_x: banded(ref_x, MINUS_EIGHT, EIGHT, HALF),
            ref_y: banded(ref_y, MINUS_EIGHT, EIGHT, HALF),
            blend_mode,
            value: banded(value, ZERO, ONE, ONE),
            inverted,
            mask_version,
            provenance: provenance_clamped(provenance),
            gesture: strokes_clamped(gesture),
            raster,
        },
    }
}

fn clamp_strokes(v: &mut Vec<BrushStroke>)
    ensures
        stroke_views(final(v)@) == strokes_clamped(stroke_views(old(v)@)),
{
    let ghost all = stroke_views(v@);
    let n: usize = v.len();
    for i in 0..n
        invariant
            n == all.len(),
            v@.len() == all.len(),
            forall|j: int| 0 <= j < i ==> (#[trigger] v@[j])@ == stroke_clamped(all[j]),
            forall|j: int| i <= j < all.len() ==> (#[trigger] v@[j])@ == all[j],
    {
        let s: &mut BrushStroke = &mut v[i];
        s.value = band(s.value, ZERO, ONE, ONE);
        s.flow = band(s.flow, ZERO, ONE, ONE);
        s.center_weight = slide(s.center_weight, ZERO, ONE);
        s.radius = slide(s.radius, ZERO, EIGHT);
    }
    assert(stroke_views(v@) =~= strokes_clamped(all));
}

fn clamp_provenance(v: &mut Vec<(String, String)>)
    ensures
        pair_views(final(v)@) == provenance_clamped(pair_views(old(v)@)),
{
    let ghost every = pair_views(v@);
    v.truncate(MAX_AI_PROVENANCE_ENTRIES);
    let ghost all = pair_views(v@);
    assert(all =~= first(every, MAX_AI_PROVENANCE_ENTRIES as nat));
    let n: usize = v.len();
    for i in 0..n
        invariant
            n == all.len(),
            v@.len() == all.len(),
            all == first(every, MAX_AI_PROVENANCE_ENTRIES as nat),
            forall|j: int|
                0 <= j < i ==> pair_views(v@)[j] == #[trigger] provenance_clamped(every)[j],
            forall|j: int| i <= j < all.len() ==> pair_views(v@)[j] == #[trigger] all[j],
    {
        let ghost k = i as int;
        let ghost was = v@;
        assert(pair_views(v@)[k] == all[k]);
        truncate_chars(&mut v[i].0, MAX_AI_PROVENANCE_KEY_CHARS);
        truncate_chars(&mut v[i].1, MAX_AI_PROVENANCE_VALUE_CHARS);
        proof {
            assert(pair_views(v@)[k] == provenance_clamped(every)[k]);
            assert forall|j: int| 0 <= j < all.len() && j != k implies pair_views(v@)[j]
                == pair_views(was)[j] by {
                assert(v@[j] == was[j]);
            }
        }
    }
    assert(pair_views(v@) =~= provenance_clamped(every));
}

fn clamp_coordinate(v: Single) -> (r: Single)
    ensures
        r == coordinate(v),
{
    v.clamp(Single { bits: MINUS_EIGHT }, Single { bits: EIGHT })
}

/// Pulls the numbers of a shape into their bands.
pub fn clamp_geometry(g: &mut MaskGeometry)
    ensures
        final(g)@ == geometry_clamped(old(g)@),
{
    match g {
        MaskGeometry::Linear { zero_x, zero_y, full_x, full_y } => {
            *zero_x = clamp_coordinate(*zero_x);
            *zero_y = clamp_coordinate(*zero_y);
            *full_x = clamp_coordinate(*full_x);
            *full_y = clamp_coordinate(*full_y);
        },
        MaskGeometry::Radial {
            top,
            left,
            bottom,
            right,
            feather,
            roundness,
            angle,
            midpoint,
            ..
        } => {
            *top = clamp_coordinate(*top);
            *left = clamp_coordinate(*left);
            *bottom = clamp_coordinate(*bottom);
            *right = clamp_coordinate(*right);
            *midpoint = band(*midpoint, ZERO, HUNDRED, FIFTY);
            *feather = feather.clamp(Single { bits: ZERO }, Single { bits: ONE });
            *roundness = roundness.clamp(
                Single { bits: MINUS_HUNDRED },
                Single { bits: HUNDRED },
            );
            *angle = angle.rem_euclid(Single { bits: TURN });
            if (Single { bits: HALF_TURN }).lt(*angle) {
                *angle = angle.minus(Single { bits: TURN });
            }
        },
        MaskGeometry::Bitmap { .. } => {},
        MaskGeometry::Brush { value, strokes, .. } => {
            *value = band(*value, ZERO, ONE, ONE);
            clamp_strokes(strokes);
        },
        MaskGeometry::AiMask { ref_x, ref_y, value, gesture, provenance, .. } => {
            *ref_x = band(*ref_x, MINUS_EIGHT, EIGHT, HALF);
            *ref_y = band(*ref_y, MINUS_EIGHT, EIGHT, HALF);
            *value = band(*value, ZERO, ONE, ONE);
            clamp_strokes(gesture);
            clamp_provenance(provenance);
        },
    }
}

// ---- local adjustments ----

/// The name and the main shape of a mask cut to size.
pub open spec fn adjustment_named(v: AdjustmentView) -> AdjustmentView {
    AdjustmentView {
        name: capped(v.name, MAX_NAME as nat),
        mask: geometry_capped(v.mask),
        ..v
    }
}

/// Every component's shape is finite.
pub open spec fn components_finite(s: Seq<ComponentView>) -> bool {
    forall|i: int| 0 <= i < s.len() ==> geometry_finite((#[trigger] s[i]).geometry)
}

/// A mask that can be drawn: one number that is none loses the whole mask.
pub open spec fn drawable(v: AdjustmentView) -> bool {
    geometry_finite(v.mask) && components_finite(v.components) && range_finite(v.range)
}

/// The first components, each cut to size and pulled into its bands.
pub open spec fn components_clamped(s: Seq<ComponentView>) -> Seq<ComponentView> {
    let kept = first(s, MAX_MASK_COMPONENTS as nat);
    Seq::new(
        kept.len(),
        |i: int|
            ComponentView {
                geometry: geometry_clamped(geometry_capped(kept[i].geometry)),
                mode: kept[i].mode,
            },
    )
}

/// The bytes that the components lose.
pub open spec fn components_cut(s: Seq<ComponentView>) -> nat
    decreases s.len(),
{
    if s.len() == 0 {
        0
    } else {
        components_cut(s.drop_last()) + geometry_cut(s.last().geometry)
    }
}

/// The strokes that the components lose.
pub open spec fn components_strokes_lost(s: Seq<ComponentView>) -> nat
    decreases s.len(),
{
    if s.len() == 0 {
        0
    } else {
        components_strokes_lost(s.drop_last()) + geometry_strokes_lost(s.last().geometry)
    }
}

/// One gain as good as no change.
pub open spec fn near_one(v: Single) -> bool {
    v.difference(num(ONE)).absolute().less(num(ONE_THOUSANDTH))
}

/// Each gain in its band.
pub open spec fn gains_banded(s: Seq<Single>) -> Seq<Single> {
    Seq::new(s.len(), |i: int| banded(s[i], ONE_TWENTIETH, EIGHT, ONE))
}

/// No gain changes anything.
pub open spec fn all_near_one(s: Seq<Single>) -> bool {
    forall|i: int| 0 <= i < s.len() ==> near_one(#[trigger] s[i])
}

/// Gains in their band, and none at all if none of them changes anything.
pub open spec fn gains_clamped(g: Option<Seq<Single>>) -> Option<Seq<Single>> {
    match g {
        None => None,
        Some(s) => {
            let c = gains_banded(s);
            if all_near_one(c) {
                None
            } else {
                Some(c)
            }
        },
    }
}

/// A number pulled into the unit interval.
pub open spec fn unit(v: Single) -> Single {
    v.clamped(num(ZERO), num(ONE))
}

/// A range in the unit interval, with the trapezoid's four corners in order.
pub open spec fn range_clamped(r: Option<RangeMask>) -> Option<RangeMask> {
    match r {
        None => None,
        Some(RangeMask::Luminance { lo_outer, lo, hi, hi_outer }) => {
            let a = unit(lo);
            let b = unit(hi);
            let low = if a.at_most(b) { a } else { b };
            let high = if a.at_most(b) { b } else { a };
            Some(
                RangeMask::Luminance {
                    lo_outer: lo_outer.clamped(num(ZERO), low),
                    lo: low,
                    hi: high,
                    hi_outer: hi_outer.clamped(high, num(ONE)),
                },
            )
        },
        Some(RangeMask::Color { r, g, b, amount, px, py }) => Some(
            RangeMask::Color {
                r: unit(r),
                g: unit(g),
                b: unit(b),
                amount: unit(amount),
                px: unit(px),
                py: unit(py),
            },
        ),
    }
}

impl AdjustmentView {
    /// A drawable mask within all its limits.
    pub open spec fn clamped(self) -> AdjustmentView {
        AdjustmentView {
            mask: geometry_clamped(self.mask),
            components: components_clamped(self.components),
            amount: slider(self.amount, ZERO, ONE),
            exposure_ev: slider(self.exposure_ev, MINUS_FIVE, FIVE),
            contrast: slider(self.contrast, MINUS_HUNDRED, HUNDRED),
            highlights: slider(self.highlights, MINUS_HUNDRED, HUNDRED),
            shadows: slider(self.shadows, MINUS_HUNDRED, HUNDRED),
            whites: slider(self.whites, MINUS_HUNDRED, HUNDRED),
            blacks: slider(self.blacks, MINUS_HUNDRED, HUNDRED),
            clarity: slider(self.clarity, MINUS_HUNDRED, HUNDRED),
            dehaze: slider(self.dehaze, MINUS_HUNDRED, HUNDRED),
            texture: slider(self.texture, MINUS_HUNDRED, HUNDRED),
            sharpness: slider(self.sharpness, MINUS_HUNDRED, HUNDRED),
            saturation: slider(self.saturation, MINUS_HUNDRED, HUNDRED),
            hue: slider(self.hue, MINUS_HUNDRED, HUNDRED),
            temperature: slider(self.temperature, MINUS_HUNDRED, HUNDRED),
            tint: slider(self.tint, MINUS_HUNDRED, HUNDRED),
            noise_reduction: slider(self.noise_reduction, ZERO, HUNDRED),
            main_curve: first(self.main_curve, MAX_CURVE_POINTS as nat),
            red_curve: first(self.red_curve, MAX_CURVE_POINTS as nat),
            green_curve: first(self.green_curve, MAX_CURVE_POINTS as nat),
            blue_curve: first(self.blue_curve, MAX_CURVE_POINTS as nat),
            color_gains: gains_clamped(self.color_gains),
            range: range_clamped(self.range),
            ..self
        }
    }

    /// The curve points over the limit.
    pub open spec fn curve_excess(self) -> nat {
        excess(self.main_curve.len(), MAX_CURVE_POINTS as nat) + excess(
            self.red_curve.len(),
            MAX_CURVE_POINTS as nat,
        ) + excess(self.green_curve.len(), MAX_CURVE_POINTS as nat) + excess(
            self.blue_curve.len(),
            MAX_CURVE_POINTS as nat,
        )
    }
}

/// The masks that can be drawn, in order, each within its limits.
pub open spec fn masks_clamped(s: Seq<AdjustmentView>) -> Seq<AdjustmentView>
    decreases s.len(),
{
    if s.len() == 0 {
        seq![]
    } else {
        let before = masks_clamped(s.drop_last());
        let last = adjustment_named(s.last());
        if drawable(last) {
            before.push(last.clamped())
        } else {
            before
        }
    }
}

/// The bytes that a mask loses: its components count only if it is kept.
pub open spec fn mask_cut(v: AdjustmentView) -> nat {
    cut(v.name, MAX_NAME as nat) + geometry_cut(v.mask) + (if drawable(adjustment_named(v)) {
        components_cut(first(v.components, MAX_MASK_COMPONENTS as nat))
    } else {
        0
    })
}

/// The strokes and components that a mask loses.
pub open spec fn mask_components_lost(v: AdjustmentView) -> nat {
    geometry_strokes_lost(v.mask) + (if drawable(adjustment_named(v)) {
        excess(v.components.len(), MAX_MASK_COMPONENTS as nat) + components_strokes_lost(
            first(v.components, MAX_MASK_COMPONENTS as nat),
        )
    } else {
        0
    })
}

/// The curve points that a mask loses.
pub open spec fn mask_curve_lost(v: AdjustmentView) -> nat {
    if drawable(adjustment_named(v)) {
        v.curve_excess()
    } else {
        0
    }
}

pub open spec fn masks_cut(s: Seq<AdjustmentView>) -> nat
    decreases s.len(),
{
    if s.len() == 0 {
        0
    } else {
        masks_cut(s.drop_last()) + mask_cut(s.last())
    }
}

pub open spec fn masks_components_lost(s: Seq<AdjustmentView>) -> nat
    decreases s.len(),
{
    if s.len() == 0 {
        0
    } else {
        masks_components_lost(s.drop_last()) + mask_components_lost(s.last())
    }
}

pub open spec fn masks_curve_lost(s: Seq<AdjustmentView>) -> nat
    decreases s.len(),
{
    if s.len() == 0 {
        0
    } else {
        masks_curve_lost(s.drop_last()) + mask_curve_lost(s.last())
    }
}

fn components_are_finite(v: &Vec<MaskComponent>) -> (r: bool)
    ensures
        r == components_finite(component_views(v@)),
{
    for i in 0..v.len()
        invariant
            forall|j: int|
                0 <= j < i ==> geometry_finite((#[trigger] component_views(v@)[j]).geometry),
    {
        if !geometry_is_finite(&v[i].geometry) {
            assert(!geometry_finite(component_views(v@)[i as int].geometry));
            return false;
        }
    }
    true
}

/// Cuts the component list and each component to size. Returns the bytes and
/// the strokes and components that went.
fn clamp_components(v: &mut Vec<MaskComponent>) -> (lost: (usize, usize))
    ensures
        component_views(final(v)@) == components_clamped(component_views(old(v)@)),
        lost.0 == sat(
            components_cut(first(component_views(old(v)@), MAX_MASK_COMPONENTS as nat)),
        ),
        lost.1 == sat(
            excess(component_views(old(v)@).len(), MAX_MASK_COMPONENTS as nat)
                + components_strokes_lost(
                first(component_views(old(v)@), MAX_MASK_COMPONENTS as nat),
            ),
        ),
{
    let ghost every = component_views(v@);
    let over: usize = v.len().saturating_sub(MAX_MASK_COMPONENTS);
    v.truncate(MAX_MASK_COMPONENTS);
    let ghost all = component_views(v@);
    assert(all =~= first(every, MAX_MASK_COMPONENTS as nat));
    let n: usize = v.len();
    let mut bytes: usize = 0;
    let mut gone: usize = over;
    assert(all.take(0) =~= Seq::<ComponentView>::empty());
    for i in 0..n
        invariant
            n == all.len(),
            v@.len() == all.len(),
            all == first(every, MAX_MASK_COMPONENTS as nat),
            over == excess(every.len(), MAX_MASK_COMPONENTS as nat),
            forall|j: int| 0 <= j < i ==> (#[trigger] v@[j])@ == components_clamped(every)[j],
            forall|j: int| i <= j < all.len() ==> (#[trigger] v@[j])@ == all[j],
            bytes == sat(components_cut(all.take(i as int))),
            gone == sat(over as nat + components_strokes_lost(all.take(i as int))),
    {
        let ghost k = i as int;
        let ghost was = v@;
        assert(v@[k]@ == all[k]);
        let (a, b) = cap_geometry(&mut v[i].geometry);
        clamp_geometry(&mut v[i].geometry);
        proof {
            assert(v@[k]@ =~= components_clamped(every)[k]);
            assert(all.take(k + 1).drop_last() =~= all.take(k));
        }
        bytes = bytes.saturating_add(a);
        gone = gone.saturating_add(b);
    }
    assert(all.take(all.len() as int) =~= all);
    assert(component_views(v@) =~= components_clamped(every));
    (bytes, gone)
}

fn clamp_gains(g: &mut Option<[Single; 3]>)
    ensures
        gains_view(*final(g)) == gains_clamped(gains_view(*old(g))),
{
    if let Some(a) = *g {
        let x: Single = band(a[0], ONE_TWENTIETH, EIGHT, ONE);
        let y: Single = band(a[1], ONE_TWENTIETH, EIGHT, ONE);
        let z: Single = band(a[2], ONE_TWENTIETH, EIGHT, ONE);
        let one: Single = Single { bits: ONE };
        let small: Single = Single { bits: ONE_THOUSANDTH };
        let c: [Single; 3] = [x, y, z];
        let ghost want = gains_banded(a@);
        assert(c@ =~= want);
        if x.minus(one).abs().lt(small) && y.minus(one).abs().lt(small) && z.minus(one).abs().lt(
            small,
        ) {
            *g = None;
            assert(all_near_one(c@));
        } else {
            *g = Some(c);
            assert(!near_one(c@[0]) || !near_one(c@[1]) || !near_one(c@[2]));
        }
    }
}

fn clamp_unit(v: Single) -> (r: Single)
    ensures
        r == unit(v),
        !v.nan() ==> num(ZERO).at_most(r) && r.at_most(num(ONE)),
{
    v.clamp(Single { bits: ZERO }, Single { bits: ONE })
}

fn clamp_range(r: &mut Option<RangeMask>)
    requires
        range_finite(*old(r)),
    ensures
        *final(r) == range_clamped(*old(r)),
{
    match r {
        Some(RangeMask::Luminance { lo_outer, lo, hi, hi_outer }) => {
            let a: Single = clamp_unit(*lo);
            let b: Single = clamp_unit(*hi);
            let (low, high) = if a.le(b) {
                (a, b)
            } else {
                (b, a)
            };
            *lo = low;
            *hi = high;
            *lo_outer = lo_outer.clamp(Single { bits: ZERO }, low);
            *hi_outer = hi_outer.clamp(high, Single { bits: ONE });
        },
        Some(RangeMask::Color { r, g, b, amount, px, py }) => {
            *r = clamp_unit(*r);
            *g = clamp_unit(*g);
            *b = clamp_unit(*b);
            *amount = clamp_unit(*amount);
            *px = clamp_unit(*px);
            *py = clamp_unit(*py);
        },
        None => {},
    }
}

/// Cuts a curve to its limit. Returns the points that went.
fn clamp_curve(v: &mut Vec<CurvePoint>) -> (lost: usize)
    ensures
        final(v)@ == first(old(v)@, MAX_CURVE_POINTS as nat),
        lost == excess(old(v)@.len(), MAX_CURVE_POINTS as nat),
{
    let lost: usize = v.len().saturating_sub(MAX_CURVE_POINTS);
    v.truncate(MAX_CURVE_POINTS);
    assert(v@ =~= first(old(v)@, MAX_CURVE_POINTS as nat));
    lost
}

/// Pulls the sliders of a mask into their bands.
fn clamp_adjustment_sliders(m: &mut LocalAdjustment)
    ensures
        *final(m) == (LocalAdjustment {
            amount: slider(old(m).amount, ZERO, ONE),
            exposure_ev: slider(old(m).exposure_ev, MINUS_FIVE, FIVE),
            contrast: slider(old(m).contrast, MINUS_HUNDRED, HUNDRED),
            highlights: slider(old(m).highlights, MINUS_HUNDRED, HUNDRED),
            shadows: slider(old(m).shadows, MINUS_HUNDRED, HUNDRED),
            whites: slider(old(m).whites, MINUS_HUNDRED, HUNDRED),
            blacks: slider(old(m).blacks, MINUS_HUNDRED, HUNDRED),
            clarity: slider(old(m).clarity, MINUS_HUNDRED, HUNDRED),
            dehaze: slider(old(m).dehaze, MINUS_HUNDRED, HUNDRED),
            texture: slider(old(m).texture, MINUS_HUNDRED, HUNDRED),
            sharpness: slider(old(m).sharpness, MINUS_HUNDRED, HUNDRED),
            saturation: slider(old(m).saturation, MINUS_HUNDRED, HUNDRED),
            hue: slider(old(m).hue, MINUS_HUNDRED, HUNDRED),
            temperature: slider(old(m).temperature, MINUS_HUNDRED, HUNDRED),
            tint: slider(old(m).tint, MINUS_HUNDRED, HUNDRED),
            noise_reduction: slider(old(m).noise_reduction, ZERO, HUNDRED),
            ..*old(m)
        }),
{
    m.amount = slide(m.amount, ZERO, ONE);
    m.exposure_ev = slide(m.exposure_ev, MINUS_FIVE, FIVE);
    m.contrast = slide(m.contrast, MINUS_HUNDRED, HUNDRED);
    m.highlights = slide(m.highlights, MINUS_HUNDRED, HUNDRED);
    m.shadows = slide(m.shadows, MINUS_HUNDRED, HUNDRED);
    m.whites = slide(m.whites, MINUS_HUNDRED, HUNDRED);
    m.blacks = slide(m.blacks, MINUS_HUNDRED, HUNDRED);
    m.clarity = slide(m.clarity, MINUS_HUNDRED, HUNDRED);
    m.dehaze = slide(m.dehaze, MINUS_HUNDRED, HUNDRED);
    m.texture = slide(m.texture, MINUS_HUNDRED, HUNDRED);
    m.sharpness = slide(m.sharpness, MINUS_HUNDRED, HUNDRED);
    m.saturation = slide(m.saturation, MINUS_HUNDRED, HUNDRED);
    m.hue = slide(m.hue, MINUS_HUNDRED, HUNDRED);
    m.temperature = slide(m.temperature, MINUS_HUNDRED, HUNDRED);
    m.tint = slide(m.tint, MINUS_HUNDRED, HUNDRED);
    m.noise_reduction = slide(m.noise_reduction, ZERO, HUNDRED);
}

/// Pulls a drawable mask into its limits. Returns the bytes, the strokes and
/// components, and the curve points that went.
fn clamp_adjustment(m: &mut LocalAdjustment) -> (lost: (usize, usize, usize))
    requires
        drawable(old(m)@),
    ensures
        final(m)@ == old(m)@.clamped(),
        lost.0 == sat(components_cut(first(old(m)@.components, MAX_MASK_COMPONENTS as nat))),
        lost.1 == sat(
            excess(old(m)@.components.len(), MAX_MASK_COMPONENTS as nat)
                + components_strokes_lost(first(old(m)@.components, MAX_MASK_COMPONENTS as nat)),
        ),
        lost.2 == sat(old(m)@.curve_excess()),
{
    let (bytes, gone) = clamp_components(&mut m.components);
    clamp_geometry(&mut m.mask);
    clamp_adjustment_sliders(m);
    let mut points: usize = clamp_curve(&mut m.main_curve);
    points = points.saturating_add(clamp_curve(&mut m.red_curve));
    points = points.saturating_add(clamp_curve(&mut m.green_curve));
    points = points.saturating_add(clamp_curve(&mut m.blue_curve));
    clamp_gains(&mut m.color_gains);
    clamp_range(&mut m.range);
    (bytes, gone, points)
}

proof fn lemma_masks_clamped_len(s: Seq<AdjustmentView>)
    ensures
        masks_clamped(s).len() <= s.len(),
    decreases s.len(),
{
    if s.len() > 0 {
        lemma_masks_clamped_len(s.drop_last());
    }
}

// ---- the whole recipe ----

/// What a clamp threw away.
#[derive(Clone, Copy, Debug, PartialEq, Eq, Structural)]
pub struct ClampSummary {
    pub dropped_masks: usize,
    pub dropped_components: usize,
    pub truncated_curve_points: usize,
    pub truncated_string_bytes: usize,
}

impl Default for ClampSummary {
    fn default() -> (r: ClampSummary)
        ensures
            r == ClampSummary::nothing(),
    {
        ClampSummary {
            dropped_masks: 0,
            dropped_components: 0,
            truncated_curve_points: 0,
            truncated_string_bytes: 0,
        }
    }
}

/// The foreign attributes within their limits on number and value.
pub open spec fn passthrough_clamped(s: Seq<(Seq<char>, Seq<char>)>) -> Seq<
    (Seq<char>, Seq<char>),
> {
    let kept = first(s, MAX_PASSTHROUGH as nat);
    Seq::new(
        kept.len(),
        |i: int| (kept[i].0, capped(kept[i].1, MAX_PASSTHROUGH_VALUE as nat)),
    )
}

/// The bytes that the foreign attributes lose: the whole value of one that is
/// dropped, and what is cut from one that stays.
pub open spec fn passthrough_cut(s: Seq<(Seq<char>, Seq<char>)>) -> nat
    decreases s.len(),
{
    if s.len() == 0 {
        0
    } else if s.len() > MAX_PASSTHROUGH {
        passthrough_cut(s.drop_last()) + byte_len(s.last().1)
    } else {
        passthrough_cut(s.drop_last()) + cut(s.last().1, MAX_PASSTHROUGH_VALUE as nat)
    }
}

/// The knots with two finite coordinates, in order, in the unit square.
pub open spec fn base_curve_clamped(s: Seq<Seq<Single>>) -> Seq<Seq<Single>>
    decreases s.len(),
{
    if s.len() == 0 {
        seq![]
    } else {
        let before = base_curve_clamped(s.drop_last());
        let k = s.last();
        if k[0].finite() && k[1].finite() {
            before.push(seq![unit(k[0]), unit(k[1])])
        } else {
            before
        }
    }
}

/// The crop within the frame, its edges in order. A rectangle that is no
/// number, or that has no area, is no crop.
pub open spec fn crop_clamped(c: Option<Crop>) -> Option<Crop> {
    match c {
        None => None,
        Some(k) => if !(k.left.finite() && k.top.finite() && k.right.finite()
            && k.bottom.finite()) {
            None
        } else {
            let l = unit(k.left);
            let r = unit(k.right);
            let t = unit(k.top);
            let b = unit(k.bottom);
            let left = if r.less(l) { r } else { l };
            let right = if r.less(l) { l } else { r };
            let top = if b.less(t) { b } else { t };
            let bottom = if b.less(t) { t } else { b };
            if right.difference(left).less(num(ONE_THOUSANDTH)) || bottom.difference(top).less(
                num(ONE_THOUSANDTH),
            ) {
                None
            } else {
                Some(Crop { left, top, right, bottom })
            }
        },
    }
}

/// An optional number in its band. What is not finite is unknown.
pub open spec fn known(v: Option<Single>, lo: u32, hi: u32) -> Option<Single> {
    match v {
        Some(k) if k.finite() => Some(k.clamped(num(lo), num(hi))),
        _ => None,
    }
}

impl RecipeView {
    /// The sliders in their bands, everything else as it was.
    pub open spec fn sliders_clamped(self) -> RecipeView {
        RecipeView {
            exposure_ev: slider(self.exposure_ev, MINUS_FIVE, FIVE),
            contrast: slider(self.contrast, MINUS_HUNDRED, HUNDRED),
            highlights: slider(self.highlights, MINUS_HUNDRED, HUNDRED),
            shadows: slider(self.shadows, MINUS_HUNDRED, HUNDRED),
            whites: slider(self.whites, MINUS_HUNDRED, HUNDRED),
            blacks: slider(self.blacks, MINUS_HUNDRED, HUNDRED),
            tint: slider(self.tint, MINUS_HUNDRED, HUNDRED),
            vibrance: slider(self.vibrance, MINUS_HUNDRED, HUNDRED),
            saturation: slider(self.saturation, MINUS_HUNDRED, HUNDRED),
            clarity: slider(self.clarity, MINUS_HUNDRED, HUNDRED),
            dehaze: slider(self.dehaze, MINUS_HUNDRED, HUNDRED),
            texture: slider(self.texture, MINUS_HUNDRED, HUNDRED),
            sharpening: slider(self.sharpening, ZERO, HUNDRED_FIFTY),
            noise_reduction: slider(self.noise_reduction, ZERO, HUNDRED),
            sharpen_detail: slider(self.sharpen_detail, ZERO, HUNDRED),
            sharpen_mask: slider(self.sharpen_mask, ZERO, HUNDRED),
            nr_detail: slider(self.nr_detail, ZERO, HUNDRED),
            nr_contrast: slider(self.nr_contrast, ZERO, HUNDRED),
            color_nr: slider(self.color_nr, ZERO, HUNDRED),
            color_nr_detail: slider(self.color_nr_detail, ZERO, HUNDRED),
            color_nr_smooth: slider(self.color_nr_smooth, ZERO, HUNDRED),
            lens_vignette: slider(self.lens_vignette, MINUS_HUNDRED, HUNDRED),
            lens_vignette_mid: slider(self.lens_vignette_mid, ZERO, HUNDRED),
            lens_distortion: slider(self.lens_distortion, MINUS_HUNDRED, HUNDRED),
            ca_r: slider(self.ca_r, MINUS_HUNDRED, HUNDRED),
            ca_b: slider(self.ca_b, MINUS_HUNDRED, HUNDRED),
            defringe_purple: slider(self.defringe_purple, ZERO, TWENTY),
            defringe_green: slider(self.defringe_green, ZERO, TWENTY),
            defringe_purple_lo: slider(self.defringe_purple_lo, ZERO, HUNDRED),
            defringe_purple_hi: slider(self.defringe_purple_hi, ZERO, HUNDRED),
            defringe_green_lo: slider(self.defringe_green_lo, ZERO, HUNDRED),
            defringe_green_hi: slider(self.defringe_green_hi, ZERO, HUNDRED),
            post_crop_vignette: slider(self.post_crop_vignette, MINUS_HUNDRED, HUNDRED),
            post_crop_vignette_mid: slider(self.post_crop_vignette_mid, ZERO, HUNDRED),
            post_crop_vignette_feather: slider(self.post_crop_vignette_feather, ZERO, HUNDRED),
            post_crop_vignette_round: slider(self.post_crop_vignette_round, MINUS_HUNDRED, HUNDRED),
            post_crop_vignette_hl: slider(self.post_crop_vignette_hl, ZERO, HUNDRED),
            grain: slider(self.grain, ZERO, HUNDRED),
            grain_size: slider(self.grain_size, ZERO, HUNDRED),
            grain_rough: slider(self.grain_rough, ZERO, HUNDRED),
            straighten_deg: slider(self.straighten_deg, MINUS_FORTY_FIVE, FORTY_FIVE),
            confidence: slider(self.confidence, ZERO, ONE),
            sharpen_radius: slider(self.sharpen_radius, ZERO, THREE).product(
                num(TEN),
            ).rounded().quotient(num(TEN)),
            post_crop_vignette_style: slider(self.post_crop_vignette_style, ZERO, THREE).rounded(),
            temperature_k: known(self.temperature_k, TWO_THOUSAND, FORTY_THOUSAND),
            as_shot_k: known(self.as_shot_k, TWO_THOUSAND, FORTY_THOUSAND),
            as_shot_tint: known(self.as_shot_tint, MINUS_HUNDRED, HUNDRED),
            quarter_turns: (self.quarter_turns % 4) as u8,
            color_grade: self.color_grade.clamped(),
            crop: crop_clamped(self.crop),
            ..self
        }
    }

    /// The recipe within all its limits.
    pub open spec fn clamped(self) -> RecipeView {
        RecipeView {
            hsl: self.hsl.clamped(),
            passthrough: passthrough_clamped(self.passthrough),
            tone_curve: first(self.tone_curve, MAX_CURVE_POINTS as nat),
            red_curve: first(self.red_curve, MAX_CURVE_POINTS as nat),
            green_curve: first(self.green_curve, MAX_CURVE_POINTS as nat),
            blue_curve: first(self.blue_curve, MAX_CURVE_POINTS as nat),
            base_curve: base_curve_clamped(first(self.base_curve, MAX_BASE_KNOTS as nat)),
            lens_profile: self.lens_profile.clamped(),
            masks: masks_clamped(first(self.masks, MAX_MASKS as nat)),
            rationale: capped(self.rationale, MAX_RATIONALE as nat),
            ..self.sliders_clamped()
        }
    }

    /// The masks, strokes, components, curve points and bytes that a clamp of
    /// this recipe throws away.
    pub open spec fn lost(self) -> ClampSummary {
        let masks = first(self.masks, MAX_MASKS as nat);
        ClampSummary {
            dropped_masks: (self.masks.len() - masks_clamped(masks).len()) as usize,
            dropped_components: sat(masks_components_lost(masks)),
            truncated_curve_points: sat(
                excess(self.base_curve.len(), MAX_BASE_KNOTS as nat) + excess(
                    self.tone_curve.len(),
                    MAX_CURVE_POINTS as nat,
                ) + excess(self.red_curve.len(), MAX_CURVE_POINTS as nat) + excess(
                    self.green_curve.len(),
                    MAX_CURVE_POINTS as nat,
                ) + excess(self.blue_curve.len(), MAX_CURVE_POINTS as nat) + masks_curve_lost(
                    masks,
                ),
            ),
            truncated_string_bytes: sat(
                cut(self.rationale, MAX_RATIONALE as nat) + passthrough_cut(self.passthrough)
                    + masks_cut(masks),
            ),
        }
    }
}

fn clamp_passthrough(v: &mut Vec<(String, String)>) -> (lost: usize)
    ensures
        pair_views(final(v)@) == passthrough_clamped(pair_views(old(v)@)),
        lost == sat(passthrough_cut(pair_views(old(v)@))),
{
    let ghost every = pair_views(v@);
    let mut bytes: usize = 0;
    proof {
        assert(every.take(every.len() as int) =~= every);
    }
    while v.len() > MAX_PASSTHROUGH
        invariant
            v@.len() <= every.len(),
            v@.len() >= MAX_PASSTHROUGH || v@.len() == every.len(),
            pair_views(v@) == every.take(v@.len() as int),
            sat(passthrough_cut(every)) == sat(
                bytes as nat + passthrough_cut(every.take(v@.len() as int)),
            ),
        decreases v@.len(),
    {
        let ghost now = every.take(v@.len() as int);
        let ghost was = v@;
        assert(pair_views(v@)[v@.len() - 1] == now.last());
        if let Some((_k, value)) = v.pop() {
            proof {
                assert(now.drop_last() =~= every.take(v@.len() as int));
                assert(pair_views(v@) =~= every.take(v@.len() as int));
            }
            bytes = bytes.saturating_add(byte_length(&value));
        }
    }
    let ghost all = pair_views(v@);
    assert(all =~= first(every, MAX_PASSTHROUGH as nat));
    let n: usize = v.len();
    let ghost dropped = bytes;
    assert(all.take(0) =~= Seq::<(Seq<char>, Seq<char>)>::empty());
    for i in 0..n
        invariant
            n == all.len(),
            v@.len() == all.len(),
            all.len() <= MAX_PASSTHROUGH,
            all == first(every, MAX_PASSTHROUGH as nat),
            forall|j: int|
                0 <= j < i ==> pair_views(v@)[j] == #[trigger] passthrough_clamped(every)[j],
            forall|j: int| i <= j < all.len() ==> pair_views(v@)[j] == #[trigger] all[j],
            bytes == sat(dropped as nat + passthrough_cut(all.take(i as int))),
    {
        let ghost k = i as int;
        let ghost was = v@;
        assert(pair_views(v@)[k] == all[k]);
        let a: usize = cap(&mut v[i].1, MAX_PASSTHROUGH_VALUE);
        proof {
            assert(all.take(k + 1).drop_last() =~= all.take(k));
            assert(pair_views(v@)[k] == passthrough_clamped(every)[k]);
            assert forall|j: int| 0 <= j < all.len() && j != k implies pair_views(v@)[j]
                == pair_views(was)[j] by {
                assert(v@[j] == was[j]);
            }
        }
        bytes = bytes.saturating_add(a);
    }
    assert(all.take(all.len() as int) =~= all);
    assert(pair_views(v@) =~= passthrough_clamped(every));
    bytes
}

/// Keeps the first knots that are finite, in the unit square. Returns the
/// knots over the limit.
fn clamp_base_curve(v: &mut Vec<[Single; 2]>) -> (lost: usize)
    ensures
        knot_views(final(v)@) == base_curve_clamped(
            first(knot_views(old(v)@), MAX_BASE_KNOTS as nat),
        ),
        lost == excess(knot_views(old(v)@).len(), MAX_BASE_KNOTS as nat),
{
    let ghost every = knot_views(v@);
    let lost: usize = v.len().saturating_sub(MAX_BASE_KNOTS);
    v.truncate(MAX_BASE_KNOTS);
    let ghost all = knot_views(v@);
    assert(all =~= first(every, MAX_BASE_KNOTS as nat));
    let mut kept: Vec<[Single; 2]> = Vec::new();
    let n: usize = v.len();
    assert(all.take(0) =~= Seq::<Seq<Single>>::empty());
    assert(knot_views(kept@) =~= Seq::<Seq<Single>>::empty());
    for i in 0..n
        invariant
            n == v@.len(),
            all == knot_views(v@),
            knot_views(kept@) == base_curve_clamped(all.take(i as int)),
    {
        let ghost k = i as int;
        let knot: [Single; 2] = v[i];
        assert(all.take(k + 1).drop_last() =~= all.take(k));
        assert(all.take(k + 1).last() == knot@);
        if knot[0].is_finite() && knot[1].is_finite() {
            let ghost earlier = kept@;
            let c: [Single; 2] = [clamp_unit(knot[0]), clamp_unit(knot[1])];
            kept.push(c);
            assert(c@ =~= seq![unit(knot@[0]), unit(knot@[1])]);
            assert(knot_views(kept@) =~= knot_views(earlier).push(c@));
        }
    }
    assert(all.take(all.len() as int) =~= all);
    *v = kept;
    lost
}

/// Pulls the masks into their limits. Returns the bytes, the strokes and
/// components, and the curve points that went, and the number of masks.
fn clamp_masks(masks: &mut Vec<LocalAdjustment>) -> (lost: (usize, usize, usize, usize))
    ensures
        adjustment_views(final(masks)@) == masks_clamped(
            first(adjustment_views(old(masks)@), MAX_MASKS as nat),
        ),
        lost.0 == sat(masks_cut(first(adjustment_views(old(masks)@), MAX_MASKS as nat))),
        lost.1 == sat(
            masks_components_lost(first(adjustment_views(old(masks)@), MAX_MASKS as nat)),
        ),
        lost.2 == sat(masks_curve_lost(first(adjustment_views(old(masks)@), MAX_MASKS as nat))),
        lost.3 == adjustment_views(old(masks)@).len() - adjustment_views(final(masks)@).len(),
{
    let before: usize = masks.len();
    let ghost every = adjustment_views(masks@);
    masks.truncate(MAX_MASKS);
    let ghost all = adjustment_views(masks@);
    assert(all =~= first(every, MAX_MASKS as nat));
    let mut pending: Vec<LocalAdjustment> = Vec::new();
    std::mem::swap(&mut pending, masks);
    let ghost source = pending@;
    let mut kept: Vec<LocalAdjustment> = Vec::new();
    let mut bytes: usize = 0;
    let mut gone: usize = 0;
    let mut points: usize = 0;
    assert(all.take(0) =~= Seq::<AdjustmentView>::empty());
    assert(adjustment_views(kept@) =~= Seq::<AdjustmentView>::empty());
    for m in it: pending
        invariant
            it.seq() == source,
            all == adjustment_views(source),
            adjustment_views(kept@) == masks_clamped(all.take(it.index() as int)),
            bytes == sat(masks_cut(all.take(it.index() as int))),
            gone == sat(masks_components_lost(all.take(it.index() as int))),
            points == sat(masks_curve_lost(all.take(it.index() as int))),
    {
        let mut t: LocalAdjustment = m;
        let ghost k = it.index() as int;
        let ghost v = t@;
        proof {
            assert(v == all[k]);
            assert(all.take(k + 1).drop_last() =~= all.take(k));
            assert(all.take(k + 1).last() == v);
        }
        bytes = bytes.saturating_add(cap(&mut t.name, MAX_NAME));
        let (shape_bytes, strokes) = cap_geometry(&mut t.mask);
        bytes = bytes.saturating_add(shape_bytes);
        gone = gone.saturating_add(strokes);
        assert(t@ == adjustment_named(v));
        if geometry_is_finite(&t.mask) && components_are_finite(&t.components) && range_is_finite(
            &t.range,
        ) {
            let (part_bytes, parts, part_points) = clamp_adjustment(&mut t);
            bytes = bytes.saturating_add(part_bytes);
            gone = gone.saturating_add(parts);
            points = points.saturating_add(part_points);
            let ghost earlier = kept@;
            kept.push(t);
            assert(adjustment_views(kept@) =~= adjustment_views(earlier).push(
                adjustment_named(v).clamped(),
            ));
        }
    }
    assert(all.take(all.len() as int) =~= all);
    proof {
        lemma_masks_clamped_len(all);
    }
    let after: usize = kept.len();
    *masks = kept;
    (bytes, gone, points, before - after)
}

fn clamp_crop(c: &mut Option<Crop>)
    ensures
        *final(c) == crop_clamped(*old(c)),
{
    if let Some(k) = *c {
        if !(k.left.is_finite() && k.top.is_finite() && k.right.is_finite()
            && k.bottom.is_finite()) {
            *c = None;
        } else {
            let l: Single = clamp_unit(k.left);
            let t: Single = clamp_unit(k.top);
            let r: Single = clamp_unit(k.right);
            let b: Single = clamp_unit(k.bottom);
            let (left, right) = if r.lt(l) {
                (r, l)
            } else {
                (l, r)
            };
            let (top, bottom) = if b.lt(t) {
                (b, t)
            } else {
                (t, b)
            };
            let small: Single = Single { bits: ONE_THOUSANDTH };
            if right.minus(left).lt(small) || bottom.minus(top).lt(small) {
                *c = None;
            } else {
                *c = Some(Crop { left, top, right, bottom });
            }
        }
    }
}

fn clamp_known(v: Option<Single>, lo: u32, hi: u32) -> (r: Option<Single>)
    requires
        num(lo).at_most(num(hi)),
    ensures
        r == known(v, lo, hi),
{
    match v {
        Some(k) => {
            if k.is_finite() {
                Some(k.clamp(Single { bits: lo }, Single { bits: hi }))
            } else {
                None
            }
        },
        None => None,
    }
}

impl EditRecipe {
    /// Pulls the tone and colour sliders into their bands.
    fn clamp_tone(&mut self)
        ensures
            *final(self) == (EditRecipe {
                exposure_ev: slider(old(self).exposure_ev, MINUS_FIVE, FIVE),
                contrast: slider(old(self).contrast, MINUS_HUNDRED, HUNDRED),
                highlights: slider(old(self).highlights, MINUS_HUNDRED, HUNDRED),
                shadows: slider(old(self).shadows, MINUS_HUNDRED, HUNDRED),
                whites: slider(old(self).whites, MINUS_HUNDRED, HUNDRED),
                blacks: slider(old(self).blacks, MINUS_HUNDRED, HUNDRED),
                tint: slider(old(self).tint, MINUS_HUNDRED, HUNDRED),
                vibrance: slider(old(self).vibrance, MINUS_HUNDRED, HUNDRED),
                saturation: slider(old(self).saturation, MINUS_HUNDRED, HUNDRED),
                clarity: slider(old(self).clarity, MINUS_HUNDRED, HUNDRED),
                dehaze: slider(old(self).dehaze, MINUS_HUNDRED, HUNDRED),
                texture: slider(old(self).texture, MINUS_HUNDRED, HUNDRED),
                ..*old(self)
            }),
    {
        self.exposure_ev = slide(self.exposure_ev, MINUS_FIVE, FIVE);
        self.contrast = slide(self.contrast, MINUS_HUNDRED, HUNDRED);
        self.highlights = slide(self.highlights, MINUS_HUNDRED, HUNDRED);
        self.shadows = slide(self.shadows, MINUS_HUNDRED, HUNDRED);
        self.whites = slide(self.whites, MINUS_HUNDRED, HUNDRED);
        self.blacks = slide(self.blacks, MINUS_HUNDRED, HUNDRED);
        self.tint = slide(self.tint, MINUS_HUNDRED, HUNDRED);
        self.vibrance = slide(self.vibrance, MINUS_HUNDRED, HUNDRED);
        self.saturation = slide(self.saturation, MINUS_HUNDRED, HUNDRED);
        self.clarity = slide(self.clarity, MINUS_HUNDRED, HUNDRED);
        self.dehaze = slide(self.dehaze, MINUS_HUNDRED, HUNDRED);
        self.texture = slide(self.texture, MINUS_HUNDRED, HUNDRED);
    }

    /// Pulls the detail sliders into their bands.
    fn clamp_detail(&mut self)
        ensures
            *final(self) == (EditRecipe {
                sharpening: slider(old(self).sharpening, ZERO, HUNDRED_FIFTY),
                noise_reduction: slider(old(self).noise_reduction, ZERO, HUNDRED),
                sharpen_detail: slider(old(self).sharpen_detail, ZERO, HUNDRED),
                sharpen_mask: slider(old(self).sharpen_mask, ZERO, HUNDRED),
                nr_detail: slider(old(self).nr_detail, ZERO, HUNDRED),
                nr_contrast: slider(old(self).nr_contrast, ZERO, HUNDRED),
                color_nr: slider(old(self).color_nr, ZERO, HUNDRED),
                color_nr_detail: slider(old(self).color_nr_detail, ZERO, HUNDRED),
                color_nr_smooth: slider(old(self).color_nr_smooth, ZERO, HUNDRED),
                ..*old(self)
            }),
    {
        self.sharpening = slide(self.sharpening, ZERO, HUNDRED_FIFTY);
        self.noise_reduction = slide(self.noise_reduction, ZERO, HUNDRED);
        self.sharpen_detail = slide(self.sharpen_detail, ZERO, HUNDRED);
        self.sharpen_mask = slide(self.sharpen_mask, ZERO, HUNDRED);
        self.nr_detail = slide(self.nr_detail, ZERO, HUNDRED);
        self.nr_contrast = slide(self.nr_contrast, ZERO, HUNDRED);
        self.color_nr = slide(self.color_nr, ZERO, HUNDRED);
        self.color_nr_detail = slide(self.color_nr_detail, ZERO, HUNDRED);
        self.color_nr_smooth = slide(self.color_nr_smooth, ZERO, HUNDRED);
    }

    /// Pulls the lens and fringe sliders into their bands.
    fn clamp_lens(&mut self)
        ensures
            *final(self) == (EditRecipe {
                lens_vignette: slider(old(self).lens_vignette, MINUS_HUNDRED, HUNDRED),
                lens_vignette_mid: slider(old(self).lens_vignette_mid, ZERO, HUNDRED),
                lens_distortion: slider(old(self).lens_distortion, MINUS_HUNDRED, HUNDRED),
                ca_r: slider(old(self).ca_r, MINUS_HUNDRED, HUNDRED),
                ca_b: slider(old(self).ca_b, MINUS_HUNDRED, HUNDRED),
                defringe_purple: slider(old(self).defringe_purple, ZERO, TWENTY),
                defringe_green: slider(old(self).defringe_green, ZERO, TWENTY),
                defringe_purple_lo: slider(old(self).defringe_purple_lo, ZERO, HUNDRED),
                defringe_purple_hi: slider(old(self).defringe_purple_hi, ZERO, HUNDRED),
                defringe_green_lo: slider(old(self).defringe_green_lo, ZERO, HUNDRED),
                defringe_green_hi: slider(old(self).defringe_green_hi, ZERO, HUNDRED),
                ..*old(self)
            }),
    {
        self.lens_vignette = slide(self.lens_vignette, MINUS_HUNDRED, HUNDRED);
        self.lens_vignette_mid = slide(self.lens_vignette_mid, ZERO, HUNDRED);
        self.lens_distortion = slide(self.lens_distortion, MINUS_HUNDRED, HUNDRED);
        self.ca_r = slide(self.ca_r, MINUS_HUNDRED, HUNDRED);
        self.ca_b = slide(self.ca_b, MINUS_HUNDRED, HUNDRED);
        self.defringe_purple = slide(self.defringe_purple, ZERO, TWENTY);
        self.defringe_green = slide(self.defringe_green, ZERO, TWENTY);
        self.defringe_purple_lo = slide(self.defringe_purple_lo, ZERO, HUNDRED);
        self.defringe_purple_hi = slide(self.defringe_purple_hi, ZERO, HUNDRED);
        self.defringe_green_lo = slide(self.defringe_green_lo, ZERO, HUNDRED);
        self.defringe_green_hi = slide(self.defringe_green_hi, ZERO, HUNDRED);
    }

    /// Pulls the effect and frame sliders into their bands.
    fn clamp_effects(&mut self)
        ensures
            *final(self) == (EditRecipe {
                post_crop_vignette: slider(old(self).post_crop_vignette, MINUS_HUNDRED, HUNDRED),
                post_crop_vignette_mid: slider(old(self).post_crop_vignette_mid, ZERO, HUNDRED),
                post_crop_vignette_feather: slider(old(self).post_crop_vignette_feather, ZERO, HUNDRED),
                post_crop_vignette_round: slider(old(self).post_crop_vignette_round, MINUS_HUNDRED, HUNDRED),
                post_crop_vignette_hl: slider(old(self).post_crop_vignette_hl, ZERO, HUNDRED),
                grain: slider(old(self).grain, ZERO, HUNDRED),
                grain_size: slider(old(self).grain_size, ZERO, HUNDRED),
                grain_rough: slider(old(self).grain_rough, ZERO, HUNDRED),
                straighten_deg: slider(old(self).straighten_deg, MINUS_FORTY_FIVE, FORTY_FIVE),
                confidence: slider(old(self).confidence, ZERO, ONE),
                ..*old(self)
            }),
    {
        self.post_crop_vignette = slide(self.post_crop_vignette, MINUS_HUNDRED, HUNDRED);
        self.post_crop_vignette_mid = slide(self.post_crop_vignette_mid, ZERO, HUNDRED);
        self.post_crop_vignette_feather = slide(self.post_crop_vignette_feather, ZERO, HUNDRED);
        self.post_crop_vignette_round = slide(self.post_crop_vignette_round, MINUS_HUNDRED, HUNDRED);
        self.post_crop_vignette_hl = slide(self.post_crop_vignette_hl, ZERO, HUNDRED);
        self.grain = slide(self.grain, ZERO, HUNDRED);
        self.grain_size = slide(self.grain_size, ZERO, HUNDRED);
        self.grain_rough = slide(self.grain_rough, ZERO, HUNDRED);
        self.straighten_deg = slide(self.straighten_deg, MINUS_FORTY_FIVE, FORTY_FIVE);
        self.confidence = slide(self.confidence, ZERO, ONE);
    }

    /// Pulls the rounded sliders, the optional numbers, the wheels and the crop
    /// into their limits.
    fn clamp_rest(&mut self)
        ensures
            *final(self) == (EditRecipe {
                sharpen_radius: slider(old(self).sharpen_radius, ZERO, THREE).product(
                    num(TEN),
                ).rounded().quotient(num(TEN)),
                post_crop_vignette_style: slider(
                    old(self).post_crop_vignette_style,
                    ZERO,
                    THREE,
                ).rounded(),
                temperature_k: known(old(self).temperature_k, TWO_THOUSAND, FORTY_THOUSAND),
                as_shot_k: known(old(self).as_shot_k, TWO_THOUSAND, FORTY_THOUSAND),
                as_shot_tint: known(old(self).as_shot_tint, MINUS_HUNDRED, HUNDRED),
                quarter_turns: (old(self).quarter_turns % 4) as u8,
                color_grade: old(self).color_grade.clamped(),
                crop: crop_clamped(old(self).crop),
                ..*old(self)
            }),
    {
        let ten: Single = Single { bits: TEN };
        self.sharpen_radius =
        slide(self.sharpen_radius, ZERO, THREE).times(ten).round().over(ten);
        self.post_crop_vignette_style =
        slide(self.post_crop_vignette_style, ZERO, THREE).round();
        self.temperature_k = clamp_known(self.temperature_k, TWO_THOUSAND, FORTY_THOUSAND);
        self.as_shot_k = clamp_known(self.as_shot_k, TWO_THOUSAND, FORTY_THOUSAND);
        self.as_shot_tint = clamp_known(self.as_shot_tint, MINUS_HUNDRED, HUNDRED);
        self.quarter_turns = self.quarter_turns % 4;
        self.color_grade.clamp();
        clamp_crop(&mut self.crop);
    }

    fn clamp_sliders(&mut self)
        ensures
            final(self)@ == old(self)@.sliders_clamped(),
    {
        self.clamp_tone();
        self.clamp_detail();
        self.clamp_lens();
        self.clamp_effects();
        self.clamp_rest();
    }

    /// Pulls the whole recipe into its limits, and says what that threw away.
    #[verifier::rlimit(60)]
    pub fn clamp(&mut self) -> (summary: ClampSummary)
        ensures
            final(self)@ == old(self)@.clamped(),
            summary == old(self)@.lost(),
            old(self)@.well_formed() ==> final(self)@.well_formed(),
    {
        let mut bytes: usize = cap(&mut self.rationale, MAX_RATIONALE);
        bytes = bytes.saturating_add(clamp_passthrough(&mut self.passthrough));
        let mut points: usize = clamp_base_curve(&mut self.base_curve);
        points = points.saturating_add(clamp_curve(&mut self.tone_curve));
        points = points.saturating_add(clamp_curve(&mut self.red_curve));
        points = points.saturating_add(clamp_curve(&mut self.green_curve));
        points = points.saturating_add(clamp_curve(&mut self.blue_curve));
        self.hsl.clamp();
        self.lens_profile.clamp();
        let (mask_bytes, components, mask_points, masks) = clamp_masks(&mut self.masks);
        self.clamp_sliders();
        ClampSummary {
            dropped_masks: masks,
            dropped_components: components,
            truncated_curve_points: points.saturating_add(mask_points),
            truncated_string_bytes: bytes.saturating_add(mask_bytes),
        }
    }
}

impl ClampSummary {
    /// Nothing was thrown away.
    pub open spec fn nothing() -> ClampSummary {
        ClampSummary {
            dropped_masks: 0,
            dropped_components: 0,
            truncated_curve_points: 0,
            truncated_string_bytes: 0,
        }
    }

    pub fn is_empty(self) -> (r: bool)
        ensures
            r == (self == ClampSummary::nothing()),
    {
        self.dropped_masks == 0 && self.dropped_components == 0 && self.truncated_curve_points == 0
            && self.truncated_string_bytes == 0
    }

    /// The losses of two clamps together.
    pub open spec fn and(self, other: ClampSummary) -> ClampSummary {
        ClampSummary {
            dropped_masks: (self.dropped_masks + other.dropped_masks) as usize,
            dropped_components: (self.dropped_components + other.dropped_components) as usize,
            truncated_curve_points: (self.truncated_curve_points
                + other.truncated_curve_points) as usize,
            truncated_string_bytes: (self.truncated_string_bytes
                + other.truncated_string_bytes) as usize,
        }
    }

    /// The counts can be added up.
    pub open spec fn adds_to(self, other: ClampSummary) -> bool {
        &&& self.dropped_masks + other.dropped_masks <= usize::MAX
        &&& self.dropped_components + other.dropped_components <= usize::MAX
        &&& self.truncated_curve_points + other.truncated_curve_points <= usize::MAX
        &&& self.truncated_string_bytes + other.truncated_string_bytes <= usize::MAX
    }

    /// Adds the losses of another clamp.
    pub fn absorb(&mut self, other: ClampSummary)
        requires
            old(self).adds_to(other),
        ensures
            *final(self) == old(self).and(other),
    {
        self.dropped_masks = self.dropped_masks + other.dropped_masks;
        self.dropped_components = self.dropped_components + other.dropped_components;
        self.truncated_curve_points = self.truncated_curve_points + other.truncated_curve_points;
        self.truncated_string_bytes = self.truncated_string_bytes + other.truncated_string_bytes;
    }
}

/// Losses add up in any order, and where nothing was lost nothing is added.
pub proof fn losses_add_up_in_any_order(a: ClampSummary, b: ClampSummary)
    requires
        a.adds_to(b),
    ensures
        a.and(b) == b.and(a),
        a.and(ClampSummary::nothing()) == a,
        a.and(b) == ClampSummary::nothing() <==> a == ClampSummary::nothing() && b
            == ClampSummary::nothing(),
{
}

/// A quarter turn too many is no turn: a clamp keeps what is left of full
/// circles.
pub proof fn full_circles_of_quarter_turns_fold(r: RecipeView)
    ensures
        r.clamped().quarter_turns == r.quarter_turns % 4,
{
}

} // verus!
