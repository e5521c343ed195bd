//! The edit recipe: every control of the develop, and what each part of it
//! says as a mathematical value.

use vstd::prelude::*;
use crate::numbers::{FIFTY, FORTY, HALF, ONE, SEVENTY, SIXTY, THIRTY, ZERO};
use crate::single::num;
use crate::single::Single;

verus! {

/// The tone-scale calibration that a new recipe is authored against.
pub const CALIB_ERA: u32 = 2;

/// The coordinate frame that a new recipe is authored in.
pub const COORD_ERA: u32 = 1;

/// The control set that a new recipe is authored against.
pub const SCHEMA_ERA: u32 = 1;

/// What a stored recipe without a `coord_era` reads as: the sensor frame.
pub fn coord_era_legacy() -> (r: u32)
    ensures
        r == 0,
        r != COORD_ERA,
{
    0
}

/// What a stored recipe without a `schema_era` reads as: the control set from
/// before the stamp.
pub fn schema_era_legacy() -> (r: u32)
    ensures
        r == 0,
        r != SCHEMA_ERA,
{
    0
}

/// An unturned photograph's recipe does not mention the turn when stored.
pub fn no_quarter_turn(k: &u8) -> (r: bool)
    ensures
        r == (*k == 0),
{
    *k == 0
}

/// What a stored radial mask without a version reads as.
pub fn lightroom_mask_version() -> (r: u32)
    ensures
        r == 2,
{
    2
}

/// What a stored radial mask without a midpoint reads as.
pub fn radial_midpoint_centre() -> (r: Single)
    ensures
        r == num(FIFTY),
{
    Single { bits: FIFTY }
}

/// Where the warp that carries masks onto the corrected frame came from, or
/// why there is none.
#[derive(Clone, Copy, Debug, PartialEq, Eq, Structural)]
pub enum MaskWarpSource {
    Absent,
    CameraMetadata,
    Lcp,
    DisabledInSidecar,
    FisheyeRefused,
    Unparseable,
    NoProfileRoots,
}

impl MaskWarpSource {
    /// A warp was solved.
    pub open spec fn solved(self) -> bool {
        self is CameraMetadata || self is Lcp
    }

    /// The sentence that a reader is shown.
    pub open spec fn sentence(self) -> Seq<char> {
        match self {
            MaskWarpSource::Absent => "no lens-correction data for this photo"@,
            MaskWarpSource::CameraMetadata => "solved from the in-camera lens profile"@,
            MaskWarpSource::Lcp => "solved from an Adobe lens profile (.lcp)"@,
            MaskWarpSource::DisabledInSidecar =>
                "the sidecar turned the lens profile off - radial stays stored; linear transports handles"@,
            MaskWarpSource::FisheyeRefused =>
                "the Adobe lens profile is a fisheye model - refused, not applied"@,
            MaskWarpSource::Unparseable => "the Adobe lens profile could not be read"@,
            MaskWarpSource::NoProfileRoots => "no Adobe lens-profile directory on this machine"@,
        }
    }

    /// Every source, in order of declaration.
    pub fn all() -> (r: [MaskWarpSource; 7])
        ensures
            r@ == seq![
                MaskWarpSource::Absent,
                MaskWarpSource::CameraMetadata,
                MaskWarpSource::Lcp,
                MaskWarpSource::DisabledInSidecar,
                MaskWarpSource::FisheyeRefused,
                MaskWarpSource::Unparseable,
                MaskWarpSource::NoProfileRoots,
            ],
            forall|s: MaskWarpSource| r@.contains(s),
            r@.no_duplicates(),
    {
        let r: [MaskWarpSource; 7] = [
            MaskWarpSource::Absent,
            MaskWarpSource::CameraMetadata,
            MaskWarpSource::Lcp,
            MaskWarpSource::DisabledInSidecar,
            MaskWarpSource::FisheyeRefused,
            MaskWarpSource::Unparseable,
            MaskWarpSource::NoProfileRoots,
        ];
        assert forall|s: MaskWarpSource| r@.contains(s) by {
            match s {
                MaskWarpSource::Absent => assert(r@[0] == s),
                MaskWarpSource::CameraMetadata => assert(r@[1] == s),
                MaskWarpSource::Lcp => assert(r@[2] == s),
                MaskWarpSource::DisabledInSidecar => assert(r@[3] == s),
                MaskWarpSource::FisheyeRefused => assert(r@[4] == s),
                MaskWarpSource::Unparseable => assert(r@[5] == s),
                MaskWarpSource::NoProfileRoots => assert(r@[6] == s),
            }
        }
        r
    }

    pub fn is_solved(self) -> (r: bool)
        ensures
            r == self.solved(),
    {
        matches!(self, MaskWarpSource::CameraMetadata | MaskWarpSource::Lcp)
    }

    pub fn en(self) -> (r: &'static str)
        ensures
            r@ == self.sentence(),
    {
        match self {
            MaskWarpSource::Absent => "no lens-correction data for this photo",
            MaskWarpSource::CameraMetadata => "solved from the in-camera lens profile",
            MaskWarpSource::Lcp => "solved from an Adobe lens profile (.lcp)",
            MaskWarpSource::DisabledInSidecar =>
                "the sidecar turned the lens profile off - radial stays stored; linear transports handles",
            MaskWarpSource::FisheyeRefused =>
                "the Adobe lens profile is a fisheye model - refused, not applied",
            MaskWarpSource::Unparseable => "the Adobe lens profile could not be read",
            MaskWarpSource::NoProfileRoots => "no Adobe lens-profile directory on this machine",
        }
    }
}

impl Default for MaskWarpSource {
    fn default() -> (r: MaskWarpSource)
        ensures
            r == MaskWarpSource::Absent,
    {
        MaskWarpSource::Absent
    }
}

/// The point that the mask warp is radial about, and the frame it is in.
#[derive(Clone, Copy, Debug, PartialEq)]
pub struct MaskWarpCenter {
    pub stored_px: [Single; 2],
    pub stored_dims: [Single; 2],
}

/// A lens profile: sampled splines over the radius, and their switches.
#[derive(Debug, PartialEq)]
pub struct LensProfile {
    pub vignette: Vec<Single>,
    pub distortion: Vec<Single>,
    pub ca_r: Vec<Single>,
    pub ca_b: Vec<Single>,
    pub vignette_on: bool,
    pub distortion_on: bool,
    pub ca_on: bool,
    pub mask_warp: Vec<Single>,
    pub linear_handle_warp: Vec<Single>,
    pub mask_warp_src: MaskWarpSource,
    pub mask_warp_center: Option<MaskWarpCenter>,
}

/// What a [`LensProfile`] says.
#[verifier::ext_equal]
pub struct LensView {
    pub vignette: Seq<Single>,
    pub distortion: Seq<Single>,
    pub ca_r: Seq<Single>,
    pub ca_b: Seq<Single>,
    pub vignette_on: bool,
    pub distortion_on: bool,
    pub ca_on: bool,
    pub mask_warp: Seq<Single>,
    pub linear_handle_warp: Seq<Single>,
    pub mask_warp_src: MaskWarpSource,
    pub mask_warp_center: Option<MaskWarpCenter>,
}

impl View for LensProfile {
    type V = LensView;

    open spec fn view(&self) -> LensView {
        LensView {
            vignette: self.vignette@,
            distortion: self.distortion@,
            ca_r: self.ca_r@,
            ca_b: self.ca_b@,
            vignette_on: self.vignette_on,
            distortion_on: self.distortion_on,
            ca_on: self.ca_on,
            mask_warp: self.mask_warp@,
            linear_handle_warp: self.linear_handle_warp@,
            mask_warp_src: self.mask_warp_src,
            mask_warp_center: self.mask_warp_center,
        }
    }
}

impl LensView {
    /// No profile at all.
    pub open spec fn empty() -> LensView {
        LensView {
            vignette: seq![],
            distortion: seq![],
            ca_r: seq![],
            ca_b: seq![],
            vignette_on: false,
            distortion_on: false,
            ca_on: false,
            mask_warp: seq![],
            linear_handle_warp: seq![],
            mask_warp_src: MaskWarpSource::Absent,
            mask_warp_center: None,
        }
    }
}

impl Default for LensProfile {
    fn default() -> (r: LensProfile)
        ensures
            r@ == LensView::empty(),
    {
        let r: LensProfile = LensProfile {
            vignette: Vec::new(),
            distortion: Vec::new(),
            ca_r: Vec::new(),
            ca_b: Vec::new(),
            vignette_on: false,
            distortion_on: false,
            ca_on: false,
            mask_warp: Vec::new(),
            linear_handle_warp: Vec::new(),
            mask_warp_src: MaskWarpSource::Absent,
            mask_warp_center: None,
        };
        assert(r@ =~= LensView::empty());
        r
    }
}

impl Clone for LensProfile {
    fn clone(&self) -> (r: LensProfile)
        ensures
            r@ == self@,
    {
        LensProfile {
            vignette: clone_samples(&self.vignette),
            distortion: clone_samples(&self.distortion),
            ca_r: clone_samples(&self.ca_r),
            ca_b: clone_samples(&self.ca_b),
            vignette_on: self.vignette_on,
            distortion_on: self.distortion_on,
            ca_on: self.ca_on,
            mask_warp: clone_samples(&self.mask_warp),
            linear_handle_warp: clone_samples(&self.linear_handle_warp),
            mask_warp_src: self.mask_warp_src,
            mask_warp_center: self.mask_warp_center,
        }
    }
}

/// A crop rectangle in fractions of the frame.
#[derive(Clone, Copy, Debug, PartialEq)]
pub struct Crop {
    pub left: Single,
    pub top: Single,
    pub right: Single,
    pub bottom: Single,
}

/// One point of a tone curve.
#[derive(Clone, Copy, Debug, PartialEq, Eq, Structural)]
pub struct CurvePoint {
    pub input: u8,
    pub output: u8,
}

/// The names of the eight bands of the colour mixer, in their order.
pub fn hsl_bands() -> (r: [&'static str; 8])
    ensures
        r@[0]@ == "Red"@,
        r@[1]@ == "Orange"@,
        r@[2]@ == "Yellow"@,
        r@[3]@ == "Green"@,
        r@[4]@ == "Aqua"@,
        r@[5]@ == "Blue"@,
        r@[6]@ == "Purple"@,
        r@[7]@ == "Magenta"@,
{
    ["Red", "Orange", "Yellow", "Green", "Aqua", "Blue", "Purple", "Magenta"]
}

/// The colour mixer: three axes over eight bands.
#[derive(Clone, Copy, Debug, PartialEq)]
pub struct Hsl {
    pub hue: [Single; 8],
    pub saturation: [Single; 8],
    pub luminance: [Single; 8],
}

/// What an [`Hsl`] says.
#[verifier::ext_equal]
pub struct HslView {
    pub hue: Seq<Single>,
    pub saturation: Seq<Single>,
    pub luminance: Seq<Single>,
}

impl View for Hsl {
    type V = HslView;

    open spec fn view(&self) -> HslView {
        HslView { hue: self.hue@, saturation: self.saturation@, luminance: self.luminance@ }
    }
}

impl HslView {
    /// The mixer at rest.
    pub open spec fn neutral() -> HslView {
        let rest = Seq::new(8, |i: int| num(ZERO));
        HslView { hue: rest, saturation: rest, luminance: rest }
    }
}

impl Default for Hsl {
    fn default() -> (r: Hsl)
        ensures
            r@ == HslView::neutral(),
    {
        let z: Single = Single { bits: ZERO };
        let r: Hsl = Hsl {
            hue: [z, z, z, z, z, z, z, z],
            saturation: [z, z, z, z, z, z, z, z],
            luminance: [z, z, z, z, z, z, z, z],
        };
        assert(r@ =~= HslView::neutral());
        r
    }
}

/// The four colour-grading wheels.
#[derive(Clone, Copy, Debug, PartialEq)]
pub struct ColorGrade {
    pub shadow_hue: Single,
    pub shadow_sat: Single,
    pub shadow_lum: Single,
    pub midtone_hue: Single,
    pub midtone_sat: Single,
    pub midtone_lum: Single,
    pub highlight_hue: Single,
    pub highlight_sat: Single,
    pub highlight_lum: Single,
    pub global_hue: Single,
    pub global_sat: Single,
    pub global_lum: Single,
    pub blending: Single,
    pub balance: Single,
}

impl ColorGrade {
    /// The wheels at rest; the blending rests in the middle.
    pub open spec fn neutral() -> ColorGrade {
        let z = num(ZERO);
        ColorGrade {
            shadow_hue: z,
            shadow_sat: z,
            shadow_lum: z,
            midtone_hue: z,
            midtone_sat: z,
            midtone_lum: z,
            highlight_hue: z,
            highlight_sat: z,
            highlight_lum: z,
            global_hue: z,
            global_sat: z,
            global_lum: z,
            blending: num(FIFTY),
            balance: z,
        }
    }
}

impl Default for ColorGrade {
    fn default() -> (r: ColorGrade)
        ensures
            r == ColorGrade::neutral(),
    {
        let z: Single = Single { bits: ZERO };
        ColorGrade {
            shadow_hue: z,
            shadow_sat: z,
            shadow_lum: z,
            midtone_hue: z,
            midtone_sat: z,
            midtone_lum: z,
            highlight_hue: z,
            highlight_sat: z,
            highlight_lum: z,
            global_hue: z,
            global_sat: z,
            global_lum: z,
            blending: Single { bits: FIFTY },
            balance: z,
        }
    }
}

/// Who put a mask there.
#[derive(Clone, Copy, Debug, PartialEq, Eq, Structural)]
pub enum MaskRole {
    Custom,
    ZoneSky,
    ZoneLand,
}

impl MaskRole {
    /// The short name that the role is stored under.
    pub fn tag(self) -> (r: &'static str)
        ensures
            r@ == (match self {
                MaskRole::Custom => "custom"@,
                MaskRole::ZoneSky => "sky"@,
                MaskRole::ZoneLand => "land"@,
            }),
    {
        match self {
            MaskRole::Custom => "custom",
            MaskRole::ZoneSky => "sky",
            MaskRole::ZoneLand => "land",
        }
    }

    /// The name that a zone's mask is shown under. A custom mask brings its own.
    pub fn en_name(self) -> (r: Option<&'static str>)
        ensures
            self is Custom <==> r is None,
            self is ZoneSky ==> r->0@ == "Sky (reverse-fit)"@,
            self is ZoneLand ==> r->0@ == "Land (reverse-fit)"@,
    {
        match self {
            MaskRole::Custom => None,
            MaskRole::ZoneSky => Some("Sky (reverse-fit)"),
            MaskRole::ZoneLand => Some("Land (reverse-fit)"),
        }
    }
}

impl Default for MaskRole {
    fn default() -> (r: MaskRole)
        ensures
            r == MaskRole::Custom,
    {
        MaskRole::Custom
    }
}

/// One stroke of a brush: its dabs are a stream of lines.
#[derive(Debug, PartialEq)]
pub struct BrushStroke {
    pub value: Single,
    pub radius: Single,
    pub flow: Single,
    pub center_weight: Single,
    pub sync_id: String,
    pub dabs: String,
}

/// What a [`BrushStroke`] says.
#[verifier::ext_equal]
pub struct StrokeView {
    pub value: Single,
    pub radius: Single,
    pub flow: Single,
    pub center_weight: Single,
    pub sync_id: Seq<char>,
    pub dabs: Seq<char>,
}

impl View for BrushStroke {
    type V = StrokeView;

    open spec fn view(&self) -> StrokeView {
        StrokeView {
            value: self.value,
            radius: self.radius,
            flow: self.flow,
            center_weight: self.center_weight,
            sync_id: self.sync_id@,
            dabs: self.dabs@,
        }
    }
}

impl Default for BrushStroke {
    fn default() -> (r: BrushStroke)
        ensures
            r@ == (StrokeView {
                value: num(ONE),
                radius: num(ZERO),
                flow: num(ONE),
                center_weight: num(ZERO),
                sync_id: seq![],
                dabs: seq![],
            }),
    {
        BrushStroke {
            value: Single { bits: ONE },
            radius: Single { bits: ZERO },
            flow: Single { bits: ONE },
            center_weight: Single { bits: ZERO },
            sync_id: String::new(),
            dabs: String::new(),
        }
    }
}

impl Clone for BrushStroke {
    fn clone(&self) -> (r: BrushStroke)
        ensures
            r@ == self@,
    {
        BrushStroke {
            value: self.value,
            radius: self.radius,
            flow: self.flow,
            center_weight: self.center_weight,
            sync_id: self.sync_id.clone(),
            dabs: self.dabs.clone(),
        }
    }
}

/// The shape of a mask.
#[derive(Debug, PartialEq)]
pub enum MaskGeometry {
    Linear { zero_x: Single, zero_y: Single, full_x: Single, full_y: Single },
    Radial {
        top: Single,
        left: Single,
        bottom: Single,
        right: Single,
        feather: Single,
        roundness: Single,
        flipped: bool,
        angle: Single,
        midpoint: Single,
        mask_version: u32,
    },
    Bitmap { path: String },
    Brush {
        name: String,
        blend_mode: u32,
        value: Single,
        inverted: bool,
        strokes: Vec<BrushStroke>,
    },
    AiMask {
        name: String,
        subtype: u32,
        ref_x: Single,
        ref_y: Single,
        blend_mode: u32,
        value: Single,
        inverted: bool,
        mask_version: u32,
        provenance: Vec<(String, String)>,
        gesture: Vec<BrushStroke>,
        raster: Option<String>,
    },
}

/// What a [`MaskGeometry`] says.
#[verifier::ext_equal]
pub enum GeometryView {
    Linear { zero_x: Single, zero_y: Single, full_x: Single, full_y: Single },
    Radial {
        top: Single,
        left: Single,
        bottom: Single,
        right: Single,
        feather: Single,
        roundness: Single,
        flipped: bool,
        angle: Single,
        midpoint: Single,
        mask_version: u32,
    },
    Bitmap { path: Seq<char> },
    Brush {
        name: Seq<char>,
        blend_mode: u32,
        value: Single,
        inverted: bool,
        strokes: Seq<StrokeView>,
    },
    AiMask {
        name: Seq<char>,
        subtype: u32,
        ref_x: Single,
        ref_y: Single,
        blend_mode: u32,
        value: Single,
        inverted: bool,
        mask_version: u32,
        provenance: Seq<(Seq<char>, Seq<char>)>,
        gesture: Seq<StrokeView>,
        raster: Option<Seq<char>>,
    },
}

/// The strokes, each by what it says.
pub open spec fn stroke_views(s: Seq<BrushStroke>) -> Seq<StrokeView> {
    Seq::new(s.len(), |i: int| s[i]@)
}

/// The pairs, each by what it says.
pub open spec fn pair_views(s: Seq<(String, String)>) -> Seq<(Seq<char>, Seq<char>)> {
    Seq::new(s.len(), |i: int| (s[i].0@, s[i].1@))
}

/// An optional text.
pub open spec fn text_view(s: Option<String>) -> Option<Seq<char>> {
    match s {
        Some(t) => Some(t@),
        None => None,
    }
}

impl View for MaskGeometry {
    type V = GeometryView;

    open spec fn view(&self) -> GeometryView {
        match *self {
            MaskGeometry::Linear { zero_x, zero_y, full_x, full_y } => GeometryView::Linear {
                zero_x,
                zero_y,
                full_x,
                full_y,
            },
            MaskGeometry::Radial {
                top,
                left,
                bottom,
                right,
                feather,
                roundness,
                flipped,
                angle,
                midpoint,
                mask_version,
            } => GeometryView::Radial {
                top,
                left,
                bottom,
                right,
                feather,
                roundness,
                flipped,
                angle,
                midpoint,
                mask_version,
            },
            MaskGeometry::Bitmap { path } => GeometryView::Bitmap { path: path@ },
            MaskGeometry::Brush { name, blend_mode, value, inverted, strokes } =>
                GeometryView::Brush {
                name: name@,
                blend_mode,
                value,
                inverted,
                strokes: stroke_views(strokes@),
            },
            MaskGeometry::AiMask {
                name,
                subtype,
                ref_x,
                ref_y,
                blend_mode,
                value,
                inverted,
                mask_version,
                provenance,
                gesture,
                raster,
            } => GeometryView::AiMask {
                name: name@,
                subtype,
                ref_x,
                ref_y,
                blend_mode,
                value,
                inverted,
                mask_version,
                provenance: pair_views(provenance@),
                gesture: stroke_views(gesture@),
                raster: text_view(raster),
            },
        }
    }
}

impl GeometryView {
    /// The gradient that a new mask starts as.
    pub open spec fn default_linear() -> GeometryView {
        GeometryView::Linear {
            zero_x: num(HALF),
            zero_y: num(ZERO),
            full_x: num(HALF),
            full_y: num(HALF),
        }
    }
}

impl MaskGeometry {
    fn default_linear() -> (r: MaskGeometry)
        ensures
            r@ == GeometryView::default_linear(),
    {
        MaskGeometry::Linear {
            zero_x: Single { bits: HALF },
            zero_y: Single { bits: ZERO },
            full_x: Single { bits: HALF },
            full_y: Single { bits: HALF },
        }
    }
}

impl Clone for MaskGeometry {
    fn clone(&self) -> (r: MaskGeometry)
        ensures
            r@ == self@,
    {
        match self {
            MaskGeometry::Linear { zero_x, zero_y, full_x, full_y } => MaskGeometry::Linear {
                zero_x: *zero_x,
                zero_y: *zero_y,
                full_x: *full_x,
                full_y: *full_y,
            },
            MaskGeometry::Radial {
                top,
                left,
                bottom,
                right,
                feather,
                roundness,
                flipped,
                angle,
                midpoint,
                mask_version,
            } => MaskGeometry::Radial {
                top: *top,
                left: *left,
                bottom: *bottom,
                right: *right,
                feather: *feather,
                roundness: *roundness,
                flipped: *flipped,
                angle: *angle,
                midpoint: *midpoint,
                mask_version: *mask_version,
            },
            MaskGeometry::Bitmap { path } => MaskGeometry::Bitmap { path: path.clone() },
            MaskGeometry::Brush { name, blend_mode, value, inverted, strokes } =>
                MaskGeometry::Brush {
                name: name.clone(),
                blend_mode: *blend_mode,
                value: *value,
                inverted: *inverted,
                strokes: clone_strokes(strokes),
            },
            MaskGeometry::AiMask {
                name,
                subtype,
                ref_x,
                ref_y,
                blend_mode,
                value,
                inverted,
                mask_version,
                provenance,
                gesture,
                raster,
            } => MaskGeometry::AiMask {
                name: name.clone(),
                subtype: *subtype,
                ref_x: *ref_x,
                ref_y: *ref_y,
                blend_mode: *blend_mode,
                value: *value,
                inverted: *inverted,
                mask_version: *mask_version,
                provenance: clone_pairs(provenance),
                gesture: clone_strokes(gesture),
                raster: match raster {
                    Some(p) => Some(p.clone()),
                    None => None,
                },
            },
        }
    }
}

/// How a component joins the mask that it belongs to.
#[derive(Clone, Copy, Debug, PartialEq, Eq, Structural)]
pub enum MaskCombine {
    Add,
    Subtract,
    Intersect,
}

impl Default for MaskCombine {
    fn default() -> (r: MaskCombine)
        ensures
            r == MaskCombine::Add,
    {
        MaskCombine::Add
    }
}

/// One further shape of a mask.
#[derive(Debug, PartialEq)]
pub struct MaskComponent {
    pub geometry: MaskGeometry,
    pub mode: MaskCombine,
}

/// What a [`MaskComponent`] says.
#[verifier::ext_equal]
pub struct ComponentView {
    pub geometry: GeometryView,
    pub mode: MaskCombine,
}

impl View for MaskComponent {
    type V = ComponentView;

    open spec fn view(&self) -> ComponentView {
        ComponentView { geometry: self.geometry@, mode: self.mode }
    }
}

/// The components, each by what it says.
pub open spec fn component_views(s: Seq<MaskComponent>) -> Seq<ComponentView> {
    Seq::new(s.len(), |i: int| s[i]@)
}

impl Default for MaskComponent {
    fn default() -> (r: MaskComponent)
        ensures
            r@ == (ComponentView {
                geometry: GeometryView::default_linear(),
                mode: MaskCombine::Add,
            }),
    {
        MaskComponent { geometry: MaskGeometry::default_linear(), mode: MaskCombine::Add }
    }
}

impl Clone for MaskComponent {
    fn clone(&self) -> (r: MaskComponent)
        ensures
            r@ == self@,
    {
        MaskComponent { geometry: self.geometry.clone(), mode: self.mode }
    }
}

/// A mask confined to a range of tones or to a colour.
#[derive(Clone, Copy, Debug, PartialEq)]
pub enum RangeMask {
    Luminance { lo_outer: Single, lo: Single, hi: Single, hi_outer: Single },
    Color { r: Single, g: Single, b: Single, amount: Single, px: Single, py: Single },
}

/// One mask and the adjustment it confines.
#[derive(Debug, PartialEq)]
pub struct LocalAdjustment {
    pub mask: MaskGeometry,
    pub components: Vec<MaskComponent>,
    pub enabled: bool,
    pub range: Option<RangeMask>,
    pub name: String,
    pub amount: Single,
    pub inverted: bool,
    pub exposure_ev: Single,
    pub contrast: Single,
    pub highlights: Single,
    pub shadows: Single,
    pub whites: Single,
    pub blacks: Single,
    pub clarity: Single,
    pub dehaze: Single,
    pub texture: Single,
    pub sharpness: Single,
    pub saturation: Single,
    pub hue: Single,
    pub temperature: Single,
    pub tint: Single,
    pub noise_reduction: Single,
    pub main_curve: Vec<CurvePoint>,
    pub red_curve: Vec<CurvePoint>,
    pub green_curve: Vec<CurvePoint>,
    pub blue_curve: Vec<CurvePoint>,
    pub color_gains: Option<[Single; 3]>,
    pub role: MaskRole,
}

/// What a [`LocalAdjustment`] says.
pub struct AdjustmentView {
    pub mask: GeometryView,
    pub components: Seq<ComponentView>,
    pub enabled: bool,
    pub range: Option<RangeMask>,
    pub name: Seq<char>,
    pub amount: Single,
    pub inverted: bool,
    pub exposure_ev: Single,
    pub contrast: Single,
    pub highlights: Single,
    pub shadows: Single,
    pub whites: Single,
    pub blacks: Single,
    pub clarity: Single,
    pub dehaze: Single,
    pub texture: Single,
    pub sharpness: Single,
    pub saturation: Single,
    pub hue: Single,
    pub temperature: Single,
    pub tint: Single,
    pub noise_reduction: Single,
    pub main_curve: Seq<CurvePoint>,
    pub red_curve: Seq<CurvePoint>,
    pub green_curve: Seq<CurvePoint>,
    pub blue_curve: Seq<CurvePoint>,
    pub color_gains: Option<Seq<Single>>,
    pub role: MaskRole,
}

/// The three gains of a mask, if it has any.
pub open spec fn gains_view(g: Option<[Single; 3]>) -> Option<Seq<Single>> {
    match g {
        Some(a) => Some(a@),
        None => None,
    }
}

/// The adjustments, each by what it says.
pub open spec fn adjustment_views(s: Seq<LocalAdjustment>) -> Seq<AdjustmentView> {
    Seq::new(s.len(), |i: int| s[i]@)
}

impl View for LocalAdjustment {
    type V = AdjustmentView;

    open spec fn view(&self) -> AdjustmentView {
        AdjustmentView {
            mask: self.mask@,
            components: component_views(self.components@),
            enabled: self.enabled,
            range: self.range,
            name: self.name@,
            amount: self.amount,
            inverted: self.inverted,
            exposure_ev: self.exposure_ev,
            contrast: self.contrast,
            highlights: self.highlights,
            shadows: self.shadows,
            whites: self.whites,
            blacks: self.blacks,
            clarity: self.clarity,
            dehaze: self.dehaze,
            texture: self.texture,
            sharpness: self.sharpness,
            saturation: self.saturation,
            hue: self.hue,
            temperature: self.temperature,
            tint: self.tint,
            noise_reduction: self.noise_reduction,
            main_curve: self.main_curve@,
            red_curve: self.red_curve@,
            green_curve: self.green_curve@,
            blue_curve: self.blue_curve@,
            color_gains: gains_view(self.color_gains),
            role: self.role,
        }
    }
}

impl AdjustmentView {
    /// The adjustment that changes nothing.
    pub open spec fn neutral() -> AdjustmentView {
        AdjustmentView {
            mask: GeometryView::default_linear(),
            components: seq![],
            enabled: true,
            range: None,
            name: seq![],
            amount: num(ONE),
            inverted: false,
            exposure_ev: num(ZERO),
            contrast: num(ZERO),
            highlights: num(ZERO),
            shadows: num(ZERO),
            whites: num(ZERO),
            blacks: num(ZERO),
            clarity: num(ZERO),
            dehaze: num(ZERO),
            texture: num(ZERO),
            sharpness: num(ZERO),
            saturation: num(ZERO),
            hue: num(ZERO),
            temperature: num(ZERO),
            tint: num(ZERO),
            noise_reduction: num(ZERO),
            main_curve: seq![],
            red_curve: seq![],
            green_curve: seq![],
            blue_curve: seq![],
            color_gains: None,
            role: MaskRole::Custom,
        }
    }
}

impl Default for LocalAdjustment {
    fn default() -> (r: LocalAdjustment)
        ensures
            r@ == AdjustmentView::neutral(),
    {
        let r: LocalAdjustment = LocalAdjustment {
            mask: MaskGeometry::default_linear(),
            components: Vec::new(),
            enabled: true,
            range: None,
            name: String::new(),
            amount: Single { bits: ONE },
            inverted: false,
            exposure_ev: Single { bits: ZERO },
            contrast: Single { bits: ZERO },
            highlights: Single { bits: ZERO },
            shadows: Single { bits: ZERO },
            whites: Single { bits: ZERO },
            blacks: Single { bits: ZERO },
            clarity: Single { bits: ZERO },
            dehaze: Single { bits: ZERO },
            texture: Single { bits: ZERO },
            sharpness: Single { bits: ZERO },
            saturation: Single { bits: ZERO },
            hue: Single { bits: ZERO },
            temperature: Single { bits: ZERO },
            tint: Single { bits: ZERO },
            noise_reduction: Single { bits: ZERO },
            main_curve: Vec::new(),
            red_curve: Vec::new(),
            green_curve: Vec::new(),
            blue_curve: Vec::new(),
            color_gains: None,
            role: MaskRole::Custom,
        };
        assert(r@.mask =~= AdjustmentView::neutral().mask);
        assert(r@.components =~= AdjustmentView::neutral().components);
        assert(r@.name =~= AdjustmentView::neutral().name);
        assert(r@.main_curve =~= AdjustmentView::neutral().main_curve);
        assert(r@.red_curve =~= AdjustmentView::neutral().red_curve);
        assert(r@.green_curve =~= AdjustmentView::neutral().green_curve);
        assert(r@.blue_curve =~= AdjustmentView::neutral().blue_curve);
        assert(r@.color_gains =~= AdjustmentView::neutral().color_gains);
        
        r
    }
}

impl Clone for LocalAdjustment {
    fn clone(&self) -> (r: LocalAdjustment)
        ensures
            r@ == self@,
    {
        LocalAdjustment {
            mask: self.mask.clone(),
            components: clone_components(&self.components),
            enabled: self.enabled,
            range: self.range,
            name: self.name.clone(),
            amount: self.amount,
            inverted: self.inverted,
            exposure_ev: self.exposure_ev,
            contrast: self.contrast,
            highlights: self.highlights,
            shadows: self.shadows,
            whites: self.whites,
            blacks: self.blacks,
            clarity: self.clarity,
            dehaze: self.dehaze,
            texture: self.texture,
            sharpness: self.sharpness,
            saturation: self.saturation,
            hue: self.hue,
            temperature: self.temperature,
            tint: self.tint,
            noise_reduction: self.noise_reduction,
            main_curve: clone_curve(&self.main_curve),
            red_curve: clone_curve(&self.red_curve),
            green_curve: clone_curve(&self.green_curve),
            blue_curve: clone_curve(&self.blue_curve),
            color_gains: self.color_gains,
            role: self.role,
        }
    }
}

/// One photograph's whole edit.
#[derive(Debug, PartialEq)]
pub struct EditRecipe {
    /// The tone-scale calibration that the sliders were authored against.
    pub version: u32,
    /// The frame that crop and mask coordinates are stored in.
    pub coord_era: u32,
    /// The set of controls that the writer knew.
    pub schema_era: u32,
    pub exposure_ev: Single,
    pub contrast: Single,
    pub highlights: Single,
    pub shadows: Single,
    pub whites: Single,
    pub blacks: Single,
    pub temperature_k: Option<Single>,
    pub tint: Single,
    /// The camera's own white balance, as a stamp and no edit.
    pub as_shot_k: Option<Single>,
    pub as_shot_tint: Option<Single>,
    pub vibrance: Single,
    pub saturation: Single,
    pub clarity: Single,
    pub dehaze: Single,
    pub texture: Single,
    pub hsl: Hsl,
    pub color_grade: ColorGrade,
    pub sharpening: Single,
    pub noise_reduction: Single,
    pub sharpen_radius: Single,
    pub sharpen_detail: Single,
    pub sharpen_mask: Single,
    pub nr_detail: Single,
    pub nr_contrast: Single,
    pub color_nr: Single,
    pub color_nr_detail: Single,
    pub color_nr_smooth: Single,
    pub lens_vignette: Single,
    pub lens_vignette_mid: Single,
    pub lens_distortion: Single,
    pub ca_r: Single,
    pub ca_b: Single,
    pub auto_lateral_ca: bool,
    pub defringe_purple: Single,
    pub defringe_purple_lo: Single,
    pub defringe_purple_hi: Single,
    pub defringe_green: Single,
    pub defringe_green_lo: Single,
    pub defringe_green_hi: Single,
    pub post_crop_vignette: Single,
    pub post_crop_vignette_mid: Single,
    pub post_crop_vignette_feather: Single,
    pub post_crop_vignette_round: Single,
    pub post_crop_vignette_style: Single,
    pub post_crop_vignette_hl: Single,
    pub grain: Single,
    pub grain_size: Single,
    pub grain_rough: Single,
    /// Foreign attributes that ride along, each key once, in the order of the keys.
    pub passthrough: Vec<(String, String)>,
    pub straighten_deg: Single,
    pub quarter_turns: u8,
    pub crop: Option<Crop>,
    pub tone_curve: Vec<CurvePoint>,
    pub red_curve: Vec<CurvePoint>,
    pub green_curve: Vec<CurvePoint>,
    pub blue_curve: Vec<CurvePoint>,
    /// The photo's own base look: knots in the unit square.
    pub base_curve: Vec<[Single; 2]>,
    pub lens_profile: LensProfile,
    pub masks: Vec<LocalAdjustment>,
    pub rationale: String,
    pub confidence: Single,
}

/// What an [`EditRecipe`] says, with its texts and lists as sequences.
pub struct RecipeView {
    pub version: u32,
    pub coord_era: u32,
    pub schema_era: u32,
    pub exposure_ev: Single,
    pub contrast: Single,
    pub highlights: Single,
    pub shadows: Single,
    pub whites: Single,
    pub blacks: Single,
    pub temperature_k: Option<Single>,
    pub tint: Single,
    pub as_shot_k: Option<Single>,
    pub as_shot_tint: Option<Single>,
    pub vibrance: Single,
    pub saturation: Single,
    pub clarity: Single,
    pub dehaze: Single,
    pub texture: Single,
    pub hsl: HslView,
    pub color_grade: ColorGrade,
    pub sharpening: Single,
    pub noise_reduction: Single,
    pub sharpen_radius: Single,
    pub sharpen_detail: Single,
    pub sharpen_mask: Single,
    pub nr_detail: Single,
    pub nr_contrast: Single,
    pub color_nr: Single,
    pub color_nr_detail: Single,
    pub color_nr_smooth: Single,
    pub lens_vignette: Single,
    pub lens_vignette_mid: Single,
    pub lens_distortion: Single,
    pub ca_r: Single,
    pub ca_b: Single,
    pub auto_lateral_ca: bool,
    pub defringe_purple: Single,
    pub defringe_purple_lo: Single,
    pub defringe_purple_hi: Single,
    pub defringe_green: Single,
    pub defringe_green_lo: Single,
    pub defringe_green_hi: Single,
    pub post_crop_vignette: Single,
    pub post_crop_vignette_mid: Single,
    pub post_crop_vignette_feather: Single,
    pub post_crop_vignette_round: Single,
    pub post_crop_vignette_style: Single,
    pub post_crop_vignette_hl: Single,
    pub grain: Single,
    pub grain_size: Single,
    pub grain_rough: Single,
    pub passthrough: Seq<(Seq<char>, Seq<char>)>,
    pub straighten_deg: Single,
    pub quarter_turns: u8,
    pub crop: Option<Crop>,
    pub tone_curve: Seq<CurvePoint>,
    pub red_curve: Seq<CurvePoint>,
    pub green_curve: Seq<CurvePoint>,
    pub blue_curve: Seq<CurvePoint>,
    pub base_curve: Seq<Seq<Single>>,
    pub lens_profile: LensView,
    pub masks: Seq<AdjustmentView>,
    pub rationale: Seq<char>,
    pub confidence: Single,
}

/// The knots of a base curve, each as its two coordinates.
pub open spec fn knot_views(s: Seq<[Single; 2]>) -> Seq<Seq<Single>> {
    Seq::new(s.len(), |i: int| s[i]@)
}

impl View for EditRecipe {
    type V = RecipeView;

    open spec fn view(&self) -> RecipeView {
        RecipeView {
            version: self.version,
            coord_era: self.coord_era,
            schema_era: self.schema_era,
            exposure_ev: self.exposure_ev,
            contrast: self.contrast,
            highlights: self.highlights,
            shadows: self.shadows,
            whites: self.whites,
            blacks: self.blacks,
            temperature_k: self.temperature_k,
            tint: self.tint,
            as_shot_k: self.as_shot_k,
            as_shot_tint: self.as_shot_tint,
            vibrance: self.vibrance,
            saturation: self.saturation,
            clarity: self.clarity,
            dehaze: self.dehaze,
            texture: self.texture,
            hsl: self.hsl@,
            color_grade: self.color_grade,
            sharpening: self.sharpening,
            noise_reduction: self.noise_reduction,
            sharpen_radius: self.sharpen_radius,
            sharpen_detail: self.sharpen_detail,
            sharpen_mask: self.sharpen_mask,
            nr_detail: self.nr_detail,
            nr_contrast: self.nr_contrast,
            color_nr: self.color_nr,
            color_nr_detail: self.color_nr_detail,
            color_nr_smooth: self.color_nr_smooth,
            lens_vignette: self.lens_vignette,
            lens_vignette_mid: self.lens_vignette_mid,
            lens_distortion: self.lens_distortion,
            ca_r: self.ca_r,
            ca_b: self.ca_b,
            auto_lateral_ca: self.auto_lateral_ca,
            defringe_purple: self.defringe_purple,
            defringe_purple_lo: self.defringe_purple_lo,
            defringe_purple_hi: self.defringe_purple_hi,
            defringe_green: self.defringe_green,
            defringe_green_lo: self.defringe_green_lo,
            defringe_green_hi: self.defringe_green_hi,
            post_crop_vignette: self.post_crop_vignette,
            post_crop_vignette_mid: self.post_crop_vignette_mid,
            post_crop_vignette_feather: self.post_crop_vignette_feather,
            post_crop_vignette_round: self.post_crop_vignette_round,
            post_crop_vignette_style: self.post_crop_vignette_style,
            post_crop_vignette_hl: self.post_crop_vignette_hl,
            grain: self.grain,
            grain_size: self.grain_size,
            grain_rough: self.grain_rough,
            passthrough: pair_views(self.passthrough@),
            straighten_deg: self.straighten_deg,
            quarter_turns: self.quarter_turns,
            crop: self.crop,
            tone_curve: self.tone_curve@,
            red_curve: self.red_curve@,
            green_curve: self.green_curve@,
            blue_curve: self.blue_curve@,
            base_curve: knot_views(self.base_curve@),
            lens_profile: self.lens_profile@,
            masks: adjustment_views(self.masks@),
            rationale: self.rationale@,
            confidence: self.confidence,
        }
    }
}

/// The text `a` stands before the text `b`, character by character. (That is the order
/// of their bytes too.)
pub open spec fn text_below(a: Seq<char>, b: Seq<char>) -> bool
    decreases b.len(),
{
    if b.len() == 0 {
        false
    } else if a.len() == 0 {
        true
    } else if a[0] == b[0] {
        text_below(a.skip(1), b.skip(1))
    } else {
        (a[0] as u32) < (b[0] as u32)
    }
}

/// Every key stands before all keys after it, so none occurs twice.
pub open spec fn keys_in_order(s: Seq<(Seq<char>, Seq<char>)>) -> bool {
    forall|i: int, j: int|
        0 <= i < j < s.len() ==> text_below((#[trigger] s[i]).0, (#[trigger] s[j]).0)
}

/// No text stands before itself.
pub proof fn lemma_not_below_itself(a: Seq<char>)
    ensures
        !text_below(a, a),
    decreases a.len(),
{
    if a.len() > 0 {
        lemma_not_below_itself(a.skip(1));
    }
}

/// A valid recipe carries each foreign attribute once.
pub proof fn every_key_is_carried_once(r: RecipeView, i: int, j: int)
    requires
        r.well_formed(),
        0 <= i < j < r.passthrough.len(),
    ensures
        r.passthrough[i].0 != r.passthrough[j].0,
{
    lemma_not_below_itself(r.passthrough[i].0);
}

impl RecipeView {
    /// A valid recipe: its foreign attributes are in the order of their keys.
    pub open spec fn well_formed(self) -> bool {
        keys_in_order(self.passthrough)
    }

    /// The recipe that changes nothing.
    pub open spec fn neutral() -> RecipeView {
        RecipeView {
            version: CALIB_ERA,
            coord_era: COORD_ERA,
            schema_era: SCHEMA_ERA,
            exposure_ev: num(ZERO),
            contrast: num(ZERO),
            highlights: num(ZERO),
            shadows: num(ZERO),
            whites: num(ZERO),
            blacks: num(ZERO),
            temperature_k: None,
            tint: num(ZERO),
            as_shot_k: None,
            as_shot_tint: None,
            vibrance: num(ZERO),
            saturation: num(ZERO),
            clarity: num(ZERO),
            dehaze: num(ZERO),
            texture: num(ZERO),
            hsl: HslView::neutral(),
            color_grade: ColorGrade::neutral(),
            sharpening: num(ZERO),
            noise_reduction: num(ZERO),
            sharpen_radius: num(ZERO),
            sharpen_detail: num(ZERO),
            sharpen_mask: num(ZERO),
            nr_detail: num(ZERO),
            nr_contrast: num(ZERO),
            color_nr: num(ZERO),
            color_nr_detail: num(ZERO),
            color_nr_smooth: num(ZERO),
            lens_vignette: num(ZERO),
            lens_vignette_mid: num(FIFTY),
            lens_distortion: num(ZERO),
            ca_r: num(ZERO),
            ca_b: num(ZERO),
            auto_lateral_ca: false,
            defringe_purple: num(ZERO),
            defringe_purple_lo: num(THIRTY),
            defringe_purple_hi: num(SEVENTY),
            defringe_green: num(ZERO),
            defringe_green_lo: num(FORTY),
            defringe_green_hi: num(SIXTY),
            post_crop_vignette: num(ZERO),
            post_crop_vignette_mid: num(ZERO),
            post_crop_vignette_feather: num(ZERO),
            post_crop_vignette_round: num(ZERO),
            post_crop_vignette_style: num(ZERO),
            post_crop_vignette_hl: num(ZERO),
            grain: num(ZERO),
            grain_size: num(ZERO),
            grain_rough: num(ZERO),
            passthrough: seq![],
            straighten_deg: num(ZERO),
            quarter_turns: 0,
            crop: None,
            tone_curve: seq![],
            red_curve: seq![],
            green_curve: seq![],
            blue_curve: seq![],
            base_curve: seq![],
            lens_profile: LensView::empty(),
            masks: seq![],
            rationale: seq![],
            confidence: num(ZERO),
        }
    }
}

impl Default for EditRecipe {
    fn default() -> (r: EditRecipe)
        ensures
            r@ == RecipeView::neutral(),
            r@.well_formed(),
    {
        let r: EditRecipe = EditRecipe {
            version: CALIB_ERA,
            coord_era: COORD_ERA,
            schema_era: SCHEMA_ERA,
            exposure_ev: Single { bits: ZERO },
            contrast: Single { bits: ZERO },
            highlights: Single { bits: ZERO },
            shadows: Single { bits: ZERO },
            whites: Single { bits: ZERO },
            blacks: Single { bits: ZERO },
            temperature_k: None,
            tint: Single { bits: ZERO },
            as_shot_k: None,
            as_shot_tint: None,
            vibrance: Single { bits: ZERO },
            saturation: Single { bits: ZERO },
            clarity: Single { bits: ZERO },
            dehaze: Single { bits: ZERO },
            texture: Single { bits: ZERO },
            hsl: Hsl::default(),
            color_grade: ColorGrade::default(),
            sharpening: Single { bits: ZERO },
            noise_reduction: Single { bits: ZERO },
            sharpen_radius: Single { bits: ZERO },
            sharpen_detail: Single { bits: ZERO },
            sharpen_mask: Single { bits: ZERO },
            nr_detail: Single { bits: ZERO },
            nr_contrast: Single { bits: ZERO },
            color_nr: Single { bits: ZERO },
            color_nr_detail: Single { bits: ZERO },
            color_nr_smooth: Single { bits: ZERO },
            lens_vignette: Single { bits: ZERO },
            lens_vignette_mid: Single { bits: FIFTY },
            lens_distortion: Single { bits: ZERO },
            ca_r: Single { bits: ZERO },
            ca_b: Single { bits: ZERO },
            auto_lateral_ca: false,
            defringe_purple: Single { bits: ZERO },
            defringe_purple_lo: Single { bits: THIRTY },
            defringe_purple_hi: Single { bits: SEVENTY },
            defringe_green: Single { bits: ZERO },
            defringe_green_lo: Single { bits: FORTY },
            defringe_green_hi: Single { bits: SIXTY },
            post_crop_vignette: Single { bits: ZERO },
            post_crop_vignette_mid: Single { bits: ZERO },
            post_crop_vignette_feather: Single { bits: ZERO },
            post_crop_vignette_round: Single { bits: ZERO },
            post_crop_vignette_style: Single { bits: ZERO },
            post_crop_vignette_hl: Single { bits: ZERO },
            grain: Single { bits: ZERO },
            grain_size: Single { bits: ZERO },
            grain_rough: Single { bits: ZERO },
            passthrough: Vec::new(),
            straighten_deg: Single { bits: ZERO },
            quarter_turns: 0,
            crop: None,
            tone_curve: Vec::new(),
            red_curve: Vec::new(),
            green_curve: Vec::new(),
            blue_curve: Vec::new(),
            base_curve: Vec::new(),
            lens_profile: LensProfile::default(),
            masks: Vec::new(),
            rationale: String::new(),
            confidence: Single { bits: ZERO },
        };
        assert(r@.hsl =~= RecipeView::neutral().hsl);
        assert(r@.passthrough =~= RecipeView::neutral().passthrough);
        assert(r@.tone_curve =~= RecipeView::neutral().tone_curve);
        assert(r@.red_curve =~= RecipeView::neutral().red_curve);
        assert(r@.green_curve =~= RecipeView::neutral().green_curve);
        assert(r@.blue_curve =~= RecipeView::neutral().blue_curve);
        assert(r@.base_curve =~= RecipeView::neutral().base_curve);
        assert(r@.lens_profile =~= RecipeView::neutral().lens_profile);
        assert(r@.masks =~= RecipeView::neutral().masks);
        assert(r@.rationale =~= RecipeView::neutral().rationale);
        
        r
    }
}

impl Clone for EditRecipe {
    fn clone(&self) -> (r: EditRecipe)
        ensures
            r@ == self@,
    {
        EditRecipe {
            version: self.version,
            coord_era: self.coord_era,
            schema_era: self.schema_era,
            exposure_ev: self.exposure_ev,
            contrast: self.contrast,
            highlights: self.highlights,
            shadows: self.shadows,
            whites: self.whites,
            blacks: self.blacks,
            temperature_k: self.temperature_k,
            tint: self.tint,
            as_shot_k: self.as_shot_k,
            as_shot_tint: self.as_shot_tint,
            vibrance: self.vibrance,
            saturation: self.saturation,
            clarity: self.clarity,
            dehaze: self.dehaze,
            texture: self.texture,
            hsl: self.hsl,
            color_grade: self.color_grade,
            sharpening: self.sharpening,
            noise_reduction: self.noise_reduction,
            sharpen_radius: self.sharpen_radius,
            sharpen_detail: self.sharpen_detail,
            sharpen_mask: self.sharpen_mask,
            nr_detail: self.nr_detail,
            nr_contrast: self.nr_contrast,
            color_nr: self.color_nr,
            color_nr_detail: self.color_nr_detail,
            color_nr_smooth: self.color_nr_smooth,
            lens_vignette: self.lens_vignette,
            lens_vignette_mid: self.lens_vignette_mid,
            lens_distortion: self.lens_distortion,
            ca_r: self.ca_r,
            ca_b: self.ca_b,
            auto_lateral_ca: self.auto_lateral_ca,
            defringe_purple: self.defringe_purple,
            defringe_purple_lo: self.defringe_purple_lo,
            defringe_purple_hi: self.defringe_purple_hi,
            defringe_green: self.defringe_green,
            defringe_green_lo: self.defringe_green_lo,
            defringe_green_hi: self.defringe_green_hi,
            post_crop_vignette: self.post_crop_vignette,
            post_crop_vignette_mid: self.post_crop_vignette_mid,
            post_crop_vignette_feather: self.post_crop_vignette_feather,
            post_crop_vignette_round: self.post_crop_vignette_round,
            post_crop_vignette_style: self.post_crop_vignette_style,
            post_crop_vignette_hl: self.post_crop_vignette_hl,
            grain: self.grain,
            grain_size: self.grain_size,
            grain_rough: self.grain_rough,
            passthrough: clone_pairs(&self.passthrough),
            straighten_deg: self.straighten_deg,
            quarter_turns: self.quarter_turns,
            crop: self.crop,
            tone_curve: clone_curve(&self.tone_curve),
            red_curve: clone_curve(&self.red_curve),
            green_curve: clone_curve(&self.green_curve),
            blue_curve: clone_curve(&self.blue_curve),
            base_curve: clone_knots(&self.base_curve),
            lens_profile: self.lens_profile.clone(),
            masks: clone_adjustments(&self.masks),
            rationale: self.rationale.clone(),
            confidence: self.confidence,
        }
    }
}

fn clone_samples(v: &Vec<Single>) -> (r: Vec<Single>)
    ensures
        r@ == v@,
{
    let mut r: Vec<Single> = Vec::new();
    for i in 0..v.len()
        invariant
            r@ == v@.take(i as int),
    {
        r.push(v[i]);
        assert(v@.take(i + 1) =~= v@.take(i as int).push(v@[i as int]));
    }
    assert(v@.take(v@.len() as int) =~= v@);
    r
}

fn clone_curve(v: &Vec<CurvePoint>) -> (r: Vec<CurvePoint>)
    ensures
        r@ == v@,
{
    let mut r: Vec<CurvePoint> = Vec::new();
    for i in 0..v.len()
        invariant
            r@ == v@.take(i as int),
    {
        r.push(v[i]);
        assert(v@.take(i + 1) =~= v@.take(i as int).push(v@[i as int]));
    }
    assert(v@.take(v@.len() as int) =~= v@);
    r
}

fn clone_knots(v: &Vec<[Single; 2]>) -> (r: Vec<[Single; 2]>)
    ensures
        knot_views(r@) == knot_views(v@),
{
    let mut r: Vec<[Single; 2]> = Vec::new();
    for i in 0..v.len()
        invariant
            r@ == v@.take(i as int),
    {
        r.push(v[i]);
        assert(v@.take(i + 1) =~= v@.take(i as int).push(v@[i as int]));
    }
    assert(v@.take(v@.len() as int) =~= v@);
    r
}

fn clone_pairs(v: &Vec<(String, String)>) -> (r: Vec<(String, String)>)
    ensures
        pair_views(r@) == pair_views(v@),
{
    let mut r: Vec<(String, String)> = Vec::new();
    for i in 0..v.len()
        invariant
            r@.len() == i,
            forall|j: int|
                0 <= j < i ==> (#[trigger] r@[j]).0@ == v@[j].0@ && r@[j].1@ == v@[j].1@,
    {
        r.push((v[i].0.clone(), v[i].1.clone()));
    }
    assert(pair_views(r@) =~= pair_views(v@));
    r
}

fn clone_strokes(v: &Vec<BrushStroke>) -> (r: Vec<BrushStroke>)
    ensures
        stroke_views(r@) == stroke_views(v@),
{
    let mut r: Vec<BrushStroke> = Vec::new();
    for i in 0..v.len()
        invariant
            r@.len() == i,
            forall|j: int| 0 <= j < i ==> #[trigger] r@[j]@ == v@[j]@,
    {
        r.push(v[i].clone());
    }
    assert(stroke_views(r@) =~= stroke_views(v@));
    r
}

fn clone_components(v: &Vec<MaskComponent>) -> (r: Vec<MaskComponent>)
    ensures
        component_views(r@) == component_views(v@),
{
    let mut r: Vec<MaskComponent> = Vec::new();
    for i in 0..v.len()
        invariant
            r@.len() == i,
            forall|j: int| 0 <= j < i ==> #[trigger] r@[j]@ == v@[j]@,
    {
        r.push(v[i].clone());
    }
    assert(component_views(r@) =~= component_views(v@));
    r
}

fn clone_adjustments(v: &Vec<LocalAdjustment>) -> (r: Vec<LocalAdjustment>)
    ensures
        adjustment_views(r@) == adjustment_views(v@),
{
    let mut r: Vec<LocalAdjustment> = Vec::new();
    for i in 0..v.len()
        invariant
            r@.len() == i,
            forall|j: int| 0 <= j < i ==> #[trigger] r@[j]@ == v@[j]@,
    {
        r.push(v[i].clone());
    }
    assert(adjustment_views(r@) =~= adjustment_views(v@));
    r
}

} // verus!
