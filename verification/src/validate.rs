//! A recipe that has been through its limits, and what it says about itself.

use vstd::prelude::*;
use vstd::string::*;
use crate::limits::ClampSummary;
use crate::numbers::{FIFTY, FORTY, SEVENTY, SIXTY, THIRTY, ZERO};
use crate::recipe::{ColorGrade, EditRecipe, RecipeView};
use crate::single::{num, Single};
use crate::text::{decimal, decimal_text, lemma_decimal_long};

verus! {

impl ColorGrade {
    /// Every wheel is where a new recipe has it.
    pub open spec fn untouched(self) -> bool {
        &&& self.shadow_hue.equals(num(ZERO))
        &&& self.shadow_sat.equals(num(ZERO))
        &&& self.shadow_lum.equals(num(ZERO))
        &&& self.midtone_hue.equals(num(ZERO))
        &&& self.midtone_sat.equals(num(ZERO))
        &&& self.midtone_lum.equals(num(ZERO))
        &&& self.highlight_hue.equals(num(ZERO))
        &&& self.highlight_sat.equals(num(ZERO))
        &&& self.highlight_lum.equals(num(ZERO))
        &&& self.global_hue.equals(num(ZERO))
        &&& self.global_sat.equals(num(ZERO))
        &&& self.global_lum.equals(num(ZERO))
        &&& self.blending.equals(num(FIFTY))
        &&& self.balance.equals(num(ZERO))
    }

    fn is_untouched(&self) -> (r: bool)
        ensures
            r == self.untouched(),
    {
        let z: Single = Single { bits: ZERO };
        self.shadow_hue == z
            && self.shadow_sat == z
            && self.shadow_lum == z
            && self.midtone_hue == z
            && self.midtone_sat == z
            && self.midtone_lum == z
            && self.highlight_hue == z
            && self.highlight_sat == z
            && self.highlight_lum == z
            && self.global_hue == z
            && self.global_sat == z
            && self.global_lum == z
            && self.blending == Single { bits: FIFTY } && self.balance == z
    }
}

impl RecipeView {
    /// The tone, colour and first detail sliders are where a new recipe has them.
    pub open spec fn tone_at_rest(self) -> bool {
        &&& self.exposure_ev.equals(num(ZERO))
        &&& self.contrast.equals(num(ZERO))
        &&& self.highlights.equals(num(ZERO))
        &&& self.shadows.equals(num(ZERO))
        &&& self.whites.equals(num(ZERO))
        &&& self.blacks.equals(num(ZERO))
        &&& self.tint.equals(num(ZERO))
        &&& self.vibrance.equals(num(ZERO))
        &&& self.saturation.equals(num(ZERO))
        &&& self.clarity.equals(num(ZERO))
        &&& self.dehaze.equals(num(ZERO))
        &&& self.texture.equals(num(ZERO))
        &&& self.sharpening.equals(num(ZERO))
        &&& self.noise_reduction.equals(num(ZERO))
        &&& self.sharpen_radius.equals(num(ZERO))
        &&& self.sharpen_detail.equals(num(ZERO))
        &&& self.sharpen_mask.equals(num(ZERO))
        &&& self.nr_detail.equals(num(ZERO))
    }

    /// The detail, lens and fringe sliders are where a new recipe has them.
    pub open spec fn detail_at_rest(self) -> bool {
        &&& self.nr_contrast.equals(num(ZERO))
        &&& self.color_nr.equals(num(ZERO))
        &&& self.color_nr_detail.equals(num(ZERO))
        &&& self.color_nr_smooth.equals(num(ZERO))
        &&& self.lens_vignette.equals(num(ZERO))
        &&& self.lens_vignette_mid.equals(num(FIFTY))
        &&& self.lens_distortion.equals(num(ZERO))
        &&& self.ca_r.equals(num(ZERO))
        &&& self.ca_b.equals(num(ZERO))
        &&& self.defringe_purple.equals(num(ZERO))
        &&& self.defringe_purple_lo.equals(num(THIRTY))
        &&& self.defringe_purple_hi.equals(num(SEVENTY))
        &&& self.defringe_green.equals(num(ZERO))
        &&& self.defringe_green_lo.equals(num(FORTY))
        &&& self.defringe_green_hi.equals(num(SIXTY))
        &&& self.post_crop_vignette.equals(num(ZERO))
        &&& self.post_crop_vignette_mid.equals(num(ZERO))
        &&& self.post_crop_vignette_feather.equals(num(ZERO))
    }

    /// The effect sliders are where a new recipe has them.
    pub open spec fn effects_at_rest(self) -> bool {
        &&& self.post_crop_vignette_round.equals(num(ZERO))
        &&& self.post_crop_vignette_style.equals(num(ZERO))
        &&& self.post_crop_vignette_hl.equals(num(ZERO))
        &&& self.grain.equals(num(ZERO))
        &&& self.grain_size.equals(num(ZERO))
        &&& self.grain_rough.equals(num(ZERO))
        &&& self.straighten_deg.equals(num(ZERO))
    }

    /// The photographer changed nothing. Who wrote the recipe and why, the
    /// camera's own look and white balance, a lens profile as it was stamped,
    /// and foreign attributes are no edits.
    pub open spec fn is_unedited(self) -> bool {
        &&& self.tone_at_rest()
        &&& self.detail_at_rest()
        &&& self.effects_at_rest()
        &&& self.temperature_k is None
        &&& self.hsl.at_rest()
        &&& self.color_grade.untouched()
        &&& !self.auto_lateral_ca
        &&& self.quarter_turns == 0
        &&& self.crop is None
        &&& self.tone_curve.len() == 0
        &&& self.red_curve.len() == 0
        &&& self.green_curve.len() == 0
        &&& self.blue_curve.len() == 0
        &&& self.lens_profile.as_stamped()
        &&& self.masks.len() == 0
    }
}

impl EditRecipe {
    fn tone_is_at_rest(&self) -> (r: bool)
        ensures
            r == self@.tone_at_rest(),
    {
        let z: Single = Single { bits: ZERO };
        self.exposure_ev == z
            && self.contrast == z
            && self.highlights == z
            && self.shadows == z
            && self.whites == z
            && self.blacks == z
            && self.tint == z
            && self.vibrance == z
            && self.saturation == z
            && self.clarity == z
            && self.dehaze == z
            && self.texture == z
            && self.sharpening == z
            && self.noise_reduction == z
            && self.sharpen_radius == z
            && self.sharpen_detail == z
            && self.sharpen_mask == z
            && self.nr_detail == z
    }

    fn detail_is_at_rest(&self) -> (r: bool)
        ensures
            r == self@.detail_at_rest(),
    {
        let z: Single = Single { bits: ZERO };
        self.nr_contrast == z
            && self.color_nr == z
            && self.color_nr_detail == z
            && self.color_nr_smooth == z
            && self.lens_vignette == z
            && self.lens_vignette_mid == Single { bits: FIFTY }
            && self.lens_distortion == z
            && self.ca_r == z
            && self.ca_b == z
            && self.defringe_purple == z
            && self.defringe_purple_lo == Single { bits: THIRTY }
            && self.defringe_purple_hi == Single { bits: SEVENTY }
            && self.defringe_green == z
            && self.defringe_green_lo == Single { bits: FORTY }
            && self.defringe_green_hi == Single { bits: SIXTY }
            && self.post_crop_vignette == z
            && self.post_crop_vignette_mid == z
            && self.post_crop_vignette_feather == z
    }

    fn effects_are_at_rest(&self) -> (r: bool)
        ensures
            r == self@.effects_at_rest(),
    {
        let z: Single = Single { bits: ZERO };
        self.post_crop_vignette_round == z
            && self.post_crop_vignette_style == z
            && self.post_crop_vignette_hl == z
            && self.grain == z
            && self.grain_size == z
            && self.grain_rough == z
            && self.straighten_deg == z
    }

    /// Whether the recipe leaves the photograph as it was.
    pub fn is_noop(&self) -> (r: bool)
        ensures
            r == self@.is_unedited(),
    {
        self.tone_is_at_rest() && self.detail_is_at_rest() && self.effects_are_at_rest()
            && self.temperature_k.is_none() && self.hsl.is_neutral()
            && self.color_grade.is_untouched() && !self.auto_lateral_ca && self.quarter_turns == 0
            && self.crop.is_none() && self.tone_curve.len() == 0 && self.red_curve.len() == 0
            && self.green_curve.len() == 0 && self.blue_curve.len() == 0
            && self.lens_profile.is_as_stamped() && self.masks.len() == 0
    }
}

/// `line` with `n` of something added to the list, unless there is none.
pub open spec fn listed(line: Seq<char>, n: nat, unit: Seq<char>) -> Seq<char> {
    if n == 0 {
        line
    } else if line.len() == 0 {
        decimal(n) + unit
    } else {
        line + ", "@ + decimal(n) + unit
    }
}

fn list(line: &mut String, n: usize, unit: &str)
    ensures
        final(line)@ == listed(old(line)@, n as nat, unit@),
{
    if n > 0 {
        if !line.as_str().is_empty() {
            line.append(", ");
        }
        line.append(decimal_text(n as u128).as_str());
        line.append(unit);
        assert(line@ =~= listed(old(line)@, n as nat, unit@));
    }
}

impl ClampSummary {
    /// The losses in words: only those that happened.
    pub open spec fn sentence(self) -> Seq<char> {
        let masks = listed(seq![], self.dropped_masks as nat, " mask(s)"@);
        let parts = listed(masks, self.dropped_components as nat, " mask component(s)"@);
        let points = listed(parts, self.truncated_curve_points as nat, " curve point(s)"@);
        listed(points, self.truncated_string_bytes as nat, " string byte(s)"@)
    }

    pub fn describe(self) -> (r: String)
        ensures
            r@ == self.sentence(),
    {
        let mut line: String = String::new();
        list(&mut line, self.dropped_masks, " mask(s)");
        list(&mut line, self.dropped_components, " mask component(s)");
        list(&mut line, self.truncated_curve_points, " curve point(s)");
        list(&mut line, self.truncated_string_bytes, " string byte(s)");
        line
    }

    /// The warning that a render opens with.
    pub open spec fn warning(self) -> Seq<char> {
        "recipe limits discarded "@ + decimal(self.dropped_masks as nat) + " mask(s) and "@
            + decimal(self.dropped_components as nat) + " mask component(s), truncated "@ + decimal(
            self.truncated_curve_points as nat,
        ) + " curve point(s) and "@ + decimal(self.truncated_string_bytes as nat)
            + " string byte(s) before rendering"@
    }
}

/// A recipe that is known to be within its limits: there is no other way to
/// make one than to clamp.
#[derive(Debug)]
pub struct ValidatedRecipe {
    recipe: EditRecipe,
    pub dropped: ClampSummary,
}

/// What a [`ValidatedRecipe`] says: the recipe as it is now, and what the clamp threw
/// away of the one that it was made from.
#[verifier::ext_equal]
pub struct ValidatedView {
    pub recipe: RecipeView,
    pub dropped: ClampSummary,
}

impl View for ValidatedRecipe {
    type V = ValidatedView;

    closed spec fn view(&self) -> ValidatedView {
        ValidatedView { recipe: self.recipe@, dropped: self.dropped }
    }
}

impl ValidatedRecipe {
    pub fn new(r: &EditRecipe) -> (v: ValidatedRecipe)
        ensures
            v@.recipe == r@.clamped(),
            v@.dropped == r@.lost(),
    {
        let mut recipe: EditRecipe = r.clone();
        let dropped: ClampSummary = recipe.clamp();
        ValidatedRecipe { recipe, dropped }
    }

    /// What the clamp threw away.
    pub fn dropped(&self) -> (r: ClampSummary)
        ensures
            r == self@.dropped,
    {
        self.dropped
    }

    /// What the caller has to be told, if anything was thrown away.
    pub fn disclose(&self) -> (r: Option<String>)
        ensures
            r is Some <==> self@.dropped != ClampSummary::nothing(),
            r is Some ==> r->0@ == self@.dropped.warning(),
    {
        let d: ClampSummary = self.dropped;
        if d.is_empty() {
            return None;
        }
        let mut line: String = "recipe limits discarded ".to_owned();
        line.append(decimal_text(d.dropped_masks as u128).as_str());
        line.append(" mask(s) and ");
        line.append(decimal_text(d.dropped_components as u128).as_str());
        line.append(" mask component(s), truncated ");
        line.append(decimal_text(d.truncated_curve_points as u128).as_str());
        line.append(" curve point(s) and ");
        line.append(decimal_text(d.truncated_string_bytes as u128).as_str());
        line.append(" string byte(s) before rendering");
        Some(line)
    }
}

impl std::ops::Deref for ValidatedRecipe {
    type Target = EditRecipe;

    fn deref(&self) -> (r: &EditRecipe)
        ensures
            r@ == self@.recipe,
    {
        &self.recipe
    }
}

/// Something is said exactly if something was lost.
pub proof fn only_real_losses_are_named(s: ClampSummary)
    ensures
        s.sentence().len() == 0 <==> s == ClampSummary::nothing(),
{
    lemma_decimal_long(s.dropped_masks as nat);
    lemma_decimal_long(s.dropped_components as nat);
    lemma_decimal_long(s.truncated_curve_points as nat);
    lemma_decimal_long(s.truncated_string_bytes as nat);
}

/// Who wrote a recipe and why, the camera's own look and white balance, foreign
/// attributes and a lens profile as it was stamped are no edits: recipes that
/// differ in nothing else are both edited or both not.
pub proof fn provenance_is_no_edit(r: RecipeView, s: RecipeView)
    requires
        s == (RecipeView {
            version: s.version,
            coord_era: s.coord_era,
            schema_era: s.schema_era,
            as_shot_k: s.as_shot_k,
            as_shot_tint: s.as_shot_tint,
            base_curve: s.base_curve,
            passthrough: s.passthrough,
            lens_profile: s.lens_profile,
            rationale: s.rationale,
            confidence: s.confidence,
            ..r
        }),
        r.lens_profile.as_stamped(),
        s.lens_profile.as_stamped(),
    ensures
        r.is_unedited() == s.is_unedited(),
{
}

/// A recipe with a mask is an edit, whatever the mask does.
pub proof fn a_mask_is_an_edit(r: RecipeView)
    requires
        r.masks.len() > 0,
    ensures
        !r.is_unedited(),
{
}

/// A new recipe is no edit.
pub proof fn a_new_recipe_is_unedited()
    ensures
        RecipeView::neutral().is_unedited(),
{
}

} // verus!
