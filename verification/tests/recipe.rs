//! Recipes: their limits, what counts as an edit, and tempering.

use autoshop::grade::{
    AdherenceTier, DirectionAdherence, GradeStrength, StrengthTier, CALIBRATED, DEFAULT,
    TEMPER_POINT_CEIL, TEMPER_POINT_KNEE, TEMPER_TONE_CEIL,
};
use autoshop::limits::{clamp_geometry, geometry_is_finite, range_is_finite, ClampSummary};
use autoshop::recipe::{
    coord_era_legacy, hsl_bands, lightroom_mask_version, no_quarter_turn, radial_midpoint_centre,
    schema_era_legacy, BrushStroke, ColorGrade, Crop, CurvePoint, EditRecipe, Hsl, LensProfile,
    LocalAdjustment, MaskCombine, MaskComponent, MaskGeometry, MaskRole, MaskWarpCenter,
    MaskWarpSource, RangeMask, CALIB_ERA, COORD_ERA, SCHEMA_ERA,
};
use autoshop::single::Single;
use autoshop::validate::ValidatedRecipe;

fn s(x: f32) -> Single {
    Single::from_bits(x.to_bits())
}

fn f(x: Single) -> f32 {
    f32::from_bits(x.to_bits())
}

fn floats(v: &[Single]) -> Vec<f32> {
    v.iter().map(|x| f(*x)).collect()
}

fn singles(v: &[f32]) -> Vec<Single> {
    v.iter().map(|x| s(*x)).collect()
}

fn brush(strokes: Vec<BrushStroke>) -> MaskGeometry {
    MaskGeometry::Brush {
        name: "brush".into(),
        blend_mode: 0,
        value: s(1.0),
        inverted: false,
        strokes,
    }
}

fn knots(v: &[[f32; 2]]) -> Vec<[Single; 2]> {
    v.iter().map(|k| [s(k[0]), s(k[1])]).collect()
}

#[test]
fn clamp_bounds_strings_and_can_neutralise_a_recipe() {
    let mut r = EditRecipe {
        rationale: "r".repeat(50_000),
        masks: vec![LocalAdjustment {
            name: "n".repeat(10_000),
            mask: MaskGeometry::Bitmap { path: "p".repeat(50_000) },
            ..Default::default()
        }],
        ..Default::default()
    };
    r.clamp();
    assert!(r.rationale.len() <= 16384, "rationale unbounded: {}", r.rationale.len());
    assert!(r.masks[0].name.len() <= 256, "mask name unbounded: {}", r.masks[0].name.len());
    match &r.masks[0].mask {
        MaskGeometry::Bitmap { path } => {
            assert!(path.len() <= 4096, "bitmap path unbounded: {}", path.len())
        }
        other => panic!("the bitmap mask was replaced by {other:?}"),
    }

    // A text of two-byte characters is not cut inside one.
    let mut multi = EditRecipe { rationale: "é".repeat(50_000), ..Default::default() };
    multi.clamp();
    assert!(multi.rationale.len() <= 16384);
    assert!(multi.rationale.chars().all(|c| c == 'é'), "cut mid-character");

    // A crop without area is an edit on arrival and gone afterwards.
    let mut degenerate = EditRecipe {
        crop: Some(Crop { left: s(0.5), top: s(0.5), right: s(0.5), bottom: s(0.5) }),
        ..Default::default()
    };
    assert!(!degenerate.is_noop(), "a crop-bearing recipe is not a no-op as sent");
    degenerate.clamp();
    assert!(degenerate.is_noop());
}

#[test]
fn clamp_bounds_sizes_and_coordinates_not_just_values() {
    let mut r = EditRecipe {
        masks: (0..500)
            .map(|_| LocalAdjustment {
                mask: MaskGeometry::Linear {
                    zero_x: s(1e30),
                    zero_y: s(-1e30),
                    full_x: s(1e30),
                    full_y: s(0.0),
                },
                ..Default::default()
            })
            .collect(),
        tone_curve: (0..5000).map(|i| CurvePoint { input: (i % 256) as u8, output: 0 }).collect(),
        base_curve: (0..5000).map(|_| [s(5.0), s(-3.0)]).collect(),
        ..Default::default()
    };
    r.clamp();
    assert!(r.masks.len() <= 64, "mask count uncapped: {}", r.masks.len());
    assert!(r.tone_curve.len() <= 256, "curve uncapped: {}", r.tone_curve.len());
    assert!(r.base_curve.len() <= 256, "base curve uncapped: {}", r.base_curve.len());
    for k in &r.base_curve {
        assert!((0.0..=1.0).contains(&f(k[0])) && (0.0..=1.0).contains(&f(k[1])), "knot {k:?}");
    }
    let MaskGeometry::Linear { zero_x, .. } = &r.masks[0].mask else { panic!() };
    assert!(f(*zero_x).abs() <= 8.0, "coordinate magnitude uncapped: {zero_x:?}");
}

#[test]
fn clamp_normalizes_untrusted_crop() {
    let mut r = EditRecipe {
        crop: Some(Crop { left: s(1.2), top: s(0.8), right: s(-0.1), bottom: s(0.2) }),
        ..Default::default()
    };
    r.clamp();
    let c = r.crop.expect("a real rectangle survives");
    assert!((f(c.left), f(c.top), f(c.right), f(c.bottom)) == (0.0, 0.2, 1.0, 0.8), "{c:?}");
    let mut r = EditRecipe {
        crop: Some(Crop { left: s(0.5), top: s(0.1), right: s(0.5), bottom: s(0.9) }),
        ..Default::default()
    };
    r.clamp();
    assert_eq!(r.crop, None);
    let mut r = EditRecipe {
        crop: Some(Crop { left: s(f32::NAN), top: s(0.0), right: s(1.0), bottom: s(1.0) }),
        ..Default::default()
    };
    r.clamp();
    assert_eq!(r.crop, None);
    let mut r = EditRecipe::default();
    r.masks.push(LocalAdjustment {
        range: Some(RangeMask::Luminance {
            lo_outer: s(0.0),
            lo: s(f32::NAN),
            hi: s(0.8),
            hi_outer: s(1.0),
        }),
        ..Default::default()
    });
    r.masks.push(LocalAdjustment {
        range: Some(RangeMask::Color {
            r: s(f32::NAN),
            g: s(0.5),
            b: s(0.5),
            amount: s(0.5),
            px: s(0.5),
            py: s(0.5),
        }),
        ..Default::default()
    });
    r.clamp();
    assert!(r.masks.is_empty(), "a non-finite range drops its whole mask");
}

#[test]
fn lens_profile_legacy_json_noop_and_toggle_semantics() {
    assert_eq!(EditRecipe::default().lens_profile, LensProfile::default());
    let stamped = EditRecipe {
        lens_profile: LensProfile {
            vignette: singles(&[1.0, 1.2]),
            distortion: singles(&[1.0, 0.95]),
            ca_r: singles(&[1.0]),
            ca_b: singles(&[1.0]),
            vignette_on: true,
            distortion_on: true,
            ca_on: true,
            ..Default::default()
        },
        ..Default::default()
    };
    assert!(stamped.is_noop(), "as-stamped profile must stay a no-op");
    let mut toggled = stamped.clone();
    toggled.lens_profile.distortion_on = false;
    assert!(!toggled.is_noop(), "a toggle away from the stamp is an edit");
    let carried = EditRecipe {
        passthrough: vec![
            ("CameraProfile".to_string(), "Adobe Standard".to_string()),
            ("PerspectiveUpright".to_string(), "0".to_string()),
        ],
        ..Default::default()
    };
    assert!(carried.is_noop(), "a Lightroom Transform block is not an edit");
    let edited = EditRecipe { exposure_ev: s(0.5), ..carried.clone() };
    assert!(!edited.is_noop(), "and it does not mask a real one either");
}

#[test]
fn mask_warp_source_all_covers_every_variant_and_the_schema_reads_both_ways() {
    let all = MaskWarpSource::all();
    let mut seen = all.to_vec();
    seen.sort_by_key(|s| format!("{s:?}"));
    seen.dedup();
    assert_eq!(seen.len(), all.len(), "ALL repeats a variant");
    for s in all {
        assert!(!s.en().is_empty(), "{s:?} has no prose");
    }
    assert_eq!(MaskWarpSource::default(), MaskWarpSource::Absent);

    let legacy = EditRecipe::default();
    assert!(legacy.lens_profile.mask_warp.is_empty());
    assert_eq!(legacy.lens_profile.mask_warp_src, MaskWarpSource::Absent);
    assert_eq!(legacy.lens_profile.mask_warp_center, None);

    // A clamp keeps what is usable as it is.
    let mut back = LensProfile {
        distortion: singles(&[1.0, 0.95]),
        distortion_on: true,
        mask_warp: singles(&[0.98, 1.02]),
        mask_warp_src: MaskWarpSource::CameraMetadata,
        mask_warp_center: Some(MaskWarpCenter {
            stored_px: [s(4768.0), s(3168.0)],
            stored_dims: [s(9504.0), s(6336.0)],
        }),
        ..Default::default()
    };
    back.clamp();
    assert_eq!(floats(&back.mask_warp), vec![0.98, 1.02]);
    assert_eq!(back.mask_warp_src, MaskWarpSource::CameraMetadata);
    assert_eq!(
        back.mask_warp_center,
        Some(MaskWarpCenter {
            stored_px: [s(4768.0), s(3168.0)],
            stored_dims: [s(9504.0), s(6336.0)],
        })
    );

    let mut wild = LensProfile {
        mask_warp: singles(&[4.0, f32::NAN, 0.1, 1.02]),
        mask_warp_src: MaskWarpSource::Lcp,
        ..Default::default()
    };
    wild.clamp();
    assert_eq!(floats(&wild.mask_warp), vec![1.3, 0.7, 1.02], "band and NaN drop");
    let mut lying = LensProfile {
        mask_warp: singles(&[1.02; 16]),
        mask_warp_src: MaskWarpSource::FisheyeRefused,
        ..Default::default()
    };
    lying.clamp();
    assert!(lying.mask_warp.is_empty(), "a refusal cannot carry a warp");
    assert_eq!(lying.mask_warp_src, MaskWarpSource::FisheyeRefused, "and keeps its reason");
    let mut stub = LensProfile {
        mask_warp: singles(&[1.02]),
        mask_warp_src: MaskWarpSource::Lcp,
        ..Default::default()
    };
    stub.clamp();
    assert!(stub.mask_warp.is_empty());
    assert_eq!(stub.mask_warp_src, MaskWarpSource::Unparseable);
}

#[test]
fn base_curve_legacy_json_noop_and_round_trip() {
    assert!(EditRecipe::default().base_curve.is_empty());
    let stamped = EditRecipe {
        base_curve: knots(&[[0.0, 0.0], [0.5, 0.7], [1.0, 1.0]]),
        ..Default::default()
    };
    assert!(stamped.is_noop());
    let mut wild =
        EditRecipe { base_curve: knots(&[[-0.5, 2.0], [0.5, 0.7]]), ..Default::default() };
    wild.clamp();
    assert_eq!(wild.base_curve, knots(&[[0.0, 1.0], [0.5, 0.7]]));
}

#[test]
fn as_shot_anchor_is_calibration_not_an_edit() {
    let legacy = EditRecipe::default();
    assert_eq!((legacy.as_shot_k, legacy.as_shot_tint), (None, None));
    let stamped = EditRecipe {
        as_shot_k: Some(s(4830.0)),
        as_shot_tint: Some(s(6.0)),
        ..Default::default()
    };
    assert!(stamped.is_noop(), "an as-shot stamp must stay a no-op");
    let mut back = stamped.clone();
    back.clamp();
    assert_eq!((back.as_shot_k, back.as_shot_tint), (Some(s(4830.0)), Some(s(6.0))));
    let mut wild = EditRecipe {
        as_shot_k: Some(s(f32::NAN)),
        as_shot_tint: Some(s(900.0)),
        ..Default::default()
    };
    wild.clamp();
    assert_eq!((wild.as_shot_k, wild.as_shot_tint), (None, Some(s(100.0))));
}

#[test]
fn temper_lifts_white_point_and_soft_caps_extremes() {
    let mut hot = EditRecipe {
        highlights: s(-78.81),
        whites: s(10.27),
        shadows: s(95.0),
        ..Default::default()
    };
    hot.temper(GradeStrength::calibrated());
    assert!(f(hot.whites) >= 23.0, "recovery must lift the white point: {}", f(hot.whites));
    assert!(f(hot.highlights) >= -65.0, "highlights not tempered: {}", f(hot.highlights));
    assert!(f(hot.highlights) <= -55.0, "highlights over-tempered: {}", f(hot.highlights));
    assert!(
        f(hot.shadows) >= 55.0 && f(hot.shadows) < 70.0,
        "shadows soft-cap off: {}",
        f(hot.shadows)
    );

    let mut mild = EditRecipe {
        highlights: s(-30.0),
        shadows: s(20.0),
        whites: s(5.0),
        ..Default::default()
    };
    mild.temper(GradeStrength::calibrated());
    assert_eq!(f(mild.highlights), -30.0, "modest highlights must pass through");
    assert_eq!(f(mild.shadows), 20.0, "modest shadows must pass through");
    assert!(f(mild.whites) >= 9.0, "modest recovery still protects speculars: {}", f(mild.whites));
}

#[test]
fn the_strength_axis_has_two_named_points_three_bands_and_one_door() {
    assert_eq!(f32::from_bits(CALIBRATED), 0.5);
    assert_eq!(f32::from_bits(DEFAULT), 0.65);
    assert_eq!(GradeStrength::default().get().to_bits(), DEFAULT);
    assert_eq!(GradeStrength::calibrated().get().to_bits(), CALIBRATED);
    for (v, want) in [
        (0.0, StrengthTier::Restrained),
        (0.4, StrengthTier::Restrained),
        (0.401, StrengthTier::Balanced),
        (0.5, StrengthTier::Balanced),
        (0.65, StrengthTier::Balanced),
        (0.7, StrengthTier::Balanced),
        (0.701, StrengthTier::Committed),
        (1.0, StrengthTier::Committed),
    ] {
        assert_eq!(GradeStrength::new(s(v)).tier(), want, "band edge moved at {v}");
    }
    assert_eq!(f(GradeStrength::new(s(-1.0)).get()), 0.0);
    assert_eq!(f(GradeStrength::new(s(4.0)).get()), 1.0);
    assert_eq!(GradeStrength::new(s(f32::NAN)).get().to_bits(), DEFAULT);
    assert_eq!(GradeStrength::new(s(f32::INFINITY)).get().to_bits(), DEFAULT);
    assert_eq!(f(GradeStrength::new(s(0.0)).above_calibration()), 0.0);
    assert_eq!(f(GradeStrength::calibrated().above_calibration()), 0.0);
    assert_eq!(f(GradeStrength::new(s(0.75)).above_calibration()), 0.5);
    assert_eq!(f(GradeStrength::new(s(1.0)).above_calibration()), 1.0);
}

#[test]
fn temper_knees_scale_with_strength_but_the_white_point_guard_never_does() {
    let hot = |strength: f32| {
        let mut r = EditRecipe {
            highlights: s(-78.81),
            shadows: s(95.0),
            blacks: s(-60.0),
            ..Default::default()
        };
        r.temper(GradeStrength::new(s(strength)));
        r
    };
    let (timid, calib, bold) = (hot(0.2), hot(0.5), hot(0.9));
    assert!(f(timid.shadows) < f(calib.shadows) && f(calib.shadows) < f(bold.shadows));
    assert!(
        f(timid.highlights) > f(calib.highlights) && f(calib.highlights) > f(bold.highlights)
    );
    assert!(f(timid.blacks) > f(calib.blacks) && f(calib.blacks) > f(bold.blacks));
    assert_eq!(f(GradeStrength::calibrated().soft_cap_factor()), 1.0);
    assert_eq!(f(calib.shadows), 50.0 + 20.0 * (45.0 / 65.0));
    assert!(
        f32::from_bits(TEMPER_TONE_CEIL) * f(GradeStrength::new(s(1.0)).soft_cap_factor()) < 100.0,
        "the soft-cap ceiling must never reach the hard clamp"
    );
    for strength in [0.0_f32, 0.5, 1.0] {
        let mut r = EditRecipe {
            highlights: s(-40.0),
            whites: s(0.0),
            masks: vec![LocalAdjustment {
                highlights: s(-40.0),
                whites: s(0.0),
                ..Default::default()
            }],
            ..Default::default()
        };
        r.temper(GradeStrength::new(s(strength)));
        assert_eq!(f(r.whites), 12.0, "global white-point guard drifted at strength {strength}");
        assert_eq!(f(r.masks[0].whites), 12.0, "mask guard drifted at strength {strength}");
    }
    for strength in [0.0_f32, 0.5, 1.0] {
        let mut r = EditRecipe {
            highlights: s(-100.0),
            whites: s(0.0),
            masks: vec![LocalAdjustment {
                highlights: s(-100.0),
                whites: s(0.0),
                ..Default::default()
            }],
            ..Default::default()
        };
        r.temper(GradeStrength::new(s(strength)));
        assert!((f(r.whites) - 30.0).abs() < 1e-4, "at strength {strength}: {}", f(r.whites));
        assert!(
            (f(r.masks[0].whites) - 30.0).abs() < 1e-4,
            "mask at strength {strength}: {}",
            f(r.masks[0].whites)
        );
    }
    for strength in [0.5_f32, 0.65, 1.0] {
        let mut r =
            EditRecipe { highlights: s(-100.0), whites: s(90.0), ..Default::default() };
        r.temper(GradeStrength::new(s(strength)));
        let k = f(GradeStrength::new(s(strength)).soft_cap_factor());
        let (knee, ceil) =
            (f32::from_bits(TEMPER_POINT_KNEE) * k, f32::from_bits(TEMPER_POINT_CEIL) * k);
        let span = ceil - knee;
        let excess = 90.0 - knee;
        assert_eq!(
            f(r.whites),
            knee + span * (excess / (excess + span)),
            "whites above the guard are still soft-capped at strength {strength}"
        );
    }
}

#[test]
fn masks_are_clamped_and_are_edits() {
    assert!(EditRecipe::default().masks.is_empty());
    let mut recipe = EditRecipe {
        masks: vec![
            LocalAdjustment {
                mask: MaskGeometry::Linear {
                    zero_x: s(0.5),
                    zero_y: s(0.35),
                    full_x: s(0.5),
                    full_y: s(0.0),
                },
                range: Some(RangeMask::Luminance {
                    lo_outer: s(0.9),
                    lo: s(0.8),
                    hi: s(0.5),
                    hi_outer: s(0.2),
                }),
                name: "sky".into(),
                exposure_ev: s(-0.4),
                highlights: s(-200.0),
                ..Default::default()
            },
            LocalAdjustment {
                mask: MaskGeometry::Radial {
                    top: s(0.3),
                    left: s(0.35),
                    bottom: s(0.7),
                    right: s(0.65),
                    feather: s(0.5),
                    roundness: s(0.0),
                    flipped: false,
                    angle: s(0.0),
                    midpoint: s(50.0),
                    mask_version: 2,
                },
                range: Some(RangeMask::Color {
                    r: s(0.9),
                    g: s(0.6),
                    b: s(0.2),
                    amount: s(1.7),
                    px: s(0.5),
                    py: s(0.5),
                }),
                name: "subject".into(),
                shadows: s(15.0),
                ..Default::default()
            },
        ],
        ..Default::default()
    };
    recipe.clamp();
    assert_eq!(f(recipe.masks[0].highlights), -100.0);
    assert_eq!(
        recipe.masks[0].range,
        Some(RangeMask::Luminance { lo_outer: s(0.5), lo: s(0.5), hi: s(0.8), hi_outer: s(0.8) })
    );
    match recipe.masks[1].range {
        Some(RangeMask::Color { amount, .. }) => assert_eq!(f(amount), 1.0),
        other => panic!("color range lost in clamp: {other:?}"),
    }
    assert!(!recipe.is_noop());
}

#[test]
fn the_schema_era_is_no_edit() {
    assert_eq!(schema_era_legacy(), 0);
    assert_eq!(EditRecipe::default().schema_era, SCHEMA_ERA);
    assert_ne!(schema_era_legacy(), EditRecipe::default().schema_era);
    let neutral_legacy = EditRecipe { schema_era: schema_era_legacy(), ..Default::default() };
    assert_eq!(neutral_legacy.schema_era, 0, "premise: it really is era 0");
    assert!(neutral_legacy.is_noop(), "the era stamp is not an edit");
}

#[test]
fn the_coordinate_era_is_no_edit() {
    assert_eq!(coord_era_legacy(), 0);
    assert_eq!(EditRecipe::default().coord_era, COORD_ERA);
    assert!(EditRecipe { coord_era: coord_era_legacy(), ..Default::default() }.is_noop());
    assert_eq!(LocalAdjustment::default().range, None);
}

#[test]
fn a_quarter_turn_is_an_edit() {
    assert!(no_quarter_turn(&EditRecipe::default().quarter_turns));
    let turned = EditRecipe { quarter_turns: 1, ..Default::default() };
    assert!(!no_quarter_turn(&turned.quarter_turns));
    assert!(!turned.is_noop());
}

#[test]
fn an_out_of_domain_quarter_turn_folds_rather_than_saturating() {
    for (raw, want) in [(0u8, 0u8), (3, 3), (4, 0), (7, 3), (255, 3)] {
        let mut r = EditRecipe { quarter_turns: raw, ..Default::default() };
        r.clamp();
        assert_eq!(r.quarter_turns, want, "clamp({raw})");
    }
}

#[test]
fn a_radial_mask_has_defaults_for_its_extras() {
    assert_eq!(f(radial_midpoint_centre()), 50.0);
    assert_eq!(lightroom_mask_version(), 2);
}

#[test]
fn what_a_recipe_leaves_out_is_neutral() {
    let recipe = EditRecipe {
        exposure_ev: s(0.5),
        rationale: "brighten".into(),
        confidence: s(0.9),
        ..Default::default()
    };
    assert_eq!(f(recipe.exposure_ev), 0.5);
    assert_eq!(f(recipe.contrast), 0.0);
    assert_eq!(recipe.temperature_k, None);
    assert_eq!(recipe.version, CALIB_ERA);
}

#[test]
fn clamp_pulls_out_of_range_values_back() {
    let mut recipe = EditRecipe {
        contrast: s(999.0),
        exposure_ev: s(-42.0),
        lens_distortion: s(-250.0),
        ..Default::default()
    };
    recipe.clamp();
    assert_eq!(f(recipe.contrast), 100.0);
    assert_eq!(f(recipe.exposure_ev), -5.0);
    assert_eq!(f(recipe.lens_distortion), -100.0);
}

#[test]
fn local_sliders_rest_at_nought() {
    let m = LocalAdjustment { exposure_ev: s(-0.4), ..Default::default() };
    assert_eq!(f(m.hue), 0.0);
    assert_eq!(f(m.sharpness), 0.0);
    assert_eq!(f(m.exposure_ev), -0.4);
}

#[test]
fn a_clamp_keeps_the_path_of_a_raster() {
    let mut r = EditRecipe::default();
    r.masks.push(LocalAdjustment {
        mask: MaskGeometry::Bitmap { path: "out/photo.mask1.png".into() },
        exposure_ev: s(-0.8),
        ..Default::default()
    });
    let mut c = r.clone();
    c.clamp();
    assert_eq!(c.masks[0].mask, r.masks[0].mask);
}

#[test]
fn clamp_reports_discarded_components_and_zeroes_for_a_clean_recipe() {
    let mut crowded = EditRecipe {
        masks: vec![LocalAdjustment {
            components: vec![MaskComponent::default(); 17],
            ..Default::default()
        }],
        ..Default::default()
    };
    let dropped = crowded.clamp();
    assert_eq!(dropped.dropped_masks, 0);
    assert_eq!(dropped.dropped_components, 1);
    assert_eq!(crowded.masks[0].components.len(), 16);

    let mut clean = EditRecipe::default();
    assert_eq!(clean.clamp(), ClampSummary::default());
}

#[test]
fn clamp_counts_curve_and_string_truncation() {
    let mut r = EditRecipe {
        tone_curve: (0..300u32).map(|i| CurvePoint { input: (i % 256) as u8, output: 0 }).collect(),
        rationale: "x".repeat(20_000),
        ..Default::default()
    };
    let d = r.clamp();
    assert_eq!(d.truncated_curve_points, 44, "300 points over the 256 cap");
    assert_eq!(d.truncated_string_bytes, 20_000 - 16_384, "rationale past its cap");
    assert!(!d.is_empty(), "curve/string loss alone must flip is_empty");
}

#[test]
fn an_over_cap_dab_stream_is_cut_between_tokens_never_inside_one() {
    let dabs = vec!["d 0 0"; 65_536].join("\n");
    assert_eq!(dabs.len(), 393_215, "premise: the payload really is over the cap");
    let mut r = EditRecipe {
        masks: vec![LocalAdjustment {
            mask: brush(vec![BrushStroke { dabs: dabs.clone(), ..Default::default() }]),
            ..Default::default()
        }],
        ..Default::default()
    };
    let dropped = r.clamp();
    let MaskGeometry::Brush { strokes, .. } = &r.masks[0].mask else { panic!() };
    let kept = &strokes[0].dabs;
    assert!(kept.len() <= 256 * 1024, "the cap is still a bound: {}", kept.len());
    assert!(!kept.ends_with('\n'), "storage form joins, never terminates");
    for (i, tok) in kept.split('\n').enumerate() {
        assert_eq!(tok, "d 0 0", "token {i} was cut apart: {tok:?}");
    }
    let n = kept.split('\n').count();
    assert_eq!(n, 43_690, "43,690 x 6 - 1 = 262,139 bytes, the largest whole-token fit");
    assert_eq!(dropped.truncated_string_bytes, 393_215 - 262_139);
    assert_eq!(dropped.dropped_components, 0);
}

#[test]
fn a_single_token_larger_than_the_cap_drops_the_stroke_and_says_so() {
    let mut r = EditRecipe {
        masks: vec![LocalAdjustment {
            mask: brush(vec![
                BrushStroke { dabs: format!("d 0 {}", "9".repeat(300_000)), ..Default::default() },
                BrushStroke { dabs: "r 0.5\nd 0 0".into(), ..Default::default() },
            ]),
            ..Default::default()
        }],
        ..Default::default()
    };
    let dropped = r.clamp();
    let MaskGeometry::Brush { strokes, .. } = &r.masks[0].mask else { panic!() };
    assert_eq!(strokes.len(), 1, "the dab-less stroke is gone");
    assert_eq!(strokes[0].dabs, "r 0.5\nd 0 0", "the healthy stroke is untouched");
    assert_eq!(dropped.dropped_components, 1, "and it was disclosed, not swallowed");
}

#[test]
fn absorb_folds_all_four_fields_and_describe_names_only_real_losses() {
    let mut acc = ClampSummary::default();
    acc.absorb(ClampSummary {
        dropped_masks: 1,
        dropped_components: 0,
        truncated_curve_points: 44,
        truncated_string_bytes: 0,
    });
    acc.absorb(ClampSummary {
        dropped_masks: 0,
        dropped_components: 2,
        truncated_curve_points: 1,
        truncated_string_bytes: 7,
    });
    assert_eq!(
        acc,
        ClampSummary {
            dropped_masks: 1,
            dropped_components: 2,
            truncated_curve_points: 45,
            truncated_string_bytes: 7,
        }
    );
    assert_eq!(
        acc.describe(),
        "1 mask(s), 2 mask component(s), 45 curve point(s), 7 string byte(s)"
    );
    let curve_only = ClampSummary { truncated_curve_points: 44, ..Default::default() };
    assert_eq!(curve_only.describe(), "44 curve point(s)");
}

#[test]
fn a_non_finite_range_drops_the_whole_mask_on_clamp() {
    let mut recipe = EditRecipe {
        masks: vec![LocalAdjustment {
            range: Some(RangeMask::Luminance {
                lo_outer: s(0.0),
                lo: s(f32::NAN),
                hi: s(0.8),
                hi_outer: s(1.0),
            }),
            exposure_ev: s(1.0),
            ..Default::default()
        }],
        ..Default::default()
    };
    recipe.clamp();
    assert!(recipe.masks.is_empty());
}

// ---- further cases ----

/// A clamped recipe comes through a second clamp unchanged and without losses.
#[test]
fn a_second_clamp_changes_nothing() {
    let mut r = EditRecipe {
        exposure_ev: s(f32::NAN),
        sharpen_radius: s(1.2345),
        post_crop_vignette_style: s(1.6),
        rationale: "y".repeat(20_000),
        color_grade: ColorGrade { shadow_hue: s(-30.0), shadow_sat: s(500.0), ..Default::default() },
        hsl: Hsl { hue: [s(250.0); 8], ..Default::default() },
        masks: vec![LocalAdjustment {
            mask: MaskGeometry::Radial {
                top: s(0.1),
                left: s(0.1),
                bottom: s(0.9),
                right: s(0.9),
                feather: s(3.0),
                roundness: s(-4.0),
                flipped: false,
                angle: s(725.0),
                midpoint: s(300.0),
                mask_version: 2,
            },
            color_gains: Some([s(9.0), s(1.0), s(0.01)]),
            ..Default::default()
        }],
        ..Default::default()
    };
    assert!(!r.clamp().is_empty());
    let once = r.clone();
    assert_eq!(r.clamp(), ClampSummary::default());
    assert_eq!(r, once);
    assert_eq!(f(once.exposure_ev), 0.0);
    assert_eq!(f(once.sharpen_radius), 1.2);
    assert_eq!(f(once.post_crop_vignette_style), 2.0);
    assert_eq!(f(once.color_grade.shadow_hue), 330.0);
    assert_eq!(f(once.color_grade.shadow_sat), 100.0);
    assert_eq!(f(once.hsl.hue[3]), 100.0);
}

#[test]
fn a_recipe_within_its_limits_is_not_touched() {
    let mut r = EditRecipe {
        exposure_ev: s(1.5),
        contrast: s(-100.0),
        crop: Some(Crop { left: s(0.1), top: s(0.2), right: s(0.8), bottom: s(0.9) }),
        temperature_k: Some(s(5600.0)),
        ..Default::default()
    };
    let before = r.clone();
    assert!(r.clamp().is_empty());
    assert_eq!(r, before);
}

/// A hue just below nought rounds up to a full turn, which a second clamp makes
/// nought.
#[test]
fn a_hue_that_rounds_up_to_a_turn_is_the_one_that_a_second_clamp_moves() {
    let mut g = ColorGrade { shadow_hue: s(-1e-10), ..Default::default() };
    g.clamp();
    assert_eq!(f(g.shadow_hue), 360.0);
    g.clamp();
    assert_eq!(f(g.shadow_hue), 0.0);
}

#[test]
fn a_validated_recipe_discloses_its_losses() {
    let clean = ValidatedRecipe::new(&EditRecipe::default());
    assert!(clean.disclose().is_none());
    assert!(clean.is_noop());
    let cut = ValidatedRecipe::new(&EditRecipe {
        rationale: "x".repeat(16_390),
        masks: vec![LocalAdjustment::default(); 66],
        ..Default::default()
    });
    assert_eq!(
        cut.disclose().as_deref(),
        Some(
            "recipe limits discarded 2 mask(s) and 0 mask component(s), truncated \
             0 curve point(s) and 6 string byte(s) before rendering"
        )
    );
    assert_eq!(cut.masks.len(), 64);
}

#[test]
fn adherence_has_its_own_bands() {
    assert_eq!(DirectionAdherence::new(s(-3.0)).get().to_bits(), s(0.0).to_bits());
    assert_eq!(DirectionAdherence::new(s(2.0)).get().to_bits(), s(1.0).to_bits());
    let tiers = [0.0, 0.5, 1.0].map(|v| DirectionAdherence::new(s(v)).tier());
    assert_ne!(tiers[0], tiers[2]);
    let want: AdherenceTier = DirectionAdherence::default().tier();
    assert_eq!(want, DirectionAdherence::new(s(f32::NAN)).tier());
    assert_eq!(f(GradeStrength::new(s(0.65)).pct()), 65.0);
}

#[test]
fn an_absent_strength_is_the_default_one() {
    assert_eq!(GradeStrength::from_optional(None).get().to_bits(), DEFAULT);
    assert_eq!(f(GradeStrength::from_optional(Some(s(0.25))).get()), 0.25);
}

#[test]
fn shapes_and_ranges_with_a_nan_are_not_finite() {
    let mut line = MaskGeometry::Linear {
        zero_x: s(0.0),
        zero_y: s(1e30),
        full_x: s(1.0),
        full_y: s(f32::NEG_INFINITY),
    };
    assert!(!geometry_is_finite(&line));
    clamp_geometry(&mut line);
    if let MaskGeometry::Linear { zero_y, .. } = line {
        assert_eq!(f(zero_y), 8.0);
    }
    assert!(range_is_finite(&None));
    assert!(!range_is_finite(&Some(RangeMask::Luminance {
        lo_outer: s(0.0),
        lo: s(0.0),
        hi: s(f32::INFINITY),
        hi_outer: s(1.0),
    })));
}

#[test]
fn a_profile_says_what_it_corrects() {
    let mut p = LensProfile::default();
    assert!(!p.vignette_active() && !p.geometry_active() && p.is_as_stamped());
    p.vignette = singles(&[1.0, 1.3]);
    assert!(!p.vignette_active(), "a switch that is off corrects nothing");
    assert!(!p.is_as_stamped());
    p.vignette_on = true;
    assert!(p.vignette_active() && p.is_as_stamped());
    p.mask_warp = singles(&[1.0, 1.01]);
    p.linear_handle_warp = singles(&[0.99, 1.0]);
    assert_eq!(floats(p.linear_handle_warp()), vec![1.0, 1.01]);
    p.mask_warp_src = MaskWarpSource::DisabledInSidecar;
    assert_eq!(floats(p.linear_handle_warp()), vec![0.99, 1.0]);
}

#[test]
fn names_and_roles() {
    assert_eq!(hsl_bands()[0], "Red");
    assert_eq!(hsl_bands().len(), 8);
    assert_eq!(MaskRole::ZoneSky.tag(), "sky");
    assert_eq!(MaskRole::default().en_name(), None);
    assert_eq!(MaskRole::ZoneSky.en_name(), Some("Sky (reverse-fit)"));
    assert_eq!(MaskCombine::default(), MaskCombine::Add);
    assert!(MaskWarpSource::Lcp.is_solved());
    assert!(!MaskWarpSource::Unparseable.is_solved());
    assert!(Hsl::default().is_neutral() && ColorGrade::default().is_neutral());
}

/// Every raster of a mask can be walked and renamed.
#[test]
fn the_raster_paths_of_a_mask_are_walked_in_order() {
    let mut m = LocalAdjustment {
        mask: MaskGeometry::Bitmap { path: "a".into() },
        components: vec![
            MaskComponent { geometry: brush(vec![]), mode: MaskCombine::Add },
            MaskComponent {
                geometry: MaskGeometry::Bitmap { path: "b".into() },
                mode: MaskCombine::Subtract,
            },
        ],
        ..Default::default()
    };
    let mut seen: Vec<String> = Vec::new();
    let mut from: usize = 0;
    while let Some((at, path)) = m.bitmap_paths_mut(from) {
        seen.push(path.clone());
        path.push('!');
        from = at + 1;
    }
    assert_eq!(seen, vec!["a", "b"]);
    let mut again: Vec<String> = Vec::new();
    let mut from: usize = 0;
    while let Some((at, path)) = m.turnable_raster_paths_mut(from) {
        again.push(path.clone());
        from = at + 1;
    }
    assert_eq!(again, vec!["a!", "b!"]);
}
