//! What the passes do to a pixel, against the machine's own arithmetic.

use autoshop::film::FilmScale;
use autoshop::finish::{value_noise, CropRect, Grain, Style, Vignette};
use autoshop::heal::Rgb;
use autoshop::lens::Window;
use autoshop::patches::{block_means, contrast_around, extremes, total, Rect};
use autoshop::pixels::{
    among_blocks, boost, colour_fit, fade, fringe_amount, gradient, lifted, membership,
    recoloured, returned, self_fit, shoulder, smoothed, tone_of, variance,
};
use autoshop::planes::{left_over, products, squares, variances, Lines};
use autoshop::profile::{
    blend_calibrations, exposed, illuminant_weight, lifted_to_zero, makes_stage,
};
use autoshop::recipe::EditRecipe;
use autoshop::single::Single;
use autoshop::tone::{tone_lut, Knot};

fn s(x: f32) -> Single {
    Single::from_bits(x.to_bits())
}

fn f(x: Single) -> f32 {
    f32::from_bits(x.to_bits())
}

fn rgb(c: [f32; 3]) -> Rgb<Single> {
    Rgb { r: s(c[0]), g: s(c[1]), b: s(c[2]) }
}

fn floats(c: Rgb<Single>) -> [f32; 3] {
    [f(c.r), f(c.g), f(c.b)]
}

fn plane(v: &[f32]) -> Vec<Single> {
    v.iter().map(|x| s(*x)).collect()
}

#[test]
fn sharpening_lifts_a_step_and_leaves_a_flat_field() {
    let near = [0.3f32, 0.3, 0.3, 0.6];
    let b = boost(s(0.6), s(0.45), near.map(s), s(0.25), s(1.5));
    let mean = 0.25 * (0.3f32 + 0.3 + 0.3 + 0.6);
    assert_eq!(f(b), 1.5 * ((0.6f32 - 0.45) + 0.25 * (0.6 - mean)));
    assert!(f(lifted(s(0.6), b, None, s(1.0))) > 0.6);
    let flat = boost(s(0.4), s(0.4), [0.4f32; 4].map(s), s(0.5), s(1.5));
    assert_eq!(f(lifted(s(0.4), flat, Some(s(0.7)), s(1.0))), 0.4);
    assert_eq!(f(boost(s(0.6), s(0.5), near.map(s), s(0.0), s(2.0))), 2.0 * (0.6f32 - 0.5));
}

#[test]
fn masking_reads_the_gradient_to_a_pixel_of_film() {
    let p = plane(&[0.0, 0.5, 1.0, 0.0, 0.5, 1.0]);
    assert_eq!(f(gradient(&p, 1, 0, 3, 2, FilmScale::native())), 0.5);
    assert_eq!(f(gradient(&p, 0, 1, 3, 2, FilmScale::native())), 0.25, "the edge repeats");
    assert_eq!(f(gradient(&p, 1, 1, 3, 2, FilmScale::of(Some(8), 3, 2))), 0.125);
}

#[test]
fn a_flat_neighbourhood_takes_its_mean_and_an_edge_keeps_its_value() {
    assert_eq!(f(variance(s(0.25), s(0.5))), 0.0);
    assert_eq!(f(variance(s(0.2), s(0.5))), 0.0, "never below nought");
    let flat = self_fit(s(0.25), s(0.5), s(0.001));
    assert_eq!((f(flat.slope), f(flat.offset)), (0.0, 0.5));
    let edge = self_fit(s(0.5), s(0.5), s(0.0));
    assert_eq!((f(edge.slope), f(edge.offset)), (1.0, 0.0));
    assert_eq!(f(edge.at(s(0.75))), 0.75);
    let c = colour_fit(s(0.3), s(0.5), s(0.4), s(0.09), s(0.01));
    let slope = (0.3f32 - 0.5 * 0.4) / (0.09 + 0.01);
    assert_eq!((f(c.slope), f(c.offset)), (slope, 0.4 - slope * 0.5));
    assert_eq!(f(smoothed(s(0.5), s(0.75), None, s(1.0), s(0.5))), 0.625);
    assert_eq!(f(smoothed(s(0.5), s(0.25), Some(s(0.5)), s(0.5), s(1.0))), 0.5);
}

#[test]
fn colour_moves_and_brightness_stays() {
    let px = [0.5f32, 0.4, 0.3];
    let l = 0.299f32 * px[0] + 0.587 * px[1] + 0.114 * px[2];
    let out = floats(recoloured(rgb(px), s(l), s(0.0), s(0.0), s(1.0)));
    for c in out {
        assert!((c - l).abs() < 1e-6, "a full blend to no colour is grey: {out:?}");
    }
    let same = floats(recoloured(rgb(px), s(l), s(0.9), s(0.9), s(0.0)));
    for (a, b) in same.iter().zip(px) {
        assert!((a - b).abs() < 1e-6, "no blend, no change: {same:?}");
    }
    assert_eq!(f(among_blocks(3, 2)), (3.0 + 0.5) / 2.0 - 0.5);
}

#[test]
fn the_means_of_blocks() {
    let p = plane(&[1.0, 3.0, 5.0, 1.0, 3.0, 5.0, 8.0, 8.0, 2.0]);
    let m: Vec<f32> = block_means(&p, 3, 3, 2).into_iter().map(f).collect();
    assert_eq!(m, vec![2.0, 5.0, 8.0, 2.0]);
    let r = Rect { w: 3, x: 1, y: 1, cw: 2, ch: 2 };
    assert_eq!(f(total(&p, &r)), 3.0 + 5.0 + 8.0 + 2.0);
    let (lo, hi) = extremes(&p, &r);
    assert_eq!((f(lo), f(hi)), (2.0, 8.0));
    assert_eq!(f(contrast_around(&p, 0, 0, 3, 3)), 2.0);
    assert_eq!(f(contrast_around(&p, 1, 1, 3, 3)), 7.0);
    assert_eq!(f(contrast_around(&p, 2, 2, 3, 3)), 6.0);
}

fn vignetted(amount: f32, round: f32, style: f32, hl: f32) -> Vignette {
    let r = EditRecipe {
        post_crop_vignette: s(amount),
        post_crop_vignette_round: s(round),
        post_crop_vignette_hl: s(hl),
        ..Default::default()
    };
    Vignette::of(&r, s(50.0), s(50.0), s(style)).unwrap()
}

#[test]
fn the_contour_is_the_same_on_both_sides_of_the_middle() {
    let rect = CropRect::whole(100, 100);
    let v = vignetted(-100.0, 0.0, 1.0, 0.0);
    for (a, b) in [((5, 50), (94, 50)), ((50, 5), (50, 94)), ((10, 10), (89, 89))] {
        let at = |p: (u32, u32)| {
            f(Vignette::elliptic(v.reach(rect, s(p.0 as f32 + 0.5), s(p.1 as f32 + 0.5))))
        };
        // The middle itself is half a pixel from both of its neighbours.
        if a.0 != 50 && a.1 != 50 {
            assert_eq!(at(a), at(b), "{a:?} against {b:?}");
        }
        assert!((at(a) - at(b)).abs() < 1e-3);
    }
    let corner = f(Vignette::elliptic(v.reach(rect, s(100.0), s(100.0))));
    assert!((corner - 1.0).abs() < 1e-6, "one at the corner: {corner}");
    let (from, to) = v.ends();
    assert_eq!(f(from), f(v.mid) - f(v.half));
    assert_eq!(f(to), f(v.mid) + f(v.half));
    let wide = CropRect::whole(200, 100);
    let circle = vignetted(-100.0, 100.0, 1.0, 0.0);
    let (u, w) = circle.reach(wide, s(200.0), s(100.0));
    assert_eq!((f(u), f(w)), (2.0, 1.0), "a circle in the short side");
}

#[test]
fn a_painted_vignette_mixes_in_black_or_white() {
    let dark = vignetted(-50.0, 0.0, 3.0, 0.0);
    assert_eq!(dark.style, Style::Paint);
    assert_eq!(floats(dark.paint(rgb([1.0, 0.5, 0.0]), s(1.0))), [0.5, 0.25, 0.0]);
    let light = vignetted(100.0, 0.0, 3.0, 0.0);
    assert_eq!(floats(light.paint(rgb([1.0, 0.5, 0.0]), s(1.0))), [1.0, 1.0, 1.0]);
    assert_eq!(floats(light.paint(rgb([0.2, 0.5, 0.0]), s(0.0))), [0.2, 0.5, 0.0]);
}

#[test]
fn only_a_darkening_vignette_spares_highlights() {
    let dark = vignetted(-100.0, 0.0, 1.0, 100.0);
    assert_eq!(f(dark.exposure(s(1.0), s(1.0))), 0.0, "all of it is spared");
    assert_eq!(f(dark.exposure(s(1.0), s(0.0))), -4.0);
    let light = vignetted(100.0, 0.0, 1.0, 100.0);
    assert_eq!(f(light.exposure(s(0.5), s(1.0))), 2.0);
    assert_eq!(f(dark.level(s(0.2), s(0.6))), 0.2);
    assert_eq!(f(vignetted(-100.0, 0.0, 2.0, 100.0).level(s(0.2), s(0.6))), 0.6);
}

#[test]
fn grain_is_one_offset_for_all_channels() {
    let g = Grain { sigma: s(0.09), cell: s(2.5), rough: s(0.5) };
    let px = [0.3f32, 0.5, 0.7];
    let out = floats(g.apply(rgb(px), s(13.0), s(7.0), s(1.0)));
    let clump = 1.0 + 0.5 * f(value_noise(s(13.0), s(7.0), s(10.0), 7));
    let d = 0.09 * f(value_noise(s(13.0), s(7.0), s(2.5), 0)) * clump.max(0.0) * 1.0;
    assert_eq!(out, px.map(|c| (c + d).clamp(0.0, 1.0)));
    assert_eq!(floats(g.apply(rgb(px), s(13.0), s(7.0), s(0.0))), px, "no grain in pure tones");
    assert_eq!(f(tone_of(rgb([0.3, 0.6, 0.9]))), (0.3 + 0.6 + 0.9) / 3.0);
}

#[test]
fn a_fringe_fades_by_its_amount() {
    let window = |amount: f32| Window::of(s(amount), s(30.0), s(70.0), s(0.6), s(1.0));
    let full = fringe_amount((window(20.0), s(1.0)), (None, s(0.0)), s(1.0), s(1.0));
    let half = fringe_amount((window(10.0), s(1.0)), (None, s(0.0)), s(1.0), s(1.0));
    assert_eq!((f(full), f(half)), (1.0, 0.5));
    let off_edge = fringe_amount((window(20.0), s(1.0)), (None, s(0.0)), s(0.0), s(1.0));
    assert_eq!(f(off_edge), 0.0);
    let both = fringe_amount((window(20.0), s(1.0)), (window(20.0), s(1.0)), s(0.5), s(0.5));
    assert_eq!(f(both), 0.25, "both windows together ask for no more than all");
    let px = rgb([0.62, 0.30, 0.86]);
    assert_eq!(floats(fade(px, s(0.4), full)), [0.4, 0.4, 0.4]);
    assert_eq!(floats(fade(px, s(0.4), s(0.0))), [0.62, 0.30, 0.86]);
    assert_eq!(f(membership(s(0.8), s(0.25))), 0.8 * 0.75);
}

#[test]
fn the_shoulder_brings_the_headroom_in() {
    assert_eq!(f(shoulder(s(0.0), s(4.0))), 0.0);
    assert_eq!(f(shoulder(s(4.0), s(4.0))), 1.0, "the white point becomes white");
    assert_eq!(f(shoulder(s(0.5), s(1.0))), 0.5, "without headroom nothing moves");
}

#[test]
fn brightness_returns_by_its_share() {
    let clean = [0.2f32, 0.35, 0.1];
    for k in 0..=10 {
        let share = k as f32 / 10.0;
        let out = floats(returned(rgb(clean), s(0.3), s(0.33), s(share)));
        let delta = share * (0.33f32 - 0.3);
        assert_eq!(out, clean.map(|c| c + delta));
        assert_eq!(floats(returned(rgb(clean), s(0.3), s(0.3), s(share))), clean);
    }
}

fn builds_a_stage(curve: &[[f32; 2]]) -> bool {
    let weight = illuminant_weight(Some(s(5500.0)), Some(17), Some(21));
    let hue_sat = blend_calibrations(&None, &None, weight);
    let tone = tone_lut(&curve.iter().map(|k| Knot { x: s(k[0]), y: s(k[1]) }).collect());
    makes_stage(hue_sat.is_some(), false, tone.is_some(), s(1.0))
}

#[test]
fn a_profile_with_no_tables_and_no_curve_is_not_a_stage() {
    assert!(!builds_a_stage(&[]), "nothing to apply");
    assert!(
        !builds_a_stage(&[[0.0, 0.0], [0.5, 0.5], [1.0, 1.0]]),
        "an identity curve is not a curve"
    );
    assert!(builds_a_stage(&[[0.0, 0.0], [0.5, 0.62], [1.0, 1.0]]), "a real curve builds a stage");
}

#[test]
fn a_stage_exposes_after_lifting_to_nought() {
    assert!(makes_stage(false, false, false, s(0.5)), "an exposure alone makes a stage");
    assert_eq!(floats(lifted_to_zero(rgb([-0.1, 0.2, 0.3]))), [0.0, 0.2, 0.3]);
    assert_eq!(floats(exposed(rgb([0.4, 0.2, 0.6]), s(0.5))), [0.2, 0.1, 0.3]);
}

#[test]
fn a_plane_is_fitted_place_by_place() {
    let a = plane(&[0.5, 0.25, 1.0]);
    let b = plane(&[2.0, 4.0, 0.5]);
    let floats = |v: Vec<Single>| -> Vec<f32> { v.into_iter().map(f).collect() };
    assert_eq!(floats(squares(&a)), vec![0.25, 0.0625, 1.0]);
    assert_eq!(floats(products(&a, &b)), vec![1.0, 1.0, 0.5]);
    assert_eq!(floats(left_over(&b, &a)), vec![1.5, 3.75, -0.5]);
    assert_eq!(floats(variances(&squares(&a), &plane(&[0.5, 0.5, 0.5]))), vec![0.0, 0.0, 0.75]);
    let lines = Lines::to_itself(&plane(&[0.25, 0.5]), &plane(&[0.5, 0.5]), s(0.25));
    assert_eq!(floats(lines.along(&plane(&[0.9, 1.0]))), vec![0.5, 0.75]);
    let guided = Lines::to_guide(
        &plane(&[0.5]),
        &plane(&[0.5]),
        &plane(&[0.5]),
        &plane(&[0.25]),
        s(0.25),
    );
    assert_eq!((floats(guided.slopes), floats(guided.offsets)), (vec![0.5], vec![0.25]));
}

/// A pixel that fades to its own grey, all the way or part of it, stays as bright.
#[test]
fn fading_keeps_the_brightness_of_a_pixel() {
    let bright = |c: [f32; 3]| 0.299 * c[0] + 0.587 * c[1] + 0.114 * c[2];
    for px in [[0.62, 0.30, 0.86], [0.1, 0.9, 0.4], [1.0, 0.0, 0.0]] {
        for amount in [0.25, 0.5, 1.0] {
            let faded = floats(fade(rgb(px), s(bright(px)), s(amount)));
            assert!((bright(faded) - bright(px)).abs() < 3e-6, "{px:?} by {amount}: {faded:?}");
        }
    }
}
