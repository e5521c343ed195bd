//! What the stages of a render are made with: film, detail, finish, profile, tone
//! and lens.

use autoshop::detail::{
    captures_original, luminance, max_delta, ChromaNrParams, LumaNrParams, SharpenParams,
};
use autoshop::film::{FilmScale, Ramp};
use autoshop::finish::{
    finishing_rect, framed_crop, hash01, resamples_lens, straightens, value_noise, CropPolicy,
    CropRect, Grain, Style, Vignette,
};
use autoshop::frame::{FrameRun, FrameState, FrameStep};
use autoshop::hdr::{SdrControls, SdrRendition};
use autoshop::heal::Rgb;
use autoshop::homography::Homography;
use autoshop::lens::{lateral_samples, solve_lateral_ca, with_auto_lateral_ca, Window};
use autoshop::profile::{
    blend_calibrations, illuminant_kelvin, illuminant_weight, makes_stage, ShiftTable,
};
use autoshop::recipe::{Crop, EditRecipe, LensProfile};
use autoshop::single::Single;
use autoshop::tone::{adobe_tone, from_hsv, sample, to_hsv, tone_lut, Knot, TONE_LUT};

fn s(x: f32) -> Single {
    Single::from_bits(x.to_bits())
}

fn f(x: Single) -> f32 {
    f32::from_bits(x.to_bits())
}

fn rgb(c: [f32; 3]) -> Rgb<Single> {
    Rgb { r: s(c[0]), g: s(c[1]), b: s(c[2]) }
}

#[test]
fn film_scale_is_the_short_edge_ratio_and_never_below_one() {
    let native = f(FilmScale::native().factor());
    assert_eq!(f(FilmScale::of(Some(6336), 1280, 853).factor()), 6336.0 / 853.0);
    assert_eq!(f(FilmScale::of(Some(4000), 6000, 4000).factor()), native);
    assert_eq!(f(FilmScale::of(Some(100), 6000, 4000).factor()), native, "never above its film");
    assert_eq!(f(FilmScale::of(None, 1280, 853).factor()), native);
    assert_eq!(f(FilmScale::of(Some(6336), 0, 0).factor()), native);
    assert_eq!(f(FilmScale::of(Some(4000), 2000, 1000).raster_px(s(3.0))), 0.75);
}

/// No pass has a plan at an amount of nought.
#[test]
fn no_pass_has_a_plan_at_an_amount_of_nought() {
    let native = FilmScale::native();
    let r = EditRecipe::default();
    assert!(SharpenParams::global(&r, s(1.0), s(25.0)).is_none());
    assert!(LumaNrParams::global(&r, s(50.0)).is_none());
    assert!(ChromaNrParams::global(&r, s(50.0), s(50.0)).is_none());
    let still = SharpenParams { amount: s(0.0), radius: s(1.0), detail: s(0.25), masking: s(0.0) };
    assert!(still.plan(64, 64, native).is_none());
    let still = LumaNrParams { amount: s(0.0), detail: s(0.5), contrast: s(0.0) };
    assert!(still.plan(64, 64, native).is_none());
    let still = ChromaNrParams { amount: s(0.0), detail: s(0.5), smoothness: s(0.5) };
    assert!(still.plan(64, 64, native).is_none());
}

#[test]
fn a_plan_reaches_less_far_on_a_smaller_raster() {
    let p = SharpenParams { amount: s(1.0), radius: s(1.0), detail: s(0.5), masking: s(1.0) };
    let native = p.plan(64, 64, FilmScale::native()).unwrap();
    assert_eq!((f(native.sigma_true), f(native.sigma)), (1.0, 1.0));
    let small = p.plan(64, 64, FilmScale::of(Some(256), 64, 64)).unwrap();
    assert_eq!(f(small.sigma_true), 0.25);
    assert_eq!(f(small.sigma), 0.6, "the radius that is sampled has a floor");
    assert_eq!(f(native.fine), 0.25);
    assert_eq!(f(native.limit), 0.02 + (1.0 - 0.02) * 0.25);
    assert_eq!(f(native.edge_to), 0.04);
    assert_eq!(f(native.edge_from), 0.25 * 0.04);
}

#[test]
fn softening_boosts_no_fine_detail() {
    let r = EditRecipe { sharpen_mask: s(50.0), ..Default::default() };
    let p = SharpenParams::at_amount(&r, s(0.1), s(100.0), s(-40.0));
    assert_eq!(f(p.amount), -0.4);
    assert_eq!(f(p.radius), 0.5);
    assert_eq!(f(p.masking), 0.5);
    let plan = p.plan(8, 8, FilmScale::native()).expect("softening is work");
    assert_eq!(f(plan.fine), 0.0, "no fine detail is boosted where it softens");
}

#[test]
fn noise_reduction_reaches_farther_with_its_amount() {
    let r = EditRecipe { noise_reduction: s(100.0), nr_contrast: s(20.0), ..Default::default() };
    let p = LumaNrParams::global(&r, s(0.0)).unwrap();
    assert_eq!(f(p.contrast), 0.2);
    let plan = p.plan(64, 64, FilmScale::native()).unwrap();
    assert_eq!(plan.radius, 4);
    let noise = (0.004f32 + (0.054 - 0.004) * 1.0) * (1.6f32 + (0.4 - 1.6) * 0.0);
    assert_eq!(f(plan.eps), noise * noise);
    assert!(p.plan(64, 64, FilmScale::of(Some(64 * 20), 64, 64)).is_none(), "below a quarter");
    let r = EditRecipe { color_nr: s(100.0), ..Default::default() };
    let c = ChromaNrParams::global(&r, s(50.0), s(50.0)).unwrap();
    let plan = c.plan(101, 50, FilmScale::native()).unwrap();
    assert_eq!((plan.block, plan.across, plan.down), (6, 17, 9));
    assert_eq!(plan.radius, 3, "sixteen pixels in blocks of six");
    assert_eq!(plan.smooth_radius, 6);
    assert_eq!(f(plan.blend), 1.0);
}

#[test]
fn the_original_is_captured_only_between_the_ends() {
    for (strength, applicable, want) in
        [(0.0, true, false), (1.0, true, false), (0.7, false, false), (0.7, true, true)]
    {
        assert_eq!(captures_original(s(strength), applicable), want, "{strength} {applicable}");
    }
    assert_eq!(f(luminance(rgb([1.0, 0.5, 0.25]), rgb([0.5, 0.25, 0.25]))), 0.6875);
    assert_eq!(max_delta(&vec![1, 200, 3], &vec![4, 190, 3]), 10);
}

#[test]
fn a_ramp_goes_from_one_end_to_the_other() {
    let r = Ramp { from: s(2.0), to: s(6.0) };
    assert_eq!((f(r.at(s(0.0))), f(r.at(s(0.5))), f(r.at(s(1.0)))), (2.0, 4.0, 6.0));
}

// ---- finish ----

#[test]
fn the_finish_is_placed_on_the_crop() {
    let crop = Some(Crop { left: s(0.0), top: s(0.0), right: s(0.5), bottom: s(1.0) });
    let keep = finishing_rect(CropPolicy::Keep, (200, 100), crop);
    assert_eq!((f(keep.cx()), f(keep.cy())), (50.0, 50.0));
    assert_eq!((f(keep.w), f(keep.h)), (100.0, 100.0));
    let cut = finishing_rect(CropPolicy::Cut, (100, 100), crop);
    assert_eq!((f(cut.cx()), f(cut.cy()), f(cut.w), f(cut.h)), (50.0, 50.0, 100.0, 100.0));
    let sliver = Some(Crop { left: s(0.5), top: s(0.0), right: s(0.501), bottom: s(1.0) });
    assert_eq!(f(CropRect::of(200, 100, sliver).w), 200.0, "less than a pixel is no crop");
    assert_eq!(f(CropRect::whole(0, 0).w), 1.0);
}

#[test]
fn a_vignette_is_made_of_its_sliders() {
    let r = EditRecipe { post_crop_vignette: s(-80.0), ..Default::default() };
    let v = Vignette::of(&r, s(50.0), s(50.0), s(1.0)).expect("an amount");
    assert_eq!(f(v.stops), 4.0 * -0.8);
    assert_eq!(f(v.mid), 0.4 + (1.0 - 0.4) * 0.5);
    assert_eq!(f(v.half), 0.02 + (0.6 - 0.02) * 0.5);
    assert_eq!((f(v.exp), f(v.circle)), (2.0, 0.0));
    assert_eq!(v.style, Style::Highlight);
    assert!(Vignette::of(&EditRecipe::default(), s(50.0), s(50.0), s(1.0)).is_none());
}

#[test]
fn a_number_names_a_style() {
    let r = EditRecipe { post_crop_vignette: s(-100.0), ..Default::default() };
    let style = |n: f32| Vignette::of(&r, s(50.0), s(50.0), s(n)).unwrap().style;
    assert_eq!(style(1.0), Style::Highlight);
    assert_eq!(style(2.0), Style::Colour);
    assert_eq!(style(3.0), Style::Paint);
    assert_eq!(style(0.0), Style::Highlight, "a number that names none");
}

#[test]
fn roundness_is_an_exponent_or_a_circle() {
    let shape = |round: f32| {
        let r = EditRecipe {
            post_crop_vignette: s(-100.0),
            post_crop_vignette_round: s(round),
            ..Default::default()
        };
        let v = Vignette::of(&r, s(50.0), s(50.0), s(1.0)).unwrap();
        (f(v.exp), f(v.circle))
    };
    assert_eq!(shape(0.0), (2.0, 0.0));
    assert_eq!(shape(100.0), (2.0, 1.0));
    assert_eq!(shape(-100.0), (6.0, 0.0));
}

#[test]
fn grain_is_sized_in_pixels_of_film() {
    let r = EditRecipe { grain: s(100.0), ..Default::default() };
    let native = Grain::of(&r, s(25.0), s(50.0), FilmScale::native()).unwrap();
    assert_eq!(f(native.sigma), 0.09);
    assert_eq!(f(native.cell), 1.0 + 11.0 * 0.25);
    let small = Grain::of(&r, s(25.0), s(50.0), FilmScale::of(Some(384), 96, 96)).unwrap();
    assert_eq!(f(small.cell), f(native.cell) / 4.0, "film pixels, not raster pixels");
    assert!(Grain::of(&EditRecipe::default(), s(25.0), s(50.0), FilmScale::native()).is_none());
    let noise = |x: f32| f(value_noise(s(x), s(48.5), native.cell, 0));
    for x in 0..96 {
        let v = noise(x as f32);
        assert_eq!(v.to_bits(), noise(x as f32).to_bits());
        assert!((-1.0..=1.0).contains(&v), "{v}");
    }
    assert!((0..96).any(|x| noise(x as f32).abs() > 0.1));
}

/// The hash of a cell, against the same mixing in machine arithmetic.
#[test]
fn the_hash_of_a_cell_is_a_fraction() {
    for (x, y) in [(0i64, 0i64), (3, 7), (-5, 12), (131, -37)] {
        let mut v = (x as i32 as u32).wrapping_mul(0x9E37_79B9)
            ^ (y as i32 as u32).wrapping_mul(0x85EB_CA6B);
        v ^= v >> 15;
        v = v.wrapping_mul(0x2545_F491);
        v ^= v >> 13;
        assert_eq!(f(hash01(x, y)), (v >> 8) as f32 / 16_777_216.0, "({x}, {y})");
    }
}

#[test]
fn the_crop_is_constrained_only_where_it_is_asked_for() {
    let slid = Homography([1.0, 0.0, 0.146, 0.0, 1.0, 0.0, 0.0, 0.0, 1.0].map(s));
    assert_eq!(framed_crop(Some(slid), false, None, (96, 96)), None);
    let held = framed_crop(Some(slid), true, None, (96, 96)).expect("the crop shrinks");
    assert!(f(held.right) - f(held.left) < 1.0);
    assert!(
        ((f(held.right) - f(held.left)) / (f(held.bottom) - f(held.top)) - 1.0).abs() < 0.02,
        "a square crop stays square"
    );
    assert_eq!(framed_crop(None, true, None, (96, 96)), None);
}

#[test]
fn the_frame_comes_in_order_and_ends_on_what_is_left() {
    let slid = Homography([1.0, 0.0, 0.146, 0.0, 1.0, 0.0, 0.0, 0.0, 1.0].map(s));
    let r = EditRecipe { lens_distortion: s(30.0), straighten_deg: s(2.0), ..Default::default() };
    let lens = LensProfile::default();
    let (mut run, step) = FrameRun::new(&lens, &r, true, CropPolicy::Cut);
    assert!(matches!(step, FrameStep::Bend), "the lens comes first");
    assert!(matches!(run.bent(), FrameStep::FindMap));
    let step = run.found(Some(slid), (96, 96));
    assert!(matches!(step, FrameStep::Reshape { map } if map.0 == slid.0));
    assert!(matches!(run.reshaped((96, 96)), FrameStep::Rotate));
    let FrameStep::Cut { crop: Some(c) } = run.rotated((96, 96)) else {
        panic!("the crop is cut behind the rotation");
    };
    assert_eq!(Some(c), framed_crop(Some(slid), true, None, (96, 96)));
    let FrameStep::Finish { rect } = run.cut((80, 80)) else { panic!("and then the finish") };
    assert_eq!((f(rect.x0), f(rect.w), f(rect.h)), (0.0, 80.0, 80.0));
    assert_eq!(run.state, FrameState::Over);
}

#[test]
fn a_frame_at_rest_goes_straight_to_the_finish() {
    let crop = Crop { left: s(0.0), top: s(0.0), right: s(0.5), bottom: s(1.0) };
    let r = EditRecipe { crop: Some(crop), ..Default::default() };
    let lens = LensProfile::default();
    let (mut run, step) = FrameRun::new(&lens, &r, false, CropPolicy::Keep);
    assert!(matches!(step, FrameStep::FindMap), "no lens to bend");
    let FrameStep::Finish { rect } = run.found(None, (200, 100)) else { panic!("nothing to do") };
    assert_eq!((f(rect.cx()), f(rect.cy())), (50.0, 50.0), "placed on the crop");
    assert_eq!(run.state, FrameState::Over);
}

#[test]
fn a_frame_is_resampled_only_where_something_moves_it() {
    assert!(!resamples_lens(&LensProfile::default(), s(0.0)));
    assert!(resamples_lens(&LensProfile::default(), s(-1.0)));
    let bent = LensProfile {
        distortion: vec![s(1.0), s(0.9)],
        distortion_on: true,
        ..Default::default()
    };
    assert!(resamples_lens(&bent, s(0.0)));
    assert!(straightens(s(0.1)) && !straightens(s(-0.0)));
}

// ---- profile and tone ----

fn flat(delta: [f32; 3]) -> ShiftTable {
    ShiftTable { hue: 2, sat: 2, val: 1, data: vec![rgb(delta); 4] }
}

#[test]
fn the_calibrations_blend_by_the_frames_own_white_balance() {
    let first = Some(flat([0.0, 1.0, 1.0]));
    let second = Some(flat([60.0, 1.0, 1.0]));
    let shift = |k: Option<f32>, codes: (u16, u16)| {
        let w = illuminant_weight(k.map(s), Some(codes.0), Some(codes.1));
        f(blend_calibrations(&first, &second, w).expect("a blend").data[0].r)
    };
    let at = |k: f32| shift(Some(k), (17, 21));
    assert!((at(2856.0) - 0.0).abs() < 1e-3, "at the first illuminant: {}", at(2856.0));
    assert!((at(6504.0) - 60.0).abs() < 1e-3, "at the second: {}", at(6504.0));
    let mid = 1.0 / ((1.0 / 2856.0 + 1.0 / 6504.0) / 2.0);
    assert!((at(mid) - 30.0).abs() < 0.5, "reciprocal midpoint {mid:.0} K gave {}", at(mid));
    assert!(at(4680.0) > 30.0, "a linear blend would read 30 here, not {}", at(4680.0));
    assert!(shift(None, (17, 21)).abs() < 1e-6);
    assert!(shift(Some(6000.0), (21, 21)).abs() < 1e-6);
    assert_eq!(illuminant_kelvin(17).map(f), Some(2856.0));
    assert_eq!(illuminant_kelvin(255), None);
    let other = Some(ShiftTable { hue: 1, sat: 4, val: 1, data: vec![rgb([9.0, 1.0, 1.0]); 4] });
    assert_eq!(f(blend_calibrations(&first, &other, s(0.5)).unwrap().data[0].r), 0.0);
    assert!(blend_calibrations(&None, &None, s(0.5)).is_none());
}

#[test]
fn the_tone_curve_is_applied_adobes_way_and_not_per_channel() {
    let lut: Vec<Single> =
        (0..TONE_LUT).map(|i| s((i as f32 / (TONE_LUT - 1) as f32).powf(0.5))).collect();
    let got = adobe_tone([s(0.64), s(0.25), s(0.04)], &lut).map(f);
    assert!((got[0] - 0.8).abs() < 2e-3, "brightest: {got:?}");
    assert!((got[2] - 0.2).abs() < 2e-3, "darkest: {got:?}");
    assert!((got[1] - 0.41).abs() < 3e-3, "middle, placed proportionally: {got:?}");
    assert!((got[1] - 0.5).abs() > 0.05, "this is the per-channel answer, not Adobe's");
    let grey = adobe_tone([s(0.25), s(0.25), s(0.25)], &lut).map(f);
    assert!(grey.iter().all(|c| (c - 0.5).abs() < 2e-3), "a grey stays grey: {grey:?}");
}

#[test]
fn the_hsv_round_trip_survives_grey_black_and_the_hue_wrap() {
    for px in [
        [0.3f32, 0.3, 0.3],
        [0.0, 0.0, 0.0],
        [1.0, 0.0, 0.0],
        [0.0, 1.0, 0.0],
        [0.0, 0.0, 1.0],
        [0.51, 0.02, 0.77],
        [0.9, 0.9, 0.1],
    ] {
        let hsv = to_hsv(rgb(px));
        assert!(f(hsv.h).is_finite() && (0.0..360.0).contains(&f(hsv.h)), "{px:?} {hsv:?}");
        assert!((0.0..=1.0).contains(&f(hsv.s)), "{px:?} {hsv:?}");
        let back = from_hsv(hsv);
        let back = [f(back.r), f(back.g), f(back.b)];
        for ch in 0..3 {
            assert!((back[ch] - px[ch]).abs() < 1e-5, "{px:?} {hsv:?} {back:?}");
        }
    }
    assert_eq!(f(to_hsv(rgb([0.42, 0.42, 0.42])).s), 0.0);
    let black = to_hsv(rgb([0.0, 0.0, 0.0]));
    assert_eq!([f(black.h), f(black.s), f(black.v)], [0.0, 0.0, 0.0]);
}

#[test]
fn the_tone_lookup_refuses_a_curve_it_cannot_read() {
    let curve = |k: &[[f32; 2]]| {
        tone_lut(&k.iter().map(|p| Knot { x: s(p[0]), y: s(p[1]) }).collect())
    };
    assert!(curve(&[]).is_none(), "no knots");
    assert!(curve(&[[0.0, 0.0]]).is_none(), "one knot is not a curve");
    assert!(curve(&[[0.5, 0.1], [0.5, 0.9]]).is_none(), "a zero-width span");
    assert!(curve(&[[-1.0, 0.0], [2.0, 1.0], [0.5, 0.7]]).is_none(), "one usable knot");
    let lut = curve(&[[0.0, 0.0], [0.25, 0.5], [1.0, 1.0]]).expect("a real curve");
    assert_eq!(lut.len(), TONE_LUT);
    assert!(f(lut[0]).abs() < 1e-6 && (f(lut[TONE_LUT - 1]) - 1.0).abs() < 1e-6);
    assert!(f(lut[TONE_LUT / 4]) > 0.4, "the knot at 0.25 lifts to ~0.5");
    assert!(curve(&[[0.0, 0.0], [1.0, 1.0]]).is_none(), "a straight line is not a curve");
    assert!(
        curve(&[[0.0, 0.0], [0.25, 0.25], [0.5, 0.5], [1.0, 1.0]]).is_none(),
        "nor is a straight line with more points on it"
    );
    assert_eq!(f(sample(&lut, s(0.0))), 0.0);
    let top = [0.0, 0.5, 0.8].map(s).to_vec();
    assert!((f(sample(&top, s(2.0))) - 1.4).abs() < 1e-6, "on at the slope of the top");
    assert_eq!(f(sample(&top, s(1.0))), 0.8);
    assert_eq!(f(sample(&vec![s(0.7)], s(3.0))), 0.7, "one sample has no slope");
    let straight = curve(&[[0.0, 0.0], [1.0, 1.0]]).is_some();
    assert!(
        !makes_stage(false, false, straight, s(1.0)),
        "an identity curve is the whole profile here, so there is nothing to apply"
    );
}

// ---- lens ----

#[test]
fn a_window_follows_its_sliders() {
    let r = EditRecipe {
        defringe_purple: s(10.0),
        defringe_purple_lo: s(0.0),
        defringe_purple_hi: s(100.0),
        ..Default::default()
    };
    let w = Window::purple(&r).expect("an amount");
    assert!((f(w.lo) - 220.0 / 360.0).abs() < 1e-6, "{}", f(w.lo));
    assert_eq!(f(w.hi), 1.0);
    assert_eq!(f(w.strength), 0.5);
    assert!(Window::green(&r).is_none(), "each window has its own amount");
    let narrow = EditRecipe { defringe_purple_lo: s(100.0), ..r.clone() };
    assert!(Window::purple(&narrow).is_none(), "no hue is left between the sliders");
    assert!(Window::purple(&EditRecipe::default()).is_none(), "0 moves nothing");
    let low = Window::purple(&EditRecipe { defringe_purple_lo: s(85.0), ..r }).unwrap();
    assert!(f(low.unrolled(s(0.01))) > 1.0, "a hue past the wrap is unrolled");
    assert_eq!(f(low.unrolled(low.hi)), f(low.hi));
}

/// The shift of a channel at one unit of its slider, in these frames.
const PER_UNIT: f32 = 0.0002;

fn rings(w: usize, h: usize, scale_r: f32, scale_b: f32) -> Vec<[f32; 3]> {
    let (cx, cy) = ((w as f32 - 1.0) * 0.5, (h as f32 - 1.0) * 0.5);
    let rmax = (cx * cx + cy * cy).sqrt();
    let ring = |rn: f32| 0.5 + 0.34 * (rn * 28.0).sin();
    (0..h)
        .flat_map(|y| (0..w).map(move |x| (x, y)))
        .map(|(x, y)| {
            let rn = ((x as f32 - cx).powi(2) + (y as f32 - cy).powi(2)).sqrt() / rmax;
            [ring(rn / scale_r), ring(rn), ring(rn / scale_b)]
        })
        .collect()
}

/// The line through the samples, summed in doubles.
fn fitted(data: &[[f32; 3]], w: usize, h: usize) -> (f32, f32) {
    let px: Vec<Rgb<Single>> = data.iter().map(|p| rgb(*p)).collect();
    let samples = lateral_samples(&px, w, h);
    let n = samples.len();
    let sum = |g: fn(&autoshop::lens::LateralSample) -> Single| -> f64 {
        samples.iter().map(|v| f(g(v)) as f64).sum()
    };
    let (sx, sxx) = (sum(|v| v.lever), sum(|v| v.lever_squared));
    let denom = n as f64 * sxx - sx * sx;
    let slope = |sy: f64, sxy: f64| ((n as f64 * sxy - sx * sy) / denom) as f32;
    let errors = if denom.abs() < 1e-9 {
        None
    } else {
        Some((
            s(slope(sum(|v| v.red), sum(|v| v.lever_red))),
            s(slope(sum(|v| v.blue), sum(|v| v.lever_blue))),
        ))
    };
    let (r, b) = solve_lateral_ca(n, errors, s(PER_UNIT));
    (f(r), f(b))
}

#[test]
fn the_solver_reads_a_magnified_channel_in_the_manual_sliders_own_units() {
    let (w, h) = (129, 129);
    let units = 12.0;
    let data = rings(w, h, 1.0 + units * PER_UNIT, 1.0);
    let (dr, db) = fitted(&data, w, h);
    assert!((dr.abs() - units).abs() <= 3.0, "about {units} units, not {dr}");
    assert!(db.abs() <= 2.0, "and the blue channel, which is aligned, as nothing: {db}");
}

#[test]
fn a_colour_cast_is_not_a_chromatic_aberration() {
    let (w, h) = (129, 129);
    let mut data = rings(w, h, 1.0, 1.0);
    for px in data.iter_mut() {
        px[0] = (px[0] + 0.12).min(1.0);
        px[2] = (px[2] - 0.08).max(0.0);
    }
    let (dr, db) = fitted(&data, w, h);
    assert!(dr.abs() <= 2.0 && db.abs() <= 2.0, "the intercept must absorb a cast: {dr} {db}");
}

#[test]
fn the_switch_at_rest_borrows_the_recipe_and_a_flat_frame_says_nothing() {
    let (w, h) = (64, 64);
    let flat = vec![[0.5, 0.5, 0.5]; w * h];
    assert_eq!(fitted(&flat, w, h), (0.0, 0.0), "no edges, no estimate");
    let with_auto = |mut r: EditRecipe, data: &[[f32; 3]], side: usize| {
        let (red, blue) = fitted(data, side, side);
        with_auto_lateral_ca(&mut r, (s(red), s(blue)));
        r
    };
    let off = with_auto(EditRecipe::default(), &flat, w);
    assert_eq!(off, EditRecipe::default(), "a photo that never asked is left alone");
    let data = rings(129, 129, 1.0 + 12.0 * PER_UNIT, 1.0);
    let on = EditRecipe { auto_lateral_ca: true, ..Default::default() };
    let bare = with_auto(on, &data, 129);
    assert!(f(bare.ca_r) != 0.0, "the probe must give the solver something to say: {bare:?}");
    let manual = EditRecipe { auto_lateral_ca: true, ca_r: s(5.0), ..Default::default() };
    let solved = with_auto(manual, &data, 129);
    assert_eq!(
        f(solved.ca_r),
        f(bare.ca_r) + 5.0,
        "the manual 5 must still be in there with the solver's {} on top",
        f(bare.ca_r)
    );
    assert_eq!(f(solved.ca_b), f(bare.ca_b), "an untouched manual blue keeps the bare answer");
}

#[test]
fn a_solved_shift_stays_on_its_slider_and_needs_evidence() {
    let mut off = EditRecipe::default();
    with_auto_lateral_ca(&mut off, (s(-12.0), s(3.0)));
    assert_eq!(off, EditRecipe::default(), "nobody asked");
    let mut full = EditRecipe { auto_lateral_ca: true, ca_b: s(95.0), ..Default::default() };
    with_auto_lateral_ca(&mut full, (s(0.0), s(20.0)));
    assert_eq!(f(full.ca_b), 100.0);
    assert_eq!(solve_lateral_ca(63, Some((s(0.1), s(0.1))), s(PER_UNIT)), (s(0.0), s(0.0)));
}

// ---- headroom ----

#[test]
fn a_rendition_needs_headroom_and_something_to_do() {
    let rest = SdrControls {
        hdr_edit: true,
        max_ev: s(0.0),
        blend: s(0.0),
        brightness: s(0.0),
        contrast: s(0.0),
        highlights: s(0.0),
        shadows: s(0.0),
        whites: s(0.0),
        clarity: s(0.0),
    };
    assert!(SdrRendition::global(&rest).is_none());
    let stops = SdrRendition::global(&SdrControls { max_ev: s(2.0), blend: s(-50.0), ..rest });
    assert_eq!(f(stops.unwrap().stops), 1.0);
    let clear = SdrRendition::global(&SdrControls { clarity: s(300.0), ..rest }).unwrap();
    assert!(!clear.tonal);
    assert_eq!(f(clear.clarity), 1.0);
    assert!(SdrRendition::global(&SdrControls { hdr_edit: false, max_ev: s(2.0), ..rest }).is_none());
}

/// Exchanging red and blue exchanges what is said of them.
#[test]
fn a_picture_with_red_and_blue_exchanged_says_so() {
    let (w, h) = (24usize, 16usize);
    let at = |x: usize, y: usize| {
        let g = if (x / 4 + y / 5) % 2 == 0 { 3.0 } else { 250.0 };
        [g + x as f32 * 0.5, g, g - y as f32 * 0.25]
    };
    let there: Vec<[f32; 3]> = (0..w * h).map(|i| at(i % w, i / w)).collect();
    let here: Vec<[f32; 3]> = there.iter().map(|p| [p[2], p[1], p[0]]).collect();
    let samples = |px: &[[f32; 3]]| {
        lateral_samples(&px.iter().map(|p| rgb(*p)).collect(), w, h)
    };
    let (a, b) = (samples(&there), samples(&here));
    assert!(!a.is_empty() && a.len() == b.len());
    for (p, q) in a.iter().zip(&b) {
        assert_eq!((p.lever, p.red, p.blue), (q.lever, q.blue, q.red));
        assert_eq!((p.lever_red, p.lever_blue), (q.lever_blue, q.lever_red));
    }
    let level: Vec<[f32; 3]> = (0..w * h).map(|i| [i as f32, 7.0, 1.0]).collect();
    assert!(samples(&level).is_empty(), "a level green says nothing");
    let (r, b) = solve_lateral_ca(64, Some((s(0.1), s(-0.0011))), s(PER_UNIT));
    assert_eq!((f(r), f(b)), (-100.0, 6.0), "whole steps, to the ends of the slider");
}
