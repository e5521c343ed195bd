//! Spots: planned from a mask, proposed by a model, and healed.

use autoshop::bits::Bits;
use autoshop::detect::{
    extract_text, image_url, picture_url, responses_url, strip_fence, tidy_spots, Json,
};
use autoshop::heal::{find_donor, heal_image, Compass, HealDepth, Raster, Rgb};
use autoshop::master::{
    base_cap, deep_color, detection_cap, flattens, has_alpha, master_extension, reattach_alpha,
    split_alpha, staged_extension, ColorKind,
};
use autoshop::painted::{plan_from_mask, PaintedMask};
use autoshop::retouch::{clone_stamp, heal, Detection, HealReport};
use autoshop::single::Single;
use autoshop::spots::{HealNote, HealSpot, RetouchPlan, SpotCoverage};

fn s(x: f32) -> Single {
    Single::from_bits(x.to_bits())
}

fn f(x: Single) -> f32 {
    f32::from_bits(x.to_bits())
}

fn compass() -> Compass {
    let turn = std::f32::consts::TAU;
    let at = |k: usize, n: usize| {
        let a = k as f32 / n as f32 * turn;
        (s(a.cos()), s(a.sin()))
    };
    Compass {
        around: (0..16).map(|k| at(k, 16)).collect(),
        ring: (0..24).map(|k| at(k, 24)).collect(),
    }
}

fn grey<T: Copy>(v: T) -> Rgb<T> {
    Rgb { r: v, g: v, b: v }
}

fn field<T: Copy>(w: u32, h: u32, p: Rgb<T>) -> Raster<T> {
    Raster { width: w, height: h, pixels: vec![p; (w * h) as usize] }
}

fn put<T>(img: &mut Raster<T>, x: u32, y: u32, p: Rgb<T>) {
    let i = (y * img.width + x) as usize;
    img.pixels[i] = p;
}

fn get<T: HealDepth>(img: &Raster<T>, x: u32, y: u32) -> Rgb<T> {
    img.pixels[(y * img.width + x) as usize]
}

fn spot(cx: f32, cy: f32, radius: f32) -> HealSpot {
    HealSpot { cx: s(cx), cy: s(cy), radius: s(radius), ..Default::default() }
}

fn opaque(w: u32, h: u32) -> PaintedMask {
    PaintedMask { width: w, height: h, alpha: vec![255; (w * h) as usize] }
}

fn paint(m: &mut PaintedMask, x: u32, y: u32) {
    let i = (y * m.width + x) as usize;
    m.alpha[i] = 0;
}

#[test]
fn an_out_of_bounds_clone_donor_is_dropped_not_edge_replicated() {
    let mut img = field(32, 32, grey(200u8));
    for y in 0..32 {
        put(&mut img, 0, y, Rgb { r: 255, g: 0, b: 0 });
    }
    let spots = vec![HealSpot {
        cx: s(0.5),
        cy: s(0.5),
        radius: s(0.1),
        feather: s(0.0),
        source: Some((s(-2.0), s(0.0))),
        coverage: None,
        clone_raw: true,
        label: "clone".into(),
    }];
    heal_image(&mut img, &spots, &compass());
    assert_eq!(get(&img, 16, 16), grey(200));
}

#[test]
fn heal_engine_runs_at_sixteen_bits() {
    let mut img = field(64, 64, grey(30000u16));
    for y in 28..36 {
        for x in 28..36 {
            put(&mut img, x, y, grey(500));
        }
    }
    heal_image(&mut img, &vec![spot(0.5, 0.5, 7.0 / 64.0)], &compass());
    let c = get(&img, 32, 32);
    assert!(c.r > 20000, "healed centre must approach the 16-bit grey, got {c:?}");
}

/// The parts of the run in order: the mask is planned, the colours are healed at
/// sixteen bits, and the transparency comes back as it was.
#[test]
fn heal_keeps_bit_depth_and_alpha_and_stages_the_master() {
    let (w, h) = (64u32, 64u32);
    let mut img = field(w, h, grey(30000u16));
    let mut alpha: Vec<u16> = Vec::new();
    for y in 0..h {
        for x in 0..w {
            if (28..36).contains(&x) && (28..36).contains(&y) {
                put(&mut img, x, y, grey(500));
            }
            alpha.push((x * 1000).min(65535) as u16);
        }
    }
    let mut mask = opaque(w, h);
    for y in 26..38 {
        for x in 26..38 {
            paint(&mut mask, x, y);
        }
    }
    let run = heal(Some(&mask), Detection::Off).unwrap();
    assert!(deep_color(ColorKind::Rgba16) && has_alpha(ColorKind::Rgba16));
    let aside = split_alpha(&alpha);
    heal_image(&mut img, &run.spots, &compass());
    let rep = HealReport::of(run, (w, h));
    assert!(rep.spots >= 1);
    let out = reattach_alpha(&img, &aside);
    let c = out[(32 * w + 32) as usize];
    assert!(c.r > 20000, "defect healed in the 16-bit domain, got {c:?}");
    assert_eq!(c.a, 32 * 1000, "alpha rides through untouched");
    assert_eq!(staged_extension(&master_extension(Some("PNG")), 7, 3), "png.tmp.7.3");
}

#[test]
fn heal_replaces_a_spot_with_surroundings() {
    let mut img = field(64, 64, grey(128u8));
    for y in 28..36 {
        for x in 28..36 {
            put(&mut img, x, y, grey(0));
        }
    }
    let spots = vec![HealSpot {
        feather: s(0.4),
        label: "x".into(),
        ..spot(0.5, 0.5, 7.0 / 64.0)
    }];
    heal_image(&mut img, &spots, &compass());
    let c = get(&img, 32, 32);
    assert!(c.r > 100, "healed centre should approach gray, got {c:?}");
}

#[test]
fn heal_with_explicit_source_removes_a_defect() {
    let mut img = field(40, 20, grey(255u8));
    for y in 8..12 {
        for x in 28..32 {
            put(&mut img, x, y, grey(0));
        }
    }
    let spots = vec![HealSpot {
        feather: s(0.2),
        source: Some((s(-0.3), s(0.0))),
        label: "spot".into(),
        ..spot(30.0 / 40.0, 0.5, 4.0 / 20.0)
    }];
    heal_image(&mut img, &spots, &compass());
    let c = get(&img, 30, 10);
    assert!(c.r > 200, "defect should heal to the white surroundings, got {c:?}");
}

#[test]
fn clone_raw_transplants_verbatim_where_heal_tone_matches() {
    let base = || {
        let mut img = field(60, 20, grey(255u8));
        for y in 6..14 {
            for x in 6..14 {
                put(&mut img, x, y, grey(100));
            }
        }
        img
    };
    let target = |clone_raw: bool| HealSpot {
        feather: s(0.2),
        source: Some((s((10.0 - 45.0) / 60.0), s(0.0))),
        clone_raw,
        label: "clone".into(),
        ..spot(45.0 / 60.0, 0.5, 3.0 / 20.0)
    };
    let mut cloned = base();
    heal_image(&mut cloned, &vec![target(true)], &compass());
    let c = get(&cloned, 45, 10);
    assert!(c.r < 130, "clone must transplant the gray verbatim, got {c:?}");

    let mut healed = base();
    heal_image(&mut healed, &vec![target(false)], &compass());
    let hh = get(&healed, 45, 10);
    assert!(hh.r > 200, "heal must tone-match toward the white border, got {hh:?}");
}

#[test]
fn mask_blob_becomes_one_spot() {
    let mut m = opaque(100, 100);
    for y in 40..60 {
        for x in 40..60 {
            paint(&mut m, x, y);
        }
    }
    let (spots, _) = plan_from_mask(&m);
    assert_eq!(spots.len(), 1, "one blob, one spot");
    assert!((f(spots[0].cx) - 0.495).abs() < 0.05 && (f(spots[0].cy) - 0.495).abs() < 0.05);
}

#[test]
fn empty_inputs_are_noops() {
    let mut img = field(8, 8, Rgb { r: 10u8, g: 20, b: 30 });
    let before = img.pixels.clone();
    heal_image(&mut img, &vec![], &compass());
    assert_eq!(img.pixels, before, "no spots, image unchanged");
    assert!(plan_from_mask(&opaque(16, 16)).0.is_empty());
}

#[test]
fn plan_from_mask_budget_caps_regions_and_discloses() {
    let mut mask = opaque(96, 96);
    for by in 0..24u32 {
        for bx in 0..24u32 {
            for dy in 0..2 {
                for dx in 0..3 {
                    paint(&mut mask, bx * 4 + dx, by * 4 + dy);
                }
            }
        }
    }
    let (spots, note) = plan_from_mask(&mask);
    assert_eq!(spots.len(), 512, "the cap plans exactly the budget");
    match note.expect("over-budget must disclose") {
        HealNote::Budget { planned, total } => {
            assert_eq!(format!("{planned} of {total}"), "512 of 576")
        }
        other => panic!("{other:?}"),
    }
}

#[test]
fn a_thin_painted_stroke_does_not_heal_its_bounding_disk() {
    let mut mask = opaque(100, 100);
    for y in 49..=50 {
        for x in 20..80 {
            paint(&mut mask, x, y);
        }
    }
    let (mut spots, _) = plan_from_mask(&mask);
    assert_eq!(spots.len(), 1);
    spots[0].source = Some((s(0.0), s(0.3)));
    spots[0].clone_raw = true;
    spots[0].feather = s(0.0);
    let mut img = field(100, 100, grey(0u8));
    for y in 0..100 {
        for x in 0..100 {
            put(&mut img, x, y, grey((y * 2) as u8));
        }
    }
    let unpainted_before = get(&img, 50, 25);
    let painted_before = get(&img, 50, 50);
    heal_image(&mut img, &spots, &compass());
    assert_eq!(get(&img, 50, 25), unpainted_before, "an unpainted pixel remains untouched");
    assert_ne!(get(&img, 50, 50), painted_before, "the stroke itself receives donor pixels");
}

#[test]
fn heal_downsamples_a_baked_source_without_full_res() {
    let img = image::RgbImage::from_fn(3000, 2000, |x, y| {
        image::Rgb([(x % 251) as u8, (y % 241) as u8, 128])
    });
    let base = |full_res: bool| {
        let img = image::DynamicImage::ImageRgb8(img.clone());
        match base_cap(full_res) {
            Some(side) => img.thumbnail(side, side),
            None => img,
        }
    };
    let d = (base(false).width(), base(false).height());
    assert_eq!(d.0.max(d.1), 2048, "without --full-res the saved master IS the 2048px thumbnail");
    assert_eq!((base(true).width(), base(true).height()), (3000, 2000));
}

// ---- further cases ----

#[test]
fn a_painted_spot_has_the_region_as_its_coverage() {
    let mut m = opaque(20, 10);
    // A hook: six pixels down and two to the right.
    for y in 2..8 {
        paint(&mut m, 5, y);
    }
    paint(&mut m, 6, 7);
    paint(&mut m, 7, 7);
    let (spots, note) = plan_from_mask(&m);
    assert!(note.is_none());
    assert_eq!(spots.len(), 1);
    let c = spots[0].coverage.as_ref().unwrap();
    assert_eq!((c.mask_width, c.mask_height, c.x, c.y, c.width, c.height), (20, 10, 5, 2, 3, 6));
    for y in 0..6usize {
        for x in 0..3usize {
            assert_eq!(c.bits.get(y * 3 + x), x == 0 || y == 5, "({x}, {y})");
        }
    }
    // The middle of the eight pixels: columns 5 six times, 6 and 7; rows 2 to 7
    // and 7 twice.
    assert_eq!(f(spots[0].cx), (43.0f32 / 8.0) / 20.0);
    assert_eq!(f(spots[0].cy), (41.0f32 / 8.0) / 10.0);
    assert_eq!(spots[0].label, "painted");
    assert_eq!(f(spots[0].feather), 0.4);
}

#[test]
fn dots_of_five_pixels_are_passed_over_and_diagonals_do_not_join() {
    let mut m = opaque(30, 30);
    for x in 0..5 {
        paint(&mut m, x, 0);
    }
    for y in 0..3 {
        for x in 0..3 {
            paint(&mut m, 10 + x, 10 + y);
            paint(&mut m, 13 + x, 13 + y);
        }
    }
    let (spots, note) = plan_from_mask(&m);
    assert!(note.is_none());
    assert_eq!(spots.len(), 2);
}

/// Every row of a region does not wrap into the next.
#[test]
fn the_edges_of_a_mask_do_not_touch() {
    let mut m = opaque(8, 4);
    for y in 0..2 {
        for x in 5..8 {
            paint(&mut m, x, y);
        }
        for x in 0..3 {
            paint(&mut m, x, y + 2);
        }
    }
    assert_eq!(plan_from_mask(&m).0.len(), 2);
}

#[test]
fn the_disk_budget_stops_a_plan_too() {
    // Combs whose disks are far larger than the strokes themselves.
    let mut m = opaque(120, 120);
    for k in 0..40u32 {
        for x in 0..120 {
            paint(&mut m, x, k * 3);
        }
    }
    let (spots, note) = plan_from_mask(&m);
    assert!(spots.len() < 40, "{}", spots.len());
    match note.unwrap() {
        HealNote::Budget { planned, total } => {
            assert_eq!(planned, spots.len());
            assert_eq!(total, 40);
        }
        other => panic!("{other:?}"),
    }
}

#[test]
fn where_spots_overlap_the_later_one_stands_and_reads_the_picture_as_it_was() {
    let mut img = field(40, 40, grey(0u8));
    for y in 0..40 {
        for x in 0..40 {
            put(&mut img, x, y, grey((x * 5) as u8));
        }
    }
    let clone = |dx: f32| HealSpot {
        feather: s(0.0),
        source: Some((s(dx), s(0.0))),
        clone_raw: true,
        ..spot(0.5, 0.5, 0.1)
    };
    // Both take from eight pixels away, on either side.
    let mut both = Raster { width: 40, height: 40, pixels: img.pixels.clone() };
    heal_image(&mut both, &vec![clone(0.2), clone(-0.2)], &compass());
    let mut last = Raster { width: 40, height: 40, pixels: img.pixels.clone() };
    heal_image(&mut last, &vec![clone(-0.2)], &compass());
    assert_eq!(both.pixels, last.pixels);
    assert_eq!(get(&both, 20, 20), grey(60));
    assert_eq!(get(&both, 2, 2), get(&img, 2, 2), "no spot reaches the corner");
}

#[test]
fn a_donor_is_found_inside_the_frame() {
    let img = field(64, 64, grey(90u8));
    let (ox, oy) = find_donor(&img, s(32.0), s(32.0), s(6.0), &compass());
    assert!(ox != 0 || oy != 0);
    assert!((0..64).contains(&(32 + ox)) && (0..64).contains(&(32 + oy)));
    let small = field(4, 4, grey(90u8));
    assert_eq!(find_donor(&small, s(2.0), s(2.0), s(2.0), &compass()), (0, 0));
}

#[test]
fn coverage_fades_between_pixels() {
    let mut bits = Bits::new(4);
    bits.set(0);
    bits.set(2);
    assert_eq!(bits.len(), 4);
    let c = SpotCoverage { mask_width: 2, mask_height: 2, x: 0, y: 0, width: 2, height: 2, bits };
    assert_eq!(f(c.alpha_at(s(0.25), s(0.25))), 1.0);
    assert_eq!(f(c.alpha_at(s(0.75), s(0.75))), 0.0);
    assert_eq!(f(c.alpha_at(s(0.5), s(0.5))), 0.5);
}

#[test]
fn a_run_gathers_what_was_painted_and_what_was_found() {
    let mut mask = opaque(50, 50);
    for y in 10..14 {
        for x in 10..14 {
            paint(&mut mask, x, y);
        }
    }
    let found = || {
        Detection::Found(RetouchPlan {
            spots: vec![spot(0.5, 0.5, 0.02)],
            rationale: "dust".into(),
            ..Default::default()
        })
    };
    let g = heal(Some(&mask), found()).unwrap();
    assert_eq!(g.spots.len(), 2);
    assert_eq!(g.rationale, "dust");
    assert!(g.notes.is_empty());

    let g = heal(Some(&mask), Detection::Failed("no key".into())).unwrap();
    assert_eq!(g.spots.len(), 1);
    assert_eq!(g.notes.len(), 1);
    assert_eq!(g.notes[0].args(), vec![("e".to_string(), "no key".to_string())]);

    assert_eq!(heal(None, Detection::Failed("no key".into())).err().unwrap(), "no key");
    assert!(heal(None, Detection::Off).is_err());
    assert!(heal(Some(&opaque(9, 9)), Detection::Off).is_err());
    assert!(heal(Some(&opaque(9, 9)), Detection::Failed("x".into())).is_err());
    assert!(heal(None, Detection::Found(RetouchPlan::default())).is_err());
}

#[test]
fn a_clone_points_from_every_region_to_the_picked_point() {
    let mut mask = opaque(50, 50);
    for y in 10..14 {
        for x in 10..14 {
            paint(&mut mask, x, y);
        }
    }
    let g = clone_stamp(&mask, (s(0.75), s(0.5))).unwrap();
    assert_eq!(g.spots.len(), 1);
    let (dx, dy) = g.spots[0].source.unwrap();
    assert_eq!(f(dx), 0.75 - f(g.spots[0].cx));
    assert_eq!(f(dy), 0.5 - f(g.spots[0].cy));
    assert!(g.spots[0].clone_raw);
    assert_eq!(g.spots[0].label, "clone");
    assert_eq!(
        clone_stamp(&opaque(9, 9), (s(0.5), s(0.5))).err().unwrap(),
        "nothing painted \u{2014} brush over the target area first"
    );
}

#[test]
fn an_image_travels_as_base64() {
    assert_eq!(image_url(&b"foob".to_vec()), "data:image/jpeg;base64,Zm9vYg==");
    assert_eq!(image_url(&b"fooba".to_vec()), "data:image/jpeg;base64,Zm9vYmE=");
    assert_eq!(image_url(&b"foobar".to_vec()), "data:image/jpeg;base64,Zm9vYmFy");
    assert_eq!(image_url(&vec![]), "data:image/jpeg;base64,");
    assert_eq!(image_url(&vec![0xFB, 0xEF, 0xBE]), "data:image/jpeg;base64,++++");
    assert_eq!(image_url(&vec![0xFF, 0xFF, 0xFF]), "data:image/jpeg;base64,////");
}

#[test]
fn an_address_has_one_stroke_before_the_last_part() {
    assert_eq!(responses_url("https://x/v1//"), "https://x/v1/responses");
    assert_eq!(responses_url("https://x/v1"), "https://x/v1/responses");
}

#[test]
fn a_fence_around_a_reply_is_taken_off() {
    assert_eq!(strip_fence("```json\n{}\n```"), "{}");
    assert_eq!(strip_fence("  ```\n{}```  "), "{}");
    assert_eq!(strip_fence(" {} "), "{}");
}

#[test]
fn the_text_of_a_reply_is_found_in_either_place() {
    let text = |v: &str| Json::Text(v.to_string());
    let object = |v: Vec<(&str, Json)>| {
        Json::Object(v.into_iter().map(|(k, j)| (k.to_string(), j)).collect())
    };
    assert_eq!(extract_text(&object(vec![("output_text", text("a"))])).as_deref(), Some("a"));
    let nested = object(vec![(
        "output",
        Json::List(vec![
            object(vec![("type", text("reasoning"))]),
            object(vec![(
                "content",
                Json::List(vec![
                    object(vec![("type", text("refusal")), ("text", text("no"))]),
                    object(vec![("type", text("output_text")), ("text", text("b"))]),
                ]),
            )]),
        ]),
    )]);
    assert_eq!(extract_text(&nested).as_deref(), Some("b"));
    assert_eq!(extract_text(&Json::Other), None);
    assert_eq!(extract_text(&object(vec![("output", text("c"))])), None);
}

#[test]
fn a_models_spots_are_tidied() {
    let mut spots: Vec<HealSpot> = (0..40).map(|_| spot(2.0, -1.0, 0.5)).collect();
    spots.insert(0, spot(0.5, 0.5, 0.0));
    spots.insert(1, HealSpot { feather: s(-1.0), ..spot(0.5, 0.5, 0.0001) });
    let tidy = tidy_spots(spots);
    assert_eq!(tidy.len(), 30);
    assert_eq!(f(tidy[0].radius), 0.003);
    assert_eq!(f(tidy[0].feather), 0.4);
    assert_eq!((f(tidy[1].cx), f(tidy[1].cy), f(tidy[1].radius)), (1.0, 0.0, 0.08));
    let again = tidy_spots(tidy);
    assert_eq!(again.len(), 30);
    assert_eq!(f(again[0].radius), 0.003);
}

#[test]
fn alpha_comes_back_at_either_depth() {
    let img = field(3, 1, grey(7u8));
    let aside = split_alpha(&vec![0u8, 128, 255]);
    assert_eq!(aside, vec![0, 128 * 257, 65535]);
    let out = reattach_alpha(&img, &aside);
    assert_eq!(out.iter().map(|p| p.a).collect::<Vec<_>>(), vec![0, 128, 255]);
}

#[test]
fn caps_and_kinds() {
    assert_eq!(detection_cap(5000, 10), Some(1568));
    assert_eq!(detection_cap(1568, 1568), None);
    assert!(!deep_color(ColorKind::Rgba8) && deep_color(ColorKind::Rgb32F));
    assert!(has_alpha(ColorKind::LumaA8) && !has_alpha(ColorKind::Rgb16));
    assert_eq!(master_extension(None), "png");
    assert!(flattens(Some("JPG")) && flattens(Some("jpeg")) && flattens(Some("JfIf")));
    assert!(!flattens(Some("png")) && !flattens(None) && !flattens(Some("jpgx")));
    assert_eq!(master_extension(Some("TiFf")), "tiff");
}

#[test]
fn a_clone_lies_between_what_was_there_and_its_donor() {
    let mut img: Raster<u8> = field(40, 40, grey(0));
    for y in 0..40 {
        for x in 0..40 {
            let v = ((x * 37 + y * 101) % 256) as u8;
            put(&mut img, x, y, Rgb { r: v, g: 255 - v, b: v / 2 });
        }
    }
    let before = img.pixels.clone();
    let spots = vec![HealSpot {
        source: Some((s(0.25), s(0.0))),
        clone_raw: true,
        feather: s(1.0),
        ..spot(0.5, 0.5, 0.2)
    }];
    heal_image(&mut img, &spots, &compass());
    let mut mixed = 0;
    for y in 0..40u32 {
        for x in 0..30u32 {
            let i = (y * 40 + x) as usize;
            let (was, donor, is) = (before[i], before[i + 10], img.pixels[i]);
            if is == was {
                continue;
            }
            mixed += 1;
            for (a, b, c) in [(was.r, donor.r, is.r), (was.g, donor.g, is.g), (was.b, donor.b, is.b)]
            {
                assert!(a.min(b) <= c && c <= a.max(b), "({x}, {y}): {a} {c} {b}");
            }
        }
    }
    assert!(mixed > 50, "the clone wrote {mixed} pixels");
    assert_eq!(get(&img, 20, 20), before[20 * 40 + 30], "all of the donor in the middle");
}

#[test]
fn a_flat_picture_is_left_as_it_is() {
    let mut img = field(48, 48, Rgb { r: 201u16, g: 40_000, b: 65_535 });
    let before = img.pixels.clone();
    heal_image(&mut img, &vec![spot(0.5, 0.5, 0.1), spot(0.3, 0.6, 0.2)], &compass());
    assert_eq!(img.pixels, before);
}

/// The link holds the picture as a JPEG of the encoder's own quality.
#[test]
fn a_picture_becomes_a_link_that_holds_it() {
    let img = image::RgbImage::from_fn(16, 8, |x, y| image::Rgb([x as u8 * 16, y as u8 * 32, 7]));
    let mut jpeg = Vec::new();
    img.write_to(&mut std::io::Cursor::new(&mut jpeg), image::ImageFormat::Jpeg).unwrap();
    let link = picture_url(16, 8, &img.clone().into_raw()).expect("a small picture");
    assert_eq!(link, image_url(&jpeg));
    assert!(link.starts_with("data:image/jpeg;base64,/9j/"), "{}", &link[..40]);
    assert!(picture_url(0, 0, &Vec::new()).is_none(), "nothing is no picture");
}

/// A donor that only rounding would push over the edge is none.
#[test]
fn a_found_donor_drops_no_pixel() {
    let (w, r) = (64i32, 2.3f32);
    // Level but for a gradient that makes the donors to the right the best.
    let img = Raster {
        width: 64,
        height: 64,
        pixels: (0..64 * 64).map(|i| grey(if i % 64 >= 50 { 90u8 } else { 200 })).collect(),
    };
    for cx in 50..62 {
        let (ox, oy) = find_donor(&img, s(cx as f32), s(32.0), s(r), &compass());
        if (ox, oy) == (0, 0) {
            continue;
        }
        for dy in -2i32..=2 {
            for dx in -2i32..=2 {
                if ((dx * dx + dy * dy) as f32).sqrt() <= r && cx + dx < w {
                    assert!((0..w).contains(&(cx + dx + ox)), "cx {cx}, offset {ox}");
                    assert!((0..w).contains(&(32 + dy + oy)));
                }
            }
        }
    }
}
