//! The transform panel: maps, sliders, upright corrections and the crop.

use autoshop::homography::Homography;
use autoshop::recipe::Crop;
use autoshop::single::Single;
use autoshop::transform::{
    constrain_crop, fill_the_frame, manual, mode_to_solve, pulled_back, seen_or_void, source_of,
    transform, upright_from_sidecar, ManualSliders, OFFSET,
};
use autoshop::upright::{
    edge_at, edges_of, horizon, levelling, null_row_through, robust, solvable, solve_upright, Cross, Edge,
    Family, Triple, MIN_SAMPLES,
};

fn s(x: f32) -> Single {
    Single::from_bits(x.to_bits())
}

fn f(x: Single) -> f32 {
    f32::from_bits(x.to_bits())
}

const ADOBE_MATRIX: [f32; 9] = [
    1.016961743,
    0.007720874,
    -0.012341308,
    -0.017371966,
    1.016961743,
    0.000205112,
    0.0,
    0.0,
    1.0,
];

const KIT: f32 = 1.5;
const SQUARE: f32 = 1.0;

fn map_of(m: [f32; 9]) -> Homography {
    Homography(m.map(s))
}

fn numbers(h: &Homography) -> [f32; 9] {
    h.0.map(f)
}

fn at(h: &Homography, x: f32, y: f32) -> Option<(f32, f32)> {
    h.map(s(x), s(y)).map(|(u, v)| (f(u), f(v)))
}

#[derive(Clone, Copy)]
struct Panel {
    vertical: f32,
    horizontal: f32,
    rotate: f32,
    scale: f32,
    aspect: f32,
    x: f32,
    y: f32,
}

const REST: Panel =
    Panel { vertical: 0.0, horizontal: 0.0, rotate: 0.0, scale: 100.0, aspect: 0.0, x: 0.0, y: 0.0 };

fn sliders(p: Panel) -> ManualSliders {
    let radians = p.rotate.to_radians();
    let (sin, cos) = radians.sin_cos();
    ManualSliders {
        vertical: s(p.vertical),
        horizontal: s(p.horizontal),
        scale: s(p.scale),
        x: s(p.x),
        y: s(p.y),
        radians: s(radians),
        sin: s(sin),
        cos: s(cos),
        growth: s(((p.aspect / 100.0) * 0.095_310_2f32).exp()),
    }
}

fn moved(p: Panel, aspect: f32) -> Homography {
    manual(&sliders(p), s(aspect)).expect("moves")
}

fn keystone(kv: f32) -> Homography {
    Homography::about_centre([1.0, 0.0, 0.0, 0.0, 1.0, 0.0, 0.0, kv, 1.0].map(s))
}

fn perspective_strength(h: &Homography) -> f32 {
    let m = numbers(h);
    let scale = if m[8].abs() > 1e-9 { m[8].abs() } else { 1.0 };
    (m[6] * m[6] + m[7] * m[7]).sqrt() / scale
}

#[test]
fn adobes_own_matrix_is_read_verbatim_and_pivots_on_the_frame_centre() {
    let h = upright_from_sidecar(s(1.0), &vec![Homography::identity(), map_of(ADOBE_MATRIX)])
        .expect("mode 1 selects index 1");
    assert_eq!(numbers(&h), ADOBE_MATRIX, "Adobe's numbers are rendered, not re-derived");
    let (u, v) = at(&h, 0.5, 0.5).expect("the centre is not on the horizon");
    assert!((u - 0.5).abs() < 1e-6 && (v - 0.5).abs() < 1e-6, "({u}, {v})");
    assert!(h.covers(), "Adobe's matrix already covers the frame");
}

#[test]
fn the_mode_is_an_index_and_zero_means_off() {
    let third = [1.002647, 0.001180, -0.001913, -0.002654, 1.002647, 0.000003, 0.0, 0.0, 1.0];
    let six = vec![
        Homography::identity(),
        map_of(ADOBE_MATRIX),
        map_of(ADOBE_MATRIX),
        map_of(third),
        map_of(ADOBE_MATRIX),
        Homography::identity(),
    ];
    assert!(upright_from_sidecar(s(0.0), &six).is_none(), "mode 0 is off");
    assert_eq!(
        upright_from_sidecar(s(3.0), &six).map(|h| numbers(&h)),
        Some(third),
        "mode 3 selects index 3, not the first non-identity one"
    );
    assert!(upright_from_sidecar(s(5.0), &six).is_none(), "identity is not an answer");
    assert!(upright_from_sidecar(s(4.0), &vec![six[0], six[1]]).is_none());
}

#[test]
fn every_manual_slider_moves_the_frame_and_neutral_moves_nothing() {
    assert!(manual(&sliders(REST), s(KIT)).is_none(), "at rest the stage costs no resample");
    let offset = f32::from_bits(OFFSET);
    let probes: [(&str, Panel); 7] = [
        ("vertical", Panel { vertical: 40.0, ..REST }),
        ("horizontal", Panel { horizontal: -40.0, ..REST }),
        ("rotate", Panel { rotate: 3.0, ..REST }),
        ("scale", Panel { scale: 120.0, ..REST }),
        ("aspect", Panel { aspect: 50.0, ..REST }),
        ("x", Panel { x: 30.0, ..REST }),
        ("y", Panel { y: -30.0, ..REST }),
    ];
    for (name, p) in probes {
        let h = manual(&sliders(p), s(KIT)).unwrap_or_else(|| panic!("{name} said nothing"));
        assert!(!h.is_identity(), "{name} produced the identity");
        let (u, v) = at(&h, 0.5, 0.5).unwrap_or_else(|| panic!("{name}: centre on the horizon"));
        match name {
            "x" => assert!((u - (0.5 + 0.3 * offset)).abs() < 1e-5, "x slid to {u}"),
            "y" => assert!((v - (0.5 + 0.3 * offset)).abs() < 1e-5, "y slid to {v}"),
            _ => assert!(
                (u - 0.5).abs() < 1e-5 && (v - 0.5).abs() < 1e-5,
                "{name} must pivot on the frame centre: ({u}, {v})"
            ),
        }
        assert!(h.inverse().is_some(), "{name} must be invertible at its working range");
    }
    let area = |p: Panel| {
        let h = moved(p, KIT);
        let (x0, y0) = at(&h, 0.0, 0.0).expect("corner");
        let (x1, y1) = at(&h, 1.0, 1.0).expect("corner");
        ((x1 - x0) * (y1 - y0)).abs()
    };
    let rest = area(Panel { scale: 100.000_01, ..REST });
    for aspect in [50.0f32, -50.0, 90.0] {
        let got = area(Panel { aspect, ..REST });
        assert!((got / rest - 1.0).abs() < 1e-3, "Aspect {aspect}: {:.4}", got / rest);
    }
    let zoomed = area(Panel { scale: 150.0, ..REST });
    assert!((zoomed / rest - 2.25).abs() < 1e-2, "Scale 150: {:.4}", zoomed / rest);
}

#[test]
fn the_manual_sliders_carry_the_coefficients_the_kit_measured() {
    fn centred(p: Panel, aspect: f32) -> [f32; 9] {
        let t = map_of([1.0, 0.0, -0.5, 0.0, 1.0, -0.5, 0.0, 0.0, 1.0]);
        let b = map_of([1.0, 0.0, 0.5, 0.0, 1.0, 0.5, 0.0, 0.0, 1.0]);
        let m = numbers(&b.then_map(moved(p, aspect)).then_map(t));
        m.map(|v| v / m[8])
    }
    let v = |x: f32| Panel { vertical: x, ..REST };
    let h = |x: f32| Panel { horizontal: x, ..REST };
    for (name, p, k, ki) in [
        ("V+50", v(50.0), -0.32521, 7),
        ("V-50", v(-50.0), 0.325_37, 7),
        ("V+100", v(100.0), -0.650_50, 7),
        ("H+50", h(50.0), -0.488_14, 6),
        ("H-50", h(-50.0), 0.488_29, 6),
    ] {
        let m = centred(p, KIT);
        assert!((m[ki] - k).abs() < 0.006, "{name}: keystone {} against {k}", m[ki]);
        for gi in [0usize, 4] {
            assert!((m[gi] - 1.0).abs() < 1e-5, "{name}: scales an axis: {}", m[gi]);
        }
    }
    assert!(centred(v(100.0), KIT)[6].abs() < 1e-6, "a vertical keystone is vertical only");
    assert!(centred(h(100.0), KIT)[7].abs() < 1e-6, "and a horizontal one horizontal only");
    let portrait = 1.0 / KIT;
    assert!(
        (centred(v(50.0), portrait)[7] - centred(h(50.0), KIT)[6]).abs() < 1e-5,
        "portrait's vertical keystone must equal landscape's horizontal one"
    );
    for deg in [5.0f32, -10.0, 0.25] {
        let m = centred(Panel { rotate: deg, ..REST }, KIT);
        let (sin, cos) = deg.to_radians().sin_cos();
        let px = [m[0], m[1] * KIT, m[3] / KIT, m[4]];
        for (got, want) in px.iter().zip([cos, -sin, sin, cos]) {
            assert!((got - want).abs() < 1e-5, "Rotate {deg} must be rigid in pixels: {px:?}");
        }
    }
    for (a, sx, sy) in [(50.0f32, 0.953_46, 1.048_81), (-50.0, 1.048_81, 0.953_46)] {
        let m = centred(Panel { aspect: a, ..REST }, KIT);
        assert!(
            (m[0] - sx).abs() < 0.0015 && (m[4] - sy).abs() < 0.0015,
            "Aspect {a}: {} x {}",
            m[0],
            m[4]
        );
    }
    let mx = centred(Panel { x: 20.0, ..REST }, KIT);
    let my = centred(Panel { y: 20.0, ..REST }, KIT);
    assert!((mx[2] - 0.1621).abs() < 0.0006, "X+20 slid {} of the width", mx[2]);
    assert!((my[5] + 0.1625).abs() < 0.0006, "Y+20 slid {} of the height", my[5]);
    assert!(mx[2] * my[5] < 0.0, "the two offsets differ in handedness");
    for (scale, want) in [(80.0f32, 0.8), (120.0, 1.2)] {
        let m = centred(Panel { scale, ..REST }, KIT);
        assert!(
            (m[0] - want).abs() < 0.0004 && (m[4] - want).abs() < 0.0004,
            "Scale {scale}: {} x {}",
            m[0],
            m[4]
        );
    }
}

#[test]
fn a_vertical_keystone_spreads_one_edge_and_gathers_the_other() {
    let h = moved(Panel { vertical: 100.0, ..REST }, KIT);
    let width_at = |y: f32| {
        let (l, _) = at(&h, 0.0, y).expect("the edge is not on the horizon");
        let (r, _) = at(&h, 1.0, y).expect("the edge is not on the horizon");
        r - l
    };
    let (top, bottom) = (width_at(0.0), width_at(1.0));
    assert!(bottom > top * 1.5, "a full keystone must really open the bottom: {bottom} vs {top}");
    let d = moved(Panel { vertical: -100.0, ..REST }, KIT);
    let dl = at(&d, 0.0, 0.0).unwrap().0;
    let dr = at(&d, 1.0, 0.0).unwrap().0;
    assert!((dr - dl - bottom).abs() < 1e-6, "negative must OPEN the top: {}", dr - dl);
    assert!(dr - dl > 1.0, "to more than the frame's own width: {}", dr - dl);
}

/// A flat picture of one level through a map.
fn flat_through(h: &Homography, side: u32, level: u16) -> Vec<u16> {
    let n = (side * side) as usize;
    let Some(back) = pulled_back(h, side, side) else { return vec![level; n] };
    (0..n)
        .map(|i| match source_of(&back, i % side as usize, i / side as usize, side, side) {
            Some((u, v)) => {
                let inside = 0.0..=side as f32 - 1.0;
                assert!(inside.contains(&f(u)) && inside.contains(&f(v)));
                seen_or_void(Some([level; 3]))[0]
            }
            None => seen_or_void(None)[0],
        })
        .collect()
}

#[test]
fn the_void_is_written_where_the_map_pulls_from_outside_the_frame() {
    let out = flat_through(&moved(Panel { x: 30.0, ..REST }, SQUARE), 64, 40_000);
    let void = out.iter().filter(|p| **p == u16::MAX).count();
    assert!(void > 64 * 8, "a quarter-frame slide must leave a void: {void} px");
    assert_eq!(out.iter().filter(|p| **p == 0).count(), 0, "the void is white");
    let lit = out.iter().filter(|p| **p == 40_000).count();
    assert!(lit > 64 * 32, "most of the frame is still the picture: {lit} px");
    assert_eq!(flat_through(&Homography::identity(), 64, 40_000), vec![40_000; 64 * 64]);
}

#[test]
fn constrain_crop_shrinks_until_it_fits_and_is_silent_when_it_already_does() {
    let slid = moved(Panel { x: 18.0, ..REST }, SQUARE);
    const DIMS: (u32, u32) = (96, 96);
    let c = constrain_crop(slid, None, DIMS).expect("a slid frame constrains the whole frame");
    assert!(f(c.right) - f(c.left) < 1.0 && f(c.bottom) - f(c.top) < 1.0, "{c:?}");
    let wide = Crop { left: s(0.0), top: s(0.4), right: s(0.9), bottom: s(0.6) };
    let k = constrain_crop(slid, Some(wide), DIMS).expect("a crop into the void must constrain");
    let ratio = |c: &Crop| (f(c.right) - f(c.left)) / (f(c.bottom) - f(c.top));
    assert!((ratio(&wide) - ratio(&k)).abs() < 1e-3, "the aspect must survive");
    assert!(
        ((f(k.left) + f(k.right)) * 0.5 - (f(wide.left) + f(wide.right)) * 0.5).abs() < 1e-3,
        "and so must the centre"
    );
    let small = Crop { left: s(0.45), top: s(0.45), right: s(0.55), bottom: s(0.55) };
    assert_eq!(constrain_crop(slid, Some(small), DIMS), None, "nothing to constrain");
    assert_eq!(constrain_crop(Homography::identity(), None, DIMS), None);
}

/// A rectilinear scene of bars, seen through `truth`.
fn chart(w: usize, h: usize, truth: Homography, vertical_bars: bool) -> Vec<f32> {
    let inv = truth.inverse().expect("the probe keystone is invertible");
    let (dw, dh) = (w as f32 - 1.0, h as f32 - 1.0);
    const PERIOD: f32 = 0.0625;
    (0..h)
        .flat_map(|y| (0..w).map(move |x| (x, y)))
        .map(|(x, y)| match at(&inv, x as f32 / dw, y as f32 / dh) {
            Some((u, v)) => {
                let t = if vertical_bars { u } else { v };
                0.5 + 0.4 * (t / PERIOD * std::f32::consts::TAU).sin()
            }
            None => 0.5,
        })
        .collect()
}

/// The sums over the lines of one family.
#[derive(Clone, Copy, Default)]
struct Sums {
    m: [f64; 6],
    c2: f64,
    s2: f64,
    n: usize,
}

impl Sums {
    fn add(&mut self, e: &Edge, weight: f32) {
        let wide = |v: Single| f(v) as f64;
        let (a, b, c, w) = (wide(e.line.x), wide(e.line.y), wide(e.line.z), weight as f64);
        for (m, v) in self.m.iter_mut().zip([a * a, a * b, a * c, b * b, b * c, c * c]) {
            *m += w * v;
        }
        self.c2 += w * wide(e.cos2);
        self.s2 += w * wide(e.sin2);
        self.n += 1;
    }

    fn mean_angle(&self) -> f32 {
        0.5 * (self.s2.atan2(self.c2) as f32)
    }

    fn vanishing_point(&self) -> Option<Triple> {
        if self.n < MIN_SAMPLES {
            return None;
        }
        let (vals, vecs) = jacobi3(self.m);
        let mut order = [0usize, 1, 2];
        order.sort_by(|a, b| vals[*a].total_cmp(&vals[*b]));
        let (lo, next) = (vals[order[0]], vals[order[1]]);
        if !(lo.is_finite() && next.is_finite()) || lo < 0.0 || next < lo * 8.0 {
            return None;
        }
        let p = vecs[order[0]].map(|v| v as f32);
        Some(Triple { x: s(p[0]), y: s(p[1]), z: s(p[2]) })
    }
}

/// The eigenvalues and eigenvectors of a symmetric matrix.
fn jacobi3(up: [f64; 6]) -> ([f64; 3], [[f64; 3]; 3]) {
    let mut a = [[up[0], up[1], up[2]], [up[1], up[3], up[4]], [up[2], up[4], up[5]]];
    let mut v = [[1.0, 0.0, 0.0], [0.0, 1.0, 0.0], [0.0, 0.0, 1.0]];
    for _ in 0..24 {
        let (mut p, mut q, mut mag) = (0usize, 1usize, 0.0f64);
        for (i, j) in [(0, 1), (0, 2), (1, 2)] {
            if a[i][j].abs() > mag {
                (p, q, mag) = (i, j, a[i][j].abs());
            }
        }
        if mag < 1e-18 {
            break;
        }
        let (sin, cos) = (0.5 * (2.0 * a[p][q]).atan2(a[p][p] - a[q][q])).sin_cos();
        for row in a.iter_mut().chain(v.iter_mut()) {
            let (x, y) = (row[p], row[q]);
            row[p] = cos * x + sin * y;
            row[q] = -sin * x + cos * y;
        }
        let (x, y) = (a[p], a[q]);
        a[p] = std::array::from_fn(|k| cos * x[k] + sin * y[k]);
        a[q] = std::array::from_fn(|k| -sin * x[k] + cos * y[k]);
    }
    let column = |k: usize| [v[0][k], v[1][k], v[2][k]];
    ([a[0][0], a[1][1], a[2][2]], [column(0), column(1), column(2)])
}

fn gather(edges: &[Edge], points: [Option<Triple>; 2]) -> [Sums; 2] {
    let mut sums = [Sums::default(); 2];
    for e in edges {
        let k = if e.family == Family::Vertical { 0 } else { 1 };
        sums[k].add(e, f(e.strength) * f(robust(points[k], e.line)));
    }
    sums
}

/// The correction of a picture, its lines summed in doubles.
fn solve(luma: &[f32], w: usize, h: usize, mode: u8) -> Option<Homography> {
    if !solvable(luma.len(), w, h, mode) {
        return None;
    }
    let plane = luma.iter().map(|v| s(*v)).collect();
    let edges = edges_of(&plane, w as u32, h as u32, s(0.436_332_3f32.tan()));
    let first = gather(&edges, [None, None]);
    let [v, u] = gather(&edges, first.map(|k| k.vanishing_point()));
    let level = levelling((v.n, s(v.mean_angle())), (u.n, s(u.mean_angle())));
    let (sin, cos) = (-level.map_or(0.0, f)).sin_cos();
    solve_upright(mode, level.is_some(), (s(sin), s(cos)), v.vanishing_point(), u.vanishing_point())
}

#[test]
fn the_solver_undoes_a_keystone_it_did_not_put_there() {
    const KV: f32 = 0.45;
    let truth = keystone(KV);
    let data = chart(256, 256, truth, true);
    let solved = solve(&data, 256, 256, 3).expect("a chart of converging bars states a point");
    let before = perspective_strength(&truth);
    let after = perspective_strength(&truth.then_map(solved));
    assert!(before > 0.1, "premise: the probe really is a keystone ({before})");
    assert!(
        after < before * 0.1,
        "the correction must remove the perspective it was shown: {before} -> {after}"
    );
    assert!(solved.covers(), "a solved map must not deliver empty corners");
}

#[test]
fn full_and_auto_differ_by_the_damping_and_guided_is_refused() {
    let truth = keystone(0.45);
    let data = chart(256, 256, truth, true);
    let full = solve(&data, 256, 256, 4).expect("Full solves");
    let auto = solve(&data, 256, 256, 1).expect("Auto solves");
    let (sf, sa) = (perspective_strength(&full), perspective_strength(&auto));
    assert!(sa < sf, "Auto is a damped Full: {sa} against {sf}");
    assert!(sa > sf * 0.2, "damped, not switched off: {sa} against {sf}");
    assert!(solve(&data, 256, 256, 5).is_none(), "Guided is a named refusal");
    assert!(solve(&data, 256, 256, 0).is_none(), "mode 0 is not the solver's business");
}

#[test]
fn level_turns_the_frame_and_leaves_its_shape_alone() {
    let turn = Homography::about_centre(
        [0.994_522, -0.104_528, 0.0, 0.104_528, 0.994_522, 0.0, 0.0, 0.0, 1.0].map(s),
    );
    let truth = keystone(0.45).then_map(turn);
    assert!(perspective_strength(&truth) > 0.1, "premise: the chart really is keystoned");
    let data = chart(256, 256, truth, true);
    let solved = solve(&data, 256, 256, 2).expect("a turned chart states its lines");
    assert!(
        perspective_strength(&solved) < 1e-4,
        "Level must add NO perspective term: {}",
        perspective_strength(&solved)
    );
    assert!(!solved.is_identity(), "but it must still turn the frame");
    let left = perspective_strength(&truth.then_map(solved));
    assert!(
        left > perspective_strength(&truth) * 0.5,
        "Level removed the photograph's perspective, which is Vertical's job: {left}"
    );
    assert!(solved.covers(), "a levelled frame must not deliver empty corners");
    assert!(solve(&vec![0.5f32; 256 * 256], 256, 256, 2).is_none(), "nothing to level");
}

#[test]
fn a_picture_that_states_no_lines_is_refused_rather_than_warped() {
    let blank = vec![0.5f32; 256 * 256];
    assert!(solve(&blank, 256, 256, 3).is_none(), "a flat frame says nothing");
    let straight = chart(256, 256, Homography::identity(), true);
    assert!(solve(&straight, 256, 256, 3).is_none(), "parallel lines need no correction");
    assert!(solve(&vec![0.5f32; 16 * 16], 16, 16, 3).is_none());
    assert!(solve(&blank[..10], 256, 256, 3).is_none());
    for (name, q) in [
        ("dead centre", [0.0f32, 0.0, 1.0]),
        ("just inside", [0.3f32, -0.2, 1.0]),
        ("on the edge of the disc", [0.48f32, 0.0, 1.0]),
    ] {
        let t = Triple { x: s(q[0]), y: s(q[1]), z: s(q[2]) };
        assert!(null_row_through(t).is_none(), "{name}: a point inside is not a horizon");
    }
    let row = null_row_through(Triple { x: s(2.0), y: s(0.0), z: s(1.0) }).expect("outside");
    assert!((f(row.x) + 0.5).abs() < 1e-6 && f(row.y).abs() < 1e-6);
}

#[test]
fn the_stage_composes_upright_before_the_sliders_and_says_nothing_at_rest() {
    const DIMS: (u32, u32) = (64, 64);
    assert!(transform(None, &sliders(REST), DIMS).is_none(), "at rest nothing is paid");
    let adobe = map_of(ADOBE_MATRIX);
    assert_eq!(
        transform(Some(adobe), &sliders(REST), DIMS).map(|h| numbers(&h)),
        Some(ADOBE_MATRIX),
        "Upright alone is Adobe's own"
    );
    let both = Panel { scale: 150.0, ..REST };
    let composed = transform(Some(adobe), &sliders(both), DIMS).expect("both halves");
    let expect = adobe.then_map(moved(both, SQUARE));
    assert_eq!(numbers(&composed), numbers(&expect), "Upright runs first");
    let flat = vec![30_000.0f32 / 65_535.0; 64 * 64];
    let mode = mode_to_solve(s(3.0)).expect("Vertical is solved");
    let unsolved = solve(&flat, 64, 64, mode);
    assert!(
        transform(unsolved, &sliders(REST), DIMS).is_none(),
        "a flat frame answers no dropdown"
    );
    assert_eq!(mode_to_solve(s(3.0)), Some(3));
    assert_eq!(mode_to_solve(s(0.0)), None);
    assert_eq!(mode_to_solve(s(5.0)), None);
}

#[test]
fn a_map_that_cannot_cover_the_frame_is_refused_rather_than_zoomed_forever() {
    let slid = map_of([1.0, 0.0, 0.9, 0.0, 1.0, 0.0, 0.0, 0.0, 1.0]);
    assert!(!slid.covers(), "premise: this one leaves a whole edge empty");
    assert!(fill_the_frame(slid).is_none(), "a slid frame is a refusal");
    let filled = fill_the_frame(keystone(0.15)).expect("a gentle keystone can be covered");
    assert!(filled.covers(), "and it does cover");
    assert_eq!(
        fill_the_frame(map_of(ADOBE_MATRIX)).map(|h| numbers(&h)),
        Some(ADOBE_MATRIX),
        "no nudge for Adobe's own"
    );
}

#[test]
fn the_inverse_is_an_inverse_and_a_degenerate_map_has_none() {
    let turned = moved(Panel { rotate: 7.0, aspect: -60.0, ..REST }, KIT);
    for h in [keystone(0.3), map_of(ADOBE_MATRIX), turned] {
        let inv = h.inverse().expect("invertible");
        for (x, y) in [(0.1, 0.2), (0.5, 0.5), (0.9, 0.75)] {
            let (u, v) = at(&h, x, y).expect("in range");
            let (bx, by) = at(&inv, u, v).expect("and back");
            assert!((bx - x).abs() < 1e-4 && (by - y).abs() < 1e-4, "({x}, {y}) -> ({bx}, {by})");
        }
    }
    let collapsed = moved(Panel { scale: 0.0, ..REST }, KIT);
    assert!(collapsed.inverse().is_none(), "a collapsed map has no inverse");
    assert!(pulled_back(&collapsed, 8, 8).is_none(), "a degenerate map returns the frame untouched");
}

// ---- further cases ----

#[test]
fn the_horizon_runs_through_both_points() {
    let a = Triple { x: s(0.0), y: s(2.0), z: s(1.0) };
    let b = Triple { x: s(4.0), y: s(2.0), z: s(1.0) };
    let row = horizon(a, b).expect("two up, and level");
    assert_eq!((f(row.x), f(row.y)), (0.0, -0.5));
    let through = Triple { x: s(0.0), y: s(-2.0), z: s(1.0) };
    assert!(horizon(a, through).is_none(), "a line through the middle is no horizon");
}

#[test]
fn an_edge_lies_on_a_line_at_a_right_angle_to_its_slope() {
    let cone = s(0.436_332_3f32.tan());
    let cross = |l: f32, r: f32, a: f32, b: f32| Cross {
        left: s(l),
        right: s(r),
        above: s(a),
        below: s(b),
    };
    let e: Edge = edge_at(cross(0.0, 0.5, 0.2, 0.2), 32, 16, 65, 33, cone).expect("a vertical edge");
    assert_eq!(e.family, Family::Vertical);
    assert_eq!(f(e.line.x), 16.0);
    assert_eq!(f(e.line.y), 0.0);
    assert_eq!(f(e.line.z), 0.0, "the middle of the frame");
    assert_eq!((f(e.strength), f(e.cos2), f(e.sin2)), (16.0, -1.0, 0.0));
    let e = edge_at(cross(0.2, 0.2, 0.0, 0.5), 0, 0, 65, 33, cone).expect("a horizontal edge");
    assert_eq!(e.family, Family::Horizontal);
    assert_eq!(f(e.line.z), 4.0);
    assert!(edge_at(cross(0.0, 0.2, 0.0, 0.4), 3, 3, 65, 65, cone).is_none(), "a diagonal");
    assert!(edge_at(cross(0.5, 0.5, 0.5, 0.5), 3, 3, 65, 65, cone).is_none(), "no edge at all");
    assert_eq!(f(robust(None, e.line)), 1.0);
    let hit = Triple { x: s(1.0), y: s(0.0), z: s(0.0) };
    assert_eq!(f(robust(Some(hit), e.line)), 1.0);
    let miss = Triple { x: s(0.0), y: s(0.0), z: s(0.005) };
    assert_eq!(f(robust(Some(miss), e.line)), 0.5);
}

#[test]
fn the_family_with_more_edges_levels() {
    let q = std::f32::consts::FRAC_PI_2;
    assert_eq!(levelling((100, s(0.1)), (1999, s(0.2))).map(f), None);
    assert_eq!(levelling((100, s(0.1)), (2000, s(0.2))).map(f), Some(0.2));
    assert_eq!(levelling((3000, s(1.5)), (2000, s(0.2))).map(f), Some(1.5 - q));
    assert_eq!(levelling((3000, s(-1.5)), (2000, s(0.2))).map(f), Some(-1.5 + q));
}

/// The corners of a constrained crop come from inside of the frame.
#[test]
fn the_corners_of_a_constrained_crop_are_in_the_picture() {
    for (map, crop) in [
        (moved(Panel { x: 18.0, ..REST }, SQUARE), None),
        (keystone(0.3), None),
        (
            moved(Panel { rotate: 7.0, ..REST }, KIT),
            Some(Crop { left: s(0.0), top: s(0.1), right: s(0.9), bottom: s(1.0) }),
        ),
    ] {
        let inv = map.inverse().expect("invertible");
        let c = constrain_crop(map, crop, (96, 96)).expect("a crop into the void");
        for (x, y) in [(c.left, c.top), (c.right, c.top), (c.left, c.bottom), (c.right, c.bottom)] {
            let (u, v) = inv.map(x, y).expect("an image");
            assert!((0.0..=1.0).contains(&f(u)) && (0.0..=1.0).contains(&f(v)), "{u:?} {v:?}");
        }
    }
}

/// How much the inverse of a map magnifies what is off.
fn magnified(h: &Homography) -> f64 {
    let m = numbers(h).map(f64::from);
    let row = |r: usize| m[3 * r].abs() + m[3 * r + 1].abs() + m[3 * r + 2].abs();
    let pair = |a: usize, b: usize, c: usize, d: usize| (m[a] * m[b]).abs() + (m[c] * m[d]).abs();
    let k = [
        pair(4, 8, 5, 7),
        pair(2, 7, 1, 8),
        pair(1, 5, 2, 4),
        pair(5, 6, 3, 8),
        pair(0, 8, 2, 6),
        pair(2, 3, 0, 5),
        pair(3, 7, 4, 6),
        pair(1, 6, 0, 7),
        pair(0, 4, 1, 3),
    ];
    let det = m[0] * (m[4] * m[8] - m[5] * m[7]) + m[1] * (m[5] * m[6] - m[3] * m[8])
        + m[2] * (m[3] * m[7] - m[4] * m[6]);
    (0..3)
        .map(|i| (0..3).map(|j| k[3 * i + j] * row(j)).fold(0.0, |a, b| a + b) / det.abs())
        .fold(0.0, f64::max)
}

/// A map that makes the frame ten times smaller is still undone.
#[test]
fn a_strong_map_is_undone_too() {
    let tenth = Homography::about_centre([0.1, 0.0, 0.0, 0.0, 0.1, 0.0, 0.0, 0.2, 1.0].map(s));
    let turned = moved(Panel { rotate: 7.0, aspect: -60.0, ..REST }, KIT);
    for h in [tenth, turned, keystone(0.3), map_of(ADOBE_MATRIX)] {
        assert!(magnified(&h) < 80.0, "{}", magnified(&h));
        let inv = h.inverse().expect("invertible");
        for (x, y) in [(0.0, 0.0), (1.0, 0.3), (0.25, 1.0), (0.9, 0.75)] {
            let (u, v) = at(&h, x, y).expect("an image");
            let (bx, by) = at(&inv, u, v).expect("and back");
            assert!((bx - x).abs() < 1e-4 && (by - y).abs() < 1e-4, "({x}, {y}) -> ({bx}, {by})");
        }
    }
}
