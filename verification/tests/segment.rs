//! The sidecar's report, the marker beside an alpha, and the renewal rule.

use autoshop::ai_masks::{
    ai_cache_key, ai_cache_key_gen, ai_shapes, backend_marker_path, settle, settle_all, AiMaskResolution,
    AlphaJob, AlphaOutcome, AlphaStep, FrameState, AI_BACKEND_GENERATION,
};
use autoshop::recipe::{BrushStroke, EditRecipe, LocalAdjustment, MaskGeometry};
use autoshop::segment::{
    backend_is_fallback, marker_is_stale, renewal_needs_probe, should_renew_cached_alpha,
    BackendMarker, SegmentReport,
};
use autoshop::sidecar::{
    forwarded, probe_arguments, probe_verdict, sidecar_arguments, staging_name, RunStep,
    SegmentConfig, SegmentOpts, SegmentRun, SidecarOutput,
};
use autoshop::single::Single;

const BACKEND_MARKER_HEADER: &str = "autoshop-ai-mask-backend v1";

fn s(x: f32) -> Single {
    Single::from_bits(x.to_bits())
}

#[test]
fn the_backend_label_survives_the_sidecar_line() {
    let primary = SegmentReport::parse(
        "segment.py: subject mask [BiRefNet e2bf8e4460fc] -> C:\\x\\mask.png\n\
         segment.py: subject backend deps [ok]\n",
    );
    assert_eq!(primary.backend, "BiRefNet e2bf8e4460fc");
    assert_eq!(primary.birefnet_deps, Some(true));
    assert!(!primary.is_fallback(), "the pinned model is not a fallback");

    let fell_back = SegmentReport::parse(
        "segment.py: subject mask [U^2-Net (FALLBACK - BiRefNet did not run)] -> m.png\n\
         segment.py: subject backend deps [missing]\n",
    );
    assert!(fell_back.is_fallback(), "the sidecar's own word for it must read as one here");
    assert_eq!(fell_back.birefnet_deps, Some(false));

    // A path containing a bracket must not eat the label.
    let bracketed = SegmentReport::parse(
        "segment.py: sky mask [OneFormer ADE20K Swin-L 4a5bac8e64f8] -> D:\\a[1]\\m.png\n",
    );
    assert_eq!(bracketed.backend, "OneFormer ADE20K Swin-L 4a5bac8e64f8");
    assert_eq!(bracketed.birefnet_deps, None, "sky has no fallback tier to report");

    // A progress bar rewrites one physical line with `\r`.
    let after_bar = SegmentReport::parse(
        "loading 10%\rloading 90%\rsegment.py: object mask [SAM 2.1 Hiera-Large 665f8e2ad61c] -> m.png\r",
    );
    assert_eq!(after_bar.backend, "SAM 2.1 Hiera-Large 665f8e2ad61c");

    // A sidecar that says nothing understood is unknown.
    let silent = SegmentReport::parse("some library wrote this\n");
    assert!(silent.backend.is_empty());
    assert_eq!(silent.birefnet_deps, None);
    let odd = SegmentReport::parse("segment.py: subject backend deps [perhaps]\n");
    assert_eq!(odd.birefnet_deps, None, "a word this build does not know is not a verdict");
}

#[test]
fn a_foreign_file_at_the_marker_name_is_not_read_as_provenance() {
    assert!(
        BackendMarker::parse("backend=BiRefNet\nbirefnet-deps=ok\n").is_none(),
        "without the header line this is not a marker"
    );
    assert!(BackendMarker::parse("").is_none());
    let m = BackendMarker::parse(&format!("{BACKEND_MARKER_HEADER}\n")).expect("header alone parses");
    assert!(m.backend.is_empty());
    assert_eq!(m.birefnet_deps, None);
    let m = BackendMarker::parse(&format!(
        "{BACKEND_MARKER_HEADER}\nbackend=BiRefNet e2bf8e4460fc\nbirefnet-deps=ok\n"
    ))
    .expect("a real marker parses");
    assert_eq!(m.backend, "BiRefNet e2bf8e4460fc");
    assert_eq!(m.birefnet_deps, Some(true));
}

#[test]
fn a_fallback_alpha_is_renewed_only_when_this_machine_gained_the_backend() {
    let mk = |backend: &str, deps: Option<bool>| BackendMarker {
        backend: backend.to_string(),
        birefnet_deps: deps,
    };
    let fallback = "U^2-Net (FALLBACK - BiRefNet did not run)";
    let primary = "BiRefNet e2bf8e4460fc";

    // 1. Fell back for want of the dependency, and the dependency landed.
    assert!(marker_is_stale(&mk(fallback, Some(false)), Some(true)));
    // 2. Same alpha, machine still cannot run it.
    assert!(!marker_is_stale(&mk(fallback, Some(false)), Some(false)));
    // 3. The dependency was there and it fell back anyway.
    assert!(!marker_is_stale(&mk(fallback, Some(true)), Some(true)));
    // 4. The probe could not run at all: unknown is not "yes".
    assert!(!marker_is_stale(&mk(fallback, Some(false)), None));
    // 5. An older marker with no verdict recorded is likewise not "yes".
    assert!(!marker_is_stale(&mk(fallback, None), Some(true)));
    // 6. The pinned model's own alphas are never thrown away.
    assert!(!marker_is_stale(&mk(primary, Some(true)), Some(true)));
    assert!(!marker_is_stale(&mk(primary, Some(false)), Some(true)));
}

fn opts(target: &str) -> SegmentOpts {
    SegmentOpts {
        python_bin: "python".into(),
        script: "segment.py".into(),
        target: target.into(),
        reference_point: None,
    }
}

fn output(success: bool, code: Option<i32>, stdout: &str, stderr: &str) -> SidecarOutput {
    SidecarOutput {
        success,
        code,
        tail: "tail".into(),
        stdout: stdout.into(),
        stderr: stderr.into(),
    }
}

fn refusal(step: RunStep) -> (String, bool) {
    match step {
        RunStep::Refuse { why, discard } => (why, discard),
        other => panic!("expected a refusal, got {other:?}"),
    }
}

/// A run that got as far as an exit with code nought.
fn ended_run(target: &str, stdout: &str, stderr: &str) -> SegmentRun {
    let mut run = SegmentRun::new();
    let step = run.script_found(&opts(target), "in.png", "mask.png", true);
    assert!(matches!(step, RunStep::Launch { .. }));
    let step = run.ended(Ok(output(true, Some(0), stdout, stderr)));
    assert!(matches!(step, RunStep::CheckWritten));
    run
}

#[test]
fn a_preclaimed_empty_mask_the_sidecar_never_fills_is_refused() {
    let mut run = ended_run("sky", "", "");
    let (why, discard) = refusal(run.written(Err("mask.png is empty".into())));
    assert!(why.contains("is empty"), "{why}");
    assert!(discard);
}

#[test]
fn a_successful_run_hands_the_backend_label_back() {
    let mut run = ended_run(
        "subject",
        "segment.py: subject mask [U^2-Net (FALLBACK - BiRefNet did not run)] -> mask.png\n\
         segment.py: subject backend deps [missing]\n",
        "segment.py: loading\nlibrary noise\n  [denoise] shared\n",
    );
    assert!(matches!(run.written(Ok(())), RunStep::CheckDecodes));
    match run.decoded("mask.png", Ok(())) {
        RunStep::Adopt { lines } => {
            assert_eq!(lines, vec!["[segment] segment.py: loading", "[segment] [denoise] shared"])
        }
        other => panic!("{other:?}"),
    }
    let report = match run.adopted("mask.png", Ok(())) {
        RunStep::Accept { report } => report,
        other => panic!("{other:?}"),
    };
    assert_eq!(report.backend, "U^2-Net (FALLBACK - BiRefNet did not run)");
    assert!(report.is_fallback());
    assert_eq!(report.birefnet_deps, Some(false));

    let back = BackendMarker::parse(&BackendMarker::of_report(&report).render())
        .expect("the marker is readable");
    assert_eq!(back.backend, report.backend);
    assert_eq!(back.birefnet_deps, Some(false));
    assert_eq!(backend_marker_path("mask.png"), "mask.backend");
}

#[test]
fn an_unmarked_cached_alpha_is_left_alone() {
    assert!(!should_renew_cached_alpha(None, Some(true)), "no marker, no re-derivation");
    assert!(!renewal_needs_probe(None), "and nothing is asked");
    let cfg = SegmentConfig {
        python_bin: "autoshop-no-such-interpreter".into(),
        segment_script: "does-not-exist.py".into(),
    };
    let recipe = ai_recipe(ai_geometry(1, 0.5, 0.5));
    let shape = &ai_shapes(&recipe)[0];
    let mut job = AlphaJob::new(&cfg, "a.ARW", shape, 0, "ai-mask-0123456789abcdef.png".into());
    match job.looked(true, None) {
        AlphaStep::Done { outcome: AlphaOutcome::Reused { path } } => {
            assert_eq!(path, "ai-mask-0123456789abcdef.png")
        }
        other => panic!("{other:?}"),
    }
}

#[test]
fn a_garbage_mask_from_the_sidecar_is_refused() {
    let mut run = ended_run("sky", "", "");
    run.written(Ok(()));
    let (why, discard) = refusal(run.decoded("mask.png", Err("not a png".into())));
    assert!(why.contains("undecodable mask"), "{why}");
    assert!(discard);
}

fn ai_geometry(subtype: u32, ref_x: f32, ref_y: f32) -> MaskGeometry {
    MaskGeometry::AiMask {
        name: "Sky 1".into(),
        subtype,
        ref_x: s(ref_x),
        ref_y: s(ref_y),
        blend_mode: 0,
        value: s(1.0),
        inverted: false,
        mask_version: 1,
        provenance: Vec::new(),
        gesture: Vec::new(),
        raster: None,
    }
}

fn ai_recipe(g: MaskGeometry) -> EditRecipe {
    EditRecipe {
        masks: vec![LocalAdjustment {
            name: "Mask 1".into(),
            mask: g,
            exposure_ev: s(0.5),
            ..Default::default()
        }],
        ..Default::default()
    }
}

#[test]
fn the_ai_cache_key_covers_the_photo_the_subtype_and_the_click() {
    let a = "D:/rolls/2024/DSC0001.ARW";
    let b = "D:/rolls/2024/DSC0002.ARW";
    let base = ai_cache_key(a, 2, s(0.5), s(0.5), 0);
    assert_eq!(base, ai_cache_key(a, 2, s(0.5), s(0.5), 0), "the key is stable across calls");
    assert_ne!(base, ai_cache_key(b, 2, s(0.5), s(0.5), 0), "a different photo");
    assert_ne!(base, ai_cache_key(a, 0, s(0.5), s(0.5), 0), "a different backend");
    assert_ne!(base, ai_cache_key(a, 2, s(0.9), s(0.5), 0), "a moved click");
    assert_ne!(base, ai_cache_key(a, 2, s(0.5), s(0.9), 0), "in either axis");
    assert!(
        base.starts_with("ai-mask-")
            && base[8..].chars().all(|c| c.is_ascii_hexdigit())
            && base.len() == 8 + 16,
        "the key must be a bare, filesystem-safe stem: {base}"
    );
}

#[test]
fn the_ai_cache_key_separates_the_frames_even_at_the_rotation_fixed_point() {
    let a = "D:/rolls/2024/DSC0001.ARW";
    let keys: Vec<String> = (0u8..4).map(|t| ai_cache_key(a, 2, s(0.5), s(0.5), t)).collect();
    for i in 0..keys.len() {
        for j in (i + 1)..keys.len() {
            assert_ne!(keys[i], keys[j], "{i} and {j} quarter turns must not share an alpha");
        }
    }
    assert_eq!(keys[1], ai_cache_key(a, 2, s(0.5), s(0.5), 5));
}

#[test]
fn the_backend_generation_is_in_the_key_and_the_birefnet_swap_bumped_it() {
    assert_eq!(AI_BACKEND_GENERATION, 2);
    let a = "D:/rolls/2024/DSC0001.ARW";
    let g1 = ai_cache_key_gen(a, 1, s(0.5), s(0.5), 0, 1);
    let g2 = ai_cache_key_gen(a, 1, s(0.5), s(0.5), 0, 2);
    assert_ne!(g1, g2, "a re-pinned segmenter must not be served yesterday's alpha");
    assert_eq!(g2, ai_cache_key(a, 1, s(0.5), s(0.5), 0));
}

/// The hash of the identity, worked out byte by byte.
#[test]
fn the_key_is_the_hash_of_the_identity() {
    let mut h: u64 = 0xcbf2_9ce4_8422_2325;
    for b in "a é|1|0.500000|-0.250000|t3|7".bytes() {
        h = (h ^ b as u64).wrapping_mul(0x0000_0100_0000_01b3);
    }
    assert_eq!(
        ai_cache_key_gen("a é", 1, s(0.5), s(-0.25), 3, 7),
        format!("ai-mask-{h:016x}")
    );
}

#[test]
fn two_staged_source_frames_never_share_a_name() {
    let (a, b) = (staging_name(4711, 0, "DSC0001"), staging_name(4711, 1, "DSC0001"));
    assert_ne!(a, b, "same process, same stem: the names must still differ");
    for name in [&a, &b] {
        assert!(name.starts_with("autoshop-ai-src-4711-"), "{name}");
        assert!(name.ends_with("-DSC0001.png"), "{name}");
    }
}

#[test]
fn a_failed_segmentation_leaves_the_ai_mask_carried_and_says_why() {
    let cfg = SegmentConfig {
        python_bin: "python".into(),
        segment_script: "no-such-segment-script-for-this-test.py".into(),
    };
    let mut r = ai_recipe(ai_geometry(2, 0.5, 0.5));
    let mut got = AiMaskResolution::default();
    let shapes = ai_shapes(&r);
    assert_eq!(shapes.len(), 1);
    let mut job = AlphaJob::new(&cfg, "D:/rolls/2024/DSC0001.ARW", &shapes[0], 0, "x.png".into());
    assert!(matches!(job.looked(false, None), AlphaStep::FindScript));
    let outcome = match job.script_found(false, FrameState::Unasked) {
        AlphaStep::Done { outcome } => outcome,
        other => panic!("{other:?}"),
    };
    settle(&mut r, &mut got, &shapes[0], outcome);
    assert_eq!(got.resolved, 0);
    assert_eq!(got.unresolved.len(), 1, "{got:?}");
    assert_eq!(got.unresolved[0].0, "Mask 1", "the sentence names WHICH mask");
    assert!(
        got.unresolved[0].1.contains("no-such-segment-script-for-this-test.py"),
        "and WHY: {got:?}"
    );
    let MaskGeometry::AiMask { raster, subtype, .. } = &r.masks[0].mask else {
        panic!("the geometry must survive the failure");
    };
    assert!(raster.is_none(), "no alpha, and no pretence of one");
    assert_eq!(*subtype, 2);
    let line = got.describe().unwrap();
    assert!(line.contains("carried but NOT rendered"), "{line}");
}

#[test]
fn a_recipe_without_an_ai_mask_does_no_work_at_all() {
    let r = EditRecipe {
        masks: vec![LocalAdjustment {
            mask: MaskGeometry::Linear {
                zero_x: s(0.5),
                zero_y: s(0.8),
                full_x: s(0.5),
                full_y: s(0.2),
            },
            exposure_ev: s(0.5),
            ..Default::default()
        }],
        ..Default::default()
    };
    assert!(ai_shapes(&r).is_empty());
    let mut resolved = r.clone();
    let got = settle_all(&mut resolved, Vec::new());
    assert_eq!(got, AiMaskResolution::default(), "no outcomes, no account");
    assert_eq!(resolved, r, "and the recipe is as it was");
    assert!(got.describe().is_none(), "nothing happened, so nothing is claimed");
}

/// The whole way of a stale alpha: probed, cleared, made anew with a marker, and
/// not stale again.
#[test]
fn a_stale_alpha_is_made_anew_once() {
    let cfg = SegmentConfig { python_bin: "python".into(), segment_script: "segment.py".into() };
    let mut r = ai_recipe(ai_geometry(1, 0.25, 0.75));
    let shapes = ai_shapes(&r);
    let mut job = AlphaJob::new(&cfg, "a.ARW", &shapes[0], 1, "alpha.png".into());
    let old = BackendMarker {
        backend: "U^2-Net (FALLBACK - BiRefNet did not run)".into(),
        birefnet_deps: Some(false),
    };
    assert!(matches!(job.looked(true, Some(old)), AlphaStep::Probe));
    assert!(matches!(job.probed(Some(true)), AlphaStep::Clear));
    assert!(matches!(job.cleared(), AlphaStep::FindScript));
    let mut frame = FrameState::Unasked;
    assert!(matches!(job.script_found(true, frame), AlphaStep::StageFrame));
    assert!(matches!(job.staged(true, &mut frame), AlphaStep::Segment));
    assert_eq!(frame, FrameState::Ready);
    let report = SegmentReport { backend: "BiRefNet e2bf".into(), birefnet_deps: Some(true) };
    let (step, marker) = job.ran(Ok(report));
    let marker = marker.expect("a made alpha leaves a marker");
    assert!(!marker_is_stale(&marker, Some(true)));
    let outcome = match step {
        AlphaStep::Done { outcome } => outcome,
        other => panic!("{other:?}"),
    };
    let mut got = AiMaskResolution::default();
    settle(&mut r, &mut got, &shapes[0], outcome);
    assert_eq!((got.resolved, got.cached, got.renewed), (1, 0, 1));
    let MaskGeometry::AiMask { raster, .. } = &r.masks[0].mask else { panic!() };
    assert_eq!(raster.as_deref(), Some("alpha.png"));
    assert!(got.describe().unwrap().contains("1 re-segmented"), "{:?}", got.describe());
}

#[test]
fn a_frame_is_staged_once_and_its_failure_is_remembered() {
    let cfg = SegmentConfig { python_bin: "python".into(), segment_script: "segment.py".into() };
    let r = ai_recipe(ai_geometry(2, 0.5, 0.5));
    let shapes = ai_shapes(&r);
    let mut frame = FrameState::Unasked;
    let mut first = AlphaJob::new(&cfg, "a.ARW", &shapes[0], 0, "a.png".into());
    first.looked(false, None);
    assert!(matches!(first.script_found(true, frame), AlphaStep::StageFrame));
    match first.staged(false, &mut frame) {
        AlphaStep::Done { outcome: AlphaOutcome::Left { why } } => {
            assert_eq!(why, "the source frame could not be decoded")
        }
        other => panic!("{other:?}"),
    }
    let mut second = AlphaJob::new(&cfg, "a.ARW", &shapes[0], 0, "b.png".into());
    second.looked(false, None);
    assert!(matches!(
        second.script_found(true, frame),
        AlphaStep::Done { outcome: AlphaOutcome::Left { .. } }
    ));
    let mut third = AlphaJob::new(&cfg, "a.ARW", &shapes[0], 0, "c.png".into());
    third.looked(false, None);
    assert!(matches!(third.script_found(true, FrameState::Ready), AlphaStep::Segment));
    let (step, marker) = third.ran(Err("no card".into()));
    assert!(marker.is_none());
    assert!(matches!(step, AlphaStep::Done { outcome: AlphaOutcome::Left { .. } }));
}

#[test]
fn a_subtype_without_a_backend_is_left() {
    let cfg = SegmentConfig { python_bin: "python".into(), segment_script: "segment.py".into() };
    assert!(SegmentOpts::for_ai_mask(&cfg, 3, s(0.5), s(0.5), &Vec::new()).is_none());
    let o = SegmentOpts::for_ai_mask(&cfg, 0, s(0.5), s(0.125), &Vec::new()).unwrap();
    assert_eq!(o.target, "object");
    assert_eq!(o.reference_point.as_deref(), Some("0.500000 0.125000"));
    let r = ai_recipe(ai_geometry(9, 0.5, 0.5));
    let shapes = ai_shapes(&r);
    let mut job = AlphaJob::new(&cfg, "a.ARW", &shapes[0], 0, "a.png".into());
    match job.looked(false, None) {
        AlphaStep::Done { outcome: AlphaOutcome::Left { why } } => {
            assert!(why.contains('9'), "{why}")
        }
        other => panic!("{other:?}"),
    }
}

#[test]
fn the_sidecar_command_line() {
    let mut o = SegmentOpts::from_config(
        &SegmentConfig { python_bin: "py".into(), segment_script: "s.py".into() },
        "subject",
    );
    assert_eq!(
        sidecar_arguments(&o, "in", "out"),
        vec!["-E", "s.py", "--input", "in", "--output", "out", "--target", "subject"]
    );
    o.reference_point = Some("0.5 0.5".into());
    assert_eq!(sidecar_arguments(&o, "in", "out")[8..], ["--reference-point", "0.5 0.5"]);
    assert_eq!(probe_arguments(&o), vec!["-E", "s.py", "--target", "subject", "--probe-backend"]);
    assert_eq!(probe_verdict(true, "segment.py: subject backend deps [ok]\n"), Some(true));
    assert_eq!(probe_verdict(false, "segment.py: subject backend deps [ok]\n"), None);
    assert_eq!(forwarded("x\n segment.py: y \n"), vec!["[segment] segment.py: y"]);
    assert!(backend_is_fallback("a FALLBACK"));
    assert!(!backend_is_fallback("BiRefNet"));
}

#[test]
fn every_way_a_run_can_fail_says_why() {
    let mut missing = SegmentRun::new();
    let (why, discard) = refusal(missing.script_found(&opts("sky"), "i", "o", false));
    assert!(why.starts_with("segmentation sidecar not found at segment.py"), "{why}");
    assert!(!discard);

    let mut broken = SegmentRun::new();
    broken.script_found(&opts("sky"), "i", "o", true);
    assert_eq!(refusal(broken.ended(Err("timed out".into()))), ("timed out".into(), true));

    let mut failed = SegmentRun::new();
    failed.script_found(&opts("sky"), "i", "o", true);
    let (why, discard) = refusal(failed.ended(Ok(output(false, Some(-3), "", ""))));
    assert_eq!(why, "segmentation sidecar exited with -3: tail");
    assert!(discard);

    let mut killed = SegmentRun::new();
    killed.script_found(&opts("sky"), "i", "o", true);
    let (why, _) = refusal(killed.ended(Ok(output(false, None, "", ""))));
    assert_eq!(why, "segmentation sidecar exited with signal: tail");

    let mut loose = ended_run("sky", "", "");
    loose.written(Ok(()));
    loose.decoded("o", Ok(()));
    let (why, discard) = refusal(loose.adopted("o", Err("disk full".into())));
    assert_eq!(why, "sync segmentation output o: disk full");
    assert!(!discard);
}

#[test]
fn a_marker_survives_being_written_and_read() {
    for deps in [None, Some(true), Some(false)] {
        let m = BackendMarker { backend: "SAM 2.1 [large]".into(), birefnet_deps: deps };
        let back = BackendMarker::parse(&m.render()).expect("readable");
        assert_eq!(back.backend, m.backend);
        assert_eq!(back.birefnet_deps, deps);
    }
}

#[test]
fn every_mask_of_a_pass_is_accounted_for() {
    let mut r = ai_recipe(ai_geometry(1, 0.25, 0.75));
    let shapes = ai_shapes(&r);
    let mut got = AiMaskResolution::default();
    let outcomes = [
        AlphaOutcome::Reused { path: "a.png".into() },
        AlphaOutcome::Made { path: "b.png".into(), renewed: true },
        AlphaOutcome::Made { path: "c.png".into(), renewed: false },
        AlphaOutcome::Left { why: "no backend".into() },
    ];
    for outcome in outcomes {
        settle(&mut r, &mut got, &shapes[0], outcome);
    }
    assert_eq!((got.resolved, got.cached, got.renewed), (3, 1, 1));
    assert_eq!(got.resolved + got.unresolved.len(), 4);
}

fn with_gesture(subtype: u32, dabs: &[&str]) -> EditRecipe {
    let mut g = ai_geometry(subtype, 0.5, 0.125);
    if let MaskGeometry::AiMask { gesture, .. } = &mut g {
        *gesture = dabs
            .iter()
            .map(|d| BrushStroke { dabs: d.to_string(), ..Default::default() })
            .collect();
    }
    ai_recipe(g)
}

/// An object is prompted with its click and then with every dab of every stroke, doubles
/// kept; the settings between the dabs are no points.
#[test]
fn the_points_of_a_gesture_are_sent_in_order() {
    let cfg = SegmentConfig { python_bin: "python".into(), segment_script: "segment.py".into() };
    let strokes =
        ["r 0.1\nd 0.2 0.3\nf 0.5\nd 0.2 0.3\nh 1", "d 0.900000 0.800000\n", "r 0.1"];
    let r = with_gesture(0, &strokes);
    let shapes = ai_shapes(&r);
    assert_eq!(shapes[0].gesture, vec!["0.2 0.3", "0.2 0.3", "0.900000 0.800000"]);
    let job = AlphaJob::new(&cfg, "a.ARW", &shapes[0], 0, "a.png".into());
    assert_eq!(
        job.opts.unwrap().reference_point.as_deref(),
        Some("0.500000 0.125000 0.2 0.3 0.2 0.3 0.900000 0.800000")
    );
    for subtype in [1, 2] {
        let r = with_gesture(subtype, &strokes);
        let job = AlphaJob::new(&cfg, "a.ARW", &ai_shapes(&r)[0], 0, "a.png".into());
        assert_eq!(job.opts.unwrap().reference_point.as_deref(), Some("0.500000 0.125000"));
    }
}

/// A moved dab is another alpha of an object, and the same one of a subject or a sky.
#[test]
fn the_name_of_an_alpha_covers_the_gesture_of_an_object() {
    let name = |subtype: u32, dabs: &[&str]| {
        ai_shapes(&with_gesture(subtype, dabs))[0].cache_key("a.ARW", 0)
    };
    let plain = ai_cache_key("a.ARW", 0, s(0.5), s(0.125), 0);
    assert_eq!(name(0, &[]), plain);
    assert_eq!(name(0, &["r 0.1"]), plain, "a gesture without a dab sends nothing more");
    let drawn = name(0, &["d 0.2 0.3"]);
    assert_ne!(drawn, plain);
    assert_ne!(drawn, name(0, &["d 0.2 0.4"]), "a moved dab");
    assert_ne!(drawn, name(0, &["d 0.2 0.3\nd 0.2 0.3"]), "a doubled dab");
    assert_ne!(name(0, &["d 0.1 0.1", "d 0.2 0.2"]), name(0, &["d 0.2 0.2", "d 0.1 0.1"]));
    assert_eq!(name(0, &["d 0.1 0.1", "d 0.2 0.2"]), name(0, &["d 0.1 0.1\nd 0.2 0.2"]));
    for subtype in [1, 2] {
        assert_eq!(name(subtype, &["d 0.2 0.3"]), name(subtype, &[]));
    }

    let hash = |text: &str| {
        text.bytes().fold(0xcbf2_9ce4_8422_2325u64, |h, b| {
            (h ^ b as u64).wrapping_mul(0x0000_0100_0000_01b3)
        })
    };
    let sent = hash("0.500000 0.125000 0.2 0.3");
    let whole = hash("a.ARW|0|0.500000|0.125000|t0|2");
    assert_eq!(drawn, format!("ai-mask-{whole:016x}-{sent:016x}"));
}

#[test]
fn all_outcomes_of_a_pass_are_entered_at_once() {
    let mut r = with_gesture(0, &["d 0.2 0.3"]);
    r.masks.push(LocalAdjustment { mask: ai_geometry(1, 0.5, 0.5), ..Default::default() });
    let got = settle_all(
        &mut r,
        vec![
            AlphaOutcome::Left { why: "no script".into() },
            AlphaOutcome::Made { path: "b.png".into(), renewed: true },
        ],
    );
    assert_eq!((got.resolved, got.cached, got.renewed), (1, 0, 1));
    assert_eq!(got.unresolved, vec![("Mask 1".to_string(), "no script".to_string())]);
    let raster = |i: usize| match &r.masks[i].mask {
        MaskGeometry::AiMask { raster, .. } => raster.clone(),
        _ => panic!("an AI mask"),
    };
    assert_eq!((raster(0), raster(1)), (None, Some("b.png".to_string())));
}

#[test]
fn the_marker_keeps_the_directories_of_its_alpha() {
    assert_eq!(backend_marker_path("a.b/m"), "a.b/m.backend");
    assert_eq!(backend_marker_path("a.b/m.n.png"), "a.b/m.n.backend");
    assert_eq!(backend_marker_path("a.b/.m"), "a.b/.m.backend");
    assert_eq!(backend_marker_path(".m"), ".m.backend");
}

/// What a library writes between the sidecar's own lines says nothing.
#[test]
fn unmarked_lines_leave_a_report_as_it_was() {
    let own = "segment.py: sky mask [A] -> m.png\nsegment.py: subject backend deps [ok]\n";
    let mixed = "torch: sky mask [B] -> n.png\nsegment.py: sky mask [A] -> m.png\n\
                 subject backend deps [missing]\nsegment.py: subject backend deps [ok]\nx mask [C]\n";
    assert_eq!(SegmentReport::parse(mixed), SegmentReport::parse(own));
    assert_eq!(SegmentReport::parse("a mask [B]\n"), SegmentReport::parse(""));
}

/// A pass leaves everything but the alphas of what it resolved.
#[test]
fn only_the_alphas_of_resolved_masks_change() {
    let mut r = with_gesture(0, &["d 0.2 0.3"]);
    r.masks.push(LocalAdjustment {
        mask: MaskGeometry::Linear { zero_x: s(0.5), zero_y: s(0.8), full_x: s(0.5), full_y: s(0.2) },
        ..Default::default()
    });
    r.masks.push(LocalAdjustment { mask: ai_geometry(1, 0.5, 0.5), ..Default::default() });
    let mut after = r.clone();
    settle_all(
        &mut after,
        vec![
            AlphaOutcome::Reused { path: "a.png".into() },
            AlphaOutcome::Left { why: "no script".into() },
        ],
    );
    assert_ne!(after, r);
    if let MaskGeometry::AiMask { raster, .. } = &mut after.masks[0].mask {
        assert_eq!(raster.take().as_deref(), Some("a.png"));
    }
    assert_eq!(after, r, "and nothing else");
}
