//! One heal or clone run: which spots it heals, what it reports, and how the
//! depth and the transparency of the picture come through.

use vstd::prelude::*;
use vstd::string::*;
use crate::numbers::THREE_TENTHS;
use crate::painted::{budget_note, painted, plan, plan_from_mask, PaintedMask, Planned};
use crate::single::{num, Single};
use crate::spots::{
    all_well_formed, note_views, spot_views, HealNote, HealSpot, NoteView, RetouchPlan, SpotView,
};

verus! {

/// What came of looking for spots automatically.
pub enum Detection {
    /// It was not asked for.
    Off,
    Found(RetouchPlan),
    Failed(String),
}

/// What a run heals, and what there is to say about it.
pub struct Gathered {
    pub spots: Vec<HealSpot>,
    /// The detector's own words.
    pub rationale: String,
    pub notes: Vec<HealNote>,
}

/// The plan of a mask.
pub open spec fn mask_plan(mask: PaintedMask) -> Planned {
    plan(painted(mask.alpha@), mask.width as int, mask.height as int)
}

/// The spots of a mask; none without a mask.
pub open spec fn mask_spots(mask: Option<&PaintedMask>) -> Seq<SpotView> {
    match mask {
        Some(m) => mask_plan(*m).spots,
        None => Seq::empty(),
    }
}

/// The note on a mask; none without a mask.
pub open spec fn mask_note(mask: Option<&PaintedMask>) -> Option<NoteView> {
    match mask {
        Some(m) => budget_note(mask_plan(*m)),
        None => None,
    }
}

impl Detection {
    pub open spec fn found(self) -> Seq<SpotView> {
        match self {
            Detection::Found(p) => spot_views(p.spots@),
            _ => Seq::empty(),
        }
    }

    pub open spec fn words(self) -> Seq<char> {
        match self {
            Detection::Found(p) => p.rationale@,
            _ => Seq::empty(),
        }
    }

    pub open spec fn well_formed(self) -> bool {
        match self {
            Detection::Found(p) => all_well_formed(p.spots@),
            _ => true,
        }
    }
}

/// The spots of a run: those that were detected, then those that were painted.
pub open spec fn run_spots(mask: Option<&PaintedMask>, detection: Detection) -> Seq<SpotView> {
    detection.found() + mask_spots(mask)
}

/// The notes of a run: that detection failed, and that the mask went over its
/// budgets, which is set apart from whatever was said before.
pub open spec fn run_notes(mask: Option<&PaintedMask>, detection: Detection) -> Seq<NoteView> {
    let failed = match detection {
        Detection::Failed(e) => seq![NoteView::DetectFailed { error: e@ }],
        _ => Seq::empty(),
    };
    match mask_note(mask) {
        None => failed,
        Some(n) => if detection.words().len() > 0 || failed.len() > 0 {
            failed + seq![NoteView::Separator, n]
        } else {
            failed + seq![n]
        },
    }
}

/// Why there is nothing to heal, of each input that was given.
pub open spec fn nothing_to_heal(masked: bool, detection: Detection) -> Seq<char> {
    let mask_part = "the painted mask selected no area"@;
    let auto_part = match detection {
        Detection::Failed(_) => "AI spot-detection failed (see the warning above)"@,
        _ => "AI detection found no spots"@,
    };
    "nothing to heal: "@ + if masked && !(detection is Off) {
        mask_part + "; "@ + auto_part
    } else if masked {
        mask_part
    } else if !(detection is Off) {
        auto_part
    } else {
        "no mask was given and AI detection was off"@
    }
}

/// The reason why a run heals nothing, if it heals nothing: detection failed and
/// nothing was painted, or no spot came of it.
pub open spec fn refusal(mask: Option<&PaintedMask>, detection: Detection) -> Option<Seq<char>> {
    match (mask, detection) {
        (None, Detection::Failed(e)) => Some(e@),
        _ => if run_spots(mask, detection).len() == 0 {
            Some(nothing_to_heal(mask is Some, detection))
        } else {
            None
        },
    }
}

fn refuse(masked: bool, automatic: bool, failed: bool) -> (r: String)
    requires
        failed ==> automatic,
    ensures
        forall|d: Detection|
            (d is Off <==> !automatic) && (d is Failed <==> failed) ==> r@
                == #[trigger] nothing_to_heal(masked, d),
{
    let mut r: String = "nothing to heal: ".to_owned();
    let auto_part: &str = if failed {
        "AI spot-detection failed (see the warning above)"
    } else {
        "AI detection found no spots"
    };
    let ghost head = r@;
    if masked {
        r.append("the painted mask selected no area");
        if automatic {
            r.append("; ");
            r.append(auto_part);
            assert(r@ =~= head + ("the painted mask selected no area"@ + "; "@ + auto_part@));
        }
    } else if automatic {
        r.append(auto_part);
    } else {
        r.append("no mask was given and AI detection was off");
    }
    r
}

/// What is healed, from what was detected and what was painted. A failed
/// detection stops the run only where nothing was painted.
pub fn heal(mask: Option<&PaintedMask>, detection: Detection) -> (r: Result<Gathered, String>)
    requires
        match mask {
            Some(m) => m.well_formed(),
            None => true,
        },
        detection.well_formed(),
    ensures
        match r {
            Err(e) => refusal(mask, detection) == Some(e@),
            Ok(g) => {
                &&& refusal(mask, detection) is None
                &&& all_well_formed(g.spots@)
                &&& spot_views(g.spots@) == run_spots(mask, detection)
                &&& g.rationale@ == detection.words()
                &&& note_views(g.notes@) == run_notes(mask, detection)
            },
        },
{
    let ghost given = detection;
    let mut notes: Vec<HealNote> = Vec::new();
    let mut spots: Vec<HealSpot> = Vec::new();
    let mut rationale: String = String::new();
    let mut automatic: bool = true;
    let mut failed: bool = false;
    match detection {
        Detection::Off => {
            automatic = false;
        },
        Detection::Found(p) => {
            spots = p.spots;
            rationale = p.rationale;
        },
        Detection::Failed(e) => {
            if mask.is_none() {
                return Err(e);
            }
            failed = true;
            notes.push(HealNote::DetectFailed { error: e });
        },
    }
    let ghost first_notes = note_views(notes@);
    let ghost first_spots = spots@;
    proof {
        assert(spot_views(spots@) =~= given.found());
        assert(rationale@ =~= given.words());
        assert(first_notes =~= match given {
            Detection::Failed(e) => seq![NoteView::DetectFailed { error: e@ }],
            _ => Seq::empty(),
        });
        assert(given.found() + Seq::<SpotView>::empty() =~= given.found());
    }
    match mask {
        None => {},
        Some(m) => {
            let (mut planned, note) = plan_from_mask(m);
            let ghost painted_spots = planned@;
            spots.append(&mut planned);
            proof {
                assert(spots@ =~= first_spots + painted_spots);
                assert(spot_views(spots@) =~= given.found() + mask_spots(mask));
            }
            match note {
                None => {},
                Some(n) => {
                    if failed || !rationale.as_str().is_empty() {
                        notes.push(HealNote::Separator);
                    }
                    let ghost last = n@;
                    notes.push(n);
                    proof {
                        assert(note_views(notes@) =~= if failed || rationale@.len() > 0 {
                            first_notes + seq![NoteView::Separator, last]
                        } else {
                            first_notes + seq![last]
                        });
                    }
                },
            }
        },
    }
    if spots.len() == 0 {
        proof {
            assert(spot_views(spots@).len() == 0);
        }
        return Err(refuse(mask.is_some(), automatic, failed));
    }
    assert(spot_views(spots@).len() == spots@.len());
    Ok(Gathered { spots, rationale, notes })
}

/// A painted spot as a target of the clone stamp: its donor lies at the point
/// that was picked, and is copied as it is.
pub open spec fn cloned_spot(s: SpotView, source: (Single, Single)) -> SpotView {
    SpotView {
        source: Some((source.0.difference(s.cx), source.1.difference(s.cy))),
        clone_raw: true,
        feather: num(THREE_TENTHS),
        label: "clone"@,
        ..s
    }
}

/// The targets of the clone stamp, all of them cloned from the same point.
#[verifier::rlimit(30)]
pub fn clone_stamp(mask: &PaintedMask, source: (Single, Single)) -> (r: Result<Gathered, String>)
    requires
        mask.well_formed(),
    ensures
        match r {
            Err(e) => mask_plan(*mask).spots.len() == 0 && e@
                == "nothing painted \u{2014} brush over the target area first"@,
            Ok(g) => {
                &&& mask_plan(*mask).spots.len() > 0
                &&& all_well_formed(g.spots@)
                &&& spot_views(g.spots@) == Seq::new(
                    mask_plan(*mask).spots.len(),
                    |i: int| cloned_spot(mask_plan(*mask).spots[i], source),
                )
                &&& g.rationale@.len() == 0
                &&& note_views(g.notes@) == match budget_note(mask_plan(*mask)) {
                    Some(n) => seq![n],
                    None => Seq::empty(),
                }
            },
        },
{
    let (mut spots, note) = plan_from_mask(mask);
    let ghost views = mask_plan(*mask).spots;
    let n: usize = spots.len();
    if n == 0 {
        return Err("nothing painted \u{2014} brush over the target area first".to_owned());
    }
    assert(views.len() == n);
    for i in 0..n
        invariant
            n == spots@.len(),
            views.len() == n,
            all_well_formed(spots@),
            forall|j: int| 0 <= j < i ==> (#[trigger] spots@[j])@ == cloned_spot(views[j], source),
            forall|j: int| i <= j < n ==> (#[trigger] spots@[j])@ == views[j],
    {
        let label: String = "clone".to_owned();
        let ghost before = spots@;
        let s: &mut HealSpot = &mut spots[i];
        s.source = Some((source.0.minus(s.cx), source.1.minus(s.cy)));
        s.clone_raw = true;
        s.feather = Single::from_bits(THREE_TENTHS);
        s.label = label;
        proof {
            assert(before[i as int].well_formed());
            assert(spots@[i as int].well_formed());
            assert(spots@[i as int]@ =~= cloned_spot(views[i as int], source));
        }
    }
    let mut notes: Vec<HealNote> = Vec::new();
    match note {
        None => {
            assert(note_views(notes@) =~= Seq::<NoteView>::empty());
        },
        Some(m) => {
            let ghost said = m@;
            notes.push(m);
            assert(note_views(notes@) =~= seq![said]);
        },
    }
    proof {
        assert(spot_views(spots@) =~= Seq::new(
            views.len(),
            |i: int| cloned_spot(mask_plan(*mask).spots[i], source),
        ));
    }
    Ok(Gathered { spots, rationale: String::new(), notes })
}

/// What a run is reported as.
pub struct HealReport {
    pub spots: usize,
    /// The words of the run: the detector's own here; whoever shows the report puts the
    /// notes in words behind them.
    pub rationale: String,
    pub dims: (u32, u32),
    pub notes: Vec<HealNote>,
}

impl HealReport {
    pub fn of(run: Gathered, dims: (u32, u32)) -> (r: HealReport)
        ensures
            r.spots == run.spots@.len(),
            r.rationale@ == run.rationale@,
            r.dims == dims,
            r.notes@ == run.notes@,
    {
        let spots: usize = run.spots.len();
        HealReport { spots, rationale: run.rationale, dims, notes: run.notes }
    }
}

} // verus!
