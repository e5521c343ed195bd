//! What is to be healed: spots, plans of spots, and the notes that go with them.

use vstd::prelude::*;
use vstd::string::*;
use crate::bits::Bits;
use crate::numbers::{HALF, ONE, ONE_FIFTIETH, TWO_FIFTHS, ZERO};
use crate::single::{num, Single};
use crate::text::{decimal, decimal_text};

verus! {

/// The painted pixels of one region, one bit for each pixel of the rectangle
/// that holds it, and the size of the mask that they were painted on.
#[derive(Debug)]
pub struct SpotCoverage {
    pub mask_width: u32,
    pub mask_height: u32,
    pub x: u32,
    pub y: u32,
    pub width: u32,
    pub height: u32,
    pub bits: Bits,
}

/// What a [`SpotCoverage`] says.
#[verifier::ext_equal]
pub struct CoverageView {
    pub mask_width: u32,
    pub mask_height: u32,
    pub x: u32,
    pub y: u32,
    pub width: u32,
    pub height: u32,
    pub bits: Seq<bool>,
}

impl View for SpotCoverage {
    type V = CoverageView;

    open spec fn view(&self) -> CoverageView {
        CoverageView {
            mask_width: self.mask_width,
            mask_height: self.mask_height,
            x: self.x,
            y: self.y,
            width: self.width,
            height: self.height,
            bits: self.bits@,
        }
    }
}

impl CoverageView {
    /// There is a bit for each pixel of the rectangle.
    pub open spec fn well_formed(self) -> bool {
        self.bits.len() == self.width * self.height
    }

    /// One where the mask is painted at `(x, y)`, zero elsewhere.
    pub open spec fn pixel(self, x: int, y: int) -> Single {
        let lx = x - self.x;
        let ly = y - self.y;
        if 0 <= lx < self.width && 0 <= ly < self.height && self.bits[ly * self.width + lx] {
            num(ONE)
        } else {
            num(ZERO)
        }
    }

    /// How much of the point `(nx, ny)`, in fractions of the mask, is painted:
    /// the four pixels around it, weighed by how near they are.
    pub open spec fn alpha_at(self, nx: Single, ny: Single) -> Single {
        let x = nx.clamped(num(ZERO), num(ONE)).product(
            Single::of_whole(self.mask_width as int),
        ).difference(num(HALF));
        let y = ny.clamped(num(ZERO), num(ONE)).product(
            Single::of_whole(self.mask_height as int),
        ).difference(num(HALF));
        let x0 = x.floored().cast(i32::MIN as int, i32::MAX as int);
        let y0 = y.floored().cast(i32::MIN as int, i32::MAX as int);
        let fx = x.difference(Single::of_int(x0));
        let fy = y.difference(Single::of_int(y0));
        let gx = num(ONE).difference(fx);
        let gy = num(ONE).difference(fy);
        let top = self.pixel(x0, y0).product(gx).sum(self.pixel(x0 + 1, y0).product(fx));
        let bottom = self.pixel(x0, y0 + 1).product(gx).sum(
            self.pixel(x0 + 1, y0 + 1).product(fx),
        );
        top.product(gy).sum(bottom.product(fy)).clamped(num(ZERO), num(ONE))
    }
}

impl SpotCoverage {
    /// There is a bit for each pixel of the rectangle.
    pub open spec fn well_formed(self) -> bool {
        self.bits.well_formed() && self@.well_formed()
    }

    fn pixel(&self, x: i64, y: i64) -> (r: Single)
        requires
            self.well_formed(),
            -0x1_0000_0000 <= x <= 0x1_0000_0000,
            -0x1_0000_0000 <= y <= 0x1_0000_0000,
        ensures
            r == self@.pixel(x as int, y as int),
    {
        let lx: i64 = x - self.x as i64;
        let ly: i64 = y - self.y as i64;
        if lx < 0 || ly < 0 || lx >= self.width as i64 || ly >= self.height as i64 {
            return Single::from_bits(ZERO);
        }
        let n: usize = self.bits.len();
        proof {
            assert(n == self.width * self.height);
            assert(0 <= ly * self.width && ly * self.width + lx < self.width * self.height)
                by (nonlinear_arith)
                requires
                    0 <= lx < self.width,
                    0 <= ly < self.height,
            ;
        }
        let i: usize = ly as usize * self.width as usize + lx as usize;
        if self.bits.get(i) {
            Single::from_bits(ONE)
        } else {
            Single::from_bits(ZERO)
        }
    }

    /// How much of a point is painted, between the pixels too: the painted mask
    /// and the image that is healed may differ in size.
    pub fn alpha_at(&self, nx: Single, ny: Single) -> (r: Single)
        requires
            self.well_formed(),
        ensures
            r == self@.alpha_at(nx, ny),
    {
        let zero: Single = Single::from_bits(ZERO);
        let one: Single = Single::from_bits(ONE);
        let half: Single = Single::from_bits(HALF);
        let x: Single = nx.clamp(zero, one).times(Single::from_u64(self.mask_width as u64)).minus(
            half,
        );
        let y: Single = ny.clamp(zero, one).times(Single::from_u64(self.mask_height as u64)).minus(
            half,
        );
        let x0: i64 = x.floor().to_i32() as i64;
        let y0: i64 = y.floor().to_i32() as i64;
        let fx: Single = x.minus(Single::from_i64(x0));
        let fy: Single = y.minus(Single::from_i64(y0));
        let gx: Single = one.minus(fx);
        let gy: Single = one.minus(fy);
        let top: Single = self.pixel(x0, y0).times(gx).plus(self.pixel(x0 + 1, y0).times(fx));
        let bottom: Single = self.pixel(x0, y0 + 1).times(gx).plus(
            self.pixel(x0 + 1, y0 + 1).times(fx),
        );
        top.times(gy).plus(bottom.times(fy)).clamp(zero, one)
    }
}

impl Clone for SpotCoverage {
    fn clone(&self) -> (r: SpotCoverage)
        ensures
            r@ == self@,
            self.well_formed() ==> r.well_formed(),
    {
        SpotCoverage {
            mask_width: self.mask_width,
            mask_height: self.mask_height,
            x: self.x,
            y: self.y,
            width: self.width,
            height: self.height,
            bits: self.bits.clone(),
        }
    }
}

/// One place to heal from real pixels near it: a disk around `(cx, cy)`, in
/// fractions of the frame, with a radius in fractions of the short side.
#[derive(Debug)]
pub struct HealSpot {
    pub cx: Single,
    pub cy: Single,
    pub radius: Single,
    pub feather: Single,
    /// Where the donor lies, from the middle of the spot, in fractions of the
    /// frame. With none, the best donor is searched.
    pub source: Option<(Single, Single)>,
    /// The painted shape. Spots that were not painted have none.
    pub coverage: Option<SpotCoverage>,
    /// The donor is copied as it is, without matching its tone to the border.
    pub clone_raw: bool,
    pub label: String,
}

/// What a [`HealSpot`] says.
#[verifier::ext_equal]
pub struct SpotView {
    pub cx: Single,
    pub cy: Single,
    pub radius: Single,
    pub feather: Single,
    pub source: Option<(Single, Single)>,
    pub coverage: Option<CoverageView>,
    pub clone_raw: bool,
    pub label: Seq<char>,
}

impl View for HealSpot {
    type V = SpotView;

    open spec fn view(&self) -> SpotView {
        SpotView {
            cx: self.cx,
            cy: self.cy,
            radius: self.radius,
            feather: self.feather,
            source: self.source,
            coverage: match self.coverage {
                Some(c) => Some(c@),
                None => None,
            },
            clone_raw: self.clone_raw,
            label: self.label@,
        }
    }
}

impl HealSpot {
    pub open spec fn well_formed(self) -> bool {
        match self.coverage {
            Some(c) => c.well_formed(),
            None => true,
        }
    }
}

impl Default for HealSpot {
    fn default() -> (r: HealSpot)
        ensures
            r.well_formed(),
            r@ == (SpotView {
                cx: num(HALF),
                cy: num(HALF),
                radius: num(ONE_FIFTIETH),
                feather: num(TWO_FIFTHS),
                source: None,
                coverage: None,
                clone_raw: false,
                label: Seq::empty(),
            }),
    {
        let label: String = String::new();
        HealSpot {
            cx: Single::from_bits(HALF),
            cy: Single::from_bits(HALF),
            radius: Single::from_bits(ONE_FIFTIETH),
            feather: Single::from_bits(TWO_FIFTHS),
            source: None,
            coverage: None,
            clone_raw: false,
            label,
        }
    }
}

impl Clone for HealSpot {
    fn clone(&self) -> (r: HealSpot)
        ensures
            r@ == self@,
            self.well_formed() ==> r.well_formed(),
    {
        HealSpot {
            cx: self.cx,
            cy: self.cy,
            radius: self.radius,
            feather: self.feather,
            source: self.source,
            coverage: match &self.coverage {
                Some(c) => Some(c.clone()),
                None => None,
            },
            clone_raw: self.clone_raw,
            label: self.label.clone(),
        }
    }
}

/// What a list of spots says.
pub open spec fn spot_views(s: Seq<HealSpot>) -> Seq<SpotView> {
    Seq::new(s.len(), |i: int| s[i]@)
}

/// Every spot of a list is well formed.
pub open spec fn all_well_formed(s: Seq<HealSpot>) -> bool {
    forall|i: int| 0 <= i < s.len() ==> (#[trigger] s[i]).well_formed()
}

/// The spots to heal, and why.
#[derive(Clone, Debug)]
pub struct RetouchPlan {
    pub spots: Vec<HealSpot>,
    pub rationale: String,
    pub confidence: Single,
}

impl Default for RetouchPlan {
    fn default() -> (r: RetouchPlan)
        ensures
            r.spots@.len() == 0,
            r.rationale@.len() == 0,
            r.confidence == num(ZERO),
    {
        RetouchPlan {
            spots: Vec::new(),
            rationale: String::new(),
            confidence: Single::from_bits(ZERO),
        }
    }
}

/// Something that the user is told of a heal.
#[derive(Debug)]
pub enum HealNote {
    /// The mask holds more than one run may heal: so many of its regions were
    /// planned, of so many.
    Budget { planned: usize, total: usize },
    /// No spots could be detected, for this reason.
    DetectFailed { error: String },
    /// Stands between two notes.
    Separator,
}

/// What a [`HealNote`] says.
#[verifier::ext_equal]
pub enum NoteView {
    Budget { planned: nat, total: nat },
    DetectFailed { error: Seq<char> },
    Separator,
}

impl View for HealNote {
    type V = NoteView;

    open spec fn view(&self) -> NoteView {
        match self {
            HealNote::Budget { planned, total } => NoteView::Budget {
                planned: *planned as nat,
                total: *total as nat,
            },
            HealNote::DetectFailed { error } => NoteView::DetectFailed { error: error@ },
            HealNote::Separator => NoteView::Separator,
        }
    }
}

/// What a list of notes says.
pub open spec fn note_views(s: Seq<HealNote>) -> Seq<NoteView> {
    Seq::new(s.len(), |i: int| s[i]@)
}

/// The regions that one painted mask may plan.
pub const MAX_PAINTED_SPOTS: usize = 512;

/// The rectangles of all planned regions hold at most so many times the pixels
/// of the mask.
pub const MAX_BBOX_COVERAGE: u64 = 4;

/// The squares around all planned disks hold at most so many times the pixels
/// of the mask.
pub const MAX_DISK_COVERAGE: u64 = 16;

impl HealNote {
    /// The note's arguments by name.
    pub open spec fn says(self) -> Seq<(Seq<char>, Seq<char>)> {
        match self {
            HealNote::Budget { planned, total } => seq![
                ("n"@, decimal(planned as nat)),
                ("total"@, decimal(total as nat)),
                ("max_spots"@, decimal(MAX_PAINTED_SPOTS as nat)),
                ("max_bbox"@, decimal(MAX_BBOX_COVERAGE as nat)),
                ("max_disk"@, decimal(MAX_DISK_COVERAGE as nat)),
            ],
            HealNote::DetectFailed { error } => seq![("e"@, error@)],
            HealNote::Separator => seq![],
        }
    }

    pub fn args(&self) -> (r: Vec<(String, String)>)
        ensures
            r@.len() == self.says().len(),
            forall|i: int|
                0 <= i < r@.len() ==> (#[trigger] r@[i]).0@ == self.says()[i].0 && r@[i].1@
                    == self.says()[i].1,
    {
        let mut r: Vec<(String, String)> = Vec::new();
        match self {
            HealNote::Budget { planned, total } => {
                r.push(("n".to_owned(), decimal_text(*planned as u128)));
                r.push(("total".to_owned(), decimal_text(*total as u128)));
                r.push(("max_spots".to_owned(), decimal_text(MAX_PAINTED_SPOTS as u128)));
                r.push(("max_bbox".to_owned(), decimal_text(MAX_BBOX_COVERAGE as u128)));
                r.push(("max_disk".to_owned(), decimal_text(MAX_DISK_COVERAGE as u128)));
            },
            HealNote::DetectFailed { error } => {
                r.push(("e".to_owned(), error.clone()));
            },
            HealNote::Separator => {},
        }
        r
    }
}

} // verus!
