//! How strongly a proposed grade is let through: the strength dial, the
//! direction dial, and the taste guard that softens an over-cooked proposal.

use vstd::prelude::*;
use crate::numbers::{
    FIFTY, FORTY_FIVE, HALF, HUNDRED, MINUS_ONE, ONE, SEVENTY, SEVEN_TENTHS, THIRTEEN_TWENTIETHS,
    THIRTY, THREE_TENTHS, TWO_FIFTHS, ZERO,
};
use crate::recipe::{adjustment_views, AdjustmentView, EditRecipe, LocalAdjustment, RecipeView};
use crate::single::{num, Single};

verus! {

/// Where highlights and shadows start to be softened, and what they never pass.
pub const TEMPER_TONE_KNEE: u32 = FIFTY;

pub const TEMPER_TONE_CEIL: u32 = SEVENTY;

/// Where whites and blacks start to be softened, and what they never pass.
pub const TEMPER_POINT_KNEE: u32 = THIRTY;

pub const TEMPER_POINT_CEIL: u32 = FORTY_FIVE;

/// The strength that the tone guard was tuned at.
pub const CALIBRATED: u32 = HALF;

/// The strength and the adherence that a silent caller gets.
pub const DEFAULT: u32 = THIRTEEN_TWENTIETHS;

/// The last value of the lowest band, and of the middle one.
pub const TIER_LOW_MAX: u32 = TWO_FIFTHS;

pub const TIER_MID_MAX: u32 = SEVEN_TENTHS;

/// How far the soft cap opens over the whole dial.
pub const SOFT_CAP_SPREAD: u32 = SEVEN_TENTHS;

/// A dial's position: a number pulled into the unit interval, and the default
/// for what is not finite.
pub open spec fn dial(v: Single) -> Single {
    if v.finite() {
        v.clamped(num(ZERO), num(ONE))
    } else {
        num(DEFAULT)
    }
}

fn turn_dial(v: Single) -> (r: Single)
    ensures
        r == dial(v),
        num(ZERO).at_most(r),
        r.at_most(num(ONE)),
{
    if v.is_finite() {
        v.clamp(Single { bits: ZERO }, Single { bits: ONE })
    } else {
        Single { bits: DEFAULT }
    }
}

/// The three bands of the strength dial.
#[derive(Clone, Copy, Debug, PartialEq, Eq, Structural)]
pub enum StrengthTier {
    Restrained,
    Balanced,
    Committed,
}

/// The three bands of the adherence dial.
#[derive(Clone, Copy, Debug, PartialEq, Eq, Structural)]
pub enum AdherenceTier {
    Hint,
    Direct,
    Brief,
}

/// How closely a proposal is to follow the photographer's own words.
#[derive(Clone, Copy, Debug)]
pub struct DirectionAdherence {
    position: Single,
}

impl DirectionAdherence {
    /// Where the dial stands.
    pub closed spec fn at(self) -> Single {
        self.position
    }

    #[verifier::type_invariant]
    spec fn on_dial(self) -> bool {
        num(ZERO).at_most(self.position) && self.position.at_most(num(ONE))
    }

    pub fn new(v: Single) -> (r: DirectionAdherence)
        ensures
            r.at() == dial(v),
    {
        DirectionAdherence { position: turn_dial(v) }
    }

    pub fn get(self) -> (r: Single)
        ensures
            r == self.at(),
            num(ZERO).at_most(r),
            r.at_most(num(ONE)),
    {
        proof {
            use_type_invariant(self);
        }
        self.position
    }

    /// The position in percent.
    pub fn pct(self) -> (r: Single)
        ensures
            r == self.at().product(num(HUNDRED)),
    {
        self.position.times(Single { bits: HUNDRED })
    }

    pub fn tier(self) -> (r: AdherenceTier)
        ensures
            r is Hint <==> self.at().at_most(num(TIER_LOW_MAX)),
            r is Brief <==> num(TIER_MID_MAX).less(self.at()),
    {
        proof {
            use_type_invariant(self);
        }
        if self.position.le(Single { bits: TIER_LOW_MAX }) {
            AdherenceTier::Hint
        } else if self.position.le(Single { bits: TIER_MID_MAX }) {
            AdherenceTier::Direct
        } else {
            AdherenceTier::Brief
        }
    }
}

impl Default for DirectionAdherence {
    fn default() -> (r: DirectionAdherence)
        ensures
            r.at() == num(DEFAULT),
    {
        DirectionAdherence { position: Single { bits: DEFAULT } }
    }
}

/// How far a proposed grade may go.
#[derive(Clone, Copy, Debug)]
pub struct GradeStrength {
    position: Single,
}

impl GradeStrength {
    /// Where the dial stands.
    pub closed spec fn at(self) -> Single {
        self.position
    }

    #[verifier::type_invariant]
    spec fn on_dial(self) -> bool {
        num(ZERO).at_most(self.position) && self.position.at_most(num(ONE))
    }

    pub fn new(v: Single) -> (r: GradeStrength)
        ensures
            r.at() == dial(v),
    {
        GradeStrength { position: turn_dial(v) }
    }

    /// The strength that changes nothing about the tuned guard.
    pub fn calibrated() -> (r: GradeStrength)
        ensures
            r.at() == num(CALIBRATED),
    {
        GradeStrength { position: Single { bits: CALIBRATED } }
    }

    /// A strength that may have been left out.
    pub fn from_optional(v: Option<Single>) -> (r: GradeStrength)
        ensures
            r.at() == (match v {
                Some(x) => dial(x),
                None => num(DEFAULT),
            }),
    {
        match v {
            Some(x) => GradeStrength::new(x),
            None => GradeStrength::default(),
        }
    }

    pub fn get(self) -> (r: Single)
        ensures
            r == self.at(),
            num(ZERO).at_most(r),
            r.at_most(num(ONE)),
    {
        proof {
            use_type_invariant(self);
        }
        self.position
    }

    /// The position in percent.
    pub fn pct(self) -> (r: Single)
        ensures
            r == self.at().product(num(HUNDRED)),
    {
        self.position.times(Single { bits: HUNDRED })
    }

    pub fn tier(self) -> (r: StrengthTier)
        ensures
            r is Restrained <==> self.at().at_most(num(TIER_LOW_MAX)),
            r is Committed <==> num(TIER_MID_MAX).less(self.at()),
    {
        proof {
            use_type_invariant(self);
        }
        if self.position.le(Single { bits: TIER_LOW_MAX }) {
            StrengthTier::Restrained
        } else if self.position.le(Single { bits: TIER_MID_MAX }) {
            StrengthTier::Balanced
        } else {
            StrengthTier::Committed
        }
    }

    /// How far the dial stands above the calibration point, from 0 at and
    /// below it to 1 at full strength.
    pub fn above_calibration(self) -> (r: Single)
        ensures
            r == self.at().difference(num(CALIBRATED)).quotient(
                num(ONE).difference(num(CALIBRATED)),
            ).clamped(num(ZERO), num(ONE)),
    {
        let calibrated: Single = Single { bits: CALIBRATED };
        let one: Single = Single { bits: ONE };
        self.position.minus(calibrated).over(one.minus(calibrated)).clamp(
            Single { bits: ZERO },
            one,
        )
    }

    /// What the knees and ceilings of the soft cap are multiplied by.
    pub fn soft_cap_factor(self) -> (r: Single)
        ensures
            r == cap_factor(self.at()),
    {
        Single { bits: ONE }.plus(
            self.position.minus(Single { bits: CALIBRATED }).times(
                Single { bits: SOFT_CAP_SPREAD },
            ),
        )
    }
}

impl Default for GradeStrength {
    fn default() -> (r: GradeStrength)
        ensures
            r.at() == num(DEFAULT),
    {
        GradeStrength { position: Single { bits: DEFAULT } }
    }
}

/// What the knees and ceilings are multiplied by at the strength `s`.
pub open spec fn cap_factor(s: Single) -> Single {
    num(ONE).sum(s.difference(num(CALIBRATED)).product(num(SOFT_CAP_SPREAD)))
}

/// One with the sign of `v`.
pub open spec fn sign(v: Single) -> Single {
    if v.nan() {
        Single::quiet_nan()
    } else if v.negative() {
        num(MINUS_ONE)
    } else {
        num(ONE)
    }
}

/// `v` as it is up to the knee, and beyond it drawn towards the ceiling.
pub open spec fn soft_capped(v: Single, knee: Single, ceil: Single) -> Single {
    let a = v.absolute();
    if a.at_most(knee) {
        v
    } else {
        let span = ceil.difference(knee);
        let excess = a.difference(knee);
        sign(v).product(knee.sum(span.product(excess.quotient(excess.sum(span)))))
    }
}

/// How far the white point has to be up when highlights are pulled down.
pub open spec fn white_point_floor(highlights: Single) -> Option<Single> {
    if highlights.less(num(ZERO)) {
        Some(highlights.negation().product(num(THREE_TENTHS)).smaller(num(FIFTY)))
    } else {
        None
    }
}

/// The white point softened, and then lifted to its floor.
pub open spec fn whites_tempered(
    whites: Single,
    highlights: Single,
    knee: Single,
    ceil: Single,
) -> Single {
    let soft = soft_capped(whites, knee, ceil);
    match white_point_floor(highlights) {
        Some(g) => soft.larger(g),
        None => soft,
    }
}

/// The knees and ceilings at one strength.
pub struct Knees {
    pub tone_knee: Single,
    pub tone_ceil: Single,
    pub point_knee: Single,
    pub point_ceil: Single,
}

/// The knees and ceilings, each multiplied by `factor`.
pub open spec fn knees_at(factor: Single) -> Knees {
    Knees {
        tone_knee: num(TEMPER_TONE_KNEE).product(factor),
        tone_ceil: num(TEMPER_TONE_CEIL).product(factor),
        point_knee: num(TEMPER_POINT_KNEE).product(factor),
        point_ceil: num(TEMPER_POINT_CEIL).product(factor),
    }
}

impl AdjustmentView {
    /// The adjustment with its four tone moves softened.
    pub open spec fn tempered(self, k: Knees) -> AdjustmentView {
        AdjustmentView {
            highlights: soft_capped(self.highlights, k.tone_knee, k.tone_ceil),
            shadows: soft_capped(self.shadows, k.tone_knee, k.tone_ceil),
            whites: whites_tempered(self.whites, self.highlights, k.point_knee, k.point_ceil),
            blacks: soft_capped(self.blacks, k.point_knee, k.point_ceil),
            ..self
        }
    }
}

impl RecipeView {
    /// The recipe and each of its masks with the four tone moves softened.
    pub open spec fn tempered(self, s: Single) -> RecipeView {
        let k = knees_at(cap_factor(s));
        RecipeView {
            highlights: soft_capped(self.highlights, k.tone_knee, k.tone_ceil),
            shadows: soft_capped(self.shadows, k.tone_knee, k.tone_ceil),
            whites: whites_tempered(self.whites, self.highlights, k.point_knee, k.point_ceil),
            blacks: soft_capped(self.blacks, k.point_knee, k.point_ceil),
            masks: Seq::new(self.masks.len(), |i: int| self.masks[i].tempered(k)),
            ..self
        }
    }
}

fn signum(v: Single) -> (r: Single)
    ensures
        r == sign(v),
{
    if v.is_nan() {
        Single { bits: 0x7FC0_0000 }
    } else if v.is_sign_negative() {
        Single { bits: MINUS_ONE }
    } else {
        Single { bits: ONE }
    }
}

fn soft_cap(v: Single, knee: Single, ceil: Single) -> (r: Single)
    ensures
        r == soft_capped(v, knee, ceil),
{
    let a: Single = v.abs();
    if a.le(knee) {
        return v;
    }
    let span: Single = ceil.minus(knee);
    let excess: Single = a.minus(knee);
    signum(v).times(knee.plus(span.times(excess.over(excess.plus(span)))))
}

fn temper_whites(whites: Single, highlights: Single, knee: Single, ceil: Single) -> (r: Single)
    ensures
        r == whites_tempered(whites, highlights, knee, ceil),
{
    let soft: Single = soft_cap(whites, knee, ceil);
    if highlights.lt(Single { bits: ZERO }) {
        let floor: Single = highlights.neg().times(Single { bits: THREE_TENTHS }).min(
            Single { bits: FIFTY },
        );
        soft.max(floor)
    } else {
        soft
    }
}

fn temper_mask(m: &mut LocalAdjustment, k: &Knees)
    ensures
        final(m)@ == old(m)@.tempered(*k),
{
    let highlights: Single = m.highlights;
    m.highlights = soft_cap(highlights, k.tone_knee, k.tone_ceil);
    m.shadows = soft_cap(m.shadows, k.tone_knee, k.tone_ceil);
    m.whites = temper_whites(m.whites, highlights, k.point_knee, k.point_ceil);
    m.blacks = soft_cap(m.blacks, k.point_knee, k.point_ceil);
}

fn temper_masks(v: &mut Vec<LocalAdjustment>, k: &Knees)
    ensures
        adjustment_views(final(v)@) == Seq::new(
            old(v)@.len(),
            |i: int| adjustment_views(old(v)@)[i].tempered(*k),
        ),
{
    let ghost all = adjustment_views(v@);
    let n: usize = v.len();
    for i in 0..n
        invariant
            n == all.len(),
            v@.len() == all.len(),
            forall|j: int| 0 <= j < i ==> (#[trigger] v@[j])@ == all[j].tempered(*k),
            forall|j: int| i <= j < all.len() ==> (#[trigger] v@[j])@ == all[j],
    {
        temper_mask(&mut v[i], k);
    }
    assert(adjustment_views(v@) =~= Seq::new(all.len(), |i: int| all[i].tempered(*k)));
}

impl EditRecipe {
    /// Softens the four tone moves of a proposed recipe and of its masks, and
    /// keeps the white point up where highlights are pulled down.
    pub fn temper(&mut self, strength: GradeStrength)
        ensures
            final(self)@ == old(self)@.tempered(strength.at()),
    {
        let f: Single = strength.soft_cap_factor();
        let k: Knees = Knees {
            tone_knee: Single { bits: TEMPER_TONE_KNEE }.times(f),
            tone_ceil: Single { bits: TEMPER_TONE_CEIL }.times(f),
            point_knee: Single { bits: TEMPER_POINT_KNEE }.times(f),
            point_ceil: Single { bits: TEMPER_POINT_CEIL }.times(f),
        };
        let highlights: Single = self.highlights;
        self.highlights = soft_cap(highlights, k.tone_knee, k.tone_ceil);
        self.shadows = soft_cap(self.shadows, k.tone_knee, k.tone_ceil);
        self.whites = temper_whites(self.whites, highlights, k.point_knee, k.point_ceil);
        self.blacks = soft_cap(self.blacks, k.point_knee, k.point_ceil);
        temper_masks(&mut self.masks, &k);
        assert(self@.masks =~= old(self)@.tempered(strength.at()).masks);
    }
}

} // verus!
