//! The standard rendition of a picture that was edited with headroom.

use vstd::prelude::*;
use crate::finish::{signed_fraction, signed_share};
use crate::numbers::{HUNDRED, ONE, ZERO};
use crate::single::{num, Single};

verus! {

/// The controls of the rendition.
#[derive(Clone, Copy, Debug)]
pub struct SdrControls {
    /// The picture is edited with headroom.
    pub hdr_edit: bool,
    /// The headroom, in stops.
    pub max_ev: Single,
    pub blend: Single,
    pub brightness: Single,
    pub contrast: Single,
    pub highlights: Single,
    pub shadows: Single,
    pub whites: Single,
    pub clarity: Single,
}

/// What a rendition is made with.
#[derive(Clone, Copy, Debug)]
pub struct SdrRendition {
    /// The headroom that the shoulder brings in.
    pub stops: Single,
    /// The change of exposure.
    pub ev: Single,
    pub contrast: Single,
    pub highlights: Single,
    pub shadows: Single,
    pub whites: Single,
    /// Anything but clarity is changed.
    pub tonal: bool,
    pub clarity: Single,
}

/// The rendition that the controls ask for: none for a picture that is not
/// edited with headroom, and none if every control is at rest.
pub open spec fn rendition(c: SdrControls) -> Option<SdrRendition> {
    let stops = c.max_ev.product(num(ONE).sum(c.blend.quotient(num(HUNDRED)))).larger(num(ZERO));
    let ev = c.brightness.quotient(num(HUNDRED)).product(num(ONE));
    let contrast = signed_fraction(c.contrast);
    let highlights = signed_fraction(c.highlights);
    let shadows = signed_fraction(c.shadows);
    let whites = signed_fraction(c.whites);
    let clarity = signed_fraction(c.clarity);
    let tonal = num(ZERO).less(stops) || !ev.equals(num(ZERO)) || !contrast.equals(num(ZERO))
        || !highlights.equals(num(ZERO)) || !shadows.equals(num(ZERO)) || !whites.equals(num(ZERO));
    if !c.hdr_edit || (!tonal && clarity.equals(num(ZERO))) {
        None
    } else {
        Some(SdrRendition { stops, ev, contrast, highlights, shadows, whites, tonal, clarity })
    }
}

fn moved(v: Single) -> (r: bool)
    ensures
        r == !v.equals(num(ZERO)),
{
    let zero: Single = Single::from_bits(ZERO);
    !(v.le(zero) && zero.le(v))
}

impl SdrRendition {
    pub fn global(c: &SdrControls) -> (r: Option<SdrRendition>)
        ensures
            r == rendition(*c),
    {
        if !c.hdr_edit {
            return None;
        }
        let zero: Single = Single::from_bits(ZERO);
        let one: Single = Single::from_bits(ONE);
        let hundred: Single = Single::from_bits(HUNDRED);
        let stops: Single = c.max_ev.times(one.plus(c.blend.over(hundred))).max(zero);
        let ev: Single = c.brightness.over(hundred).times(one);
        let contrast: Single = signed_share(c.contrast);
        let highlights: Single = signed_share(c.highlights);
        let shadows: Single = signed_share(c.shadows);
        let whites: Single = signed_share(c.whites);
        let clarity: Single = signed_share(c.clarity);
        let tonal: bool = zero.lt(stops) || moved(ev) || moved(contrast) || moved(highlights)
            || moved(shadows) || moved(whites);
        if !tonal && !moved(clarity) {
            return None;
        }
        Some(SdrRendition { stops, ev, contrast, highlights, shadows, whites, tonal, clarity })
    }
}

/// A picture that is not edited with headroom has no rendition, whatever else its
/// controls say.
pub proof fn without_headroom_nothing_is_rendered(c: SdrControls)
    requires
        !c.hdr_edit,
    ensures
        rendition(c) is None,
{
}

} // verus!
