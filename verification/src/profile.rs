//! The camera profile: which calibration a frame takes, its tone curve, and the
//! colours that its tables are indexed by.

use vstd::prelude::*;
use crate::heal::Rgb;
use crate::numbers::{ONE, ZERO};
use crate::single::{num, Single};

verus! {

/// 5500.0
pub const KELVIN_5500: u32 = 0x45AB_E000;

/// 2856.0
pub const KELVIN_2856: u32 = 0x4532_8000;

/// 6000.0
pub const KELVIN_6000: u32 = 0x45BB_8000;

/// 7500.0
pub const KELVIN_7500: u32 = 0x45EA_6000;

/// 6500.0
pub const KELVIN_6500: u32 = 0x45CB_2000;

/// 5503.0
pub const KELVIN_5503: u32 = 0x45AB_F800;

/// 6504.0
pub const KELVIN_6504: u32 = 0x45CB_4000;

/// 7504.0
pub const KELVIN_7504: u32 = 0x45EA_8000;

/// 5003.0
pub const KELVIN_5003: u32 = 0x459C_5800;

/// 1000.0
pub const THOUSAND: u32 = 0x447A_0000;

/// 1e-9: a span below which a colour counts as grey.
pub const FLAT: u32 = 0x3089_705F;

/// 1e-4: the least difference from a straight line that counts.
pub const VISIBLE: u32 = 0x38D1_B717;

/// 6.0
pub const SIX: u32 = 0x40C0_0000;

/// The colour temperature that a light source's code stands for; none for a code
/// that is not known.
pub open spec fn light_kelvin(code: u16) -> Option<Single> {
    if code == 1 || code == 4 || code == 9 || code == 18 {
        Some(num(KELVIN_5500))
    } else if code == 3 || code == 17 {
        Some(num(KELVIN_2856))
    } else if code == 10 {
        Some(num(KELVIN_6000))
    } else if code == 11 {
        Some(num(KELVIN_7500))
    } else if code == 19 {
        Some(num(KELVIN_6500))
    } else if code == 20 {
        Some(num(KELVIN_5503))
    } else if code == 21 {
        Some(num(KELVIN_6504))
    } else if code == 22 {
        Some(num(KELVIN_7504))
    } else if code == 23 {
        Some(num(KELVIN_5003))
    } else {
        None
    }
}

pub fn illuminant_kelvin(code: u16) -> (r: Option<Single>)
    ensures
        r == light_kelvin(code),
{
    let bits: u32 = match code {
        1 | 4 | 9 | 18 => KELVIN_5500,
        3 | 17 => KELVIN_2856,
        10 => KELVIN_6000,
        11 => KELVIN_7500,
        19 => KELVIN_6500,
        20 => KELVIN_5503,
        21 => KELVIN_6504,
        22 => KELVIN_7504,
        23 => KELVIN_5003,
        _ => {
            return None;
        },
    };
    Some(Single::from_bits(bits))
}

/// The temperature of a light source that may not be stated.
pub open spec fn stated_kelvin(code: Option<u16>) -> Option<Single> {
    match code {
        Some(c) => light_kelvin(c),
        None => None,
    }
}

/// Where a temperature lies between those of two calibrations, on the scale of
/// their reciprocals: nought at the first, one at the second. Nought too where
/// one of the three is not known.
pub open spec fn calibration_weight(
    kelvin: Option<Single>,
    first: Option<u16>,
    second: Option<u16>,
) -> Single {
    match (kelvin, stated_kelvin(first), stated_kelvin(second)) {
        (Some(k), Some(t1), Some(t2)) => {
            let i = num(ONE).quotient(k);
            let i1 = num(ONE).quotient(t1);
            let i2 = num(ONE).quotient(t2);
            if !(k.finite() && num(THOUSAND).less(k)) || t1.difference(t2).absolute().less(num(ONE)) {
                num(ZERO)
            } else {
                i.difference(i1).quotient(i2.difference(i1)).clamped(num(ZERO), num(ONE))
            }
        },
        _ => num(ZERO),
    }
}

fn kelvin_of(code: Option<u16>) -> (r: Option<Single>)
    ensures
        r == stated_kelvin(code),
{
    match code {
        Some(c) => illuminant_kelvin(c),
        None => None,
    }
}

pub fn illuminant_weight(kelvin: Option<Single>, first: Option<u16>, second: Option<u16>) -> (r:
    Single)
    ensures
        r == calibration_weight(kelvin, first, second),
{
    let zero: Single = Single::from_bits(ZERO);
    let one: Single = Single::from_bits(ONE);
    match (kelvin, kelvin_of(first), kelvin_of(second)) {
        (Some(k), Some(t1), Some(t2)) => {
            if !(k.is_finite() && Single::from_bits(THOUSAND).lt(k)) {
                return zero;
            }
            if t1.minus(t2).abs().lt(one) {
                return zero;
            }
            let i: Single = one.over(k);
            let i1: Single = one.over(t1);
            let i2: Single = one.over(t2);
            i.minus(i1).over(i2.minus(i1)).clamp(zero, one)
        },
        _ => zero,
    }
}

/// A table over hue, saturation and value.
#[derive(Debug)]
pub struct ShiftTable {
    pub hue: u32,
    pub sat: u32,
    pub val: u32,
    pub data: Vec<Rgb<Single>>,
}

/// What a [`ShiftTable`] holds.
#[verifier::ext_equal]
pub struct TableView {
    pub hue: u32,
    pub sat: u32,
    pub val: u32,
    pub data: Seq<Rgb<Single>>,
}

impl View for ShiftTable {
    type V = TableView;

    open spec fn view(&self) -> TableView {
        TableView { hue: self.hue, sat: self.sat, val: self.val, data: self.data@ }
    }
}

impl Clone for ShiftTable {
    fn clone(&self) -> (r: ShiftTable)
        ensures
            r@ == self@,
    {
        let mut data: Vec<Rgb<Single>> = Vec::new();
        let n: usize = self.data.len();
        for i in 0..n
            invariant
                n == self.data@.len(),
                data@ == self.data@.take(i as int),
        {
            data.push(self.data[i]);
            assert(self.data@.take(i + 1) =~= self.data@.take(i as int).push(self.data@[i as int]));
        }
        assert(self.data@.take(n as int) =~= self.data@);
        ShiftTable { hue: self.hue, sat: self.sat, val: self.val, data }
    }
}

/// An entry between two, by its share of the way.
pub open spec fn blended(x: Rgb<Single>, y: Rgb<Single>, w: Single) -> Rgb<Single> {
    Rgb {
        r: x.r.sum(y.r.difference(x.r).product(w)),
        g: x.g.sum(y.g.difference(x.g).product(w)),
        b: x.b.sum(y.b.difference(x.b).product(w)),
    }
}

/// The table of a frame, from those of the two calibrations: one where only one
/// is stated, the first of two of different shapes, and else what lies between
/// them at `w`, entry by entry.
pub open spec fn calibrated(
    first: Option<TableView>,
    second: Option<TableView>,
    w: Single,
) -> Option<TableView> {
    match (first, second) {
        (Some(a), Some(b)) => if !(a.hue == b.hue && a.sat == b.sat && a.val == b.val) || w.at_most(
            num(ZERO),
        ) {
            Some(a)
        } else if num(ONE).at_most(w) {
            Some(b)
        } else {
            let n = if a.data.len() < b.data.len() {
                a.data.len()
            } else {
                b.data.len()
            };
            Some(
                TableView { data: Seq::new(n, |i: int| blended(a.data[i], b.data[i], w)), ..a },
            )
        },
        (Some(a), None) => Some(a),
        (None, b) => b,
    }
}

/// What a table holds that may be missing.
pub open spec fn table_view(t: Option<ShiftTable>) -> Option<TableView> {
    match t {
        Some(t) => Some(t@),
        None => None,
    }
}

fn blend(x: Rgb<Single>, y: Rgb<Single>, w: Single) -> (r: Rgb<Single>)
    ensures
        r == blended(x, y, w),
{
    Rgb {
        r: x.r.plus(y.r.minus(x.r).times(w)),
        g: x.g.plus(y.g.minus(x.g).times(w)),
        b: x.b.plus(y.b.minus(x.b).times(w)),
    }
}

pub fn blend_calibrations(
    first: &Option<ShiftTable>,
    second: &Option<ShiftTable>,
    w: Single,
) -> (r: Option<ShiftTable>)
    ensures
        table_view(r) == calibrated(table_view(*first), table_view(*second), w),
{
    match (first, second) {
        (Some(a), Some(b)) => {
            if !(a.hue == b.hue && a.sat == b.sat && a.val == b.val) {
                return Some(a.clone());
            }
            if w.le(Single::from_bits(ZERO)) {
                return Some(a.clone());
            }
            if Single::from_bits(ONE).le(w) {
                return Some(b.clone());
            }
            let n: usize = if a.data.len() < b.data.len() {
                a.data.len()
            } else {
                b.data.len()
            };
            let mut data: Vec<Rgb<Single>> = Vec::new();
            let ghost full = Seq::new(n as nat, |i: int| blended(a.data@[i], b.data@[i], w));
            for i in 0..n
                invariant
                    n <= a.data@.len(),
                    n <= b.data@.len(),
                    full == Seq::new(n as nat, |i: int| blended(a.data@[i], b.data@[i], w)),
                    data@ == full.take(i as int),
            {
                data.push(blend(a.data[i], b.data[i], w));
                assert(full.take(i + 1) =~= full.take(i as int).push(full[i as int]));
            }
            assert(full.take(n as int) =~= full);
            let t: ShiftTable = ShiftTable { hue: a.hue, sat: a.sat, val: a.val, data };
            assert(t@ =~= TableView {
                data: Seq::new(n as nat, |i: int| blended(a@.data[i], b@.data[i], w)),
                ..a@
            });
            Some(t)
        },
        (Some(a), None) => Some(a.clone()),
        (None, Some(b)) => Some(b.clone()),
        (None, None) => None,
    }
}

/// Whether a profile changes anything: it has a table, a curve, or a gain other
/// than one.
pub fn makes_stage(hue_sat: bool, look: bool, tone: bool, gain: Single) -> (r: bool)
    ensures
        r == (hue_sat || look || tone || !gain.equals(num(ONE))),
{
    let one: Single = Single::from_bits(ONE);
    hue_sat || look || tone || !(gain.le(one) && one.le(gain))
}

/// A colour of which no channel is below nought.
pub fn lifted_to_zero(c: Rgb<Single>) -> (r: Rgb<Single>)
    ensures
        r == (Rgb {
            r: c.r.larger(num(ZERO)),
            g: c.g.larger(num(ZERO)),
            b: c.b.larger(num(ZERO)),
        }),
{
    let zero: Single = Single::from_bits(ZERO);
    Rgb { r: c.r.max(zero), g: c.g.max(zero), b: c.b.max(zero) }
}

/// A colour after the profile's gain.
pub fn exposed(c: Rgb<Single>, gain: Single) -> (r: Rgb<Single>)
    ensures
        r == (if gain.equals(num(ONE)) {
            c
        } else {
            Rgb { r: c.r.product(gain), g: c.g.product(gain), b: c.b.product(gain) }
        }),
{
    let one: Single = Single::from_bits(ONE);
    if gain.le(one) && one.le(gain) {
        return c;
    }
    Rgb { r: c.r.times(gain), g: c.g.times(gain), b: c.b.times(gain) }
}

} // verus!
