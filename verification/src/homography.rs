//! The projective map that a frame is reshaped with.
//!
//! Points are fractions of the frame on both axes. A map is nine numbers, row by
//! row.

use vstd::prelude::*;
use crate::numbers::{HALF, ONE, ZERO};
use crate::single::{num, Single};

verus! {

/// 1e-9
pub const NEAR_ZERO: u32 = 0x3089_705F;

/// 1e-12
pub const DEGENERATE: u32 = 0x2B8C_BCCC;

/// -1e-6
pub const JUST_BELOW_ZERO: u32 = 0xB586_37BD;

/// 1 + 1e-6
pub const JUST_ABOVE_ONE: u32 = 0x3F80_0008;

/// The smallest number with all its digits.
pub const SMALLEST: u32 = 0x0080_0000;

/// A projective map of frames.
#[derive(Clone, Copy, Debug)]
pub struct Homography(pub [Single; 9]);

impl View for Homography {
    type V = Seq<Single>;

    open spec fn view(&self) -> Seq<Single> {
        self.0@
    }
}

/// The number in row `r` and column `c` of one map after another.
pub open spec fn cell(outer: Seq<Single>, inner: Seq<Single>, r: int, c: int) -> Single {
    outer[r * 3].product(inner[c]).sum(outer[r * 3 + 1].product(inner[3 + c])).sum(
        outer[r * 3 + 2].product(inner[6 + c]),
    )
}

/// `inner`, and then `outer`.
#[verifier::opaque]
pub open spec fn composed(inner: Seq<Single>, outer: Seq<Single>) -> Seq<Single> {
    Seq::new(9, |i: int| cell(outer, inner, i / 3, i % 3))
}

/// The map that leaves everything where it is.
pub open spec fn identity() -> Seq<Single> {
    seq![
        num(ONE), num(ZERO), num(ZERO),
        num(ZERO), num(ONE), num(ZERO),
        num(ZERO), num(ZERO), num(ONE),
    ]
}

/// A shift by `d` on both axes.
pub open spec fn shift(d: Single) -> Seq<Single> {
    seq![
        num(ONE), num(ZERO), d,
        num(ZERO), num(ONE), d,
        num(ZERO), num(ZERO), num(ONE),
    ]
}

/// A map about the origin as one about the middle of the frame.
pub open spec fn centred(m: Seq<Single>) -> Seq<Single> {
    composed(composed(shift(num(HALF).negation()), m), shift(num(HALF)))
}

/// A magnification about the origin.
pub open spec fn magnified(s: Single) -> Seq<Single> {
    seq![
        s, num(ZERO), num(ZERO),
        num(ZERO), s, num(ZERO),
        num(ZERO), num(ZERO), num(ONE),
    ]
}

/// A map, magnified about the middle of the frame.
pub open spec fn rescaled(m: Seq<Single>, s: Single) -> Seq<Single> {
    composed(m, centred(magnified(s)))
}

/// One row of a map at a point.
pub open spec fn row_at(m: Seq<Single>, r: int, x: Single, y: Single) -> Single {
    m[r * 3].product(x).sum(m[r * 3 + 1].product(y)).sum(m[r * 3 + 2])
}

/// Where a point goes; nowhere, on the map's horizon.
pub open spec fn mapped(m: Seq<Single>, x: Single, y: Single) -> Option<(Single, Single)> {
    let w = row_at(m, 2, x, y);
    if !w.finite() || w.absolute().less(num(NEAR_ZERO)) {
        None
    } else {
        let u = row_at(m, 0, x, y).quotient(w);
        let v = row_at(m, 1, x, y).quotient(w);
        if u.finite() && v.finite() {
            Some((u, v))
        } else {
            None
        }
    }
}

/// `a d - b c`
pub open spec fn minor(a: Single, d: Single, b: Single, c: Single) -> Single {
    a.product(d).difference(b.product(c))
}

/// The nine minors of a map, in the order of its inverse.
pub open spec fn minors(m: Seq<Single>) -> Seq<Single> {
    seq![
        minor(m[4], m[8], m[5], m[7]),
        minor(m[2], m[7], m[1], m[8]),
        minor(m[1], m[5], m[2], m[4]),
        minor(m[5], m[6], m[3], m[8]),
        minor(m[0], m[8], m[2], m[6]),
        minor(m[2], m[3], m[0], m[5]),
        minor(m[3], m[7], m[4], m[6]),
        minor(m[1], m[6], m[0], m[7]),
        minor(m[0], m[4], m[1], m[3]),
    ]
}

pub open spec fn determinant(m: Seq<Single>) -> Single {
    let k = minors(m);
    m[0].product(k[0]).sum(m[1].product(k[3])).sum(m[2].product(k[6]))
}

/// The map back: the minors shared by the determinant. A map without one has
/// none.
pub open spec fn inverted(m: Seq<Single>) -> Option<Seq<Single>> {
    let det = determinant(m);
    if !det.finite() || det.absolute().less(num(DEGENERATE)) {
        None
    } else {
        let r = Seq::new(9, |i: int| minors(m)[i].quotient(det));
        if forall|i: int| 0 <= i < 9 ==> (#[trigger] r[i]).finite() {
            Some(r)
        } else {
            None
        }
    }
}

/// A map that flattens the frame has no way back.
pub proof fn a_flat_map_has_no_inverse(m: Seq<Single>)
    requires
        determinant(m).zero(),
    ensures
        inverted(m) is None,
{
}

/// A number lies between two others.
pub open spec fn within(v: Single, lo: Single, hi: Single) -> bool {
    lo.at_most(v) && v.at_most(hi)
}

/// A point comes from inside of the frame, or as good as.
pub open spec fn from_inside(inv: Seq<Single>, x: Single, y: Single) -> bool {
    match mapped(inv, x, y) {
        Some((u, v)) => within(u, num(JUST_BELOW_ZERO), num(JUST_ABOVE_ONE)) && within(
            v,
            num(JUST_BELOW_ZERO),
            num(JUST_ABOVE_ONE),
        ),
        None => false,
    }
}

/// The image of the frame covers the frame: each of its corners comes from
/// inside of it.
pub open spec fn covering(m: Seq<Single>) -> bool {
    match inverted(m) {
        None => false,
        Some(inv) => {
            &&& from_inside(inv, num(ZERO), num(ZERO))
            &&& from_inside(inv, num(ONE), num(ZERO))
            &&& from_inside(inv, num(ZERO), num(ONE))
            &&& from_inside(inv, num(ONE), num(ONE))
        },
    }
}

/// A map that leaves everything where it is, number by number.
pub open spec fn unmoving(m: Seq<Single>) -> bool {
    forall|i: int| 0 <= i < 9 ==> (#[trigger] m[i]).equals(identity()[i])
}

fn is_within(v: Single, lo: Single, hi: Single) -> (r: bool)
    ensures
        r == within(v, lo, hi),
{
    lo.le(v) && v.le(hi)
}

impl Homography {
    pub fn identity() -> (r: Homography)
        ensures
            r@ == identity(),
    {
        let o: Single = Single::from_bits(ONE);
        let z: Single = Single::from_bits(ZERO);
        let r: Homography = Homography([o, z, z, z, o, z, z, z, o]);
        assert(r@ =~= identity());
        r
    }

    fn cell(outer: &Homography, inner: &Homography, r: usize, c: usize) -> (v: Single)
        requires
            r < 3,
            c < 3,
        ensures
            v == cell(outer@, inner@, r as int, c as int),
    {
        outer.0[r * 3].times(inner.0[c]).plus(outer.0[r * 3 + 1].times(inner.0[3 + c])).plus(
            outer.0[r * 3 + 2].times(inner.0[6 + c]),
        )
    }

    /// This map, and then another.
    pub fn then_map(self, outer: Homography) -> (r: Homography)
        ensures
            r@ == composed(self@, outer@),
    {
        let r: Homography = Homography(
            [
                Homography::cell(&outer, &self, 0, 0),
                Homography::cell(&outer, &self, 0, 1),
                Homography::cell(&outer, &self, 0, 2),
                Homography::cell(&outer, &self, 1, 0),
                Homography::cell(&outer, &self, 1, 1),
                Homography::cell(&outer, &self, 1, 2),
                Homography::cell(&outer, &self, 2, 0),
                Homography::cell(&outer, &self, 2, 1),
                Homography::cell(&outer, &self, 2, 2),
            ],
        );
        proof {
            reveal(composed);
            assert(r@ =~= composed(self@, outer@));
        }
        r
    }

    fn row(&self, r: usize, x: Single, y: Single) -> (v: Single)
        requires
            r < 3,
        ensures
            v == row_at(self@, r as int, x, y),
    {
        self.0[r * 3].times(x).plus(self.0[r * 3 + 1].times(y)).plus(self.0[r * 3 + 2])
    }

    /// Where a point goes; nowhere, on the map's horizon.
    pub fn map(&self, x: Single, y: Single) -> (r: Option<(Single, Single)>)
        ensures
            r == mapped(self@, x, y),
    {
        let w: Single = self.row(2, x, y);
        if !w.is_finite() || w.abs().lt(Single::from_bits(NEAR_ZERO)) {
            return None;
        }
        let u: Single = self.row(0, x, y).over(w);
        let v: Single = self.row(1, x, y).over(w);
        if u.is_finite() && v.is_finite() {
            Some((u, v))
        } else {
            None
        }
    }

    fn minor(a: Single, d: Single, b: Single, c: Single) -> (r: Single)
        ensures
            r == minor(a, d, b, c),
    {
        a.times(d).minus(b.times(c))
    }

    fn minors(&self) -> (r: [Single; 9])
        ensures
            r@ == minors(self@),
    {
        let m: [Single; 9] = self.0;
        let r: [Single; 9] = [
            Homography::minor(m[4], m[8], m[5], m[7]),
            Homography::minor(m[2], m[7], m[1], m[8]),
            Homography::minor(m[1], m[5], m[2], m[4]),
            Homography::minor(m[5], m[6], m[3], m[8]),
            Homography::minor(m[0], m[8], m[2], m[6]),
            Homography::minor(m[2], m[3], m[0], m[5]),
            Homography::minor(m[3], m[7], m[4], m[6]),
            Homography::minor(m[1], m[6], m[0], m[7]),
            Homography::minor(m[0], m[4], m[1], m[3]),
        ];
        assert(r@ =~= minors(self@));
        r
    }

    /// The map back, or none for a map that flattens the frame.
    pub fn inverse(&self) -> (r: Option<Homography>)
        ensures
            match r {
                Some(h) => inverted(self@) == Some(h@),
                None => inverted(self@) is None,
            },
    {
        let k: [Single; 9] = self.minors();
        let m: [Single; 9] = self.0;
        let det: Single = m[0].times(k[0]).plus(m[1].times(k[3])).plus(m[2].times(k[6]));
        if !det.is_finite() || det.abs().lt(Single::from_bits(DEGENERATE)) {
            return None;
        }
        let r: Homography = Homography(
            [
                k[0].over(det),
                k[1].over(det),
                k[2].over(det),
                k[3].over(det),
                k[4].over(det),
                k[5].over(det),
                k[6].over(det),
                k[7].over(det),
                k[8].over(det),
            ],
        );
        assert(r@ =~= Seq::new(9, |i: int| minors(self@)[i].quotient(det)));
        let mut i: usize = 0;
        while i < 9
            invariant
                i <= 9,
                r@.len() == 9,
                forall|j: int| 0 <= j < i ==> (#[trigger] r@[j]).finite(),
                r@ == Seq::new(9, |i: int| minors(self@)[i].quotient(det)),
                det == determinant(self@),
                !(!det.finite() || det.absolute().less(num(DEGENERATE))),
            decreases 9 - i,
        {
            if !r.0[i].is_finite() {
                assert(!r@[i as int].finite());
                return None;
            }
            i = i + 1;
        }
        Some(r)
    }

    /// A map about the origin as one about the middle of the frame.
    pub fn about_centre(m: [Single; 9]) -> (r: Homography)
        ensures
            r@ == centred(m@),
    {
        let o: Single = Single::from_bits(ONE);
        let z: Single = Single::from_bits(ZERO);
        let h: Single = Single::from_bits(HALF);
        let g: Single = h.neg();
        let to: Homography = Homography([o, z, g, z, o, g, z, z, o]);
        let back: Homography = Homography([o, z, h, z, o, h, z, z, o]);
        assert(to@ =~= shift(num(HALF).negation()));
        assert(back@ =~= shift(num(HALF)));
        to.then_map(Homography(m)).then_map(back)
    }

    /// This map, magnified about the middle of the frame.
    pub fn scaled(self, s: Single) -> (r: Homography)
        ensures
            r@ == rescaled(self@, s),
    {
        let o: Single = Single::from_bits(ONE);
        let z: Single = Single::from_bits(ZERO);
        let m: [Single; 9] = [s, z, z, z, s, z, z, z, o];
        assert(m@ =~= magnified(s));
        self.then_map(Homography::about_centre(m))
    }

    fn comes_from_inside(&self, x: Single, y: Single) -> (r: bool)
        ensures
            r == from_inside(self@, x, y),
    {
        let lo: Single = Single::from_bits(JUST_BELOW_ZERO);
        let hi: Single = Single::from_bits(JUST_ABOVE_ONE);
        match self.map(x, y) {
            Some((u, v)) => is_within(u, lo, hi) && is_within(v, lo, hi),
            None => false,
        }
    }

    /// Whether the image of the frame covers the frame.
    pub fn covers(&self) -> (r: bool)
        ensures
            r == covering(self@),
    {
        let z: Single = Single::from_bits(ZERO);
        let o: Single = Single::from_bits(ONE);
        match self.inverse() {
            None => false,
            Some(inv) => inv.comes_from_inside(z, z) && inv.comes_from_inside(o, z)
                && inv.comes_from_inside(z, o) && inv.comes_from_inside(o, o),
        }
    }

    /// Whether the map leaves everything where it is.
    pub fn is_identity(&self) -> (r: bool)
        ensures
            r == unmoving(self@),
    {
        let id: Homography = Homography::identity();
        let mut i: usize = 0;
        while i < 9
            invariant
                i <= 9,
                id@ == identity(),
                self@.len() == 9,
                forall|j: int| 0 <= j < i ==> (#[trigger] self@[j]).equals(identity()[j]),
            decreases 9 - i,
        {
            if !(self.0[i].le(id.0[i]) && id.0[i].le(self.0[i])) {
                assert(!self@[i as int].equals(identity()[i as int]));
                return false;
            }
            i = i + 1;
        }
        true
    }
}

} // verus!
