//! What a picture's edges say about its lines, and what an upright correction is
//! made of once the lines are known.

use vstd::prelude::*;
use vstd::arithmetic::div_mod::lemma_fundamental_div_mod_converse;
use crate::homography::{centred, composed, covering, Homography};
use crate::lens::asked;
use crate::numbers::{HALF, ONE, ONE_FIFTIETH, ONE_TWENTIETH, QUARTER, TWO, ZERO};
use crate::single::{num, Single};
use crate::transform::{a_filled_map_covers_the_frame, fill_the_frame, filled, map_view};

verus! {

/// A quarter of a turn, in radians.
pub const QUARTER_TURN: u32 = 0x3FC9_0FDB;

/// 1e-9
pub const NEAR_ZERO: u32 = 0x3089_705F;

/// An angle a quarter turn away, towards nought.
pub open spec fn turned(a: Single) -> Single {
    if num(ZERO).less(a) {
        a.difference(num(QUARTER_TURN))
    } else {
        a.sum(num(QUARTER_TURN))
    }
}

pub fn quarter_turn(a: Single) -> (r: Single)
    ensures
        r == turned(a),
{
    let q: Single = Single::from_bits(QUARTER_TURN);
    if Single::from_bits(ZERO).lt(a) {
        a.minus(q)
    } else {
        a.plus(q)
    }
}

/// A vanishing point, or a line, by three numbers.
#[derive(Clone, Copy, Debug)]
pub struct Triple {
    pub x: Single,
    pub y: Single,
    pub z: Single,
}

/// The two numbers in the last row of a map.
#[derive(Clone, Copy, Debug)]
pub struct LastRow {
    pub x: Single,
    pub y: Single,
}

/// The shortest side of a picture that is looked at.
pub const MIN_SIDE: usize = 32;

/// Fewer edges than this say nothing.
pub const MIN_SAMPLES: usize = 2000;

/// Whether a picture of `w` times `h` pixels, of which `len` are there, can be
/// solved for a mode: one to four.
pub fn solvable(len: usize, w: usize, h: usize, mode: u8) -> (r: bool)
    ensures
        r == (w >= MIN_SIDE && h >= MIN_SIDE && len >= w * h && 1 <= mode <= 4),
{
    if w < MIN_SIDE || h < MIN_SIDE || mode < 1 || mode > 4 {
        return false;
    }
    match w.checked_mul(h) {
        Some(n) => len >= n,
        None => false,
    }
}

/// Which lines an edge belongs to.
#[derive(Clone, Copy, Debug, PartialEq, Eq, Structural)]
pub enum Family {
    Vertical,
    Horizontal,
}

/// An edge of the picture: the line that it lies on, how strong it is, and the
/// cosine and the sine of twice its direction.
#[derive(Clone, Copy, Debug)]
pub struct Edge {
    pub family: Family,
    pub line: Triple,
    pub strength: Single,
    pub cos2: Single,
    pub sin2: Single,
}

/// The last pixel of a side, and one at least.
pub open spec fn last_of(n: int) -> Single {
    Single::of_whole(n).difference(num(ONE)).larger(num(ONE))
}

/// The four neighbours of a pixel.
#[derive(Clone, Copy, Debug)]
pub struct Cross {
    pub left: Single,
    pub right: Single,
    pub above: Single,
    pub below: Single,
}

impl Cross {
    /// The slope across, over the whole width.
    pub open spec fn across(self, w: int) -> Single {
        self.right.difference(self.left).product(num(HALF)).product(last_of(w))
    }

    /// The slope down, over the whole height.
    pub open spec fn down(self, h: int) -> Single {
        self.below.difference(self.above).product(num(HALF)).product(last_of(h))
    }

    pub open spec fn steepness(self, w: int, h: int) -> Single {
        let gx = self.across(w);
        let gy = self.down(h);
        gx.product(gx).sum(gy.product(gy)).root()
    }

    /// The family of an edge that is strong enough: its slope lies in a cone about
    /// one of the axes.
    pub open spec fn family(self, w: int, h: int, cone: Single) -> Option<Family> {
        let gx = self.across(w).absolute();
        let gy = self.down(h).absolute();
        if self.steepness(w, h).less(num(ONE_TWENTIETH)) {
            None
        } else if gy.at_most(gx.product(cone)) {
            Some(Family::Vertical)
        } else if gx.at_most(gy.product(cone)) {
            Some(Family::Horizontal)
        } else {
            None
        }
    }

    /// The edge at a pixel, which runs at a right angle to its slope.
    pub open spec fn edge(self, x: int, y: int, w: int, h: int, cone: Single) -> Option<Edge> {
        let gx = self.across(w);
        let gy = self.down(h);
        let mag = self.steepness(w, h);
        let nx = Single::of_whole(x).quotient(last_of(w)).difference(num(HALF));
        let ny = Single::of_whole(y).quotient(last_of(h)).difference(num(HALF));
        let ex = gy.negation().quotient(mag);
        let ey = gx.quotient(mag);
        match self.family(w, h, cone) {
            None => None,
            Some(family) => Some(
                Edge {
                    family,
                    line: Triple {
                        x: gx,
                        y: gy,
                        z: gx.product(nx).sum(gy.product(ny)).negation(),
                    },
                    strength: mag,
                    cos2: ex.product(ex).difference(ey.product(ey)),
                    sin2: num(TWO).product(ex).product(ey),
                },
            ),
        }
    }
}

/// What the neighbours of the pixel at `(x, y)` say, with the tangent of the cone
/// that a family's slopes lie in.
pub fn edge_at(c: Cross, x: u32, y: u32, w: u32, h: u32, cone: Single) -> (r: Option<Edge>)
    ensures
        r == c.edge(x as int, y as int, w as int, h as int, cone),
{
    let one: Single = Single::from_bits(ONE);
    let half: Single = Single::from_bits(HALF);
    let dw: Single = Single::from_u64(w as u64).minus(one).max(one);
    let dh: Single = Single::from_u64(h as u64).minus(one).max(one);
    let gx: Single = c.right.minus(c.left).times(half).times(dw);
    let gy: Single = c.below.minus(c.above).times(half).times(dh);
    let mag: Single = gx.times(gx).plus(gy.times(gy)).sqrt();
    if mag.lt(Single::from_bits(ONE_TWENTIETH)) {
        return None;
    }
    let family: Family = if gy.abs().le(gx.abs().times(cone)) {
        Family::Vertical
    } else if gx.abs().le(gy.abs().times(cone)) {
        Family::Horizontal
    } else {
        return None;
    };
    let nx: Single = Single::from_u64(x as u64).over(dw).minus(half);
    let ny: Single = Single::from_u64(y as u64).over(dh).minus(half);
    let ex: Single = gy.neg().over(mag);
    let ey: Single = gx.over(mag);
    Some(
        Edge {
            family,
            line: Triple { x: gx, y: gy, z: gx.times(nx).plus(gy.times(ny)).neg() },
            strength: mag,
            cos2: ex.times(ex).minus(ey.times(ey)),
            sin2: Single::from_bits(TWO).times(ex).times(ey),
        },
    )
}

/// The neighbours of the pixel at `(x, y)` of a plane.
pub open spec fn cross_at(luma: Seq<Single>, x: int, y: int, w: int) -> Cross {
    let i = y * w + x;
    Cross { left: luma[i - 1], right: luma[i + 1], above: luma[i - w], below: luma[i + w] }
}

/// The edges at the first `k` pixels that are asked, row by row: every second one,
/// without the border.
pub open spec fn edges_among(luma: Seq<Single>, w: int, h: int, cone: Single, k: nat) -> Seq<Edge>
    decreases k,
{
    if k == 0 {
        Seq::empty()
    } else {
        let before = edges_among(luma, w, h, cone, (k - 1) as nat);
        let x = 1 + 2 * ((k - 1) % asked(w));
        let y = 1 + 2 * ((k - 1) / asked(w));
        match cross_at(luma, x, y, w).edge(x, y, w, h, cone) {
            Some(e) => before.push(e),
            None => before,
        }
    }
}

fn cross_of(luma: &Vec<Single>, x: u32, y: u32, w: u32, h: u32) -> (c: Cross)
    requires
        luma@.len() >= w * h,
        1 <= x < w - 1,
        1 <= y < h - 1,
    ensures
        c == cross_at(luma@, x as int, y as int, w as int),
{
    let n: usize = luma.len();
    proof {
        assert(0 <= (y - 1) * w && y * w == (y - 1) * w + w && (y + 1) * w == y * w + w && (y + 1)
            * w + w <= w * h) by (nonlinear_arith)
            requires
                1 <= y,
                y + 2 <= h,
                0 < w,
        ;
    }
    let i: usize = y as usize * w as usize + x as usize;
    Cross {
        left: luma[i - 1],
        right: luma[i + 1],
        above: luma[i - w as usize],
        below: luma[i + w as usize],
    }
}

/// All edges of a picture, with the tangent of the cone that a family's slopes lie
/// in.
pub fn edges_of(luma: &Vec<Single>, w: u32, h: u32, cone: Single) -> (r: Vec<Edge>)
    requires
        luma@.len() >= w * h,
        w >= MIN_SIDE,
        h >= MIN_SIDE,
    ensures
        r@ == edges_among(
            luma@,
            w as int,
            h as int,
            cone,
            (asked(w as int) * asked(h as int)) as nat,
        ),
{
    let mut r: Vec<Edge> = Vec::new();
    let across: u32 = (w - 1) / 2;
    let down: u32 = (h - 1) / 2;
    assert(0 * across == 0) by (nonlinear_arith);
    for b in 0..down
        invariant
            luma@.len() >= w * h,
            w >= MIN_SIDE,
            h >= MIN_SIDE,
            across == asked(w as int),
            down == asked(h as int),
            r@ == edges_among(luma@, w as int, h as int, cone, (b * across) as nat),
    {
        for a in 0..across
            invariant
                luma@.len() >= w * h,
                w >= MIN_SIDE,
                h >= MIN_SIDE,
                b < down,
                across == asked(w as int),
                down == asked(h as int),
                r@ == edges_among(luma@, w as int, h as int, cone, (b * across + a) as nat),
        {
            let ghost k = b * across + a;
            proof {
                assert(0 <= b * across) by (nonlinear_arith);
                lemma_fundamental_div_mod_converse(k, across as int, b as int, a as int);
            }
            let x: u32 = 1 + 2 * a;
            let y: u32 = 1 + 2 * b;
            match edge_at(cross_of(luma, x, y, w, h), x, y, w, h, cone) {
                Some(e) => {
                    r.push(e);
                },
                None => {},
            }
        }
        proof {
            assert((b + 1) * across == b * across + across) by (nonlinear_arith);
        }
    }
    assert(down * across == across * down) by (nonlinear_arith);
    r
}

/// How far a line is believed once its family's point is known: less, the farther
/// it misses the point, and never not at all.
pub open spec fn belief(point: Option<Triple>, line: Triple) -> Single {
    match point {
        None => num(ONE),
        Some(p) => {
            let miss = line.x.product(p.x).sum(line.y.product(p.y)).sum(
                line.z.product(p.z),
            ).quotient(num(ONE_FIFTIETH));
            num(ONE).quotient(num(ONE).sum(miss.product(miss)))
        },
    }
}

pub fn robust(point: Option<Triple>, line: Triple) -> (r: Single)
    ensures
        r == belief(point, line),
{
    let one: Single = Single::from_bits(ONE);
    match point {
        None => one,
        Some(p) => {
            let miss: Single = line.x.times(p.x).plus(line.y.times(p.y)).plus(
                line.z.times(p.z),
            ).over(Single::from_bits(ONE_FIFTIETH));
            one.over(one.plus(miss.times(miss)))
        },
    }
}

/// The angle to level a picture by: that of the family with more edges, if they
/// are enough. The verticals' is a quarter turn away.
pub fn levelling(vertical: (usize, Single), horizontal: (usize, Single)) -> (r: Option<Single>)
    ensures
        r == (if horizontal.0 >= vertical.0 {
            if horizontal.0 >= MIN_SAMPLES {
                Some(horizontal.1)
            } else {
                None
            }
        } else if vertical.0 >= MIN_SAMPLES {
            Some(turned(vertical.1))
        } else {
            None
        }),
{
    if horizontal.0 >= vertical.0 {
        if horizontal.0 >= MIN_SAMPLES {
            Some(horizontal.1)
        } else {
            None
        }
    } else if vertical.0 >= MIN_SAMPLES {
        Some(quarter_turn(vertical.1))
    } else {
        None
    }
}

/// The smallest last row that sends a point to infinity. None for a point that
/// is there already, and none for one inside of the frame.
pub open spec fn null_row(q: Triple) -> Option<LastRow> {
    let qx = q.x.quotient(q.z);
    let qy = q.y.quotient(q.z);
    let n2 = qx.product(qx).sum(qy.product(qy));
    let row = LastRow { x: qx.negation().quotient(n2), y: qy.negation().quotient(n2) };
    if q.z.absolute().less(num(NEAR_ZERO)) || !n2.finite() || n2.less(num(QUARTER)) {
        None
    } else if row.x.finite() && row.y.finite() {
        Some(row)
    } else {
        None
    }
}

pub fn null_row_through(q: Triple) -> (r: Option<LastRow>)
    ensures
        r == null_row(q),
{
    if q.z.abs().lt(Single::from_bits(NEAR_ZERO)) {
        return None;
    }
    let qx: Single = q.x.over(q.z);
    let qy: Single = q.y.over(q.z);
    let n2: Single = qx.times(qx).plus(qy.times(qy));
    if !n2.is_finite() || n2.lt(Single::from_bits(QUARTER)) {
        return None;
    }
    let row: LastRow = LastRow { x: qx.neg().over(n2), y: qy.neg().over(n2) };
    if row.x.is_finite() && row.y.is_finite() {
        Some(row)
    } else {
        None
    }
}

/// The line through two points.
pub open spec fn line_through(a: Triple, b: Triple) -> Triple {
    Triple {
        x: a.y.product(b.z).difference(a.z.product(b.y)),
        y: a.z.product(b.x).difference(a.x.product(b.z)),
        z: a.x.product(b.y).difference(a.y.product(b.x)),
    }
}

/// The last row that sends the line through two points to infinity. None if the
/// line runs through the middle of the frame, or across the frame at all.
pub open spec fn horizon_row(a: Triple, b: Triple) -> Option<LastRow> {
    let l = line_through(a, b);
    let row = LastRow { x: l.x.quotient(l.z), y: l.y.quotient(l.z) };
    let d = row.x.product(row.x).sum(row.y.product(row.y)).root();
    if !(l.x.finite() && l.y.finite() && l.z.finite()) || l.z.absolute().less(num(NEAR_ZERO)) {
        None
    } else if d.finite() && num(ZERO).less(d) && d.at_most(num(TWO)) {
        Some(row)
    } else {
        None
    }
}

pub fn horizon(a: Triple, b: Triple) -> (r: Option<LastRow>)
    ensures
        r == horizon_row(a, b),
{
    let l: Triple = Triple {
        x: a.y.times(b.z).minus(a.z.times(b.y)),
        y: a.z.times(b.x).minus(a.x.times(b.z)),
        z: a.x.times(b.y).minus(a.y.times(b.x)),
    };
    if !(l.x.is_finite() && l.y.is_finite() && l.z.is_finite()) || l.z.abs().lt(
        Single::from_bits(NEAR_ZERO),
    ) {
        return None;
    }
    let row: LastRow = LastRow { x: l.x.over(l.z), y: l.y.over(l.z) };
    let d: Single = row.x.times(row.x).plus(row.y.times(row.y)).sqrt();
    if d.is_finite() && Single::from_bits(ZERO).lt(d) && d.le(Single::from_bits(TWO)) {
        Some(row)
    } else {
        None
    }
}

/// The last row for a mode. Vertical (three) takes the vertical lines' point
/// alone; the others take the horizon through both points, and make do with one.
pub open spec fn mode_row(mode: u8, vertical: Option<Triple>, horizontal: Option<Triple>) -> Option<
    LastRow,
> {
    let row = if mode == 3 {
        match vertical {
            Some(a) => null_row(a),
            None => None,
        }
    } else {
        match (vertical, horizontal) {
            (Some(a), Some(b)) => match horizon_row(a, b) {
                Some(r) => Some(r),
                None => null_row(a),
            },
            (Some(a), None) => null_row(a),
            (None, Some(a)) => null_row(a),
            (None, None) => None,
        }
    };
    match row {
        Some(r) => if mode == 1 {
            Some(LastRow { x: r.x.product(num(HALF)), y: r.y.product(num(HALF)) })
        } else {
            Some(r)
        },
        None => None,
    }
}

/// The map of a rotation about the middle, by its sine and cosine.
pub open spec fn rotation(s: Single, c: Single) -> Seq<Single> {
    let z = num(ZERO);
    centred(seq![c, s.negation(), z, s, c, z, z, z, num(ONE)])
}

/// The map of a last row about the middle.
pub open spec fn warp(r: LastRow) -> Seq<Single> {
    let z = num(ZERO);
    let o = num(ONE);
    centred(seq![o, z, z, z, o, z, r.x, r.y, o])
}

/// The correction for a mode, from what the picture's lines say: the turn that
/// levels it and the vanishing points. Level (two) turns alone; Auto (one) is the
/// full correction (four) with half the last row. There is no other mode.
pub open spec fn correction(
    mode: u8,
    levelled: bool,
    turn: (Single, Single),
    vertical: Option<Triple>,
    horizontal: Option<Triple>,
) -> Option<Seq<Single>> {
    let rotate = rotation(turn.0, turn.1);
    if mode < 1 || mode > 4 {
        None
    } else if mode == 2 {
        if levelled {
            filled(rotate)
        } else {
            None
        }
    } else {
        match mode_row(mode, vertical, horizontal) {
            Some(r) => filled(composed(rotate, warp(r))),
            None => None,
        }
    }
}

fn row_for(mode: u8, vertical: Option<Triple>, horizontal: Option<Triple>) -> (r: Option<LastRow>)
    ensures
        r == mode_row(mode, vertical, horizontal),
{
    let row: Option<LastRow> = if mode == 3 {
        match vertical {
            Some(a) => null_row_through(a),
            None => None,
        }
    } else {
        match (vertical, horizontal) {
            (Some(a), Some(b)) => match horizon(a, b) {
                Some(r) => Some(r),
                None => null_row_through(a),
            },
            (Some(a), None) => null_row_through(a),
            (None, Some(a)) => null_row_through(a),
            (None, None) => None,
        }
    };
    match row {
        Some(r) => {
            if mode == 1 {
                let half: Single = Single::from_bits(HALF);
                Some(LastRow { x: r.x.times(half), y: r.y.times(half) })
            } else {
                Some(r)
            }
        },
        None => None,
    }
}

/// The map that corrects a picture in one of the modes; none if its lines do not
/// support the mode, or if no magnification hides the empty corners.
pub fn solve_upright(
    mode: u8,
    levelled: bool,
    turn: (Single, Single),
    vertical: Option<Triple>,
    horizontal: Option<Triple>,
) -> (r: Option<Homography>)
    ensures
        map_view(r) == correction(mode, levelled, turn, vertical, horizontal),
{
    if mode < 1 || mode > 4 {
        return None;
    }
    let o: Single = Single::from_bits(ONE);
    let z: Single = Single::from_bits(ZERO);
    let (s, c) = turn;
    let m: [Single; 9] = [c, s.neg(), z, s, c, z, z, z, o];
    assert(m@ =~= seq![c, s.negation(), z, s, c, z, z, z, o]);
    let rotate: Homography = Homography::about_centre(m);
    if mode == 2 {
        if levelled {
            return fill_the_frame(rotate);
        }
        return None;
    }
    match row_for(mode, vertical, horizontal) {
        None => None,
        Some(r) => {
            let k: [Single; 9] = [o, z, z, z, o, z, r.x, r.y, o];
            assert(k@ =~= seq![o, z, z, z, o, z, r.x, r.y, o]);
            fill_the_frame(rotate.then_map(Homography::about_centre(k)))
        },
    }
}

/// An upright correction never leaves an empty corner: the map covers the frame.
pub proof fn an_upright_correction_covers_the_frame(
    mode: u8,
    levelled: bool,
    turn: (Single, Single),
    vertical: Option<Triple>,
    horizontal: Option<Triple>,
)
    ensures
        correction(mode, levelled, turn, vertical, horizontal) is Some
            ==> covering(
            correction(mode, levelled, turn, vertical, horizontal)->0,
        ),
{
    let rotate = rotation(turn.0, turn.1);
    if mode == 2 {
        a_filled_map_covers_the_frame(rotate);
    } else {
        match mode_row(mode, vertical, horizontal) {
            Some(r) => {
                a_filled_map_covers_the_frame(composed(rotate, warp(r)));
            },
            None => {},
        }
    }
}

} // verus!
