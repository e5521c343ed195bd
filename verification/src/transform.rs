//! The transform panel: which map a frame is reshaped with, where its pixels
//! come from, and what the crop makes of it.

use vstd::prelude::*;
use vstd::arithmetic::power2::{lemma2_to64, lemma_pow2_adds, lemma_pow2_pos, pow2};
use crate::blobs::lemma_whole_is_finite;
use crate::homography::{
    centred, composed, covering, inverted, magnified, mapped, rescaled, unmoving, within,
    Homography, SMALLEST,
};
use crate::mixing::{is_share, lemma_one, lemma_share, unit};
use crate::numbers::{FOUR, HALF, HUNDRED, MINUS_ONE, ONE, TWO, ZERO};
use crate::recipe::Crop;
use crate::rounding::{
    lemma_quotient_is_number, lemma_round_at_least, lemma_round_at_most, lemma_round_exists,
    lemma_with_sign,
};
use crate::single::{lemma_codes_order, magnitude, num, round_to_code, Single};
use crate::tempering::{lemma_product_at_most, lemma_product_keeps_order, lemma_sum_keeps_order};

verus! {

/// The magnification at which the map covers the frame, narrowed down `n` times
/// from a range at whose upper end it does.
pub open spec fn narrowed_fill(m: Seq<Single>, lo: Single, hi: Single, n: nat) -> Single
    decreases n,
{
    if n == 0 {
        hi
    } else {
        let mid = num(HALF).product(lo.sum(hi));
        if covering(rescaled(m, mid)) {
            narrowed_fill(m, lo, mid, (n - 1) as nat)
        } else {
            narrowed_fill(m, mid, hi, (n - 1) as nat)
        }
    }
}

/// A map magnified about the middle until it covers the frame: as it is, if it
/// does; up to four times; or not at all.
pub open spec fn filled(m: Seq<Single>) -> Option<Seq<Single>> {
    if covering(m) {
        Some(m)
    } else if !covering(rescaled(m, num(FOUR))) {
        None
    } else {
        Some(rescaled(m, narrowed_fill(m, num(ONE), num(FOUR), 40)))
    }
}

/// A map that was made to fill the frame covers it.
pub proof fn a_filled_map_covers_the_frame(m: Seq<Single>)
    ensures
        filled(m) is Some ==> covering(filled(m)->0),
{
    if !covering(m) && covering(rescaled(m, num(FOUR))) {
        lemma_narrowed_covers(m, num(ONE), num(FOUR), 40);
    }
}

proof fn lemma_narrowed_covers(m: Seq<Single>, lo: Single, hi: Single, n: nat)
    requires
        covering(rescaled(m, hi)),
    ensures
        covering(rescaled(m, narrowed_fill(m, lo, hi, n))),
    decreases n,
{
    if n > 0 {
        let mid = num(HALF).product(lo.sum(hi));
        if covering(rescaled(m, mid)) {
            lemma_narrowed_covers(m, lo, mid, (n - 1) as nat);
        } else {
            lemma_narrowed_covers(m, mid, hi, (n - 1) as nat);
        }
    }
}

pub fn fill_the_frame(h: Homography) -> (r: Option<Homography>)
    ensures
        match r {
            Some(g) => filled(h@) == Some(g@),
            None => filled(h@) is None,
        },
{
    if h.covers() {
        return Some(h);
    }
    let half: Single = Single::from_bits(HALF);
    let mut lo: Single = Single::from_bits(ONE);
    let mut hi: Single = Single::from_bits(FOUR);
    if !h.scaled(hi).covers() {
        return None;
    }
    for i in 0..40usize
        invariant
            half == num(HALF),
            narrowed_fill(h@, num(ONE), num(FOUR), 40) == narrowed_fill(h@, lo, hi, (40 - i) as nat),
    {
        let mid: Single = half.times(lo.plus(hi));
        if h.scaled(mid).covers() {
            hi = mid;
        } else {
            lo = mid;
        }
    }
    Some(h.scaled(hi))
}

/// Where a pixel of the reshaped frame comes from, in pixels; nowhere, if that
/// lies outside of the frame.
pub open spec fn source(inv: Seq<Single>, x: int, y: int, w: int, h: int) -> Option<
    (Single, Single),
> {
    let dw = Single::of_whole(w).difference(num(ONE)).larger(num(ONE));
    let dh = Single::of_whole(h).difference(num(ONE)).larger(num(ONE));
    match mapped(inv, Single::of_whole(x).quotient(dw), Single::of_whole(y).quotient(dh)) {
        Some((u, v)) => if within(u, num(ZERO), num(ONE)) && within(v, num(ZERO), num(ONE)) {
            Some((u.product(dw), v.product(dh)))
        } else {
            None
        },
        None => None,
    }
}

pub fn source_of(inv: &Homography, x: usize, y: usize, w: u32, h: u32) -> (r: Option<
    (Single, Single),
>)
    ensures
        r == source(inv@, x as int, y as int, w as int, h as int),
{
    let one: Single = Single::from_bits(ONE);
    let zero: Single = Single::from_bits(ZERO);
    let dw: Single = Single::from_u64(w as u64).minus(one).max(one);
    let dh: Single = Single::from_u64(h as u64).minus(one).max(one);
    match inv.map(Single::from_u64(x as u64).over(dw), Single::from_u64(y as u64).over(dh)) {
        Some((u, v)) => {
            if zero.le(u) && u.le(one) && zero.le(v) && v.le(one) {
                Some((u.times(dw), v.times(dh)))
            } else {
                None
            }
        },
        None => None,
    }
}

/// The map that the pixels of a picture of `w` times `h` are found with; none if the
/// picture is left as it is: it has no pixels, or its map moves nothing, or there
/// is no way back through it.
pub open spec fn way_back(m: Seq<Single>, w: int, h: int) -> Option<Seq<Single>> {
    if w == 0 || h == 0 || unmoving(m) {
        None
    } else {
        inverted(m)
    }
}

pub fn pulled_back(map: &Homography, w: u32, h: u32) -> (r: Option<Homography>)
    ensures
        match r {
            Some(inv) => way_back(map@, w as int, h as int) == Some(inv@),
            None => way_back(map@, w as int, h as int) is None,
        },
{
    if w == 0 || h == 0 || map.is_identity() {
        None
    } else {
        map.inverse()
    }
}

/// A rectangle by its middle and half its sides.
#[derive(Clone, Copy, Debug)]
pub struct CropBox {
    pub cx: Single,
    pub cy: Single,
    pub hw: Single,
    pub hh: Single,
}

/// The middle and the half sides of a crop; without one, of the frame.
pub open spec fn box_of(crop: Option<Crop>) -> CropBox {
    let c = match crop {
        Some(c) => c,
        None => Crop { left: num(ZERO), top: num(ZERO), right: num(ONE), bottom: num(ONE) },
    };
    CropBox {
        cx: c.left.sum(c.right).product(num(HALF)),
        cy: c.top.sum(c.bottom).product(num(HALF)),
        hw: c.right.difference(c.left).product(num(HALF)),
        hh: c.bottom.difference(c.top).product(num(HALF)),
    }
}

impl CropBox {
    /// A corner of the rectangle, shrunk to `s` about its middle, comes from
    /// inside of the frame.
    pub open spec fn corner_inside(
        self,
        inv: Seq<Single>,
        s: Single,
        sx: Single,
        sy: Single,
    ) -> bool {
        match mapped(
            inv,
            self.cx.sum(sx.product(self.hw).product(s)),
            self.cy.sum(sy.product(self.hh).product(s)),
        ) {
            Some((u, v)) => within(u, num(ZERO), num(ONE)) && within(v, num(ZERO), num(ONE)),
            None => false,
        }
    }

    /// The rectangle, shrunk to `s`, lies in the reshaped frame.
    pub open spec fn inside(self, inv: Seq<Single>, s: Single) -> bool {
        &&& self.corner_inside(inv, s, num(MINUS_ONE), num(MINUS_ONE))
        &&& self.corner_inside(inv, s, num(ONE), num(MINUS_ONE))
        &&& self.corner_inside(inv, s, num(MINUS_ONE), num(ONE))
        &&& self.corner_inside(inv, s, num(ONE), num(ONE))
    }

    /// The scale at which the rectangle lies in the frame, narrowed down `n`
    /// times.
    pub open spec fn narrowed(self, inv: Seq<Single>, lo: Single, hi: Single, n: nat) -> Single
        decreases n,
    {
        if n == 0 {
            lo
        } else {
            let mid = num(HALF).product(lo.sum(hi));
            if self.inside(inv, mid) {
                self.narrowed(inv, mid, hi, (n - 1) as nat)
            } else {
                self.narrowed(inv, lo, mid, (n - 1) as nat)
            }
        }
    }

    /// `lo`, one pixel of the tighter axis smaller.
    pub open spec fn retreated(self, lo: Single, w: int, h: int) -> Single {
        let px = num(ONE).quotient(
            Single::of_whole(
                if w < 2 {
                    2
                } else {
                    w
                },
            ),
        );
        let py = num(ONE).quotient(
            Single::of_whole(
                if h < 2 {
                    2
                } else {
                    h
                },
            ),
        );
        let back = px.quotient(self.hw.product(lo).larger(num(SMALLEST))).larger(
            py.quotient(self.hh.product(lo).larger(num(SMALLEST))),
        );
        lo.product(num(ONE).difference(back).larger(num(ZERO)))
    }

    /// The rectangle at a scale.
    pub open spec fn at(self, s: Single) -> Crop {
        Crop {
            left: self.cx.difference(self.hw.product(s)),
            top: self.cy.difference(self.hh.product(s)),
            right: self.cx.sum(self.hw.product(s)),
            bottom: self.cy.sum(self.hh.product(s)),
        }
    }

    fn is_corner_inside(&self, inv: &Homography, s: Single, sx: Single, sy: Single) -> (r: bool)
        ensures
            r == self.corner_inside(inv@, s, sx, sy),
    {
        let zero: Single = Single::from_bits(ZERO);
        let one: Single = Single::from_bits(ONE);
        match inv.map(
            self.cx.plus(sx.times(self.hw).times(s)),
            self.cy.plus(sy.times(self.hh).times(s)),
        ) {
            Some((u, v)) => zero.le(u) && u.le(one) && zero.le(v) && v.le(one),
            None => false,
        }
    }

    fn is_inside(&self, inv: &Homography, s: Single) -> (r: bool)
        ensures
            r == self.inside(inv@, s),
    {
        let plus: Single = Single::from_bits(ONE);
        let minus: Single = Single::from_bits(MINUS_ONE);
        self.is_corner_inside(inv, s, minus, minus) && self.is_corner_inside(inv, s, plus, minus)
            && self.is_corner_inside(inv, s, minus, plus) && self.is_corner_inside(
            inv,
            s,
            plus,
            plus,
        )
    }
}

/// The crop that a reshaped frame allows: the crop shrunk about its own middle,
/// at its own shape, until it lies inside, and a pixel more. None if it lies
/// inside as it is, or if nothing is left of it.
pub open spec fn constrained(m: Seq<Single>, crop: Option<Crop>, w: int, h: int) -> Option<Crop> {
    match inverted(m) {
        None => None,
        Some(inv) => {
            let b = box_of(crop);
            if b.inside(inv, num(ONE)) {
                None
            } else {
                let s = b.retreated(b.narrowed(inv, num(ZERO), num(ONE), 40), w, h);
                if num(ZERO).less(s) {
                    Some(b.at(s))
                } else {
                    None
                }
            }
        },
    }
}

/// The scale that narrowing down ends with is one at which the rectangle lies
/// inside, unless it is the scale that it began with.
pub proof fn narrowing_ends_inside(b: CropBox, inv: Seq<Single>, lo: Single, hi: Single, n: nat)
    ensures
        b.narrowed(inv, lo, hi, n) == lo || b.inside(inv, b.narrowed(inv, lo, hi, n)),
    decreases n,
{
    if n > 0 {
        let mid = num(HALF).product(lo.sum(hi));
        if b.inside(inv, mid) {
            narrowing_ends_inside(b, inv, mid, hi, (n - 1) as nat);
        } else {
            narrowing_ends_inside(b, inv, lo, mid, (n - 1) as nat);
        }
    }
}

/// Half of a sum of two shares is a share.
proof fn lemma_halfway(lo: Single, hi: Single)
    requires
        is_share(lo),
        is_share(hi),
    ensures
        is_share(num(HALF).product(lo.sum(hi))),
{
    lemma_share(lo);
    lemma_share(hi);
    lemma_one();
    lemma2_to64();
    lemma_pow2_pos(148);
    lemma_pow2_adds(1, 148);
    lemma_pow2_adds(1, 149);
    lemma_pow2_adds(23, 125);
    lemma_pow2_adds(23, 127);
    let two: int = TWO as int;
    let half: int = HALF as int;
    assert(two / 0x80_0000 == 128 && two % 0x80_0000 == 0);
    assert(half / 0x80_0000 == 126 && half % 0x80_0000 == 0);
    let u = unit();
    let s = lo.sum(hi);
    let v = lo.value() + hi.value();
    reveal(Single::sum);
    assert(magnitude(0) == 0);
    assert(lo.value() >= 0 && hi.value() >= 0);
    if v != 0 {
        lemma_round_exists(v, 1);
        lemma_round_at_most(v, 1, two);
        lemma_with_sign(false, round_to_code(v, 1));
    }
    assert(!s.negative() && s.code() <= two);
    lemma_codes_order(s.code(), two);
    lemma_codes_order(s.code(), 0);
    let n = magnitude(half) * magnitude(s.code());
    assert(0 <= n <= u * u) by (nonlinear_arith)
        requires
            n == magnitude(half) * magnitude(s.code()),
            0 <= magnitude(s.code()) <= magnitude(two),
            magnitude(two) == 2 * u,
            2 * magnitude(half) == u,
            u > 0,
    ;
    reveal(Single::product);
    lemma_round_exists(n, u);
    lemma_round_at_most(n, u, ONE as int);
    lemma_with_sign(false, round_to_code(n, u));
}

/// Narrowing down never leaves its range.
proof fn lemma_narrowed_share(b: CropBox, inv: Seq<Single>, lo: Single, hi: Single, n: nat)
    requires
        is_share(lo),
        is_share(hi),
    ensures
        is_share(b.narrowed(inv, lo, hi, n)),
    decreases n,
{
    if n > 0 {
        let mid = num(HALF).product(lo.sum(hi));
        lemma_halfway(lo, hi);
        if b.inside(inv, mid) {
            lemma_narrowed_share(b, inv, mid, hi, (n - 1) as nat);
        } else {
            lemma_narrowed_share(b, inv, lo, mid, (n - 1) as nat);
        }
    }
}

/// What is left of one is a share, whatever is taken that is not below nought.
proof fn lemma_left_of_one(back: Single)
    requires
        !back.nan(),
        !back.negative(),
    ensures
        is_share(num(ONE).difference(back).larger(num(ZERO))),
{
    lemma_one();
    reveal(Single::sum);
    let v = unit() - magnitude(back.code());
    lemma_codes_order(back.code(), 0);
    let n = if v < 0 {
        -v
    } else {
        v
    };
    assert(magnitude(0) == 0 && magnitude(1) == 1);
    lemma_round_exists(n, 1);
    if v < 0 {
        lemma_round_at_least(n, 1, 1);
        lemma_with_sign(true, round_to_code(n, 1));
    } else {
        lemma_round_at_most(n, 1, ONE as int);
        lemma_with_sign(false, round_to_code(n, 1));
    }
}

/// One pixel as a part of a side is not below nought.
proof fn lemma_pixel_part(n: int, side: Single)
    requires
        0 <= n <= u32::MAX,
        side.finite(),
        !side.negative(),
    ensures
        ({
            let p = num(ONE).quotient(
                Single::of_whole(
                    if n < 2 {
                        2
                    } else {
                        n
                    },
                ),
            ).quotient(side.larger(num(SMALLEST)));
            !p.nan() && !p.negative()
        }),
{
    let k = if n < 2 {
        2
    } else {
        n
    };
    let d = Single::of_whole(k);
    lemma_whole_is_finite(k);
    lemma_one();
    assert(!d.negative() && d.code() > 0) by {
        reveal(Single::of_whole);
        lemma_pow2_pos(149);
        assert(magnitude(1) == 1);
        let u = pow2(149) as int;
        assert(k * u >= 1) by (nonlinear_arith)
            requires
                k >= 2,
                u > 0,
        ;
        lemma_round_exists(k * u, 1);
        lemma_round_at_least(k * u, 1, 1);
        lemma_with_sign(false, round_to_code(k * u, 1));
    }
    lemma_quotient_is_number(num(ONE), d);
    let px = num(ONE).quotient(d);
    let e = side.larger(num(SMALLEST));
    assert(e.finite() && !e.negative() && e.code() > 0);
    assert(px.finite() || px.infinite());
    if px.finite() {
        lemma_quotient_is_number(px, e);
    } else {
        reveal(Single::quotient);
    }
}

/// A rectangle that a smaller scale makes of a box lies in the one that a larger makes.
proof fn lemma_smaller_lies_in(mid: Single, half: Single, s: Single, lo: Single)
    requires
        mid.finite(),
        half.finite(),
        !half.negative(),
        is_share(s),
        is_share(lo),
        s.at_most(lo),
    ensures
        mid.difference(half.product(lo)).at_most(mid.difference(half.product(s))),
        mid.sum(half.product(s)).at_most(mid.sum(half.product(lo))),
{
    lemma_product_at_most(half, s);
    lemma_product_at_most(half, lo);
    lemma_product_keeps_order(s, lo, half);
    assert(s.product(half) == half.product(s) && lo.product(half) == half.product(lo)) by {
        reveal(Single::product);
        assert(magnitude(s.code()) * magnitude(half.code()) == magnitude(half.code()) * magnitude(
            s.code(),
        )) by (nonlinear_arith);
        assert(magnitude(lo.code()) * magnitude(half.code()) == magnitude(half.code()) * magnitude(
            lo.code(),
        )) by (nonlinear_arith);
    }
    let a = half.product(s);
    let b = half.product(lo);
    lemma_sum_keeps_order(a, b, mid);
    lemma_sum_keeps_order(b.negation(), a.negation(), mid);
}

/// Narrowing a crop down, and giving a pixel back, leaves a scale from nought to one, and
/// the second is no more than the first.
pub proof fn constrained_scales_are_shares(m: Seq<Single>, crop: Option<Crop>, w: int, h: int)
    requires
        constrained(m, crop, w, h) is Some,
        0 <= w <= u32::MAX,
        0 <= h <= u32::MAX,
        ({
            let b = box_of(crop);
            &&& b.hw.finite() && !b.hw.negative()
            &&& b.hh.finite() && !b.hh.negative()
        }),
    ensures
        ({
            let b = box_of(crop);
            let lo = b.narrowed(inverted(m)->0, num(ZERO), num(ONE), 40);
            let s = b.retreated(lo, w, h);
            &&& is_share(lo)
            &&& is_share(s)
            &&& s.at_most(lo)
            &&& lo != num(ZERO)
            &&& constrained(m, crop, w, h) == Some(b.at(s))
        }),
{
    let b = box_of(crop);
    let inv = inverted(m)->0;
    lemma_one();
    assert(is_share(num(ZERO)) && is_share(num(ONE)));
    let lo = b.narrowed(inv, num(ZERO), num(ONE), 40);
    lemma_narrowed_share(b, inv, num(ZERO), num(ONE), 40);
    lemma_product_at_most(b.hw, lo);
    lemma_product_at_most(b.hh, lo);
    lemma_pixel_part(w, b.hw.product(lo));
    lemma_pixel_part(h, b.hh.product(lo));
    let s = b.retreated(lo, w, h);
    let px = num(ONE).quotient(
        Single::of_whole(
            if w < 2 {
                2
            } else {
                w
            },
        ),
    );
    let py = num(ONE).quotient(
        Single::of_whole(
            if h < 2 {
                2
            } else {
                h
            },
        ),
    );
    let back = px.quotient(b.hw.product(lo).larger(num(SMALLEST))).larger(
        py.quotient(b.hh.product(lo).larger(num(SMALLEST))),
    );
    lemma_left_of_one(back);
    let f = num(ONE).difference(back).larger(num(ZERO));
    lemma_product_at_most(lo, f);
    assert(s == lo.product(f));
    if lo == num(ZERO) {
        lemma_codes_order(s.code(), 0);
    }
}

/// A crop that is constrained lies in a rectangle whose corners all come from inside of
/// the frame: giving a pixel back only draws it further in.
pub proof fn a_constrained_crop_lies_inside(m: Seq<Single>, crop: Option<Crop>, w: int, h: int)
    requires
        constrained(m, crop, w, h) is Some,
        0 <= w <= u32::MAX,
        0 <= h <= u32::MAX,
        ({
            let b = box_of(crop);
            &&& b.cx.finite() && b.cy.finite()
            &&& b.hw.finite() && !b.hw.negative()
            &&& b.hh.finite() && !b.hh.negative()
        }),
    ensures
        ({
            let b = box_of(crop);
            let inv = inverted(m)->0;
            let lo = b.narrowed(inv, num(ZERO), num(ONE), 40);
            let c = constrained(m, crop, w, h)->0;
            let edge = b.at(lo);
            &&& b.inside(inv, lo)
            &&& edge.left.at_most(c.left) && c.right.at_most(edge.right)
            &&& edge.top.at_most(c.top) && c.bottom.at_most(edge.bottom)
        }),
{
    let b = box_of(crop);
    let inv = inverted(m)->0;
    let lo = b.narrowed(inv, num(ZERO), num(ONE), 40);
    constrained_scales_are_shares(m, crop, w, h);
    narrowing_ends_inside(b, inv, num(ZERO), num(ONE), 40);
    let s = b.retreated(lo, w, h);
    assert(lo != num(ZERO));
    lemma_smaller_lies_in(b.cx, b.hw, s, lo);
    lemma_smaller_lies_in(b.cy, b.hh, s, lo);
}

pub fn constrain_crop(h: Homography, crop: Option<Crop>, dims: (u32, u32)) -> (r: Option<Crop>)
    ensures
        r == constrained(h@, crop, dims.0 as int, dims.1 as int),
{
    let zero: Single = Single::from_bits(ZERO);
    let one: Single = Single::from_bits(ONE);
    let half: Single = Single::from_bits(HALF);
    let tiny: Single = Single::from_bits(SMALLEST);
    let c: Crop = match crop {
        Some(c) => c,
        None => Crop { left: zero, top: zero, right: one, bottom: one },
    };
    let inv: Homography = match h.inverse() {
        Some(inv) => inv,
        None => {
            return None;
        },
    };
    let b: CropBox = CropBox {
        cx: c.left.plus(c.right).times(half),
        cy: c.top.plus(c.bottom).times(half),
        hw: c.right.minus(c.left).times(half),
        hh: c.bottom.minus(c.top).times(half),
    };
    if b.is_inside(&inv, one) {
        return None;
    }
    let mut lo: Single = zero;
    let mut hi: Single = one;
    for i in 0..40usize
        invariant
            half == num(HALF),
            b.narrowed(inv@, num(ZERO), num(ONE), 40) == b.narrowed(inv@, lo, hi, (40 - i) as nat),
    {
        let mid: Single = half.times(lo.plus(hi));
        if b.is_inside(&inv, mid) {
            lo = mid;
        } else {
            hi = mid;
        }
    }
    let px: Single = one.over(
        Single::from_u64(
            if dims.0 < 2 {
                2
            } else {
                dims.0 as u64
            },
        ),
    );
    let py: Single = one.over(
        Single::from_u64(
            if dims.1 < 2 {
                2
            } else {
                dims.1 as u64
            },
        ),
    );
    let back: Single = px.over(b.hw.times(lo).max(tiny)).max(py.over(b.hh.times(lo).max(tiny)));
    let s: Single = lo.times(one.minus(back).max(zero));
    if zero.lt(s) {
        Some(
            Crop {
                left: b.cx.minus(b.hw.times(s)),
                top: b.cy.minus(b.hh.times(s)),
                right: b.cx.plus(b.hw.times(s)),
                bottom: b.cy.plus(b.hh.times(s)),
            },
        )
    } else {
        None
    }
}

/// The level of every channel where the map pulls from outside of the frame: white.
pub const VOID: u16 = 0xFFFF;

/// A pixel of the reshaped frame: what was seen at its source, or the void.
pub fn seen_or_void(seen: Option<[u16; 3]>) -> (r: [u16; 3])
    ensures
        r@ == (match seen {
            Some(p) => p@,
            None => seq![VOID, VOID, VOID],
        }),
{
    match seen {
        Some(p) => p,
        None => {
            let void: [u16; 3] = [VOID, VOID, VOID];
            assert(void@ =~= seq![VOID, VOID, VOID]);
            void
        },
    }
}

/// 0.65: the keystone at the end of its slider, to a short side of the frame.
pub const KEYSTONE: u32 = 0x3F26_6666;

/// 0.8121: the offset at the end of its slider, in fractions of the frame.
pub const OFFSET: u32 = 0x3F4F_E5C9;

/// The manual sliders. The sine and the cosine of the rotation, and the factor
/// that the aspect slider stands for, come from outside: how a platform rounds
/// them is its own affair.
#[derive(Clone, Copy, Debug)]
pub struct ManualSliders {
    pub vertical: Single,
    pub horizontal: Single,
    pub scale: Single,
    pub x: Single,
    pub y: Single,
    pub radians: Single,
    pub sin: Single,
    pub cos: Single,
    pub growth: Single,
}

impl ManualSliders {
    /// The keystones along the two axes. Both are measured by the short side.
    pub open spec fn keystone_v(self, aspect: Single) -> Single {
        let uy = if num(ONE).at_most(aspect) {
            num(ONE)
        } else {
            num(ONE).quotient(aspect)
        };
        self.vertical.quotient(num(HUNDRED)).negation().product(num(KEYSTONE)).product(uy)
    }

    pub open spec fn keystone_h(self, aspect: Single) -> Single {
        let ux = if num(ONE).at_most(aspect) {
            aspect
        } else {
            num(ONE)
        };
        self.horizontal.quotient(num(HUNDRED)).negation().product(num(KEYSTONE)).product(ux)
    }

    pub open spec fn shift_x(self) -> Single {
        self.x.quotient(num(HUNDRED)).product(num(OFFSET))
    }

    pub open spec fn shift_y(self) -> Single {
        self.y.quotient(num(HUNDRED)).negation().product(num(OFFSET))
    }

    pub open spec fn magnification(self) -> Single {
        self.scale.quotient(num(HUNDRED))
    }

    /// No slider is moved.
    pub open spec fn at_rest(self, aspect: Single) -> bool {
        &&& self.keystone_v(aspect).equals(num(ZERO))
        &&& self.keystone_h(aspect).equals(num(ZERO))
        &&& self.radians.equals(num(ZERO))
        &&& self.growth.equals(num(ONE))
        &&& self.magnification().equals(num(ONE))
        &&& self.shift_x().equals(num(ZERO))
        &&& self.shift_y().equals(num(ZERO))
    }

    /// The sliders one after the other: both keystones, the rotation, the
    /// aspect, the scale and the offsets.
    pub open spec fn chain(self, aspect: Single) -> Seq<Single> {
        let o = num(ONE);
        let z = num(ZERO);
        let v = seq![o, z, z, z, o, z, z, self.keystone_v(aspect), o];
        let h = seq![o, z, z, z, o, z, self.keystone_h(aspect), z, o];
        let turn = seq![
            self.cos, self.sin.negation().quotient(aspect), z,
            self.sin.product(aspect), self.cos, z,
            z, z, o,
        ];
        let stretch = seq![o.quotient(self.growth), z, z, z, self.growth, z, z, z, o];
        let scale = magnified(self.magnification());
        let offset = seq![o, z, self.shift_x(), z, o, self.shift_y(), z, z, o];
        composed(
            composed(composed(composed(composed(v, h), turn), stretch), scale),
            offset,
        )
    }

    /// The map of the sliders about the middle of the frame; none at rest.
    pub open spec fn as_map(self, aspect: Single) -> Option<Seq<Single>> {
        if self.at_rest(aspect) {
            None
        } else {
            Some(centred(self.chain(aspect)))
        }
    }
}

pub fn manual(p: &ManualSliders, aspect: Single) -> (r: Option<Homography>)
    ensures
        match r {
            Some(h) => p.as_map(aspect) == Some(h@),
            None => p.as_map(aspect) is None,
        },
{
    let o: Single = Single::from_bits(ONE);
    let z: Single = Single::from_bits(ZERO);
    let hundred: Single = Single::from_bits(HUNDRED);
    let keystone: Single = Single::from_bits(KEYSTONE);
    let wide: bool = o.le(aspect);
    let uy: Single = if wide {
        o
    } else {
        o.over(aspect)
    };
    let ux: Single = if wide {
        aspect
    } else {
        o
    };
    let kv: Single = p.vertical.over(hundred).neg().times(keystone).times(uy);
    let kh: Single = p.horizontal.over(hundred).neg().times(keystone).times(ux);
    let s: Single = p.scale.over(hundred);
    let tx: Single = p.x.over(hundred).times(Single::from_bits(OFFSET));
    let ty: Single = p.y.over(hundred).neg().times(Single::from_bits(OFFSET));
    if same(kv, z) && same(kh, z) && same(p.radians, z) && same(p.growth, o) && same(s, o) && same(
        tx,
        z,
    ) && same(ty, z) {
        return None;
    }
    let v: Homography = Homography([o, z, z, z, o, z, z, kv, o]);
    let h: Homography = Homography([o, z, z, z, o, z, kh, z, o]);
    let turn: Homography = Homography(
        [p.cos, p.sin.neg().over(aspect), z, p.sin.times(aspect), p.cos, z, z, z, o],
    );
    let stretch: Homography = Homography([o.over(p.growth), z, z, z, p.growth, z, z, z, o]);
    let scale: Homography = Homography([s, z, z, z, s, z, z, z, o]);
    let offset: Homography = Homography([o, z, tx, z, o, ty, z, z, o]);
    proof {
        assert(v@ =~= seq![o, z, z, z, o, z, z, kv, o]);
        assert(h@ =~= seq![o, z, z, z, o, z, kh, z, o]);
        assert(turn@ =~= seq![
            p.cos, p.sin.negation().quotient(aspect), z,
            p.sin.product(aspect), p.cos, z,
            z, z, o,
        ]);
        assert(stretch@ =~= seq![o.quotient(p.growth), z, z, z, p.growth, z, z, z, o]);
        assert(scale@ =~= magnified(s));
        assert(offset@ =~= seq![o, z, tx, z, o, ty, z, z, o]);
    }
    let m: Homography = v.then_map(h).then_map(turn).then_map(stretch).then_map(scale).then_map(
        offset,
    );
    Some(Homography::about_centre(m.0))
}

fn same(a: Single, b: Single) -> (r: bool)
    ensures
        r == a.equals(b),
{
    a.le(b) && b.le(a)
}

/// The map that a sidecar holds for an upright mode: none when the mode is off,
/// when it holds none for it, or when it holds one that changes nothing.
pub open spec fn sidecar_map(mode: Single, maps: Seq<Seq<Single>>) -> Option<Seq<Single>> {
    let m = mode.rounded();
    let k = m.cast(0, usize::MAX as int);
    if m.at_most(num(ZERO)) || k >= maps.len() || unmoving(maps[k]) {
        None
    } else {
        Some(maps[k])
    }
}

/// What a list of maps says.
pub open spec fn map_views(maps: Seq<Homography>) -> Seq<Seq<Single>> {
    Seq::new(maps.len(), |i: int| maps[i]@)
}

pub fn upright_from_sidecar(mode: Single, maps: &Vec<Homography>) -> (r: Option<Homography>)
    ensures
        match r {
            Some(h) => sidecar_map(mode, map_views(maps@)) == Some(h@),
            None => sidecar_map(mode, map_views(maps@)) is None,
        },
{
    let m: Single = mode.round();
    if m.le(Single::from_bits(ZERO)) {
        return None;
    }
    let k: u64 = m.to_u64();
    let n: usize = maps.len();
    if k >= n as u64 {
        return None;
    }
    let h: Homography = maps[k as usize];
    assert(h@ == map_views(maps@)[k as int]);
    if h.is_identity() {
        None
    } else {
        Some(h)
    }
}

/// The mode that is solved from the picture when a sidecar gives no map: one to
/// four.
pub fn mode_to_solve(mode: Single) -> (r: Option<u8>)
    ensures
        r == (if within(mode.rounded(), num(ONE), num(FOUR)) {
            Some(mode.rounded().cast(0, 255) as u8)
        } else {
            None
        }),
{
    let m: Single = mode.round();
    if Single::from_bits(ONE).le(m) && m.le(Single::from_bits(FOUR)) {
        let n: u64 = m.to_u64();
        Some(
            if n > 255 {
                255
            } else {
                n as u8
            },
        )
    } else {
        None
    }
}

/// The whole stage as one map: the upright correction, and then the sliders that
/// adjust what it made.
pub open spec fn stage(upright: Option<Seq<Single>>, sliders: Option<Seq<Single>>) -> Option<
    Seq<Single>,
> {
    match (upright, sliders) {
        (None, None) => None,
        (Some(u), None) => Some(u),
        (None, Some(m)) => Some(m),
        (Some(u), Some(m)) => Some(composed(u, m)),
    }
}

/// What a map says that may be missing.
pub open spec fn map_view(h: Option<Homography>) -> Option<Seq<Single>> {
    match h {
        Some(h) => Some(h@),
        None => None,
    }
}

/// The shape of a frame: its width to its height.
pub open spec fn aspect_of(w: int, h: int) -> Single {
    Single::of_whole(
        if w < 1 {
            1
        } else {
            w
        },
    ).quotient(
        Single::of_whole(
            if h < 1 {
                1
            } else {
                h
            },
        ),
    )
}

pub fn transform(upright: Option<Homography>, p: &ManualSliders, dims: (u32, u32)) -> (r: Option<
    Homography,
>)
    ensures
        map_view(r) == stage(
            map_view(upright),
            p.as_map(aspect_of(dims.0 as int, dims.1 as int)),
        ),
{
    let w: u64 = if dims.0 < 1 {
        1
    } else {
        dims.0 as u64
    };
    let h: u64 = if dims.1 < 1 {
        1
    } else {
        dims.1 as u64
    };
    let aspect: Single = Single::from_u64(w).over(Single::from_u64(h));
    match (upright, manual(p, aspect)) {
        (None, None) => None,
        (Some(u), None) => Some(u),
        (None, Some(m)) => Some(m),
        (Some(u), Some(m)) => Some(u.then_map(m)),
    }
}

} // verus!
