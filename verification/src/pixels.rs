//! What the passes of a render do to one pixel. Curves that a platform rounds in
//! its own way, such as powers and the smooth steps of a host, come from outside.

use vstd::prelude::*;
use crate::film::FilmScale;
use crate::finish::{value_noise, noise, CropRect, Grain, Style, Vignette};
use crate::heal::Rgb;
use crate::lens::Window;
use crate::numbers::{FOUR, HALF, ONE, ONE_THOUSANDTH, QUARTER, THREE, ZERO};
use crate::single::{num, Single};

verus! {

/// 0.299: the weight of red in a pixel's brightness.
pub const RED_WEIGHT: u32 = 0x3E99_1687;

/// 0.587: that of green.
pub const GREEN_WEIGHT: u32 = 0x3F16_45A2;

/// 0.114: that of blue.
pub const BLUE_WEIGHT: u32 = 0x3DE9_78D5;

/// One over the root of two.
pub const ROOT_HALF: u32 = 0x3F35_04F3;

/// How many cells of the grain make one of its clumps.
pub const CLUMP: u32 = FOUR;

/// Which field the clumps come from.
pub const CLUMP_FIELD: i32 = 7;

/// Each channel.
pub open spec fn each(px: Rgb<Single>, f: spec_fn(Single) -> Single) -> Rgb<Single> {
    Rgb { r: f(px.r), g: f(px.g), b: f(px.b) }
}

// ---- sharpening ----

/// How much a pixel is to be lifted: by what it has over its blurred self and,
/// in part, over the mean of its four neighbours.
pub open spec fn boosted(
    l: Single,
    blur: Single,
    near: Seq<Single>,
    fine: Single,
    gain: Single,
) -> Single {
    let coarse = l.difference(blur);
    let mean = num(QUARTER).product(near[0].sum(near[1]).sum(near[2]).sum(near[3]));
    gain.product(
        if num(ZERO).less(fine) {
            coarse.sum(fine.product(l.difference(mean)))
        } else {
            coarse
        },
    )
}

pub fn boost(l: Single, blur: Single, near: [Single; 4], fine: Single, gain: Single) -> (r: Single)
    ensures
        r == boosted(l, blur, near@, fine, gain),
{
    let coarse: Single = l.minus(blur);
    let signal: Single = if Single::from_bits(ZERO).lt(fine) {
        let mean: Single = Single::from_bits(QUARTER).times(
            near[0].plus(near[1]).plus(near[2]).plus(near[3]),
        );
        coarse.plus(fine.times(l.minus(mean)))
    } else {
        coarse
    };
    gain.times(signal)
}

/// A brightness that is lifted where an edge and a mask let it.
pub fn lifted(l: Single, boost: Single, edge: Option<Single>, weight: Single) -> (r: Single)
    ensures
        r == l.sum(
            boost.product(
                match edge {
                    Some(e) => e,
                    None => num(ONE),
                },
            ).product(weight),
        ),
{
    let e: Single = match edge {
        Some(e) => e,
        None => Single::from_bits(ONE),
    };
    l.plus(boost.times(e).times(weight))
}

/// What a plane shows at a place, or at the nearest one that it has.
pub open spec fn shown(plane: Seq<Single>, x: int, y: int, w: int, h: int) -> Single {
    let i = if x < 0 { 0 } else if x >= w { w - 1 } else { x };
    let j = if y < 0 { 0 } else if y >= h { h - 1 } else { y };
    plane[j * w + i]
}

/// The gradient of a plane at a pixel, to a pixel of film.
pub open spec fn slope_at(
    plane: Seq<Single>,
    x: int,
    y: int,
    w: int,
    h: int,
    per_pixel: Single,
) -> Single {
    let gx = num(HALF).product(
        shown(plane, x + 1, y, w, h).difference(shown(plane, x - 1, y, w, h)),
    );
    let gy = num(HALF).product(
        shown(plane, x, y + 1, w, h).difference(shown(plane, x, y - 1, w, h)),
    );
    gx.product(gx).sum(gy.product(gy)).root().quotient(per_pixel)
}

proof fn lemma_place(x: int, y: int, w: int, h: int)
    requires
        0 <= x < w,
        0 <= y < h,
    ensures
        0 <= y * w <= y * w + x < w * h,
{
    assert(0 <= y * w && y * w + x < w * h) by (nonlinear_arith)
        requires
            0 <= x < w,
            0 <= y < h,
    ;
}

pub fn gradient(
    plane: &Vec<Single>,
    x: usize,
    y: usize,
    w: usize,
    h: usize,
    film: FilmScale,
) -> (r: Single)
    requires
        x < w,
        y < h,
        plane@.len() == w * h,
    ensures
        r == slope_at(plane@, x as int, y as int, w as int, h as int, film.per_pixel()),
{
    let left: usize = if x > 0 {
        x - 1
    } else {
        0
    };
    let right: usize = if w - x > 1 {
        x + 1
    } else {
        w - 1
    };
    let above: usize = if y > 0 {
        y - 1
    } else {
        0
    };
    let below: usize = if h - y > 1 {
        y + 1
    } else {
        h - 1
    };
    let n: usize = plane.len();
    proof {
        assert(n == w * h);
        lemma_place(left as int, y as int, w as int, h as int);
        lemma_place(right as int, y as int, w as int, h as int);
        lemma_place(x as int, above as int, w as int, h as int);
        lemma_place(x as int, below as int, w as int, h as int);
    }
    let half: Single = Single::from_bits(HALF);
    let gx: Single = half.times(plane[y * w + right].minus(plane[y * w + left]));
    let gy: Single = half.times(plane[below * w + x].minus(plane[above * w + x]));
    gx.times(gx).plus(gy.times(gy)).sqrt().over(film.factor())
}

// ---- noise reduction ----

/// A line that a neighbourhood fits: its slope and its offset.
#[derive(Clone, Copy, Debug)]
pub struct Fit {
    pub slope: Single,
    pub offset: Single,
}

/// How much a neighbourhood varies: the mean of its squares over the square of
/// its mean, and never below nought.
pub open spec fn variation(squares: Single, mean: Single) -> Single {
    squares.difference(mean.product(mean)).larger(num(ZERO))
}

pub fn variance(squares: Single, mean: Single) -> (r: Single)
    ensures
        r == variation(squares, mean),
{
    squares.minus(mean.times(mean)).max(Single::from_bits(ZERO))
}

/// The fit of a neighbourhood to itself: where it varies far above `eps` a pixel
/// keeps its value, where it varies far below it takes the mean.
pub open spec fn fit_to_itself(squares: Single, mean: Single, eps: Single) -> Fit {
    let var = variation(squares, mean);
    let slope = var.quotient(var.sum(eps));
    Fit { slope, offset: mean.difference(slope.product(mean)) }
}

pub fn self_fit(squares: Single, mean: Single, eps: Single) -> (r: Fit)
    ensures
        r == fit_to_itself(squares, mean, eps),
{
    let var: Single = variance(squares, mean);
    let slope: Single = var.over(var.plus(eps));
    Fit { slope, offset: mean.minus(slope.times(mean)) }
}

/// The fit of a colour to the brightness that guides it.
pub open spec fn fit_to_guide(
    products: Single,
    guide: Single,
    mean: Single,
    var: Single,
    eps: Single,
) -> Fit {
    let slope = products.difference(guide.product(mean)).quotient(var.sum(eps));
    Fit { slope, offset: mean.difference(slope.product(guide)) }
}

pub fn colour_fit(products: Single, guide: Single, mean: Single, var: Single, eps: Single) -> (r:
    Fit)
    ensures
        r == fit_to_guide(products, guide, mean, var, eps),
{
    let slope: Single = products.minus(guide.times(mean)).over(var.plus(eps));
    Fit { slope, offset: mean.minus(slope.times(guide)) }
}

impl Fit {
    /// The fitted value.
    pub fn at(self, l: Single) -> (r: Single)
        ensures
            r == self.slope.product(l).sum(self.offset),
    {
        self.slope.times(l).plus(self.offset)
    }
}

/// A brightness after noise reduction: the fitted value, with some of the coarse
/// part of what was taken away, as far as a mask lets it.
pub fn smoothed(
    l: Single,
    fitted: Single,
    coarse: Option<Single>,
    contrast: Single,
    weight: Single,
) -> (r: Single)
    ensures
        r == ({
            let target = fitted.sum(
                match coarse {
                    Some(c) => contrast.product(c),
                    None => num(ZERO),
                },
            );
            l.sum(target.difference(l).product(weight))
        }),
{
    let back: Single = match coarse {
        Some(c) => contrast.times(c),
        None => Single::from_bits(ZERO),
    };
    let target: Single = fitted.plus(back);
    l.plus(target.minus(l).times(weight))
}

/// A value kept between nought and one.
pub open spec fn in_unit(v: Single) -> Single {
    v.clamped(num(ZERO), num(ONE))
}

fn unit(v: Single) -> (r: Single)
    ensures
        r == in_unit(v),
{
    v.clamp(Single::from_bits(ZERO), Single::from_bits(ONE))
}

/// A pixel of brightness `l` whose red and blue go part of the way to fitted
/// differences from it. Green follows, so that the brightness stays.
pub open spec fn with_colour(
    px: Rgb<Single>,
    l: Single,
    red: Single,
    blue: Single,
    blend: Single,
) -> Rgb<Single> {
    let cr = px.r.difference(l);
    let cb = px.b.difference(l);
    let r = l.sum(cr).sum(red.difference(cr).product(blend));
    let b = l.sum(cb).sum(blue.difference(cb).product(blend));
    let g = l.difference(num(RED_WEIGHT).product(r)).difference(
        num(BLUE_WEIGHT).product(b),
    ).quotient(num(GREEN_WEIGHT));
    Rgb { r: in_unit(r), g: in_unit(g), b: in_unit(b) }
}

pub fn recoloured(px: Rgb<Single>, l: Single, red: Single, blue: Single, blend: Single) -> (q: Rgb<
    Single,
>)
    ensures
        q == with_colour(px, l, red, blue, blend),
{
    let cr: Single = px.r.minus(l);
    let cb: Single = px.b.minus(l);
    let r: Single = l.plus(cr).plus(red.minus(cr).times(blend));
    let b: Single = l.plus(cb).plus(blue.minus(cb).times(blend));
    let g: Single = l.minus(Single::from_bits(RED_WEIGHT).times(r)).minus(
        Single::from_bits(BLUE_WEIGHT).times(b),
    ).over(Single::from_bits(GREEN_WEIGHT));
    Rgb { r: unit(r), g: unit(g), b: unit(b) }
}

/// Where the middle of a pixel lies among blocks of `s` pixels.
pub fn among_blocks(x: usize, s: usize) -> (r: Single)
    ensures
        r == Single::of_whole(x as int).sum(num(HALF)).quotient(
            Single::of_whole(s as int),
        ).difference(num(HALF)),
{
    let half: Single = Single::from_bits(HALF);
    Single::from_u64(x as u64).plus(half).over(Single::from_u64(s as u64)).minus(half)
}

// ---- the vignette ----

/// A half side of the contour, drawn towards the shorter one.
pub open spec fn drawn_in(side: Single, short: Single, circle: Single) -> Single {
    if num(ZERO).less(circle) {
        side.sum(short.difference(side).product(circle))
    } else {
        side
    }
}

impl Vignette {
    /// How far a place is from the middle, in half sides of the contour.
    pub open spec fn offsets(self, rect: CropRect, x: Single, y: Single) -> (Single, Single) {
        let ax = rect.w.product(num(HALF));
        let ay = rect.h.product(num(HALF));
        let short = ax.smaller(ay);
        let cx = rect.x0.sum(rect.w.product(num(HALF)));
        let cy = rect.y0.sum(rect.h.product(num(HALF)));
        (
            x.difference(cx).quotient(
                drawn_in(ax, short, self.circle).larger(num(ONE_THOUSANDTH)),
            ).absolute(),
            y.difference(cy).quotient(
                drawn_in(ay, short, self.circle).larger(num(ONE_THOUSANDTH)),
            ).absolute(),
        )
    }

    pub fn reach(&self, rect: CropRect, x: Single, y: Single) -> (r: (Single, Single))
        ensures
            r == self.offsets(rect, x, y),
    {
        let half: Single = Single::from_bits(HALF);
        let least: Single = Single::from_bits(ONE_THOUSANDTH);
        let mut ax: Single = rect.w.times(half);
        let mut ay: Single = rect.h.times(half);
        if Single::from_bits(ZERO).lt(self.circle) {
            let short: Single = ax.min(ay);
            ax = ax.plus(short.minus(ax).times(self.circle));
            ay = ay.plus(short.minus(ay).times(self.circle));
        }
        (
            x.minus(rect.cx()).over(ax.max(least)).abs(),
            y.minus(rect.cy()).over(ay.max(least)).abs(),
        )
    }

    /// The distance on an elliptic contour, one at its corner.
    pub fn elliptic(reach: (Single, Single)) -> (r: Single)
        ensures
            r == reach.0.product(reach.0).sum(reach.1.product(reach.1)).root().product(
                num(ROOT_HALF),
            ),
    {
        reach.0.times(reach.0).plus(reach.1.times(reach.1)).sqrt().times(
            Single::from_bits(ROOT_HALF),
        )
    }

    /// Where the falloff begins and ends.
    pub fn ends(&self) -> (r: (Single, Single))
        ensures
            r == (self.mid.difference(self.half), self.mid.sum(self.half)),
    {
        (self.mid.minus(self.half), self.mid.plus(self.half))
    }

    /// A pixel of a painted vignette: black or white is mixed in.
    pub open spec fn painted_over(self, px: Rgb<Single>, weight: Single) -> Rgb<Single> {
        let t = in_unit(weight.product(self.stops.quotient(num(FOUR)).absolute()));
        let target = if self.stops.less(num(ZERO)) {
            num(ZERO)
        } else {
            num(ONE)
        };
        if weight.at_most(num(ZERO)) {
            px
        } else {
            each(px, |c: Single| c.sum(target.difference(c).product(t)))
        }
    }

    pub fn paint(&self, px: Rgb<Single>, weight: Single) -> (q: Rgb<Single>)
        ensures
            q == self.painted_over(px, weight),
    {
        let zero: Single = Single::from_bits(ZERO);
        if weight.le(zero) {
            return px;
        }
        let t: Single = unit(weight.times(self.stops.over(Single::from_bits(FOUR)).abs()));
        let target: Single = if self.stops.lt(zero) {
            zero
        } else {
            Single::from_bits(ONE)
        };
        Rgb {
            r: px.r.plus(target.minus(px.r).times(t)),
            g: px.g.plus(target.minus(px.g).times(t)),
            b: px.b.plus(target.minus(px.b).times(t)),
        }
    }

    /// The change of exposure of a channel whose highlight is `open`: only a
    /// vignette that darkens spares it.
    pub fn exposure(&self, weight: Single, open: Single) -> (r: Single)
        ensures
            r == self.stops.product(weight).product(
                num(ONE).difference(
                    if num(ZERO).less(self.hl) && self.stops.less(num(ZERO)) {
                        self.hl.product(open)
                    } else {
                        num(ZERO)
                    },
                ),
            ),
    {
        let zero: Single = Single::from_bits(ZERO);
        let keep: Single = if zero.lt(self.hl) && self.stops.lt(zero) {
            self.hl.times(open)
        } else {
            zero
        };
        self.stops.times(weight).times(Single::from_bits(ONE).minus(keep))
    }

    /// The level that decides how far a channel is spared: its own, or that of
    /// the pixel.
    pub fn level(&self, channel: Single, pixel: Single) -> (r: Single)
        ensures
            r == (if self.style is Colour {
                pixel
            } else {
                channel
            }),
    {
        if self.style == Style::Colour {
            pixel
        } else {
            channel
        }
    }
}

// ---- grain ----

/// The tone that decides how much grain a pixel shows.
pub fn tone_of(px: Rgb<Single>) -> (r: Single)
    ensures
        r == px.r.sum(px.g).sum(px.b).quotient(num(THREE)),
{
    px.r.plus(px.g).plus(px.b).over(Single::from_bits(THREE))
}

impl Grain {
    /// The grain at a place where a pixel's tone lets `shape` of it through.
    pub open spec fn offset(self, x: Single, y: Single, shape: Single) -> Single {
        let clump = num(ONE).sum(
            self.rough.product(noise(x, y, self.cell.product(num(CLUMP)), CLUMP_FIELD as int)),
        );
        self.sigma.product(noise(x, y, self.cell, 0)).product(clump.larger(num(ZERO))).product(
            shape,
        )
    }

    /// A pixel with its grain, the same on all channels.
    pub open spec fn grained(self, px: Rgb<Single>, x: Single, y: Single, shape: Single) -> Rgb<
        Single,
    > {
        if shape.at_most(num(ZERO)) {
            px
        } else {
            each(px, |c: Single| in_unit(c.sum(self.offset(x, y, shape))))
        }
    }

    pub fn apply(&self, px: Rgb<Single>, x: Single, y: Single, shape: Single) -> (q: Rgb<Single>)
        ensures
            q == self.grained(px, x, y, shape),
    {
        let zero: Single = Single::from_bits(ZERO);
        if shape.le(zero) {
            return px;
        }
        let wide: Single = self.cell.times(Single::from_bits(CLUMP));
        let clump: Single = Single::from_bits(ONE).plus(
            self.rough.times(value_noise(x, y, wide, CLUMP_FIELD)),
        );
        let d: Single = self.sigma.times(value_noise(x, y, self.cell, 0)).times(
            clump.max(zero),
        ).times(shape);
        Rgb { r: unit(px.r.plus(d)), g: unit(px.g.plus(d)), b: unit(px.b.plus(d)) }
    }
}

// ---- fringes ----

/// How far a hue is inside of a window, from the smooth steps at its two ends.
pub fn membership(rise: Single, fall: Single) -> (r: Single)
    ensures
        r == rise.product(num(ONE).difference(fall)),
{
    rise.times(Single::from_bits(ONE).minus(fall))
}

/// What a window asks for at a hue that is `inside` of it.
pub open spec fn asked(window: Option<Window>, inside: Single) -> Single {
    match window {
        Some(w) => inside.product(w.strength),
        None => num(ZERO),
    }
}

fn hit(window: Option<Window>, inside: Single) -> (r: Single)
    ensures
        r == asked(window, inside),
{
    match window {
        Some(w) => inside.times(w.strength),
        None => Single::from_bits(ZERO),
    }
}

/// How much of its colour a pixel loses: what the two windows ask for, as far as
/// the pixel lies on an edge and has colour at all.
pub fn fringe_amount(
    purple: (Option<Window>, Single),
    green: (Option<Window>, Single),
    edge: Single,
    gate: Single,
) -> (r: Single)
    ensures
        r == (if edge.at_most(num(ZERO)) || gate.at_most(num(ZERO)) {
            num(ZERO)
        } else {
            asked(purple.0, purple.1).sum(asked(green.0, green.1)).smaller(num(ONE)).product(
                edge,
            ).product(gate)
        }),
{
    let zero: Single = Single::from_bits(ZERO);
    if edge.le(zero) || gate.le(zero) {
        return zero;
    }
    hit(purple.0, purple.1).plus(hit(green.0, green.1)).min(Single::from_bits(ONE)).times(
        edge,
    ).times(gate)
}

/// A pixel that goes part of the way to the grey of its brightness.
pub open spec fn greyed(px: Rgb<Single>, grey: Single, amount: Single) -> Rgb<Single> {
    if amount.at_most(num(ZERO)) {
        px
    } else {
        each(px, |c: Single| c.sum(grey.difference(c).product(amount)))
    }
}

pub fn fade(px: Rgb<Single>, grey: Single, amount: Single) -> (q: Rgb<Single>)
    ensures
        q == greyed(px, grey, amount),
{
    if amount.le(Single::from_bits(ZERO)) {
        return px;
    }
    Rgb {
        r: px.r.plus(grey.minus(px.r).times(amount)),
        g: px.g.plus(grey.minus(px.g).times(amount)),
        b: px.b.plus(grey.minus(px.b).times(amount)),
    }
}

/// Away from an edge, and without colour, no pixel loses anything.
pub proof fn off_an_edge_nothing_fades(px: Rgb<Single>, grey: Single)
    ensures
        greyed(px, grey, num(ZERO)) == px,
{
}

// ---- headroom ----

/// A linear level brought in so that `white` becomes one.
pub fn shoulder(l: Single, white: Single) -> (r: Single)
    ensures
        r == l.product(num(ONE).sum(l.quotient(white.product(white)))).quotient(num(ONE).sum(l)),
{
    let one: Single = Single::from_bits(ONE);
    l.times(one.plus(l.over(white.times(white)))).over(one.plus(l))
}

// ---- returned grain ----

/// A linear pixel that gets back a share of the brightness that noise reduction
/// took from it, the same on all channels.
pub fn returned(px: Rgb<Single>, level: Single, original: Single, share: Single) -> (q: Rgb<Single>)
    ensures
        q == each(px, |c: Single| c.sum(share.product(original.difference(level)))),
{
    let delta: Single = share.times(original.minus(level));
    Rgb { r: px.r.plus(delta), g: px.g.plus(delta), b: px.b.plus(delta) }
}

} // verus!
