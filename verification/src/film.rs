//! Lengths on film and lengths on a raster.

use vstd::prelude::*;
use vstd::arithmetic::power2::{lemma_pow2_adds, lemma_pow2_pos, pow2};
use crate::blobs::lemma_whole_is_finite;
use crate::numbers::ONE;
use crate::rounding::{lemma_round_at_least, lemma_round_exists, lemma_round_monotone};
use crate::single::{lemma_codes_order, magnitude, num, Single, BINADE};

verus! {

/// How many pixels of the full-size picture one pixel of a raster stands for.
#[derive(Clone, Copy, Debug, PartialEq)]
pub struct FilmScale {
    factor: Single,
}

/// The scale of a raster whose picture has a short side of `film` pixels. A
/// picture that is no larger than the raster, or unknown, is the raster.
pub open spec fn film_factor(film: Option<u32>, w: int, h: int) -> Single {
    let short = if w <= h {
        w
    } else {
        h
    };
    match film {
        Some(f) => if short > 0 && f > short {
            Single::of_whole(f as int).quotient(Single::of_whole(short))
        } else {
            num(ONE)
        },
        None => num(ONE),
    }
}

impl FilmScale {
    /// Pixels of the full-size picture to a pixel of the raster.
    pub closed spec fn per_pixel(self) -> Single {
        self.factor
    }

    /// The raster is the full-size picture.
    pub fn native() -> (r: FilmScale)
        ensures
            r.per_pixel() == num(ONE),
    {
        FilmScale { factor: Single::from_bits(ONE) }
    }

    /// The scale of a `w` times `h` raster. It is never below one.
    pub fn of(film: Option<u32>, w: usize, h: usize) -> (r: FilmScale)
        ensures
            r.per_pixel() == film_factor(film, w as int, h as int),
            num(ONE).at_most(r.per_pixel()),
    {
        let short: usize = if w <= h {
            w
        } else {
            h
        };
        match film {
            Some(f) => {
                if short > 0 && f as u64 > short as u64 {
                    proof {
                        lemma_no_smaller(f as int, short as int);
                    }
                    return FilmScale {
                        factor: Single::from_u64(f as u64).over(Single::from_u64(short as u64)),
                    };
                }
            },
            None => {},
        }
        FilmScale::native()
    }

    /// Pixels of the full-size picture to a pixel of the raster.
    pub fn factor(self) -> (r: Single)
        ensures
            r == self.per_pixel(),
    {
        self.factor
    }

    /// A length on film, in pixels of the raster.
    pub fn raster_px(self, film_px: Single) -> (r: Single)
        ensures
            r == film_px.quotient(self.per_pixel()),
    {
        film_px.over(self.factor)
    }
}

/// The larger of two whole numbers, shared by the smaller, is no less than one.
proof fn lemma_no_smaller(a: int, b: int)
    requires
        0 < b <= a <= 0xFFFF_FFFF,
    ensures
        num(ONE).at_most(Single::of_whole(a).quotient(Single::of_whole(b))),
{
    let x = Single::of_whole(a);
    let y = Single::of_whole(b);
    lemma_whole_is_finite(a);
    lemma_whole_is_finite(b);
    lemma_pow2_pos(149);
    let unit = pow2(149) as int;
    assert(a * unit >= b * unit && b * unit >= unit) by (nonlinear_arith)
        requires
            a >= b,
            b >= 1,
            unit > 0,
    ;
    reveal(Single::of_whole);
    lemma_round_exists(a * unit, 1);
    lemma_round_exists(b * unit, 1);
    assert(b * unit * 1 <= a * unit * 1);
    lemma_round_monotone(b * unit, 1, a * unit, 1);
    let one: int = ONE as int;
    assert(one / (BINADE as int) == 127 && one % (BINADE as int) == 0);
    lemma_pow2_adds(23, 126);
    vstd::arithmetic::power2::lemma2_to64();
    assert(magnitude(one) == unit);
    lemma_round_at_least(b * unit, 1, one);
    assert(x.code() >= y.code() >= one);
    lemma_codes_order(y.code(), x.code());
    lemma_codes_order(0, y.code());
    let n = magnitude(x.code()) * unit;
    let d = magnitude(y.code());
    assert(magnitude(one) * d <= n && n >= 0) by (nonlinear_arith)
        requires
            n == magnitude(x.code()) * unit,
            d == magnitude(y.code()),
            d <= magnitude(x.code()),
            d >= 0,
            magnitude(one) == unit,
            unit > 0,
    ;
    reveal(Single::quotient);
    lemma_round_exists(n, d);
    lemma_round_at_least(n, d, one);
}

/// A quantity that a slider moves evenly, from its value at nought to its value
/// at the top.
#[derive(Clone, Copy, Debug, PartialEq)]
pub struct Ramp {
    pub from: Single,
    pub to: Single,
}

impl Ramp {
    pub open spec fn between(self, t: Single) -> Single {
        self.from.sum(self.to.difference(self.from).product(t))
    }

    /// The value at `t`, the slider's share of its way.
    pub fn at(self, t: Single) -> (r: Single)
        ensures
            r == self.between(t),
    {
        self.from.plus(self.to.minus(self.from).times(t))
    }
}

} // verus!
