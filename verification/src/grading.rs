//! What tempering does to a recipe at the strength that it was tuned at.

use vstd::prelude::*;
use vstd::arithmetic::power2::lemma2_to64;
use crate::cofactors::lemma_less;
use crate::grade::{
    soft_capped, CALIBRATED, TEMPER_POINT_CEIL, TEMPER_POINT_KNEE, TEMPER_TONE_CEIL,
    TEMPER_TONE_KNEE,
};
use crate::numbers::{ONE, ZERO};
use crate::passes::a_strong_move_is_drawn_towards_its_ceiling;
use crate::reals::{lemma_ends, lemma_order_real, lemma_real_of_digits, real_of, size, size_is_not_below};
use crate::recipe::RecipeView;
use crate::single::{num, Single};
use crate::tempering::{
    calibrated_strength_changes_nothing, knees_are_usable_at_every_strength,
    softening_stays_under_its_ceiling, usable,
};
use crate::wayback::{lemma_absolute, lemma_bounds, lemma_size_of_both, lemma_size_of_sum};

verus! {

broadcast use size_is_not_below;

/// A slider between its ends.
pub open spec fn between_ends(v: Single) -> bool {
    v.finite() && size(real_of(v)) <= 100real
}

/// A move that is left alone up to the knee, and beyond it drawn towards the ceiling.
pub open spec fn drawn_in(v: Single, y: Single, knee: real, ceil: real) -> bool {
    let e = size(real_of(v)) - knee;
    let s = ceil - knee;
    let out = if real_of(v) < 0real {
        -real_of(y)
    } else {
        real_of(y)
    };
    &&& y.finite()
    &&& e <= 0real ==> y == v
    &&& e > 0real ==> size((out - knee) * (e + s) - s * e) <= (e + s) / 500real + 1real / 10real
}

proof fn lemma_knees()
    ensures
        num(TEMPER_TONE_KNEE).finite() && real_of(num(TEMPER_TONE_KNEE)) == 50real,
        num(TEMPER_TONE_CEIL).finite() && real_of(num(TEMPER_TONE_CEIL)) == 70real,
        num(TEMPER_POINT_KNEE).finite() && real_of(num(TEMPER_POINT_KNEE)) == 30real,
        num(TEMPER_POINT_CEIL).finite() && real_of(num(TEMPER_POINT_CEIL)) == 45real,
{
    lemma2_to64();
    lemma_real_of_digits(TEMPER_TONE_KNEE, 13107200, 18);
    lemma_real_of_digits(TEMPER_TONE_CEIL, 9175040, 17);
    lemma_real_of_digits(TEMPER_POINT_KNEE, 15728640, 19);
    lemma_real_of_digits(TEMPER_POINT_CEIL, 11796480, 18);
    assert(13107200real / 262144real == 50real);
    assert(9175040real / 131072real == 70real);
    assert(15728640real / 524288real == 30real);
    assert(11796480real / 262144real == 45real);
}

/// The same curve, told by numbers that are nearly the same.
proof fn lemma_nearly(o: real, e: real, s: real, f: real, t: real)
    requires
        size(f - e) <= 1real / 10000real,
        size(t - s) <= 1real / 10000real,
        size(o) <= 200real,
        0real <= e <= 100real,
        0real <= t <= 101real,
    ensures
        size((o * (f + t) - t * f) - (o * (e + s) - s * e)) <= 7real / 100real,
{
    let (a, b) = (f - e, t - s);
    lemma_size_of_sum(a, b);
    assert((f + t) - (e + s) == a + b);
    lemma_less(f + t, e + s, o);
    lemma_size_of_both(o, a + b);
    lemma_bounds(size(o), size(a + b), 200real, 2real / 10000real);
    lemma_less(f, e, t);
    lemma_less(t, s, e);
    lemma_size_of_both(t, a);
    lemma_size_of_both(b, e);
    assert(size(t) == t && size(e) == e) by {
        reveal(size);
    }
    lemma_bounds(t, size(a), 101real, 1real / 10000real);
    lemma_bounds(size(b), e, 1real / 10000real, 100real);
    let (p, q, r) = (o * (a + b), t * a, b * e);
    lemma_size_of_sum(q, r);
    lemma_size_of_sum(p, -(q + r));
    lemma_size_of_sum(q + r, 0real);
    assert((o * (f + t) - t * f) - (o * (e + s) - s * e) == p + -(q + r));
}

proof fn lemma_drawn_in(v: Single, knee: Single, ceil: Single)
    requires
        between_ends(v),
        knee.finite() && 0real <= real_of(knee),
        ceil.finite() && real_of(ceil) <= 100real,
        real_of(ceil) - real_of(knee) >= 2real,
        usable(knee, ceil),
    ensures
        drawn_in(v, soft_capped(v, knee, ceil), real_of(knee), real_of(ceil)),
{
    lemma_absolute(v);
    lemma_order_real(v.absolute(), knee);
    softening_stays_under_its_ceiling(v, knee, ceil);
    let r = soft_capped(v, knee, ceil);
    if size(real_of(v)) > real_of(knee) {
        a_strong_move_is_drawn_towards_its_ceiling(v, knee, ceil);
        lemma_absolute(r);
        lemma_order_real(r.absolute(), ceil);
        let (e, s) = (size(real_of(v)) - real_of(knee), real_of(ceil) - real_of(knee));
        let f = real_of(v.absolute().difference(knee));
        let t = real_of(ceil.difference(knee));
        let out = if real_of(v) < 0real {
            -real_of(r)
        } else {
            real_of(r)
        };
        let o = out - real_of(knee);
        assert(size(out) == size(real_of(r))) by {
            reveal(size);
        }
        assert(size(o) <= 200real) by {
            reveal(size);
        }
        assert(0real <= t <= 101real && (f + t) / 500real <= (e + s) / 500real + 1real / 1000000real) by {
            reveal(size);
        }
        lemma_nearly(o, e, s, f, t);
        lemma_size_of_sum(o * (f + t) - t * f, (o * (e + s) - s * e) - (o * (f + t) - t * f));
        assert(size((o * (e + s) - s * e) - (o * (f + t) - t * f)) == size(
            (o * (f + t) - t * f) - (o * (e + s) - s * e),
        )) by {
            reveal(size);
        }
    }
}

/// At the strength that it was tuned at, tempering lets highlights and shadows go to fifty
/// and draws them in under seventy, and lets blacks and, unless the highlights are pulled
/// down, whites go to thirty and draws them in under forty-five.
pub proof fn tempering_draws_each_tone_by_its_own_knee(r: RecipeView)
    requires
        between_ends(r.highlights) && between_ends(r.shadows),
        between_ends(r.whites) && between_ends(r.blacks),
    ensures
        ({
            let t = r.tempered(num(CALIBRATED));
            &&& drawn_in(r.highlights, t.highlights, 50real, 70real)
            &&& drawn_in(r.shadows, t.shadows, 50real, 70real)
            &&& drawn_in(r.blacks, t.blacks, 30real, 45real)
            &&& real_of(r.highlights) >= 0real ==> drawn_in(r.whites, t.whites, 30real, 45real)
            &&& t.masks.len() == r.masks.len()
        }),
{
    calibrated_strength_changes_nothing();
    lemma_ends();
    lemma_knees();
    assert(num(ZERO).at_most(num(CALIBRATED)) && num(CALIBRATED).at_most(num(ONE)));
    knees_are_usable_at_every_strength(num(CALIBRATED));
    lemma_order_real(r.highlights, num(ZERO));
    lemma_drawn_in(r.highlights, num(TEMPER_TONE_KNEE), num(TEMPER_TONE_CEIL));
    lemma_drawn_in(r.shadows, num(TEMPER_TONE_KNEE), num(TEMPER_TONE_CEIL));
    lemma_drawn_in(r.whites, num(TEMPER_POINT_KNEE), num(TEMPER_POINT_CEIL));
    lemma_drawn_in(r.blacks, num(TEMPER_POINT_KNEE), num(TEMPER_POINT_CEIL));
}

/// A mask is tempered as the whole picture is: what a move becomes does not depend on where
/// it stands.
pub proof fn masks_are_tempered_as_the_picture(r: RecipeView, s: Single, i: int)
    requires
        0 <= i < r.masks.len(),
        r.masks[i].highlights == r.highlights,
        r.masks[i].shadows == r.shadows,
        r.masks[i].whites == r.whites,
        r.masks[i].blacks == r.blacks,
    ensures
        ({
            let t = r.tempered(s);
            &&& t.masks[i].highlights == t.highlights
            &&& t.masks[i].shadows == t.shadows
            &&& t.masks[i].whites == t.whites
            &&& t.masks[i].blacks == t.blacks
        }),
{
}

} // verus!
