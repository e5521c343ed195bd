//! Lens defects in colour: the hues that are taken for fringes, and the evidence
//! for a lateral shift of the colours.

use vstd::prelude::*;
use vstd::arithmetic::div_mod::{lemma_fundamental_div_mod, lemma_fundamental_div_mod_converse};
use vstd::arithmetic::power2::{lemma2_to64, lemma_pow2_adds, lemma_pow2_pos, pow2};
use crate::heal::Rgb;
use crate::numbers::{
    HALF, HUNDRED, MINUS_HUNDRED, ONE, ONE_THOUSANDTH, QUARTER, TWENTY, ZERO,
};
use crate::recipe::EditRecipe;
use crate::exact::{code_of, lemma_representable, lemma_round_representable};
use crate::mixing::{
    lemma_one, lemma_product_within, lemma_sum_within, lemma_within_grows, within,
};
use crate::rounding::{
    lemma_product_is_number, lemma_quotient_is_number, lemma_round_at_least, lemma_round_at_most,
    lemma_round_exists, lemma_single_from_parts, lemma_sum_is_number, lemma_with_sign,
};
use crate::single::{
    lemma_codes_order, lemma_round_exact, lemma_round_zero, magnitude, num, round_to_code, Single,
    BINADE, INFINITE,
};
use crate::whole::{lemma_root_exists, root_to_code};

verus! {

/// 220 degrees, in turns: the near end of the purple scale.
pub const PURPLE_FROM: u32 = 0x3F1C_71C7;

/// 360 degrees: its far end.
pub const PURPLE_TO: u32 = 0x3F80_0000;

/// 60 degrees: the near end of the green scale.
pub const GREEN_FROM: u32 = 0x3E2A_AAAB;

/// 180 degrees: its far end.
pub const GREEN_TO: u32 = 0x3F00_0000;

/// 1e-4: a window below this is none.
pub const NO_WINDOW: u32 = 0x38D1_B717;

/// A window of hues.
#[derive(Clone, Copy, Debug)]
pub struct Window {
    pub lo: Single,
    pub hi: Single,
    /// How soft its edges are.
    pub soft: Single,
    /// How much of a fringe is taken away.
    pub strength: Single,
}

/// The hue that a slider stands for on a scale.
pub open spec fn hue_on(v: Single, from: Single, to: Single) -> Single {
    from.sum(
        to.difference(from).product(v.clamped(num(ZERO), num(HUNDRED)).quotient(num(HUNDRED))),
    )
}

/// The window that two sliders leave on a scale; none at an amount of nought, and
/// none if they leave no hue between them.
pub open spec fn fringe_window(
    amount: Single,
    lo: Single,
    hi: Single,
    from: Single,
    to: Single,
) -> Option<Window> {
    let a = hue_on(lo, from, to);
    let b = hue_on(hi, from, to);
    if amount.at_most(num(ZERO)) || b.difference(a).less(num(NO_WINDOW)) {
        None
    } else {
        Some(
            Window {
                lo: a,
                hi: b,
                soft: b.difference(a).product(num(QUARTER)).larger(num(ONE_THOUSANDTH)),
                strength: amount.quotient(num(TWENTY)).clamped(num(ZERO), num(ONE)),
            },
        )
    }
}

fn hue(v: Single, from: Single, to: Single) -> (r: Single)
    ensures
        r == hue_on(v, from, to),
{
    let hundred: Single = Single::from_bits(HUNDRED);
    from.plus(to.minus(from).times(v.clamp(Single::from_bits(ZERO), hundred).over(hundred)))
}

impl Window {
    pub fn of(amount: Single, lo: Single, hi: Single, from: Single, to: Single) -> (r: Option<
        Window,
    >)
        ensures
            r == fringe_window(amount, lo, hi, from, to),
    {
        let zero: Single = Single::from_bits(ZERO);
        if amount.le(zero) {
            return None;
        }
        let a: Single = hue(lo, from, to);
        let b: Single = hue(hi, from, to);
        if b.minus(a).lt(Single::from_bits(NO_WINDOW)) {
            return None;
        }
        Some(
            Window {
                lo: a,
                hi: b,
                soft: b.minus(a).times(Single::from_bits(QUARTER)).max(
                    Single::from_bits(ONE_THOUSANDTH),
                ),
                strength: amount.over(Single::from_bits(TWENTY)).clamp(
                    zero,
                    Single::from_bits(ONE),
                ),
            },
        )
    }

    /// The hue as it is compared with the window: on from the end of the circle
    /// for a hue before the window.
    pub fn unrolled(&self, hue: Single) -> (r: Single)
        ensures
            r == (if hue.less(self.lo.difference(self.soft)) {
                hue.sum(num(ONE))
            } else {
                hue
            }),
    {
        if hue.lt(self.lo.minus(self.soft)) {
            hue.plus(Single::from_bits(ONE))
        } else {
            hue
        }
    }

    /// The purple window of a recipe.
    pub fn purple(r: &EditRecipe) -> (w: Option<Window>)
        ensures
            w == fringe_window(
                r.defringe_purple,
                r.defringe_purple_lo,
                r.defringe_purple_hi,
                num(PURPLE_FROM),
                num(PURPLE_TO),
            ),
    {
        Window::of(
            r.defringe_purple,
            r.defringe_purple_lo,
            r.defringe_purple_hi,
            Single::from_bits(PURPLE_FROM),
            Single::from_bits(PURPLE_TO),
        )
    }

    /// The green window of a recipe.
    pub fn green(r: &EditRecipe) -> (w: Option<Window>)
        ensures
            w == fringe_window(
                r.defringe_green,
                r.defringe_green_lo,
                r.defringe_green_hi,
                num(GREEN_FROM),
                num(GREEN_TO),
            ),
    {
        Window::of(
            r.defringe_green,
            r.defringe_green_lo,
            r.defringe_green_hi,
            Single::from_bits(GREEN_FROM),
            Single::from_bits(GREEN_TO),
        )
    }
}

/// What a pixel says about a lateral shift: how far a magnification would move
/// its green, and how red and blue differ from green there.
#[derive(Clone, Copy, Debug)]
pub struct LateralSample {
    pub lever: Single,
    pub lever_squared: Single,
    pub red: Single,
    pub lever_red: Single,
    pub blue: Single,
    pub lever_blue: Single,
}

/// The middle of a side, in pixels.
pub open spec fn middle_of(n: int) -> Single {
    Single::of_whole(n).difference(num(ONE)).product(num(HALF))
}

/// How far the corner is from the middle.
pub open spec fn corner_radius(w: int, h: int) -> Single {
    let cx = middle_of(w);
    let cy = middle_of(h);
    cx.product(cx).sum(cy.product(cy)).root().larger(num(ONE))
}

/// How far a magnification about the middle would move the green of a pixel.
pub open spec fn lever_at(px: Seq<Rgb<Single>>, w: int, h: int, x: int, y: int) -> Single {
    let i = y * w + x;
    let r = corner_radius(w, h);
    let ux = Single::of_whole(x).difference(middle_of(w)).quotient(r);
    let uy = Single::of_whole(y).difference(middle_of(h)).quotient(r);
    let dx = px[i + 1].g.difference(px[i - 1].g).product(num(HALF));
    let dy = px[i + w].g.difference(px[i - w].g).product(num(HALF));
    dx.product(ux).sum(dy.product(uy)).product(r)
}

/// What a pixel says; nothing, if it has no edge to be moved.
pub open spec fn lateral_at(
    px: Seq<Rgb<Single>>,
    w: int,
    h: int,
    x: int,
    y: int,
) -> Option<LateralSample> {
    let lever = lever_at(px, w, h, x, y);
    let p = px[y * w + x];
    let red = p.r.difference(p.g);
    let blue = p.b.difference(p.g);
    if lever.absolute().less(num(HALF)) {
        None
    } else {
        Some(
            LateralSample {
                lever,
                lever_squared: lever.product(lever),
                red,
                lever_red: lever.product(red),
                blue,
                lever_blue: lever.product(blue),
            },
        )
    }
}

/// The pixels across or down that are asked: every second one, without the
/// border.
pub open spec fn asked(n: int) -> int {
    (n - 1) / 2
}

/// What the first `k` pixels say that are asked, row by row.
pub open spec fn lateral_evidence(px: Seq<Rgb<Single>>, w: int, h: int, k: nat) -> Seq<
    LateralSample,
>
    decreases k,
{
    if k == 0 {
        Seq::empty()
    } else {
        let before = lateral_evidence(px, w, h, (k - 1) as nat);
        match lateral_at(
            px,
            w,
            h,
            1 + 2 * ((k - 1) % asked(w)),
            1 + 2 * ((k - 1) / asked(w)),
        ) {
            Some(s) => before.push(s),
            None => before,
        }
    }
}

fn sample_at(px: &Vec<Rgb<Single>>, w: usize, h: usize, x: usize, y: usize) -> (r: Option<
    LateralSample,
>)
    requires
        px@.len() >= w * h,
        1 <= x < w - 1,
        1 <= y < h - 1,
    ensures
        r == lateral_at(px@, w as int, h as int, x as int, y as int),
{
    let one: Single = Single::from_bits(ONE);
    let half: Single = Single::from_bits(HALF);
    let n: usize = px.len();
    proof {
        assert(0 <= (y - 1) * w && y * w == (y - 1) * w + w && (y + 1) * w == y * w + w && (y + 1)
            * w + w <= w * h) by (nonlinear_arith)
            requires
                1 <= y,
                y + 2 <= h,
                0 < w,
        ;
    }
    let i: usize = y * w + x;
    let cx: Single = Single::from_u64(w as u64).minus(one).times(half);
    let cy: Single = Single::from_u64(h as u64).minus(one).times(half);
    let r: Single = cx.times(cx).plus(cy.times(cy)).sqrt().max(one);
    let ux: Single = Single::from_u64(x as u64).minus(cx).over(r);
    let uy: Single = Single::from_u64(y as u64).minus(cy).over(r);
    let dx: Single = px[i + 1].g.minus(px[i - 1].g).times(half);
    let dy: Single = px[i + w].g.minus(px[i - w].g).times(half);
    let lever: Single = dx.times(ux).plus(dy.times(uy)).times(r);
    if lever.abs().lt(half) {
        return None;
    }
    let p: Rgb<Single> = px[i];
    let red: Single = p.r.minus(p.g);
    let blue: Single = p.b.minus(p.g);
    Some(
        LateralSample {
            lever,
            lever_squared: lever.times(lever),
            red,
            lever_red: lever.times(red),
            blue,
            lever_blue: lever.times(blue),
        },
    )
}

/// What a picture says about a lateral shift of its colours. One of less than
/// eight pixels on a side says nothing.
pub open spec fn all_evidence(px: Seq<Rgb<Single>>, w: int, h: int) -> Seq<LateralSample> {
    if w < 8 || h < 8 {
        Seq::empty()
    } else {
        lateral_evidence(px, w, h, (asked(w) * asked(h)) as nat)
    }
}

pub fn lateral_samples(px: &Vec<Rgb<Single>>, w: usize, h: usize) -> (r: Vec<LateralSample>)
    requires
        px@.len() >= w * h,
    ensures
        r@ == all_evidence(px@, w as int, h as int),
{
    let mut r: Vec<LateralSample> = Vec::new();
    if w < 8 || h < 8 {
        return r;
    }
    let across: usize = (w - 1) / 2;
    let down: usize = (h - 1) / 2;
    assert(0 * across == 0) by (nonlinear_arith);
    for b in 0..down
        invariant
            px@.len() >= w * h,
            w >= 8,
            h >= 8,
            across == asked(w as int),
            down == asked(h as int),
            r@ == lateral_evidence(px@, w as int, h as int, (b * across) as nat),
    {
        for a in 0..across
            invariant
                px@.len() >= w * h,
                w >= 8,
                h >= 8,
                b < down,
                across == asked(w as int),
                down == asked(h as int),
                r@ == lateral_evidence(px@, w as int, h as int, (b * across + a) as nat),
        {
            let ghost k = b * across + a;
            proof {
                assert(0 <= b * across) by (nonlinear_arith);
                lemma_fundamental_div_mod_converse(
                    k,
                    across as int,
                    b as int,
                    a as int,
                );
            }
            match sample_at(px, w, h, 1 + 2 * a, 1 + 2 * b) {
                Some(s) => {
                    r.push(s);
                },
                None => {},
            }
        }
        proof {
            assert((b + 1) * across == b * across + across) by (nonlinear_arith);
        }
    }
    assert(down * across == across * down) by (nonlinear_arith);
    r
}

/// The fewest pixels that make a case.
pub const LEAST_EVIDENCE: usize = 64;

/// A shift in units of its slider, whole ones, to its ends: the correction is the
/// opposite of the error.
pub open spec fn lateral_unit(error: Single, per_unit: Single) -> Single {
    error.negation().quotient(per_unit).rounded().clamped(num(MINUS_HUNDRED), num(HUNDRED))
}

/// The correction for the errors of red and blue that were fitted to `n` pixels.
/// Nothing, if there were too few or no line could be fitted.
pub open spec fn lateral_answer(
    n: nat,
    errors: Option<(Single, Single)>,
    per_unit: Single,
) -> (Single, Single) {
    match errors {
        Some(e) => if n >= LEAST_EVIDENCE {
            (lateral_unit(e.0, per_unit), lateral_unit(e.1, per_unit))
        } else {
            (num(ZERO), num(ZERO))
        },
        None => (num(ZERO), num(ZERO)),
    }
}

/// The correction for the errors of red and blue that were fitted to `n` pixels.
pub fn solve_lateral_ca(n: usize, errors: Option<(Single, Single)>, per_unit: Single) -> (r: (
    Single,
    Single,
))
    ensures
        r == lateral_answer(n as nat, errors, per_unit),
{
    let zero: Single = Single::from_bits(ZERO);
    let lo: Single = Single::from_bits(MINUS_HUNDRED);
    let hi: Single = Single::from_bits(HUNDRED);
    match errors {
        Some((red, blue)) => {
            if n >= LEAST_EVIDENCE {
                (
                    red.neg().over(per_unit).round().clamp(lo, hi),
                    blue.neg().over(per_unit).round().clamp(lo, hi),
                )
            } else {
                (zero, zero)
            }
        },
        None => (zero, zero),
    }
}

/// The lateral pair of a recipe with what was solved added to it, kept to the
/// ends of the sliders; as it is, if solving was not asked for or found nothing.
pub open spec fn with_solved(r: EditRecipe, solved: (Single, Single)) -> EditRecipe {
    if !r.auto_lateral_ca || (solved.0.equals(num(ZERO)) && solved.1.equals(num(ZERO))) {
        r
    } else {
        EditRecipe {
            ca_r: r.ca_r.sum(solved.0).clamped(num(MINUS_HUNDRED), num(HUNDRED)),
            ca_b: r.ca_b.sum(solved.1).clamped(num(MINUS_HUNDRED), num(HUNDRED)),
            ..r
        }
    }
}

pub fn with_auto_lateral_ca(r: &mut EditRecipe, solved: (Single, Single))
    ensures
        *final(r) == with_solved(*old(r), solved),
{
    let zero: Single = Single::from_bits(ZERO);
    if !r.auto_lateral_ca {
        return;
    }
    if solved.0.le(zero) && zero.le(solved.0) && solved.1.le(zero) && zero.le(solved.1) {
        return;
    }
    let lo: Single = Single::from_bits(MINUS_HUNDRED);
    let hi: Single = Single::from_bits(HUNDRED);
    r.ca_r = r.ca_r.plus(solved.0).clamp(lo, hi);
    r.ca_b = r.ca_b.plus(solved.1).clamp(lo, hi);
}

/// A picture with red and blue exchanged.
pub open spec fn exchanged(px: Seq<Rgb<Single>>) -> Seq<Rgb<Single>> {
    Seq::new(px.len(), |i: int| Rgb { r: px[i].b, g: px[i].g, b: px[i].r })
}

/// What is said of red is said of blue, and the other way round.
pub open spec fn exchanged_evidence(s: Seq<LateralSample>) -> Seq<LateralSample> {
    Seq::new(
        s.len(),
        |i: int|
            LateralSample {
                lever: s[i].lever,
                lever_squared: s[i].lever_squared,
                red: s[i].blue,
                lever_red: s[i].lever_blue,
                blue: s[i].red,
                lever_blue: s[i].lever_red,
            },
    )
}

/// The two errors exchanged.
pub open spec fn exchanged_errors(e: Option<(Single, Single)>) -> Option<(Single, Single)> {
    match e {
        Some(v) => Some((v.1, v.0)),
        None => None,
    }
}

proof fn lemma_exchanged_evidence(px: Seq<Rgb<Single>>, w: int, h: int, k: nat)
    requires
        w >= 8,
        h >= 8,
        px.len() >= w * h,
        k <= asked(w) * asked(h),
    ensures
        lateral_evidence(exchanged(px), w, h, k) == exchanged_evidence(
            lateral_evidence(px, w, h, k),
        ),
    decreases k,
{
    if k == 0 {
        assert(lateral_evidence(exchanged(px), w, h, k) =~= exchanged_evidence(
            lateral_evidence(px, w, h, k),
        ));
    } else {
        let a = asked(w);
        let x = 1 + 2 * ((k - 1) % a);
        let y = 1 + 2 * ((k - 1) / a);
        lemma_exchanged_evidence(px, w, h, (k - 1) as nat);
        lemma_fundamental_div_mod(k - 1, a);
        assert(0 <= (k - 1) % a < a);
        assert(0 <= (k - 1) / a < asked(h)) by (nonlinear_arith)
            requires
                k - 1 == a * ((k - 1) / a) + (k - 1) % a,
                0 <= (k - 1) % a < a,
                0 <= k - 1 < a * asked(h),
        ;
        assert(0 <= (y - 1) * w && y * w == (y - 1) * w + w && (y + 1) * w == y * w + w && (y + 1)
            * w + w <= w * h) by (nonlinear_arith)
            requires
                1 <= y,
                y + 2 <= h,
                0 < w,
        ;
        assert(lateral_evidence(exchanged(px), w, h, k) =~= exchanged_evidence(
            lateral_evidence(px, w, h, k),
        ));
    }
}

/// What is corrected in a picture, if a line is fitted to its evidence by `fit`.
pub open spec fn lateral_correction(
    px: Seq<Rgb<Single>>,
    w: int,
    h: int,
    fit: spec_fn(Seq<LateralSample>) -> Option<(Single, Single)>,
    per_unit: Single,
) -> (Single, Single) {
    let seen = all_evidence(px, w, h);
    lateral_answer(seen.len(), fit(seen), per_unit)
}

/// Exchanging red and blue exchanges the answers, whatever line is fitted, as long as the
/// fit treats the two alike.
pub proof fn exchanging_red_and_blue_exchanges_the_answers(
    px: Seq<Rgb<Single>>,
    w: int,
    h: int,
    fit: spec_fn(Seq<LateralSample>) -> Option<(Single, Single)>,
    per_unit: Single,
)
    requires
        px.len() >= w * h,
        forall|s: Seq<LateralSample>|
            #[trigger] fit(exchanged_evidence(s)) == exchanged_errors(fit(s)),
    ensures
        ({
            let answer = lateral_correction(px, w, h, fit, per_unit);
            lateral_correction(exchanged(px), w, h, fit, per_unit) == (answer.1, answer.0)
        }),
{
    let there = all_evidence(px, w, h);
    if w >= 8 && h >= 8 {
        assert(asked(w) * asked(h) >= 0) by (nonlinear_arith)
            requires
                asked(w) >= 0,
                asked(h) >= 0,
        ;
        lemma_exchanged_evidence(px, w, h, (asked(w) * asked(h)) as nat);
    } else {
        assert(all_evidence(exchanged(px), w, h) =~= exchanged_evidence(there));
    }
    assert(fit(exchanged_evidence(there)) == exchanged_errors(fit(there)));
}

/// A picture that is too small, or whose green is level, is not corrected, whatever line is
/// fitted.
pub proof fn a_level_picture_is_not_corrected(
    px: Seq<Rgb<Single>>,
    w: int,
    h: int,
    g: Single,
    fit: spec_fn(Seq<LateralSample>) -> Option<(Single, Single)>,
    per_unit: Single,
)
    requires
        0 <= w <= u64::MAX,
        0 <= h <= u64::MAX,
        px.len() >= w * h,
        g.finite(),
        w < 8 || h < 8 || forall|i: int| 0 <= i < px.len() ==> (#[trigger] px[i]).g == g,
    ensures
        lateral_correction(px, w, h, fit, per_unit) == (num(ZERO), num(ZERO)),
{
    if w >= 8 && h >= 8 {
        assert(asked(w) * asked(h) >= 0) by (nonlinear_arith)
            requires
                asked(w) >= 0,
                asked(h) >= 0,
        ;
        lemma_no_evidence(px, w, h, g, (asked(w) * asked(h)) as nat);
    }
}

proof fn lemma_no_evidence(px: Seq<Rgb<Single>>, w: int, h: int, g: Single, k: nat)
    requires
        8 <= w <= u64::MAX,
        8 <= h <= u64::MAX,
        px.len() >= w * h,
        g.finite(),
        forall|i: int| 0 <= i < px.len() ==> (#[trigger] px[i]).g == g,
        k <= asked(w) * asked(h),
    ensures
        lateral_evidence(px, w, h, k).len() == 0,
    decreases k,
{
    if k > 0 {
        let a = asked(w);
        let x = 1 + 2 * ((k - 1) % a);
        let y = 1 + 2 * ((k - 1) / a);
        lemma_no_evidence(px, w, h, g, (k - 1) as nat);
        lemma_fundamental_div_mod(k - 1, a);
        assert(0 <= (k - 1) % a < a);
        assert(0 <= (k - 1) / a < asked(h)) by (nonlinear_arith)
            requires
                k - 1 == a * ((k - 1) / a) + (k - 1) % a,
                0 <= (k - 1) % a < a,
                0 <= k - 1 < a * asked(h),
        ;
        assert(0 <= (y - 1) * w && y * w == (y - 1) * w + w && (y + 1) * w == y * w + w && (y + 1)
            * w + w <= w * h) by (nonlinear_arith)
            requires
                1 <= y,
                y + 2 <= h,
                0 < w,
        ;
        let i = y * w + x;
        assert(px[i + 1].g == g && px[i - 1].g == g && px[i + w].g == g && px[i - w].g == g);
        a_level_green_says_nothing(px, w, h, x, y);
    }
}

/// What is corrected is a whole number of steps of each slider, between its ends, whatever
/// finite errors were fitted.
pub proof fn a_lateral_correction_is_on_its_sliders(
    px: Seq<Rgb<Single>>,
    w: int,
    h: int,
    fit: spec_fn(Seq<LateralSample>) -> Option<(Single, Single)>,
    per_unit: Single,
)
    requires
        per_unit.finite(),
        !per_unit.zero(),
        fit(all_evidence(px, w, h)) matches Some(e) ==> e.0.finite() && e.1.finite(),
    ensures
        ({
            let r = lateral_correction(px, w, h, fit, per_unit);
            &&& on_slider(r.0)
            &&& on_slider(r.1)
        }),
{
    lemma_hundred();
    lemma_pow2_pos(149);
    assert(magnitude(0) == 0);
    lemma_whole_stays(num(ZERO), 0);
    if let Some(e) = fit(all_evidence(px, w, h)) {
        a_lateral_answer_is_whole(e.0, per_unit);
        a_lateral_answer_is_whole(e.1, per_unit);
        a_lateral_answer_is_on_its_slider(e.0, per_unit);
        a_lateral_answer_is_on_its_slider(e.1, per_unit);
    }
}

/// A whole number from minus a hundred to a hundred.
pub open spec fn on_slider(v: Single) -> bool {
    &&& v.rounded() == v
    &&& num(MINUS_HUNDRED).at_most(v)
    &&& v.at_most(num(HUNDRED))
}

/// A correction is between the ends of its slider.
pub proof fn a_lateral_answer_is_on_its_slider(error: Single, per_unit: Single)
    requires
        error.finite(),
        per_unit.finite(),
        !per_unit.zero(),
    ensures
        num(MINUS_HUNDRED).at_most(lateral_unit(error, per_unit)),
        lateral_unit(error, per_unit).at_most(num(HUNDRED)),
{
    lemma_quotient_is_number(error.negation(), per_unit);
    let q = error.negation().quotient(per_unit);
    reveal(Single::rounded);
    if q.finite() {
        lemma_pow2_pos(149);
        lemma_pow2_pos(150);
        lemma_codes_order(q.code(), 0);
        let whole = (2 * magnitude(q.code()) + pow2(149)) / (pow2(150) as int);
        assert(whole >= 0) by (nonlinear_arith)
            requires
                whole == (2 * magnitude(q.code()) + pow2(149)) / (pow2(150) as int),
                2 * magnitude(q.code()) + pow2(149) >= 0,
                pow2(150) > 0,
        ;
        assert(whole * pow2(149) >= 0) by (nonlinear_arith)
            requires
                whole >= 0,
                pow2(149) > 0,
        ;
        lemma_round_exists(whole * pow2(149), 1);
        lemma_with_sign(q.negative(), round_to_code(whole * pow2(149), 1));
    }
    assert(!q.rounded().nan());
}

/// A whole number of units stays as it is when it is rounded.
proof fn lemma_whole_stays(v: Single, k: int)
    requires
        v.finite(),
        k >= 0,
        magnitude(v.code()) == k * pow2(149),
    ensures
        v.rounded() == v,
{
    let u = pow2(149) as int;
    lemma_pow2_pos(149);
    lemma_pow2_adds(1, 149);
    lemma2_to64();
    assert(2 * (k * u) + u == k * (2 * u) + u) by (nonlinear_arith);
    lemma_fundamental_div_mod_converse(2 * (k * u) + u, 2 * u, k, u);
    lemma_round_exact(v.code());
    reveal(Single::rounded);
    lemma_with_sign(v.negative(), v.code());
    lemma_single_from_parts(v.rounded(), v);
}

proof fn lemma_hundred()
    ensures
        magnitude(num(HUNDRED).code()) == 100 * pow2(149),
        magnitude(num(MINUS_HUNDRED).code()) == 100 * pow2(149),
        num(HUNDRED).code() == HUNDRED,
        num(MINUS_HUNDRED).code() == HUNDRED,
        !num(HUNDRED).negative(),
        num(MINUS_HUNDRED).negative(),
{
    lemma2_to64();
    lemma_pow2_adds(17, 132);
    let h: int = HUNDRED as int;
    assert(h / 0x80_0000 == 133 && h % 0x80_0000 == 0x48_0000);
    assert(0xC8_0000 * pow2(132) == 100 * pow2(149)) by (nonlinear_arith)
        requires
            pow2(149) == 0x2_0000 * pow2(132),
    ;
}

/// A correction is a whole number of steps of its slider.
pub proof fn a_lateral_answer_is_whole(error: Single, per_unit: Single)
    requires
        error.finite(),
        per_unit.finite(),
        !per_unit.zero(),
    ensures
        lateral_unit(error, per_unit).rounded() == lateral_unit(error, per_unit),
{
    lemma_hundred();
    lemma_whole_stays(num(HUNDRED), 100);
    lemma_whole_stays(num(MINUS_HUNDRED), 100);
    lemma_quotient_is_number(error.negation(), per_unit);
    let q = error.negation().quotient(per_unit);
    let answer = lateral_unit(error, per_unit);
    if !q.finite() {
        reveal(Single::rounded);
        assert(q.rounded() == q);
        assert(answer == num(HUNDRED) || answer == num(MINUS_HUNDRED));
    } else {
        let u = pow2(149) as int;
        lemma_pow2_pos(149);
        lemma_pow2_pos(150);
        lemma_codes_order(q.code(), 0);
        let n = (2 * magnitude(q.code()) + pow2(149)) / (pow2(150) as int);
        assert(n >= 0) by (nonlinear_arith)
            requires
                n == (2 * magnitude(q.code()) + pow2(149)) / (pow2(150) as int),
                2 * magnitude(q.code()) + pow2(149) >= 0,
                pow2(150) > 0,
        ;
        assert(n * u >= 0) by (nonlinear_arith)
            requires
                n >= 0,
                u > 0,
        ;
        let t = q.rounded();
        reveal(Single::rounded);
        lemma_round_exists(n * u, 1);
        lemma_with_sign(q.negative(), round_to_code(n * u, 1));
        if n <= 100 {
            lemma_round_representable(n, 149);
            lemma_whole_stays(t, n);
            assert(answer == t || answer == num(HUNDRED) || answer == num(MINUS_HUNDRED));
        } else {
            lemma_representable(101, 149);
            let c = code_of(101, 149);
            assert(magnitude(c) * 1 <= n * u) by (nonlinear_arith)
                requires
                    magnitude(c) == 101 * u,
                    n >= 101,
                    u > 0,
            ;
            lemma_round_at_least(n * u, 1, c);
            lemma_codes_order(HUNDRED as int, c);
            assert(t.code() > HUNDRED && !t.nan());
            assert(answer == num(HUNDRED) || answer == num(MINUS_HUNDRED));
        }
    }
}

/// Nought times a finite number is nought.
proof fn lemma_nought_times(z: Single, v: Single)
    requires
        z.zero(),
        v.finite(),
    ensures
        z.product(v).zero(),
        v.product(z).zero(),
{
    reveal(Single::product);
    lemma_pow2_pos(149);
    assert(magnitude(0) == 0);
    let m = magnitude(v.code());
    assert(0 * m == 0 && m * 0 == 0) by (nonlinear_arith);
    lemma_round_zero(pow2(149) as int);
    lemma_with_sign(z.negative() != v.negative(), 0);
    lemma_with_sign(v.negative() != z.negative(), 0);
}

/// A whole number of sixty-four digits.
proof fn lemma_side(n: int)
    requires
        0 <= n <= u64::MAX,
    ensures
        within(Single::of_whole(n), 64),
{
    reveal(Single::of_whole);
    lemma_pow2_pos(149);
    lemma2_to64();
    lemma_pow2_adds(64, 149);
    lemma_representable(BINADE as int, 190);
    lemma_pow2_adds(23, 190);
    let c = code_of(BINADE as int, 190);
    assert(0 <= n * pow2(149) <= magnitude(c) * 1) by (nonlinear_arith)
        requires
            0 <= n <= pow2(64),
            pow2(149) > 0,
            magnitude(c) == pow2(64) * pow2(149),
    ;
    lemma_round_at_most(n * pow2(149), 1, c);
    lemma_round_exists(n * pow2(149), 1);
    lemma_with_sign(false, round_to_code(n * pow2(149), 1));
    lemma_codes_order(round_to_code(n * pow2(149), 1), c);
}

/// The middle of a side is half of it at most.
proof fn lemma_middle(n: int)
    requires
        1 <= n <= u64::MAX,
    ensures
        within(middle_of(n), 64),
        !middle_of(n).nan(),
        within(middle_of(n).product(middle_of(n)), 126),
        !middle_of(n).product(middle_of(n)).negative(),
{
    let a = Single::of_whole(n);
    lemma_side(n);
    lemma2_to64();
    lemma_one();
    lemma_pow2_adds(23, 125);
    let half: int = HALF as int;
    assert(half / 0x80_0000 == 126 && half % 0x80_0000 == 0);
    assert(within(num(HALF), -1));
    // Nothing is above the side once one is taken from it.
    let d = a.difference(num(ONE));
    lemma_less_one(n);
    lemma_product_within(d, num(HALF), 64, -1);
    let m = middle_of(n);
    lemma_within_grows(m, 63, 64);
    lemma_product_within(m, m, 63, 63);
    lemma_product_is_number(m, m);
}

/// A side less one.
proof fn lemma_less_one(n: int)
    requires
        1 <= n <= u64::MAX,
    ensures
        within(Single::of_whole(n).difference(num(ONE)), 64),
{
    let a = Single::of_whole(n);
    lemma_side(n);
    lemma_one();
    lemma2_to64();
    lemma_pow2_adds(64, 149);
    lemma_representable(BINADE as int, 190);
    lemma_pow2_adds(23, 190);
    lemma_pow2_pos(149);
    reveal(Single::sum);
    assert(!a.negative()) by {
        reveal(Single::of_whole);
        assert(n * pow2(149) >= 0) by (nonlinear_arith)
            requires
                n >= 1,
                pow2(149) > 0,
        ;
        lemma_round_exists(n * pow2(149), 1);
        lemma_with_sign(false, round_to_code(n * pow2(149), 1));
    }
    lemma_codes_order(a.code(), 0);
    let v = a.value() - pow2(149);
    let k = if v < 0 {
        -v
    } else {
        v
    };
    let c = code_of(BINADE as int, 190);
    assert(pow2(213) >= pow2(149)) by (nonlinear_arith)
        requires
            pow2(213) == pow2(64) * pow2(149),
            pow2(64) >= 1,
            pow2(149) > 0,
    ;
    assert(magnitude(0) == 0);
    if v != 0 {
        lemma_round_at_most(k, 1, c);
        lemma_round_exists(k, 1);
        lemma_with_sign(v < 0, round_to_code(k, 1));
        lemma_codes_order(round_to_code(k, 1), c);
    }
}

/// A root of a finite number is finite.
proof fn lemma_root_is_finite(v: Single)
    requires
        v.finite(),
        !v.negative(),
    ensures
        v.root().finite(),
{
    reveal(Single::root);
    if !v.zero() {
        let u = pow2(149) as int;
        lemma_pow2_pos(149);
        lemma_codes_order(v.code(), 0);
        lemma_codes_order(v.code(), INFINITE as int);
        let m = magnitude(v.code());
        let n = m * u;
        assert(n >= 0) by (nonlinear_arith)
            requires
                n == m * u,
                m >= 0,
                u > 0,
        ;
        lemma_root_exists(n);
        let c = root_to_code(n);
        lemma_with_sign(false, c);
        if c == INFINITE {
            let g = magnitude(INFINITE as int);
            let mid = magnitude(c - 1) + magnitude(c);
            lemma_codes_order(c - 1, 0);
            let i: int = INFINITE as int;
            assert(i / 0x80_0000 == 255 && i % 0x80_0000 == 0);
            lemma_pow2_adds(149, 105);
            lemma_pow2_pos(105);
            assert(g >= 4 * u) by (nonlinear_arith)
                requires
                    g == 0x80_0000 * pow2(254),
                    pow2(254) == u * pow2(105),
                    pow2(105) >= 1,
                    u > 0,
            ;
            assert(mid * mid >= g * g) by (nonlinear_arith)
                requires
                    mid >= g,
                    g >= 0,
            ;
            assert(g * g >= 4 * u * g) by (nonlinear_arith)
                requires
                    g >= 4 * u,
                    g >= 0,
            ;
            assert(4 * u * g > 4 * n) by (nonlinear_arith)
                requires
                    n == m * u,
                    m < g,
                    u > 0,
            ;
        }
    }
}

/// The corner of every frame of machine sizes is a finite distance from the middle, and
/// not nearer than one.
proof fn lemma_corner(w: int, h: int)
    requires
        1 <= w <= u64::MAX,
        1 <= h <= u64::MAX,
    ensures
        corner_radius(w, h).finite(),
        num(ONE).at_most(corner_radius(w, h)),
{
    let cx = middle_of(w);
    let cy = middle_of(h);
    lemma_middle(w);
    lemma_middle(h);
    lemma_one();
    lemma_sum_within(cx.product(cx), cy.product(cy), 126);
    lemma_sum_is_number(cx.product(cx), cy.product(cy));
    lemma_root_is_finite(cx.product(cx).sum(cy.product(cy)));
}

/// A place in a frame, from its middle, in parts of the corner's distance.
proof fn lemma_direction(x: int, n: int, r: Single)
    requires
        0 <= x < n <= u64::MAX,
        r.finite(),
        num(ONE).at_most(r),
    ensures
        Single::of_whole(x).difference(middle_of(n)).quotient(r).finite(),
{
    let a = Single::of_whole(x);
    lemma_side(x);
    lemma_middle(n);
    assert(within(middle_of(n).negation(), 64));
    lemma_sum_within(a, middle_of(n).negation(), 64);
    let d = a.difference(middle_of(n));
    lemma_one();
    lemma_codes_order(ONE as int, r.code());
    lemma_codes_order(d.code(), 0);
    reveal(Single::quotient);
    let k = magnitude(d.code()) * pow2(149);
    let g = magnitude(r.code());
    lemma_pow2_pos(149);
    assert(0 <= k <= magnitude(d.code()) * g) by (nonlinear_arith)
        requires
            k == magnitude(d.code()) * pow2(149),
            magnitude(d.code()) >= 0,
            g >= pow2(149),
            pow2(149) > 0,
    ;
    lemma_round_exists(k, g);
    lemma_round_at_most(k, g, d.code());
    lemma_with_sign(d.negative() != r.negative(), round_to_code(k, g));
}

/// A pixel in a green that is level has no edge to be moved.
pub proof fn a_level_green_says_nothing(px: Seq<Rgb<Single>>, w: int, h: int, x: int, y: int)
    requires
        1 <= x < w - 1,
        1 <= y < h - 1,
        px.len() >= w * h,
        px[y * w + x + 1].g == px[y * w + x - 1].g,
        px[y * w + x + w].g == px[y * w + x - w].g,
        px[y * w + x + 1].g.finite(),
        px[y * w + x + w].g.finite(),
        w <= u64::MAX,
        h <= u64::MAX,
    ensures
        lateral_at(px, w, h, x, y) is None,
{
    lemma_corner(w, h);
    lemma_direction(x, w, corner_radius(w, h));
    lemma_direction(y, h, corner_radius(w, h));
    let i = y * w + x;
    let r = corner_radius(w, h);
    let ux = Single::of_whole(x).difference(middle_of(w)).quotient(r);
    let uy = Single::of_whole(y).difference(middle_of(h)).quotient(r);
    lemma_level(px[i + 1].g);
    lemma_level(px[i + w].g);
    let dx = px[i + 1].g.difference(px[i - 1].g);
    let dy = px[i + w].g.difference(px[i - w].g);
    lemma_nought_times(dx, num(HALF));
    lemma_nought_times(dy, num(HALF));
    lemma_nought_times(dx.product(num(HALF)), ux);
    lemma_nought_times(dy.product(num(HALF)), uy);
    let a = dx.product(num(HALF)).product(ux);
    let b = dy.product(num(HALF)).product(uy);
    assert(a.sum(b).zero()) by {
        reveal(Single::sum);
        assert(magnitude(0) == 0);
    }
    lemma_nought_times(a.sum(b), r);
}

/// A number less itself is nought.
proof fn lemma_level(v: Single)
    requires
        v.finite(),
    ensures
        v.difference(v).zero(),
{
    reveal(Single::sum);
}

} // verus!
