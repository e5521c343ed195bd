//! What healing may do to a picture: a clone shows only what the picture shows
//! already, and nothing beyond the two pixels that it mixes.

use vstd::prelude::*;
use vstd::arithmetic::div_mod::{lemma_fundamental_div_mod, lemma_mod_bound};
use vstd::arithmetic::power2::{lemma2_to64, lemma_pow2_adds, lemma_pow2_pos, pow2};
use crate::blobs::lemma_whole_is_finite;
use crate::heal::{
    border, correction, healed, healing_keeps_the_size, patch_of, the_last_spot_stands, touches,
    Compass, Frame, HealDepth, Patch, Rgb,
};
use crate::mixing::{
    is_share, lemma_next_to_mix, lemma_nothing_added, lemma_one, lemma_part_of_way,
    lemma_product_within, lemma_share_of_share, lemma_sum_within, lemma_whole, lemma_within_grows,
    mixed, within,
};
use crate::numbers::{HALF, ONE, TWENTY_FOUR, TWENTY_THREE_TWENTIETHS, ZERO};
use crate::rounding::{
    lemma_quotient_is_number, lemma_round_at_least, lemma_round_at_most, lemma_round_exists,
    lemma_with_sign,
};
use crate::single::{
    lemma_codes_order, lemma_round_zero, magnitude, num, round_to_code, Single, BINADE,
};
use crate::spots::{CoverageView, SpotView};
use crate::whole::{kept_between, lemma_root_exists, root_to_code};

verus! {

/// A number between two others, whichever of them is the larger.
pub open spec fn between(n: int, a: int, b: int) -> bool {
    a <= n <= b || b <= n <= a
}

/// A pixel whose channels lie between those of two others.
pub open spec fn pixel_between<T: HealDepth>(p: Rgb<T>, a: Rgb<T>, b: Rgb<T>) -> bool {
    &&& between(p.r.number(), a.r.number(), b.r.number())
    &&& between(p.g.number(), a.g.number(), b.g.number())
    &&& between(p.b.number(), a.b.number(), b.b.number())
}

/// The place of the donor of pixel `i`.
pub open spec fn donor_place(p: Patch, i: int, w: int) -> int {
    (i / w + p.oy) * w + (i % w + p.ox)
}

proof fn lemma_channel<T: HealDepth>(base: T, donor: T, share: Single)
    requires
        is_share(share),
    ensures
        ({
            let v = T::of_level(mixed(base.level(), donor.level().sum(num(ZERO)), share));
            &&& between(v.number(), base.number(), donor.number())
            &&& share == num(ONE) ==> v == donor
        }),
{
    T::lemma_level(base);
    T::lemma_level(donor);
    lemma_nothing_added(donor.number());
    let v = mixed(base.level(), donor.level(), share);
    lemma_next_to_mix(base.number(), donor.number(), share, v);
    let top = if base.number() <= donor.number() { donor } else { base };
    T::lemma_of_level(v, top);
    if share == num(ONE) {
        T::lemma_number(T::of_level(v), donor);
    }
}

/// What a donor without correction writes lies between the pixel and the donor, and
/// is the donor where that has all of the weight.
#[verifier::spinoff_prover]
proof fn lemma_laid_between<T: HealDepth>(
    f: Frame<T>,
    p: Patch,
    ring: Seq<(Single, Single)>,
    i: int,
)
    requires
        f.well_formed(),
        0 <= i < f.pixels.len(),
        correction(f, p, ring) == Rgb::all(num(ZERO)),
        p.writes(i % f.width, i / f.width, f.width, f.height),
        is_share(p.weight(i % f.width, i / f.width, f.width, f.height)),
    ensures
        ({
            let x = i % f.width;
            let y = i / f.width;
            let out = p.laid(f, correction(f, p, ring), x, y);
            let donor = f.pixels[donor_place(p, i, f.width)];
            &&& pixel_between(out, f.pixels[i], donor)
            &&& p.weight(x, y, f.width, f.height) == num(ONE) ==> out == donor
        }),
{
    let w = f.width;
    let h = f.height;
    assert(w > 0) by (nonlinear_arith)
        requires
            0 <= i < w * h,
            0 <= w,
    ;
    let x = i % w;
    let y = i / w;
    lemma_fundamental_div_mod(i, w);
    lemma_mod_bound(i, w);
    assert(0 <= y < h && y * w + x == i) by (nonlinear_arith)
        requires
            i == w * y + x,
            0 <= x < w,
            0 <= i < w * h,
    ;
    let a = p.weight(x, y, w, h);
    let base = f.pixels[i];
    let donor = f.pixels[donor_place(p, i, w)];
    assert(f.sampled(x, y) == base.levels());
    assert(f.sampled(x + p.ox, y + p.oy) == donor.levels());
    lemma_channel(base.r, donor.r, a);
    lemma_channel(base.g, donor.g, a);
    lemma_channel(base.b, donor.b, a);
}

/// Whole numbers of 32 digits, with a sign or without, stay within that.
proof fn lemma_whole_within(n: int)
    requires
        -0x1_0000_0000 <= n <= 0x1_0000_0000,
    ensures
        within(Single::of_int(n), 32),
        n >= 0 ==> within(Single::of_whole(n), 32) && Single::of_int(n) == Single::of_whole(n)
            && !Single::of_whole(n).negative(),
{
    reveal(Single::of_int);
    reveal(Single::of_whole);
    lemma2_to64();
    lemma_pow2_pos(149);
    lemma_pow2_adds(23, 158);
    lemma_pow2_adds(32, 149);
    let m = if n < 0 { -n } else { n };
    let code: int = 0x4F80_0000;
    assert(code / (BINADE as int) == 159 && code % (BINADE as int) == 0);
    assert(magnitude(code) == pow2(181));
    assert(0 <= m * pow2(149) <= magnitude(code) * 1) by (nonlinear_arith)
        requires
            0 <= m <= 0x1_0000_0000,
            pow2(181) == 0x1_0000_0000 * pow2(149),
            magnitude(code) == pow2(181),
            pow2(149) > 0,
    ;
    lemma_round_at_most(m * pow2(149), 1, code);
    lemma_round_exists(m * pow2(149), 1);
    lemma_with_sign(n < 0, round_to_code(m * pow2(149), 1));
    lemma_codes_order(round_to_code(m * pow2(149), 1), code);
}

proof fn lemma_small_values()
    ensures
        within(num(ZERO), 0),
        within(num(ONE), 0),
        within(num(HALF), 0),
{
    lemma_one();
    lemma2_to64();
    lemma_pow2_adds(23, 125);
    lemma_pow2_adds(1, 148);
    lemma_pow2_pos(148);
    let half: int = HALF as int;
    assert(half / (BINADE as int) == 126 && half % (BINADE as int) == 0);
    assert(magnitude(half) == pow2(148));
}

/// How far a point lies from the pixel before it, whichever pixel that is taken
/// for.
proof fn lemma_between_pixels(n: Single, side: u32)
    requires
        !n.nan(),
    ensures
        ({
            let x = n.clamped(num(ZERO), num(ONE)).product(Single::of_whole(side as int)).difference(
                num(HALF),
            );
            let f = x.difference(
                Single::of_int(x.floored().cast(i32::MIN as int, i32::MAX as int)),
            );
            within(f, 35) && within(num(ONE).difference(f), 36)
        }),
{
    lemma_small_values();
    lemma_whole_within(side as int);
    let k = n.clamped(num(ZERO), num(ONE));
    lemma_codes_order(k.code(), ONE as int);
    lemma_one();
    assert(within(k, 0));
    let p = k.product(Single::of_whole(side as int));
    lemma_product_within(k, Single::of_whole(side as int), 0, 32);
    lemma_within_grows(num(HALF), 0, 32);
    assert(num(HALF).negation().code() == num(HALF).code());
    lemma_sum_within(p, num(HALF).negation(), 32);
    let x = p.difference(num(HALF));
    let x0 = x.floored().cast(i32::MIN as int, i32::MAX as int);
    lemma_whole_within(x0);
    let at = Single::of_int(x0);
    assert(at.negation().code() == at.code());
    lemma_within_grows(at, 32, 33);
    lemma_sum_within(x, at.negation(), 33);
    let f = x.difference(at);
    lemma_within_grows(f, 34, 35);
    lemma_within_grows(num(ONE), 0, 35);
    assert(f.negation().code() == f.code());
    lemma_sum_within(num(ONE), f.negation(), 35);
}

/// How much of a point is painted is a number from nought to one.
#[verifier::spinoff_prover]
proof fn lemma_painted(c: CoverageView, nx: Single, ny: Single)
    requires
        !nx.nan(),
        !ny.nan(),
    ensures
        num(ZERO).at_most(c.alpha_at(nx, ny)),
        c.alpha_at(nx, ny).at_most(num(ONE)),
        c.alpha_at(nx, ny).finite(),
{
    lemma_small_values();
    lemma_between_pixels(nx, c.mask_width);
    lemma_between_pixels(ny, c.mask_height);
    let x = nx.clamped(num(ZERO), num(ONE)).product(
        Single::of_whole(c.mask_width as int),
    ).difference(num(HALF));
    let y = ny.clamped(num(ZERO), num(ONE)).product(
        Single::of_whole(c.mask_height as int),
    ).difference(num(HALF));
    let x0 = x.floored().cast(i32::MIN as int, i32::MAX as int);
    let y0 = y.floored().cast(i32::MIN as int, i32::MAX as int);
    let fx = x.difference(Single::of_int(x0));
    let fy = y.difference(Single::of_int(y0));
    let gx = num(ONE).difference(fx);
    let gy = num(ONE).difference(fy);
    lemma_within_grows(fx, 35, 36);
    lemma_within_grows(fy, 35, 36);
    lemma_product_within(c.pixel(x0, y0), gx, 0, 36);
    lemma_product_within(c.pixel(x0 + 1, y0), fx, 0, 36);
    lemma_product_within(c.pixel(x0, y0 + 1), gx, 0, 36);
    lemma_product_within(c.pixel(x0 + 1, y0 + 1), fx, 0, 36);
    let top = c.pixel(x0, y0).product(gx).sum(c.pixel(x0 + 1, y0).product(fx));
    let bottom = c.pixel(x0, y0 + 1).product(gx).sum(c.pixel(x0 + 1, y0 + 1).product(fx));
    lemma_sum_within(c.pixel(x0, y0).product(gx), c.pixel(x0 + 1, y0).product(fx), 36);
    lemma_sum_within(c.pixel(x0, y0 + 1).product(gx), c.pixel(x0 + 1, y0 + 1).product(fx), 36);
    lemma_product_within(top, gy, 37, 36);
    lemma_product_within(bottom, fy, 37, 36);
    lemma_sum_within(top.product(gy), bottom.product(fy), 73);
}

/// Where a pixel lies on its side is a number.
proof fn lemma_place_on_side(x: int, w: int)
    requires
        0 <= x < w <= i32::MAX,
    ensures
        !Single::of_int(x).sum(num(HALF)).quotient(Single::of_whole(w)).nan(),
{
    lemma_small_values();
    lemma_whole_within(x);
    lemma_whole_within(w);
    lemma_within_grows(num(HALF), 0, 32);
    lemma_sum_within(Single::of_int(x), num(HALF), 32);
    let side = Single::of_whole(w);
    assert(!side.zero()) by {
        reveal(Single::of_whole);
        lemma_pow2_pos(149);
        assert(magnitude(1) == 1);
        assert(magnitude(1) * 1 <= w * pow2(149)) by (nonlinear_arith)
            requires
                w >= 1,
                pow2(149) >= 1,
                magnitude(1) == 1,
        ;
        lemma_round_at_least(w * pow2(149), 1, 1);
        lemma_round_exists(w * pow2(149), 1);
        lemma_with_sign(false, round_to_code(w * pow2(149), 1));
    }
    lemma_quotient_is_number(Single::of_int(x).sum(num(HALF)), side);
}

/// The weight of a donor before the painted shape is counted in.
proof fn lemma_feathered(p: Patch, x: int, y: int)
    requires
        p.r.finite(),
        !p.r.negative(),
        p.holds(x, y),
    ensures
        is_share(p.feathered(p.off_middle(x, y))),
{
    let dx = x - p.mid_x();
    let dy = y - p.mid_y();
    let n = dx * dx + dy * dy;
    assert(0 <= n <= 0x8000_0000_0000_0000) by (nonlinear_arith)
        requires
            -0x7FFF_FFFF <= dx <= 0x7FFF_FFFF,
            -0x7FFF_FFFF <= dy <= 0x7FFF_FFFF,
            n == dx * dx + dy * dy,
    ;
    lemma_whole_is_finite(n);
    let square = Single::of_int(n);
    assert(square == Single::of_whole(n)) by {
        reveal(Single::of_int);
        reveal(Single::of_whole);
    }
    let d = square.root();
    assert(!d.nan() && !d.negative()) by {
        reveal(Single::root);
        lemma_codes_order(square.code(), 0);
        lemma_pow2_pos(149);
        let m = magnitude(square.code()) * pow2(149);
        assert(m >= 0) by (nonlinear_arith)
            requires
                m == magnitude(square.code()) * pow2(149),
                magnitude(square.code()) >= 0,
                pow2(149) > 0,
        ;
        lemma_root_exists(m);
        lemma_with_sign(false, root_to_code(m));
    }
    assert(d.at_most(p.r));
    lemma_one();
    let inner = p.r.product(num(ONE).difference(p.feather));
    if !d.at_most(inner) && inner.less(p.r) {
        lemma_part_of_way(p.r, d, inner);
    }
}

/// The disk of a spot has a radius of two pixels at least.
#[verifier::spinoff_prover]
#[verifier::rlimit(60)]
proof fn lemma_radius<T: HealDepth>(f: Frame<T>, s: SpotView, compass: Compass)
    requires
        f.well_formed(),
    ensures
        patch_of(f, s, compass).r.finite(),
        !patch_of(f, s, compass).r.negative(),
{
    lemma_small_values();
    let side = if f.width <= f.height { f.width } else { f.height };
    lemma_whole_within(side);
    let k = s.radius.clamped(num(ZERO), num(HALF));
    if s.radius.nan() {
        assert(k == s.radius);
        assert(k.product(Single::of_whole(side)).nan()) by {
            reveal(Single::product);
        }
    } else {
        lemma_codes_order(k.code(), HALF as int);
        assert(within(k, 0));
        lemma_product_within(k, Single::of_whole(side), 0, 32);
    }
}

/// A share of a number from nought to one is a share too, or nought.
proof fn lemma_covered_share(a: Single, painted: Single)
    requires
        is_share(a),
        painted.finite(),
        num(ZERO).at_most(painted),
        painted.at_most(num(ONE)),
    ensures
        is_share(a.product(painted)) || a.product(painted).at_most(num(ZERO)),
{
    if painted.negative() {
        assert(painted.code() == 0);
        reveal(Single::product);
        assert(magnitude(0) == 0);
        assert(magnitude(a.code()) * 0 == 0);
        lemma_pow2_pos(149);
        lemma_round_zero(pow2(149) as int);
    } else {
        lemma_share_of_share(a, painted);
    }
}

/// Where a spot writes a pixel, its donor has a share from nought to one.
#[verifier::spinoff_prover]
pub proof fn a_donor_has_a_share<T: HealDepth>(f: Frame<T>, s: SpotView, compass: Compass, i: int)
    requires
        f.well_formed(),
        0 <= i < f.pixels.len(),
        touches(f, s, compass, i),
    ensures
        is_share(
            patch_of(f, s, compass).weight(i % f.width, i / f.width, f.width, f.height),
        ),
{
    let p = patch_of(f, s, compass);
    let w = f.width;
    let h = f.height;
    assert(w > 0) by (nonlinear_arith)
        requires
            0 <= i < w * h,
            0 <= w,
    ;
    let x = i % w;
    let y = i / w;
    lemma_fundamental_div_mod(i, w);
    lemma_mod_bound(i, w);
    assert(0 <= y < h) by (nonlinear_arith)
        requires
            i == w * y + x,
            0 <= x < w,
            0 <= i < w * h,
    ;
    lemma_radius(f, s, compass);
    lemma_feathered(p, x, y);
    match p.coverage {
        None => {},
        Some(c) => {
            let nx = Single::of_int(x).sum(num(HALF)).quotient(Single::of_whole(w));
            let ny = Single::of_int(y).sum(num(HALF)).quotient(Single::of_whole(h));
            lemma_place_on_side(x, w);
            lemma_place_on_side(y, h);
            lemma_painted(c, nx, ny);
            lemma_covered_share(p.feathered(p.off_middle(x, y)), c.alpha_at(nx, ny));
        },
    }
}

/// A clone invents nothing: a pixel that was last written by one lies, channel by
/// channel, between what was there and its donor in the picture as it was.
#[verifier::spinoff_prover]
pub proof fn a_clone_lies_between<T: HealDepth>(
    f: Frame<T>,
    spots: Seq<SpotView>,
    compass: Compass,
    k: nat,
    last: int,
    i: int,
)
    requires
        f.well_formed(),
        k <= spots.len(),
        0 <= last < k,
        0 <= i < f.pixels.len(),
        spots[last].clone_raw,
        touches(f, spots[last], compass, i),
        forall|n: int| last < n < k ==> !touches(f, #[trigger] spots[n], compass, i),
    ensures
        pixel_between(
            healed(f, spots, compass, k).pixels[i],
            f.pixels[i],
            f.pixels[donor_place(patch_of(f, spots[last], compass), i, f.width)],
        ),
{
    the_last_spot_stands(f, spots, compass, k, last, i);
    a_donor_has_a_share(f, spots[last], compass, i);
    lemma_laid_between(f, patch_of(f, spots[last], compass), compass.ring@, i);
}

/// Where the donor of a clone has all of the weight, it is copied as it is.
#[verifier::spinoff_prover]
pub proof fn a_full_clone_is_its_donor<T: HealDepth>(
    f: Frame<T>,
    spots: Seq<SpotView>,
    compass: Compass,
    k: nat,
    last: int,
    i: int,
)
    requires
        f.well_formed(),
        k <= spots.len(),
        0 <= last < k,
        0 <= i < f.pixels.len(),
        spots[last].clone_raw,
        touches(f, spots[last], compass, i),
        patch_of(f, spots[last], compass).weight(i % f.width, i / f.width, f.width, f.height)
            == num(ONE),
        forall|n: int| last < n < k ==> !touches(f, #[trigger] spots[n], compass, i),
    ensures
        healed(f, spots, compass, k).pixels[i] == f.pixels[donor_place(
            patch_of(f, spots[last], compass),
            i,
            f.width,
        )],
{
    the_last_spot_stands(f, spots, compass, k, last, i);
    a_donor_has_a_share(f, spots[last], compass, i);
    lemma_laid_between(f, patch_of(f, spots[last], compass), compass.ring@, i);
}

/// All pixels of a picture are the same.
pub open spec fn flat<T: HealDepth>(f: Frame<T>) -> bool {
    forall|i: int| 0 <= i < f.pixels.len() ==> #[trigger] f.pixels[i] == f.pixels[0]
}

proof fn lemma_no_difference<T: HealDepth>(a: T)
    ensures
        a.level().difference(a.level()) == num(ZERO),
{
    T::lemma_level(a);
    lemma_whole(a.number());
    reveal(Single::sum);
    let v = a.level();
    assert(v.negation().code() == v.code());
    lemma_codes_order(v.code(), 0);
}

/// Nothing to tell a spot's border from its donor's.
#[verifier::spinoff_prover]
proof fn lemma_flat_border<T: HealDepth>(
    f: Frame<T>,
    p: Patch,
    ring: Seq<(Single, Single)>,
    j: nat,
)
    requires
        f.well_formed(),
        f.width > 0,
        f.height > 0,
        flat(f),
    ensures
        border(f, p, ring, j) == Rgb::all(num(ZERO)),
    decreases j,
{
    if j > 0 {
        lemma_flat_border(f, p, ring, (j - 1) as nat);
        let dx = ring[j - 1].0.product(p.r).product(num(TWENTY_THREE_TWENTIETHS));
        let dy = ring[j - 1].1.product(p.r).product(num(TWENTY_THREE_TWENTIETHS));
        let x = p.cx.sum(dx).cast(i32::MIN as int, i32::MAX as int);
        let y = p.cy.sum(dy).cast(i32::MIN as int, i32::MAX as int);
        lemma_flat_point(f, x, y, x + p.ox, y + p.oy);
    }
}

/// Two places of a flat picture do not differ.
proof fn lemma_flat_point<T: HealDepth>(f: Frame<T>, x: int, y: int, u: int, v: int)
    requires
        f.well_formed(),
        f.width > 0,
        f.height > 0,
        flat(f),
    ensures
        Rgb::all(num(ZERO)).sum(f.sampled(x, y).difference(f.sampled(u, v))) == Rgb::all(num(ZERO)),
{
    lemma_flat_sample(f, x, y);
    lemma_flat_sample(f, u, v);
    lemma_no_difference(f.pixels[0].r);
    lemma_no_difference(f.pixels[0].g);
    lemma_no_difference(f.pixels[0].b);
    lemma_nothing_twice();
}

proof fn lemma_nothing_twice()
    ensures
        num(ZERO).sum(num(ZERO)) == num(ZERO),
{
    reveal(Single::sum);
    assert(magnitude(0) == 0);
}

/// A flat picture shows the same everywhere.
proof fn lemma_flat_sample<T: HealDepth>(f: Frame<T>, x: int, y: int)
    requires
        f.well_formed(),
        f.width > 0,
        f.height > 0,
        flat(f),
    ensures
        f.sampled(x, y) == f.pixels[0].levels(),
{
    let a = kept_between(x, 0, f.width - 1);
    let b = kept_between(y, 0, f.height - 1);
    let place = b * f.width + a;
    assert(0 <= place < f.width * f.height) by (nonlinear_arith)
        requires
            place == b * f.width + a,
            0 <= a < f.width,
            0 <= b < f.height,
    ;
    assert(f.pixels[place] == f.pixels[0]);
}

/// The donor of a flat picture needs no correction.
proof fn lemma_flat_correction<T: HealDepth>(f: Frame<T>, p: Patch, ring: Seq<(Single, Single)>)
    requires
        f.well_formed(),
        f.width > 0,
        f.height > 0,
        flat(f),
    ensures
        correction(f, p, ring) == Rgb::all(num(ZERO)),
{
    lemma_flat_border(f, p, ring, 24);
    assert(num(ZERO).quotient(num(TWENTY_FOUR)) == num(ZERO)) by {
        reveal(Single::quotient);
        let c: int = TWENTY_FOUR as int;
        assert(magnitude(0) == 0);
        assert(0 * pow2(149) == 0);
        lemma_codes_order(0, c);
        lemma_round_zero(magnitude(c));
    }
}

/// Where there is nothing to heal, nothing is changed: spots on a flat picture
/// leave it as it is.
#[verifier::spinoff_prover]
pub proof fn a_flat_picture_stays<T: HealDepth>(
    f: Frame<T>,
    spots: Seq<SpotView>,
    compass: Compass,
    k: nat,
)
    requires
        f.well_formed(),
        flat(f),
        k <= spots.len(),
    ensures
        healed(f, spots, compass, k).pixels == f.pixels,
    decreases k,
{
    healing_keeps_the_size(f, spots, compass, k);
    if k > 0 {
        a_flat_picture_stays(f, spots, compass, (k - 1) as nat);
        healing_keeps_the_size(f, spots, compass, (k - 1) as nat);
        let p = patch_of(f, spots[k - 1], compass);
        let after = healed(f, spots, compass, k).pixels;
        assert forall|i: int| 0 <= i < f.pixels.len() implies #[trigger] after[i] == f.pixels[i] by {
            if touches(f, spots[k - 1], compass, i) {
                lemma_flat_pixel(f, spots[k - 1], compass, i);
            }
        }
        assert(after =~= f.pixels);
    }
}

/// A spot writes what was there onto a flat picture.
#[verifier::spinoff_prover]
proof fn lemma_flat_pixel<T: HealDepth>(f: Frame<T>, s: SpotView, compass: Compass, i: int)
    requires
        f.well_formed(),
        flat(f),
        0 <= i < f.pixels.len(),
        touches(f, s, compass, i),
    ensures
        ({
            let p = patch_of(f, s, compass);
            p.laid(f, correction(f, p, compass.ring@), i % f.width, i / f.width) == f.pixels[i]
        }),
{
    let p = patch_of(f, s, compass);
    assert(f.width > 0 && f.height > 0) by (nonlinear_arith)
        requires
            0 <= i < f.width * f.height,
            0 <= f.width,
            0 <= f.height,
    ;
    lemma_flat_correction(f, p, compass.ring@);
    a_donor_has_a_share(f, s, compass, i);
    lemma_laid_between(f, p, compass.ring@, i);
    let x = i % f.width;
    let y = i / f.width;
    let out = p.laid(f, correction(f, p, compass.ring@), x, y);
    let place = donor_place(p, i, f.width);
    assert(0 <= place < f.pixels.len()) by (nonlinear_arith)
        requires
            place == (y + p.oy) * f.width + (x + p.ox),
            0 <= x + p.ox < f.width,
            0 <= y + p.oy < f.height,
            f.pixels.len() == f.width * f.height,
    ;
    let here = f.pixels[i];
    assert(here == f.pixels[0] && f.pixels[place] == f.pixels[0]);
    T::lemma_number(out.r, here.r);
    T::lemma_number(out.g, here.g);
    T::lemma_number(out.b, here.b);
}

} // verus!
