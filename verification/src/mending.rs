//! What a heal is for: the donor takes on the tone of the spot's border, channel by channel.

use vstd::prelude::*;
use vstd::arithmetic::div_mod::{
    lemma_fundamental_div_mod, lemma_fundamental_div_mod_converse, lemma_mod_bound,
};
use vstd::arithmetic::power2::{lemma2_to64, lemma_pow2_adds, pow2};
use crate::copies::donor_place;
use crate::exact::{code_of, lemma_round_representable};
use crate::heal::{
    border, healed, patch_of, the_last_spot_stands, touches, Compass, Frame, HealDepth,
    Patch, Rgb,
};
use crate::mixing::{lemma_one, unit};
use crate::numbers::{ONE, TWENTY_FOUR, TWENTY_THREE_TWENTIETHS, ZERO};
use crate::rounding::{
    lemma_round_at_least, lemma_round_at_most, lemma_round_exists, lemma_single_from_parts,
    lemma_with_sign,
};
use crate::single::{
    lemma_codes_order, lemma_round_exact, lemma_round_zero, magnitude, num, Single, BINADE,
};
use crate::spots::SpotView;
use crate::whole::kept_between;

verus! {

/// A whole number of twenty-four digits is a single.
pub proof fn lemma_int(n: int)
    requires
        -0xFF_FFFF <= n <= 0xFF_FFFF,
    ensures
        Single::of_int(n).finite(),
        Single::of_int(n).negative() == (n < 0),
        Single::of_int(n).value() == n * unit(),
        magnitude(Single::of_int(n).code()) == (if n < 0 {
            -n
        } else {
            n
        }) * unit(),
        n >= 0 ==> Single::of_int(n) == Single::of_whole(n),
{
    reveal(Single::of_int);
    reveal(Single::of_whole);
    let m = if n < 0 {
        -n
    } else {
        n
    };
    lemma_round_representable(m, 149);
    lemma_with_sign(n < 0, code_of(m, 149));
    assert(n < 0 ==> -(m * unit()) == n * unit()) by (nonlinear_arith)
        requires
            n < 0 ==> m == -n,
    ;
}

/// Sums of such numbers are exact.
pub proof fn lemma_int_sum(a: int, b: int)
    requires
        -0xFF_FFFF <= a <= 0xFF_FFFF,
        -0xFF_FFFF <= b <= 0xFF_FFFF,
        -0xFF_FFFF <= a + b <= 0xFF_FFFF,
    ensures
        Single::of_int(a).sum(Single::of_int(b)) == Single::of_int(a + b),
{
    lemma_int(a);
    lemma_int(b);
    lemma_int(a + b);
    lemma_one();
    let u = unit();
    let v = a * u + b * u;
    assert(v == (a + b) * u) by (nonlinear_arith)
        requires
            v == a * u + b * u,
    ;
    assert((v < 0) == (a + b < 0) && (v == 0) == (a + b == 0)) by (nonlinear_arith)
        requires
            v == (a + b) * u,
            u > 0,
    ;
    reveal(Single::sum);
    let s = Single::of_int(a).sum(Single::of_int(b));
    let c = Single::of_int(a + b);
    if v == 0 {
        lemma_codes_order(c.code(), 0);
        assert(c.code() == 0) by {
            reveal(Single::of_int);
            assert(0 * pow2(149) == 0);
            lemma_round_zero(1);
        }
        lemma_with_sign(false, 0);
        lemma_single_from_parts(s, c);
    } else {
        let m = if v < 0 {
            -v
        } else {
            v
        };
        assert(m == magnitude(c.code())) by (nonlinear_arith)
            requires
                v == (a + b) * u,
                m == (if v < 0 { -v } else { v }),
                magnitude(c.code()) == (if a + b < 0 { -(a + b) } else { a + b }) * u,
                u > 0,
        ;
        lemma_round_exact(c.code());
        lemma_with_sign(v < 0, c.code());
        lemma_single_from_parts(s, c);
    }
}

/// Differences of such numbers are exact.
pub proof fn lemma_int_difference(a: int, b: int)
    requires
        0 <= a <= 65535,
        0 <= b <= 65535,
    ensures
        Single::of_int(a).difference(Single::of_int(b)) == Single::of_int(a - b),
{
    lemma_int(b);
    lemma_int(-b);
    if b == 0 {
        lemma_int(a);
        lemma_one();
        reveal(Single::sum);
        let z = Single::of_int(b).negation();
        let s = Single::of_int(a);
        assert(Single::of_int(0).code() == 0) by {
            reveal(Single::of_int);
            assert(0 * pow2(149) == 0);
            lemma_round_zero(1);
        }
        assert(magnitude(0) == 0);
        lemma_codes_order(s.code(), 0);
        if s.value() != 0 {
            lemma_round_exact(s.code());
            lemma_with_sign(false, s.code());
            lemma_single_from_parts(s.sum(z), s);
        } else {
            assert(a == 0) by (nonlinear_arith)
                requires
                    a * unit() == 0,
                    unit() > 0,
            ;
            lemma_with_sign(false, 0);
            lemma_single_from_parts(s.sum(z), s);
        }
    } else {
        lemma_one();
        assert(magnitude(0) == 0);
        assert(b * unit() == -(-b) * unit()) by (nonlinear_arith);
        assert(Single::of_int(b).negation() == Single::of_int(-b)) by {
            reveal(Single::of_int);
            lemma_round_representable(b, 149);
            lemma_with_sign(false, code_of(b, 149));
            lemma_with_sign(true, code_of(b, 149));
        }
        lemma_int_sum(a, -b);
    }
}

/// A twenty-fourth of twenty-four times a number is the number.
pub proof fn lemma_int_shared(k: int)
    requires
        -65535 <= k <= 65535,
    ensures
        Single::of_int(24 * k).quotient(num(TWENTY_FOUR)) == Single::of_int(k),
{
    lemma_int(24 * k);
    lemma_int(k);
    lemma_one();
    lemma2_to64();
    lemma_pow2_adds(19, 130);
    let t: int = TWENTY_FOUR as int;
    assert(t / (BINADE as int) == 131 && t % (BINADE as int) == 0x40_0000);
    let u = unit();
    assert(magnitude(t) == 24 * u) by (nonlinear_arith)
        requires
            magnitude(t) == 0xC0_0000 * pow2(130),
            u == 0x8_0000 * pow2(130),
    ;
    reveal(Single::quotient);
    let v = Single::of_int(24 * k);
    let c = Single::of_int(k);
    let m = magnitude(v.code());
    let n = m * pow2(149);
    let d = magnitude(t);
    assert(n == magnitude(c.code()) * d) by (nonlinear_arith)
        requires
            n == m * pow2(149),
            u == pow2(149),
            d == 24 * u,
            m == (if 24 * k < 0 { -(24 * k) } else { 24 * k }) * u,
            magnitude(c.code()) == (if k < 0 { -k } else { k }) * u,
    ;
    lemma_codes_order(c.code(), 0);
    assert(n >= 0 && d > 0) by (nonlinear_arith)
        requires
            n == magnitude(c.code()) * d,
            magnitude(c.code()) >= 0,
            d == 24 * u,
            u > 0,
    ;
    lemma_round_exists(n, d);
    lemma_round_at_most(n, d, c.code());
    lemma_round_at_least(n, d, c.code());
    lemma_with_sign(v.negative(), c.code());
    lemma_single_from_parts(v.quotient(num(TWENTY_FOUR)), c);
}

/// The place on the ring around a spot that its border is read at.
pub open spec fn ring_place(p: Patch, ring: Seq<(Single, Single)>, j: int) -> (int, int) {
    (
        p.cx.sum(ring[j].0.product(p.r).product(num(TWENTY_THREE_TWENTIETHS))).cast(
            i32::MIN as int,
            i32::MAX as int,
        ),
        p.cy.sum(ring[j].1.product(p.r).product(num(TWENTY_THREE_TWENTIETHS))).cast(
            i32::MIN as int,
            i32::MAX as int,
        ),
    )
}

/// The pixel at a place, or the one of the edge that is nearest to it.
pub open spec fn pixel_near<T>(f: Frame<T>, x: int, y: int) -> Rgb<T> {
    f.pixels[kept_between(y, 0, f.height - 1) * f.width + kept_between(x, 0, f.width - 1)]
}

/// At every place of the ring the spot's border is above that of its donor by these
/// numbers.
pub open spec fn border_above<T: HealDepth>(
    f: Frame<T>,
    p: Patch,
    ring: Seq<(Single, Single)>,
    k: (int, int, int),
) -> bool {
    forall|j: int|
        0 <= j < 24 ==> {
            let (x, y) = #[trigger] ring_place(p, ring, j);
            let here = pixel_near(f, x, y);
            let there = pixel_near(f, x + p.ox, y + p.oy);
            &&& here.r.number() - there.r.number() == k.0
            &&& here.g.number() - there.g.number() == k.1
            &&& here.b.number() - there.b.number() == k.2
        }
}

proof fn lemma_level_difference<T: HealDepth>(a: T, b: T, k: int)
    requires
        a.number() - b.number() == k,
    ensures
        a.level().difference(b.level()) == Single::of_int(k),
        -65535 <= k <= 65535,
{
    T::lemma_level(a);
    T::lemma_level(b);
    lemma_int(a.number());
    lemma_int(b.number());
    lemma_int_difference(a.number(), b.number());
}

proof fn lemma_border_above<T: HealDepth>(
    f: Frame<T>,
    p: Patch,
    ring: Seq<(Single, Single)>,
    k: (int, int, int),
    j: nat,
)
    requires
        border_above(f, p, ring, k),
        j <= 24,
    ensures
        border(f, p, ring, j) == (Rgb {
            r: Single::of_int(j * k.0),
            g: Single::of_int(j * k.1),
            b: Single::of_int(j * k.2),
        }),
        j > 0 ==> -65535 <= k.0 <= 65535 && -65535 <= k.1 <= 65535 && -65535 <= k.2 <= 65535,
    decreases j,
{
    if j == 0 {
        assert(Single::of_int(0) == num(ZERO)) by {
            reveal(Single::of_int);
            assert(0 * pow2(149) == 0);
            lemma_round_zero(1);
        }
        assert(0 * k.0 == 0 && 0 * k.1 == 0 && 0 * k.2 == 0);
    } else {
        lemma_border_above(f, p, ring, k, (j - 1) as nat);
        let (x, y) = ring_place(p, ring, j - 1);
        let here = pixel_near(f, x, y);
        let there = pixel_near(f, x + p.ox, y + p.oy);
        assert(f.sampled(x, y) == here.levels());
        assert(f.sampled(x + p.ox, y + p.oy) == there.levels());
        lemma_level_difference(here.r, there.r, k.0);
        lemma_level_difference(here.g, there.g, k.1);
        lemma_level_difference(here.b, there.b, k.2);
        lemma_one_more(j, k.0);
        lemma_one_more(j, k.1);
        lemma_one_more(j, k.2);
    }
}

proof fn lemma_one_more(j: nat, k: int)
    requires
        1 <= j <= 24,
        -65535 <= k <= 65535,
    ensures
        Single::of_int((j - 1) * k).sum(Single::of_int(k)) == Single::of_int(j * k),
{
    assert((j - 1) * k + k == j * k && -0xFF_FFFF <= (j - 1) * k <= 0xFF_FFFF && -0xFF_FFFF <= j * k
        <= 0xFF_FFFF) by (nonlinear_arith)
        requires
            1 <= j <= 24,
            -65535 <= k <= 65535,
    ;
    lemma_int_sum((j - 1) * k, k);
}

/// A channel of the donor, moved by `k` and laid over with all of the weight.
proof fn lemma_moved<T: HealDepth>(base: T, donor: T, want: T, k: int)
    requires
        want.number() == donor.number() + k,
        -65535 <= k <= 65535,
    ensures
        T::of_level(
            base.level().product(num(ONE).difference(num(ONE))).sum(
                donor.level().sum(Single::of_int(k)).product(num(ONE)),
            ),
        ) == want,
{
    T::lemma_level(base);
    T::lemma_level(donor);
    T::lemma_level(want);
    lemma_int(base.number());
    lemma_int(donor.number());
    lemma_int(want.number());
    lemma_int_sum(donor.number(), k);
    lemma_one();
    let v = Single::of_int(want.number());
    let z = num(ONE).difference(num(ONE));
    assert(z == num(ZERO)) by {
        reveal(Single::sum);
    }
    assert(base.level().product(z) == num(ZERO)) by {
        reveal(Single::product);
        assert(magnitude(0) == 0);
        let m = magnitude(base.level().code());
        assert(m * 0 == 0);
        lemma_round_zero(pow2(149) as int);
    }
    assert(v.product(num(ONE)) == v) by {
        reveal(Single::product);
        lemma_codes_order(v.code(), 0);
        let m = magnitude(v.code());
        let u = unit();
        assert(m * u >= 0) by (nonlinear_arith)
            requires
                m >= 0,
                u > 0,
        ;
        lemma_round_exists(m * u, u);
        lemma_round_at_most(m * u, u, v.code());
        lemma_round_at_least(m * u, u, v.code());
        lemma_with_sign(v.negative(), v.code());
        lemma_single_from_parts(v.product(num(ONE)), v);
    }
    assert(num(ZERO).sum(v) == v) by {
        reveal(Single::sum);
        assert(magnitude(0) == 0);
        lemma_codes_order(v.code(), 0);
        if v.value() != 0 {
            lemma_round_exact(v.code());
            lemma_with_sign(false, v.code());
        } else {
            lemma_with_sign(false, 0);
        }
        lemma_single_from_parts(num(ZERO).sum(v), v);
    }
    // The number next to a whole number is that number.
    let n = want.number();
    let u = unit();
    lemma_pow2_adds(1, 149);
    lemma2_to64();
    assert(2 * (n * u) + u == n * (2 * u) + u) by (nonlinear_arith);
    lemma_fundamental_div_mod_converse(2 * (n * u) + u, 2 * u, n, u);
    T::lemma_of_level(v, want);
    T::lemma_number(T::of_level(v), want);
}

/// A heal takes on the tone of the border. Where the border of a spot is above that of its
/// donor by the same numbers all round, every pixel that the donor has all of the weight at
/// becomes the donor's pixel moved by those numbers: red by the red one, green by the green
/// one, blue by the blue one.
#[verifier::spinoff_prover]
pub proof fn a_heal_takes_on_the_tone_of_the_border<T: HealDepth>(
    f: Frame<T>,
    spots: Seq<SpotView>,
    compass: Compass,
    k: nat,
    last: int,
    i: int,
    above: (int, int, int),
    want: Rgb<T>,
)
    requires
        f.well_formed(),
        k <= spots.len(),
        0 <= last < k,
        0 <= i < f.pixels.len(),
        !spots[last].clone_raw,
        touches(f, spots[last], compass, i),
        forall|n: int| last < n < k ==> !touches(f, #[trigger] spots[n], compass, i),
        patch_of(f, spots[last], compass).weight(i % f.width, i / f.width, f.width, f.height)
            == num(ONE),
        border_above(f, patch_of(f, spots[last], compass), compass.ring@, above),
        ({
            let donor = f.pixels[donor_place(patch_of(f, spots[last], compass), i, f.width)];
            &&& want.r.number() == donor.r.number() + above.0
            &&& want.g.number() == donor.g.number() + above.1
            &&& want.b.number() == donor.b.number() + above.2
        }),
    ensures
        healed(f, spots, compass, k).pixels[i] == want,
{
    let p = patch_of(f, spots[last], compass);
    the_last_spot_stands(f, spots, compass, k, last, i);
    let w = f.width;
    let h = f.height;
    assert(w > 0) by (nonlinear_arith)
        requires
            0 <= i < w * h,
            0 <= w,
    ;
    let x = i % w;
    let y = i / w;
    lemma_fundamental_div_mod(i, w);
    lemma_mod_bound(i, w);
    assert(0 <= y < h && y * w + x == i) by (nonlinear_arith)
        requires
            i == w * y + x,
            0 <= x < w,
            0 <= i < w * h,
    ;
    let base = f.pixels[i];
    let donor = f.pixels[donor_place(p, i, w)];
    assert(f.sampled(x, y) == base.levels());
    assert(f.sampled(x + p.ox, y + p.oy) == donor.levels());
    lemma_border_above(f, p, compass.ring@, above, 24);
    lemma_int_shared(above.0);
    lemma_int_shared(above.1);
    lemma_int_shared(above.2);
    lemma_moved(base.r, donor.r, want.r, above.0);
    lemma_moved(base.g, donor.g, want.g, above.1);
    lemma_moved(base.b, donor.b, want.b, above.2);
}

/// Two pictures of one size.
pub open spec fn same_size<T>(f: Frame<T>, g: Frame<T>) -> bool {
    f.width == g.width && f.height == g.height && f.pixels.len() == g.pixels.len()
}

/// A picture with red and blue exchanged.
pub open spec fn red_for_blue<T>(f: Frame<T>) -> Frame<T> {
    Frame {
        width: f.width,
        height: f.height,
        pixels: Seq::new(
            f.pixels.len(),
            |i: int| Rgb { r: f.pixels[i].b, g: f.pixels[i].g, b: f.pixels[i].r },
        ),
    }
}

proof fn lemma_place_near<T>(f: Frame<T>, x: int, y: int)
    requires
        f.well_formed(),
        f.width > 0,
        f.height > 0,
    ensures
        ({
            let k = kept_between(y, 0, f.height - 1) * f.width + kept_between(x, 0, f.width - 1);
            0 <= k < f.pixels.len()
        }),
{
    let a = kept_between(x, 0, f.width - 1);
    let b = kept_between(y, 0, f.height - 1);
    assert(0 <= b * f.width + a < f.width * f.height) by (nonlinear_arith)
        requires
            0 <= a < f.width,
            0 <= b < f.height,
    ;
}

/// The borders of two pictures that agree in red agree in red, and so on.
proof fn lemma_border_by_channel<T: HealDepth>(
    f: Frame<T>,
    g: Frame<T>,
    p: Patch,
    ring: Seq<(Single, Single)>,
    j: nat,
)
    requires
        f.well_formed(),
        f.width > 0,
        f.height > 0,
        same_size(f, g),
        forall|i: int| 0 <= i < f.pixels.len() ==> (#[trigger] f.pixels[i]).r == g.pixels[i].r,
    ensures
        border(f, p, ring, j).r == border(g, p, ring, j).r,
    decreases j,
{
    if j > 0 {
        lemma_border_by_channel(f, g, p, ring, (j - 1) as nat);
        let (x, y) = ring_place(p, ring, j - 1);
        lemma_place_near(f, x, y);
        lemma_place_near(f, x + p.ox, y + p.oy);
        assert(pixel_near(f, x, y).r == pixel_near(g, x, y).r);
        assert(pixel_near(f, x + p.ox, y + p.oy).r == pixel_near(g, x + p.ox, y + p.oy).r);
    }
}

proof fn lemma_border_exchanged<T: HealDepth>(
    f: Frame<T>,
    p: Patch,
    ring: Seq<(Single, Single)>,
    j: nat,
)
    requires
        f.well_formed(),
        f.width > 0,
        f.height > 0,
    ensures
        ({
            let a = border(f, p, ring, j);
            border(red_for_blue(f), p, ring, j) == (Rgb { r: a.b, g: a.g, b: a.r })
        }),
    decreases j,
{
    if j > 0 {
        lemma_border_exchanged(f, p, ring, (j - 1) as nat);
        let (x, y) = ring_place(p, ring, j - 1);
        let g = red_for_blue(f);
        lemma_place_near(f, x, y);
        lemma_place_near(f, x + p.ox, y + p.oy);
        assert(pixel_near(g, x, y) == (Rgb {
            r: pixel_near(f, x, y).b,
            g: pixel_near(f, x, y).g,
            b: pixel_near(f, x, y).r,
        }));
        let e = pixel_near(f, x + p.ox, y + p.oy);
        assert(pixel_near(g, x + p.ox, y + p.oy) == (Rgb { r: e.b, g: e.g, b: e.r }));
    }
}

/// What a spot makes of red depends on red alone: pictures that agree in red, and on which
/// the spot finds the same donor, agree in red after it.
pub proof fn healing_keeps_the_channels_apart<T: HealDepth>(
    f: Frame<T>,
    g: Frame<T>,
    s: SpotView,
    compass: Compass,
    i: int,
)
    requires
        f.well_formed(),
        same_size(f, g),
        0 <= i < f.pixels.len(),
        forall|j: int| 0 <= j < f.pixels.len() ==> (#[trigger] f.pixels[j]).r == g.pixels[j].r,
        patch_of(f, s, compass) == patch_of(g, s, compass),
    ensures
        healed(f, seq![s], compass, 1).pixels[i].r == healed(g, seq![s], compass, 1).pixels[i].r,
{
    let p = patch_of(f, s, compass);
    reveal_with_fuel(healed, 2);
    let w = f.width;
    let h = f.height;
    assert(w > 0 && h > 0) by (nonlinear_arith)
        requires
            0 <= i < w * h,
            0 <= w,
            0 <= h,
    ;
    lemma_border_by_channel(f, g, p, compass.ring@, 24);
    let (x, y) = (i % w, i / w);
    lemma_place_near(f, x, y);
    lemma_place_near(f, x + p.ox, y + p.oy);
    assert(pixel_near(f, x, y).r == pixel_near(g, x, y).r);
    assert(pixel_near(f, x + p.ox, y + p.oy).r == pixel_near(g, x + p.ox, y + p.oy).r);
    assert(f.pixels[i].r == g.pixels[i].r);
}

/// Healing knows no channel from another: on a picture with red and blue exchanged a spot
/// with a donor of its own does the same, with red and blue exchanged.
pub proof fn healing_knows_no_channel<T: HealDepth>(
    f: Frame<T>,
    s: SpotView,
    compass: Compass,
    i: int,
)
    requires
        f.well_formed(),
        0 <= i < f.pixels.len(),
        s.source is Some,
    ensures
        ({
            let a = healed(f, seq![s], compass, 1).pixels[i];
            healed(red_for_blue(f), seq![s], compass, 1).pixels[i] == (Rgb {
                r: a.b,
                g: a.g,
                b: a.r,
            })
        }),
{
    let g = red_for_blue(f);
    let p = patch_of(f, s, compass);
    assert(patch_of(g, s, compass) == p);
    reveal_with_fuel(healed, 2);
    let w = f.width;
    let h = f.height;
    assert(w > 0 && h > 0) by (nonlinear_arith)
        requires
            0 <= i < w * h,
            0 <= w,
            0 <= h,
    ;
    lemma_border_exchanged(f, p, compass.ring@, 24);
    let (x, y) = (i % w, i / w);
    lemma_place_near(f, x, y);
    lemma_place_near(f, x + p.ox, y + p.oy);
    let (c, d) = (pixel_near(f, x, y), pixel_near(f, x + p.ox, y + p.oy));
    assert(pixel_near(g, x, y) == (Rgb { r: c.b, g: c.g, b: c.r }));
    assert(pixel_near(g, x + p.ox, y + p.oy) == (Rgb { r: d.b, g: d.g, b: d.r }));
    let e = f.pixels[i];
    assert(g.pixels[i] == (Rgb { r: e.b, g: e.g, b: e.r }));
}

} // verus!
