//! A camera profile's tone curve, and the colours that its tables are indexed by.

use vstd::prelude::*;
use crate::heal::Rgb;
use crate::numbers::{FOUR, ONE, SIXTY, TURN, TWO, ZERO};
use crate::profile::{FLAT, SIX, VISIBLE};
use crate::single::{num, Single};
use crate::whole::kept_between;

verus! {

/// The samples that a tone curve is resolved to.
pub const TONE_LUT: usize = 1024;

/// A point of a tone curve.
#[derive(Clone, Copy, Debug)]
pub struct Knot {
    pub x: Single,
    pub y: Single,
}

impl Knot {
    /// The knot lies on the curve's way from nought to one.
    pub open spec fn on_curve(self) -> bool {
        num(ZERO).at_most(self.x) && self.x.at_most(num(ONE))
    }

    /// Where the knot stands among those on the curve. The negative nought
    /// stands before the other.
    pub open spec fn rank(self) -> int {
        if self.x.negative() {
            -1 - self.x.code()
        } else {
            self.x.code()
        }
    }
}

/// `s` with `k` behind all that stand no later than it.
pub open spec fn placed(s: Seq<Knot>, k: Knot) -> Seq<Knot>
    decreases s.len(),
{
    if s.len() == 0 || s.last().rank() <= k.rank() {
        s.push(k)
    } else {
        placed(s.drop_last(), k).push(s.last())
    }
}

/// The knots on the curve in their order, those of one place as they were given.
pub open spec fn arranged(knots: Seq<Knot>) -> Seq<Knot>
    decreases knots.len(),
{
    if knots.len() == 0 {
        knots
    } else if knots.last().on_curve() {
        placed(arranged(knots.drop_last()), knots.last())
    } else {
        arranged(knots.drop_last())
    }
}

/// The knots with only the first of each place.
pub open spec fn thinned(s: Seq<Knot>) -> Seq<Knot>
    decreases s.len(),
{
    if s.len() == 0 {
        s
    } else {
        let rest = thinned(s.drop_last());
        if rest.len() > 0 && s.last().x.equals(rest.last().x) {
            rest
        } else {
            rest.push(s.last())
        }
    }
}

/// How many knots from the front stand no later than `x`.
pub open spec fn reached(s: Seq<Knot>, x: Single) -> nat
    decreases s.len(),
{
    if s.len() > 0 && s[0].x.at_most(x) {
        1 + reached(s.skip(1), x)
    } else {
        0
    }
}

/// The curve at `x`: straight between knots, and level beyond them.
pub open spec fn curve_at(s: Seq<Knot>, x: Single) -> Single {
    let j = reached(s, x) as int;
    if 0 < j < s.len() {
        let a = s[j - 1];
        let b = s[j];
        a.y.sum(
            b.y.difference(a.y).product(x.difference(a.x)).quotient(b.x.difference(a.x)),
        )
    } else if j > 0 {
        s[j - 1].y
    } else if s.len() > 0 {
        s[0].y
    } else {
        x
    }
}

/// Where sample `i` lies.
pub open spec fn sample_at(i: int) -> Single {
    Single::of_whole(i).quotient(Single::of_whole(1023))
}

/// The curve, sampled.
pub open spec fn sampled(s: Seq<Knot>) -> Seq<Single> {
    Seq::new(TONE_LUT as nat, |i: int| curve_at(s, sample_at(i)))
}

/// Sample `i` is off the straight line.
pub open spec fn bent(lut: Seq<Single>, i: int) -> bool {
    num(VISIBLE).less(lut[i].difference(sample_at(i)).absolute())
}

/// A profile's curve as samples; none for a curve of less than two knots, and
/// none for the straight line.
pub open spec fn tone_samples(knots: Seq<Knot>) -> Option<Seq<Single>> {
    let s = thinned(arranged(knots));
    if knots.len() < 2 || s.len() < 2 {
        None
    } else if exists|i: int| 0 <= i < TONE_LUT && #[trigger] bent(sampled(s), i) {
        Some(sampled(s))
    } else {
        None
    }
}

fn rank_le(a: Knot, b: Knot) -> (r: bool)
    ensures
        r == (a.rank() <= b.rank()),
{
    let x: u32 = a.x.magnitude_code();
    let y: u32 = b.x.magnitude_code();
    if a.x.is_sign_negative() {
        if b.x.is_sign_negative() {
            x >= y
        } else {
            true
        }
    } else if b.x.is_sign_negative() {
        false
    } else {
        x <= y
    }
}

/// Puts a knot behind all that stand no later than it.
fn place(s: &mut Vec<Knot>, k: Knot)
    ensures
        final(s)@ == placed(old(s)@, k),
{
    let ghost before = s@;
    let mut at: usize = s.len();
    assert(before.take(at as int) =~= before);
    assert(before.skip(at as int) =~= Seq::<Knot>::empty());
    assert(placed(before, k) =~= placed(before.take(at as int), k) + before.skip(at as int));
    while at > 0 && !rank_le(s[at - 1], k)
        invariant
            at <= before.len(),
            s@ == before,
            placed(before, k) == placed(before.take(at as int), k) + before.skip(at as int),
        decreases at,
    {
        proof {
            let t = before.take(at as int);
            assert(t.last() == before[at - 1]);
            assert(t.drop_last() =~= before.take(at - 1));
            assert(placed(t, k) == placed(before.take(at - 1), k).push(before[at - 1]));
            assert(placed(t, k) + before.skip(at as int) =~= placed(before.take(at - 1), k)
                + before.skip(at - 1));
        }
        at = at - 1;
    }
    proof {
        let t = before.take(at as int);
        if at > 0 {
            assert(t.last() == before[at - 1]);
        }
        assert(placed(t, k) == t.push(k));
        assert(before.insert(at as int, k) =~= t.push(k) + before.skip(at as int));
    }
    s.insert(at, k);
}

/// The knots on the curve, in order.
fn arrange(knots: &Vec<Knot>) -> (r: Vec<Knot>)
    ensures
        r@ == arranged(knots@),
{
    let zero: Single = Single::from_bits(ZERO);
    let one: Single = Single::from_bits(ONE);
    let mut r: Vec<Knot> = Vec::new();
    let n: usize = knots.len();
    assert(knots@.take(0) =~= Seq::<Knot>::empty());
    for i in 0..n
        invariant
            n == knots@.len(),
            zero == num(ZERO),
            one == num(ONE),
            r@ == arranged(knots@.take(i as int)),
    {
        let k: Knot = knots[i];
        assert(knots@.take(i + 1).drop_last() =~= knots@.take(i as int));
        if zero.le(k.x) && k.x.le(one) {
            place(&mut r, k);
        }
    }
    assert(knots@.take(n as int) =~= knots@);
    r
}

fn thin(s: &Vec<Knot>) -> (r: Vec<Knot>)
    ensures
        r@ == thinned(s@),
{
    let mut r: Vec<Knot> = Vec::new();
    let n: usize = s.len();
    assert(s@.take(0) =~= Seq::<Knot>::empty());
    for i in 0..n
        invariant
            n == s@.len(),
            r@ == thinned(s@.take(i as int)),
    {
        let k: Knot = s[i];
        let m: usize = r.len();
        assert(s@.take(i + 1).drop_last() =~= s@.take(i as int));
        let same: bool = m > 0 && k.x.le(r[m - 1].x) && r[m - 1].x.le(k.x);
        if !same {
            r.push(k);
        }
    }
    assert(s@.take(n as int) =~= s@);
    r
}

/// The curve at a place.
fn at_place(s: &Vec<Knot>, x: Single) -> (r: Single)
    ensures
        r == curve_at(s@, x),
{
    let n: usize = s.len();
    let mut j: usize = 0;
    assert(s@.skip(0) =~= s@);
    while j < n && s[j].x.le(x)
        invariant
            j <= n,
            n == s@.len(),
            reached(s@, x) == j + reached(s@.skip(j as int), x),
        decreases n - j,
    {
        assert(s@.skip(j as int).skip(1) =~= s@.skip(j + 1));
        j = j + 1;
    }
    assert(reached(s@.skip(j as int), x) == 0);
    if j > 0 && j < n {
        let a: Knot = s[j - 1];
        let b: Knot = s[j];
        a.y.plus(b.y.minus(a.y).times(x.minus(a.x)).over(b.x.minus(a.x)))
    } else if j > 0 {
        s[j - 1].y
    } else if n > 0 {
        s[0].y
    } else {
        x
    }
}

pub fn tone_lut(knots: &Vec<Knot>) -> (r: Option<Vec<Single>>)
    ensures
        match r {
            Some(v) => tone_samples(knots@) == Some(v@),
            None => tone_samples(knots@) is None,
        },
{
    if knots.len() < 2 {
        return None;
    }
    let s: Vec<Knot> = thin(&arrange(knots));
    if s.len() < 2 {
        return None;
    }
    let top: Single = Single::from_u64(1023);
    let mut lut: Vec<Single> = Vec::new();
    let mut straight: bool = true;
    let ghost full = sampled(s@);
    for i in 0..TONE_LUT
        invariant
            top == Single::of_whole(1023),
            full == sampled(s@),
            lut@ == full.take(i as int),
            straight == (forall|j: int| 0 <= j < i ==> !#[trigger] bent(full, j)),
    {
        let x: Single = Single::from_u64(i as u64).over(top);
        let v: Single = at_place(&s, x);
        lut.push(v);
        proof {
            assert(full.take(i + 1) =~= full.take(i as int).push(full[i as int]));
        }
        if Single::from_bits(VISIBLE).lt(v.minus(x).abs()) {
            assert(bent(full, i as int));
            straight = false;
        }
    }
    assert(full.take(TONE_LUT as int) =~= full);
    if straight {
        None
    } else {
        Some(lut)
    }
}

/// A sampled curve at its top sample and above: on at the slope of its last step, so
/// that a highlight beyond one is carried and not clipped. A curve of one sample is
/// level.
pub open spec fn beyond_top(lut: Seq<Single>, x: Single) -> Single {
    let n = lut.len();
    if n < 2 {
        lut[n - 1]
    } else {
        let slope = lut[n - 1].difference(lut[n - 2]).product(Single::of_whole(n - 1));
        lut[n - 1].sum(x.difference(num(ONE)).product(slope))
    }
}

/// A sampled curve at `x`, straight between samples. Above one it keeps its slope at
/// the top, and below nought it is nought.
pub open spec fn looked_up(lut: Seq<Single>, x: Single) -> Single {
    let n = lut.len();
    let s = x.product(Single::of_whole(n - 1));
    let i = kept_between(s.floored().cast(0, u64::MAX as int), 0, n - 1);
    let next = if i + 1 < n {
        i + 1
    } else {
        n - 1
    };
    if x.at_most(num(ZERO)) {
        lut[0].product(x.larger(num(ZERO)))
    } else if num(ONE).at_most(x) {
        beyond_top(lut, x)
    } else {
        lut[i].sum(lut[next].difference(lut[i]).product(s.difference(Single::of_whole(i))))
    }
}

pub fn sample(lut: &Vec<Single>, x: Single) -> (r: Single)
    requires
        lut@.len() > 0,
    ensures
        r == looked_up(lut@, x),
{
    let n: usize = lut.len();
    let zero: Single = Single::from_bits(ZERO);
    if x.le(zero) {
        return lut[0].times(x.max(zero));
    }
    if Single::from_bits(ONE).le(x) {
        if n < 2 {
            return lut[n - 1];
        }
        let slope: Single = lut[n - 1].minus(lut[n - 2]).times(Single::from_u64((n - 1) as u64));
        return lut[n - 1].plus(x.minus(Single::from_bits(ONE)).times(slope));
    }
    let s: Single = x.times(Single::from_u64((n - 1) as u64));
    let k: u64 = s.floor().to_u64();
    let i: usize = if k > (n - 1) as u64 {
        n - 1
    } else {
        k as usize
    };
    let next: usize = if i < n - 1 {
        i + 1
    } else {
        n - 1
    };
    let f: Single = s.minus(Single::from_u64(i as u64));
    lut[i].plus(lut[next].minus(lut[i]).times(f))
}

/// The channels of a colour from the brightest to the darkest.
pub open spec fn by_brightness(c: Seq<Single>) -> (int, int, int) {
    let (h0, m0) = if c[0].less(c[1]) {
        (1int, 0int)
    } else {
        (0int, 1int)
    };
    let (m1, l1) = if c[m0].less(c[2]) {
        (2int, m0)
    } else {
        (m0, 2int)
    };
    if c[h0].less(c[m1]) {
        (m1, h0, l1)
    } else {
        (h0, m1, l1)
    }
}

/// A curve on a colour: on its brightest and its darkest channel, and the third
/// where it was between them.
pub open spec fn toned(c: Seq<Single>, lut: Seq<Single>) -> Seq<Single> {
    let (hi, mid, lo) = by_brightness(c);
    let a = looked_up(lut, c[hi]);
    let b = looked_up(lut, c[lo]);
    let span = c[hi].difference(c[lo]);
    let m = if num(FLAT).less(span) {
        b.sum(a.difference(b).product(c[mid].difference(c[lo])).quotient(span))
    } else {
        b
    };
    Seq::new(
        3,
        |i: int|
            if i == lo {
                b
            } else if i == mid {
                m
            } else {
                a
            },
    )
}

pub fn adobe_tone(rgb: [Single; 3], lut: &Vec<Single>) -> (r: [Single; 3])
    requires
        lut@.len() > 0,
    ensures
        r@ == toned(rgb@, lut@),
{
    let (h0, m0): (usize, usize) = if rgb[0].lt(rgb[1]) {
        (1, 0)
    } else {
        (0, 1)
    };
    let (m1, lo): (usize, usize) = if rgb[m0].lt(rgb[2]) {
        (2, m0)
    } else {
        (m0, 2)
    };
    let (hi, mid): (usize, usize) = if rgb[h0].lt(rgb[m1]) {
        (m1, h0)
    } else {
        (h0, m1)
    };
    let a: Single = sample(lut, rgb[hi]);
    let b: Single = sample(lut, rgb[lo]);
    let span: Single = rgb[hi].minus(rgb[lo]);
    let m: Single = if Single::from_bits(FLAT).lt(span) {
        b.plus(a.minus(b).times(rgb[mid].minus(rgb[lo])).over(span))
    } else {
        b
    };
    let mut out: [Single; 3] = [b, b, b];
    out[hi] = a;
    out[mid] = m;
    out[lo] = b;
    assert(out@ =~= toned(rgb@, lut@));
    out
}

/// A tone curve moves every channel of a colour once: the brightest, the middle
/// and the darkest are three different channels, in that order.
pub proof fn brightness_orders_all_channels(c: Seq<Single>)
    ensures
        ({
            let (hi, mid, lo) = by_brightness(c);
            &&& 0 <= hi < 3 && 0 <= mid < 3 && 0 <= lo < 3
            &&& hi != mid && mid != lo && hi != lo
            &&& !c[0].nan() && !c[1].nan() && !c[2].nan() ==> {
                &&& c[lo].at_most(c[mid])
                &&& c[mid].at_most(c[hi])
            }
        }),
{
}

/// Three channels that are numbers, no two of them equal.
pub open spec fn distinct(c: Seq<Single>) -> bool {
    &&& c.len() == 3
    &&& forall|i: int| 0 <= i < 3 ==> !(#[trigger] c[i]).nan()
    &&& forall|i: int, j: int|
        0 <= i < 3 && 0 <= j < 3 && i != j ==> !(#[trigger] c[i]).equals(#[trigger] c[j])
}

/// The channel that is brighter than the others becomes the curve at its value, and so does
/// the one that is darker than the others.
pub proof fn the_ends_of_a_colour_follow_the_curve(c: Seq<Single>, lut: Seq<Single>, i: int)
    requires
        c.len() == 3,
        0 <= i < 3,
        forall|j: int| 0 <= j < 3 ==> !(#[trigger] c[j]).nan(),
        (forall|j: int| 0 <= j < 3 && j != i ==> (#[trigger] c[j]).less(c[i])) || (forall|j: int|
            0 <= j < 3 && j != i ==> c[i].less(#[trigger] c[j])),
    ensures
        toned(c, lut)[i] == looked_up(lut, c[i]),
{
    assert(!c[0].nan() && !c[1].nan() && !c[2].nan());
    let (hi, mid, lo) = by_brightness(c);
    brightness_orders_all_channels(c);
    assert(c[hi].less(c[i]) || c[i].less(c[hi]) || hi == i);
    assert(c[mid].less(c[i]) || c[i].less(c[mid]) || mid == i);
    assert(c[lo].less(c[i]) || c[i].less(c[lo]) || lo == i);
}

/// A colour with two of its channels exchanged.
pub open spec fn exchanging(c: Seq<Single>, i: int, j: int) -> Seq<Single> {
    c.update(i, c[j]).update(j, c[i])
}

/// A tone curve knows no channel from another: exchanging two channels of a colour
/// exchanges them in the result.
pub proof fn a_tone_curve_knows_no_channel(c: Seq<Single>, lut: Seq<Single>, i: int, j: int)
    requires
        distinct(c),
        0 <= i < 3,
        0 <= j < 3,
    ensures
        toned(exchanging(c, i, j), lut) == exchanging(toned(c, lut), i, j),
{
    let d = exchanging(c, i, j);
    let (hi, mid, lo) = by_brightness(c);
    lemma_strictly_ordered(c);
    let top = exchanged_place(hi, i, j);
    let between = exchanged_place(mid, i, j);
    let bottom = exchanged_place(lo, i, j);
    assert(d[top] == c[hi] && d[between] == c[mid] && d[bottom] == c[lo]);
    lemma_order_is_one(d, top, between, bottom);
    let x = toned(c, lut);
    let y = toned(d, lut);
    assert(y[top] == x[hi]);
    assert(y[between] == x[mid]);
    assert(y[bottom] == x[lo]);
    assert forall|k: int| 0 <= k < 3 implies y[k] == exchanging(x, i, j)[k] by {
        assert(k == top || k == between || k == bottom);
    }
    assert(y =~= exchanging(x, i, j));
}

/// Where a channel goes.
spec fn exchanged_place(k: int, i: int, j: int) -> int {
    if k == i {
        j
    } else if k == j {
        i
    } else {
        k
    }
}

proof fn lemma_strictly_ordered(c: Seq<Single>)
    requires
        distinct(c),
    ensures
        ({
            let (hi, mid, lo) = by_brightness(c);
            &&& c[lo].less(c[mid])
            &&& c[mid].less(c[hi])
            &&& 0 <= hi < 3 && 0 <= mid < 3 && 0 <= lo < 3
            &&& hi != mid && mid != lo && hi != lo
        }),
{
    assert(!c[0].equals(c[1]) && !c[0].equals(c[2]) && !c[1].equals(c[2]));
    assert(!c[0].nan() && !c[1].nan() && !c[2].nan());
}

/// There is one order of three different channels.
proof fn lemma_order_is_one(d: Seq<Single>, a: int, b: int, e: int)
    requires
        0 <= a < 3 && 0 <= b < 3 && 0 <= e < 3,
        a != b && b != e && a != e,
        d[e].less(d[b]),
        d[b].less(d[a]),
    ensures
        by_brightness(d) == (a, b, e),
{
}

/// A grey stays grey under any curve.
pub proof fn a_grey_stays_grey(v: Single, lut: Seq<Single>)
    requires
        v.finite(),
    ensures
        toned(seq![v, v, v], lut) == seq![
            looked_up(lut, v),
            looked_up(lut, v),
            looked_up(lut, v),
        ],
{
    let c = seq![v, v, v];
    assert(!v.less(v));
    assert(by_brightness(c) == (0int, 1int, 2int));
    lemma_no_span(v);
    assert(toned(c, lut) =~= seq![looked_up(lut, v), looked_up(lut, v), looked_up(lut, v)]);
}

proof fn lemma_no_span(v: Single)
    requires
        v.finite(),
    ensures
        !num(FLAT).less(v.difference(v)),
{
    reveal(Single::sum);
}

/// Hue in degrees, saturation and value.
#[derive(Clone, Copy, Debug)]
pub struct Hsv {
    pub h: Single,
    pub s: Single,
    pub v: Single,
}

/// The hue, saturation and value of a colour. A grey has a hue of nought.
pub open spec fn hsv_of(c: Rgb<Single>) -> Hsv {
    let v = c.r.larger(c.g).larger(c.b);
    let m = c.r.smaller(c.g).smaller(c.b);
    let d = v.difference(m);
    let h = if v.equals(c.r) {
        c.g.difference(c.b).quotient(d).euclidean_remainder(num(SIX))
    } else if v.equals(c.g) {
        c.b.difference(c.r).quotient(d).sum(num(TWO))
    } else {
        c.r.difference(c.g).quotient(d).sum(num(FOUR))
    };
    if d.at_most(num(ZERO)) || v.at_most(num(ZERO)) {
        Hsv { h: num(ZERO), s: num(ZERO), v: v.larger(num(ZERO)) }
    } else {
        Hsv { h: h.product(num(SIXTY)).euclidean_remainder(num(TURN)), s: d.quotient(v), v }
    }
}

pub fn to_hsv(c: Rgb<Single>) -> (r: Hsv)
    ensures
        r == hsv_of(c),
{
    let zero: Single = Single::from_bits(ZERO);
    let v: Single = c.r.max(c.g).max(c.b);
    let m: Single = c.r.min(c.g).min(c.b);
    let d: Single = v.minus(m);
    if d.le(zero) || v.le(zero) {
        return Hsv { h: zero, s: zero, v: v.max(zero) };
    }
    let h: Single = if v.le(c.r) && c.r.le(v) {
        c.g.minus(c.b).over(d).rem_euclid(Single::from_bits(SIX))
    } else if v.le(c.g) && c.g.le(v) {
        c.b.minus(c.r).over(d).plus(Single::from_bits(TWO))
    } else {
        c.r.minus(c.g).over(d).plus(Single::from_bits(FOUR))
    };
    Hsv { h: h.times(Single::from_bits(SIXTY)).rem_euclid(Single::from_bits(TURN)), s: d.over(v), v }
}

/// The sixth of the circle that a number of sixths lies in.
pub open spec fn sector(k: int) -> int {
    if k >= 0 || k % 6 == 0 {
        k % 6
    } else {
        5
    }
}

/// The colour of a hue, saturation and value.
pub open spec fn rgb_of(c: Hsv) -> Rgb<Single> {
    let h = c.h.euclidean_remainder(num(TURN)).quotient(num(SIXTY));
    let s = c.s.clamped(num(ZERO), num(ONE));
    let v = c.v.larger(num(ZERO));
    let f = h.difference(h.floored());
    let p = v.product(num(ONE).difference(s));
    let q = v.product(num(ONE).difference(s.product(f)));
    let t = v.product(num(ONE).difference(s.product(num(ONE).difference(f))));
    let k = sector(h.floored().cast(i32::MIN as int, i32::MAX as int));
    if k == 0 {
        Rgb { r: v, g: t, b: p }
    } else if k == 1 {
        Rgb { r: q, g: v, b: p }
    } else if k == 2 {
        Rgb { r: p, g: v, b: t }
    } else if k == 3 {
        Rgb { r: p, g: q, b: v }
    } else if k == 4 {
        Rgb { r: t, g: p, b: v }
    } else {
        Rgb { r: v, g: p, b: q }
    }
}

pub fn from_hsv(c: Hsv) -> (r: Rgb<Single>)
    ensures
        r == rgb_of(c),
{
    let zero: Single = Single::from_bits(ZERO);
    let one: Single = Single::from_bits(ONE);
    let h: Single = c.h.rem_euclid(Single::from_bits(TURN)).over(Single::from_bits(SIXTY));
    let s: Single = c.s.clamp(zero, one);
    let v: Single = c.v.max(zero);
    let i: Single = h.floor();
    let f: Single = h.minus(i);
    let p: Single = v.times(one.minus(s));
    let q: Single = v.times(one.minus(s.times(f)));
    let t: Single = v.times(one.minus(s.times(one.minus(f))));
    // A multiple of six keeps the number above nought.
    let n: i64 = i.to_i32() as i64;
    let sixth: i64 = (n + 0x8000_0004) % 6;
    let k: i64 = if n < 0 && sixth != 0 {
        5
    } else {
        sixth
    };
    if k == 0 {
        Rgb { r: v, g: t, b: p }
    } else if k == 1 {
        Rgb { r: q, g: v, b: p }
    } else if k == 2 {
        Rgb { r: p, g: v, b: t }
    } else if k == 3 {
        Rgb { r: p, g: q, b: v }
    } else if k == 4 {
        Rgb { r: t, g: p, b: v }
    } else {
        Rgb { r: v, g: p, b: q }
    }
}

} // verus!
