//! What is put in order, picked out and passed on: the knots of a curve, the least and the
//! greatest of a patch, the lines of a run and the reasons for refusing one.

use vstd::prelude::*;
use vstd::string::*;
use crate::detail::largest_delta;
use crate::numbers::HALF;
use crate::painted::PaintedMask;
use crate::patches::{Rect, LARGEST, LEAST};
use crate::replies::lemma_first_place;
use crate::retouch::{refusal, run_spots, Detection};
use crate::scan::{begins, first_of, trim};
use crate::segment::line_end;
use crate::sidecar::own_lines;
use crate::single::{num, Single};
use crate::tone::{arranged, placed, thinned, Knot};
use crate::upright::{horizon_row, mode_row, null_row, Triple};

verus! {

/// The knots stand in order.
pub open spec fn in_order(s: Seq<Knot>) -> bool {
    forall|i: int, j: int| 0 <= i <= j < s.len() ==> (#[trigger] s[i]).rank() <= (#[trigger] s[j]).rank()
}

proof fn lemma_placed(s: Seq<Knot>, k: Knot)
    requires
        in_order(s),
    ensures
        in_order(placed(s, k)),
        placed(s, k).len() == s.len() + 1,
        placed(s, k).to_multiset() == s.to_multiset().insert(k),
        s.len() > 0 ==> placed(s, k).last().rank() >= s.last().rank(),
        placed(s, k).last() == k || s.len() > 0 && placed(s, k).last() == s.last(),
        placed(s, k).last().rank() >= k.rank(),
    decreases s.len(),
{
    broadcast use vstd::seq_lib::group_to_multiset_ensures;

    let p = placed(s, k);
    if s.len() == 0 || s.last().rank() <= k.rank() {
        assert forall|i: int, j: int| 0 <= i <= j < p.len() implies (#[trigger] p[i]).rank() <= (
        #[trigger] p[j]).rank() by {
            if j == s.len() && i < s.len() {
                assert(s[i].rank() <= s[s.len() - 1].rank());
            }
        }
    } else {
        let rest = s.drop_last();
        assert(in_order(rest));
        lemma_placed(rest, k);
        let q = placed(rest, k);
        assert forall|i: int, j: int| 0 <= i <= j < p.len() implies (#[trigger] p[i]).rank() <= (
        #[trigger] p[j]).rank() by {
            if j == p.len() - 1 && i < q.len() {
                assert(q[i].rank() <= q[q.len() - 1].rank());
                if rest.len() > 0 {
                    assert(s[rest.len() - 1].rank() <= s[s.len() - 1].rank());
                    assert(rest.last() == s[rest.len() - 1]);
                }
            }
        }
        assert(s =~= rest.push(s.last()));
        assert(p.to_multiset() =~= s.to_multiset().insert(k));
    }
}

/// The knots of a curve are put in order, and none of those on its way is lost or made up.
pub proof fn knots_are_put_in_order(knots: Seq<Knot>)
    ensures
        in_order(arranged(knots)),
        arranged(knots).to_multiset() == knots.filter(|k: Knot| k.on_curve()).to_multiset(),
    decreases knots.len(),
{
    broadcast use vstd::seq_lib::group_to_multiset_ensures;

    let on = |k: Knot| k.on_curve();
    reveal(Seq::filter);
    if knots.len() > 0 {
        let rest = knots.drop_last();
        knots_are_put_in_order(rest);
        if knots.last().on_curve() {
            lemma_placed(arranged(rest), knots.last());
            assert(knots.filter(on) =~= rest.filter(on).push(knots.last()));
            assert(arranged(knots).to_multiset() =~= knots.filter(on).to_multiset());
        } else {
            assert(knots.filter(on) =~= rest.filter(on));
        }
    }
}

/// Of the knots of one place the first is kept: no two that follow one another stand in one
/// place, and the first of all stays the first.
pub proof fn one_knot_is_kept_of_each_place(s: Seq<Knot>)
    ensures
        forall|i: int|
            0 < i < thinned(s).len() ==> !(#[trigger] thinned(s)[i]).x.equals(thinned(s)[i - 1].x),
        s.len() > 0 ==> thinned(s).len() > 0 && thinned(s)[0] == s[0],
        forall|i: int| 0 <= i < thinned(s).len() ==> s.contains(#[trigger] thinned(s)[i]),
        thinned(s).len() > 0 ==> s.last() == thinned(s).last() || s.last().x.equals(
            thinned(s).last().x,
        ),
    decreases s.len(),
{
    if s.len() > 0 {
        let rest = s.drop_last();
        one_knot_is_kept_of_each_place(rest);
        let t = thinned(s);
        assert forall|i: int| 0 <= i < t.len() implies s.contains(#[trigger] t[i]) by {
            if i < thinned(rest).len() {
                assert(rest.contains(thinned(rest)[i]));
                let j = choose|j: int| 0 <= j < rest.len() && rest[j] == thinned(rest)[i];
                assert(s[j] == t[i]);
            } else {
                assert(s[s.len() - 1] == t[i]);
            }
        }
        if rest.len() == 0 {
            assert(thinned(rest).len() == 0);
        }
    }
}

/// The largest difference is the difference of some pair, and no pair differs by more.
pub proof fn the_largest_difference_is_one(a: Seq<u8>, b: Seq<u8>, n: nat)
    requires
        0 < n <= a.len(),
        n <= b.len(),
    ensures
        exists|i: int|
            0 <= i < n && (#[trigger] a[i] - b[i] == largest_delta(a, b, n) || b[i] - a[i]
                == largest_delta(a, b, n)),
        forall|i: int|
            0 <= i < n ==> -largest_delta(a, b, n) <= #[trigger] a[i] - b[i] <= largest_delta(
                a,
                b,
                n,
            ),
    decreases n,
{
    let before = largest_delta(a, b, (n - 1) as nat);
    let last = a[n - 1] - b[n - 1];
    if n > 1 {
        the_largest_difference_is_one(a, b, (n - 1) as nat);
        if largest_delta(a, b, n) == before {
            let i = choose|i: int|
                0 <= i < n - 1 && (#[trigger] a[i] - b[i] == before || b[i] - a[i] == before);
            assert(a[i] - b[i] == largest_delta(a, b, n) || b[i] - a[i] == largest_delta(a, b, n));
        } else {
            assert(a[n - 1] - b[n - 1] == largest_delta(a, b, n) || b[n - 1] - a[n - 1]
                == largest_delta(a, b, n));
        }
    } else {
        assert(before == 0);
        assert(a[0] - b[0] == largest_delta(a, b, n) || b[0] - a[0] == largest_delta(a, b, n));
    }
}

/// The extremes of a patch are its own: no pixel of it lies below the least or above the
/// greatest, and each of them is the level of one of its pixels.
pub proof fn extremes_are_levels_of_the_patch(r: Rect, plane: Seq<Single>, k: nat)
    requires
        k > 0,
        forall|i: int| 0 <= i < k ==> (#[trigger] plane[r.pixel(i)]).finite(),
    ensures
        forall|i: int|
            0 <= i < k ==> r.lowest(plane, k).at_most(#[trigger] plane[r.pixel(i)]) && plane[r.pixel(
                i,
            )].at_most(r.highest(plane, k)),
        r.lowest(plane, k) == num(LARGEST) || exists|i: int|
            0 <= i < k && r.lowest(plane, k) == #[trigger] plane[r.pixel(i)],
        r.highest(plane, k) == num(LEAST) || exists|i: int|
            0 <= i < k && r.highest(plane, k) == #[trigger] plane[r.pixel(i)],
    decreases k,
{
    let last = plane[r.pixel(k - 1)];
    assert(last.finite());
    if k > 1 {
        extremes_are_levels_of_the_patch(r, plane, (k - 1) as nat);
        let (lo, hi) = (r.lowest(plane, (k - 1) as nat), r.highest(plane, (k - 1) as nat));
        assert(lo.at_most(plane[r.pixel(0)]));
        assert(plane[r.pixel(0)].at_most(hi));
        if lo != num(LARGEST) && r.lowest(plane, k) == lo {
            let i = choose|i: int| 0 <= i < k - 1 && lo == #[trigger] plane[r.pixel(i)];
            assert(r.lowest(plane, k) == plane[r.pixel(i)]);
        }
        if hi != num(LEAST) && r.highest(plane, k) == hi {
            let i = choose|i: int| 0 <= i < k - 1 && hi == #[trigger] plane[r.pixel(i)];
            assert(r.highest(plane, k) == plane[r.pixel(i)]);
        }
    }
    assert forall|i: int| 0 <= i < k implies r.lowest(plane, k).at_most(#[trigger] plane[r.pixel(i)])
        && plane[r.pixel(i)].at_most(r.highest(plane, k)) by {
        if i < k - 1 {
            assert(r.lowest(plane, (k - 1) as nat).at_most(plane[r.pixel(i)]));
        }
    }
}

/// A run is refused if and only if it has nothing to heal, and a run whose only input failed
/// is refused with what it failed of.
pub proof fn a_run_is_refused_if_there_is_nothing_to_heal(
    mask: Option<&PaintedMask>,
    detection: Detection,
)
    ensures
        refusal(mask, detection) is None <==> run_spots(mask, detection).len() > 0,
        mask is None && detection is Failed ==> refusal(mask, detection) == Some(
            detection->Failed_0@,
        ),
{
}

/// The mode for vertical lines asks the vertical lines alone; the others ask the horizon
/// first, the vertical lines' point next and the horizontal lines' last, and the automatic
/// mode goes half as far as the full one.
pub proof fn every_mode_asks_its_lines(v: Option<Triple>, h: Option<Triple>, other: Option<Triple>)
    ensures
        mode_row(3, v, h) == mode_row(3, v, other),
        v is None ==> mode_row(3, v, h) is None,
        v is Some && h is Some && horizon_row(v->0, h->0) is Some ==> mode_row(4, v, h)
            == horizon_row(v->0, h->0),
        v is Some && h is Some && horizon_row(v->0, h->0) is None ==> mode_row(4, v, h) == mode_row(
            3,
            v,
            h,
        ),
        v is Some && h is None ==> mode_row(4, v, h) == mode_row(3, v, h),
        v is None && h is Some ==> mode_row(4, v, h) == null_row(h->0),
        v is None && h is None ==> mode_row(4, v, h) is None,
        mode_row(1, v, h) is Some <==> mode_row(4, v, h) is Some,
        mode_row(4, v, h) is Some ==> (mode_row(1, v, h)->0).x == (mode_row(4, v, h)->0).x.product(
            num(HALF),
        ) && (mode_row(1, v, h)->0).y == (mode_row(4, v, h)->0).y.product(num(HALF)),
{
}

proof fn lemma_no_break(line: Seq<char>, c: char, rest: Seq<char>, d: char)
    requires
        !line.contains(c),
        c != d,
    ensures
        first_of(line + seq![d] + rest, c) > line.len(),
    decreases line.len(),
{
    let s = line + seq![d] + rest;
    reveal_with_fuel(first_of, 2);
    if line.len() > 0 {
        let t = line.skip(1);
        assert(line.contains(line[0]));
        assert(!t.contains(c)) by {
            if t.contains(c) {
                let i = choose|i: int| 0 <= i < t.len() && t[i] == c;
                assert(line[i + 1] == c);
            }
        }
        lemma_no_break(t, c, rest, d);
        assert(s.skip(1) =~= t + seq![d] + rest);
        assert(s[0] == line[0]);
    } else {
        assert(s[0] == d);
    }
}

/// A line that the sidecar wrote itself is passed on, trimmed and under the tool's mark; any
/// other is not; and the lines behind it are passed on after it.
pub proof fn a_line_is_passed_on_by_its_mark(line: Seq<char>, rest: Seq<char>)
    requires
        !line.contains('\n'),
        !line.contains('\r'),
    ensures
        begins(trim(line), "segment.py:"@) || begins(trim(line), "[denoise]"@) ==> own_lines(
            line + seq!['\n'] + rest,
        ) == seq!["[segment] "@ + trim(line)] + own_lines(rest),
        !begins(trim(line), "segment.py:"@) && !begins(trim(line), "[denoise]"@) ==> own_lines(
            line + seq!['\n'] + rest,
        ) == own_lines(rest),
{
    let s = line + seq!['\n'] + rest;
    lemma_first_place(line, '\n', rest);
    lemma_no_break(line, '\r', rest, '\n');
    assert(line_end(s) == line.len());
    assert(s.take(line.len() as int) =~= line);
    assert(s.skip(line.len() as int + 1) =~= rest);
    assert(Seq::<Seq<char>>::empty() + own_lines(rest) =~= own_lines(rest));
}

} // verus!
