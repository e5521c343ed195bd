//! The points that prompt a segmenter: a mask's click, and the dabs of the gesture
//! that was brushed over it.

use vstd::prelude::*;
use vstd::string::*;
use crate::fixed::{fixed, fixed_text};
use crate::recipe::{stroke_views, BrushStroke, StrokeView};
use crate::scan::{begins, begins_at, characters};
use crate::segment::{after_line, first_line, lemma_split_line, next_line};
use crate::sidecar::{push_text, texts};
use crate::single::Single;

verus! {

/// The point of one token of a dab stream: what a dab `d x y` says after its letter, as
/// it is spelled. The tokens that set a radius, a flow or a hardness are no points.
pub open spec fn token_point(token: Seq<char>) -> Seq<Seq<char>> {
    if begins(token, "d "@) {
        seq![token.skip(2)]
    } else {
        seq![]
    }
}

/// The points of a dab stream, one token to a line, in order.
pub open spec fn stream_points(s: Seq<char>) -> Seq<Seq<char>>
    decreases s.len(),
{
    if s.len() == 0 {
        seq![]
    } else {
        token_point(first_line(s)) + stream_points(after_line(s))
    }
}

/// The points of a gesture: those of every stroke, in order, doubles and all.
pub open spec fn gesture_points(strokes: Seq<StrokeView>) -> Seq<Seq<char>>
    decreases strokes.len(),
{
    if strokes.len() == 0 {
        seq![]
    } else {
        gesture_points(strokes.drop_last()) + stream_points(strokes.last().dabs)
    }
}

/// A click as a segmenter is told it.
pub open spec fn click(ref_x: Single, ref_y: Single) -> Seq<char> {
    fixed(ref_x) + " "@ + fixed(ref_y)
}

/// The points that a segmenter is sent: the click, and for an object the points of its
/// gesture after it. A subject's gesture and a sky's steer nothing.
pub open spec fn sent_points(
    subtype: u32,
    ref_x: Single,
    ref_y: Single,
    gesture: Seq<Seq<char>>,
) -> Seq<Seq<char>> {
    if subtype == 0 {
        seq![click(ref_x, ref_y)] + gesture
    } else {
        seq![click(ref_x, ref_y)]
    }
}

/// Points on one line, each after a space but the first.
pub open spec fn on_one_line(points: Seq<Seq<char>>) -> Seq<char>
    decreases points.len(),
{
    if points.len() == 0 {
        seq![]
    } else if points.len() == 1 {
        points[0]
    } else {
        on_one_line(points.drop_last()) + " "@ + points.last()
    }
}

/// Adds the points of one dab stream.
fn push_stream(out: &mut Vec<String>, stream: &str)
    ensures
        texts(final(out)@) == texts(old(out)@) + stream_points(stream@),
{
    let v: Vec<char> = characters(stream);
    let dab: Vec<char> = characters("d ");
    let ghost before = texts(out@);
    let mut from: usize = 0;
    assert(v@.skip(0) =~= v@);
    while from < v.len()
        invariant
            v@ == stream@,
            dab@ == "d "@,
            from <= v@.len(),
            before + stream_points(stream@) == texts(out@) + stream_points(v@.skip(from as int)),
        decreases v@.len() - from,
    {
        let ghost here = texts(out@);
        let ghost rest = stream_points(v@.skip(from as int));
        let (end, next) = next_line(&v, from);
        let ghost token = v@.subrange(from as int, end as int);
        proof {
            reveal_strlit("d ");
        }
        if begins_at(&v, from, end, &dab) {
            assert(token.skip(2) =~= v@.subrange(from + 2, end as int));
            push_text(out, stream.substring_char(from + 2, end));
        }
        proof {
            assert(texts(out@) =~= here + token_point(token));
            let later = stream_points(v@.skip(next as int));
            assert(here + (token_point(token) + later) =~= (here + token_point(token)) + later);
        }
        from = next;
    }
    assert(v@.skip(v@.len() as int) =~= Seq::<char>::empty());
    assert(texts(out@) + Seq::<Seq<char>>::empty() =~= texts(out@));
}

/// The points of a gesture.
pub fn points_of(strokes: &Vec<BrushStroke>) -> (r: Vec<String>)
    ensures
        texts(r@) == gesture_points(stroke_views(strokes@)),
{
    let mut out: Vec<String> = Vec::new();
    let ghost all = stroke_views(strokes@);
    assert(all.take(0) =~= Seq::<StrokeView>::empty());
    assert(texts(out@) =~= Seq::<Seq<char>>::empty());
    for i in 0..strokes.len()
        invariant
            all == stroke_views(strokes@),
            texts(out@) == gesture_points(all.take(i as int)),
    {
        push_stream(&mut out, strokes[i].dabs.as_str());
        proof {
            assert(all.take(i + 1).drop_last() =~= all.take(i as int));
            assert(all.take(i + 1).last() == strokes@[i as int]@);
        }
    }
    assert(all.take(all.len() as int) =~= all);
    out
}

/// The points that a segmenter is sent, on one line.
pub fn prompt(subtype: u32, ref_x: Single, ref_y: Single, gesture: &Vec<String>) -> (r: String)
    ensures
        r@ == on_one_line(sent_points(subtype, ref_x, ref_y, texts(gesture@))),
{
    let mut s: String = fixed_text(ref_x);
    s.append(" ");
    s.append(fixed_text(ref_y).as_str());
    if subtype != 0 {
        return s;
    }
    let ghost all = sent_points(subtype, ref_x, ref_y, texts(gesture@));
    for i in 0..gesture.len()
        invariant
            all == seq![click(ref_x, ref_y)] + texts(gesture@),
            s@ == on_one_line(all.take(i + 1)),
    {
        proof {
            let longer = all.take(i + 2);
            assert(longer.drop_last() =~= all.take(i + 1));
            assert(longer.last() == gesture@[i as int]@);
        }
        s.append(" ");
        s.append(gesture[i].as_str());
    }
    assert(all.take(all.len() as int) =~= all);
    s
}

/// Strokes added to a gesture add their points behind its own: nothing is sorted, merged
/// or left out.
pub proof fn gestures_follow_one_another(a: Seq<StrokeView>, b: Seq<StrokeView>)
    ensures
        gesture_points(a + b) == gesture_points(a) + gesture_points(b),
    decreases b.len(),
{
    if b.len() == 0 {
        assert(a + b =~= a);
        assert(gesture_points(a) + gesture_points(b) =~= gesture_points(a));
    } else {
        gestures_follow_one_another(a, b.drop_last());
        assert((a + b).drop_last() =~= a + b.drop_last());
        assert(gesture_points(a + b) =~= gesture_points(a) + gesture_points(b));
    }
}

/// A dab that heads a stream gives its point, as it is spelled, before all that follow;
/// a token with another letter gives none.
pub proof fn a_dab_gives_its_point(point: Seq<char>, other: Seq<char>, rest: Seq<char>)
    requires
        !point.contains('\n') && !point.contains('\r'),
        !other.contains('\n') && !other.contains('\r'),
        other.len() > 0 ==> other[0] != 'd',
    ensures
        stream_points("d "@ + point + "\n"@ + rest) == seq![point] + stream_points(rest),
        stream_points(other + "\n"@ + rest) == stream_points(rest),
{
    reveal_strlit("d ");
    reveal_strlit("\n");
    let dab = "d "@ + point;
    assert(!dab.contains('\n') && !dab.contains('\r')) by {
        assert forall|i: int| 0 <= i < dab.len() implies dab[i] != '\n' && dab[i] != '\r' by {
            if i >= 2 {
                assert(dab[i] == point[i - 2]);
            }
        }
    }
    lemma_split_line(dab, rest);
    lemma_split_line(other, rest);
    assert("\n"@ =~= seq!['\n']);
    assert(dab + "\n"@ + rest == dab + seq!['\n'] + rest);
    assert(other + "\n"@ + rest == other + seq!['\n'] + rest);
    assert((dab + "\n"@ + rest).len() > 0);
    assert((other + "\n"@ + rest).len() > 0);
    assert(dab.skip(2) =~= point);
    assert(dab.take(2) =~= "d "@);
    assert(seq![point] + stream_points(rest) =~= token_point(dab) + stream_points(rest));
    assert(!begins(other, "d "@)) by {
        if begins(other, "d "@) {
            assert(other.take(2)[0] == 'd');
        }
    }
    assert(token_point(other) + stream_points(rest) =~= stream_points(rest));
}

/// A segmenter is sent the click, across and then down, before anything else. Behind it
/// stand an object's points, in the order of its gesture; a subject's gesture and a
/// sky's are not sent.
pub proof fn the_click_is_sent_first(
    subtype: u32,
    ref_x: Single,
    ref_y: Single,
    gesture: Seq<Seq<char>>,
    next: Seq<char>,
)
    ensures
        on_one_line(sent_points(subtype, ref_x, ref_y, seq![])) == fixed(ref_x) + " "@ + fixed(
            ref_y,
        ),
        subtype != 0 ==> sent_points(subtype, ref_x, ref_y, gesture) == sent_points(
            subtype,
            ref_x,
            ref_y,
            seq![],
        ),
        subtype == 0 ==> on_one_line(sent_points(subtype, ref_x, ref_y, gesture.push(next)))
            == on_one_line(sent_points(subtype, ref_x, ref_y, gesture)) + " "@ + next,
{
    let alone = seq![click(ref_x, ref_y)];
    assert(alone + Seq::<Seq<char>>::empty() =~= alone);
    assert(alone.len() == 1 && alone[0] == click(ref_x, ref_y));
    let all = alone + gesture.push(next);
    assert(all.drop_last() =~= alone + gesture);
    assert(all.last() == next);
    assert(all.len() >= 2);
}

} // verus!
