//! What is read out of a model's reply and of the sidecar's report.

use vstd::prelude::*;
use vstd::string::*;
use crate::detect::{
    ends, fenced, first_item, first_part, item_text, kept, output_part, reply_text, sized, tidied,
    without_strokes, Json,
};
use crate::numbers::{ONE, ZERO};
use crate::reals::{lemma_ends, lemma_order_real, real_of, size};
use crate::scan::{
    begins, bracketed, contains, first_of, occurs_at, trim, trim_end, trim_start, white,
};
use crate::segment::{read_line, stale, ReportView};
use crate::single::num;
use crate::spots::SpotView;
use crate::stamping::{held, lemma_held};

verus! {

/// Nothing but white space.
pub open spec fn blank(s: Seq<char>) -> bool {
    forall|i: int| 0 <= i < s.len() ==> white(#[trigger] s[i])
}

/// A text that neither begins nor ends with white space.
pub open spec fn tight(s: Seq<char>) -> bool {
    s.len() > 0 ==> !white(s[0]) && !white(s.last())
}

proof fn lemma_blank_front(w: Seq<char>, t: Seq<char>)
    requires
        blank(w),
        t.len() > 0 ==> !white(t[0]),
    ensures
        trim_start(w + t) == t,
    decreases w.len(),
{
    if w.len() == 0 {
        assert(w + t =~= t);
    } else {
        assert(white(w[0]));
        let rest = w.skip(1);
        assert forall|i: int| 0 <= i < rest.len() implies white(#[trigger] rest[i]) by {
            assert(rest[i] == w[i + 1]);
        }
        lemma_blank_front(rest, t);
        assert((w + t).skip(1) =~= rest + t);
        assert((w + t)[0] == w[0]);
    }
}

proof fn lemma_blank_back(t: Seq<char>, w: Seq<char>)
    requires
        blank(w),
        t.len() > 0 ==> !white(t.last()),
    ensures
        trim_end(t + w) == t,
    decreases w.len(),
{
    if w.len() == 0 {
        assert(t + w =~= t);
    } else {
        assert(white(w.last()));
        let rest = w.drop_last();
        lemma_blank_back(t, rest);
        assert((t + w).drop_last() =~= t + rest);
        assert((t + w).last() == w.last());
    }
}

proof fn lemma_blank_is_nothing(w: Seq<char>)
    requires
        blank(w),
    ensures
        trim_start(w) == Seq::<char>::empty(),
{
    lemma_blank_front(w, seq![]);
    assert(w + Seq::<char>::empty() =~= w);
}

/// White space around a text is cut off, and nothing else.
pub proof fn trimming_cuts_the_white_space(a: Seq<char>, t: Seq<char>, b: Seq<char>)
    requires
        blank(a),
        blank(b),
        tight(t),
    ensures
        trim(a + t + b) == t,
{
    if t.len() == 0 {
        let w = a + t + b;
        assert forall|i: int| 0 <= i < w.len() implies white(#[trigger] w[i]) by {
            if i < a.len() {
                assert(w[i] == a[i]);
            } else {
                assert(w[i] == b[i - a.len()]);
            }
        }
        lemma_blank_is_nothing(w);
        assert(t =~= Seq::<char>::empty());
    } else {
        assert(a + t + b =~= a + (t + b));
        assert((t + b)[0] == t[0]);
        lemma_blank_front(a, t + b);
        lemma_blank_back(t, b);
    }
}

/// What stands in a code fence comes out of it whole and alone, whether the fence names its
/// language or not and whatever white space stands about.
pub proof fn a_fence_is_taken_off(
    a: Seq<char>,
    b: Seq<char>,
    body: Seq<char>,
    c: Seq<char>,
    d: Seq<char>,
)
    requires
        blank(a) && blank(b) && blank(c) && blank(d),
        body.len() > 0,
        tight(body),
        b.len() > 0,
    ensures
        fenced(a + ("```json"@ + b + body + c + "```"@) + d) == body,
        fenced(a + ("```"@ + b + body + c + "```"@) + d) == body,
{
    reveal_strlit("```json");
    reveal_strlit("```");
    let (long, short) = ("```json"@, "```"@);
    let s = long + b + body + c + short;
    let t = short + b + body + c + short;
    assert(s[0] == '`' && s.last() == '`');
    assert(t[0] == '`' && t.last() == '`');
    trimming_cuts_the_white_space(a, s, d);
    trimming_cuts_the_white_space(a, t, d);
    let mid = b + body + c;
    let inner = mid + short;
    assert(s.take(7) =~= long);
    assert(s.skip(7) =~= inner);
    assert(t.take(3) =~= short);
    assert(t.skip(3) =~= inner);
    assert(!begins(t, long)) by {
        if begins(t, long) {
            assert(t.take(7)[3] == long[3]);
            assert(t[3] == b[0]);
            assert(white(b[0]));
        }
    }
    assert(inner.skip(inner.len() - 3) =~= short);
    assert(ends(inner, short));
    assert(inner.take(inner.len() - 3) =~= mid);
    trimming_cuts_the_white_space(b, body, c);
}

/// A text without a fence stays as it is, but for the white space around it.
pub proof fn a_text_without_a_fence_stays(a: Seq<char>, body: Seq<char>, b: Seq<char>)
    requires
        blank(a) && blank(b),
        tight(body),
        !begins(body, "```"@),
        !ends(body, "```"@),
    ensures
        fenced(a + body + b) == body,
{
    reveal_strlit("```json");
    reveal_strlit("```");
    trimming_cuts_the_white_space(a, body, b);
    if begins(body, "```json"@) {
        assert(body.take(3) =~= body.take(7).take(3));
        assert("```json"@.take(3) =~= "```"@);
    }
    assert(seq![] + body + seq![] =~= body);
    trimming_cuts_the_white_space(seq![], body, seq![]);
}

/// The parts of a reply are read in order: those without text are passed over, and what
/// follows the first with one is not read.
pub proof fn the_first_part_with_text_is_read(before: Seq<Json>, p: Json, after: Seq<Json>)
    requires
        forall|i: int| 0 <= i < before.len() ==> output_part(#[trigger] before[i]) is None,
        p.text_field("type"@) == Some("output_text"@),
        p.text_field("text"@) is Some,
    ensures
        first_part(before + seq![p] + after) == p.text_field("text"@),
    decreases before.len(),
{
    let s = before + seq![p] + after;
    if before.len() == 0 {
        assert(s[0] == p);
    } else {
        let rest = before.skip(1);
        assert(output_part(before[0]) is None);
        assert forall|i: int| 0 <= i < rest.len() implies output_part(#[trigger] rest[i]) is None by {
            assert(rest[i] == before[i + 1]);
        }
        the_first_part_with_text_is_read(rest, p, after);
        assert(s.skip(1) =~= rest + seq![p] + after);
        assert(s[0] == before[0]);
    }
}

/// The items of a reply are read in order too, and a reply's own text goes before all.
pub proof fn the_first_item_with_text_is_read(
    v: Json,
    before: Seq<Json>,
    item: Json,
    after: Seq<Json>,
)
    requires
        forall|i: int| 0 <= i < before.len() ==> item_text(#[trigger] before[i]) is None,
        item_text(item) is Some,
        v.list_field("output"@) == Some(before + seq![item] + after),
    ensures
        v.text_field("output_text"@) is None ==> reply_text(v) == item_text(item),
        v.text_field("output_text"@) is Some ==> reply_text(v) == v.text_field("output_text"@),
{
    lemma_first_item(before, item, after);
}

proof fn lemma_first_item(before: Seq<Json>, item: Json, after: Seq<Json>)
    requires
        forall|i: int| 0 <= i < before.len() ==> item_text(#[trigger] before[i]) is None,
        item_text(item) is Some,
    ensures
        first_item(before + seq![item] + after) == item_text(item),
    decreases before.len(),
{
    let s = before + seq![item] + after;
    if before.len() == 0 {
        assert(s[0] == item);
    } else {
        let rest = before.skip(1);
        assert(item_text(before[0]) is None);
        assert forall|i: int| 0 <= i < rest.len() implies item_text(#[trigger] rest[i]) is None by {
            assert(rest[i] == before[i + 1]);
        }
        lemma_first_item(rest, item, after);
        assert(s.skip(1) =~= rest + seq![item] + after);
        assert(s[0] == before[0]);
    }
}

/// A spot that a model names stays where it is in the frame, its feather stays what it is
/// from nought to one, and only what lies outside is drawn in; a feather that is not above
/// nought is two fifths. Nothing else of it changes.
pub proof fn a_tidied_spot_stays_in_its_place(s: SpotView)
    requires
        s.cx.finite() && s.cy.finite() && s.feather.finite(),
    ensures
        ({
            let t = tidied(s);
            &&& real_of(t.cx) == held(real_of(s.cx), 0real, 1real)
            &&& real_of(t.cy) == held(real_of(s.cy), 0real, 1real)
            &&& real_of(s.feather) > 0real ==> real_of(t.feather) == held(
                real_of(s.feather),
                0real,
                1real,
            )
            &&& real_of(s.feather) <= 0real ==> t.feather == num(0x3ECC_CCCD)
            &&& t.source == s.source
            &&& t.coverage == s.coverage
            &&& t.clone_raw == s.clone_raw
            &&& t.label == s.label
        }),
{
    lemma_ends();
    lemma_held(s.cx, num(ZERO), num(ONE));
    lemma_held(s.cy, num(ZERO), num(ONE));
    lemma_held(s.feather, num(ZERO), num(ONE));
    lemma_order_real(s.feather, num(ZERO));
}

/// Of a list of spots those with a size are kept in their order, however they are parted,
/// up to thirty of them, and nothing is put between them.
pub proof fn kept_spots_keep_their_order(a: Seq<SpotView>, b: Seq<SpotView>)
    ensures
        sized(a + b) == sized(a) + sized(b),
        sized(a).len() + sized(b).len() <= 30 ==> kept(a + b) == kept(a) + kept(b),
        sized(a).len() >= 30 ==> kept(a + b) == kept(a),
        forall|s: SpotView| num(ZERO).less(s.radius) ==> #[trigger] kept(seq![s]) == seq![tidied(s)],
        forall|s: SpotView| !num(ZERO).less(s.radius) ==> #[trigger] kept(seq![s]) == Seq::<
            SpotView,
        >::empty(),
{
    lemma_sized_together(a, b);
    if sized(a).len() + sized(b).len() <= 30 {
        assert(kept(a + b) =~= kept(a) + kept(b));
    }
    if sized(a).len() >= 30 {
        assert(kept(a + b) =~= kept(a));
    }
    assert forall|s: SpotView| num(ZERO).less(s.radius) implies #[trigger] kept(seq![s]) == seq![
        tidied(s),
    ] by {
        lemma_sized_one(s);
        assert(kept(seq![s]) =~= seq![tidied(s)]);
    }
    assert forall|s: SpotView| !num(ZERO).less(s.radius) implies #[trigger] kept(seq![s]) == Seq::<
        SpotView,
    >::empty() by {
        lemma_sized_one(s);
        assert(kept(seq![s]) =~= Seq::<SpotView>::empty());
    }
}

proof fn lemma_sized_one(s: SpotView)
    ensures
        num(ZERO).less(s.radius) ==> sized(seq![s]) == seq![s],
        !num(ZERO).less(s.radius) ==> sized(seq![s]) == Seq::<SpotView>::empty(),
{
    reveal_with_fuel(sized, 2);
    assert(seq![s].drop_last() =~= Seq::<SpotView>::empty());
    assert(Seq::<SpotView>::empty().push(s) =~= seq![s]);
}

proof fn lemma_sized_together(a: Seq<SpotView>, b: Seq<SpotView>)
    ensures
        sized(a + b) == sized(a) + sized(b),
    decreases b.len(),
{
    if b.len() == 0 {
        assert(a + b =~= a);
        assert(sized(a) + sized(b) =~= sized(a));
    } else {
        lemma_sized_together(a, b.drop_last());
        assert((a + b).drop_last() =~= a + b.drop_last());
        assert((a + b).last() == b.last());
        assert(sized(a + b) =~= sized(a) + sized(b));
    }
}

pub proof fn lemma_first_place(front: Seq<char>, c: char, rest: Seq<char>)
    requires
        !front.contains(c),
    ensures
        first_of(front + seq![c] + rest, c) == front.len(),
    decreases front.len(),
{
    let s = front + seq![c] + rest;
    if front.len() > 0 {
        let t = front.skip(1);
        assert(front.contains(front[0]));
        assert(!t.contains(c)) by {
            if t.contains(c) {
                let i = choose|i: int| 0 <= i < t.len() && t[i] == c;
                assert(front[i + 1] == c);
            }
        }
        lemma_first_place(t, c, rest);
        assert(s.skip(1) =~= t + seq![c] + rest);
        assert(s[0] == front[0]);
    } else {
        assert(s[0] == c);
    }
}

/// What stands in the first brackets of a text is found.
pub proof fn brackets_hold_what_is_found(front: Seq<char>, word: Seq<char>, rest: Seq<char>)
    requires
        !front.contains('['),
        !word.contains(']'),
    ensures
        bracketed(front + seq!['['] + (word + seq![']'] + rest)) == Some(word),
{
    let inner = word + seq![']'] + rest;
    let s = front + seq!['['] + inner;
    lemma_first_place(front, '[', inner);
    lemma_first_place(word, ']', rest);
    assert(s.skip(front.len() as int + 1) =~= inner);
    assert(inner.take(word.len() as int) =~= word);
}

/// A line of the sidecar that names a mask gives the report its backend, as it stands in
/// the brackets, and leaves the rest of the report.
pub proof fn a_mask_line_names_the_backend(
    r: ReportView,
    target: Seq<char>,
    label: Seq<char>,
    rest: Seq<char>,
)
    requires
        !target.contains('['),
        target.len() > 0 && !white(target[0]),
        !label.contains(']'),
        rest.len() > 0 && !white(rest.last()),
    ensures
        read_line(
            r,
            "segment.py: "@ + target + " mask "@ + (seq!['['] + (label + seq![']'] + rest)),
        ) == (ReportView { backend: label, birefnet_deps: r.birefnet_deps }),
{
    reveal_strlit("segment.py: ");
    reveal_strlit("segment.py:");
    reveal_strlit(" mask ");
    reveal_strlit(" mask [");
    let tail = seq!['['] + (label + seq![']'] + rest);
    let body = target + " mask "@ + tail;
    let line = "segment.py: "@ + target + " mask "@ + tail;
    assert(line[0] == 's' && line.last() == rest.last());
    assert(seq![] + line + seq![] =~= line);
    trimming_cuts_the_white_space(seq![], line, seq![]);
    assert(line.take(11) =~= "segment.py:"@);
    let space = seq![' '];
    assert(line.skip(11) =~= space + body + seq![]);
    assert(body[0] == target[0] && body.last() == rest.last());
    trimming_cuts_the_white_space(space, body, seq![]);
    assert(occurs_at(body, " mask ["@, target.len() as int)) by {
        assert(body.subrange(target.len() as int, target.len() as int + 7) =~= " mask ["@);
    }
    let front = target + " mask "@;
    assert(!front.contains('[')) by {
        if front.contains('[') {
            let i = choose|i: int| 0 <= i < front.len() && front[i] == '[';
            if i < target.len() {
                assert(target[i] == '[');
            } else {
                assert(" mask "@[i - target.len()] == '[');
            }
        }
    }
    assert(body =~= front + seq!['['] + (label + seq![']'] + rest));
    brackets_hold_what_is_found(front, label, rest);
}

/// The line on the primary backend's dependencies is read by its word: "ok" for there,
/// "missing" for not, any other for not known. It leaves the backend.
pub proof fn a_deps_line_is_read_by_its_word(r: ReportView, word: Seq<char>)
    requires
        !word.contains(']'),
        !contains("subject backend deps "@ + (seq!['['] + (word + seq![']'])), " mask ["@),
    ensures
        ({
            let line = "segment.py: subject backend deps "@ + (seq!['['] + (word + seq![']']));
            let n = read_line(r, line);
            &&& n.backend == r.backend
            &&& word == "ok"@ ==> n.birefnet_deps == Some(true)
            &&& word == "missing"@ ==> n.birefnet_deps == Some(false)
            &&& word != "ok"@ && word != "missing"@ ==> n.birefnet_deps is None
        }),
{
    reveal_strlit("segment.py: subject backend deps ");
    reveal_strlit("segment.py:");
    reveal_strlit("subject backend deps ");
    reveal_strlit("subject backend deps");
    reveal_strlit("ok");
    reveal_strlit("missing");
    let tail = seq!['['] + (word + seq![']']);
    let front = "subject backend deps "@;
    let body = front + tail;
    let line = "segment.py: subject backend deps "@ + tail;
    assert(line[0] == 's' && line.last() == ']');
    assert(seq![] + line + seq![] =~= line);
    trimming_cuts_the_white_space(seq![], line, seq![]);
    assert(line.take(11) =~= "segment.py:"@);
    let space = seq![' '];
    assert(line.skip(11) =~= space + body + seq![]);
    assert(body[0] == 's' && body.last() == ']');
    trimming_cuts_the_white_space(space, body, seq![]);
    assert(body.take(20) =~= "subject backend deps"@);
    assert(!front.contains('[')) by {
        if front.contains('[') {
            let i = choose|i: int| 0 <= i < front.len() && front[i] == '[';
            assert(front[i] != '[');
        }
    }
    assert(body =~= front + seq!['['] + (word + seq![']'] + seq![]));
    brackets_hold_what_is_found(front, word, seq![]);
    assert("ok"@.len() == 2 && "missing"@.len() == 7);
}

/// An alpha is made anew for one reason only: the fallback made it where the machine could
/// not run the primary backend, and now the machine is known to.
pub proof fn an_alpha_is_renewed_for_one_reason(m: ReportView, now: Option<bool>)
    ensures
        stale(m, now) ==> now == Some(true) && m.birefnet_deps == Some(false),
        stale(m, now) ==> exists|i: int| occurs_at(m.backend, "FALLBACK"@, i),
        now == Some(true) && m.birefnet_deps == Some(false) && contains(m.backend, "FALLBACK"@)
            ==> stale(m, now),
{
}

/// A base keeps all but the strokes behind it.
pub proof fn only_the_strokes_behind_are_cut(base: Seq<char>, n: nat)
    requires
        base.len() > 0 ==> base.last() != '/',
    ensures
        without_strokes(base + Seq::new(n, |i: int| '/')) == base,
    decreases n,
{
    let t = Seq::new(n, |i: int| '/');
    if n == 0 {
        assert(base + t =~= base);
    } else {
        let less = Seq::new((n - 1) as nat, |i: int| '/');
        only_the_strokes_behind_are_cut(base, (n - 1) as nat);
        assert((base + t).drop_last() =~= base + less);
        assert((base + t).last() == '/');
    }
}

} // verus!
