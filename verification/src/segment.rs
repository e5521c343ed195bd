//! The segmentation sidecar: what it is started with, what it reports, which
//! backend a cached alpha came from, and when such an alpha is made anew.

use vstd::prelude::*;
use vstd::string::*;
use crate::scan::{
    begins, begins_at, bracketed, bracketed_in, characters, contains, contains_in, find_in,
    first_of, text_contains, trim, trim_end, trim_end_range, trim_range, white,
};

verus! {

/// The word that a backend's label carries when the fallback tier ran.
pub open spec fn fallback_label(label: Seq<char>) -> bool {
    contains(label, "FALLBACK"@)
}

/// Whether a backend's label names the fallback tier.
pub fn backend_is_fallback(backend: &str) -> (r: bool)
    ensures
        r == fallback_label(backend@),
{
    text_contains(backend, "FALLBACK")
}

/// What the sidecar said about the run that made a mask.
#[derive(Clone, Debug, PartialEq, Eq)]
pub struct SegmentReport {
    /// The backend's label; empty when the sidecar named none.
    pub backend: String,
    /// Whether the primary backend's dependencies were there; unknown when the
    /// sidecar did not say.
    pub birefnet_deps: Option<bool>,
}

/// What a [`SegmentReport`] says.
#[verifier::ext_equal]
pub struct ReportView {
    pub backend: Seq<char>,
    pub birefnet_deps: Option<bool>,
}

impl View for SegmentReport {
    type V = ReportView;

    open spec fn view(&self) -> ReportView {
        ReportView { backend: self.backend@, birefnet_deps: self.birefnet_deps }
    }
}

/// The verdict that a word stands for. A word that is not known is no verdict.
pub open spec fn verdict(word: Option<Seq<char>>) -> Option<bool> {
    match word {
        Some(w) => if w == "ok"@ {
            Some(true)
        } else if w == "missing"@ {
            Some(false)
        } else {
            None
        },
        None => None,
    }
}

/// The report after one more line of the sidecar's output.
pub open spec fn read_line(r: ReportView, line: Seq<char>) -> ReportView {
    let t = trim(line);
    if !begins(t, "segment.py:"@) {
        r
    } else {
        let body = trim(t.skip(11));
        if contains(body, " mask ["@) {
            match bracketed(body) {
                Some(label) => ReportView { backend: label, ..r },
                None => r,
            }
        } else if begins(body, "subject backend deps"@) {
            ReportView { birefnet_deps: verdict(bracketed(body)), ..r }
        } else {
            r
        }
    }
}

/// Where the first line of `s` ends: at a line feed or at a carriage return.
pub open spec fn line_end(s: Seq<char>) -> nat {
    let a = first_of(s, '\n');
    let b = first_of(s, '\r');
    if a < b {
        a
    } else {
        b
    }
}

/// The report after all lines of `s`.
pub open spec fn read_lines(r: ReportView, s: Seq<char>) -> ReportView
    decreases s.len(),
{
    let k = line_end(s);
    let next = read_line(r, s.take(k as int));
    if k >= s.len() {
        next
    } else {
        read_lines(next, s.skip(k as int + 1))
    }
}

/// No line has been read.
pub open spec fn no_report() -> ReportView {
    ReportView { backend: seq![], birefnet_deps: None }
}

fn word_verdict(v: &Vec<char>, from: usize, to: usize) -> (r: Option<bool>)
    requires
        from <= to <= v@.len(),
    ensures
        r == verdict(Some(v@.subrange(from as int, to as int))),
{
    let ghost w = v@.subrange(from as int, to as int);
    let ok: Vec<char> = characters("ok");
    let missing: Vec<char> = characters("missing");
    proof {
        reveal_strlit("ok");
        reveal_strlit("missing");
        assert(w.take(w.len() as int) =~= w);
    }
    if to - from == 2 && begins_at(v, from, to, &ok) {
        Some(true)
    } else if to - from == 7 && begins_at(v, from, to, &missing) {
        Some(false)
    } else {
        None
    }
}

/// Where the line that begins at `from` ends.
pub(crate) fn end_of_line(v: &Vec<char>, from: usize) -> (r: usize)
    requires
        from <= v@.len(),
    ensures
        from <= r <= v@.len(),
        r - from == line_end(v@.skip(from as int)),
{
    let n: usize = v.len();
    assert(v@.skip(from as int) =~= v@.subrange(from as int, n as int));
    let a: usize = find_in(v, from, n, '\n');
    let b: usize = find_in(v, from, n, '\r');
    if a < b {
        a
    } else {
        b
    }
}

impl SegmentReport {
    /// Whether the run took the fallback tier.
    pub fn is_fallback(&self) -> (r: bool)
        ensures
            r == fallback_label(self.backend@),
    {
        backend_is_fallback(self.backend.as_str())
    }

    /// Takes in one line of output, `v[from..to]`, which is `text` there.
    fn take_line(&mut self, text: &str, v: &Vec<char>, from: usize, to: usize)
        requires
            text@ == v@,
            from <= to <= v@.len(),
        ensures
            final(self)@ == read_line(old(self)@, v@.subrange(from as int, to as int)),
    {
        let mark: Vec<char> = characters("segment.py:");
        let mask: Vec<char> = characters(" mask [");
        let deps: Vec<char> = characters("subject backend deps");
        let (a, b) = trim_range(v, from, to);
        proof {
            reveal_strlit("segment.py:");
        }
        if !begins_at(v, a, b, &mark) {
            return;
        }
        let (c, d) = trim_range(v, a + 11, b);
        assert(v@.subrange(a as int, b as int).skip(11) =~= v@.subrange(a + 11, b as int));
        if contains_in(v, c, d, &mask) {
            if let Some((p, q)) = bracketed_in(v, c, d) {
                self.backend = text.substring_char(p, q).to_owned();
            }
        } else if begins_at(v, c, d, &deps) {
            self.birefnet_deps = match bracketed_in(v, c, d) {
                Some((p, q)) => word_verdict(v, p, q),
                None => None,
            };
        }
    }

    /// Reads the sidecar's output.
    pub fn parse(stdout: &str) -> (r: SegmentReport)
        ensures
            r@ == read_lines(no_report(), stdout@),
    {
        let v: Vec<char> = characters(stdout);
        let mut out: SegmentReport = SegmentReport { backend: String::new(), birefnet_deps: None };
        let mut from: usize = 0;
        assert(v@.skip(0) =~= v@);
        assert(out@ =~= no_report());
        loop
            invariant
                v@ == stdout@,
                from <= v@.len(),
                read_lines(no_report(), stdout@) == read_lines(out@, v@.skip(from as int)),
            decreases v@.len() - from,
        {
            let to: usize = end_of_line(&v, from);
            let ghost rest = v@.skip(from as int);
            assert(rest.take(to - from) =~= v@.subrange(from as int, to as int));
            out.take_line(stdout, &v, from, to);
            if to == v.len() {
                return out;
            }
            assert(rest.skip(to - from + 1) =~= v@.skip(to + 1));
            from = to + 1;
        }
    }
}

// ---- the marker beside a cached alpha ----

/// The first line of a marker.
pub open spec fn marker_header() -> Seq<char> {
    "autoshop-ai-mask-backend v1"@
}

/// A marker is three short lines; a longer file is none.
pub const MAX_BACKEND_MARKER: u64 = 4096;

/// Which backend made a cached alpha, and whether the primary one could have.
#[derive(Debug)]
pub struct BackendMarker {
    pub backend: String,
    /// The verdict at the time the alpha was written.
    pub birefnet_deps: Option<bool>,
}

impl View for BackendMarker {
    type V = ReportView;

    open spec fn view(&self) -> ReportView {
        ReportView { backend: self.backend@, birefnet_deps: self.birefnet_deps }
    }
}

/// The word that a verdict is stored as.
pub open spec fn verdict_word(deps: Option<bool>) -> Seq<char> {
    match deps {
        Some(true) => "ok"@,
        Some(false) => "missing"@,
        None => "unknown"@,
    }
}

/// A marker as it is stored.
pub open spec fn marker_text(m: ReportView) -> Seq<char> {
    marker_header() + "\nbackend="@ + m.backend + "\nbirefnet-deps="@ + verdict_word(
        m.birefnet_deps,
    ) + "\n"@
}

/// The first line of `s`, without its line feed and a carriage return before
/// that line feed.
pub open spec fn first_line(s: Seq<char>) -> Seq<char> {
    let k = first_of(s, '\n') as int;
    if k < s.len() && k > 0 && s[k - 1] == '\r' {
        s.take(k - 1)
    } else {
        s.take(k)
    }
}

/// What follows the first line of `s`.
pub open spec fn after_line(s: Seq<char>) -> Seq<char> {
    let k = first_of(s, '\n') as int;
    if k < s.len() {
        s.skip(k + 1)
    } else {
        seq![]
    }
}

/// The marker after one more line.
pub open spec fn read_marker_line(m: ReportView, line: Seq<char>) -> ReportView {
    if begins(line, "backend="@) {
        ReportView { backend: trim_end(line.skip(8)), ..m }
    } else if begins(line, "birefnet-deps="@) {
        ReportView { birefnet_deps: verdict(Some(trim(line.skip(14)))), ..m }
    } else {
        m
    }
}

/// The marker after all lines of `s`.
pub open spec fn read_marker_lines(m: ReportView, s: Seq<char>) -> ReportView
    decreases s.len(),
{
    if s.len() == 0 {
        m
    } else {
        read_marker_lines(read_marker_line(m, first_line(s)), after_line(s))
    }
}

/// The marker that a text holds: none without the header line.
pub open spec fn read_marker(s: Seq<char>) -> Option<ReportView> {
    if s.len() == 0 || trim(first_line(s)) != marker_header() {
        None
    } else {
        Some(read_marker_lines(no_report(), after_line(s)))
    }
}

/// Where the line that begins at `from` ends, and where the next one begins.
pub(crate) fn next_line(v: &Vec<char>, from: usize) -> (r: (usize, usize))
    requires
        from < v@.len(),
    ensures
        from <= r.0 <= r.1 <= v@.len(),
        from < r.1,
        v@.subrange(from as int, r.0 as int) == first_line(v@.skip(from as int)),
        v@.skip(r.1 as int) == after_line(v@.skip(from as int)),
{
    let n: usize = v.len();
    let ghost s = v@.skip(from as int);
    assert(s =~= v@.subrange(from as int, n as int));
    let k: usize = find_in(v, from, n, '\n');
    if k == n {
        assert(v@.subrange(from as int, k as int) =~= s.take(k - from));
        assert(v@.skip(n as int) =~= Seq::<char>::empty());
        return (k, n);
    }
    assert(v@.skip(k + 1) =~= s.skip(k - from + 1));
    if k > from && v[k - 1] == '\r' {
        assert(v@.subrange(from as int, k - 1) =~= s.take(k - from - 1));
        (k - 1, k + 1)
    } else {
        assert(v@.subrange(from as int, k as int) =~= s.take(k - from));
        (k, k + 1)
    }
}

impl BackendMarker {
    /// The marker as it is stored.
    pub fn render(&self) -> (r: String)
        ensures
            r@ == marker_text(self@),
    {
        let deps: &str = match self.birefnet_deps {
            Some(true) => "ok",
            Some(false) => "missing",
            None => "unknown",
        };
        let mut s: String = "autoshop-ai-mask-backend v1".to_owned();
        s.append("\nbackend=");
        s.append(self.backend.as_str());
        s.append("\nbirefnet-deps=");
        s.append(deps);
        s.append("\n");
        s
    }

    fn take_line(&mut self, text: &str, v: &Vec<char>, from: usize, to: usize)
        requires
            text@ == v@,
            from <= to <= v@.len(),
        ensures
            final(self)@ == read_marker_line(old(self)@, v@.subrange(from as int, to as int)),
    {
        let backend: Vec<char> = characters("backend=");
        let deps: Vec<char> = characters("birefnet-deps=");
        let ghost line = v@.subrange(from as int, to as int);
        proof {
            reveal_strlit("backend=");
            reveal_strlit("birefnet-deps=");
        }
        if begins_at(v, from, to, &backend) {
            assert(line.skip(8) =~= v@.subrange(from + 8, to as int));
            let end: usize = trim_end_range(v, from + 8, to);
            self.backend = text.substring_char(from + 8, end).to_owned();
        } else if begins_at(v, from, to, &deps) {
            assert(line.skip(14) =~= v@.subrange(from + 14, to as int));
            let (a, b) = trim_range(v, from + 14, to);
            self.birefnet_deps = word_verdict(v, a, b);
        }
    }

    /// Reads a marker.
    pub fn parse(text: &str) -> (r: Option<BackendMarker>)
        ensures
            match (r, read_marker(text@)) {
                (Some(m), Some(w)) => m@ == w,
                (None, None) => true,
                _ => false,
            },
    {
        let v: Vec<char> = characters(text);
        if v.len() == 0 {
            return None;
        }
        let header: Vec<char> = characters("autoshop-ai-mask-backend v1");
        assert(v@.skip(0) =~= v@);
        let (end, start) = next_line(&v, 0);
        let (a, b) = trim_range(&v, 0, end);
        let ghost first = v@.subrange(a as int, b as int);
        assert(first.take(first.len() as int) =~= first);
        if b - a != header.len() || !begins_at(&v, a, b, &header) {
            return None;
        }
        let mut m: BackendMarker = BackendMarker { backend: String::new(), birefnet_deps: None };
        let mut from: usize = start;
        let ghost body = after_line(text@);
        assert(m@ =~= no_report());
        while from < v.len()
            invariant
                v@ == text@,
                from <= v@.len(),
                body == after_line(text@),
                read_marker_lines(no_report(), body) == read_marker_lines(
                    m@,
                    v@.skip(from as int),
                ),
            decreases v@.len() - from,
        {
            let (to, next) = next_line(&v, from);
            m.take_line(text, &v, from, to);
            from = next;
        }
        assert(v@.skip(from as int).len() == 0);
        Some(m)
    }

    /// The marker that a run leaves beside its alpha.
    pub fn of_report(report: &SegmentReport) -> (r: BackendMarker)
        ensures
            r@ == report@,
    {
        BackendMarker { backend: report.backend.clone(), birefnet_deps: report.birefnet_deps }
    }
}

/// The alpha came from the fallback tier because the machine could not run the
/// primary backend, and now it can.
pub open spec fn stale(m: ReportView, deps_now: Option<bool>) -> bool {
    fallback_label(m.backend) && m.birefnet_deps == Some(false) && deps_now == Some(true)
}

pub fn marker_is_stale(m: &BackendMarker, deps_now: Option<bool>) -> (r: bool)
    ensures
        r == stale(m@, deps_now),
{
    let missed: bool = match m.birefnet_deps {
        Some(d) => !d,
        None => false,
    };
    let can: bool = match deps_now {
        Some(d) => d,
        None => false,
    };
    backend_is_fallback(m.backend.as_str()) && missed && can
}

/// Whether today's verdict could change anything about an alpha. Only then is
/// the machine asked for it.
pub fn renewal_needs_probe(m: Option<&BackendMarker>) -> (r: bool)
    ensures
        r == (m is Some && exists|deps: Option<bool>| stale(m->0@, deps)),
{
    match m {
        Some(k) => {
            let missed: bool = match k.birefnet_deps {
                Some(d) => !d,
                None => false,
            };
            let r: bool = backend_is_fallback(k.backend.as_str()) && missed;
            assert(r ==> stale(k@, Some(true)));
            r
        },
        None => false,
    }
}

/// Whether a cached alpha is thrown away and made anew. Everything unknown
/// means no.
pub fn should_renew_cached_alpha(m: Option<&BackendMarker>, deps_now: Option<bool>) -> (r: bool)
    ensures
        r == (m is Some && stale(m->0@, deps_now)),
{
    match m {
        Some(k) => marker_is_stale(k, deps_now),
        None => false,
    }
}

/// Where a line ends that has no line feed in it.
proof fn lemma_line_end(line: Seq<char>, rest: Seq<char>)
    requires
        forall|i: int| 0 <= i < line.len() ==> #[trigger] line[i] != '\n',
    ensures
        first_of(line + seq!['\n'] + rest, '\n') == line.len(),
    decreases line.len(),
{
    let s = line + seq!['\n'] + rest;
    if line.len() > 0 {
        let t = line.skip(1);
        assert forall|i: int| 0 <= i < t.len() implies #[trigger] t[i] != '\n' by {
            assert(t[i] == line[i + 1]);
        }
        lemma_line_end(t, rest);
        assert(s.skip(1) =~= t + seq!['\n'] + rest);
        assert(s[0] == line[0]);
    } else {
        assert(s[0] == '\n');
    }
}

/// The first line of a text and what follows it.
pub proof fn lemma_split_line(line: Seq<char>, rest: Seq<char>)
    requires
        forall|i: int| 0 <= i < line.len() ==> #[trigger] line[i] != '\n',
        line.len() > 0 ==> line.last() != '\r',
    ensures
        first_line(line + seq!['\n'] + rest) == line,
        after_line(line + seq!['\n'] + rest) == rest,
{
    let s = line + seq!['\n'] + rest;
    lemma_line_end(line, rest);
    assert(s.take(line.len() as int) =~= line);
    assert(s.skip(line.len() as int + 1) =~= rest);
    if line.len() > 0 {
        assert(s[line.len() - 1] == line.last());
    }
}

/// A word without white space at either end is not cut.
proof fn lemma_no_white(s: Seq<char>)
    requires
        s.len() > 0 ==> !white(s.last()) && !white(s[0]),
    ensures
        trim(s) == s,
{
}

/// A marker that is read back says what was written, if the backend's label is one
/// line without white space at its end.
#[verifier::spinoff_prover]
#[verifier::rlimit(60)]
pub proof fn a_marker_reads_back(m: ReportView)
    requires
        forall|i: int| 0 <= i < m.backend.len() ==> #[trigger] m.backend[i] != '\n',
        trim_end(m.backend) == m.backend,
    ensures
        read_marker(marker_text(m)) == Some(m),
{
    reveal_strlit("autoshop-ai-mask-backend v1");
    reveal_strlit("\nbackend=");
    reveal_strlit("backend=");
    reveal_strlit("\nbirefnet-deps=");
    reveal_strlit("birefnet-deps=");
    reveal_strlit("ok");
    reveal_strlit("missing");
    reveal_strlit("unknown");
    reveal_strlit("\n");
    let header = marker_header();
    let word = verdict_word(m.birefnet_deps);
    let first = "backend="@ + m.backend;
    let second = "birefnet-deps="@ + word;
    let tail = second + seq!['\n'] + Seq::<char>::empty();
    let rest = first + seq!['\n'] + tail;
    assert(marker_text(m) =~= header + seq!['\n'] + rest);
    lemma_split_line(header, rest);
    lemma_no_white(header);
    if m.backend.len() > 0 {
        lemma_trimmed_end(m.backend);
        assert(first.last() == m.backend.last());
    }
    lemma_split_line(first, tail);
    assert(first.take(8) =~= "backend="@);
    assert(first.skip(8) =~= m.backend);
    lemma_split_line(second, Seq::empty());
    assert(second[1] == 'i');
    assert(second.take(8)[1] == 'i' && "backend="@[1] == 'a');
    assert(second.take(14) =~= "birefnet-deps="@);
    assert(second.skip(14) =~= word);
    lemma_no_white(word);
    assert("unknown"@ != "ok"@) by {
        assert("unknown"@.len() != "ok"@.len());
    }
    assert("missing"@ != "ok"@) by {
        assert("missing"@.len() != "ok"@.len());
    }
    assert("unknown"@ != "missing"@) by {
        assert("unknown"@[0] != "missing"@[0]);
    }
    let one = read_marker_line(no_report(), first);
    assert(one =~= ReportView { backend: m.backend, birefnet_deps: None });
    let two = read_marker_line(one, second);
    assert(two =~= m);
    assert(rest.len() > 0 && tail.len() > 0);
    assert(read_marker_lines(two, Seq::empty()) == two);
    assert(read_marker_lines(one, tail) == two);
    assert(read_marker_lines(no_report(), rest) == two);
}

/// A text that nothing is cut from at its end does not end in white space.
proof fn lemma_trimmed_end(s: Seq<char>)
    requires
        trim_end(s) == s,
        s.len() > 0,
    ensures
        !white(s.last()),
        s.last() != '\r',
{
    if white(s.last()) {
        lemma_trim_end_shorter(s.drop_last());
    }
}

proof fn lemma_trim_end_shorter(s: Seq<char>)
    ensures
        trim_end(s).len() <= s.len(),
    decreases s.len(),
{
    if s.len() > 0 && white(s.last()) {
        lemma_trim_end_shorter(s.drop_last());
    }
}

/// Making an alpha anew ends: one that was made while the primary backend could
/// run is never found stale, whatever a later probe says.
pub proof fn renewal_ends(m: ReportView, deps_later: Option<bool>)
    requires
        m.birefnet_deps != Some(false),
    ensures
        !stale(m, deps_later),
{
}

/// A line that the sidecar wrote itself.
pub open spec fn marked_line(line: Seq<char>) -> bool {
    begins(trim(line), "segment.py:"@)
}

/// The lines of a text.
pub open spec fn lines_of(s: Seq<char>) -> Seq<Seq<char>>
    decreases s.len(),
{
    let k = line_end(s);
    if k >= s.len() {
        seq![s.take(k as int)]
    } else {
        seq![s.take(k as int)] + lines_of(s.skip(k as int + 1))
    }
}

/// The report after these lines, one after the other.
pub open spec fn read_all(r: ReportView, lines: Seq<Seq<char>>) -> ReportView
    decreases lines.len(),
{
    if lines.len() == 0 {
        r
    } else {
        read_all(read_line(r, lines[0]), lines.skip(1))
    }
}

/// The lines among these that the sidecar wrote itself.
pub open spec fn marked_among(lines: Seq<Seq<char>>) -> Seq<Seq<char>>
    decreases lines.len(),
{
    if lines.len() == 0 {
        seq![]
    } else if marked_line(lines[0]) {
        seq![lines[0]] + marked_among(lines.skip(1))
    } else {
        marked_among(lines.skip(1))
    }
}

proof fn lemma_read_lines(r: ReportView, s: Seq<char>)
    ensures
        read_lines(r, s) == read_all(r, lines_of(s)),
    decreases s.len(),
{
    let k = line_end(s);
    let line = s.take(k as int);
    let lines = lines_of(s);
    reveal_with_fuel(read_all, 2);
    assert(lines[0] == line);
    if k < s.len() {
        let rest = s.skip(k as int + 1);
        lemma_read_lines(read_line(r, line), rest);
        assert(lines.skip(1) =~= lines_of(rest));
    } else {
        assert(lines.skip(1) =~= Seq::<Seq<char>>::empty());
    }
}

proof fn lemma_read_marked(r: ReportView, lines: Seq<Seq<char>>)
    ensures
        read_all(r, lines) == read_all(r, marked_among(lines)),
    decreases lines.len(),
{
    if lines.len() > 0 {
        let rest = lines.skip(1);
        lemma_read_marked(read_line(r, lines[0]), rest);
        if marked_line(lines[0]) {
            let m = marked_among(lines);
            assert(m[0] == lines[0]);
            assert(m.skip(1) =~= marked_among(rest));
        }
    }
}

/// What a library under the sidecar writes says nothing: a report is what the lines with
/// the sidecar's own mark make of it, and those alone.
pub proof fn only_marked_lines_are_read(r: ReportView, s: Seq<char>)
    ensures
        read_lines(r, s) == read_all(r, marked_among(lines_of(s))),
{
    lemma_read_lines(r, s);
    lemma_read_marked(r, lines_of(s));
}

/// An output without a line of the sidecar's own leaves a report as it was.
pub proof fn unmarked_lines_leave_the_report(r: ReportView, s: Seq<char>)
    requires
        forall|i: int| 0 <= i < lines_of(s).len() ==> !marked_line(#[trigger] lines_of(s)[i]),
    ensures
        read_lines(r, s) == r,
{
    lemma_read_lines(r, s);
    lemma_none_marked(r, lines_of(s));
}

proof fn lemma_none_marked(r: ReportView, lines: Seq<Seq<char>>)
    requires
        forall|i: int| 0 <= i < lines.len() ==> !marked_line(#[trigger] lines[i]),
    ensures
        read_all(r, lines) == r,
    decreases lines.len(),
{
    if lines.len() > 0 {
        let rest = lines.skip(1);
        assert(!marked_line(lines[0]));
        assert forall|i: int| 0 <= i < rest.len() implies !marked_line(#[trigger] rest[i]) by {
            assert(rest[i] == lines[i + 1]);
        }
        lemma_none_marked(r, rest);
    }
}

} // verus!
