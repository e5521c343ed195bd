//! Reading text character by character: trimming, prefixes, search.

use vstd::prelude::*;
use vstd::string::*;

verus! {

/// A character of white space.
pub open spec fn white(c: char) -> bool {
    let v = c as u32;
    ||| 0x09 <= v <= 0x0D
    ||| v == 0x20
    ||| v == 0x85
    ||| v == 0xA0
    ||| v == 0x1680
    ||| 0x2000 <= v <= 0x200A
    ||| v == 0x2028
    ||| v == 0x2029
    ||| v == 0x202F
    ||| v == 0x205F
    ||| v == 0x3000
}

/// `s` without the white space in front.
pub open spec fn trim_start(s: Seq<char>) -> Seq<char>
    decreases s.len(),
{
    if s.len() > 0 && white(s[0]) {
        trim_start(s.skip(1))
    } else {
        s
    }
}

/// `s` without the white space behind.
pub open spec fn trim_end(s: Seq<char>) -> Seq<char>
    decreases s.len(),
{
    if s.len() > 0 && white(s.last()) {
        trim_end(s.drop_last())
    } else {
        s
    }
}

/// `s` without white space at either end.
pub open spec fn trim(s: Seq<char>) -> Seq<char> {
    trim_end(trim_start(s))
}

/// `s` begins with `p`.
pub open spec fn begins(s: Seq<char>, p: Seq<char>) -> bool {
    p.len() <= s.len() && s.take(p.len() as int) == p
}

/// `p` occurs in `s` at `i`.
pub open spec fn occurs_at(s: Seq<char>, p: Seq<char>, i: int) -> bool {
    0 <= i && i + p.len() <= s.len() && s.subrange(i, i + p.len()) == p
}

/// `p` occurs in `s`.
pub open spec fn contains(s: Seq<char>, p: Seq<char>) -> bool {
    exists|i: int| occurs_at(s, p, i)
}

/// The first place of `c` in `s`, or the length of `s` if it is nowhere.
pub open spec fn first_of(s: Seq<char>, c: char) -> nat
    decreases s.len(),
{
    if s.len() == 0 || s[0] == c {
        0
    } else {
        1 + first_of(s.skip(1), c)
    }
}

/// What stands between the first `[` and the first `]` after it.
pub open spec fn bracketed(s: Seq<char>) -> Option<Seq<char>> {
    let open = first_of(s, '[');
    if open == s.len() {
        None
    } else {
        let rest = s.skip(open as int + 1);
        let close = first_of(rest, ']');
        if close == rest.len() {
            None
        } else {
            Some(rest.take(close as int))
        }
    }
}

/// The text as a list of characters.
pub fn characters(s: &str) -> (v: Vec<char>)
    ensures
        v@ == s@,
{
    let mut v: Vec<char> = Vec::new();
    for c in it: s.chars()
        invariant
            it.seq() == s@,
            v@ == s@.take(it.index() as int),
    {
        v.push(c);
        assert(s@.take(it.index() + 1) =~= s@.take(it.index() as int).push(c));
    }
    assert(s@.take(s@.len() as int) =~= s@);
    v
}

pub fn is_white(c: char) -> (r: bool)
    ensures
        r == white(c),
{
    let v: u32 = c as u32;
    (0x09 <= v && v <= 0x0D) || v == 0x20 || v == 0x85 || v == 0xA0 || v == 0x1680 || (0x2000 <= v
        && v <= 0x200A) || v == 0x2028 || v == 0x2029 || v == 0x202F || v == 0x205F || v == 0x3000
}

/// Where `v[from..to]` begins and ends without white space at either end.
pub fn trim_range(v: &Vec<char>, from: usize, to: usize) -> (r: (usize, usize))
    requires
        from <= to <= v@.len(),
    ensures
        from <= r.0 <= r.1 <= to,
        v@.subrange(r.0 as int, r.1 as int) == trim(v@.subrange(from as int, to as int)),
{
    let mut a: usize = from;
    while a < to && is_white(v[a])
        invariant
            from <= a <= to <= v@.len(),
            trim_start(v@.subrange(from as int, to as int)) == trim_start(
                v@.subrange(a as int, to as int),
            ),
        decreases to - a,
    {
        assert(v@.subrange(a as int, to as int).skip(1) =~= v@.subrange(a + 1, to as int));
        a = a + 1;
    }
    let b: usize = trim_end_range(v, a, to);
    (a, b)
}

/// Where `v[from..to]` ends without white space behind.
pub fn trim_end_range(v: &Vec<char>, from: usize, to: usize) -> (end: usize)
    requires
        from <= to <= v@.len(),
    ensures
        from <= end <= to,
        v@.subrange(from as int, end as int) == trim_end(v@.subrange(from as int, to as int)),
{
    let mut b: usize = to;
    while b > from && is_white(v[b - 1])
        invariant
            from <= b <= to <= v@.len(),
            trim_end(v@.subrange(from as int, to as int)) == trim_end(
                v@.subrange(from as int, b as int),
            ),
        decreases b,
    {
        assert(v@.subrange(from as int, b as int).drop_last() =~= v@.subrange(
            from as int,
            b - 1,
        ));
        b = b - 1;
    }
    b
}

/// Whether `v[at..to]` begins with `p`.
pub fn begins_at(v: &Vec<char>, at: usize, to: usize, p: &Vec<char>) -> (r: bool)
    requires
        at <= to <= v@.len(),
    ensures
        r == begins(v@.subrange(at as int, to as int), p@),
{
    let ghost s = v@.subrange(at as int, to as int);
    if p.len() > to - at {
        return false;
    }
    let mut i: usize = 0;
    while i < p.len()
        invariant
            at <= to <= v@.len(),
            i <= p@.len() <= to - at,
            s == v@.subrange(at as int, to as int),
            forall|j: int| 0 <= j < i ==> s[j] == p@[j],
        decreases p@.len() - i,
    {
        if v[at + i] != p[i] {
            assert(s.take(p@.len() as int)[i as int] != p@[i as int]);
            return false;
        }
        i = i + 1;
    }
    assert(s.take(p@.len() as int) =~= p@);
    true
}

/// Whether `p` occurs in `v[from..to]`.
pub fn contains_in(v: &Vec<char>, from: usize, to: usize, p: &Vec<char>) -> (r: bool)
    requires
        from <= to <= v@.len(),
    ensures
        r == contains(v@.subrange(from as int, to as int), p@),
{
    let ghost s = v@.subrange(from as int, to as int);
    let mut i: usize = from;
    loop
        invariant
            from <= i <= to <= v@.len(),
            s == v@.subrange(from as int, to as int),
            forall|j: int| 0 <= j < i - from ==> !occurs_at(s, p@, j),
        decreases to - i,
    {
        if begins_at(v, i, to, p) {
            proof {
                let t = v@.subrange(i as int, to as int);
                assert(t.take(p@.len() as int) =~= s.subrange(i - from, i - from + p@.len()));
                assert(occurs_at(s, p@, i - from));
            }
            return true;
        }
        proof {
            let t = v@.subrange(i as int, to as int);
            if occurs_at(s, p@, i - from) {
                assert(t.take(p@.len() as int) =~= s.subrange(i - from, i - from + p@.len()));
            }
        }
        if i == to {
            return false;
        }
        i = i + 1;
    }
}

/// The first place of `c` in `v[from..to]`, or `to` if it is nowhere.
pub fn find_in(v: &Vec<char>, from: usize, to: usize, c: char) -> (r: usize)
    requires
        from <= to <= v@.len(),
    ensures
        from <= r <= to,
        r - from == first_of(v@.subrange(from as int, to as int), c),
{
    let ghost s = v@.subrange(from as int, to as int);
    let mut i: usize = from;
    while i < to && v[i] != c
        invariant
            from <= i <= to <= v@.len(),
            s == v@.subrange(from as int, to as int),
            first_of(s, c) == i - from + first_of(v@.subrange(i as int, to as int), c),
        decreases to - i,
    {
        assert(v@.subrange(i as int, to as int).skip(1) =~= v@.subrange(i + 1, to as int));
        i = i + 1;
    }
    i
}

/// Where the bracketed part of `v[from..to]` stands.
pub fn bracketed_in(v: &Vec<char>, from: usize, to: usize) -> (r: Option<(usize, usize)>)
    requires
        from <= to <= v@.len(),
    ensures
        match (r, bracketed(v@.subrange(from as int, to as int))) {
            (Some((a, b)), Some(t)) => from <= a <= b <= to && v@.subrange(a as int, b as int) == t,
            (None, None) => true,
            _ => false,
        },
{
    let ghost s = v@.subrange(from as int, to as int);
    let open: usize = find_in(v, from, to, '[');
    if open == to {
        return None;
    }
    let close: usize = find_in(v, open + 1, to, ']');
    assert(s.skip(open - from + 1) =~= v@.subrange(open + 1, to as int));
    if close == to {
        return None;
    }
    assert(v@.subrange(open + 1, to as int).take(close - (open + 1)) =~= v@.subrange(
        open + 1,
        close as int,
    ));
    Some((open + 1, close))
}

/// Whether `p` occurs in `s`.
pub fn text_contains(s: &str, p: &str) -> (r: bool)
    ensures
        r == contains(s@, p@),
{
    let v: Vec<char> = characters(s);
    let q: Vec<char> = characters(p);
    assert(v@.subrange(0, v@.len() as int) =~= v@);
    contains_in(&v, 0, v.len(), &q)
}

} // verus!
