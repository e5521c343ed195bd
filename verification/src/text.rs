//! Bounds on text: cutting a string to a byte or character budget without
//! splitting a character, and writing numbers out.

use vstd::prelude::*;
use vstd::string::*;
use vstd::utf8::encode_utf8;
use vstd::utf8::encode_scalar;

verus! {

/// The number of bytes that a character takes in UTF-8.
pub open spec fn width(c: char) -> nat {
    if c as u32 <= 0x7F {
        1
    } else if c as u32 <= 0x7FF {
        2
    } else if c as u32 <= 0xFFFF {
        3
    } else {
        4
    }
}

/// The number of bytes that a text takes in UTF-8.
pub open spec fn byte_len(s: Seq<char>) -> nat
    decreases s.len(),
{
    if s.len() == 0 {
        0
    } else {
        byte_len(s.drop_last()) + width(s.last())
    }
}

/// How many leading characters of the first `n` fit into `max` bytes.
pub open spec fn fitting(s: Seq<char>, max: nat, n: nat) -> nat
    decreases n,
{
    if n == 0 || byte_len(s.take(n as int)) <= max {
        n
    } else {
        fitting(s, max, (n - 1) as nat)
    }
}

/// The longest beginning of `s` that fits into `max` bytes.
pub open spec fn capped(s: Seq<char>, max: nat) -> Seq<char> {
    s.take(fitting(s, max, s.len()) as int)
}

/// Where the last line break among the first `n` characters stands that is
/// no further than `max` bytes in; the beginning, if there is none.
pub open spec fn last_break(s: Seq<char>, max: nat, n: nat) -> nat
    decreases n,
{
    if n == 0 {
        0
    } else if s[n - 1] == '\n' && byte_len(s.take(n - 1)) <= max {
        (n - 1) as nat
    } else {
        last_break(s, max, (n - 1) as nat)
    }
}

/// `s` cut between two lines so that it fits into `max` bytes.
pub open spec fn whole_lines(s: Seq<char>, max: nat) -> Seq<char> {
    if byte_len(s) <= max {
        s
    } else {
        s.take(last_break(s, max, s.len()) as int)
    }
}

/// `byte_len` counts the bytes of the UTF-8 encoding.
pub proof fn lemma_byte_len_is_utf8(s: Seq<char>)
    ensures
        byte_len(s) == encode_utf8(s).len(),
    decreases s.len(),
{
    if s.len() > 0 {
        let rest = s.drop_first();
        lemma_byte_len_is_utf8(rest);
        lemma_byte_len_front(s);
        vstd::utf8::char_is_scalar(s[0]);
        assert(encode_scalar(s[0] as u32).len() == width(s[0]));
    }
}

proof fn lemma_byte_len_front(s: Seq<char>)
    requires
        s.len() > 0,
    ensures
        byte_len(s) == width(s[0]) + byte_len(s.drop_first()),
    decreases s.len(),
{
    if s.len() == 1 {
        assert(s.drop_last() =~= Seq::<char>::empty());
        assert(s.drop_first() =~= Seq::<char>::empty());
        assert(byte_len(s.drop_last()) == 0);
    } else {
        lemma_byte_len_front(s.drop_last());
        assert(s.drop_last().drop_first() =~= s.drop_first().drop_last());
        assert(s.drop_first().last() == s.last());
        assert(s.drop_last()[0] == s[0]);
    }
}

proof fn lemma_byte_len_next(s: Seq<char>, i: int)
    requires
        0 <= i < s.len(),
    ensures
        byte_len(s.take(i + 1)) == byte_len(s.take(i)) + width(s[i]),
{
    assert(s.take(i + 1).drop_last() =~= s.take(i));
}

/// A longer beginning takes at least as many bytes.
pub proof fn lemma_byte_len_grows(s: Seq<char>, i: int, j: int)
    requires
        0 <= i <= j <= s.len(),
    ensures
        byte_len(s.take(i)) + (j - i) <= byte_len(s.take(j)),
    decreases j - i,
{
    if i < j {
        lemma_byte_len_grows(s, i, j - 1);
        lemma_byte_len_next(s, j - 1);
    }
}

proof fn lemma_fitting(s: Seq<char>, max: nat, n: nat, i: nat)
    requires
        i <= n <= s.len(),
        byte_len(s.take(i as int)) <= max,
        i == n || byte_len(s.take(i as int + 1)) > max,
    ensures
        fitting(s, max, n) == i,
    decreases n,
{
    if i < n {
        lemma_byte_len_grows(s, i as int + 1, n as int);
        lemma_fitting(s, max, (n - 1) as nat, i);
    }
}

/// What is kept fits, and is everything where everything fits.
pub proof fn lemma_capped_fits(s: Seq<char>, max: nat)
    ensures
        byte_len(capped(s, max)) <= max,
        byte_len(s) <= max ==> capped(s, max) == s,
        capped(s, max).is_prefix_of(s),
        byte_len(capped(s, max)) <= byte_len(s),
{
    lemma_fitting_fits(s, max, s.len());
    assert(s.take(s.len() as int) =~= s);
    let n = fitting(s, max, s.len());
    lemma_byte_len_grows(s, n as int, s.len() as int);
}

proof fn lemma_fitting_fits(s: Seq<char>, max: nat, n: nat)
    requires
        n <= s.len(),
    ensures
        fitting(s, max, n) <= n,
        byte_len(s.take(fitting(s, max, n) as int)) <= max,
    decreases n,
{
    if n == 0 {
        assert(s.take(0) =~= Seq::<char>::empty());
    } else if byte_len(s.take(n as int)) > max {
        lemma_fitting_fits(s, max, (n - 1) as nat);
    }
}

/// What is kept of a text cut between lines fits, is a beginning of it, and
/// either is all of it or is followed by a line break.
pub proof fn lemma_whole_lines_fit(s: Seq<char>, max: nat)
    ensures
        byte_len(whole_lines(s, max)) <= max,
        byte_len(s) <= max ==> whole_lines(s, max) == s,
        whole_lines(s, max).is_prefix_of(s),
        byte_len(whole_lines(s, max)) <= byte_len(s),
        ({
            let k = whole_lines(s, max);
            k == s || k.len() == 0 || s[k.len() as int] == '\n'
        }),
{
    lemma_last_break(s, max, s.len());
    assert(s.take(s.len() as int) =~= s);
    lemma_byte_len_grows(s, last_break(s, max, s.len()) as int, s.len() as int);
}

proof fn lemma_last_break(s: Seq<char>, max: nat, n: nat)
    requires
        n <= s.len(),
    ensures
        last_break(s, max, n) <= n,
        byte_len(s.take(last_break(s, max, n) as int)) <= max,
        last_break(s, max, n) > 0 ==> last_break(s, max, n) < n && s[last_break(s, max, n) as int]
            == '\n',
    decreases n,
{
    if n == 0 {
        assert(s.take(0) =~= Seq::<char>::empty());
    } else {
        lemma_last_break(s, max, (n - 1) as nat);
    }
}

/// The number of bytes that `s` takes.
pub fn byte_length(s: &String) -> (n: usize)
    ensures
        n == byte_len(s@),
{
    proof {
        lemma_byte_len_is_utf8(s@);
    }
    s.as_str().as_bytes().len()
}

fn char_width(c: char) -> (w: usize)
    ensures
        w == width(c),
{
    let v: u32 = c as u32;
    if v <= 0x7F {
        1
    } else if v <= 0x7FF {
        2
    } else if v <= 0xFFFF {
        3
    } else {
        4
    }
}

/// Cuts `s` to at most `max` bytes, at a character boundary. Returns how many
/// bytes went.
pub fn cap(s: &mut String, max: usize) -> (lost: usize)
    ensures
        final(s)@ == capped(old(s)@, max as nat),
        lost == byte_len(old(s)@) - byte_len(final(s)@),
{
    let before: usize = byte_length(s);
    let ghost text = s@;
    proof {
        assert(text.take(text.len() as int) =~= text);
        assert(text.take(0) =~= Seq::<char>::empty());
        lemma_capped_fits(text, max as nat);
    }
    if before <= max {
        return 0;
    }
    let mut kept: usize = 0;
    let mut bytes: usize = 0;
    let mut full: bool = false;
    for c in it: s.as_str().chars()
        invariant
            it.seq() == text,
            kept <= it.index() <= text.len(),
            bytes == byte_len(text.take(kept as int)),
            bytes <= max,
            byte_len(text) == before,
            text.take(text.len() as int) == text,
            !full ==> kept == it.index(),
            full ==> kept < text.len() && byte_len(text.take(kept + 1)) > max,
    {
        let w: usize = char_width(c);
        proof {
            lemma_byte_len_next(text, it.index() as int);
            lemma_byte_len_grows(text, it.index() + 1, text.len() as int);
            lemma_byte_len_grows(text, kept as int, text.len() as int);
            lemma_byte_len_grows(text, 0, text.len() as int);
        }
        if !full && w <= max - bytes {
            kept = kept + 1;
            bytes = bytes + w;
        } else {
            full = true;
        }
    }
    proof {
        lemma_fitting(text, max as nat, text.len(), kept as nat);
    }
    let head: String = s.as_str().substring_char(0, kept).to_owned();
    *s = head;
    before - bytes
}

/// Cuts `s` to at most `max` bytes between two lines, so that every line that
/// is left is whole. Returns how many bytes went.
pub fn cap_tokens(s: &mut String, max: usize) -> (lost: usize)
    ensures
        final(s)@ == whole_lines(old(s)@, max as nat),
        lost == byte_len(old(s)@) - byte_len(final(s)@),
{
    let before: usize = byte_length(s);
    let ghost text = s@;
    if before <= max {
        return 0;
    }
    let mut kept: usize = 0;
    let mut kept_bytes: usize = 0;
    let mut seen: usize = 0;
    let mut bytes: usize = 0;
    proof {
        assert(text.take(text.len() as int) =~= text);
        assert(text.take(0) =~= Seq::<char>::empty());
    }
    for c in it: s.as_str().chars()
        invariant
            it.seq() == text,
            it.index() <= text.len(),
            seen == it.index(),
            bytes == byte_len(text.take(seen as int)),
            byte_len(text) == before,
            text.take(text.len() as int) == text,
            kept == last_break(text, max as nat, it.index() as nat),
            kept <= it.index(),
            kept_bytes == byte_len(text.take(kept as int)),
    {
        proof {
            lemma_byte_len_next(text, it.index() as int);
            lemma_byte_len_grows(text, it.index() + 1, text.len() as int);
            lemma_byte_len_grows(text, 0, text.len() as int);
        }
        if c == '\n' && bytes <= max {
            kept = seen;
            kept_bytes = bytes;
        }
        bytes = bytes + char_width(c);
        seen = seen + 1;
    }
    proof {
        lemma_last_break(text, max as nat, text.len());
        lemma_byte_len_grows(text, kept as int, text.len() as int);
    }
    let head: String = s.as_str().substring_char(0, kept).to_owned();
    *s = head;
    before - kept_bytes
}

/// Cuts `s` to at most `max` characters.
pub fn truncate_chars(s: &mut String, max: usize)
    ensures
        final(s)@ == (if old(s)@.len() > max {
            old(s)@.take(max as int)
        } else {
            old(s)@
        }),
{
    if s.as_str().unicode_len() > max {
        let head: String = s.as_str().substring_char(0, max).to_owned();
        *s = head;
    }
}

/// The decimal digit `d`.
pub open spec fn digit(d: nat) -> char {
    (48 + d) as char
}

/// `n` in decimal, without leading zeros.
pub open spec fn decimal(n: nat) -> Seq<char>
    decreases n,
{
    if n < 10 {
        seq![digit(n)]
    } else {
        decimal(n / 10).push(digit(n % 10))
    }
}

pub(crate) fn digit_text(d: u128) -> (s: &'static str)
    requires
        d < 10,
    ensures
        s@ == seq![digit(d as nat)],
{
    proof {
        reveal_strlit("0");
        reveal_strlit("1");
        reveal_strlit("2");
        reveal_strlit("3");
        reveal_strlit("4");
        reveal_strlit("5");
        reveal_strlit("6");
        reveal_strlit("7");
        reveal_strlit("8");
        reveal_strlit("9");
    }
    match d {
        0 => "0",
        1 => "1",
        2 => "2",
        3 => "3",
        4 => "4",
        5 => "5",
        6 => "6",
        7 => "7",
        8 => "8",
        _ => "9",
    }
}

/// Writes `n` in decimal.
pub fn decimal_text(n: u128) -> (s: String)
    ensures
        s@ == decimal(n as nat),
    decreases n,
{
    if n < 10 {
        digit_text(n).to_owned()
    } else {
        let mut s: String = decimal_text(n / 10);
        s.append(digit_text(n % 10));
        s
    }
}

/// Different numbers are written differently.
pub proof fn lemma_decimal_injective(a: nat, b: nat)
    requires
        decimal(a) == decimal(b),
    ensures
        a == b,
    decreases a,
{
    let x = decimal(a);
    let y = decimal(b);
    lemma_decimal_long(a);
    lemma_decimal_long(b);
    if a < 10 {
        if b < 10 {
            assert(x[0] == y[0]);
            assert(digit(a) == x[0] && digit(b) == y[0]);
            lemma_digit_injective(a, b);
        }
    } else {
        if b >= 10 {
            assert(x.drop_last() =~= decimal(a / 10));
            assert(y.drop_last() =~= decimal(b / 10));
            assert(x.last() == digit(a % 10) && y.last() == digit(b % 10));
            lemma_digit_injective(a % 10, b % 10);
            lemma_decimal_injective(a / 10, b / 10);
        }
    }
}

proof fn lemma_digit_injective(a: nat, b: nat)
    requires
        a < 10,
        b < 10,
        digit(a) == digit(b),
    ensures
        a == b,
{
    assert(digit(a) as int == 48 + a);
    assert(digit(b) as int == 48 + b);
}

/// A number below ten takes one digit, and any other more.
pub proof fn lemma_decimal_long(a: nat)
    ensures
        decimal(a).len() >= 1,
        a < 10 <==> decimal(a).len() == 1,
    decreases a,
{
    if a >= 10 {
        lemma_decimal_long(a / 10);
    }
}

/// What stands between the same text in front and the same text behind.
pub proof fn lemma_between(front: Seq<char>, a: Seq<char>, b: Seq<char>, back: Seq<char>)
    requires
        front + a + back == front + b + back,
    ensures
        a == b,
{
    let x = front + a + back;
    let y = front + b + back;
    assert(x.len() == y.len());
    assert(a.len() == b.len());
    assert forall|i: int| 0 <= i < a.len() implies a[i] == b[i] by {
        assert(x[front.len() + i] == a[i]);
        assert(y[front.len() + i] == b[i]);
    }
    assert(a =~= b);
}

} // verus!
