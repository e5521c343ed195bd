//! Asking a vision model for spots: what it is sent, and what is made of its
//! reply.

use vstd::prelude::*;
use vstd::string::*;
use crate::numbers::{ONE, THREE_THOUSANDTHS, TWO_FIFTHS, TWO_TWENTY_FIFTHS, ZERO};
use crate::scan::{begins, begins_at, characters, trim, trim_range};
use crate::single::{num, Single};
use crate::spots::{all_well_formed, spot_views, HealSpot, SpotView};

verus! {

/// The byte at `i`, and zero behind the end.
pub open spec fn octet(b: Seq<u8>, i: int) -> int {
    if i < b.len() {
        b[i] as int
    } else {
        0
    }
}

/// Character `k` of bytes in base 64: three bytes make four digits of 64, the
/// highest first, and a digit that no byte reaches is `=`.
pub open spec fn digit64(b: Seq<u8>, k: int) -> char {
    let at = (k / 4) * 3;
    let group = octet(b, at) * 65536 + octet(b, at + 1) * 256 + octet(b, at + 2);
    let digits = "ABCDEFGHIJKLMNOPQRSTUVWXYZabcdefghijklmnopqrstuvwxyz0123456789+/"@;
    let scale = if k % 4 == 0 {
        262144int
    } else if k % 4 == 1 {
        4096
    } else if k % 4 == 2 {
        64
    } else {
        1
    };
    if at + k % 4 > b.len() {
        '='
    } else {
        digits[(group / scale) % 64]
    }
}

/// Bytes in base 64, filled up to groups of four.
pub open spec fn base64(b: Seq<u8>) -> Seq<char> {
    Seq::new(((b.len() + 2) / 3) * 4, |k: int| digit64(b, k))
}

/// `Engine::encode` of the base64 crate with its `STANDARD` engine. The contract
/// claims that every three bytes become four digits of the standard alphabet, and
/// that the last group is filled up with `=`. The text has to fit in memory.
#[verifier::external_body]
fn encode64(bytes: &Vec<u8>) -> (r: String)
    requires
        ((bytes@.len() + 2) / 3) * 4 <= isize::MAX,
    ensures
        r@ == base64(bytes@),
{
    base64::Engine::encode(&base64::engine::general_purpose::STANDARD, bytes)
}

/// A picture as a link that holds all of it.
pub fn image_url(jpeg: &Vec<u8>) -> (r: String)
    requires
        ((jpeg@.len() + 2) / 3) * 4 <= isize::MAX,
    ensures
        r@ == "data:image/jpeg;base64,"@ + base64(jpeg@),
{
    let mut r: String = "data:image/jpeg;base64,".to_owned();
    let text: String = encode64(jpeg);
    r.append(text.as_str());
    r
}

/// What a picture of eight-bit pixels, red, green and blue by turns, is as a JPEG; nothing,
/// where it cannot be one.
pub uninterp spec fn jpeg_of(width: u32, height: u32, rgb: Seq<u8>) -> Option<Seq<u8>>;

/// `image::codecs::jpeg::JpegEncoder::encode` at the encoder's own quality: what it writes
/// is a function of the sides and the pixels alone, and it writes all of it or refuses.
/// A picture with other than three bytes to a pixel it does not take.
#[verifier::external_body]
fn encode_jpeg(width: u32, height: u32, rgb: &Vec<u8>) -> (r: Option<Vec<u8>>)
    requires
        rgb@.len() == width * height * 3,
    ensures
        match r {
            Some(bytes) => jpeg_of(width, height, rgb@) == Some(bytes@),
            None => jpeg_of(width, height, rgb@) is None,
        },
{
    let mut bytes = Vec::new();
    let mut encoder = image::codecs::jpeg::JpegEncoder::new(&mut bytes);
    match encoder.encode(rgb, width, height, image::ExtendedColorType::Rgb8) {
        Ok(()) => Some(bytes),
        Err(_) => None,
    }
}

/// A text of this many bytes in base 64 fits in memory.
pub open spec fn fits_as_text(n: nat) -> bool {
    ((n + 2) / 3) * 4 <= isize::MAX
}

/// A picture as a link that holds it as a JPEG. None, if it cannot be one or is too large.
pub fn picture_url(width: u32, height: u32, rgb: &Vec<u8>) -> (r: Option<String>)
    requires
        rgb@.len() == width * height * 3,
    ensures
        match jpeg_of(width, height, rgb@) {
            Some(jpeg) => {
                &&& r is Some <==> fits_as_text(jpeg.len())
                &&& r is Some ==> r->0@ == "data:image/jpeg;base64,"@ + base64(jpeg)
            },
            None => r is None,
        },
{
    match encode_jpeg(width, height, rgb) {
        Some(jpeg) => {
            let n: u128 = jpeg.len() as u128;
            if (n + 2) / 3 * 4 > isize::MAX as u128 {
                return None;
            }
            Some(image_url(&jpeg))
        },
        None => None,
    }
}

/// `s` without the strokes behind.
pub open spec fn without_strokes(s: Seq<char>) -> Seq<char>
    decreases s.len(),
{
    if s.len() > 0 && s.last() == '/' {
        without_strokes(s.drop_last())
    } else {
        s
    }
}

/// Where a service at `base` answers.
pub fn responses_url(base: &str) -> (r: String)
    ensures
        r@ == without_strokes(base@) + "/responses"@,
{
    let mut n: usize = base.unicode_len();
    proof {
        assert(base@.take(n as int) =~= base@);
    }
    while n > 0 && base.get_char(n - 1) == '/'
        invariant
            n <= base@.len(),
            without_strokes(base@) == without_strokes(base@.take(n as int)),
        decreases n,
    {
        assert(base@.take(n as int).drop_last() =~= base@.take(n - 1));
        n = n - 1;
    }
    let mut r: String = base.substring_char(0, n).to_owned();
    assert(base@.subrange(0, n as int) =~= base@.take(n as int));
    r.append("/responses");
    r
}

/// `s` ends with `p`.
pub open spec fn ends(s: Seq<char>, p: Seq<char>) -> bool {
    p.len() <= s.len() && s.skip(s.len() - p.len()) == p
}

/// `s` without `p` in front, if it begins with it.
pub open spec fn without_prefix(s: Seq<char>, p: Seq<char>) -> Seq<char> {
    if begins(s, p) {
        s.skip(p.len() as int)
    } else {
        s
    }
}

/// `s` without `p` behind, if it ends with it.
pub open spec fn without_suffix(s: Seq<char>, p: Seq<char>) -> Seq<char> {
    if ends(s, p) {
        s.take(s.len() - p.len())
    } else {
        s
    }
}

/// What stands in a code fence, or all of a text without one. White space around
/// it, in either case, does not belong to it.
pub open spec fn fenced(s: Seq<char>) -> Seq<char> {
    let t = trim(s);
    let body = if begins(t, "```json"@) {
        t.skip("```json"@.len() as int)
    } else {
        without_prefix(t, "```"@)
    };
    trim(without_suffix(body, "```"@))
}

pub fn strip_fence(s: &str) -> (r: String)
    ensures
        r@ == fenced(s@),
{
    let v: Vec<char> = characters(s);
    let long: Vec<char> = characters("```json");
    let short: Vec<char> = characters("```");
    let n: usize = v.len();
    assert(v@.subrange(0, n as int) =~= v@);
    let (mut a, b) = trim_range(&v, 0, n);
    let ghost t = trim(s@);
    assert(v@.subrange(a as int, b as int) == t);
    if begins_at(&v, a, b, &long) {
        assert(t.skip(long@.len() as int) =~= v@.subrange(a + long@.len(), b as int));
        a = a + long.len();
    } else if begins_at(&v, a, b, &short) {
        assert(t.skip(short@.len() as int) =~= v@.subrange(a + short@.len(), b as int));
        a = a + short.len();
    }
    let ghost body = v@.subrange(a as int, b as int);
    let mut e: usize = b;
    if short.len() <= b - a {
        let tail: usize = b - short.len();
        if begins_at(&v, tail, b, &short) {
            proof {
                let x = v@.subrange(tail as int, b as int);
                assert(x.take(short@.len() as int) =~= x);
                assert(body.skip(body.len() - short@.len()) =~= x);
                assert(body.take(body.len() - short@.len()) =~= v@.subrange(a as int, tail as int));
            }
            e = tail;
        } else {
            proof {
                let x = v@.subrange(tail as int, b as int);
                assert(x.take(short@.len() as int) =~= x);
                assert(body.skip(body.len() - short@.len()) =~= x);
            }
        }
    }
    assert(v@.subrange(a as int, e as int) == without_suffix(body, "```"@));
    let (c, d) = trim_range(&v, a, e);
    s.substring_char(c, d).to_owned()
}

/// A parsed reply, as far as it is read.
pub enum Json {
    Text(String),
    List(Vec<Json>),
    Object(Vec<(String, Json)>),
    /// A number, a truth value or nothing.
    Other,
}

/// The value under a name: the first of that name.
pub open spec fn lookup(fields: Seq<(String, Json)>, name: Seq<char>) -> Option<Json>
    decreases fields.len(),
{
    if fields.len() == 0 {
        None
    } else if fields[0].0@ == name {
        Some(fields[0].1)
    } else {
        lookup(fields.skip(1), name)
    }
}

impl Json {
    pub open spec fn field(self, name: Seq<char>) -> Option<Json> {
        match self {
            Json::Object(fields) => lookup(fields@, name),
            _ => None,
        }
    }

    /// The text under a name.
    pub open spec fn text_field(self, name: Seq<char>) -> Option<Seq<char>> {
        match self.field(name) {
            Some(Json::Text(s)) => Some(s@),
            _ => None,
        }
    }

    /// The list under a name.
    pub open spec fn list_field(self, name: Seq<char>) -> Option<Seq<Json>> {
        match self.field(name) {
            Some(Json::List(v)) => Some(v@),
            _ => None,
        }
    }

    fn get(&self, name: &str) -> (r: Option<&Json>)
        ensures
            match r {
                Some(v) => self.field(name@) == Some(*v),
                None => self.field(name@) is None,
            },
    {
        match self {
            Json::Object(fields) => {
                let key: String = name.to_owned();
                let n: usize = fields.len();
                let mut i: usize = 0;
                assert(fields@.skip(0) =~= fields@);
                while i < n
                    invariant
                        i <= n,
                        n == fields@.len(),
                        key@ == name@,
                        self.field(name@) == lookup(fields@.skip(i as int), name@),
                    decreases n - i,
                {
                    assert(fields@.skip(i as int).skip(1) =~= fields@.skip(i + 1));
                    if fields[i].0 == key {
                        return Some(&fields[i].1);
                    }
                    i = i + 1;
                }
                None
            },
            _ => None,
        }
    }

    fn get_text(&self, name: &str) -> (r: Option<&String>)
        ensures
            match r {
                Some(s) => self.text_field(name@) == Some(s@),
                None => self.text_field(name@) is None,
            },
    {
        match self.get(name) {
            Some(Json::Text(s)) => Some(s),
            _ => None,
        }
    }

    fn get_list(&self, name: &str) -> (r: Option<&Vec<Json>>)
        ensures
            match r {
                Some(v) => self.list_field(name@) == Some(v@),
                None => self.list_field(name@) is None,
            },
    {
        match self.get(name) {
            Some(Json::List(v)) => Some(v),
            _ => None,
        }
    }
}

/// The text of a part that is output.
pub open spec fn output_part(c: Json) -> Option<Seq<char>> {
    if c.text_field("type"@) == Some("output_text"@) {
        c.text_field("text"@)
    } else {
        None
    }
}

/// The text of the first part that has one.
pub open spec fn first_part(parts: Seq<Json>) -> Option<Seq<char>>
    decreases parts.len(),
{
    if parts.len() == 0 {
        None
    } else if output_part(parts[0]) is Some {
        output_part(parts[0])
    } else {
        first_part(parts.skip(1))
    }
}

/// The text of an item: that of its first part that has one.
pub open spec fn item_text(item: Json) -> Option<Seq<char>> {
    match item.list_field("content"@) {
        Some(parts) => first_part(parts),
        None => None,
    }
}

/// The text of the first item that has one.
pub open spec fn first_item(items: Seq<Json>) -> Option<Seq<char>>
    decreases items.len(),
{
    if items.len() == 0 {
        None
    } else if item_text(items[0]) is Some {
        item_text(items[0])
    } else {
        first_item(items.skip(1))
    }
}

/// The text of a reply: its own, or else that of its output.
pub open spec fn reply_text(v: Json) -> Option<Seq<char>> {
    match v.text_field("output_text"@) {
        Some(s) => Some(s),
        None => match v.list_field("output"@) {
            Some(items) => first_item(items),
            None => None,
        },
    }
}

fn part_text(parts: &Vec<Json>) -> (r: Option<String>)
    ensures
        match r {
            Some(s) => first_part(parts@) == Some(s@),
            None => first_part(parts@) is None,
        },
{
    let wanted: String = "output_text".to_owned();
    let n: usize = parts.len();
    let mut i: usize = 0;
    assert(parts@.skip(0) =~= parts@);
    while i < n
        invariant
            i <= n,
            n == parts@.len(),
            wanted@ == "output_text"@,
            first_part(parts@) == first_part(parts@.skip(i as int)),
        decreases n - i,
    {
        assert(parts@.skip(i as int).skip(1) =~= parts@.skip(i + 1));
        let c: &Json = &parts[i];
        match c.get_text("type") {
            Some(kind) => {
                if *kind == wanted {
                    match c.get_text("text") {
                        Some(s) => {
                            return Some(s.clone());
                        },
                        None => {},
                    }
                }
            },
            None => {},
        }
        i = i + 1;
    }
    None
}

/// The text that a model answered with.
pub fn extract_text(v: &Json) -> (r: Option<String>)
    ensures
        match r {
            Some(s) => reply_text(*v) == Some(s@),
            None => reply_text(*v) is None,
        },
{
    match v.get_text("output_text") {
        Some(s) => {
            return Some(s.clone());
        },
        None => {},
    }
    match v.get_list("output") {
        None => None,
        Some(items) => {
            let n: usize = items.len();
            let mut i: usize = 0;
            assert(items@.skip(0) =~= items@);
            while i < n
                invariant
                    i <= n,
                    n == items@.len(),
                    reply_text(*v) == first_item(items@.skip(i as int)),
                decreases n - i,
            {
                assert(items@.skip(i as int).skip(1) =~= items@.skip(i + 1));
                match items[i].get_list("content") {
                    Some(parts) => {
                        let found: Option<String> = part_text(parts);
                        if found.is_some() {
                            return found;
                        }
                    },
                    None => {},
                }
                i = i + 1;
            }
            None
        },
    }
}

/// The most spots that are taken from a model.
pub const MAX_DETECTED_SPOTS: usize = 30;

/// A spot within the bounds of a retouch: inside the frame, and small.
pub open spec fn tidied(s: SpotView) -> SpotView {
    SpotView {
        cx: s.cx.clamped(num(ZERO), num(ONE)),
        cy: s.cy.clamped(num(ZERO), num(ONE)),
        radius: s.radius.clamped(num(THREE_THOUSANDTHS), num(TWO_TWENTY_FIFTHS)),
        feather: if s.feather.at_most(num(ZERO)) {
            num(TWO_FIFTHS)
        } else {
            s.feather.clamped(num(ZERO), num(ONE))
        },
        ..s
    }
}

/// The spots that have a size.
pub open spec fn sized(s: Seq<SpotView>) -> Seq<SpotView>
    decreases s.len(),
{
    if s.len() == 0 {
        s
    } else if num(ZERO).less(s.last().radius) {
        sized(s.drop_last()).push(s.last())
    } else {
        sized(s.drop_last())
    }
}

/// The first thirty of the spots that have a size, each within bounds.
pub open spec fn kept(s: Seq<SpotView>) -> Seq<SpotView> {
    let all = sized(s);
    let n = if all.len() <= MAX_DETECTED_SPOTS {
        all.len()
    } else {
        MAX_DETECTED_SPOTS as nat
    };
    Seq::new(n, |i: int| tidied(all[i]))
}

fn tidy(s: HealSpot) -> (r: HealSpot)
    ensures
        r@ == tidied(s@),
        s.well_formed() ==> r.well_formed(),
{
    let zero: Single = Single::from_bits(ZERO);
    let one: Single = Single::from_bits(ONE);
    let mut r: HealSpot = s;
    r.cx = r.cx.clamp(zero, one);
    r.cy = r.cy.clamp(zero, one);
    r.radius = r.radius.clamp(
        Single::from_bits(THREE_THOUSANDTHS),
        Single::from_bits(TWO_TWENTY_FIFTHS),
    );
    r.feather = if r.feather.le(zero) {
        Single::from_bits(TWO_FIFTHS)
    } else {
        r.feather.clamp(zero, one)
    };
    r
}

proof fn lemma_sized_grows(s: Seq<SpotView>, i: int, j: int)
    requires
        0 <= i <= j <= s.len(),
    ensures
        sized(s.take(i)).len() <= sized(s.take(j)).len(),
        sized(s.take(i)) == sized(s.take(j)).take(sized(s.take(i)).len() as int),
    decreases j - i,
{
    if i < j {
        lemma_sized_grows(s, i, j - 1);
        assert(s.take(j).drop_last() =~= s.take(j - 1));
        assert(sized(s.take(i)) =~= sized(s.take(j)).take(sized(s.take(i)).len() as int));
    } else {
        assert(sized(s.take(i)) =~= sized(s.take(j)).take(sized(s.take(i)).len() as int));
    }
}

/// Keeps a model's plan within the bounds of a retouch: no spot without a size,
/// no more spots than were asked for, and none that is large.
pub fn tidy_spots(spots: Vec<HealSpot>) -> (r: Vec<HealSpot>)
    ensures
        spot_views(r@) == kept(spot_views(spots@)),
        all_well_formed(spots@) ==> all_well_formed(r@),
{
    let ghost views = spot_views(spots@);
    let ghost given = spots@;
    let n: usize = spots.len();
    let mut r: Vec<HealSpot> = Vec::new();
    let mut i: usize = 0;
    assert(views.take(0) =~= Seq::<SpotView>::empty());
    assert(spot_views(r@) =~= kept(views.take(0)));
    while i < n && r.len() < MAX_DETECTED_SPOTS
        invariant
            i <= n,
            n == spots@.len(),
            given == spots@,
            views == spot_views(given),
            r@.len() == sized(views.take(i as int)).len(),
            r@.len() <= MAX_DETECTED_SPOTS,
            spot_views(r@) == kept(views.take(i as int)),
            all_well_formed(given) ==> all_well_formed(r@),
        decreases n - i,
    {
        let s: HealSpot = spots[i].clone();
        let ghost before = r@;
        proof {
            assert(views.take(i + 1).drop_last() =~= views.take(i as int));
            assert(views.take(i + 1).last() == s@);
        }
        if Single::from_bits(ZERO).lt(s.radius) {
            let t: HealSpot = tidy(s);
            r.push(t);
            proof {
                assert(spot_views(r@) =~= spot_views(before).push(t@));
                assert(kept(views.take(i + 1)) =~= kept(views.take(i as int)).push(t@));
            }
        } else {
            proof {
                assert(kept(views.take(i + 1)) =~= kept(views.take(i as int)));
            }
        }
        i = i + 1;
    }
    proof {
        lemma_sized_grows(views, i as int, n as int);
        assert(views.take(n as int) =~= views);
        assert(kept(views) =~= kept(views.take(i as int)));
    }
    r
}

/// Every spot that has a size, and no other, is among those that have one.
proof fn lemma_sized(s: Seq<SpotView>)
    ensures
        forall|i: int| 0 <= i < sized(s).len() ==> num(ZERO).less((#[trigger] sized(s)[i]).radius),
        (forall|i: int| 0 <= i < s.len() ==> num(ZERO).less((#[trigger] s[i]).radius)) ==> sized(s)
            == s,
    decreases s.len(),
{
    if s.len() > 0 {
        lemma_sized(s.drop_last());
        if forall|i: int| 0 <= i < s.len() ==> num(ZERO).less((#[trigger] s[i]).radius) {
            assert(num(ZERO).less(s[s.len() - 1].radius));
            assert forall|i: int| 0 <= i < s.drop_last().len() implies num(ZERO).less(
                (#[trigger] s.drop_last()[i]).radius,
            ) by {
                assert(s.drop_last()[i] == s[i]);
            }
            assert(s.drop_last().push(s.last()) =~= s);
        }
    }
}

/// However many spots a model names and however large it makes them, at most
/// thirty are kept, each between three thousandths and eight hundredths of the
/// short side.
pub proof fn kept_spots_are_few_and_small(s: Seq<SpotView>)
    ensures
        kept(s).len() <= MAX_DETECTED_SPOTS,
        forall|i: int|
            0 <= i < kept(s).len() ==> num(THREE_THOUSANDTHS).at_most(
                (#[trigger] kept(s)[i]).radius,
            ) && kept(s)[i].radius.at_most(num(TWO_TWENTY_FIFTHS)),
{
    lemma_sized(s);
    assert forall|i: int| 0 <= i < kept(s).len() implies num(THREE_THOUSANDTHS).at_most(
        (#[trigger] kept(s)[i]).radius,
    ) && kept(s)[i].radius.at_most(num(TWO_TWENTY_FIFTHS)) by {
        assert(num(ZERO).less(sized(s)[i].radius));
    }
}

/// Tidying twice is tidying once.
pub proof fn tidying_twice_is_tidying_once(s: Seq<SpotView>)
    ensures
        kept(kept(s)) == kept(s),
{
    let k = kept(s);
    lemma_sized(s);
    kept_spots_are_few_and_small(s);
    assert forall|i: int| 0 <= i < k.len() implies num(ZERO).less((#[trigger] k[i]).radius) by {
        assert(num(ZERO).less(num(THREE_THOUSANDTHS)));
    }
    lemma_sized(k);
    assert forall|i: int| 0 <= i < k.len() implies tidied(#[trigger] k[i]) == k[i] by {
        assert(k[i] == tidied(sized(s)[i]));
        assert(num(ZERO).less(num(TWO_FIFTHS)));
    }
    assert(kept(k) =~= k);
}

} // verus!
