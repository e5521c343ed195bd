//! The picture that a heal run saves: at which size and depth it is healed, how
//! its transparency comes through, and under which name it is staged.

use vstd::prelude::*;
use vstd::string::*;
use crate::heal::{HealDepth, Raster, Rgb};
use crate::text::{decimal, decimal_text, lemma_between, lemma_decimal_injective};

verus! {

/// The longest side of a picture that is not healed at full size.
pub const PREVIEW_SIDE: u32 = 2048;

/// The longest side of a picture in which spots are looked for.
pub const DETECTION_SIDE: u32 = 1568;

/// The longest side that the base of a run may have; any, at full size.
pub fn base_cap(full_res: bool) -> (r: Option<u32>)
    ensures
        r == (if full_res {
            None
        } else {
            Some(PREVIEW_SIDE)
        }),
{
    if full_res {
        None
    } else {
        Some(PREVIEW_SIDE)
    }
}

/// The side that a picture is shrunk to before spots are looked for in it, if it
/// is larger.
pub fn detection_cap(w: u32, h: u32) -> (r: Option<u32>)
    ensures
        r == (if w > DETECTION_SIDE || h > DETECTION_SIDE {
            Some(DETECTION_SIDE)
        } else {
            None
        }),
{
    if w > DETECTION_SIDE || h > DETECTION_SIDE {
        Some(DETECTION_SIDE)
    } else {
        None
    }
}

/// How a picture stores its pixels.
#[derive(Clone, Copy, Debug, PartialEq, Eq, Structural)]
pub enum ColorKind {
    Luma8,
    LumaA8,
    Rgb8,
    Rgba8,
    Luma16,
    LumaA16,
    Rgb16,
    Rgba16,
    Rgb32F,
    Rgba32F,
}

impl ColorKind {
    /// It takes more than eight bits to a channel.
    pub open spec fn deep(self) -> bool {
        !(self is Luma8 || self is LumaA8 || self is Rgb8 || self is Rgba8)
    }

    /// It has transparency.
    pub open spec fn transparent(self) -> bool {
        self is LumaA8 || self is Rgba8 || self is LumaA16 || self is Rgba16 || self is Rgba32F
    }
}

/// Whether a picture is healed at sixteen bits: all but those of eight bits are.
pub fn deep_color(kind: ColorKind) -> (r: bool)
    ensures
        r == kind.deep(),
{
    match kind {
        ColorKind::Luma8 | ColorKind::LumaA8 | ColorKind::Rgb8 | ColorKind::Rgba8 => false,
        _ => true,
    }
}

/// Whether a picture's transparency is set aside while it is healed.
pub fn has_alpha(kind: ColorKind) -> (r: bool)
    ensures
        r == kind.transparent(),
{
    match kind {
        ColorKind::LumaA8 | ColorKind::Rgba8 | ColorKind::LumaA16 | ColorKind::Rgba16
        | ColorKind::Rgba32F => true,
        _ => false,
    }
}

/// A depth whose transparency can be kept at sixteen bits.
pub trait AlphaDepth: HealDepth {
    spec fn widened(self) -> u16;

    spec fn narrowed(a: u16) -> Self;

    fn widen(self) -> (r: u16)
        ensures
            r == self.widened(),
    ;

    fn narrow(a: u16) -> (r: Self)
        ensures
            r == Self::narrowed(a),
    ;

    /// Nothing is lost on the way there and back.
    proof fn lemma_there_and_back(a: Self)
        ensures
            Self::narrowed(a.widened()) == a,
    ;
}

impl AlphaDepth for u8 {
    open spec fn widened(self) -> u16 {
        (self * 257) as u16
    }

    open spec fn narrowed(a: u16) -> u8 {
        (a / 257) as u8
    }

    fn widen(self) -> (r: u16) {
        self as u16 * 257
    }

    fn narrow(a: u16) -> (r: u8) {
        (a / 257) as u8
    }

    proof fn lemma_there_and_back(a: u8) {
    }
}

impl AlphaDepth for u16 {
    open spec fn widened(self) -> u16 {
        self
    }

    open spec fn narrowed(a: u16) -> u16 {
        a
    }

    fn widen(self) -> (r: u16) {
        self
    }

    fn narrow(a: u16) -> (r: u16) {
        a
    }

    proof fn lemma_there_and_back(a: u16) {
    }
}

/// The four channels of a pixel with transparency.
#[derive(Clone, Copy, Debug, PartialEq, Eq)]
pub struct Rgba<T> {
    pub r: T,
    pub g: T,
    pub b: T,
    pub a: T,
}

/// The transparency of each pixel, at sixteen bits.
pub open spec fn alpha_plane<T: AlphaDepth>(alpha: Seq<T>) -> Seq<u16> {
    Seq::new(alpha.len(), |i: int| alpha[i].widened())
}

/// The transparency of a picture, set aside so that healing cannot touch it.
pub fn split_alpha<T: AlphaDepth>(alpha: &Vec<T>) -> (r: Vec<u16>)
    ensures
        r@ == alpha_plane(alpha@),
{
    let mut r: Vec<u16> = Vec::new();
    let n: usize = alpha.len();
    for i in 0..n
        invariant
            n == alpha@.len(),
            r@.len() == i,
            forall|j: int| 0 <= j < i ==> #[trigger] r@[j] == alpha@[j].widened(),
    {
        r.push(alpha[i].widen());
    }
    assert(r@ =~= alpha_plane(alpha@));
    r
}

/// Pixels with the transparency put back.
pub open spec fn with_alpha<T: AlphaDepth>(pixels: Seq<Rgb<T>>, alpha: Seq<u16>) -> Seq<Rgba<T>> {
    Seq::new(
        pixels.len(),
        |i: int|
            Rgba {
                r: pixels[i].r,
                g: pixels[i].g,
                b: pixels[i].b,
                a: T::narrowed(alpha[i]),
            },
    )
}

/// Puts the transparency back onto a healed picture, at its depth.
pub fn reattach_alpha<T: AlphaDepth>(healed: &Raster<T>, alpha: &Vec<u16>) -> (r: Vec<Rgba<T>>)
    requires
        alpha@.len() >= healed.pixels@.len(),
    ensures
        r@ == with_alpha(healed.pixels@, alpha@),
{
    let mut r: Vec<Rgba<T>> = Vec::new();
    let n: usize = healed.pixels.len();
    for i in 0..n
        invariant
            n == healed.pixels@.len(),
            n <= alpha@.len(),
            r@ == with_alpha(healed.pixels@, alpha@).take(i as int),
    {
        let p: Rgb<T> = healed.pixels[i];
        r.push(Rgba { r: p.r, g: p.g, b: p.b, a: T::narrow(alpha[i]) });
        assert(with_alpha(healed.pixels@, alpha@).take(i + 1) =~= with_alpha(
            healed.pixels@,
            alpha@,
        ).take(i as int).push(with_alpha(healed.pixels@, alpha@)[i as int]));
    }
    assert(with_alpha(healed.pixels@, alpha@).take(n as int) =~= with_alpha(
        healed.pixels@,
        alpha@,
    ));
    r
}

/// The transparency of a picture comes through a heal as it was, whatever the
/// heal made of its colours.
pub proof fn alpha_survives_healing<T: AlphaDepth>(pixels: Seq<Rgb<T>>, alpha: Seq<T>, i: int)
    requires
        pixels.len() == alpha.len(),
        0 <= i < pixels.len(),
    ensures
        with_alpha(pixels, alpha_plane(alpha))[i].a == alpha[i],
        with_alpha(pixels, alpha_plane(alpha))[i].r == pixels[i].r,
        with_alpha(pixels, alpha_plane(alpha))[i].g == pixels[i].g,
        with_alpha(pixels, alpha_plane(alpha))[i].b == pixels[i].b,
{
    T::lemma_there_and_back(alpha[i]);
}

/// A letter of the English alphabet in lower case.
pub open spec fn lower(c: char) -> char {
    if 'A' <= c && c <= 'Z' {
        "abcdefghijklmnopqrstuvwxyz"@[c as u32 - 65]
    } else {
        c
    }
}

pub open spec fn lowered(s: Seq<char>) -> Seq<char> {
    Seq::new(s.len(), |i: int| lower(s[i]))
}

/// The extension that a master is saved with: the one that was asked for, in
/// lower case, or else PNG's.
pub open spec fn master_ext(ext: Option<Seq<char>>) -> Seq<char> {
    match ext {
        Some(e) => lowered(e),
        None => "png"@,
    }
}

pub fn master_extension(ext: Option<&str>) -> (r: String)
    ensures
        r@ == master_ext(
            match ext {
                Some(e) => Some(e@),
                None => None,
            },
        ),
{
    match ext {
        None => "png".to_owned(),
        Some(e) => {
            let letters: &str = "abcdefghijklmnopqrstuvwxyz";
            proof {
                reveal_strlit("abcdefghijklmnopqrstuvwxyz");
            }
            let mut r: String = String::new();
            let n: usize = e.unicode_len();
            for i in 0..n
                invariant
                    n == e@.len(),
                    letters@.len() == 26,
                    letters@ == "abcdefghijklmnopqrstuvwxyz"@,
                    r@ == lowered(e@).take(i as int),
            {
                let c: char = e.get_char(i);
                let ghost before = r@;
                if 'A' <= c && c <= 'Z' {
                    let k: usize = (c as u32 - 65) as usize;
                    r.append(letters.substring_char(k, k + 1));
                    assert(letters@[k as int] == lower(c));
                    assert(letters@.subrange(k as int, k + 1) =~= seq![lower(c)]);
                } else {
                    r.append(e.substring_char(i, i + 1));
                    assert(e@.subrange(i as int, i + 1) =~= seq![lower(c)]);
                }
                assert(lowered(e@).take(i + 1) =~= before + seq![lower(c)]);
            }
            assert(lowered(e@).take(n as int) =~= lowered(e@));
            r
        },
    }
}

/// An extension, in either case, that stands for a JPEG.
pub open spec fn jpeg_extension(ext: Seq<char>) -> bool {
    let e = lowered(ext);
    e == "jpg"@ || e == "jpeg"@ || e == "jfif"@
}

/// `image::ImageFormat::from_extension`, of which one answer matters here. The
/// contract claims that it names the JPEG format for the extensions jpg, jpeg and
/// jfif, in upper or lower case letters, and for no other.
#[verifier::external_body]
fn names_jpeg(ext: &str) -> (r: bool)
    ensures
        r == jpeg_extension(ext@),
{
    matches!(image::ImageFormat::from_extension(ext), Some(image::ImageFormat::Jpeg))
}

/// Whether a master is flattened before it is saved: a JPEG has eight bits to a
/// channel, and no transparency.
pub fn flattens(ext: Option<&str>) -> (r: bool)
    ensures
        r == jpeg_extension(
            master_ext(
                match ext {
                    Some(e) => Some(e@),
                    None => None,
                },
            ),
        ),
{
    names_jpeg(master_extension(ext).as_str())
}

/// The extension that a master is staged with before it takes its name.
pub open spec fn staged_ext(ext: Seq<char>, process: nat, number: nat) -> Seq<char> {
    ext + ".tmp."@ + decimal(process) + "."@ + decimal(number)
}

pub fn staged_extension(ext: &str, process: u32, number: u64) -> (r: String)
    ensures
        r@ == staged_ext(ext@, process as nat, number as nat),
{
    let mut r: String = ext.to_owned();
    r.append(".tmp.");
    r.append(decimal_text(process as u128).as_str());
    r.append(".");
    r.append(decimal_text(number as u128).as_str());
    r
}

/// Masters that are staged one after the other in a process have different names.
pub proof fn staged_masters_do_not_collide(ext: Seq<char>, process: nat, a: nat, b: nat)
    requires
        staged_ext(ext, process, a) == staged_ext(ext, process, b),
    ensures
        a == b,
{
    let front = ext + ".tmp."@ + decimal(process) + "."@;
    assert(staged_ext(ext, process, a) =~= front + decimal(a) + Seq::<char>::empty());
    assert(staged_ext(ext, process, b) =~= front + decimal(b) + Seq::<char>::empty());
    lemma_between(front, decimal(a), decimal(b), Seq::empty());
    lemma_decimal_injective(a, b);
}

} // verus!
