//! Giving imported AI masks their alphas: the name that an alpha is cached
//! under, the questions asked about each mask in their order, and the account
//! of what came of them.

use vstd::prelude::*;
use vstd::string::*;
use vstd::utf8::encode_utf8;
use vstd::arithmetic::div_mod::{lemma_fundamental_div_mod_converse, lemma_mul_mod_noop_left};
use crate::fixed::{fixed, fixed_text, millionths, six_digits};
use crate::gesture::{gesture_points, on_one_line, points_of, prompt, sent_points};
use crate::recipe::{
    adjustment_views, component_views, pair_views, AdjustmentView, ComponentView, EditRecipe,
    GeometryView, LocalAdjustment, MaskGeometry, RecipeView,
};
use crate::scan::characters;
use crate::segment::{
    renewal_needs_probe, should_renew_cached_alpha, stale, BackendMarker, SegmentReport,
};
use crate::sidecar::{subtype_target, texts, SegmentConfig, SegmentOpts};
use crate::single::Single;
use crate::text::{decimal, decimal_text, digit, lemma_decimal_injective};

verus! {

/// The generation of the segmenting models. A change of model is a change of
/// every cached alpha's name.
pub const AI_BACKEND_GENERATION: u32 = 2;

/// Everything but a gesture that decides an alpha's pixels, as one text: the photograph,
/// the backend, the click, the frame and the generation of the models.
pub open spec fn alpha_identity(
    photo: Seq<char>,
    subtype: u32,
    ref_x: Single,
    ref_y: Single,
    quarter_turns: u8,
    generation: u32,
) -> Seq<char> {
    photo + "|"@ + decimal(subtype as nat) + "|"@ + fixed(ref_x) + "|"@ + fixed(ref_y) + "|t"@
        + decimal((quarter_turns % 4) as nat) + "|"@ + decimal(generation as nat)
}

/// What the points of a gesture add to an alpha's name: the hash of all that is sent.
/// Where nothing but the click is sent, they add nothing.
pub open spec fn gesture_mark(
    subtype: u32,
    ref_x: Single,
    ref_y: Single,
    gesture: Seq<Seq<char>>,
) -> Seq<char> {
    let sent = sent_points(subtype, ref_x, ref_y, gesture);
    if sent.len() > 1 {
        "-"@ + hex(text_hash(on_one_line(sent)), 16)
    } else {
        seq![]
    }
}

/// The hash of the first `n` bytes: each byte is mixed in and the whole is
/// multiplied on.
pub open spec fn hash_bytes(bytes: Seq<u8>, n: nat) -> u64
    decreases n,
{
    if n == 0 {
        0xcbf2_9ce4_8422_2325
    } else {
        (hash_bytes(bytes, (n - 1) as nat) ^ (bytes[n - 1] as u64)).wrapping_mul(
            0x0000_0100_0000_01b3,
        )
    }
}

/// The hash of a text.
pub open spec fn text_hash(s: Seq<char>) -> u64 {
    hash_bytes(encode_utf8(s), encode_utf8(s).len())
}

/// The hexadecimal digit `d`.
pub open spec fn hex_digit(d: u64) -> char {
    if d < 10 {
        (48 + d) as char
    } else {
        (87 + d) as char
    }
}

/// The last `n` hexadecimal digits of `h`.
pub open spec fn hex(h: u64, n: nat) -> Seq<char>
    decreases n,
{
    if n == 0 {
        seq![]
    } else {
        hex(h / 16, (n - 1) as nat).push(hex_digit(h % 16))
    }
}

/// The name that the alpha of an identity is cached under, of a mask that sends nothing
/// but its click.
pub open spec fn plain_name(identity: Seq<char>) -> Seq<char> {
    "ai-mask-"@ + hex(text_hash(identity), 16)
}

/// The name that an alpha is cached under: the hash of its identity and, of an object with
/// a gesture, that of the points that are sent.
pub open spec fn alpha_name(
    photo: Seq<char>,
    subtype: u32,
    ref_x: Single,
    ref_y: Single,
    gesture: Seq<Seq<char>>,
    quarter_turns: u8,
    generation: u32,
) -> Seq<char> {
    plain_name(alpha_identity(photo, subtype, ref_x, ref_y, quarter_turns, generation))
        + gesture_mark(subtype, ref_x, ref_y, gesture)
}

fn hash_text(s: &String) -> (h: u64)
    ensures
        h == text_hash(s@),
{
    let bytes: &[u8] = s.as_str().as_bytes();
    let n: usize = bytes.len();
    let mut h: u64 = 0xcbf2_9ce4_8422_2325;
    for i in 0..n
        invariant
            n == bytes@.len(),
            h == hash_bytes(bytes@, i as nat),
    {
        h = (h ^ (bytes[i] as u64)).wrapping_mul(0x0000_0100_0000_01b3);
    }
    h
}

fn hex_digit_text(d: u64) -> (s: &'static str)
    requires
        d < 16,
    ensures
        s@ == seq![hex_digit(d)],
{
    proof {
        reveal_strlit("0");
        reveal_strlit("1");
        reveal_strlit("2");
        reveal_strlit("3");
        reveal_strlit("4");
        reveal_strlit("5");
        reveal_strlit("6");
        reveal_strlit("7");
        reveal_strlit("8");
        reveal_strlit("9");
        reveal_strlit("a");
        reveal_strlit("b");
        reveal_strlit("c");
        reveal_strlit("d");
        reveal_strlit("e");
        reveal_strlit("f");
    }
    match d {
        0 => "0",
        1 => "1",
        2 => "2",
        3 => "3",
        4 => "4",
        5 => "5",
        6 => "6",
        7 => "7",
        8 => "8",
        9 => "9",
        10 => "a",
        11 => "b",
        12 => "c",
        13 => "d",
        14 => "e",
        _ => "f",
    }
}

fn hex_text(h: u64, n: u32) -> (s: String)
    ensures
        s@ == hex(h, n as nat),
    decreases n,
{
    if n == 0 {
        String::new()
    } else {
        let mut s: String = hex_text(h / 16, n - 1);
        s.append(hex_digit_text(h % 16));
        assert(s@ =~= hex(h, n as nat));
        s
    }
}

/// The name that an alpha of today's models is cached under, for a mask without a
/// gesture.
pub fn ai_cache_key(photo: &str, subtype: u32, ref_x: Single, ref_y: Single, quarter_turns: u8) -> (r:
    String)
    ensures
        r@ == plain_name(
            alpha_identity(photo@, subtype, ref_x, ref_y, quarter_turns, AI_BACKEND_GENERATION),
        ),
        r@ == alpha_name(
            photo@,
            subtype,
            ref_x,
            ref_y,
            seq![],
            quarter_turns,
            AI_BACKEND_GENERATION,
        ),
{
    ai_cache_key_gen(photo, subtype, ref_x, ref_y, quarter_turns, AI_BACKEND_GENERATION)
}

/// The name that an alpha of any generation of models is cached under, for a mask
/// without a gesture.
pub fn ai_cache_key_gen(
    photo: &str,
    subtype: u32,
    ref_x: Single,
    ref_y: Single,
    quarter_turns: u8,
    generation: u32,
) -> (r: String)
    ensures
        r@ == plain_name(
            alpha_identity(photo@, subtype, ref_x, ref_y, quarter_turns, generation),
        ),
        r@ == alpha_name(photo@, subtype, ref_x, ref_y, seq![], quarter_turns, generation),
{
    let mut ident: String = photo.to_owned();
    ident.append("|");
    ident.append(decimal_text(subtype as u128).as_str());
    ident.append("|");
    ident.append(fixed_text(ref_x).as_str());
    ident.append("|");
    ident.append(fixed_text(ref_y).as_str());
    ident.append("|t");
    ident.append(decimal_text((quarter_turns % 4) as u128).as_str());
    ident.append("|");
    ident.append(decimal_text(generation as u128).as_str());
    let h: u64 = hash_text(&ident);
    let mut name: String = "ai-mask-".to_owned();
    name.append(hex_text(h, 16).as_str());
    assert(name@ =~= alpha_name(
        photo@,
        subtype,
        ref_x,
        ref_y,
        seq![],
        quarter_turns,
        generation,
    ));
    name
}

/// The name that an alpha is cached under, for a mask with these points in its gesture.
pub fn gesture_cache_key(
    photo: &str,
    subtype: u32,
    ref_x: Single,
    ref_y: Single,
    gesture: &Vec<String>,
    quarter_turns: u8,
    generation: u32,
) -> (r: String)
    ensures
        r@ == alpha_name(
            photo@,
            subtype,
            ref_x,
            ref_y,
            texts(gesture@),
            quarter_turns,
            generation,
        ),
{
    let mut name: String = ai_cache_key_gen(
        photo,
        subtype,
        ref_x,
        ref_y,
        quarter_turns,
        generation,
    );
    let ghost plain = name@;
    if subtype == 0 && gesture.len() > 0 {
        let sent: u64 = hash_text(&prompt(subtype, ref_x, ref_y, gesture));
        name.append("-");
        name.append(hex_text(sent, 16).as_str());
    }
    assert(name@ =~= plain + gesture_mark(subtype, ref_x, ref_y, texts(gesture@)));
    name
}

/// Where the extension of the file name at the end of a path begins: at its last dot, if
/// that is not the name's first character; else at its end.
pub open spec fn extension_at(path: Seq<char>, n: nat) -> nat
    decreases n,
{
    if n <= 1 || path[n - 1] == '/' || path[n - 2] == '/' {
        path.len()
    } else if path[n - 1] == '.' {
        (n - 1) as nat
    } else {
        extension_at(path, (n - 1) as nat)
    }
}

/// The path ends in the name of a file, and not in a separator or in a step. What a
/// backslash means depends on the machine; here there is none.
pub open spec fn names_a_file(path: Seq<char>) -> bool {
    let name = path.skip(path.len() - last_part_len(path));
    &&& name.len() > 0
    &&& name != "."@
    &&& name != ".."@
    &&& forall|i: int| 0 <= i < path.len() ==> path[i] != '\\'
}

/// The length of the last part of a path.
pub open spec fn last_part_len(path: Seq<char>) -> nat
    decreases path.len(),
{
    if path.len() == 0 || path.last() == '/' {
        0
    } else {
        1 + last_part_len(path.drop_last())
    }
}

/// The path of the marker beside the alpha at the path `alpha`.
pub open spec fn marker_name(alpha: Seq<char>) -> Seq<char> {
    alpha.take(extension_at(alpha, alpha.len()) as int) + ".backend"@
}

/// The path of the marker beside an alpha: the alpha's own, under another extension.
pub fn backend_marker_path(alpha: &str) -> (r: String)
    requires
        names_a_file(alpha@),
    ensures
        r@ == marker_name(alpha@),
{
    let v: Vec<char> = characters(alpha);
    let mut n: usize = v.len();
    while n > 1 && v[n - 1] != '/' && v[n - 2] != '/' && v[n - 1] != '.'
        invariant
            v@ == alpha@,
            n <= v@.len(),
            extension_at(alpha@, alpha@.len()) == extension_at(alpha@, n as nat),
        decreases n,
    {
        n = n - 1;
    }
    let cut: usize = if n <= 1 || v[n - 1] == '/' || v[n - 2] == '/' {
        v.len()
    } else {
        n - 1
    };
    let mut s: String = alpha.substring_char(0, cut).to_owned();
    s.append(".backend");
    s
}

// ---- the AI masks of a recipe ----

/// One AI mask of a recipe: where it is, what it is called, and what it asks.
#[derive(Debug)]
pub struct AiShape {
    pub mask: usize,
    /// The component, if it is not the mask's main shape.
    pub component: Option<usize>,
    pub name: String,
    pub subtype: u32,
    pub ref_x: Single,
    pub ref_y: Single,
    /// The points of its gesture, as they are spelled.
    pub gesture: Vec<String>,
}

/// What an [`AiShape`] says.
#[verifier::ext_equal]
pub struct ShapeView {
    pub mask: nat,
    pub component: Option<nat>,
    pub name: Seq<char>,
    pub subtype: u32,
    pub ref_x: Single,
    pub ref_y: Single,
    pub gesture: Seq<Seq<char>>,
}

impl View for AiShape {
    type V = ShapeView;

    open spec fn view(&self) -> ShapeView {
        ShapeView {
            mask: self.mask as nat,
            component: match self.component {
                Some(c) => Some(c as nat),
                None => None,
            },
            name: self.name@,
            subtype: self.subtype,
            ref_x: self.ref_x,
            ref_y: self.ref_y,
            gesture: texts(self.gesture@),
        }
    }
}

impl AiShape {
    /// The name that its alpha is cached under, by today's models.
    pub fn cache_key(&self, photo: &str, quarter_turns: u8) -> (r: String)
        ensures
            r@ == alpha_name(
                photo@,
                self@.subtype,
                self@.ref_x,
                self@.ref_y,
                self@.gesture,
                quarter_turns,
                AI_BACKEND_GENERATION,
            ),
    {
        gesture_cache_key(
            photo,
            self.subtype,
            self.ref_x,
            self.ref_y,
            &self.gesture,
            quarter_turns,
            AI_BACKEND_GENERATION,
        )
    }
}

pub open spec fn shape_views(v: Seq<AiShape>) -> Seq<ShapeView> {
    Seq::new(v.len(), |i: int| v[i]@)
}

/// The name that a mask is spoken of by.
pub open spec fn spoken_name(name: Seq<char>) -> Seq<char> {
    if name.len() == 0 {
        "unnamed"@
    } else {
        name
    }
}

/// The AI mask that a shape is, if it is one.
pub open spec fn ai_shape(
    g: GeometryView,
    mask: nat,
    component: Option<nat>,
    name: Seq<char>,
) -> Seq<ShapeView> {
    match g {
        GeometryView::AiMask { subtype, ref_x, ref_y, gesture, .. } => seq![
            ShapeView {
                mask,
                component,
                name: spoken_name(name),
                subtype,
                ref_x,
                ref_y,
                gesture: gesture_points(gesture),
            },
        ],
        _ => seq![],
    }
}

/// The AI masks among a mask's components.
pub open spec fn component_ai_shapes(
    s: Seq<ComponentView>,
    mask: nat,
    name: Seq<char>,
) -> Seq<ShapeView>
    decreases s.len(),
{
    if s.len() == 0 {
        seq![]
    } else {
        component_ai_shapes(s.drop_last(), mask, name) + ai_shape(
            s.last().geometry,
            mask,
            Some((s.len() - 1) as nat),
            name,
        )
    }
}

/// The AI masks of a list of adjustments, in order, each mask's main shape
/// before its components.
pub open spec fn all_ai_shapes(s: Seq<AdjustmentView>) -> Seq<ShapeView>
    decreases s.len(),
{
    if s.len() == 0 {
        seq![]
    } else {
        let m = s.last();
        let i = (s.len() - 1) as nat;
        all_ai_shapes(s.drop_last()) + ai_shape(m.mask, i, None, m.name) + component_ai_shapes(
            m.components,
            i,
            m.name,
        )
    }
}

fn push_ai_shape(
    out: &mut Vec<AiShape>,
    g: &MaskGeometry,
    mask: usize,
    component: Option<usize>,
    name: &String,
)
    ensures
        shape_views(final(out)@) == shape_views(old(out)@) + ai_shape(
            g@,
            mask as nat,
            match component {
                Some(c) => Some(c as nat),
                None => None,
            },
            name@,
        ),
{
    let ghost before = shape_views(out@);
    if let MaskGeometry::AiMask { subtype, ref_x, ref_y, gesture, .. } = g {
        let spoken: String = if name.as_str().is_empty() {
            "unnamed".to_owned()
        } else {
            name.clone()
        };
        let shape: AiShape = AiShape {
            mask,
            component,
            name: spoken,
            subtype: *subtype,
            ref_x: *ref_x,
            ref_y: *ref_y,
            gesture: points_of(gesture),
        };
        let ghost w = shape@;
        out.push(shape);
        assert(shape_views(out@) =~= before + seq![w]);
    } else {
        assert(shape_views(out@) =~= before + seq![]);
    }
}

/// The AI masks of a recipe, in the order in which they are resolved.
pub fn ai_shapes(recipe: &EditRecipe) -> (r: Vec<AiShape>)
    ensures
        shape_views(r@) == all_ai_shapes(recipe@.masks),
        forall|i: int| 0 <= i < r@.len() ==> points_into((#[trigger] r@[i])@, recipe@.masks),
{
    let mut out: Vec<AiShape> = Vec::new();
    let masks: &Vec<LocalAdjustment> = &recipe.masks;
    let n: usize = masks.len();
    let ghost all = adjustment_views(masks@);
    assert(all.take(0) =~= Seq::<AdjustmentView>::empty());
    assert(shape_views(out@) =~= Seq::<ShapeView>::empty());
    for i in 0..n
        invariant
            n == masks@.len(),
            all == adjustment_views(masks@),
            shape_views(out@) == all_ai_shapes(all.take(i as int)),
    {
        let m: &LocalAdjustment = &masks[i];
        let k: usize = m.components.len();
        let ghost before = shape_views(out@);
        let ghost parts = component_views(m.components@);
        let ghost main = ai_shape(m.mask@, i as nat, None, m.name@);
        proof {
            assert(all[i as int] == m@);
            assert(all.take(i + 1).drop_last() =~= all.take(i as int));
            assert(all.take(i + 1).last() == m@);
        }
        push_ai_shape(&mut out, &m.mask, i, None, &m.name);
        assert(parts.take(0) =~= Seq::<ComponentView>::empty());
        assert(before + main + component_ai_shapes(parts.take(0), i as nat, m.name@) =~= before
            + main);
        for j in 0..k
            invariant
                k == m.components@.len(),
                parts == component_views(m.components@),
                shape_views(out@) == before + main + component_ai_shapes(
                    parts.take(j as int),
                    i as nat,
                    m.name@,
                ),
        {
            let ghost here = component_ai_shapes(parts.take(j as int), i as nat, m.name@);
            let ghost one = ai_shape(
                m.components@[j as int].geometry@,
                i as nat,
                Some(j as nat),
                m.name@,
            );
            proof {
                assert(parts.take(j + 1).drop_last() =~= parts.take(j as int));
                assert(parts.take(j + 1).last() == parts[j as int]);
            }
            push_ai_shape(&mut out, &m.components[j].geometry, i, Some(j), &m.name);
            assert(before + main + (here + one) =~= before + main + here + one);
        }
        assert(parts.take(parts.len() as int) =~= parts);
    }
    assert(all.take(all.len() as int) =~= all);
    proof {
        lemma_shapes_point_in(all);
        assert forall|i: int| 0 <= i < out@.len() implies points_into((#[trigger] out@[i])@, all) by {
            assert(shape_views(out@)[i] == out@[i]@);
        }
    }
    out
}

/// Every listed component is one of the list's.
proof fn lemma_components_point_in(s: Seq<ComponentView>, mask: nat, name: Seq<char>)
    ensures
        forall|i: int|
            0 <= i < component_ai_shapes(s, mask, name).len() ==> {
                let w = #[trigger] component_ai_shapes(s, mask, name)[i];
                w.mask == mask && w.component is Some && w.component->0 < s.len()
            },
    decreases s.len(),
{
    if s.len() > 0 {
        lemma_components_point_in(s.drop_last(), mask, name);
        let before = component_ai_shapes(s.drop_last(), mask, name);
        assert forall|i: int| 0 <= i < component_ai_shapes(s, mask, name).len() implies {
            let w = #[trigger] component_ai_shapes(s, mask, name)[i];
            w.mask == mask && w.component is Some && w.component->0 < s.len()
        } by {
            if i < before.len() {
                assert(component_ai_shapes(s, mask, name)[i] == before[i]);
            }
        }
    }
}

/// Every listed shape is one of the recipe's.
proof fn lemma_shapes_point_in(s: Seq<AdjustmentView>)
    ensures
        forall|i: int|
            0 <= i < all_ai_shapes(s).len() ==> points_into(#[trigger] all_ai_shapes(s)[i], s),
    decreases s.len(),
{
    if s.len() > 0 {
        lemma_shapes_point_in(s.drop_last());
        let m = s.last();
        let k = (s.len() - 1) as nat;
        let before = all_ai_shapes(s.drop_last());
        let main = ai_shape(m.mask, k, None, m.name);
        let parts = component_ai_shapes(m.components, k, m.name);
        lemma_components_point_in(m.components, k, m.name);
        assert forall|i: int| 0 <= i < all_ai_shapes(s).len() implies points_into(
            #[trigger] all_ai_shapes(s)[i],
            s,
        ) by {
            let w = all_ai_shapes(s)[i];
            if i < before.len() {
                assert(w == before[i]);
                assert(points_into(before[i], s.drop_last()));
                assert(s.drop_last()[w.mask as int] == s[w.mask as int]);
            } else if i < before.len() + main.len() {
                assert(w == main[i - before.len()]);
            } else {
                assert(w == parts[i - before.len() - main.len()]);
            }
        }
    }
}

/// A shape with another alpha, if it is an AI mask.
pub open spec fn with_alpha(g: GeometryView, path: Seq<char>) -> GeometryView {
    match g {
        GeometryView::AiMask {
            name,
            subtype,
            ref_x,
            ref_y,
            blend_mode,
            value,
            inverted,
            mask_version,
            provenance,
            gesture,
            raster,
        } => GeometryView::AiMask {
            name,
            subtype,
            ref_x,
            ref_y,
            blend_mode,
            value,
            inverted,
            mask_version,
            provenance,
            gesture,
            raster: Some(path),
        },
        _ => g,
    }
}

/// An adjustment with another alpha in one of its shapes.
pub open spec fn adjustment_with_alpha(
    m: AdjustmentView,
    component: Option<nat>,
    path: Seq<char>,
) -> AdjustmentView {
    match component {
        None => AdjustmentView { mask: with_alpha(m.mask, path), ..m },
        Some(c) => AdjustmentView {
            components: m.components.update(
                c as int,
                ComponentView {
                    geometry: with_alpha(m.components[c as int].geometry, path),
                    ..m.components[c as int]
                },
            ),
            ..m
        },
    }
}

/// The shape is one of the recipe's.
pub open spec fn points_into(s: ShapeView, masks: Seq<AdjustmentView>) -> bool {
    &&& s.mask < masks.len()
    &&& s.component is Some ==> s.component->0 < masks[s.mask as int].components.len()
}

fn set_alpha(g: &mut MaskGeometry, path: String)
    ensures
        final(g)@ == with_alpha(old(g)@, path@),
{
    if let MaskGeometry::AiMask { raster, .. } = g {
        *raster = Some(path);
    }
}

fn set_adjustment_alpha(m: &mut LocalAdjustment, component: Option<usize>, path: String)
    requires
        component is Some ==> component->0 < old(m)@.components.len(),
    ensures
        final(m)@ == adjustment_with_alpha(
            old(m)@,
            match component {
                Some(c) => Some(c as nat),
                None => None,
            },
            path@,
        ),
{
    match component {
        None => set_alpha(&mut m.mask, path),
        Some(c) => {
            set_alpha(&mut m.components[c].geometry, path);
            assert(m@.components =~= adjustment_with_alpha(
                old(m)@,
                Some(c as nat),
                path@,
            ).components);
        },
    }
}

// ---- what came of it ----

/// What came of one AI mask.
#[derive(Debug)]
pub enum AlphaOutcome {
    /// The cached alpha at `path` serves.
    Reused { path: String },
    /// The segmenter made the alpha at `path`, in place of one that it could
    /// not make so well before if `renewed`.
    Made { path: String, renewed: bool },
    /// There is no alpha; the mask stays as it was imported.
    Left { why: String },
}

/// What one pass over a recipe's AI masks did.
#[derive(Debug, PartialEq, Eq)]
pub struct AiMaskResolution {
    /// Masks that have an alpha now, cached ones included.
    pub resolved: usize,
    /// Masks whose cached alpha served.
    pub cached: usize,
    /// Masks whose cached alpha was made anew.
    pub renewed: usize,
    /// Masks without an alpha, each with the reason.
    pub unresolved: Vec<(String, String)>,
}

/// What an [`AiMaskResolution`] says.
#[verifier::ext_equal]
pub struct ResolutionView {
    pub resolved: nat,
    pub cached: nat,
    pub renewed: nat,
    pub unresolved: Seq<(Seq<char>, Seq<char>)>,
}

impl View for AiMaskResolution {
    type V = ResolutionView;

    open spec fn view(&self) -> ResolutionView {
        ResolutionView {
            resolved: self.resolved as nat,
            cached: self.cached as nat,
            renewed: self.renewed as nat,
            unresolved: pair_views(self.unresolved@),
        }
    }
}

impl ResolutionView {
    /// Nothing was done.
    pub open spec fn nothing() -> ResolutionView {
        ResolutionView { resolved: 0, cached: 0, renewed: 0, unresolved: seq![] }
    }

    /// One more mask.
    pub open spec fn with(self, name: Seq<char>, outcome: AlphaOutcome) -> ResolutionView {
        match outcome {
            AlphaOutcome::Reused { .. } => ResolutionView {
                resolved: self.resolved + 1,
                cached: self.cached + 1,
                ..self
            },
            AlphaOutcome::Made { renewed, .. } => ResolutionView {
                resolved: self.resolved + 1,
                renewed: if renewed { self.renewed + 1 } else { self.renewed },
                ..self
            },
            AlphaOutcome::Left { why } => ResolutionView {
                unresolved: self.unresolved.push((name, why@)),
                ..self
            },
        }
    }

    /// The parts about masks that have no alpha, each after a semicolon if
    /// something stands before it.
    pub open spec fn with_unresolved(
        line: Seq<char>,
        s: Seq<(Seq<char>, Seq<char>)>,
    ) -> Seq<char>
        decreases s.len(),
    {
        if s.len() == 0 {
            line
        } else {
            let before = ResolutionView::with_unresolved(line, s.drop_last());
            let joint = if before.len() == 0 { seq![] } else { "; "@ };
            before + joint + "AI mask \""@ + s.last().0 + "\" carried but NOT rendered ("@
                + s.last().1 + ")"@
        }
    }

    /// The part about masks that have an alpha.
    pub open spec fn resolved_line(self) -> Seq<char> {
        if self.resolved == 0 {
            seq![]
        } else {
            decimal(self.resolved)
                + " AI mask(s) re-derived by the local segmenter (NOT Adobe's own raster — the sidecar carries no pixels, so the alpha is an approximation of the photographer's intent)"@
                + (if self.cached > 0 {
                "; "@ + decimal(self.cached) + " reused from the develop cache"@
            } else {
                seq![]
            }) + (if self.renewed > 0 {
                "; "@ + decimal(self.renewed)
                    + " re-segmented because this machine can now run the BiRefNet subject backend it previously fell back from"@
            } else {
                seq![]
            })
        }
    }

    /// The whole account in words.
    pub open spec fn sentence(self) -> Seq<char> {
        ResolutionView::with_unresolved(self.resolved_line(), self.unresolved)
    }
}

impl Default for AiMaskResolution {
    fn default() -> (r: AiMaskResolution)
        ensures
            r@ == ResolutionView::nothing(),
    {
        let r: AiMaskResolution = AiMaskResolution {
            resolved: 0,
            cached: 0,
            renewed: 0,
            unresolved: Vec::new(),
        };
        assert(r@ =~= ResolutionView::nothing());
        r
    }
}

impl AiMaskResolution {
    /// The account in words, if there is anything to say. It says of every
    /// alpha that it was computed here.
    pub fn describe(&self) -> (r: Option<String>)
        ensures
            r is None <==> (self@.resolved == 0 && self@.unresolved.len() == 0),
            r is Some ==> r->0@ == self@.sentence(),
    {
        if self.resolved == 0 && self.unresolved.len() == 0 {
            return None;
        }
        let mut s: String = String::new();
        if self.resolved > 0 {
            s = decimal_text(self.resolved as u128);
            s.append(
                " AI mask(s) re-derived by the local segmenter (NOT Adobe's own raster — the sidecar carries no pixels, so the alpha is an approximation of the photographer's intent)",
            );
            if self.cached > 0 {
                s.append("; ");
                s.append(decimal_text(self.cached as u128).as_str());
                s.append(" reused from the develop cache");
            }
            if self.renewed > 0 {
                s.append("; ");
                s.append(decimal_text(self.renewed as u128).as_str());
                s.append(
                    " re-segmented because this machine can now run the BiRefNet subject backend it previously fell back from",
                );
            }
        }
        let ghost line = self@.resolved_line();
        assert(s@ =~= line);
        let ghost all = self@.unresolved;
        let n: usize = self.unresolved.len();
        assert(all.take(0) =~= Seq::<(Seq<char>, Seq<char>)>::empty());
        for i in 0..n
            invariant
                n == self.unresolved@.len(),
                all == pair_views(self.unresolved@),
                s@ == ResolutionView::with_unresolved(line, all.take(i as int)),
        {
            let ghost before = s@;
            proof {
                assert(all.take(i + 1).drop_last() =~= all.take(i as int));
                assert(all.take(i + 1).last() == all[i as int]);
            }
            if !s.as_str().is_empty() {
                s.append("; ");
            }
            s.append("AI mask \"");
            s.append(self.unresolved[i].0.as_str());
            s.append("\" carried but NOT rendered (");
            s.append(self.unresolved[i].1.as_str());
            s.append(")");
            assert(s@ =~= ResolutionView::with_unresolved(line, all.take(i + 1)));
        }
        assert(all.take(all.len() as int) =~= all);
        Some(s)
    }
}

/// A recipe's masks with what came of one AI mask.
pub open spec fn masks_with(
    masks: Seq<AdjustmentView>,
    s: ShapeView,
    outcome: AlphaOutcome,
) -> Seq<AdjustmentView> {
    match outcome {
        AlphaOutcome::Reused { path } | AlphaOutcome::Made { path, .. } => masks.update(
            s.mask as int,
            adjustment_with_alpha(masks[s.mask as int], s.component, path@),
        ),
        AlphaOutcome::Left { .. } => masks,
    }
}

/// Enters what came of one AI mask into the recipe and into the account.
pub fn settle(
    recipe: &mut EditRecipe,
    account: &mut AiMaskResolution,
    shape: &AiShape,
    outcome: AlphaOutcome,
)
    requires
        points_into(shape@, old(recipe)@.masks),
        old(account).resolved < usize::MAX,
        old(account).cached < usize::MAX,
        old(account).renewed < usize::MAX,
    ensures
        final(account)@ == old(account)@.with(shape@.name, outcome),
        final(recipe)@ == (RecipeView {
            masks: masks_with(old(recipe)@.masks, shape@, outcome),
            ..old(recipe)@
        }),
{
    let ghost before = account@;
    match outcome {
        AlphaOutcome::Reused { path } => {
            account.resolved = account.resolved + 1;
            account.cached = account.cached + 1;
            set_adjustment_alpha(&mut recipe.masks[shape.mask], shape.component, path);
            assert(recipe@.masks =~= old(recipe)@.masks.update(
                shape@.mask as int,
                adjustment_with_alpha(
                    old(recipe)@.masks[shape@.mask as int],
                    shape@.component,
                    path@,
                ),
            ));
        },
        AlphaOutcome::Made { path, renewed } => {
            account.resolved = account.resolved + 1;
            if renewed {
                account.renewed = account.renewed + 1;
            }
            set_adjustment_alpha(&mut recipe.masks[shape.mask], shape.component, path);
            assert(recipe@.masks =~= old(recipe)@.masks.update(
                shape@.mask as int,
                adjustment_with_alpha(
                    old(recipe)@.masks[shape@.mask as int],
                    shape@.component,
                    path@,
                ),
            ));
        },
        AlphaOutcome::Left { why } => {
            account.unresolved.push((shape.name.clone(), why));
            assert(account@.unresolved =~= before.unresolved.push((shape@.name, why@)));
        },
    }
}

/// A recipe's masks with what came of its first `n` AI masks.
pub open spec fn masks_after(
    masks: Seq<AdjustmentView>,
    shapes: Seq<ShapeView>,
    outcomes: Seq<AlphaOutcome>,
    n: nat,
) -> Seq<AdjustmentView>
    decreases n,
{
    if n == 0 {
        masks
    } else {
        masks_with(
            masks_after(masks, shapes, outcomes, (n - 1) as nat),
            shapes[n - 1],
            outcomes[n - 1],
        )
    }
}

/// The account of the first `n` AI masks.
pub open spec fn account_of(
    shapes: Seq<ShapeView>,
    outcomes: Seq<AlphaOutcome>,
    n: nat,
) -> ResolutionView
    decreases n,
{
    if n == 0 {
        ResolutionView::nothing()
    } else {
        account_of(shapes, outcomes, (n - 1) as nat).with(shapes[n - 1].name, outcomes[n - 1])
    }
}

/// Enters what came of every AI mask of a recipe, in the order of [`ai_shapes`], and
/// gives the account of it.
pub fn settle_all(recipe: &mut EditRecipe, outcomes: Vec<AlphaOutcome>) -> (account:
    AiMaskResolution)
    requires
        outcomes@.len() == all_ai_shapes(old(recipe)@.masks).len(),
    ensures
        ({
            let shapes = all_ai_shapes(old(recipe)@.masks);
            &&& account@ == account_of(shapes, outcomes@, shapes.len())
            &&& final(recipe)@ == (RecipeView {
                masks: masks_after(old(recipe)@.masks, shapes, outcomes@, shapes.len()),
                ..old(recipe)@
            })
        }),
{
    let shapes: Vec<AiShape> = ai_shapes(recipe);
    let mut account: AiMaskResolution = AiMaskResolution::default();
    let ghost all = shape_views(shapes@);
    let ghost given = outcomes@;
    let ghost masks = recipe@.masks;
    let ghost start = recipe@;
    let n: usize = shapes.len();
    let mut i: usize = 0;
    let mut left: Vec<AlphaOutcome> = outcomes;
    assert(left@ =~= given.skip(0));
    while i < n
        invariant
            i <= n == shapes@.len() == given.len(),
            all == shape_views(shapes@),
            left@ == given.skip(i as int),
            forall|k: int| 0 <= k < n ==> points_into((#[trigger] shapes@[k])@, recipe@.masks),
            account@ == account_of(all, given, i as nat),
            account.resolved <= i,
            account.cached <= i,
            account.renewed <= i,
            masks == start.masks,
            recipe@ == (RecipeView { masks: masks_after(masks, all, given, i as nat), ..start }),
        decreases n - i,
    {
        let ghost before = recipe@.masks;
        assert(points_into(shapes@[i as int]@, before));
        let outcome: AlphaOutcome = left.remove(0);
        assert(left@ =~= given.skip(i + 1));
        settle(recipe, &mut account, &shapes[i], outcome);
        proof {
            assert(outcome == given[i as int]);
            assert(all[i as int] == shapes@[i as int]@);
            assert forall|k: int| 0 <= k < n implies points_into(
                (#[trigger] shapes@[k])@,
                recipe@.masks,
            ) by {
                entering_an_outcome_moves_no_shape(
                    before,
                    shapes@[i as int]@,
                    shapes@[k]@,
                    outcome,
                );
            }
        }
        i = i + 1;
    }
    account
}

// ---- the questions about one mask ----

/// The source frame that the segmenter reads: staged once for a whole pass.
#[derive(Clone, Copy, Debug, PartialEq, Eq, Structural)]
pub enum FrameState {
    Unasked,
    Ready,
    Failed,
}

/// What a mask's resolution waits for.
#[derive(Clone, Copy, Debug, PartialEq, Eq, Structural)]
pub enum AlphaState {
    /// Is there a usable alpha under the name, and with what marker?
    Looking,
    /// Can this machine run the primary backend?
    Probing,
    /// The old alpha and its marker to go.
    Clearing,
    /// Is the sidecar there?
    Finding,
    /// The source frame.
    Staging,
    /// The sidecar to finish.
    Running,
    /// Nothing any more.
    Over,
}

/// What is to be done next about a mask.
#[derive(Debug)]
pub enum AlphaStep {
    /// Ask the sidecar whether it can run the primary backend.
    Probe,
    /// Remove the alpha and its marker.
    Clear,
    /// Look for the sidecar's script.
    FindScript,
    /// Decode the source frame and put it where the sidecar can read it.
    StageFrame,
    /// Run the sidecar.
    Segment,
    /// Be done.
    Done { outcome: AlphaOutcome },
}

/// The resolution of one AI mask.
#[derive(Debug)]
pub struct AlphaJob {
    pub state: AlphaState,
    /// The name that the alpha is cached under.
    pub key: String,
    /// What the sidecar would be run with; none for a subtype without backend.
    pub opts: Option<SegmentOpts>,
    pub subtype: u32,
    /// The path of the usable alpha that was found, or that a run is to make.
    pub path: String,
    pub marker: Option<BackendMarker>,
    pub renewing: bool,
}

impl AlphaStep {
    /// Done: the mask is left as it was, for this reason.
    pub open spec fn leaves(self, reason: Seq<char>) -> bool {
        self matches AlphaStep::Done { outcome: AlphaOutcome::Left { why } } && why@ == reason
    }

    /// Done: the cached alpha at this path serves.
    pub open spec fn reuses(self, at: Seq<char>) -> bool {
        self matches AlphaStep::Done { outcome: AlphaOutcome::Reused { path } } && path@ == at
    }

    /// Done: the alpha at this path was made.
    pub open spec fn makes(self, at: Seq<char>, anew: bool) -> bool {
        self matches AlphaStep::Done { outcome: AlphaOutcome::Made { path, renewed } } && path@
            == at && renewed == anew
    }
}

/// The outcome that a missing backend leaves.
pub open spec fn no_backend(subtype: u32) -> Seq<char> {
    "no backend for subtype "@ + decimal(subtype as nat)
}

impl AlphaJob {
    /// The first question about a mask is whether its alpha is cached.
    pub fn new(cfg: &SegmentConfig, photo: &str, shape: &AiShape, quarter_turns: u8, path: String) -> (r:
        AlphaJob)
        ensures
            r.state is Looking,
            !r.renewing,
            r.subtype == shape.subtype,
            r.path@ == path@,
            r.key@ == alpha_name(
                photo@,
                shape.subtype,
                shape.ref_x,
                shape.ref_y,
                texts(shape.gesture@),
                quarter_turns,
                AI_BACKEND_GENERATION,
            ),
            r.opts is Some <==> subtype_target(shape.subtype) is Some,
            r.opts is Some ==> {
                &&& Some(r.opts->0.target@) == subtype_target(shape.subtype)
                &&& r.opts->0.script@ == cfg.segment_script@
                &&& r.opts->0.python_bin@ == cfg.python_bin@
                &&& r.opts->0.reference_point is Some
                &&& r.opts->0.reference_point->0@ == on_one_line(
                    sent_points(shape.subtype, shape.ref_x, shape.ref_y, texts(shape.gesture@)),
                )
            },
            shape.subtype == 0 ==> r.opts is Some && r.opts->0.target@ == "object"@,
            shape.subtype == 1 ==> r.opts is Some && r.opts->0.target@ == "subject"@,
            shape.subtype == 2 ==> r.opts is Some && r.opts->0.target@ == "sky"@,
            shape.subtype > 2 ==> r.opts is None,
    {
        AlphaJob {
            state: AlphaState::Looking,
            key: shape.cache_key(photo, quarter_turns),
            opts: SegmentOpts::for_ai_mask(
                cfg,
                shape.subtype,
                shape.ref_x,
                shape.ref_y,
                &shape.gesture,
            ),
            subtype: shape.subtype,
            path,
            marker: None,
            renewing: false,
        }
    }

    /// What the job is about does not change on the way.
    pub open spec fn same_job(self, other: AlphaJob) -> bool {
        &&& self.key@ == other.key@
        &&& self.opts == other.opts
        &&& self.subtype == other.subtype
        &&& self.path@ == other.path@
    }

    /// The alpha that is there serves.
    fn reuse(&mut self) -> (r: AlphaStep)
        ensures
            final(self).state is Over,
            final(self).same_job(*old(self)),
            final(self).renewing == old(self).renewing,
            r.reuses(old(self).path@),
    {
        self.state = AlphaState::Over;
        AlphaStep::Done { outcome: AlphaOutcome::Reused { path: self.path.clone() } }
    }

    fn leave(&mut self, why: String) -> (r: AlphaStep)
        ensures
            final(self).state is Over,
            final(self).same_job(*old(self)),
            final(self).renewing == old(self).renewing,
            r.leaves(why@),
    {
        self.state = AlphaState::Over;
        AlphaStep::Done { outcome: AlphaOutcome::Left { why } }
    }

    /// There is no alpha: one has to be made.
    fn miss(&mut self) -> (r: AlphaStep)
        ensures
            final(self).same_job(*old(self)),
            final(self).renewing == old(self).renewing,
            old(self).opts is Some ==> r is FindScript && final(self).state is Finding,
            old(self).opts is None ==> {
                &&& final(self).state is Over
                &&& r.leaves(no_backend(old(self).subtype))
            },
    {
        if self.opts.is_none() {
            let mut why: String = "no backend for subtype ".to_owned();
            why.append(decimal_text(self.subtype as u128).as_str());
            self.leave(why)
        } else {
            self.state = AlphaState::Finding;
            AlphaStep::FindScript
        }
    }

    /// The cache was looked into. `usable`: there is an alpha, and it decodes.
    pub fn looked(&mut self, usable: bool, marker: Option<BackendMarker>) -> (r: AlphaStep)
        requires
            old(self).state is Looking,
        ensures
            final(self).same_job(*old(self)),
            final(self).renewing == old(self).renewing,
            !usable && old(self).opts is Some ==> r is FindScript && final(self).state is Finding,
            !usable && old(self).opts is None ==> r.leaves(no_backend(old(self).subtype)) && final(self).state is Over,
            usable ==> {
                let may_renew = old(self).opts is Some && marker is Some && exists|
                    deps: Option<bool>,
                | stale(marker->0@, deps);
                &&& may_renew ==> {
                    &&& r is Probe
                    &&& final(self).state is Probing
                    &&& final(self).marker == marker
                }
                &&& !may_renew ==> {
                    &&& r.reuses(old(self).path@)
                    &&& final(self).state is Over
                }
            },
    {
        if !usable {
            return self.miss();
        }
        if self.opts.is_some() && renewal_needs_probe(marker.as_ref()) {
            self.marker = marker;
            self.state = AlphaState::Probing;
            return AlphaStep::Probe;
        }
        self.reuse()
    }

    /// The machine was asked for the primary backend.
    pub fn probed(&mut self, deps_now: Option<bool>) -> (r: AlphaStep)
        requires
            old(self).state is Probing,
        ensures
            final(self).same_job(*old(self)),
            ({
                let renew = old(self).marker is Some && stale(old(self).marker->0@, deps_now);
                &&& renew ==> {
                    &&& r is Clear
                    &&& final(self).state is Clearing
                    &&& final(self).renewing
                }
                &&& !renew ==> {
                    &&& r.reuses(old(self).path@)
                    &&& final(self).state is Over
                }
            }),
    {
        if should_renew_cached_alpha(self.marker.as_ref(), deps_now) {
            self.renewing = true;
            self.state = AlphaState::Clearing;
            return AlphaStep::Clear;
        }
        self.reuse()
    }

    /// The old alpha and its marker are gone.
    pub fn cleared(&mut self) -> (r: AlphaStep)
        requires
            old(self).state is Clearing,
        ensures
            final(self).same_job(*old(self)),
            final(self).renewing == old(self).renewing,
            old(self).opts is Some ==> r is FindScript && final(self).state is Finding,
            old(self).opts is None ==> r.leaves(no_backend(old(self).subtype)) && final(self).state is Over,
    {
        self.miss()
    }

    /// The sidecar was looked for. The source frame is asked for only where no
    /// mask before this one has.
    pub fn script_found(&mut self, found: bool, frame: FrameState) -> (r: AlphaStep)
        requires
            old(self).state is Finding,
            old(self).opts is Some,
        ensures
            final(self).same_job(*old(self)),
            final(self).renewing == old(self).renewing,
            !found ==> {
                &&& r.leaves("the segmentation sidecar is not at "@ + old(self).opts->0.script@)
                &&& final(self).state is Over
            },
            found && frame is Unasked ==> r is StageFrame && final(self).state is Staging,
            found && frame is Ready ==> r is Segment && final(self).state is Running,
            found && frame is Failed ==> {
                &&& r.leaves("the source frame could not be decoded"@)
                &&& final(self).state is Over
            },
    {
        if !found {
            let mut why: String = "the segmentation sidecar is not at ".to_owned();
            if let Some(o) = &self.opts {
                why.append(o.script.as_str());
            }
            return self.leave(why);
        }
        match frame {
            FrameState::Unasked => {
                self.state = AlphaState::Staging;
                AlphaStep::StageFrame
            },
            FrameState::Ready => {
                self.state = AlphaState::Running;
                AlphaStep::Segment
            },
            FrameState::Failed => self.leave("the source frame could not be decoded".to_owned()),
        }
    }

    /// The source frame was asked for. Whatever came back, it is not asked for
    /// again in this pass.
    pub fn staged(&mut self, ready: bool, frame: &mut FrameState) -> (r: AlphaStep)
        requires
            old(self).state is Staging,
        ensures
            final(self).same_job(*old(self)),
            final(self).renewing == old(self).renewing,
            ready ==> *final(frame) is Ready && r is Segment && final(self).state is Running,
            !ready ==> {
                &&& *final(frame) is Failed
                &&& r.leaves("the source frame could not be decoded"@)
                &&& final(self).state is Over
            },
    {
        if ready {
            *frame = FrameState::Ready;
            self.state = AlphaState::Running;
            AlphaStep::Segment
        } else {
            *frame = FrameState::Failed;
            self.leave("the source frame could not be decoded".to_owned())
        }
    }

    /// The sidecar finished. A mask that was made comes with the marker to
    /// leave beside it.
    pub fn ran(&mut self, run: Result<SegmentReport, String>) -> (r: (AlphaStep, Option<
        BackendMarker,
    >))
        requires
            old(self).state is Running,
        ensures
            final(self).same_job(*old(self)),
            final(self).state is Over,
            match run {
                Ok(report) => {
                    &&& r.0.makes(old(self).path@, old(self).renewing)
                    &&& r.1 is Some && r.1->0@ == report@
                },
                Err(e) => {
                    &&& r.0.leaves(e@)
                    &&& r.1 is None
                },
            },
    {
        match run {
            Ok(report) => {
                self.state = AlphaState::Over;
                let path: String = self.path.clone();
                (
                    AlphaStep::Done { outcome: AlphaOutcome::Made { path, renewed: self.renewing } },
                    Some(BackendMarker::of_report(&report)),
                )
            },
            Err(e) => (self.leave(e), None),
        }
    }
}

/// The frame's turns count only up to a full circle.
pub proof fn whole_turns_do_not_change_the_name(
    photo: Seq<char>,
    subtype: u32,
    ref_x: Single,
    ref_y: Single,
    gesture: Seq<Seq<char>>,
    turns: u8,
    generation: u32,
)
    requires
        turns <= 251,
    ensures
        alpha_name(photo, subtype, ref_x, ref_y, gesture, turns, generation) == alpha_name(
            photo,
            subtype,
            ref_x,
            ref_y,
            gesture,
            (turns + 4) as u8,
            generation,
        ),
{
    assert((turns + 4) % 4 == turns as int % 4);
}

/// No bar stands in the text.
pub open spec fn barless(s: Seq<char>) -> bool {
    forall|i: int| 0 <= i < s.len() ==> s[i] != '|'
}

/// The text is over, or goes on with a bar.
pub open spec fn barred(s: Seq<char>) -> bool {
    s.len() == 0 || s[0] == '|'
}

/// A field without a bar ends where the next bar stands.
proof fn lemma_field(a: Seq<char>, x: Seq<char>, b: Seq<char>, y: Seq<char>)
    requires
        a + x == b + y,
        barless(a),
        barless(b),
        barred(x),
        barred(y),
    ensures
        a == b,
        x == y,
{
    let s = a + x;
    let t = b + y;
    if a.len() < b.len() {
        assert(s[a.len() as int] == x[0]);
        assert(t[a.len() as int] == b[a.len() as int]);
    }
    if b.len() < a.len() {
        assert(t[b.len() as int] == y[0]);
        assert(s[b.len() as int] == a[b.len() as int]);
    }
    assert(a =~= s.take(a.len() as int) && b =~= t.take(b.len() as int));
    assert(x =~= s.skip(a.len() as int) && y =~= t.skip(b.len() as int));
}

proof fn lemma_digit_is_no_bar(d: nat)
    requires
        d < 10,
    ensures
        digit(d) != '|',
{
    assert(digit(d) as int == 48 + d);
}

proof fn lemma_decimal_barless(n: nat)
    ensures
        barless(decimal(n)),
    decreases n,
{
    lemma_digit_is_no_bar(n % 10);
    if n >= 10 {
        lemma_decimal_barless(n / 10);
    }
}

proof fn lemma_fixed_barless(v: Single)
    ensures
        barless(fixed(v)),
{
    reveal_strlit("NaN");
    reveal_strlit("-");
    reveal_strlit("");
    reveal_strlit("inf");
    reveal_strlit(".");
    if v.finite() {
        let q = millionths(v);
        let f = q % 1000000;
        lemma_decimal_barless((q / 1000000) as nat);
        lemma_digit_is_no_bar((f / 100000 % 10) as nat);
        lemma_digit_is_no_bar((f / 10000 % 10) as nat);
        lemma_digit_is_no_bar((f / 1000 % 10) as nat);
        lemma_digit_is_no_bar((f / 100 % 10) as nat);
        lemma_digit_is_no_bar((f / 10 % 10) as nat);
        lemma_digit_is_no_bar((f % 10) as nat);
        assert(barless(six_digits(f)));
    }
}

/// The numbers of `n` hexadecimal digits.
spec fn sixteens(n: nat) -> nat
    decreases n,
{
    if n == 0 {
        1
    } else {
        16 * sixteens((n - 1) as nat)
    }
}

proof fn lemma_hex_injective(a: u64, b: u64, n: nat)
    requires
        a < sixteens(n),
        b < sixteens(n),
        hex(a, n) == hex(b, n),
    ensures
        a == b,
    decreases n,
{
    if n > 0 {
        let x = hex(a, n);
        let y = hex(b, n);
        assert(x.last() == hex_digit(a % 16) && y.last() == hex_digit(b % 16));
        assert(x.drop_last() =~= hex(a / 16, (n - 1) as nat));
        assert(y.drop_last() =~= hex(b / 16, (n - 1) as nat));
        lemma_hex_digit_injective(a % 16, b % 16);
        lemma_hex_injective(a / 16, b / 16, (n - 1) as nat);
    }
}

proof fn lemma_hex_digit_injective(a: u64, b: u64)
    requires
        a < 16,
        b < 16,
        hex_digit(a) == hex_digit(b),
    ensures
        a == b,
{
    assert(a < 10 ==> hex_digit(a) as int == 48 + a);
    assert(a >= 10 ==> hex_digit(a) as int == 87 + a);
    assert(b < 10 ==> hex_digit(b) as int == 48 + b);
    assert(b >= 10 ==> hex_digit(b) as int == 87 + b);
}

/// Two identities of one photo are the same only if everything in them is: the subtype,
/// the click to six decimals, the frame's turns and the generation.
pub proof fn identities_tell_alphas_apart(
    photo: Seq<char>,
    a: (u32, Single, Single, u8, u32),
    b: (u32, Single, Single, u8, u32),
)
    requires
        alpha_identity(photo, a.0, a.1, a.2, a.3, a.4) == alpha_identity(
            photo,
            b.0,
            b.1,
            b.2,
            b.3,
            b.4,
        ),
    ensures
        a.0 == b.0,
        fixed(a.1) == fixed(b.1),
        fixed(a.2) == fixed(b.2),
        a.3 % 4 == b.3 % 4,
        a.4 == b.4,
{
    let t_a = seq!['t'] + decimal((a.3 % 4) as nat);
    let t_b = seq!['t'] + decimal((b.3 % 4) as nat);
    lemma_identity_fields(photo, a.0, a.1, a.2, a.3, a.4);
    lemma_identity_fields(photo, b.0, b.1, b.2, b.3, b.4);
    let fields_a = (decimal(a.0 as nat), fixed(a.1), fixed(a.2), t_a, decimal(a.4 as nat));
    let fields_b = (decimal(b.0 as nat), fixed(b.1), fixed(b.2), t_b, decimal(b.4 as nat));
    lemma_photo_apart(photo, joined(fields_a), joined(fields_b));
    lemma_decimal_barless(a.0 as nat);
    lemma_decimal_barless(b.0 as nat);
    lemma_fixed_barless(a.1);
    lemma_fixed_barless(b.1);
    lemma_fixed_barless(a.2);
    lemma_fixed_barless(b.2);
    lemma_decimal_barless((a.3 % 4) as nat);
    lemma_decimal_barless((b.3 % 4) as nat);
    lemma_fields_apart(fields_a, fields_b);
    lemma_decimal_injective(a.0 as nat, b.0 as nat);
    lemma_decimal_injective(a.4 as nat, b.4 as nat);
    assert(decimal((a.3 % 4) as nat) =~= t_a.skip(1));
    assert(decimal((b.3 % 4) as nat) =~= t_b.skip(1));
    lemma_decimal_injective((a.3 % 4) as nat, (b.3 % 4) as nat);
}

/// Two alphas share a name exactly if the hashes of their identities are the same, and both
/// or neither has a gesture that is sent, and the hashes of what is sent are the same.
pub proof fn names_tell_alphas_apart(
    a: (Seq<char>, u32, Single, Single, Seq<Seq<char>>, u8, u32),
    b: (Seq<char>, u32, Single, Single, Seq<Seq<char>>, u8, u32),
)
    ensures
        ({
            let one = text_hash(alpha_identity(a.0, a.1, a.2, a.3, a.5, a.6));
            let two = text_hash(alpha_identity(b.0, b.1, b.2, b.3, b.5, b.6));
            let sent_a = sent_points(a.1, a.2, a.3, a.4);
            let sent_b = sent_points(b.1, b.2, b.3, b.4);
            alpha_name(a.0, a.1, a.2, a.3, a.4, a.5, a.6) == alpha_name(
                b.0,
                b.1,
                b.2,
                b.3,
                b.4,
                b.5,
                b.6,
            ) <==> {
                &&& one == two
                &&& sent_a.len() > 1 <==> sent_b.len() > 1
                &&& sent_a.len() > 1 ==> text_hash(on_one_line(sent_a)) == text_hash(
                    on_one_line(sent_b),
                )
            }
        }),
{
    reveal_strlit("-");
    reveal_strlit("ai-mask-");
    reveal_with_fuel(sixteens, 17);
    let one = text_hash(alpha_identity(a.0, a.1, a.2, a.3, a.5, a.6));
    let two = text_hash(alpha_identity(b.0, b.1, b.2, b.3, b.5, b.6));
    let mark_a = gesture_mark(a.1, a.2, a.3, a.4);
    let mark_b = gesture_mark(b.1, b.2, b.3, b.4);
    let name_a = "ai-mask-"@ + hex(one, 16) + mark_a;
    let name_b = "ai-mask-"@ + hex(two, 16) + mark_b;
    let hash_a = text_hash(on_one_line(sent_points(a.1, a.2, a.3, a.4)));
    let hash_b = text_hash(on_one_line(sent_points(b.1, b.2, b.3, b.4)));
    lemma_hex_len(one, 16);
    lemma_hex_len(two, 16);
    lemma_hex_len(hash_a, 16);
    lemma_hex_len(hash_b, 16);
    if name_a == name_b {
        assert(hex(one, 16) =~= name_a.subrange(8, 24));
        assert(hex(two, 16) =~= name_b.subrange(8, 24));
        lemma_hex_injective(one, two, 16);
        assert(mark_a =~= name_a.skip(24));
        assert(mark_b =~= name_b.skip(24));
        if mark_a.len() > 0 {
            assert(hex(hash_a, 16) =~= mark_a.skip(1));
            assert(hex(hash_b, 16) =~= mark_b.skip(1));
            lemma_hex_injective(hash_a, hash_b, 16);
        }
    }
}

/// Gestures of one object whose sent points differ in one byte give their alphas
/// different names: a digit moved in one dab is never served another's alpha.
pub proof fn one_changed_byte_gives_another_name(
    photo: Seq<char>,
    ref_x: Single,
    ref_y: Single,
    a: Seq<Seq<char>>,
    b: Seq<Seq<char>>,
    turns: u8,
    generation: u32,
    at: int,
)
    requires
        a.len() > 0,
        b.len() > 0,
        ({
            let x = encode_utf8(on_one_line(sent_points(0, ref_x, ref_y, a)));
            let y = encode_utf8(on_one_line(sent_points(0, ref_x, ref_y, b)));
            &&& x.len() == y.len()
            &&& 0 <= at < x.len()
            &&& x[at] != y[at]
            &&& forall|i: int| 0 <= i < x.len() && i != at ==> x[i] == y[i]
        }),
    ensures
        alpha_name(photo, 0, ref_x, ref_y, a, turns, generation) != alpha_name(
            photo,
            0,
            ref_x,
            ref_y,
            b,
            turns,
            generation,
        ),
{
    let x = encode_utf8(on_one_line(sent_points(0, ref_x, ref_y, a)));
    let y = encode_utf8(on_one_line(sent_points(0, ref_x, ref_y, b)));
    one_changed_byte_changes_the_hash(x, y, at, x.len());
    names_tell_alphas_apart(
        (photo, 0, ref_x, ref_y, a, turns, generation),
        (photo, 0, ref_x, ref_y, b, turns, generation),
    );
}

/// An object with a gesture that is sent never shares a name with one without.
pub proof fn a_gesture_gives_another_name(
    photo: Seq<char>,
    ref_x: Single,
    ref_y: Single,
    gesture: Seq<Seq<char>>,
    turns: u8,
    generation: u32,
)
    requires
        gesture.len() > 0,
    ensures
        alpha_name(photo, 0, ref_x, ref_y, gesture, turns, generation) != alpha_name(
            photo,
            0,
            ref_x,
            ref_y,
            seq![],
            turns,
            generation,
        ),
{
    names_tell_alphas_apart(
        (photo, 0, ref_x, ref_y, gesture, turns, generation),
        (photo, 0, ref_x, ref_y, seq![], turns, generation),
    );
}

/// Five fields with bars between them.
spec fn joined(f: (Seq<char>, Seq<char>, Seq<char>, Seq<char>, Seq<char>)) -> Seq<char> {
    f.0 + ("|"@ + (f.1 + ("|"@ + (f.2 + ("|"@ + (f.3 + ("|"@ + f.4)))))))
}

proof fn lemma_identity_fields(
    photo: Seq<char>,
    subtype: u32,
    ref_x: Single,
    ref_y: Single,
    turns: u8,
    generation: u32,
)
    ensures
        alpha_identity(photo, subtype, ref_x, ref_y, turns, generation) == photo + "|"@ + joined(
            (
                decimal(subtype as nat),
                fixed(ref_x),
                fixed(ref_y),
                seq!['t'] + decimal((turns % 4) as nat),
                decimal(generation as nat),
            ),
        ),
{
    reveal_strlit("|");
    reveal_strlit("|t");
    assert("|t"@ =~= "|"@ + seq!['t']);
    let t = seq!['t'] + decimal((turns % 4) as nat);
    let g = decimal(generation as nat);
    assert(alpha_identity(photo, subtype, ref_x, ref_y, turns, generation) =~= photo + "|"@
        + joined((decimal(subtype as nat), fixed(ref_x), fixed(ref_y), t, g)));
}

proof fn lemma_photo_apart(photo: Seq<char>, x: Seq<char>, y: Seq<char>)
    requires
        photo + "|"@ + x == photo + "|"@ + y,
    ensures
        x == y,
{
    let front = photo + "|"@;
    assert(x =~= (front + x).skip(front.len() as int));
    assert(y =~= (front + y).skip(front.len() as int));
}

/// A field, the bar after it, and the rest.
proof fn lemma_one_field(a: Seq<char>, x: Seq<char>, b: Seq<char>, y: Seq<char>)
    requires
        a + ("|"@ + x) == b + ("|"@ + y),
        barless(a),
        barless(b),
    ensures
        a == b,
        x == y,
{
    reveal_strlit("|");
    lemma_field(a, "|"@ + x, b, "|"@ + y);
    lemma_after_bar(x, y);
}

proof fn lemma_fields_apart(
    f: (Seq<char>, Seq<char>, Seq<char>, Seq<char>, Seq<char>),
    g: (Seq<char>, Seq<char>, Seq<char>, Seq<char>, Seq<char>),
)
    requires
        joined(f) == joined(g),
        barless(f.0) && barless(f.1) && barless(f.2) && barless(f.3),
        barless(g.0) && barless(g.1) && barless(g.2) && barless(g.3),
    ensures
        f == g,
{
    let f3 = f.3 + ("|"@ + f.4);
    let g3 = g.3 + ("|"@ + g.4);
    let f2 = f.2 + ("|"@ + f3);
    let g2 = g.2 + ("|"@ + g3);
    let f1 = f.1 + ("|"@ + f2);
    let g1 = g.1 + ("|"@ + g2);
    lemma_one_field(f.0, f1, g.0, g1);
    lemma_one_field(f.1, f2, g.1, g2);
    lemma_one_field(f.2, f3, g.2, g3);
    lemma_one_field(f.3, f.4, g.3, g.4);
}

proof fn lemma_after_bar(a: Seq<char>, b: Seq<char>)
    requires
        "|"@ + a == "|"@ + b,
    ensures
        a == b,
{
    assert(a =~= ("|"@ + a).skip("|"@.len() as int));
    assert(b =~= ("|"@ + b).skip("|"@.len() as int));
}

/// One more byte in the hash.
spec fn mixed_in(h: u64, b: u8) -> u64 {
    (h ^ (b as u64)).wrapping_mul(0x0000_0100_0000_01b3)
}

proof fn lemma_mixing_keeps_apart(h: u64, k: u64, b: u8, c: u8)
    requires
        (h == k && b != c) || (h != k && b == c),
    ensures
        mixed_in(h, b) != mixed_in(k, c),
{
    let p: u64 = 0x0000_0100_0000_01b3;
    let x: u64 = h ^ (b as u64);
    let y: u64 = k ^ (c as u64);
    assert(x != y) by (bit_vector)
        requires
            x == h ^ (b as u64),
            y == k ^ (c as u64),
            (h == k && b != c) || (h != k && b == c),
    ;
    if x.wrapping_mul(p) == y.wrapping_mul(p) {
        lemma_multiplied_back(x as int);
        lemma_multiplied_back(y as int);
    }
}

/// The hash's factor has an inverse: what it multiplied can be had back.
proof fn lemma_multiplied_back(x: int)
    requires
        0 <= x < 0x1_0000_0000_0000_0000,
    ensures
        ((x * 0x0000_0100_0000_01b3) % 0x1_0000_0000_0000_0000) * 14886173955864302971
            % 0x1_0000_0000_0000_0000 == x,
{
    let m: int = 0x1_0000_0000_0000_0000;
    let v: int = x * 0x0000_0100_0000_01b3;
    let i: int = 14886173955864302971;
    lemma_mul_mod_noop_left(v, i, m);
    assert(v * i == (x * 887285111055) * m + x) by (nonlinear_arith)
        requires
            v == x * 0x0000_0100_0000_01b3,
            i == 14886173955864302971,
            m == 0x1_0000_0000_0000_0000,
    ;
    lemma_fundamental_div_mod_converse(v * i, m, x * 887285111055, x);
}

/// Two texts of the same length in bytes that differ in one byte never share a hash: a
/// digit moved in one dab is another list of points.
pub proof fn one_changed_byte_changes_the_hash(a: Seq<u8>, b: Seq<u8>, at: int, n: nat)
    requires
        0 <= at < n <= a.len(),
        a.len() == b.len(),
        a[at] != b[at],
        forall|i: int| 0 <= i < n && i != at ==> a[i] == b[i],
    ensures
        hash_bytes(a, n) != hash_bytes(b, n),
    decreases n,
{
    let m = (n - 1) as nat;
    if at == m {
        lemma_same_bytes(a, b, m);
    } else {
        one_changed_byte_changes_the_hash(a, b, at, m);
    }
    lemma_mixing_keeps_apart(hash_bytes(a, m), hash_bytes(b, m), a[m as int], b[m as int]);
}

proof fn lemma_same_bytes(a: Seq<u8>, b: Seq<u8>, n: nat)
    requires
        n <= a.len(),
        n <= b.len(),
        forall|i: int| 0 <= i < n ==> a[i] == b[i],
    ensures
        hash_bytes(a, n) == hash_bytes(b, n),
    decreases n,
{
    if n > 0 {
        lemma_same_bytes(a, b, (n - 1) as nat);
    }
}

/// A decimal digit or a small letter from a to f.
pub open spec fn is_hex(c: char) -> bool {
    '0' <= c <= '9' || 'a' <= c <= 'f'
}

proof fn lemma_hex_len(h: u64, n: nat)
    ensures
        hex(h, n).len() == n,
        forall|i: int| 0 <= i < n ==> is_hex(#[trigger] hex(h, n)[i]),
    decreases n,
{
    if n > 0 {
        lemma_hex_len(h / 16, (n - 1) as nat);
        let d = h % 16;
        assert(d < 10 ==> hex_digit(d) as int == 48 + d);
        assert(d >= 10 ==> hex_digit(d) as int == 87 + d);
        assert(is_hex(hex_digit(d)));
        assert forall|i: int| 0 <= i < n implies is_hex(#[trigger] hex(h, n)[i]) by {
            if i < n - 1 {
                assert(hex(h, n)[i] == hex(h / 16, (n - 1) as nat)[i]);
            }
        }
    }
}

/// Every name of a mask without a gesture has twenty-four characters: eight that are always
/// the same, and sixteen hexadecimal digits.
pub proof fn every_name_has_one_shape(identity: Seq<char>)
    ensures
        plain_name(identity).len() == 24,
        plain_name(identity).take(8) == "ai-mask-"@,
        forall|i: int| 8 <= i < 24 ==> is_hex(#[trigger] plain_name(identity)[i]),
{
    reveal_strlit("ai-mask-");
    let h = text_hash(identity);
    lemma_hex_len(h, 16);
    assert(plain_name(identity).take(8) =~= "ai-mask-"@);
    assert forall|i: int| 8 <= i < 24 implies is_hex(#[trigger] plain_name(identity)[i]) by {
        assert(plain_name(identity)[i] == hex(h, 16)[i - 8]);
    }
}

/// What a gesture adds to a name is a stroke and sixteen hexadecimal digits.
pub proof fn every_mark_has_one_shape(
    subtype: u32,
    ref_x: Single,
    ref_y: Single,
    gesture: Seq<Seq<char>>,
)
    ensures
        ({
            let mark = gesture_mark(subtype, ref_x, ref_y, gesture);
            &&& mark.len() == (if subtype == 0 && gesture.len() > 0 {
                17nat
            } else {
                0nat
            })
            &&& mark.len() > 0 ==> mark[0] == '-'
            &&& forall|i: int| 1 <= i < mark.len() ==> is_hex(#[trigger] mark[i])
        }),
{
    reveal_strlit("-");
    let mark = gesture_mark(subtype, ref_x, ref_y, gesture);
    let h = text_hash(on_one_line(sent_points(subtype, ref_x, ref_y, gesture)));
    lemma_hex_len(h, 16);
    assert forall|i: int| 1 <= i < mark.len() implies is_hex(#[trigger] mark[i]) by {
        assert(mark[i] == hex(h, 16)[i - 1]);
    }
}

/// Entering what came of a mask moves no shape: what pointed into the recipe still does.
pub proof fn entering_an_outcome_moves_no_shape(
    masks: Seq<AdjustmentView>,
    s: ShapeView,
    other: ShapeView,
    outcome: AlphaOutcome,
)
    requires
        points_into(s, masks),
        points_into(other, masks),
    ensures
        points_into(other, masks_with(masks, s, outcome)),
{
}

/// A recipe without AI masks has no shape to resolve.
pub proof fn without_ai_masks_nothing_is_resolved(masks: Seq<AdjustmentView>)
    requires
        forall|i: int| 0 <= i < masks.len() ==> !((#[trigger] masks[i]).mask is AiMask),
        forall|i: int, j: int|
            0 <= i < masks.len() && 0 <= j < masks[i].components.len() ==> !((
            #[trigger] masks[i].components[j]).geometry is AiMask),
    ensures
        all_ai_shapes(masks).len() == 0,
    decreases masks.len(),
{
    if masks.len() > 0 {
        let t = masks.drop_last();
        let m = masks.last();
        assert(m == masks[masks.len() - 1]);
        assert forall|i: int| 0 <= i < t.len() implies !((#[trigger] t[i]).mask is AiMask) by {
            assert(t[i] == masks[i]);
        }
        assert forall|i: int, j: int|
            0 <= i < t.len() && 0 <= j < t[i].components.len() implies !((
        #[trigger] t[i].components[j]).geometry is AiMask) by {
            assert(t[i] == masks[i]);
            assert(!(masks[i].components[j].geometry is AiMask));
        }
        without_ai_masks_nothing_is_resolved(t);
        assert forall|j: int| 0 <= j < m.components.len() implies !((
        #[trigger] m.components[j]).geometry is AiMask) by {
            assert(!(masks[masks.len() - 1].components[j].geometry is AiMask));
        }
        lemma_no_component_shapes(m.components, (masks.len() - 1) as nat, m.name);
    }
}

proof fn lemma_no_component_shapes(s: Seq<ComponentView>, mask: nat, name: Seq<char>)
    requires
        forall|j: int| 0 <= j < s.len() ==> !((#[trigger] s[j]).geometry is AiMask),
    ensures
        component_ai_shapes(s, mask, name).len() == 0,
    decreases s.len(),
{
    if s.len() > 0 {
        let t = s.drop_last();
        assert forall|j: int| 0 <= j < t.len() implies !((#[trigger] t[j]).geometry is AiMask) by {
            assert(t[j] == s[j]);
        }
        lemma_no_component_shapes(t, mask, name);
        assert(s.last() == s[s.len() - 1]);
    }
}

/// No mask is passed over in silence: after a pass each AI mask of the recipe has an alpha
/// or a reason why it has none, and what was reused or renewed is among what has an
/// alpha.
pub proof fn every_mask_is_accounted_for(
    masks: Seq<AdjustmentView>,
    outcomes: Seq<AlphaOutcome>,
)
    requires
        outcomes.len() == all_ai_shapes(masks).len(),
    ensures
        ({
            let shapes = all_ai_shapes(masks);
            let a = account_of(shapes, outcomes, shapes.len());
            &&& a.resolved + a.unresolved.len() == shapes.len()
            &&& a.cached + a.renewed <= a.resolved
        }),
{
    lemma_account(all_ai_shapes(masks), outcomes, all_ai_shapes(masks).len());
}

proof fn lemma_account(shapes: Seq<ShapeView>, outcomes: Seq<AlphaOutcome>, n: nat)
    ensures
        ({
            let a = account_of(shapes, outcomes, n);
            &&& a.resolved + a.unresolved.len() == n
            &&& a.cached + a.renewed <= a.resolved
        }),
    decreases n,
{
    if n > 0 {
        lemma_account(shapes, outcomes, (n - 1) as nat);
    }
}

} // verus!
