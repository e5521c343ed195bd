//! What a pass over a recipe's AI masks changes: the alphas of the masks that it counts as
//! resolved, and nothing else.

use vstd::prelude::*;
use crate::ai_masks::{
    account_of, adjustment_with_alpha, ai_shape, all_ai_shapes, component_ai_shapes, masks_after,
    masks_with, points_into, with_alpha, AlphaOutcome, ShapeView,
};
use crate::recipe::{AdjustmentView, ComponentView, GeometryView};

verus! {

/// The shape of a mask that is meant: its main one or a component.
pub open spec fn geometry_at(
    masks: Seq<AdjustmentView>,
    mask: nat,
    component: Option<nat>,
) -> GeometryView {
    match component {
        None => masks[mask as int].mask,
        Some(c) => masks[mask as int].components[c as int].geometry,
    }
}

/// A shape without the path of its alpha, if it is an AI mask.
pub open spec fn without_alpha(g: GeometryView) -> GeometryView {
    match g {
        GeometryView::AiMask {
            name,
            subtype,
            ref_x,
            ref_y,
            blend_mode,
            value,
            inverted,
            mask_version,
            provenance,
            gesture,
            raster,
        } => GeometryView::AiMask {
            name,
            subtype,
            ref_x,
            ref_y,
            blend_mode,
            value,
            inverted,
            mask_version,
            provenance,
            gesture,
            raster: None,
        },
        _ => g,
    }
}

/// The path of a shape's alpha.
pub open spec fn alpha_of(g: GeometryView) -> Option<Seq<char>> {
    match g {
        GeometryView::AiMask { raster, .. } => raster,
        _ => None,
    }
}

/// Two components that differ in the paths of their alphas at most.
pub open spec fn same_component(a: ComponentView, b: ComponentView) -> bool {
    &&& without_alpha(a.geometry) == without_alpha(b.geometry)
    &&& a == (ComponentView { geometry: a.geometry, ..b })
}

/// Two adjustments that differ in the paths of their alphas at most.
pub open spec fn same_adjustment(a: AdjustmentView, b: AdjustmentView) -> bool {
    &&& without_alpha(a.mask) == without_alpha(b.mask)
    &&& a.components.len() == b.components.len()
    &&& forall|j: int|
        0 <= j < a.components.len() ==> same_component(
            #[trigger] a.components[j],
            b.components[j],
        )
    &&& a == (AdjustmentView { mask: a.mask, components: a.components, ..b })
}

/// Two lists of masks that differ in the paths of their alphas at most.
pub open spec fn same_masks(a: Seq<AdjustmentView>, b: Seq<AdjustmentView>) -> bool {
    &&& a.len() == b.len()
    &&& forall|i: int| 0 <= i < a.len() ==> same_adjustment(#[trigger] a[i], b[i])
}

/// The mask has an alpha now.
pub open spec fn is_resolved(outcome: AlphaOutcome) -> bool {
    !(outcome is Left)
}

/// The path that came of a mask, if one did.
pub open spec fn path_of(outcome: AlphaOutcome) -> Option<Seq<char>> {
    match outcome {
        AlphaOutcome::Reused { path } | AlphaOutcome::Made { path, .. } => Some(path@),
        AlphaOutcome::Left { .. } => None,
    }
}

/// How many of the first `n` masks have an alpha.
pub open spec fn resolved_among(outcomes: Seq<AlphaOutcome>, n: nat) -> nat
    decreases n,
{
    if n == 0 {
        0
    } else {
        resolved_among(outcomes, (n - 1) as nat) + (if is_resolved(outcomes[n - 1]) {
            1nat
        } else {
            0nat
        })
    }
}

/// Two shapes stand at different places.
pub open spec fn elsewhere(a: ShapeView, b: ShapeView) -> bool {
    a.mask != b.mask || a.component != b.component
}

/// The shape stands where it says, and is an AI mask.
pub open spec fn stands_in(s: ShapeView, masks: Seq<AdjustmentView>) -> bool {
    points_into(s, masks) && geometry_at(masks, s.mask, s.component) is AiMask
}

proof fn lemma_components_listed(s: Seq<ComponentView>, mask: nat, name: Seq<char>)
    ensures
        ({
            let l = component_ai_shapes(s, mask, name);
            &&& forall|i: int|
                0 <= i < l.len() ==> (#[trigger] l[i]).mask == mask && l[i].component is Some
                    && l[i].component->0 < s.len()
                    && s[l[i].component->0 as int].geometry is AiMask
            &&& forall|i: int, j: int|
                0 <= i < j < l.len() ==> (#[trigger] l[i]).component != (#[trigger] l[j]).component
            &&& forall|c: int|
                0 <= c < s.len() && (#[trigger] s[c]).geometry is AiMask ==> exists|i: int|
                    0 <= i < l.len() && (#[trigger] l[i]).component == Some(c as nat)
        }),
    decreases s.len(),
{
    let l = component_ai_shapes(s, mask, name);
    if s.len() > 0 {
        let t = s.drop_last();
        lemma_components_listed(t, mask, name);
        let before = component_ai_shapes(t, mask, name);
        let last = ai_shape(s.last().geometry, mask, Some((s.len() - 1) as nat), name);
        assert forall|i: int| 0 <= i < l.len() implies (#[trigger] l[i]).mask == mask
            && l[i].component is Some && l[i].component->0 < s.len()
            && s[l[i].component->0 as int].geometry is AiMask by {
            if i < before.len() {
                assert(l[i] == before[i]);
                assert(t[before[i].component->0 as int] == s[before[i].component->0 as int]);
            } else {
                assert(l[i] == last[i - before.len()]);
            }
        }
        assert forall|i: int, j: int| 0 <= i < j < l.len() implies (#[trigger] l[i]).component != (
        #[trigger] l[j]).component by {
            assert(l[i] == before[i]);
            if j < before.len() {
                assert(l[j] == before[j]);
            } else {
                assert(l[j] == last[j - before.len()]);
                assert(before[i].component->0 < t.len());
            }
        }
        assert forall|c: int| 0 <= c < s.len() && (#[trigger] s[c]).geometry is AiMask implies exists|
            i: int,
        | 0 <= i < l.len() && (#[trigger] l[i]).component == Some(c as nat) by {
            if c < t.len() {
                assert(t[c] == s[c]);
                let i = choose|i: int|
                    0 <= i < before.len() && (#[trigger] before[i]).component == Some(c as nat);
                assert(l[i] == before[i]);
            } else {
                assert(l[before.len() as int] == last[0]);
            }
        }
    }
}

/// The listed shapes are the AI masks of the recipe, each of them once.
pub proof fn every_ai_mask_is_listed_once(s: Seq<AdjustmentView>)
    ensures
        ({
            let l = all_ai_shapes(s);
            &&& forall|i: int| 0 <= i < l.len() ==> stands_in(#[trigger] l[i], s)
            &&& forall|i: int, j: int|
                0 <= i < j < l.len() ==> elsewhere(#[trigger] l[i], #[trigger] l[j])
            &&& forall|m: nat, c: Option<nat>|
                m < s.len() && (c is Some ==> c->0 < s[m as int].components.len())
                    && #[trigger] geometry_at(s, m, c) is AiMask ==> exists|i: int|
                    0 <= i < l.len() && (#[trigger] l[i]).mask == m && l[i].component == c
        }),
    decreases s.len(),
{
    let l = all_ai_shapes(s);
    if s.len() > 0 {
        let t = s.drop_last();
        let k = (s.len() - 1) as nat;
        let a = s.last();
        every_ai_mask_is_listed_once(t);
        lemma_components_listed(a.components, k, a.name);
        let before = all_ai_shapes(t);
        let main = ai_shape(a.mask, k, None, a.name);
        let parts = component_ai_shapes(a.components, k, a.name);
        let n = before.len() as int;
        let o = n + main.len();
        assert forall|i: int| 0 <= i < l.len() implies #[trigger] stands_in(l[i], s) && (i < n ==> l[i]
            == before[i]) && (n <= i < o ==> l[i] == main[i - n]) && (o <= i ==> l[i] == parts[i
            - o]) && (i < n <==> l[i].mask < k) by {
            if i < n {
                assert(l[i] == before[i]);
                assert(stands_in(before[i], t));
                assert(t[before[i].mask as int] == s[before[i].mask as int]);
            } else if i < o {
                assert(l[i] == main[i - n]);
            } else {
                assert(l[i] == parts[i - o]);
            }
        }
        assert forall|i: int, j: int| 0 <= i < j < l.len() implies elsewhere(
            #[trigger] l[i],
            #[trigger] l[j],
        ) by {
            assert(stands_in(l[i], s) && stands_in(l[j], s));
            if j < n {
                assert(elsewhere(before[i], before[j]));
            } else if i >= o {
                assert(parts[i - o].component != parts[j - o].component);
            }
        }
        assert forall|m: nat, c: Option<nat>|
            m < s.len() && (c is Some ==> c->0 < s[m as int].components.len())
                && #[trigger] geometry_at(s, m, c) is AiMask implies exists|i: int|
            0 <= i < l.len() && (#[trigger] l[i]).mask == m && l[i].component == c by {
            if m < k {
                assert(t[m as int] == s[m as int]);
                assert(geometry_at(t, m, c) is AiMask);
                let i = choose|i: int|
                    0 <= i < n && (#[trigger] before[i]).mask == m && before[i].component == c;
                assert(l[i] == before[i]);
            } else {
                match c {
                    None => {
                        assert(l[n] == main[0]);
                    },
                    Some(d) => {
                        assert(a.components[d as int].geometry is AiMask);
                        let i = choose|i: int|
                            0 <= i < parts.len() && (#[trigger] parts[i]).component == Some(d);
                        assert(l[o + i] == parts[i]);
                    },
                }
            }
        }
    }
}

/// Entering one outcome changes no more than the alpha of its shape.
proof fn lemma_one_entered(masks: Seq<AdjustmentView>, s: ShapeView, outcome: AlphaOutcome)
    requires
        points_into(s, masks),
    ensures
        ({
            let after = masks_with(masks, s, outcome);
            &&& same_masks(after, masks)
            &&& geometry_at(after, s.mask, s.component) == (match path_of(outcome) {
                Some(p) => with_alpha(geometry_at(masks, s.mask, s.component), p),
                None => geometry_at(masks, s.mask, s.component),
            })
            &&& forall|m: nat, c: Option<nat>|
                m < masks.len() && (m != s.mask || c != s.component) && (c is Some ==> c->0
                    < masks[m as int].components.len()) ==> #[trigger] geometry_at(after, m, c)
                    == geometry_at(masks, m, c)
        }),
{
    let after = masks_with(masks, s, outcome);
    assert forall|i: int| 0 <= i < after.len() implies same_adjustment(
        #[trigger] after[i],
        masks[i],
    ) by {
        if outcome is Left || i != s.mask {
            assert(after[i] == masks[i]);
        } else {
            let p = path_of(outcome)->0;
            assert(after[i] == adjustment_with_alpha(masks[i], s.component, p));
        }
    }
}

/// One list that differs in alphas from a second, and that from a third.
proof fn lemma_same_masks(a: Seq<AdjustmentView>, b: Seq<AdjustmentView>, c: Seq<AdjustmentView>)
    requires
        same_masks(a, b),
        same_masks(b, c),
    ensures
        same_masks(a, c),
{
    assert forall|i: int| 0 <= i < a.len() implies same_adjustment(#[trigger] a[i], c[i]) by {
        assert(same_adjustment(a[i], b[i]) && same_adjustment(b[i], c[i]));
        assert forall|j: int| 0 <= j < a[i].components.len() implies same_component(
            #[trigger] a[i].components[j],
            c[i].components[j],
        ) by {
            assert(same_component(a[i].components[j], b[i].components[j]));
            assert(same_component(b[i].components[j], c[i].components[j]));
        }
    }
}

proof fn lemma_entered(
    masks: Seq<AdjustmentView>,
    shapes: Seq<ShapeView>,
    outcomes: Seq<AlphaOutcome>,
    n: nat,
)
    requires
        n <= shapes.len() == outcomes.len(),
        forall|i: int| 0 <= i < shapes.len() ==> stands_in(#[trigger] shapes[i], masks),
        forall|i: int, j: int|
            0 <= i < j < shapes.len() ==> elsewhere(#[trigger] shapes[i], #[trigger] shapes[j]),
    ensures
        ({
            let after = masks_after(masks, shapes, outcomes, n);
            &&& same_masks(after, masks)
            &&& forall|i: int|
                0 <= i < shapes.len() ==> geometry_at(
                    after,
                    (#[trigger] shapes[i]).mask,
                    shapes[i].component,
                ) == (if i < n && is_resolved(outcomes[i]) {
                    with_alpha(
                        geometry_at(masks, shapes[i].mask, shapes[i].component),
                        path_of(outcomes[i])->0,
                    )
                } else {
                    geometry_at(masks, shapes[i].mask, shapes[i].component)
                })
        }),
    decreases n,
{
    if n > 0 {
        let k = n - 1;
        lemma_entered(masks, shapes, outcomes, k as nat);
        let before = masks_after(masks, shapes, outcomes, k as nat);
        let after = masks_after(masks, shapes, outcomes, n);
        let s = shapes[k];
        assert(stands_in(s, masks));
        assert(same_adjustment(before[s.mask as int], masks[s.mask as int]));
        lemma_one_entered(before, s, outcomes[k]);
        lemma_same_masks(after, before, masks);
        assert forall|i: int| 0 <= i < shapes.len() implies geometry_at(
            after,
            (#[trigger] shapes[i]).mask,
            shapes[i].component,
        ) == (if i < n && is_resolved(outcomes[i]) {
            with_alpha(
                geometry_at(masks, shapes[i].mask, shapes[i].component),
                path_of(outcomes[i])->0,
            )
        } else {
            geometry_at(masks, shapes[i].mask, shapes[i].component)
        }) by {
            assert(stands_in(shapes[i], masks));
            assert(same_adjustment(before[shapes[i].mask as int], masks[shapes[i].mask as int]));
            if i != k {
                assert(elsewhere(shapes[i], shapes[k]) || elsewhere(shapes[k], shapes[i]));
            }
        }
    }
}

/// A pass changes nothing but the alphas of the masks that it counts as resolved: each of
/// those has the path that came of it, each other AI mask what it had, and everything else
/// in the masks is as it was.
pub proof fn only_resolved_alphas_change(masks: Seq<AdjustmentView>, outcomes: Seq<AlphaOutcome>)
    requires
        outcomes.len() == all_ai_shapes(masks).len(),
    ensures
        ({
            let shapes = all_ai_shapes(masks);
            let after = masks_after(masks, shapes, outcomes, shapes.len());
            &&& same_masks(after, masks)
            &&& forall|i: int|
                0 <= i < shapes.len() ==> alpha_of(
                    geometry_at(after, (#[trigger] shapes[i]).mask, shapes[i].component),
                ) == (if is_resolved(outcomes[i]) {
                    path_of(outcomes[i])
                } else {
                    alpha_of(geometry_at(masks, shapes[i].mask, shapes[i].component))
                })
            &&& forall|i: int|
                0 <= i < shapes.len() && is_resolved(outcomes[i]) ==> alpha_of(
                    geometry_at(after, (#[trigger] shapes[i]).mask, shapes[i].component),
                ) is Some
            &&& account_of(shapes, outcomes, shapes.len()).resolved == resolved_among(
                outcomes,
                shapes.len(),
            )
        }),
{
    let shapes = all_ai_shapes(masks);
    every_ai_mask_is_listed_once(masks);
    lemma_entered(masks, shapes, outcomes, shapes.len());
    lemma_resolved(shapes, outcomes, shapes.len());
    let after = masks_after(masks, shapes, outcomes, shapes.len());
    assert forall|i: int| 0 <= i < shapes.len() implies alpha_of(
        geometry_at(after, (#[trigger] shapes[i]).mask, shapes[i].component),
    ) == (if is_resolved(outcomes[i]) {
        path_of(outcomes[i])
    } else {
        alpha_of(geometry_at(masks, shapes[i].mask, shapes[i].component))
    }) by {
        assert(stands_in(shapes[i], masks));
    }
}

proof fn lemma_resolved(shapes: Seq<ShapeView>, outcomes: Seq<AlphaOutcome>, n: nat)
    ensures
        account_of(shapes, outcomes, n).resolved == resolved_among(outcomes, n),
    decreases n,
{
    if n > 0 {
        lemma_resolved(shapes, outcomes, (n - 1) as nat);
    }
}

} // verus!
