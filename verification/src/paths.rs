//! The rasters that a local adjustment refers to.

use vstd::prelude::*;
use vstd::string::*;
use crate::recipe::{
    component_views, AdjustmentView, ComponentView, GeometryView, LocalAdjustment, MaskComponent,
    MaskGeometry,
};

verus! {

impl GeometryView {
    /// The path of the raster that a shape refers to: the pixels of a bitmap, and
    /// the alpha that was made for an AI mask. The latter is made anew for a
    /// turned frame, so a turn has no part in it.
    pub open spec fn raster_path(self, turnable: bool) -> Option<Seq<char>> {
        match self {
            GeometryView::Bitmap { path } => Some(path),
            GeometryView::AiMask { raster, .. } => if turnable {
                None
            } else {
                raster
            },
            _ => None,
        }
    }

    /// The shape with another path.
    pub open spec fn with_path(self, p: Seq<char>) -> GeometryView {
        match self {
            GeometryView::Bitmap { path } => GeometryView::Bitmap { path: p },
            GeometryView::AiMask {
                name,
                subtype,
                ref_x,
                ref_y,
                blend_mode,
                value,
                inverted,
                mask_version,
                provenance,
                gesture,
                raster,
            } => GeometryView::AiMask {
                name,
                subtype,
                ref_x,
                ref_y,
                blend_mode,
                value,
                inverted,
                mask_version,
                provenance,
                gesture,
                raster: Some(p),
            },
            _ => self,
        }
    }
}

impl AdjustmentView {
    /// Shape `i`: the mask itself, and then its components.
    pub open spec fn shape(self, i: int) -> GeometryView {
        if i == 0 {
            self.mask
        } else {
            self.components[i - 1].geometry
        }
    }

    /// How many shapes there are.
    pub open spec fn shapes(self) -> nat {
        self.components.len() + 1
    }

    /// The adjustment with another shape `i`.
    pub open spec fn with_shape(self, i: int, g: GeometryView) -> AdjustmentView {
        if i == 0 {
            AdjustmentView { mask: g, ..self }
        } else {
            AdjustmentView {
                components: self.components.update(
                    i - 1,
                    ComponentView { geometry: g, ..self.components[i - 1] },
                ),
                ..self
            }
        }
    }

    /// The first shape from `i` on that refers to a raster; the number of shapes
    /// if there is none.
    pub open spec fn next_holder(self, turnable: bool, i: int) -> int
        decreases self.shapes() - i,
    {
        if i >= self.shapes() || self.shape(i).raster_path(turnable) is Some {
            i
        } else {
            self.next_holder(turnable, i + 1)
        }
    }
}

fn holds_raster(g: &MaskGeometry, turnable: bool) -> (r: bool)
    ensures
        r == (g@.raster_path(turnable) is Some),
{
    match g {
        MaskGeometry::Bitmap { .. } => true,
        MaskGeometry::AiMask { raster, .. } => !turnable && raster.is_some(),
        _ => false,
    }
}

impl LocalAdjustment {
    /// The first shape from `i` on that refers to a raster.
    fn holder_from(&self, turnable: bool, i: usize) -> (r: usize)
        requires
            i <= self@.shapes() <= usize::MAX,
        ensures
            r == self@.next_holder(turnable, i as int),
            i <= r <= self@.shapes(),
            r < self@.shapes() ==> self@.shape(r as int).raster_path(turnable) is Some,
    {
        let n: usize = self.components.len();
        let mut k: usize = i;
        if k == 0 {
            if holds_raster(&self.mask, turnable) {
                return 0;
            }
            k = 1;
        }
        while k - 1 < n
            invariant
                1 <= k <= n + 1,
                i <= k,
                n == self.components@.len(),
                n < usize::MAX,
                self@.next_holder(turnable, i as int) == self@.next_holder(turnable, k as int),
            decreases n + 1 - k,
        {
            assert(self@.components[k - 1] == self.components@[k - 1]@);
            if holds_raster(&self.components[k - 1].geometry, turnable) {
                return k;
            }
            k = k + 1;
        }
        k
    }

    /// The path of the first shape from `from` on that refers to a raster, and the
    /// place of that shape.
    fn raster_path_from(&mut self, turnable: bool, from: usize) -> (r: Option<(usize, &mut String)>)
        requires
            from <= old(self)@.shapes() <= usize::MAX,
        ensures
            match r {
                None => old(self)@.next_holder(turnable, from as int) == old(self)@.shapes()
                    && *final(self) == *old(self),
                Some((i, p)) => {
                    &&& i == old(self)@.next_holder(turnable, from as int) < old(self)@.shapes()
                    &&& old(self)@.shape(i as int).raster_path(turnable) == Some((*p)@)
                    &&& final(self)@ == old(self)@.with_shape(
                        i as int,
                        old(self)@.shape(i as int).with_path((*final(p))@),
                    )
                },
            },
    {
        let i: usize = self.holder_from(turnable, from);
        if i > self.components.len() {
            return None;
        }
        proof {
            if i > 0 {
                let all = self.components@;
                assert(self@.components[i - 1] == all[i - 1]@);
                assert forall|c: MaskComponent|
                    component_views(#[trigger] all.update(i - 1, c)) == component_views(all).update(
                        i - 1,
                        c@,
                    ) by {
                    assert(component_views(all.update(i - 1, c)) =~= component_views(all).update(
                        i - 1,
                        c@,
                    ));
                }
            }
        }
        let g: &mut MaskGeometry = if i == 0 {
            &mut self.mask
        } else {
            &mut self.components[i - 1].geometry
        };
        match g {
            MaskGeometry::Bitmap { path } => Some((i, path)),
            MaskGeometry::AiMask { raster, .. } => match raster {
                Some(path) => Some((i, path)),
                None => None,
            },
            _ => None,
        }
    }

    /// The path of the first shape from `from` on that refers to a raster of this
    /// machine, and the place of that shape: bitmaps, and alphas made for AI
    /// masks. Walked from place to place it gives every path once.
    pub fn bitmap_paths_mut(&mut self, from: usize) -> (r: Option<(usize, &mut String)>)
        requires
            from <= old(self)@.shapes() <= usize::MAX,
        ensures
            match r {
                None => old(self)@.next_holder(false, from as int) == old(self)@.shapes()
                    && *final(self) == *old(self),
                Some((i, p)) => {
                    &&& i == old(self)@.next_holder(false, from as int) < old(self)@.shapes()
                    &&& old(self)@.shape(i as int).raster_path(false) == Some((*p)@)
                    &&& final(self)@ == old(self)@.with_shape(
                        i as int,
                        old(self)@.shape(i as int).with_path((*final(p))@),
                    )
                },
            },
    {
        self.raster_path_from(false, from)
    }

    /// The same for the rasters that turn with the frame: bitmaps alone.
    pub fn turnable_raster_paths_mut(&mut self, from: usize) -> (r: Option<(usize, &mut String)>)
        requires
            from <= old(self)@.shapes() <= usize::MAX,
        ensures
            match r {
                None => old(self)@.next_holder(true, from as int) == old(self)@.shapes()
                    && *final(self) == *old(self),
                Some((i, p)) => {
                    &&& i == old(self)@.next_holder(true, from as int) < old(self)@.shapes()
                    &&& old(self)@.shape(i as int).raster_path(true) == Some((*p)@)
                    &&& final(self)@ == old(self)@.with_shape(
                        i as int,
                        old(self)@.shape(i as int).with_path((*final(p))@),
                    )
                },
            },
    {
        self.raster_path_from(true, from)
    }
}

/// What turns with the frame is among what refers to a raster at all.
pub proof fn turnable_rasters_are_rasters(g: GeometryView)
    ensures
        g.raster_path(true) is Some ==> g.raster_path(false) == g.raster_path(true),
{
}

} // verus!
