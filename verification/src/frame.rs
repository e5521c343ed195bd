//! The frame of a developed picture: its lens, its perspective, its rotation and
//! its crop, in this order, and then the finishing pass on what is left.

use vstd::prelude::*;
use crate::finish::{
    crop_in_force, crop_rect, finishing_rect, framed_crop, resamples_lens, straightens, whole_rect,
    CropPolicy, CropRect,
};
use crate::homography::Homography;
use crate::numbers::ZERO;
use crate::recipe::{Crop, EditRecipe, LensProfile};
use crate::single::num;

verus! {

/// What a frame waits for.
#[derive(Clone, Copy, Debug, PartialEq, Eq, Structural)]
pub enum FrameState {
    /// The picture without the bend of its lens.
    Bending,
    /// The map of its perspective.
    Finding,
    /// The picture through that map.
    Reshaping,
    /// The picture, rotated.
    Rotating,
    /// The picture, cut to its crop.
    Cutting,
    /// Nothing any more.
    Over,
}

/// What is to be done next to the picture.
#[derive(Clone, Copy, Debug)]
pub enum FrameStep {
    /// Take the bend of the lens out of it.
    Bend,
    /// Find the map of its perspective.
    FindMap,
    /// Put it through this map.
    Reshape { map: Homography },
    /// Rotate it.
    Rotate,
    /// Cut it to this crop.
    Cut { crop: Option<Crop> },
    /// Finish it on this rectangle, which is the end.
    Finish { rect: CropRect },
}

/// A picture on its way to its frame.
#[derive(Clone, Copy, Debug)]
pub struct FrameRun {
    pub state: FrameState,
    pub rotates: bool,
    /// The crop is kept to what the perspective leaves of the picture.
    pub constrain: bool,
    pub policy: CropPolicy,
    pub crop: Option<Crop>,
    pub map: Option<Homography>,
}

impl FrameState {
    /// The place of a state on the way.
    pub open spec fn rank(self) -> int {
        match self {
            FrameState::Bending => 0,
            FrameState::Finding => 1,
            FrameState::Reshaping => 2,
            FrameState::Rotating => 3,
            FrameState::Cutting => 4,
            FrameState::Over => 5,
        }
    }
}

impl FrameRun {
    /// What the run was asked for does not change on the way.
    pub open spec fn same_run(self, other: FrameRun) -> bool {
        &&& self.rotates == other.rotates
        &&& self.constrain == other.constrain
        &&& self.policy == other.policy
        &&& self.crop == other.crop
    }

    /// The state and the step of a picture of `w` times `h` pixels that has its
    /// perspective and its rotation.
    pub open spec fn cut_next(self, w: int, h: int) -> (FrameState, FrameStep) {
        let crop = crop_in_force(self.map, self.constrain, self.crop, w, h);
        match self.policy {
            CropPolicy::Cut => (FrameState::Cutting, FrameStep::Cut { crop }),
            CropPolicy::Keep => (FrameState::Over, FrameStep::Finish { rect: crop_rect(w, h, crop) }),
        }
    }

    /// The state and the step of a picture that has its perspective.
    pub open spec fn rotate_next(self, w: int, h: int) -> (FrameState, FrameStep) {
        if self.rotates {
            (FrameState::Rotating, FrameStep::Rotate)
        } else {
            self.cut_next(w, h)
        }
    }

    /// The way begins at the lens, or at the perspective if nothing is to be done
    /// about the lens.
    pub fn new(profile: &LensProfile, r: &EditRecipe, constrain: bool, policy: CropPolicy) -> (x: (
        FrameRun,
        FrameStep,
    ))
        ensures
            x.0.rotates == !r.straighten_deg.equals(num(ZERO)),
            x.0.constrain == constrain,
            x.0.policy == policy,
            x.0.crop == r.crop,
            x.0.map is None,
            ({
                let bends = (profile.distortion_on && profile.distortion@.len() > 0) || (
                profile.ca_on && profile.ca_r@.len() > 0 && profile.ca_b@.len() > 0)
                    || !r.lens_distortion.equals(num(ZERO));
                &&& bends ==> x.0.state is Bending && x.1 is Bend
                &&& !bends ==> x.0.state is Finding && x.1 is FindMap
            }),
    {
        let bends: bool = resamples_lens(profile, r.lens_distortion);
        let run: FrameRun = FrameRun {
            state: if bends {
                FrameState::Bending
            } else {
                FrameState::Finding
            },
            rotates: straightens(r.straighten_deg),
            constrain,
            policy,
            crop: r.crop,
            map: None,
        };
        if bends {
            (run, FrameStep::Bend)
        } else {
            (run, FrameStep::FindMap)
        }
    }

    fn to_cut(&mut self, dims: (u32, u32)) -> (step: FrameStep)
        ensures
            final(self).same_run(*old(self)),
            final(self).map == old(self).map,
            (final(self).state, step) == old(self).cut_next(dims.0 as int, dims.1 as int),
    {
        let crop: Option<Crop> = framed_crop(self.map, self.constrain, self.crop, dims);
        match self.policy {
            CropPolicy::Cut => {
                self.state = FrameState::Cutting;
                FrameStep::Cut { crop }
            },
            CropPolicy::Keep => {
                self.state = FrameState::Over;
                FrameStep::Finish { rect: finishing_rect(CropPolicy::Keep, dims, crop) }
            },
        }
    }

    fn to_rotate(&mut self, dims: (u32, u32)) -> (step: FrameStep)
        ensures
            final(self).same_run(*old(self)),
            final(self).map == old(self).map,
            (final(self).state, step) == old(self).rotate_next(dims.0 as int, dims.1 as int),
    {
        if self.rotates {
            self.state = FrameState::Rotating;
            FrameStep::Rotate
        } else {
            self.to_cut(dims)
        }
    }

    /// The bend of the lens is out.
    pub fn bent(&mut self) -> (step: FrameStep)
        requires
            old(self).state is Bending,
        ensures
            final(self).same_run(*old(self)),
            final(self).map == old(self).map,
            final(self).state is Finding,
            step is FindMap,
    {
        self.state = FrameState::Finding;
        FrameStep::FindMap
    }

    /// The map of the perspective was looked for, on a picture of these sides.
    pub fn found(&mut self, map: Option<Homography>, dims: (u32, u32)) -> (step: FrameStep)
        requires
            old(self).state is Finding,
        ensures
            final(self).same_run(*old(self)),
            final(self).map == map,
            final(self).state.rank() > old(self).state.rank(),
            match map {
                Some(m) => final(self).state is Reshaping && step == (FrameStep::Reshape { map: m }),
                None => (final(self).state, step) == (FrameRun {
                    map: None,
                    ..*old(self)
                }).rotate_next(dims.0 as int, dims.1 as int),
            },
    {
        self.map = map;
        match map {
            Some(m) => {
                self.state = FrameState::Reshaping;
                FrameStep::Reshape { map: m }
            },
            None => self.to_rotate(dims),
        }
    }

    /// The picture went through the map of its perspective.
    pub fn reshaped(&mut self, dims: (u32, u32)) -> (step: FrameStep)
        requires
            old(self).state is Reshaping,
        ensures
            final(self).same_run(*old(self)),
            final(self).map == old(self).map,
            final(self).state.rank() > old(self).state.rank(),
            (final(self).state, step) == old(self).rotate_next(dims.0 as int, dims.1 as int),
    {
        self.to_rotate(dims)
    }

    /// The picture was rotated.
    pub fn rotated(&mut self, dims: (u32, u32)) -> (step: FrameStep)
        requires
            old(self).state is Rotating,
        ensures
            final(self).same_run(*old(self)),
            final(self).map == old(self).map,
            final(self).state.rank() > old(self).state.rank(),
            (final(self).state, step) == old(self).cut_next(dims.0 as int, dims.1 as int),
    {
        self.to_cut(dims)
    }

    /// The picture was cut, and has these sides now.
    pub fn cut(&mut self, dims: (u32, u32)) -> (step: FrameStep)
        requires
            old(self).state is Cutting,
        ensures
            final(self).same_run(*old(self)),
            final(self).map == old(self).map,
            final(self).state is Over,
            step == (FrameStep::Finish { rect: whole_rect(dims.0 as int, dims.1 as int) }),
    {
        self.state = FrameState::Over;
        FrameStep::Finish { rect: finishing_rect(CropPolicy::Cut, dims, None) }
    }
}

} // verus!
