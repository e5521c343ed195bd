//! The order in which a region is walked: from its first pixel on, always from the pixel
//! that was found last, and from each to its left, right, upper and lower neighbour.

use vstd::prelude::*;

verus! {

/// A walk on its way: the pixels that were found and are still to be left, those that were
/// found at all, and those that were left, in order.
#[verifier::ext_equal]
pub struct Walk {
    pub stack: Seq<int>,
    pub found: Set<int>,
    pub left: Seq<int>,
}

impl Walk {
    /// The pixel `j` is found, if it is in the region and new.
    pub open spec fn finding(self, r: Set<int>, j: int) -> Walk {
        if r.contains(j) && !self.found.contains(j) {
            Walk { stack: self.stack.push(j), found: self.found.insert(j), left: self.left }
        } else {
            self
        }
    }

    /// The pixel that was found last is left, and its neighbours are looked at.
    pub open spec fn step(self, r: Set<int>, w: int, n: int) -> Walk {
        let i = self.stack.last();
        let a = Walk { stack: self.stack.drop_last(), found: self.found, left: self.left.push(i) };
        let b = if i % w > 0 { a.finding(r, i - 1) } else { a };
        let c = if i % w + 1 < w && i + 1 < n { b.finding(r, i + 1) } else { b };
        let d = if i >= w { c.finding(r, i - w) } else { c };
        if i + w < n { d.finding(r, i + w) } else { d }
    }

    /// The walk after `k` more steps, or at its end.
    pub open spec fn after(self, r: Set<int>, w: int, n: int, k: nat) -> Walk
        decreases k,
    {
        if k == 0 || self.stack.len() == 0 {
            self
        } else {
            self.step(r, w, n).after(r, w, n, (k - 1) as nat)
        }
    }
}

/// The pixels of a region of a mask of `n` pixels in the order of a walk from `start`.
pub open spec fn walked_from(r: Set<int>, w: int, n: nat, start: int) -> Seq<int> {
    let begun = Walk { stack: seq![start], found: set![start], left: seq![] };
    begun.after(r, w, n as int, n).left
}

/// The pixel is the first of the region.
pub open spec fn is_first(r: Set<int>, m: int) -> bool {
    r.contains(m) && forall|j: int| #[trigger] r.contains(j) ==> m <= j
}

pub open spec fn first_pixel(r: Set<int>) -> int {
    choose|m: int| is_first(r, m)
}

/// The pixels of a region in the order of its walk.
pub open spec fn walked(r: Set<int>, w: int, n: nat) -> Seq<int> {
    walked_from(r, w, n, first_pixel(r))
}

/// A list of pixels as numbers.
pub open spec fn numbers(s: Seq<usize>) -> Seq<int> {
    Seq::new(s.len(), |a: int| s[a] as int)
}

/// There is one first pixel.
pub proof fn lemma_first(r: Set<int>, m: int)
    requires
        is_first(r, m),
    ensures
        first_pixel(r) == m,
{
    let k = first_pixel(r);
    assert(is_first(r, k));
    assert(r.contains(k) && r.contains(m));
}

} // verus!
