//! The steps of noise reduction over a whole plane, between one mean over
//! neighbourhoods and the next.

use vstd::prelude::*;
use crate::pixels::{colour_fit, fit_to_guide, fit_to_itself, self_fit, variance, variation, Fit};
use crate::single::Single;

verus! {

/// The squares of a plane.
pub fn squares(plane: &Vec<Single>) -> (r: Vec<Single>)
    ensures
        r@ == Seq::new(plane@.len(), |i: int| plane@[i].product(plane@[i])),
{
    let mut r: Vec<Single> = Vec::new();
    let n: usize = plane.len();
    for i in 0..n
        invariant
            n == plane@.len(),
            r@ == Seq::new(i as nat, |j: int| plane@[j].product(plane@[j])),
    {
        r.push(plane[i].times(plane[i]));
        assert(r@ =~= Seq::new((i + 1) as nat, |j: int| plane@[j].product(plane@[j])));
    }
    r
}

/// The products of two planes, place by place.
pub fn products(a: &Vec<Single>, b: &Vec<Single>) -> (r: Vec<Single>)
    requires
        a@.len() == b@.len(),
    ensures
        r@ == Seq::new(a@.len(), |i: int| a@[i].product(b@[i])),
{
    let mut r: Vec<Single> = Vec::new();
    let n: usize = a.len();
    for i in 0..n
        invariant
            n == a@.len(),
            n == b@.len(),
            r@ == Seq::new(i as nat, |j: int| a@[j].product(b@[j])),
    {
        r.push(a[i].times(b[i]));
        assert(r@ =~= Seq::new((i + 1) as nat, |j: int| a@[j].product(b@[j])));
    }
    r
}

/// How much the neighbourhood of each place varies, from the means of the squares
/// and those of the plane.
pub fn variances(squares: &Vec<Single>, means: &Vec<Single>) -> (r: Vec<Single>)
    requires
        squares@.len() == means@.len(),
    ensures
        r@ == Seq::new(means@.len(), |i: int| variation(squares@[i], means@[i])),
{
    let mut r: Vec<Single> = Vec::new();
    let n: usize = means.len();
    for i in 0..n
        invariant
            n == squares@.len(),
            n == means@.len(),
            r@ == Seq::new(i as nat, |j: int| variation(squares@[j], means@[j])),
    {
        r.push(variance(squares[i], means[i]));
        assert(r@ =~= Seq::new((i + 1) as nat, |j: int| variation(squares@[j], means@[j])));
    }
    r
}

/// The lines that a plane is fitted with: a slope and an offset for each place.
pub struct Lines {
    pub slopes: Vec<Single>,
    pub offsets: Vec<Single>,
}

impl Lines {
    pub open spec fn well_formed(self) -> bool {
        self.slopes@.len() == self.offsets@.len()
    }

    /// The line at a place.
    pub open spec fn line(self, i: int) -> Fit {
        Fit { slope: self.slopes@[i], offset: self.offsets@[i] }
    }

    /// The lines of a plane that is fitted to itself.
    pub fn to_itself(squares: &Vec<Single>, means: &Vec<Single>, eps: Single) -> (r: Lines)
        requires
            squares@.len() == means@.len(),
        ensures
            r.well_formed(),
            r.slopes@.len() == means@.len(),
            forall|i: int|
                0 <= i < means@.len() ==> #[trigger] r.line(i) == fit_to_itself(
                    squares@[i],
                    means@[i],
                    eps,
                ),
    {
        let mut r: Lines = Lines { slopes: Vec::new(), offsets: Vec::new() };
        let n: usize = means.len();
        for i in 0..n
            invariant
                n == squares@.len(),
                n == means@.len(),
                r.slopes@.len() == i,
                r.offsets@.len() == i,
                forall|j: int|
                    0 <= j < i ==> #[trigger] r.line(j) == fit_to_itself(
                        squares@[j],
                        means@[j],
                        eps,
                    ),
        {
            let ghost before = r;
            let t: Fit = self_fit(squares[i], means[i], eps);
            r.slopes.push(t.slope);
            r.offsets.push(t.offset);
            assert forall|j: int| 0 <= j < i implies #[trigger] r.line(j) == before.line(j) by {}
        }
        r
    }

    /// The lines of a colour that is fitted to the brightness that guides it.
    pub fn to_guide(
        products: &Vec<Single>,
        guide: &Vec<Single>,
        means: &Vec<Single>,
        var: &Vec<Single>,
        eps: Single,
    ) -> (r: Lines)
        requires
            products@.len() == means@.len(),
            guide@.len() == means@.len(),
            var@.len() == means@.len(),
        ensures
            r.well_formed(),
            r.slopes@.len() == means@.len(),
            forall|i: int|
                0 <= i < means@.len() ==> #[trigger] r.line(i) == fit_to_guide(
                    products@[i],
                    guide@[i],
                    means@[i],
                    var@[i],
                    eps,
                ),
    {
        let mut r: Lines = Lines { slopes: Vec::new(), offsets: Vec::new() };
        let n: usize = means.len();
        for i in 0..n
            invariant
                n == products@.len(),
                n == guide@.len(),
                n == means@.len(),
                n == var@.len(),
                r.slopes@.len() == i,
                r.offsets@.len() == i,
                forall|j: int|
                    0 <= j < i ==> #[trigger] r.line(j) == fit_to_guide(
                        products@[j],
                        guide@[j],
                        means@[j],
                        var@[j],
                        eps,
                    ),
        {
            let ghost before = r;
            let t: Fit = colour_fit(products[i], guide[i], means[i], var[i], eps);
            r.slopes.push(t.slope);
            r.offsets.push(t.offset);
            assert forall|j: int| 0 <= j < i implies #[trigger] r.line(j) == before.line(j) by {}
        }
        r
    }

    /// The values that the lines give a plane.
    pub fn along(&self, plane: &Vec<Single>) -> (r: Vec<Single>)
        requires
            self.well_formed(),
            self.slopes@.len() == plane@.len(),
        ensures
            r@ == Seq::new(
                plane@.len(),
                |i: int| self.slopes@[i].product(plane@[i]).sum(self.offsets@[i]),
            ),
    {
        let mut r: Vec<Single> = Vec::new();
        let n: usize = plane.len();
        for i in 0..n
            invariant
                n == plane@.len(),
                n == self.slopes@.len(),
                n == self.offsets@.len(),
                r@ == Seq::new(
                    i as nat,
                    |j: int| self.slopes@[j].product(plane@[j]).sum(self.offsets@[j]),
                ),
        {
            let t: Fit = Fit { slope: self.slopes[i], offset: self.offsets[i] };
            r.push(t.at(plane[i]));
            assert(r@ =~= Seq::new(
                (i + 1) as nat,
                |j: int| self.slopes@[j].product(plane@[j]).sum(self.offsets@[j]),
            ));
        }
        r
    }
}

/// What a plane has over another, place by place.
pub fn left_over(a: &Vec<Single>, b: &Vec<Single>) -> (r: Vec<Single>)
    requires
        a@.len() == b@.len(),
    ensures
        r@ == Seq::new(a@.len(), |i: int| a@[i].difference(b@[i])),
{
    let mut r: Vec<Single> = Vec::new();
    let n: usize = a.len();
    for i in 0..n
        invariant
            n == a@.len(),
            n == b@.len(),
            r@ == Seq::new(i as nat, |j: int| a@[j].difference(b@[j])),
    {
        r.push(a[i].minus(b[i]));
        assert(r@ =~= Seq::new((i + 1) as nat, |j: int| a@[j].difference(b@[j])));
    }
    r
}

} // verus!
