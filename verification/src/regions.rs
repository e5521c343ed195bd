//! The connected regions of a painted mask.
//!
//! Pixels are numbered row by row. Two painted pixels belong to one region if a
//! chain of painted pixels leads from one to the other, each the neighbour of
//! the one before it to the left, right, above or below.

use vstd::prelude::*;
use crate::bits::Bits;
use crate::walk::{numbers, walked_from, Walk};

verus! {

/// Pixels `i` and `j` of rows of `w` are neighbours.
pub open spec fn adjacent(w: int, i: int, j: int) -> bool {
    ||| (j == i + 1 && j % w != 0)
    ||| (i == j + 1 && i % w != 0)
    ||| j == i + w
    ||| i == j + w
}

/// A chain of `k` steps over painted pixels leads from `i` to `j`.
pub open spec fn linked(p: Seq<bool>, w: int, i: int, j: int, k: nat) -> bool
    decreases k,
{
    &&& 0 <= j < p.len() && p[j]
    &&& if k == 0 {
        i == j
    } else {
        exists|m: int| linked(p, w, i, m, (k - 1) as nat) && #[trigger] adjacent(w, m, j)
    }
}

/// A chain of painted pixels leads from `i` to `j`.
pub open spec fn joined(p: Seq<bool>, w: int, i: int, j: int) -> bool {
    exists|k: nat| linked(p, w, i, j, k)
}

/// The region of the painted pixel `i`.
pub open spec fn region(p: Seq<bool>, w: int, i: int) -> Set<int> {
    Set::new(|j: int| joined(p, w, i, j))
}

/// `j` is in the list.
pub open spec fn listed(s: Seq<usize>, j: int) -> bool {
    exists|a: int| 0 <= a < s.len() && #[trigger] s[a] == j
}

/// The pixels of a list.
pub open spec fn members(s: Seq<usize>) -> Set<int> {
    Set::new(|j: int| listed(s, j))
}

/// Every painted neighbour of a marked pixel is marked, and every marked pixel
/// is painted.
pub open spec fn closed_under(p: Seq<bool>, seen: Seq<bool>, w: int) -> bool {
    &&& seen.len() == p.len()
    &&& forall|i: int| 0 <= i < seen.len() && #[trigger] seen[i] ==> p[i]
    &&& forall|i: int, j: int|
        0 <= i < p.len() && 0 <= j < p.len() && #[trigger] seen[i] && p[j] && #[trigger] adjacent(
            w,
            i,
            j,
        ) ==> seen[j]
}

pub proof fn lemma_adjacent_symmetric(w: int, i: int, j: int)
    ensures
        adjacent(w, i, j) == adjacent(w, j, i),
{
}

/// A closed set that holds one pixel of a region holds all of it.
proof fn lemma_closed_holds_chain(p: Seq<bool>, w: int, s: Set<int>, i: int, j: int, k: nat)
    requires
        s.contains(i),
        forall|a: int, b: int|
            s.contains(a) && 0 <= b < p.len() && p[b] && #[trigger] adjacent(w, a, b)
                ==> s.contains(b),
        linked(p, w, i, j, k),
    ensures
        s.contains(j),
    decreases k,
{
    if k > 0 {
        let m = choose|m: int| linked(p, w, i, m, (k - 1) as nat) && #[trigger] adjacent(w, m, j);
        lemma_closed_holds_chain(p, w, s, i, m, (k - 1) as nat);
    }
}

/// One more step.
proof fn lemma_joined_next(p: Seq<bool>, w: int, i: int, m: int, j: int)
    requires
        joined(p, w, i, m),
        adjacent(w, m, j),
        0 <= j < p.len(),
        p[j],
    ensures
        joined(p, w, i, j),
{
    let k = choose|k: nat| linked(p, w, i, m, k);
    assert(linked(p, w, i, j, k + 1));
}

/// Different numbers below `n` are at most `n` many.
pub proof fn lemma_distinct_bound(s: Seq<usize>, n: nat)
    requires
        s.no_duplicates(),
        forall|a: int| 0 <= a < s.len() ==> #[trigger] s[a] < n,
    ensures
        s.len() <= n,
    decreases n,
{
    if n == 0 {
        if s.len() > 0 {
            assert(s[0] < n);
        }
    } else if exists|a: int| 0 <= a < s.len() && s[a] == n - 1 {
        let a = choose|a: int| 0 <= a < s.len() && s[a] == n - 1;
        let t = s.remove(a);
        assert forall|b: int| 0 <= b < t.len() implies #[trigger] t[b] < n - 1 by {
            let c = if b < a { b } else { b + 1 };
            assert(t[b] == s[c]);
        }
        assert(t.no_duplicates()) by {
            assert forall|b: int, c: int| 0 <= b < t.len() && 0 <= c < t.len() && b != c implies t[b]
                != t[c] by {
                let bb = if b < a { b } else { b + 1 };
                let cc = if c < a { c } else { c + 1 };
                assert(t[b] == s[bb] && t[c] == s[cc]);
            }
        }
        lemma_distinct_bound(t, (n - 1) as nat);
    } else {
        assert forall|b: int| 0 <= b < s.len() implies #[trigger] s[b] < n - 1 by {
            assert(s[b] < n);
        }
        lemma_distinct_bound(s, (n - 1) as nat);
    }
}

/// The state of a flood from `start`: `before` was marked already, `seen` is
/// marked now, `stack` is still to be looked at, `out` was, and the neighbours
/// of the first `done` of `out` are marked.
spec fn flooding(
    p: Seq<bool>,
    w: int,
    start: int,
    before: Seq<bool>,
    seen: Seq<bool>,
    stack: Seq<usize>,
    out: Seq<usize>,
    done: int,
) -> bool {
    &&& closed_under(p, before, w)
    &&& seen.len() == p.len()
    &&& 0 <= start < p.len()
    &&& forall|j: int|
        0 <= j < p.len() ==> (#[trigger] seen[j] <==> before[j] || listed(stack, j) || listed(
            out,
            j,
        ))
    &&& forall|a: int|
        0 <= a < stack.len() ==> #[trigger] stack[a] < p.len() && p[stack[a] as int]
            && !before[stack[a] as int] && joined(p, w, start, stack[a] as int)
    &&& forall|a: int|
        0 <= a < out.len() ==> #[trigger] out[a] < p.len() && p[out[a] as int]
            && !before[out[a] as int] && joined(p, w, start, out[a] as int)
    &&& stack.no_duplicates()
    &&& out.no_duplicates()
    &&& forall|a: int, b: int|
        0 <= a < stack.len() && 0 <= b < out.len() ==> #[trigger] stack[a] != #[trigger] out[b]
    &&& listed(stack, start) || listed(out, start)
    &&& 0 <= done <= out.len()
    &&& forall|a: int, j: int|
        0 <= a < done && 0 <= j < p.len() && p[j] && #[trigger] adjacent(w, out[a] as int, j)
            ==> seen[j]
}

/// The walk that a flood is at.
spec fn walk_of(stack: Seq<usize>, out: Seq<usize>) -> Walk {
    Walk {
        stack: numbers(stack),
        found: Set::new(|j: int| listed(stack, j) || listed(out, j)),
        left: numbers(out),
    }
}

proof fn lemma_walk_finds(stack: Seq<usize>, out: Seq<usize>, j: usize)
    ensures
        walk_of(stack.push(j), out) == (Walk {
            stack: numbers(stack).push(j as int),
            found: walk_of(stack, out).found.insert(j as int),
            left: numbers(out),
        }),
{
    let t = stack.push(j);
    assert(numbers(t) =~= numbers(stack).push(j as int));
    assert forall|i: int| listed(t, i) == (listed(stack, i) || i == j) by {
        if listed(stack, i) {
            let a = choose|a: int| 0 <= a < stack.len() && stack[a] == i;
            assert(t[a] == i);
        }
        if i == j {
            assert(t[stack.len() as int] == i);
        }
        if listed(t, i) {
            let a = choose|a: int| 0 <= a < t.len() && t[a] == i;
            if a < stack.len() {
                assert(stack[a] == i);
            }
        }
    }
    assert(walk_of(t, out).found =~= walk_of(stack, out).found.insert(j as int));
}

/// Leaving the pixel that was found last finds nothing by itself.
proof fn lemma_walk_leaves(stack: Seq<usize>, out: Seq<usize>)
    requires
        stack.len() > 0,
    ensures
        walk_of(stack.drop_last(), out.push(stack.last())) == (Walk {
            stack: numbers(stack).drop_last(),
            found: walk_of(stack, out).found,
            left: numbers(out).push(stack.last() as int),
        }),
{
    let t = stack.drop_last();
    let o = out.push(stack.last());
    assert(numbers(t) =~= numbers(stack).drop_last());
    assert(numbers(o) =~= numbers(out).push(stack.last() as int));
    assert forall|i: int| (listed(t, i) || listed(o, i)) == (listed(stack, i) || listed(out, i)) by {
        if listed(stack, i) {
            let a = choose|a: int| 0 <= a < stack.len() && stack[a] == i;
            if a < t.len() {
                assert(t[a] == i);
            } else {
                assert(o[out.len() as int] == i);
            }
        }
        if listed(out, i) {
            let a = choose|a: int| 0 <= a < out.len() && out[a] == i;
            assert(o[a] == i);
        }
        if listed(t, i) {
            let a = choose|a: int| 0 <= a < t.len() && t[a] == i;
            assert(stack[a] == i);
        }
        if listed(o, i) {
            let a = choose|a: int| 0 <= a < o.len() && o[a] == i;
            if a < out.len() {
                assert(out[a] == i);
            } else {
                assert(stack[stack.len() - 1] == i);
            }
        }
    }
    assert(walk_of(t, o).found =~= walk_of(stack, out).found);
}

/// Marks the neighbour `j` of `out`'s last pixel, if it is painted and new.
fn visit(
    painted: &Bits,
    seen: &mut Bits,
    stack: &mut Vec<usize>,
    j: usize,
    Ghost(w): Ghost<int>,
    Ghost(start): Ghost<int>,
    Ghost(before): Ghost<Seq<bool>>,
    Ghost(out): Ghost<Seq<usize>>,
)
    requires
        painted.well_formed(),
        old(seen).well_formed(),
        j < painted@.len(),
        out.len() > 0,
        adjacent(w, out.last() as int, j as int),
        flooding(painted@, w, start, before, old(seen)@, old(stack)@, out, out.len() - 1),
    ensures
        final(seen).well_formed(),
        flooding(painted@, w, start, before, final(seen)@, final(stack)@, out, out.len() - 1),
        painted@[j as int] ==> final(seen)@[j as int],
        forall|i: int| 0 <= i < painted@.len() && old(seen)@[i] ==> #[trigger] final(seen)@[i],
        walk_of(final(stack)@, out) == walk_of(old(stack)@, out).finding(
            region(painted@, w, start),
            j as int,
        ),
{
    let ghost p = painted@;
    proof {
        let last = out.last() as int;
        assert(out[out.len() - 1] == last);
        if p[j as int] {
            lemma_joined_next(p, w, start, last, j as int);
            if before[j as int] {
                lemma_adjacent_symmetric(w, last, j as int);
                assert(before[last]);
            }
        }
        assert(seen@[j as int] <==> before[j as int] || listed(stack@, j as int) || listed(
            out,
            j as int,
        ));
    }
    if painted.get(j) && !seen.get(j) {
        let ghost was = seen@;
        let ghost old_stack = stack@;
        seen.set(j);
        stack.push(j);
        proof {
            let last = out.last() as int;
            assert(out[out.len() - 1] == last);
            lemma_joined_next(p, w, start, last, j as int);
            assert(!listed(old_stack, j as int) && !listed(out, j as int) && !before[j as int]);
            lemma_walk_finds(old_stack, out, j);
            assert forall|i: int| 0 <= i < p.len() implies (#[trigger] seen@[i] <==> before[i]
                || listed(stack@, i) || listed(out, i)) by {
                if i == j {
                    assert(stack@[stack@.len() - 1] == i);
                } else {
                    assert(seen@[i] == was[i]);
                    if listed(old_stack, i) {
                        let a = choose|a: int| 0 <= a < old_stack.len() && old_stack[a] == i;
                        assert(stack@[a] == i);
                    }
                    if listed(stack@, i) {
                        let a = choose|a: int| 0 <= a < stack@.len() && stack@[a] == i;
                        assert(old_stack[a] == i);
                    }
                }
            }
            if listed(old_stack, start) {
                let a = choose|a: int| 0 <= a < old_stack.len() && old_stack[a] == start;
                assert(stack@[a] == start);
            }
            assert(stack@.no_duplicates()) by {
                assert forall|a: int, b: int|
                    0 <= a < stack@.len() && 0 <= b < stack@.len() && a != b implies stack@[a]
                    != stack@[b] by {
                    if a == old_stack.len() && stack@[b] == j {
                        assert(old_stack[b] == j as int);
                    }
                    if b == old_stack.len() && stack@[a] == j {
                        assert(old_stack[a] == j as int);
                    }
                }
            }
            assert forall|a: int, b: int| 0 <= a < stack@.len() && 0 <= b < out.len() implies
                #[trigger] stack@[a] != #[trigger] out[b] by {
                if a < old_stack.len() {
                    assert(old_stack[a] != out[b]);
                } else if out[b] == j {
                    assert(listed(out, j as int));
                }
            }
        }
    }
}

/// The pixels of the region of `start`, which is marked with it.
#[verifier::rlimit(40)]
pub fn flood(painted: &Bits, seen: &mut Bits, w: usize, start: usize) -> (out: Vec<usize>)
    requires
        painted.well_formed(),
        old(seen).well_formed(),
        w > 0,
        start < painted@.len(),
        painted@[start as int],
        !old(seen)@[start as int],
        closed_under(painted@, old(seen)@, w as int),
    ensures
        final(seen).well_formed(),
        closed_under(painted@, final(seen)@, w as int),
        members(out@) == region(painted@, w as int, start as int),
        out@.no_duplicates(),
        out@.len() > 0,
        numbers(out@) == walked_from(
            region(painted@, w as int, start as int),
            w as int,
            painted@.len(),
            start as int,
        ),
        forall|a: int| 0 <= a < out@.len() ==> #[trigger] out@[a] < painted@.len(),
        forall|j: int|
            0 <= j < painted@.len() ==> (#[trigger] final(seen)@[j] <==> old(seen)@[j] || region(
                painted@,
                w as int,
                start as int,
            ).contains(j)),
{
    let n: usize = painted.len();
    let ghost p = painted@;
    let ghost before = seen@;
    let ghost wi = w as int;
    let ghost si = start as int;
    let mut stack: Vec<usize> = Vec::new();
    let mut out: Vec<usize> = Vec::new();
    stack.push(start);
    seen.set(start);
    proof {
        assert(stack@[0] == si);
        assert(linked(p, wi, si, si, 0));
        assert forall|j: int| 0 <= j < p.len() implies (#[trigger] seen@[j] <==> before[j] || listed(
            stack@,
            j,
        ) || listed(out@, j)) by {
            if listed(stack@, j) {
                assert(j == si);
            }
            if j == si {
                assert(stack@[0] == j);
            }
        }
        assert(flooding(p, wi, si, before, seen@, stack@, out@, 0));
        assert(numbers(stack@) =~= seq![si]);
        assert(numbers(out@) =~= Seq::<int>::empty());
        assert forall|j: int| (listed(stack@, j) || listed(out@, j)) == (j == si) by {
            if j == si {
                assert(stack@[0] == j);
            }
        }
        assert(walk_of(stack@, out@).found =~= set![si]);
    }
    let ghost r = region(p, wi, si);
    let ghost whole = walk_of(stack@, out@).after(r, wi, n as int, n as nat);
    loop
        invariant
            r == region(p, wi, si),
            out@.len() <= n,
            walk_of(stack@, out@).after(r, wi, n as int, (n - out@.len()) as nat) == whole,
            painted.well_formed(),
            seen.well_formed(),
            w > 0,
            wi == w,
            p == painted@,
            n == p.len(),
            flooding(p, wi, si, before, seen@, stack@, out@, out@.len() as int),
        ensures
            flooding(p, wi, si, before, seen@, stack@, out@, out@.len() as int),
            seen.well_formed(),
            stack@.len() == 0,
            numbers(out@) == whole.left,
        decreases n - out@.len(),
    {
        let ghost old_stack = stack@;
        let ghost old_out = out@;
        match stack.pop() {
            None => {
                break;
            },
            Some(i) => {
                out.push(i);
                proof {
                    assert(i == old_stack[old_stack.len() - 1]);
                    assert forall|j: int| 0 <= j < p.len() implies (#[trigger] seen@[j]
                        <==> before[j] || listed(stack@, j) || listed(out@, j)) by {
                        if listed(old_stack, j) {
                            let a = choose|a: int| 0 <= a < old_stack.len() && old_stack[a] == j;
                            if a == old_stack.len() - 1 {
                                assert(out@[out@.len() - 1] == j);
                            } else {
                                assert(stack@[a] == j);
                            }
                        }
                        if listed(old_out, j) {
                            let a = choose|a: int| 0 <= a < old_out.len() && old_out[a] == j;
                            assert(out@[a] == j);
                        }
                        if listed(stack@, j) {
                            let a = choose|a: int| 0 <= a < stack@.len() && stack@[a] == j;
                            assert(old_stack[a] == j);
                        }
                        if listed(out@, j) {
                            let a = choose|a: int| 0 <= a < out@.len() && out@[a] == j;
                            if a < old_out.len() {
                                assert(old_out[a] == j);
                            } else {
                                assert(old_stack[old_stack.len() - 1] == j);
                            }
                        }
                    }
                    assert(listed(stack@, si) || listed(out@, si)) by {
                        if listed(old_stack, si) {
                            let a = choose|a: int| 0 <= a < old_stack.len() && old_stack[a] == si;
                            if a == old_stack.len() - 1 {
                                assert(out@[out@.len() - 1] == si);
                            } else {
                                assert(stack@[a] == si);
                            }
                        } else {
                            let a = choose|a: int| 0 <= a < old_out.len() && old_out[a] == si;
                            assert(out@[a] == si);
                        }
                    }
                    assert(out@.no_duplicates()) by {
                        assert forall|a: int, b: int|
                            0 <= a < out@.len() && 0 <= b < out@.len() && a != b implies out@[a]
                            != out@[b] by {
                            if a == old_out.len() {
                                assert(old_stack[old_stack.len() - 1] != old_out[b]);
                            } else if b == old_out.len() {
                                assert(old_stack[old_stack.len() - 1] != old_out[a]);
                            }
                        }
                    }
                    assert forall|a: int, b: int| 0 <= a < stack@.len() && 0 <= b < out@.len() implies
                        #[trigger] stack@[a] != #[trigger] out@[b] by {
                        assert(stack@[a] == old_stack[a]);
                        if b < old_out.len() {
                            assert(old_stack[a] != old_out[b]);
                        } else {
                            assert(old_stack[a] != old_stack[old_stack.len() - 1]);
                        }
                    }
                    assert forall|a: int| 0 <= a < out@.len() implies #[trigger] out@[a] < p.len()
                        && p[out@[a] as int] && !before[out@[a] as int] && joined(
                        p,
                        wi,
                        si,
                        out@[a] as int,
                    ) by {
                        if a < old_out.len() {
                            assert(old_out[a] < p.len());
                        } else {
                            assert(old_stack[old_stack.len() - 1] < p.len());
                        }
                    }
                    assert forall|a: int| 0 <= a < stack@.len() implies #[trigger] stack@[a] < p.len()
                        && p[stack@[a] as int] && !before[stack@[a] as int] && joined(
                        p,
                        wi,
                        si,
                        stack@[a] as int,
                    ) by {
                        assert(old_stack[a] < p.len());
                    }
                    assert(flooding(p, wi, si, before, seen@, stack@, out@, out@.len() - 1));
                    lemma_distinct_bound(out@, n as nat);
                }
                let ghost ii = i as int;
                let x: usize = i % w;
                let ghost walk = walk_of(old_stack, old_out);
                proof {
                    lemma_walk_leaves(old_stack, old_out);
                    assert(stack@ =~= old_stack.drop_last());
                    assert(out@ =~= old_out.push(old_stack.last()));
                    assert(walk.stack.last() == ii);
                }
                proof {
                    vstd::arithmetic::div_mod::lemma_mod_decreases(i as nat, w as nat);
                    assert((ii + 1) % wi != 0 <==> x + 1 < w) by (nonlinear_arith)
                        requires
                            wi > 0,
                            wi == w,
                            x == ii % wi,
                            ii >= 0,
                    {
                        let q = ii / wi;
                        assert(ii == q * wi + x);
                        if x + 1 < wi {
                            vstd::arithmetic::div_mod::lemma_fundamental_div_mod_converse(
                                ii + 1,
                                wi,
                                q,
                                x + 1,
                            );
                        } else {
                            assert(ii + 1 == (q + 1) * wi + 0);
                            vstd::arithmetic::div_mod::lemma_fundamental_div_mod_converse(
                                ii + 1,
                                wi,
                                q + 1,
                                0,
                            );
                        }
                    }
                }
                if x > 0 {
                    visit(
                        painted,
                        seen,
                        &mut stack,
                        i - 1,
                        Ghost(wi),
                        Ghost(si),
                        Ghost(before),
                        Ghost(out@),
                    );
                }
                let ghost seen1 = seen@;
                if x + 1 < w && i + 1 < n {
                    visit(
                        painted,
                        seen,
                        &mut stack,
                        i + 1,
                        Ghost(wi),
                        Ghost(si),
                        Ghost(before),
                        Ghost(out@),
                    );
                }
                let ghost seen2 = seen@;
                if i >= w {
                    visit(
                        painted,
                        seen,
                        &mut stack,
                        i - w,
                        Ghost(wi),
                        Ghost(si),
                        Ghost(before),
                        Ghost(out@),
                    );
                }
                let ghost seen3 = seen@;
                if w < n - i {
                    visit(
                        painted,
                        seen,
                        &mut stack,
                        i + w,
                        Ghost(wi),
                        Ghost(si),
                        Ghost(before),
                        Ghost(out@),
                    );
                }
                proof {
                    assert(walk_of(stack@, out@) == walk.step(r, wi, n as int));
                    assert forall|a: int, j: int|
                        0 <= a < out@.len() && 0 <= j < p.len() && p[j] && #[trigger] adjacent(
                            wi,
                            out@[a] as int,
                            j,
                        ) implies seen@[j] by {
                        if a == out@.len() - 1 {
                            assert(out@[a] == ii);
                            if j == ii + 1 && j % wi != 0 {
                                assert(seen2[j]);
                                assert(seen3[j]);
                            } else if ii == j + 1 && ii % wi != 0 {
                                assert(seen1[j]);
                                assert(seen2[j]);
                                assert(seen3[j]);
                            } else if j == ii + wi {
                                assert(seen@[j]);
                            } else {
                                assert(seen3[j]);
                            }
                        }
                    }
                }
            },
        }
    }
    proof {
        let s = members(out@);
        assert(listed(out@, si));
        assert forall|a: int, b: int|
            s.contains(a) && 0 <= b < p.len() && p[b] && #[trigger] adjacent(
                wi,
                a,
                b,
            ) implies s.contains(b) by {
            let x = choose|x: int| 0 <= x < out@.len() && #[trigger] out@[x] == a;
            assert(adjacent(wi, out@[x] as int, b));
            assert(seen@[b]);
            if before[b] {
                lemma_adjacent_symmetric(wi, a, b);
                assert(adjacent(wi, b, a));
                assert(before[a]);
            }
        }
        assert forall|j: int| r.contains(j) implies s.contains(j) by {
            let k = choose|k: nat| linked(p, wi, si, j, k);
            lemma_closed_holds_chain(p, wi, s, si, j, k);
        }
        assert forall|j: int| s.contains(j) implies r.contains(j) by {
            let x = choose|x: int| 0 <= x < out@.len() && #[trigger] out@[x] == j;
        }
        assert(s =~= r);
        assert forall|j: int| 0 <= j < p.len() implies (#[trigger] seen@[j] <==> before[j]
            || r.contains(j)) by {
            assert(s.contains(j) == listed(out@, j));
        }
        assert forall|i: int, j: int|
            0 <= i < p.len() && 0 <= j < p.len() && #[trigger] seen@[i] && p[j]
                && #[trigger] adjacent(wi, i, j) implies seen@[j] by {
            if before[i] {
                assert(before[j]);
            } else {
                assert(s.contains(i));
                assert(s.contains(j));
            }
        }
        assert forall|i: int| 0 <= i < seen@.len() && #[trigger] seen@[i] implies p[i] by {
            if !before[i] {
                let x = choose|x: int| 0 <= x < out@.len() && #[trigger] out@[x] == i;
            }
        }
    }
    out
}

} // verus!
