//! The outlines of the basic shapes.

use vstd::prelude::*;
use crate::geom::Point;
use crate::geom::Real;
use crate::path::outline::PathEl;

verus! {

/// A radius within a side: none below zero, and none above half the side.
pub open spec fn capped(r: Real, half: Real) -> Real {
    if r.less(Real { bits: 0 }) {
        Real { bits: 0 }
    } else if half.less(r) {
        half
    } else {
        r
    }
}

/// The first of two lengths that is given, or zero.
pub open spec fn either(a: Option<Real>, b: Option<Real>) -> Real {
    match a {
        Some(v) => v,
        None => match b {
            Some(v) => v,
            None => Real { bits: 0 },
        },
    }
}

fn cap(r: Real, half: Real) -> (v: Real)
    ensures
        v == capped(r, half),
{
    let zero = Real { bits: 0 };
    if r.below(zero) {
        zero
    } else if half.below(r) {
        half
    } else {
        r
    }
}

fn given(a: Option<Real>, b: Option<Real>) -> (v: Real)
    ensures
        v == either(a, b),
{
    match a {
        Some(v) => v,
        None => match b {
            Some(v) => v,
            None => Real { bits: 0 },
        },
    }
}

/// The radii of the corners of a rectangle. Either radius alone gives both, and
/// each is capped at half its side, so that a radius too large for a small
/// rectangle makes a stadium rather than a tangle.
pub fn corner_radii(rx: Option<Real>, ry: Option<Real>, half: (Real, Real)) -> (r: (Real, Real))
    ensures
        r == (capped(either(rx, ry), half.0), capped(either(ry, rx), half.1)),
{
    (cap(given(rx, ry), half.0), cap(given(ry, rx), half.1))
}

/// Whether corners with these radii are round: those of no width or no height
/// are not.
pub fn is_round(radii: (Real, Real)) -> (r: bool)
    ensures
        r == !(radii.0.at_most(Real { bits: 0 }) || radii.1.at_most(Real { bits: 0 })),
{
    let zero = Real { bits: 0 };
    !(radii.0.not_above(zero) || radii.1.not_above(zero))
}

/// The outline of a rectangle by its corners.
pub fn sharp_rect(a: Point, b: Point, c: Point, d: Point) -> (els: Vec<PathEl>)
    ensures
        els@ == seq![
            PathEl::MoveTo(a),
            PathEl::LineTo(b),
            PathEl::LineTo(c),
            PathEl::LineTo(d),
            PathEl::ClosePath,
        ],
{
    let mut els: Vec<PathEl> = Vec::new();
    els.push(PathEl::MoveTo(a));
    els.push(PathEl::LineTo(b));
    els.push(PathEl::LineTo(c));
    els.push(PathEl::LineTo(d));
    els.push(PathEl::ClosePath);
    els
}

/// Whether `arcs` are the arcs that round the corners, each from where it leaves
/// a side to where it meets the next.
pub open spec fn rounds<A: Fn(Point, Point) -> Vec<PathEl>>(
    arc: A,
    corners: Seq<(Point, Point)>,
    arcs: Seq<Seq<PathEl>>,
) -> bool {
    &&& arcs.len() == corners.len()
    &&& forall|k: int| 0 <= k < corners.len() ==> is_arc(arc, corners[k], #[trigger] arcs[k])
}

/// Whether `els` is the arc between two points.
pub open spec fn is_arc<A: Fn(Point, Point) -> Vec<PathEl>>(
    arc: A,
    ends: (Point, Point),
    els: Seq<PathEl>,
) -> bool {
    exists|v: Vec<PathEl>| #[trigger] call_ensures(arc, ends, v) && els == v@
}

/// The first `n` corners, each with the line that leads up to it.
pub open spec fn sides(corners: Seq<(Point, Point)>, arcs: Seq<Seq<PathEl>>, n: int) -> Seq<PathEl>
    decreases n,
{
    if n <= 0 {
        Seq::empty()
    } else {
        sides(corners, arcs, n - 1).push(PathEl::LineTo(corners[n - 1].0)) + arcs[n - 1]
    }
}

proof fn lemma_sides(corners: Seq<(Point, Point)>, a: Seq<Seq<PathEl>>, b: Seq<Seq<PathEl>>, n: int)
    requires
        0 <= n <= a.len(),
        n <= b.len(),
        forall|k: int| 0 <= k < n ==> a[k] == b[k],
    ensures
        sides(corners, a, n) == sides(corners, b, n),
    decreases n,
{
    if n > 0 {
        lemma_sides(corners, a, b, n - 1);
    }
}

/// Appends elements.
fn extend(els: &mut Vec<PathEl>, more: &Vec<PathEl>)
    ensures
        final(els)@ == old(els)@ + more@,
{
    let mut i: usize = 0;
    assert(els@ =~= old(els)@ + more@.take(0));
    while i < more.len()
        invariant
            i <= more@.len(),
            els@ == old(els)@ + more@.take(i as int),
        decreases more.len() - i,
    {
        els.push(more[i]);
        i += 1;
        assert(els@ =~= old(els)@ + more@.take(i as int));
    }
    assert(more@.take(i as int) == more@);
}

/// The outline of a rectangle with round corners. `corners` holds where each
/// corner leaves its side and where it meets the next, in order; the outline
/// starts where the last one ends. `arc` rounds a corner.
pub fn rounded_rect<A: Fn(Point, Point) -> Vec<PathEl>>(
    corners: &Vec<(Point, Point)>,
    arc: &A,
) -> (els: Vec<PathEl>)
    requires
        corners@.len() > 0,
        forall|a: Point, b: Point| call_requires(arc, (a, b)),
    ensures
        exists|arcs: Seq<Seq<PathEl>>| #[trigger]
            rounds(*arc, corners@, arcs) && els@ == (seq![PathEl::MoveTo(corners@.last().1)]
                + sides(corners@, arcs, corners@.len() as int)).push(PathEl::ClosePath),
{
    let mut els: Vec<PathEl> = Vec::new();
    els.push(PathEl::MoveTo(corners[corners.len() - 1].1));
    let ghost head = seq![PathEl::MoveTo(corners@.last().1)];
    let ghost mut arcs: Seq<Seq<PathEl>> = Seq::empty();
    let mut i: usize = 0;
    assert(els@ =~= head + sides(corners@, arcs, 0));
    while i < corners.len()
        invariant
            i <= corners@.len(),
            arcs.len() == i,
            forall|a: Point, b: Point| call_requires(arc, (a, b)),
            forall|k: int| 0 <= k < i ==> is_arc(*arc, corners@[k], #[trigger] arcs[k]),
            els@ == head + sides(corners@, arcs, i as int),
        decreases corners.len() - i,
    {
        let (before, after): (Point, Point) = corners[i];
        els.push(PathEl::LineTo(before));
        let round = arc(before, after);
        extend(&mut els, &round);
        proof {
            let earlier = arcs;
            arcs = arcs.push(round@);
            lemma_sides(corners@, earlier, arcs, i as int);
            assert(is_arc(*arc, corners@[i as int], round@));
            assert forall|k: int| 0 <= k < i + 1 implies is_arc(
                *arc,
                corners@[k],
                #[trigger] arcs[k],
            ) by {
                if k < i {
                    assert(arcs[k] == earlier[k]);
                }
            }
            assert(els@ =~= head + sides(corners@, arcs, i + 1));
        }
        i += 1;
    }
    els.push(PathEl::ClosePath);
    assert(rounds(*arc, corners@, arcs));
    els
}

/// The outline of an ellipse, in two halves from its rightmost point to its
/// leftmost and back. `arc` draws a half.
pub fn ellipse<A: Fn(Point, Point) -> Vec<PathEl>>(right: Point, left: Point, arc: &A) -> (els: Vec<
    PathEl,
>)
    requires
        forall|a: Point, b: Point| call_requires(arc, (a, b)),
    ensures
        exists|out: Vec<PathEl>, back: Vec<PathEl>| #[trigger]
            call_ensures(arc, (right, left), out) && #[trigger] call_ensures(
                arc,
                (left, right),
                back,
            ) && els@ == (seq![PathEl::MoveTo(right)] + out@ + back@).push(PathEl::ClosePath),
{
    let mut els: Vec<PathEl> = Vec::new();
    els.push(PathEl::MoveTo(right));
    let out = arc(right, left);
    let back = arc(left, right);
    extend(&mut els, &out);
    extend(&mut els, &back);
    els.push(PathEl::ClosePath);
    assert(els@ =~= (seq![PathEl::MoveTo(right)] + out@ + back@).push(PathEl::ClosePath));
    els
}

/// A corner radius that is not given is the other one, and none where neither is;
/// it is never negative and at most half the side that it rounds.
pub proof fn a_missing_radius_is_the_other(a: Real, b: Real, half: Real)
    requires
        !half.nan() && (Real { bits: 0 }).at_most(half),
        !a.nan(),
    ensures
        either(Some(a), Some(b)) == a && either(Some(a), None) == a && either(None, Some(b)) == b,
        either(None, None).bits == 0,
        (Real { bits: 0 }).at_most(capped(a, half)) && capped(a, half).at_most(half),
        (Real { bits: 0 }).at_most(a) && a.at_most(half) ==> capped(a, half) == a,
        a.less(Real { bits: 0 }) ==> capped(a, half).bits == 0,
        half.less(a) ==> capped(a, half) == half,
{
}

/// A rounded rectangle goes to where each corner begins and round it in turn.
pub proof fn sides_lead_from_corner_to_corner(
    corners: Seq<(Point, Point)>,
    arcs: Seq<Seq<PathEl>>,
    n: int,
)
    requires
        0 < n <= corners.len(),
        corners.len() == arcs.len(),
    ensures
        sides(corners, arcs, n) == sides(corners, arcs, n - 1) + seq![
            PathEl::LineTo(corners[n - 1].0),
        ] + arcs[n - 1],
        sides(corners, arcs, 0).len() == 0,
{
    assert(sides(corners, arcs, n - 1).push(PathEl::LineTo(corners[n - 1].0)) =~= sides(
        corners,
        arcs,
        n - 1,
    ) + seq![PathEl::LineTo(corners[n - 1].0)]);
}

} // verus!
