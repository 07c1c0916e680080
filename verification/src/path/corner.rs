//! What a stroke draws at a corner, at an end and for a subpath of no length.
//!
//! Where the points lie is geometry; which of them are drawn is decided here.

use vstd::prelude::*;
use crate::geom::Point;
use crate::geom::Real;
use crate::path::outline::PathEl;
use crate::path::outline::Segment;
use crate::path::stroke::Cap;
use crate::path::stroke::Join;

verus! {

/// Zero.
pub open spec fn zero() -> Real {
    Real { bits: 0 }
}

/// The corner between the offsets of two segments.
#[derive(Clone, Copy, Debug, PartialEq, Eq, Structural)]
pub struct Corner {
    /// The corner of the path itself.
    pub at: Point,
    /// The direction in which the path arrives.
    pub t0: Point,
    /// The direction in which it leaves.
    pub t1: Point,
    /// How far apart the two offsets are.
    pub gap: Real,
    /// Negative where the offset is on the outside of the turn.
    pub side: Real,
    /// The miter length over the width of the stroke.
    pub ratio: Real,
    /// Where the two offset lines meet.
    pub miter: Point,
    /// How far that is from the corner.
    pub spread: Real,
    /// How far along both segments the corner may be trimmed.
    pub reach: Real,
    /// Where the offset of the next segment starts.
    pub to: Point,
}

impl Corner {
    /// Whether it is no corner: the directions agree, or the gap is below the
    /// tolerance. The direction of such a gap is rounding noise.
    pub open spec fn smooth(self, tol: Real) -> bool {
        self.t0.equals(self.t1) || self.gap.at_most(tol)
    }

    /// Whether the offset is on the outside of the turn, where the two offsets
    /// leave a gap to fill.
    pub open spec fn outer(self) -> bool {
        self.side.less(zero())
    }

    /// Whether the inside of the turn can be trimmed at the miter point.
    pub open spec fn trims(self) -> bool {
        self.miter.finite() && self.spread.at_most(self.reach)
    }
}

/// The elements that draw segments one after another.
pub open spec fn drawn(segs: Seq<Segment>) -> Seq<PathEl> {
    Seq::new(segs.len(), |i: int| segs[i].drawn())
}

/// What is drawn at a corner. `round` is the arc about it from the end of the
/// one offset to the start of the other.
pub open spec fn joined(
    corner: Corner,
    join: Join,
    limit: Real,
    tol: Real,
    round: Seq<Segment>,
) -> Seq<PathEl> {
    if corner.smooth(tol) {
        Seq::empty()
    } else if corner.outer() {
        (match join {
            Join::Miter => if corner.ratio.at_most(limit) {
                seq![PathEl::LineTo(corner.miter)]
            } else {
                Seq::empty()
            },
            Join::Round => drawn(round),
            Join::Bevel => Seq::empty(),
        }).push(PathEl::LineTo(corner.to))
    } else {
        seq![
            PathEl::LineTo(
                if corner.trims() {
                    corner.miter
                } else {
                    corner.at
                },
            ),
            PathEl::LineTo(corner.to),
        ]
    }
}

/// Appends the elements that draw segments one after another.
fn push_segments(els: &mut Vec<PathEl>, segs: &Vec<Segment>)
    ensures
        final(els)@ == old(els)@ + drawn(segs@),
{
    let mut i: usize = 0;
    assert(els@ =~= old(els)@ + drawn(segs@).take(0));
    while i < segs.len()
        invariant
            i <= segs@.len(),
            els@ == old(els)@ + drawn(segs@).take(i as int),
        decreases segs.len() - i,
    {
        els.push(segs[i].element());
        i += 1;
        assert(els@ =~= old(els)@ + drawn(segs@).take(i as int));
    }
    assert(drawn(segs@).take(i as int) =~= drawn(segs@));
}

/// The corner between the offsets of two segments. It ends where the offset of
/// the next one starts, so the outline continues from there.
///
/// On the outside of the turn a gap is filled as `kind` says; a miter past the
/// limit is a bevel, one exactly at the limit is not. On the inside the two
/// offsets overlap, and the corner is trimmed where they meet, or at the corner
/// of the path where that is out of reach.
pub fn join(corner: Corner, kind: Join, limit: Real, tol: Real, round: &Vec<Segment>) -> (els: Vec<
    PathEl,
>)
    ensures
        els@ == joined(corner, kind, limit, tol, round@),
{
    let mut els: Vec<PathEl> = Vec::new();
    if corner.t0.equal(corner.t1) || corner.gap.not_above(tol) {
        return els;
    }
    if corner.side.below(Real { bits: 0 }) {
        match kind {
            Join::Miter => {
                if corner.ratio.not_above(limit) {
                    els.push(PathEl::LineTo(corner.miter));
                }
            },
            Join::Round => {
                push_segments(&mut els, round);
            },
            Join::Bevel => {},
        }
    } else {
        let trimmed = if corner.miter.is_finite() && corner.spread.not_above(corner.reach) {
            corner.miter
        } else {
            corner.at
        };
        els.push(PathEl::LineTo(trimmed));
    }
    els.push(PathEl::LineTo(corner.to));
    assert(els@ =~= joined(corner, kind, limit, tol, round@));
    els
}

/// A corner that is drawn at all ends where the offset of the next segment
/// starts.
pub proof fn a_join_ends_at_the_next_offset(
    corner: Corner,
    join: Join,
    limit: Real,
    tol: Real,
    round: Seq<Segment>,
)
    requires
        !corner.smooth(tol),
    ensures
        joined(corner, join, limit, tol, round).len() > 0,
        joined(corner, join, limit, tol, round).last() == PathEl::LineTo(corner.to),
{
}

/// What ends an open stroke: the far side of the end, with or without the two
/// points half a width past it, or an arc.
pub open spec fn capped(
    cap: Cap,
    ahead: Point,
    ahead_far: Point,
    far: Point,
    round: Seq<Segment>,
) -> Seq<PathEl> {
    match cap {
        Cap::Butt => seq![PathEl::LineTo(far)],
        Cap::Square => seq![
            PathEl::LineTo(ahead),
            PathEl::LineTo(ahead_far),
            PathEl::LineTo(far),
        ],
        Cap::Round => drawn(round),
    }
}

/// The end of an open stroke. `far` is the other side of the end, `ahead` and
/// `ahead_far` lie half a width past this side and that, and `round` is the
/// half circle between the two sides.
pub fn cap(kind: Cap, ahead: Point, ahead_far: Point, far: Point, round: &Vec<Segment>) -> (els: Vec<
    PathEl,
>)
    ensures
        els@ == capped(kind, ahead, ahead_far, far, round@),
{
    let mut els: Vec<PathEl> = Vec::new();
    match kind {
        Cap::Butt => {
            els.push(PathEl::LineTo(far));
        },
        Cap::Square => {
            els.push(PathEl::LineTo(ahead));
            els.push(PathEl::LineTo(ahead_far));
            els.push(PathEl::LineTo(far));
        },
        Cap::Round => {
            push_segments(&mut els, round);
        },
    }
    assert(els@ =~= capped(kind, ahead, ahead_far, far, round@));
    els
}

/// What a subpath of no length draws: a closed square, a closed circle or
/// nothing.
pub open spec fn dotted(cap: Cap, square: [Point; 4], round: Seq<Segment>) -> Seq<PathEl> {
    match cap {
        Cap::Butt => Seq::empty(),
        Cap::Square => seq![
            PathEl::MoveTo(square@[0]),
            PathEl::LineTo(square@[1]),
            PathEl::LineTo(square@[2]),
            PathEl::LineTo(square@[3]),
            PathEl::ClosePath,
        ],
        Cap::Round => if round.len() == 0 {
            Seq::empty()
        } else {
            seq![PathEl::MoveTo(round[0].first())] + drawn(round) + seq![PathEl::ClosePath]
        },
    }
}

/// A subpath with no length: a dot under a round cap, a square under a square
/// one, and nothing at all under a butt cap, which has no extent to draw.
///
/// `square` has the four corners about the point and `round` the whole circle;
/// a circle too small to have any segments is not drawn.
pub fn dot(cap: Cap, square: [Point; 4], round: &Vec<Segment>) -> (els: Vec<PathEl>)
    ensures
        els@ == dotted(cap, square, round@),
{
    let mut els: Vec<PathEl> = Vec::new();
    match cap {
        Cap::Butt => {},
        Cap::Square => {
            els.push(PathEl::MoveTo(square[0]));
            els.push(PathEl::LineTo(square[1]));
            els.push(PathEl::LineTo(square[2]));
            els.push(PathEl::LineTo(square[3]));
            els.push(PathEl::ClosePath);
        },
        Cap::Round => {
            if round.len() > 0 {
                els.push(PathEl::MoveTo(round[0].start()));
                push_segments(&mut els, round);
                els.push(PathEl::ClosePath);
            }
        },
    }
    assert(els@ =~= dotted(cap, square, round@));
    els
}

/// A miter join has its tip exactly where the ratio is within the limit, and is a
/// bevel otherwise; a bevel never has one, and nothing but a round join takes the
/// arc.
pub proof fn a_miter_beyond_its_limit_is_a_bevel(
    corner: Corner,
    limit: Real,
    tol: Real,
    round: Seq<Segment>,
)
    requires
        corner.side.less(Real { bits: 0 }),
        !corner.t0.equals(corner.t1),
        !corner.gap.at_most(tol),
    ensures
        joined(corner, Join::Bevel, limit, tol, round) == seq![PathEl::LineTo(corner.to)],
        corner.ratio.less(limit) || corner.ratio.equals(limit) ==> joined(
            corner,
            Join::Miter,
            limit,
            tol,
            round,
        ) == seq![PathEl::LineTo(corner.miter), PathEl::LineTo(corner.to)],
        !corner.ratio.less(limit) && !corner.ratio.equals(limit) ==> joined(
            corner,
            Join::Miter,
            limit,
            tol,
            round,
        ) == joined(corner, Join::Bevel, limit, tol, round),
        joined(corner, Join::Round, limit, tol, round).len() == round.len() + 1,
        forall|k: int|
            0 <= k < round.len() ==> joined(corner, Join::Round, limit, tol, round)[k]
                == (#[trigger] round[k]).drawn(),
{
}

/// Raising the limit never takes a tip away, and it concerns miter joins alone.
pub proof fn a_higher_limit_keeps_every_tip(
    corner: Corner,
    join: Join,
    limit: Real,
    higher: Real,
    tol: Real,
    round: Seq<Segment>,
)
    requires
        limit.at_most(higher),
    ensures
        join != Join::Miter ==> joined(corner, join, limit, tol, round) == joined(
            corner,
            join,
            higher,
            tol,
            round,
        ),
        joined(corner, join, limit, tol, round).contains(PathEl::LineTo(corner.miter)) ==> joined(
            corner,
            join,
            higher,
            tol,
            round,
        ).contains(PathEl::LineTo(corner.miter)),
{
    let a = joined(corner, join, limit, tol, round);
    let b = joined(corner, join, higher, tol, round);
    if a.contains(PathEl::LineTo(corner.miter)) && join == Join::Miter && a != b {
        assert(b[0] == PathEl::LineTo(corner.miter));
    }
}

/// A corner needs a join only where the direction turns and the offsets part by
/// more than the tolerance.
pub proof fn a_smooth_corner_draws_nothing(
    corner: Corner,
    join: Join,
    limit: Real,
    tol: Real,
    round: Seq<Segment>,
)
    ensures
        joined(corner, join, limit, tol, round).len() == 0 <==> corner.t0.equals(corner.t1)
            || corner.gap.at_most(tol),
{
}

/// On the inner side of a turn every join is the same: through the point where
/// the offsets meet where that is within reach, else through the corner itself,
/// and on to the next offset.
pub proof fn the_inner_side_ignores_the_join(
    corner: Corner,
    join: Join,
    limit: Real,
    tol: Real,
    round: Seq<Segment>,
)
    requires
        !corner.t0.equals(corner.t1),
        !corner.gap.at_most(tol),
        !corner.side.less(Real { bits: 0 }),
    ensures
        ({
            let meets = corner.miter.x.finite() && corner.miter.y.finite() && corner.spread.at_most(
                corner.reach,
            );
            let els = joined(corner, join, limit, tol, round);
            &&& meets ==> els == seq![PathEl::LineTo(corner.miter), PathEl::LineTo(corner.to)]
            &&& !meets ==> els == seq![PathEl::LineTo(corner.at), PathEl::LineTo(corner.to)]
        }),
{
}

/// A butt cap goes straight across, a square one round the corners of the square
/// ahead of the end, and each ends on the far side; a round one is its arc.
pub proof fn a_cap_reaches_the_far_side(
    ahead: Point,
    ahead_far: Point,
    far: Point,
    round: Seq<Segment>,
    k: int,
)
    ensures
        capped(Cap::Butt, ahead, ahead_far, far, round) == seq![PathEl::LineTo(far)],
        capped(Cap::Square, ahead, ahead_far, far, round) == seq![
            PathEl::LineTo(ahead),
            PathEl::LineTo(ahead_far),
            PathEl::LineTo(far),
        ],
        capped(Cap::Round, ahead, ahead_far, far, round).len() == round.len(),
        0 <= k < round.len() ==> capped(Cap::Round, ahead, ahead_far, far, round)[k]
            == round[k].drawn(),
{
}

/// A line of no length is drawn by its caps: nothing with butt caps, else one
/// closed contour, the square or the circle.
pub proof fn a_dot_is_one_closed_contour(cap: Cap, square: [Point; 4], round: Seq<Segment>, k: int)
    requires
        round.len() > 0,
    ensures
        cap == Cap::Butt ==> dotted(cap, square, round).len() == 0,
        cap != Cap::Butt ==> dotted(cap, square, round)[0] is MoveTo && dotted(
            cap,
            square,
            round,
        ).last() == PathEl::ClosePath,
        cap == Cap::Square ==> dotted(cap, square, round).len() == 5,
        cap == Cap::Square && 0 <= k < 4 ==> dotted(cap, square, round)[k].end() == Some(
            square@[k],
        ),
        cap == Cap::Round ==> dotted(cap, square, round).len() == round.len() + 2,
        cap == Cap::Round ==> dotted(cap, square, round)[0] == PathEl::MoveTo(round[0].first()),
        cap == Cap::Round && 0 <= k < round.len() ==> dotted(cap, square, round)[k + 1]
            == round[k].drawn(),
{
}

} // verus!
