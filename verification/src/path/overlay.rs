//! The arrangement of two paths, and the boolean operations on it.
//!
//! Everything that computes with coordinates comes as a function; which of them
//! is asked what, and what follows from the answers, is decided here.

use vstd::prelude::*;
use crate::geom::Point;
use crate::geom::Real;
use crate::geom::Rect;
use crate::path::arrange;
use crate::path::arrange::Sample;
use crate::path::boolean;
use crate::path::boolean::Arrangement;
use crate::path::boolean::BoolOp;
use crate::path::boolean::FillRule;
use crate::path::cutting;
use crate::path::cutting::Meeting;
use crate::path::halfedge;
use crate::path::outline;
use crate::path::outline::closed_segments;
use crate::path::outline::Path;
use crate::path::outline::PathEl;
use crate::path::outline::Segment;
use crate::path::pieces;
use crate::path::pieces::Cutting;
use crate::path::pieces::Joining;
use crate::path::pieces::Piece;
use crate::path::ray;
use crate::path::winding;

verus! {

/// The most segments an input may have: each can add three to a winding number.
pub const SEGMENTS: usize = 0x0aaa_aaaa;

/// The most pieces the segments may fall into: each can add one to a winding
/// number.
pub const PIECES: usize = 0x1fff_ffff;

/// The computations on coordinates that an arrangement is built with, for one
/// snapping distance.
pub struct Tools<
    Tight,
    Grow,
    Boxed,
    Whole,
    Folds,
    Long,
    Part,
    Meet,
    Behind,
    Near,
    Tiny,
    Shape,
    SameArc,
    SameWay,
    Reach,
    Key,
    Spots,
    Clear,
    Cross,
    Sum,
> {
    /// The snapping distance of the two paths. See [`tolerance`].
    pub eps: Real,
    /// The tight box of a segment.
    pub tight: Tight,
    /// A box grown by the snapping distance.
    pub grow: Grow,
    /// The tight box of a segment, grown by the snapping distance.
    pub boxed: Boxed,
    /// Whether a segment has an extent above the snapping distance.
    pub whole: Whole,
    /// The parameters where a segment meets itself.
    pub folds: Folds,
    /// Whether a stretch of a segment has an extent above the snapping distance.
    pub long: Long,
    /// The stretch of a segment between two parameters.
    pub part: Part,
    /// Where two segments meet.
    pub meet: Meet,
    /// Whether a vertex is too far to the left of a point to be one with it.
    pub behind: Behind,
    /// Whether a vertex and a point are one.
    pub near: Near,
    /// Whether a snapped piece has collapsed.
    pub tiny: Tiny,
    /// The numbers that order edges over the same vertices.
    pub shape: Shape,
    /// Whether two edges trace one arc.
    pub same_arc: SameArc,
    /// Whether they trace it the same way.
    pub same_way: SameWay,
    /// How far from its start a segment may be sampled.
    pub reach: Reach,
    /// The direction in which a segment leaves, sampled at a radius.
    pub key: Key,
    /// The points to try inside a face, each with the clearance that it needs.
    pub spots: Spots,
    /// The clearance of a point from every edge, as far as it is above a floor.
    pub clear: Clear,
    /// How often a segment crosses the ray from a point towards `+x`.
    pub cross: Cross,
    /// The sum of two clearances.
    pub sum: Sum,
}

/// How an arrangement was built: the parts of the inputs' segments between the
/// parameters where they meet themselves, how those were cut and joined, the
/// order around the vertices, what was found inside the faces, and what the
/// pieces of the arrangement were offered to elect.
pub struct Build {
    pub parts: Seq<Seq<Segment>>,
    pub cut: Cutting,
    pub joined: Joining,
    pub reaches: Seq<Real>,
    pub keys: Seq<(Real, Real)>,
    pub bare: Arrangement,
    pub samples: Seq<Option<Sample>>,
    pub lists: Seq<Seq<((i32, i32), Real)>>,
}

/// The segments of a path, every subpath closed.
pub open spec fn outline_of(p: Path) -> Seq<Segment> {
    outline::all_closed(p.parts(), p.parts().len() as int)
}

impl<
    Tight: Fn(Segment) -> Rect,
    Grow: Fn(Rect) -> Rect,
    Boxed: Fn(Segment) -> Rect,
    Whole: Fn(Segment) -> bool,
    Folds: Fn(Segment) -> Vec<Real>,
    Long: Fn(Segment, Real, Real) -> bool,
    Part: Fn(Segment, Real, Real) -> Segment,
    Meet: Fn(Segment, Segment) -> Meeting,
    Behind: Fn(Point, Point) -> bool,
    Near: Fn(Point, Point) -> bool,
    Tiny: Fn(Segment) -> bool,
    Shape: Fn(Segment) -> Vec<Real>,
    SameArc: Fn(Segment, Segment) -> bool,
    SameWay: Fn(Segment, Segment) -> bool,
    Reach: Fn(Segment) -> Real,
    Key: Fn(Segment, Real) -> (Real, Real),
    Spots: Fn(&Arrangement, usize) -> Vec<(Point, Real)>,
    Clear: Fn(&Arrangement, Point, Real) -> Real,
    Cross: Fn(Segment, Point) -> i32,
    Sum: Fn(Real, Real) -> Real,
> Tools<
    Tight,
    Grow,
    Boxed,
    Whole,
    Folds,
    Long,
    Part,
    Meet,
    Behind,
    Near,
    Tiny,
    Shape,
    SameArc,
    SameWay,
    Reach,
    Key,
    Spots,
    Clear,
    Cross,
    Sum,
> {
    /// Whether every question may be asked of anything, and the answers are fit
    /// for use: a test answers one way, a direction is a number, and a segment,
    /// which turns at most twice, crosses a ray at most three times.
    pub open spec fn ready(self) -> bool {
        &&& forall|s: Segment| call_requires(self.tight, (s,))
        &&& forall|r: Rect| call_requires(self.grow, (r,))
        &&& forall|s: Segment| call_requires(self.boxed, (s,))
        &&& forall|s: Segment| call_requires(self.whole, (s,))
        &&& forall|s: Segment| call_requires(self.folds, (s,))
        &&& cutting::measures(self.long)
        &&& forall|s: Segment, a: Real, b: Real| call_requires(self.part, (s, a, b))
        &&& forall|a: Segment, b: Segment| call_requires(self.meet, (a, b))
        &&& cutting::decides(self.behind)
        &&& cutting::decides(self.near)
        &&& forall|s: Segment| call_requires(self.tiny, (s,))
        &&& forall|s: Segment| call_requires(self.shape, (s,))
        &&& cutting::compares(self.same_arc)
        &&& cutting::compares(self.same_way)
        &&& forall|s: Segment| call_requires(self.reach, (s,))
        &&& forall|s: Segment, r: Real| call_requires(self.key, (s, r))
        &&& forall|s: Segment, r: Real, k: (Real, Real)| #[trigger]
            call_ensures(self.key, (s, r), k) ==> !k.0.nan() && !k.1.nan()
        &&& forall|a: Arrangement, f: usize| call_requires(self.spots, (&a, f))
        &&& forall|a: Arrangement, p: Point, f: Real| call_requires(self.clear, (&a, p, f))
        &&& forall|s: Segment, p: Point| call_requires(self.cross, (s, p))
        &&& forall|s: Segment, p: Point, c: i32| #[trigger]
            call_ensures(self.cross, (s, p), c) ==> -3 <= c <= 3
        &&& forall|x: Real, y: Real| call_requires(self.sum, (x, y))
    }

    /// Whether `v` are the parts of a segment between the parameters where it
    /// meets itself.
    pub open spec fn splits(self, s: Segment, v: Seq<Segment>) -> bool {
        exists|cuts: Vec<Real>, whole: bool|
            #![trigger call_ensures(self.folds, (s,), cuts), call_ensures(self.whole, (s,), whole)]
            call_ensures(self.folds, (s,), cuts) && call_ensures(self.whole, (s,), whole)
                && self.parts_at(s, cuts@, whole, v)
    }

    /// Whether `v` are the parts of a segment between cuts.
    pub open spec fn parts_at(
        self,
        s: Segment,
        cuts: Seq<Real>,
        whole: bool,
        v: Seq<Segment>,
    ) -> bool {
        if cuts.len() == 0 {
            v == seq![s]
        } else {
            let list = cutting::spans_of(self.long, s, whole, cuts);
            &&& v.len() == list.len()
            &&& forall|k: int|
                0 <= k < list.len() ==> call_ensures(
                    self.part,
                    (s, list[k].0, list[k].1),
                    #[trigger] v[k],
                )
        }
    }

    /// Whether a segment was dropped for want of an extent, or cut where it
    /// meets itself.
    pub open spec fn takes(self, s: Segment, v: Seq<Segment>) -> bool {
        ||| call_ensures(self.whole, (s,), false) && v.len() == 0
        ||| call_ensures(self.whole, (s,), true) && self.splits(s, v)
    }

    /// Whether the segments of two outlines were dropped or cut so.
    pub open spec fn gathers(self, a: Path, b: Path, t: Build) -> bool {
        let segs = pieces::inputs(outline_of(a), outline_of(b));
        &&& t.parts.len() == segs.len()
        &&& forall|i: int| 0 <= i < segs.len() ==> self.takes(segs[i].0, #[trigger] t.parts[i])
    }

    /// The segments that are cut where two of them meet.
    pub open spec fn segments(self, a: Path, b: Path, t: Build) -> Seq<Piece> {
        let segs = pieces::inputs(outline_of(a), outline_of(b));
        pieces::all_parts(segs, t.parts, segs.len() as int)
    }

    /// The pieces they are cut into.
    pub open spec fn pieces(self, a: Path, b: Path, t: Build) -> Seq<Piece> {
        let segs = self.segments(a, b, t);
        pieces::all_parts(segs, t.cut.parts, segs.len() as int)
    }

    /// Whether the segments of two paths were cut so.
    pub open spec fn cuts(self, a: Path, b: Path, t: Build) -> bool {
        let segs = self.segments(a, b, t);
        &&& self.gathers(a, b, t)
        &&& pieces::met(self.boxed, self.meet, segs, t.cut)
        &&& t.cut.whole.len() == segs.len()
        &&& t.cut.parts.len() == segs.len()
        &&& forall|i: int|
            0 <= i < segs.len() ==> #[trigger] pieces::parted(
                self.long,
                self.whole,
                self.part,
                segs,
                t.cut,
                i,
            )
    }

    /// Whether two paths have fewer segments and pieces than can be counted.
    pub open spec fn countable(self, a: Path, b: Path, t: Build) -> bool {
        &&& outline_of(a).len() <= SEGMENTS
        &&& outline_of(b).len() <= SEGMENTS
        &&& self.pieces(a, b, t).len() <= PIECES
    }

    /// Whether `counts` says how often each segment crosses the ray from `p`.
    pub open spec fn counts(
        self,
        segs: Seq<Segment>,
        p: Point,
        boxes: Seq<Rect>,
        counts: Seq<i32>,
    ) -> bool {
        &&& outline::are_boxes(self.tight, segs, boxes)
        &&& counts.len() == segs.len()
        &&& forall|k: int|
            0 <= k < segs.len() ==> if ray::passed_by(boxes[k], p) {
                #[trigger] counts[k] == 0
            } else {
                call_ensures(self.cross, (segs[k], p), counts[k])
            }
    }

    /// Whether the winding number of closed segments about `p` is `w`.
    pub open spec fn winds(self, segs: Seq<Segment>, p: Point, w: i32) -> bool {
        exists|boxes: Seq<Rect>, counts: Seq<i32>| #[trigger]
            self.counts(segs, p, boxes, counts) && w == ray::sum_of(counts, counts.len() as int)
    }

    /// How the clearance of a point from the edges of an arrangement is found.
    pub open spec fn gauge(self, a: Arrangement) -> ray::Gauge {
        |p: Point, floor: Real, clear: Real| call_ensures(self.clear, (&a, p, floor), clear)
    }

    /// Whether `found` is the best of the points that were tried inside a face.
    pub open spec fn finds(
        self,
        a: Arrangement,
        f: usize,
        spots: Vec<(Point, Real)>,
        found: Option<(Real, Point)>,
    ) -> bool {
        &&& call_ensures(self.spots, (&a, f), spots)
        &&& ray::picks(self.gauge(a), spots@, 0, None, found)
    }

    /// Whether `s` is what a face has to say: the winding numbers of both paths
    /// at the best point inside it, where that is clear of every edge by more
    /// than the snapping distance. Nearer to an edge a ray would be cast from
    /// where the paths themselves may run.
    pub open spec fn samples(
        self,
        a: Path,
        b: Path,
        arr: Arrangement,
        f: usize,
        s: Option<Sample>,
    ) -> bool {
        exists|spots: Vec<(Point, Real)>, found: Option<(Real, Point)>| #[trigger]
            self.finds(arr, f, spots, found) && self.says(a, b, found, s)
    }

    /// Whether `s` is what the best point of a face says.
    pub open spec fn says(
        self,
        a: Path,
        b: Path,
        found: Option<(Real, Point)>,
        s: Option<Sample>,
    ) -> bool {
        match found {
            Some((clear, p)) => if self.eps.less(clear) {
                &&& s matches Some((w, by))
                &&& by == clear
                &&& self.winds(outline_of(a), p, w.0)
                &&& self.winds(outline_of(b), p, w.1)
            } else {
                s is None
            },
            None => s is None,
        }
    }

    /// The edges of the arrangement.
    pub open spec fn edges(self, a: Path, b: Path, t: Build) -> Seq<boolean::Edge> {
        let merged = pieces::merged_edges(
            self.same_arc,
            self.same_way,
            self.pieces(a, b, t),
            t.joined,
        );
        pieces::arranged(merged, cutting::edge_order(merged, t.joined.shapes, true))
    }

    /// Whether the pieces of two paths were joined so, and the edges put in
    /// order around the vertices.
    pub open spec fn links(self, a: Path, b: Path, t: Build) -> bool {
        let edges = self.edges(a, b, t);
        &&& pieces::joins(
            self.behind,
            self.near,
            self.tiny,
            self.shape,
            self.same_arc,
            self.same_way,
            self.pieces(a, b, t),
            t.joined,
        )
        &&& t.bare.wf()
        &&& t.bare.points() == t.joined.verts
        &&& t.bare.all_edges() == edges
        &&& t.bare.winds().len() == 0
        &&& arrange::keyed(self.reach, self.key, edges, t.reaches, t.keys)
        &&& halfedge::follows(
            halfedge::graph(boolean::ends_of(edges), t.keys),
            t.bare.follower(),
        )
    }

    /// Whether the faces got their winding numbers from samples of this kind.
    pub open spec fn settles(self, a: Path, b: Path, t: Build, r: Arrangement) -> bool {
        &&& t.samples.len() == t.bare.cycles().len()
        &&& forall|f: usize|
            f < t.samples.len() ==> self.samples(a, b, t.bare, f, #[trigger] t.samples[f as int])
        &&& arrange::all_weighed(self.sum, t.samples, t.bare, t.lists)
        &&& arrange::settled(t.bare, t.lists, r.winds())
        &&& r.points() == t.bare.points()
        &&& r.all_edges() == t.bare.all_edges()
        &&& r.follower() == t.bare.follower()
        &&& r.side() == t.bare.side()
        &&& r.cycles() == t.bare.cycles()
        &&& r.parts() == t.bare.parts()
    }

    /// Whether `r` is the arrangement of two paths, built so.
    pub open spec fn built(self, a: Path, b: Path, t: Build, r: Arrangement) -> bool {
        &&& self.cuts(a, b, t)
        &&& self.countable(a, b, t)
        &&& self.links(a, b, t)
        &&& self.settles(a, b, t, r)
        &&& r.wf()
        &&& r.classified()
    }

    /// Whether `r` is the arrangement of two paths.
    pub open spec fn builds(self, a: Path, b: Path, r: Arrangement) -> bool {
        exists|t: Build| #[trigger] self.built(a, b, t, r)
    }

    /// Whether two paths fall into more segments or pieces than can be counted.
    pub open spec fn overflows(self, a: Path, b: Path) -> bool {
        exists|t: Build| #[trigger] self.cuts(a, b, t) && !self.countable(a, b, t)
    }

    /// Whether `r` is the box around a path.
    pub open spec fn bounds(self, p: Path, r: Rect) -> bool {
        exists|boxes: Seq<Rect>| #[trigger]
            outline::are_boxes(
                self.tight,
                outline::all_segments(p.parts(), p.parts().len() as int),
                boxes,
            ) && r == Rect::across(boxes, boxes.len() as int)
    }

    /// Whether these are the boxes of two paths, plain and grown.
    pub open spec fn frames(self, a: Path, b: Path, boxes: (Rect, Rect), grown: (Rect, Rect)) -> bool {
        &&& self.bounds(a, boxes.0)
        &&& self.bounds(b, boxes.1)
        &&& call_ensures(self.grow, (boxes.0,), grown.0)
        &&& call_ensures(self.grow, (boxes.1,), grown.1)
    }

    /// No face of the arrangement of two paths disagrees with its neighbour,
    /// whatever was found inside the faces: where winding numbers exist at all
    /// that differ across every edge by what the edge contributes, those of the
    /// arrangement do.
    pub proof fn faces_agree_with_their_neighbours(
        self,
        a: Path,
        b: Path,
        r: Arrangement,
        truth: Seq<(int, int)>,
    )
        requires
            self.builds(a, b, r),
            truth.len() == r.cycles().len(),
            winding::agrees(r.side(), boolean::winds_of(r.all_edges()), truth),
        ensures
            winding::agrees(
                r.side(),
                boolean::winds_of(r.all_edges()),
                arrange::pairs(r.winds()),
            ),
    {
        let t = choose|t: Build| #[trigger] self.built(a, b, t, r);
        assert(self.links(a, b, t) && self.settles(a, b, t, r));
        arrange::settling_keeps_neighbours_agreed(t.bare, t.lists, r.winds(), truth);
    }

    /// The parts of a segment between the parameters where it meets itself.
    fn split(&self, s: Segment) -> (v: Vec<Segment>)
        requires
            self.ready(),
        ensures
            self.splits(s, v@),
    {
        let cuts = (self.folds)(s);
        let whole = (self.whole)(s);
        let v = pieces::split_at(s, &cuts, &self.long, whole, &self.part);
        assert(self.parts_at(s, cuts@, whole, v@));
        v
    }

    /// Puts the segments of two outlines in one list, those that meet themselves
    /// cut there.
    fn gather(&self, a: &Path, b: &Path, one: &Vec<Segment>, two: &Vec<Segment>) -> (r: (
        Vec<Piece>,
        Ghost<Seq<Seq<Segment>>>,
    ))
        requires
            self.ready(),
            one@ == outline_of(*a),
            two@ == outline_of(*b),
        ensures
            ({
                let segs = pieces::inputs(outline_of(*a), outline_of(*b));
                &&& r.1@.len() == segs.len()
                &&& forall|i: int| 0 <= i < segs.len() ==> self.takes(segs[i].0, #[trigger] r.1@[i])
                &&& r.0@ == pieces::all_parts(segs, r.1@, segs.len() as int)
            }),
    {
        let split = |s: Segment| -> (v: Vec<Segment>)
            ensures
                self.splits(s, v@),
            { self.split(s) };
        let ghost segs = pieces::inputs(outline_of(*a), outline_of(*b));
        let r = pieces::gather(one, two, &self.whole, &split);
        let ghost parts = choose|parts: Seq<Seq<Segment>>| #[trigger]
            pieces::all_taken(self.whole, split, segs, parts) && r@ == pieces::all_parts(
                segs,
                parts,
                segs.len() as int,
            );
        proof {
            assert forall|i: int| 0 <= i < segs.len() implies self.takes(
                segs[i].0,
                #[trigger] parts[i],
            ) by {
                assert(pieces::taken(self.whole, split, segs, parts, i));
            }
        }
        (r, Ghost(parts))
    }

    /// The winding number of closed segments about a point. `boxes` are their
    /// tight boxes.
    fn winding(&self, segs: &Vec<Segment>, boxes: &Vec<Rect>, p: Point) -> (w: i32)
        requires
            self.ready(),
            outline::are_boxes(self.tight, segs@, boxes@),
            segs@.len() <= SEGMENTS,
        ensures
            self.winds(segs@, p, w),
            -0x1fff_ffff <= w <= 0x1fff_ffff,
    {
        let crossings = |k: usize| -> (c: i32)
            requires
                k < segs@.len(),
            ensures
                call_ensures(self.cross, (segs@[k as int], p), c),
                -3 <= c <= 3,
            {
                (self.cross)(segs[k], p)
            };
        let w = ray::winding(boxes, p, &crossings);
        proof {
            let counts = choose|counts: Seq<i32>|
                counts.len() == boxes@.len() && (forall|k: usize|
                    k < counts.len() ==> ray::winds(
                        crossings,
                        boxes@,
                        p,
                        k,
                        #[trigger] counts[k as int],
                    )) && w == #[trigger] ray::sum_of(counts, counts.len() as int);
            assert forall|k: int| 0 <= k < segs@.len() implies if ray::passed_by(boxes@[k], p) {
                #[trigger] counts[k] == 0
            } else {
                call_ensures(self.cross, (segs@[k], p), counts[k])
            } by {
                assert(ray::winds(crossings, boxes@, p, k as usize, counts[k as usize as int]));
            }
            assert(self.counts(segs@, p, boxes@, counts));
            assert forall|k: int| 0 <= k < counts.len() implies -3 <= #[trigger] counts[k]
                <= 3 by {
                assert(ray::winds(crossings, boxes@, p, k as usize, counts[k as usize as int]));
            }
            lemma_sum_bound(counts, counts.len() as int);
        }
        w
    }

    /// The tight boxes of segments.
    fn boxes(&self, segs: &Vec<Segment>) -> (boxes: Vec<Rect>)
        requires
            self.ready(),
        ensures
            outline::are_boxes(self.tight, segs@, boxes@),
    {
        let mut boxes: Vec<Rect> = Vec::new();
        let mut i: usize = 0;
        while i < segs.len()
            invariant
                i <= segs@.len(),
                self.ready(),
                boxes@.len() == i,
                forall|k: int|
                    0 <= k < i ==> call_ensures(self.tight, (segs@[k],), #[trigger] boxes@[k]),
            decreases segs.len() - i,
        {
            boxes.push((self.tight)(segs[i]));
            i += 1;
        }
        boxes
    }

    /// What the faces have to say.
    fn sample_faces(
        &self,
        a: &Path,
        b: &Path,
        one: &Vec<Segment>,
        two: &Vec<Segment>,
        arr: &Arrangement,
    ) -> (samples: Vec<Option<Sample>>)
        requires
            self.ready(),
            arr.wf(),
            one@ == outline_of(*a),
            two@ == outline_of(*b),
            one@.len() <= SEGMENTS,
            two@.len() <= SEGMENTS,
        ensures
            samples@.len() == arr.cycles().len(),
            forall|f: usize|
                f < samples@.len() ==> self.samples(*a, *b, *arr, f, #[trigger] samples@[f as int]),
            forall|f: int|
                0 <= f < samples@.len() ==> ((#[trigger] samples@[f]) matches Some((w, clear))
                    ==> winding::moderate(w)),
    {
        let first = self.boxes(one);
        let second = self.boxes(two);
        let mut samples: Vec<Option<Sample>> = Vec::new();
        let mut f: usize = 0;
        while f < arr.face_count()
            invariant
                f <= arr.cycles().len(),
                self.ready(),
                one@ == outline_of(*a),
                two@ == outline_of(*b),
                one@.len() <= SEGMENTS,
                two@.len() <= SEGMENTS,
                outline::are_boxes(self.tight, one@, first@),
                outline::are_boxes(self.tight, two@, second@),
                samples@.len() == f,
                forall|k: usize|
                    k < f ==> self.samples(*a, *b, *arr, k, #[trigger] samples@[k as int]),
                forall|k: int|
                    0 <= k < f ==> ((#[trigger] samples@[k]) matches Some((w, clear))
                        ==> winding::moderate(w)),
            decreases arr.cycles().len() - f,
        {
            let spots = (self.spots)(arr, f);
            let clear = |p: Point, floor: Real| -> (c: Real)
                ensures
                    call_ensures(self.clear, (arr, p, floor), c),
                { (self.clear)(arr, p, floor) };
            let found = ray::interior_point(&spots, &clear);
            proof {
                assert forall|p: Point, fl: Real, c: Real| #[trigger]
                    ray::gauge(clear)(p, fl, c) implies self.gauge(*arr)(p, fl, c) by {}
                ray::lemma_picks(ray::gauge(clear), self.gauge(*arr), spots@, 0, None, found);
                assert(self.finds(*arr, f, spots, found));
            }
            let s: Option<Sample> = match found {
                Some((by, p)) => {
                    if self.eps.below(by) {
                        let w0: i32 = self.winding(one, &first, p);
                        let w1: i32 = self.winding(two, &second, p);
                        Some(((w0, w1), by))
                    } else {
                        None
                    }
                },
                None => None,
            };
            assert(self.says(*a, *b, found, s));
            samples.push(s);
            f += 1;
        }
        samples
    }
}

proof fn lemma_sum_bound(counts: Seq<i32>, n: int)
    requires
        0 <= n <= counts.len(),
        forall|k: int| 0 <= k < counts.len() ==> -3 <= #[trigger] counts[k] <= 3,
    ensures
        -3 * n <= ray::sum_of(counts, n) <= 3 * n,
    decreases n,
{
    if n > 0 {
        lemma_sum_bound(counts, n - 1);
        assert(-3 <= counts[n - 1] <= 3);
    }
}

impl Arrangement {
    /// Splits `a` and `b` at every intersection, identifies the faces and gives
    /// them the winding numbers of both.
    ///
    /// Open subpaths are closed first: a fill rule has no meaning otherwise, and
    /// an open subpath is filled as though the closing line were there.
    ///
    /// There is none only where the paths fall into more segments or pieces than
    /// a winding number can count.
    pub fn new<
        Tight: Fn(Segment) -> Rect,
        Grow: Fn(Rect) -> Rect,
        Boxed: Fn(Segment) -> Rect,
        Whole: Fn(Segment) -> bool,
        Folds: Fn(Segment) -> Vec<Real>,
        Long: Fn(Segment, Real, Real) -> bool,
        Part: Fn(Segment, Real, Real) -> Segment,
        Meet: Fn(Segment, Segment) -> Meeting,
        Behind: Fn(Point, Point) -> bool,
        Near: Fn(Point, Point) -> bool,
        Tiny: Fn(Segment) -> bool,
        Shape: Fn(Segment) -> Vec<Real>,
        SameArc: Fn(Segment, Segment) -> bool,
        SameWay: Fn(Segment, Segment) -> bool,
        Reach: Fn(Segment) -> Real,
        Key: Fn(Segment, Real) -> (Real, Real),
        Spots: Fn(&Arrangement, usize) -> Vec<(Point, Real)>,
        Clear: Fn(&Arrangement, Point, Real) -> Real,
        Cross: Fn(Segment, Point) -> i32,
        Sum: Fn(Real, Real) -> Real,
    >(
        a: &Path,
        b: &Path,
        tools: &Tools<
            Tight,
            Grow,
            Boxed,
            Whole,
            Folds,
            Long,
            Part,
            Meet,
            Behind,
            Near,
            Tiny,
            Shape,
            SameArc,
            SameWay,
            Reach,
            Key,
            Spots,
            Clear,
            Cross,
            Sum,
        >,
    ) -> (r: Option<Arrangement>)
        requires
            tools.ready(),
        ensures
            match r {
                Some(x) => tools.builds(*a, *b, x) && x.wf() && x.classified(),
                None => tools.overflows(*a, *b),
            },
    {
        let one = closed_segments(a);
        let two = closed_segments(b);
        let (segs, Ghost(parts)) = tools.gather(a, b, &one, &two);
        let all = pieces::cut_pieces(
            &segs,
            &tools.boxed,
            &tools.meet,
            &tools.long,
            &tools.whole,
            &tools.part,
        );
        let ghost cut = choose|c: Cutting| #[trigger]
            pieces::met(tools.boxed, tools.meet, segs@, c) && c.whole.len() == segs@.len()
                && c.parts.len() == segs@.len() && (forall|i: int|
                0 <= i < segs@.len() ==> #[trigger] pieces::parted(
                    tools.long,
                    tools.whole,
                    tools.part,
                    segs@,
                    c,
                    i,
                )) && all@ == pieces::all_parts(segs@, c.parts, segs@.len() as int);
        let ghost mut t = arbitrary::<Build>();
        proof {
            t = Build { parts, cut, ..t };
            assert(tools.segments(*a, *b, t) == segs@);
            assert(tools.pieces(*a, *b, t) == all@);
            assert(tools.cuts(*a, *b, t));
        }
        if one.len() > SEGMENTS || two.len() > SEGMENTS || all.len() > PIECES {
            return None;
        }
        let (verts, edges) = pieces::join_pieces(
            &all,
            &tools.behind,
            &tools.near,
            &tools.tiny,
            &tools.shape,
            &tools.same_arc,
            &tools.same_way,
        );
        let ghost joined = choose|j: Joining| #[trigger]
            pieces::joins(
                tools.behind,
                tools.near,
                tools.tiny,
                tools.shape,
                tools.same_arc,
                tools.same_way,
                all@,
                j,
            ) && verts@ == j.verts && edges@ == pieces::arranged(
                pieces::merged_edges(tools.same_arc, tools.same_way, all@, j),
                cutting::edge_order(
                    pieces::merged_edges(tools.same_arc, tools.same_way, all@, j),
                    j.shapes,
                    true,
                ),
            );
        let ghost ends = edges@;
        let mut arr = arrange::arrange(verts, edges, &tools.reach, &tools.key);
        let ghost bare = arr;
        let samples = tools.sample_faces(a, b, &one, &two, &arr);
        arr.settle(&samples, &tools.sum);
        proof {
            let (reaches, keys) = choose|reaches: Seq<Real>, keys: Seq<(Real, Real)>| #[trigger]
                arrange::keyed(tools.reach, tools.key, ends, reaches, keys)
                    && halfedge::follows(
                    halfedge::graph(boolean::ends_of(ends), keys),
                    bare.follower(),
                );
            let lists = choose|lists: Seq<Seq<((i32, i32), Real)>>| #[trigger]
                arrange::all_weighed(tools.sum, samples@, bare, lists) && arrange::settled(
                    bare,
                    lists,
                    arr.winds(),
                );
            let u = Build { joined, reaches, keys, bare, samples: samples@, lists, ..t };
            assert(tools.segments(*a, *b, u) == segs@);
            assert(tools.pieces(*a, *b, u) == all@);
            assert(tools.gathers(*a, *b, u));
            assert(tools.cuts(*a, *b, u));
            assert(tools.countable(*a, *b, u));
            assert(tools.edges(*a, *b, u) == ends);
            assert(tools.links(*a, *b, u));
            assert(tools.settles(*a, *b, u, arr));
            assert(tools.built(*a, *b, u, arr));
        }
        Some(arr)
    }
}

/// Whether `eps` is the snapping distance for a pair of paths.
pub open spec fn snaps<B: Fn(Segment) -> Rect, S: Fn(Rect) -> Real>(
    bound: B,
    scale: S,
    a: Path,
    b: Path,
    eps: Real,
) -> bool {
    exists|x: Seq<Rect>, y: Seq<Rect>|
        #![trigger outline::are_boxes(bound, outline::all_segments(a.parts(), a.parts().len() as int), x), outline::are_boxes(bound, outline::all_segments(b.parts(), b.parts().len() as int), y)]
        outline::are_boxes(
            bound,
            outline::all_segments(a.parts(), a.parts().len() as int),
            x,
        ) && outline::are_boxes(
            bound,
            outline::all_segments(b.parts(), b.parts().len() as int),
            y,
        ) && snaps_at(
            scale,
            Rect::across(x, x.len() as int).joined(Rect::across(y, y.len() as int)),
            eps,
        )
}

/// Whether `eps` is the snapping distance for geometry in a box: zero where it
/// encloses nothing.
pub open spec fn snaps_at<S: Fn(Rect) -> Real>(scale: S, whole: Rect, eps: Real) -> bool {
    if whole.encloses_nothing() {
        eps == (Real { bits: 0 })
    } else {
        call_ensures(scale, (whole,), eps)
    }
}

/// The snapping distance for a pair of paths.
///
/// `bound` is the tight box of a segment. `scale` is the distance for geometry
/// in a box: relative to its size, plus a floor proportional to its distance
/// from the origin, since coordinates far out carry larger rounding errors.
pub fn tolerance<B: Fn(Segment) -> Rect, S: Fn(Rect) -> Real>(
    a: &Path,
    b: &Path,
    bound: &B,
    scale: &S,
) -> (eps: Real)
    requires
        forall|s: Segment| call_requires(bound, (s,)),
        forall|r: Rect| call_requires(scale, (r,)),
    ensures
        snaps(*bound, *scale, *a, *b, eps),
{
    let x = a.bounding_box(bound);
    let y = b.bounding_box(bound);
    let whole = x.union(y);
    if whole.is_empty() {
        Real { bits: 0 }
    } else {
        scale(whole)
    }
}

impl Path {
    /// `op` applied to this path and `other`, each filled by its own rule.
    ///
    /// Paths whose boxes are apart even when grown by the snapping distance are
    /// answered without an arrangement, and so are paths that fill nothing. Two
    /// shapes that meet exactly along an edge are not apart.
    ///
    /// There is no answer only where the paths fall into more segments or pieces
    /// than a winding number can count.
    pub fn boolean<
        Tight: Fn(Segment) -> Rect,
        Grow: Fn(Rect) -> Rect,
        Boxed: Fn(Segment) -> Rect,
        Whole: Fn(Segment) -> bool,
        Folds: Fn(Segment) -> Vec<Real>,
        Long: Fn(Segment, Real, Real) -> bool,
        Part: Fn(Segment, Real, Real) -> Segment,
        Meet: Fn(Segment, Segment) -> Meeting,
        Behind: Fn(Point, Point) -> bool,
        Near: Fn(Point, Point) -> bool,
        Tiny: Fn(Segment) -> bool,
        Shape: Fn(Segment) -> Vec<Real>,
        SameArc: Fn(Segment, Segment) -> bool,
        SameWay: Fn(Segment, Segment) -> bool,
        Reach: Fn(Segment) -> Real,
        Key: Fn(Segment, Real) -> (Real, Real),
        Spots: Fn(&Arrangement, usize) -> Vec<(Point, Real)>,
        Clear: Fn(&Arrangement, Point, Real) -> Real,
        Cross: Fn(Segment, Point) -> i32,
        Sum: Fn(Real, Real) -> Real,
    >(
        &self,
        other: &Path,
        op: BoolOp,
        rules: [FillRule; 2],
        tools: &Tools<
            Tight,
            Grow,
            Boxed,
            Whole,
            Folds,
            Long,
            Part,
            Meet,
            Behind,
            Near,
            Tiny,
            Shape,
            SameArc,
            SameWay,
            Reach,
            Key,
            Spots,
            Clear,
            Cross,
            Sum,
        >,
    ) -> (r: Option<Vec<Path>>)
        requires
            tools.ready(),
        ensures
            exists|boxes: (Rect, Rect), grown: (Rect, Rect)| #[trigger]
                tools.frames(*self, *other, boxes, grown) && if boolean::cannot_meet(boxes, grown) {
                    r matches Some(v) && boolean::paths_view(v@) == boolean::apart(
                        self@,
                        other@,
                        op,
                        boxes,
                    )
                } else {
                    match r {
                        Some(v) => exists|x: Arrangement, all: Seq<Seq<PathEl>>|
                            #![trigger tools.builds(*self, *other, x), boolean::nonempty(all)]
                            tools.builds(*self, *other, x) && x.results(
                                op,
                                (rules@[0], rules@[1]),
                                all,
                            ) && boolean::paths_view(v@) == boolean::nonempty(all),
                        None => tools.overflows(*self, *other),
                    }
                },
    {
        let ba = self.bounding_box(&tools.tight);
        let bb = other.bounding_box(&tools.tight);
        let ga = (tools.grow)(ba);
        let gb = (tools.grow)(bb);
        assert(tools.frames(*self, *other, (ba, bb), (ga, gb)));
        if ba.is_empty() || bb.is_empty() || !ga.overlaps(gb) {
            return Some(self.boolean_apart(other, op, (ba, bb)));
        }
        match Arrangement::new(self, other, tools) {
            Some(x) => Some(x.apply(op, rules)),
            None => None,
        }
    }
}

} // verus!
