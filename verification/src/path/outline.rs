//! `Path`: a sequence of elements plus the structure everything above it needs:
//! subpaths, and segments that carry their own start point.
//!
//! # Why segments and not elements
//!
//! An element stores only the points it introduces: a `LineTo` knows where it
//! ends but not where it begins. Every consumer needs the start point, so each
//! would otherwise carry the same current-point state machine, and each would
//! get the `ClosePath` case subtly wrong. [`Segment`] is that state machine's
//! output.

use vstd::prelude::*;
use crate::geom::Point;
use crate::geom::Real;
use crate::geom::Rect;

verus! {

/// One element of a path.
#[derive(Clone, Copy, Debug, PartialEq, Eq, Structural)]
pub enum PathEl {
    /// Start a subpath.
    MoveTo(Point),
    /// A straight line to a point.
    LineTo(Point),
    /// A quadratic Bezier: control point, end point.
    QuadTo(Point, Point),
    /// A cubic Bezier: two control points, end point.
    CurveTo(Point, Point, Point),
    /// A line back to the start of the subpath.
    ClosePath,
}

/// A quadratic Bezier curve.
#[derive(Clone, Copy, Debug, PartialEq, Eq, Structural)]
pub struct QuadBez {
    pub p0: Point,
    pub p1: Point,
    pub p2: Point,
}

/// A cubic Bezier curve.
#[derive(Clone, Copy, Debug, PartialEq, Eq, Structural)]
pub struct CubicBez {
    pub p0: Point,
    pub p1: Point,
    pub p2: Point,
    pub p3: Point,
}

/// One drawable piece of a path, with its start point built in.
#[derive(Clone, Copy, Debug, PartialEq, Eq, Structural)]
pub enum Segment {
    /// Straight line from the first point to the second.
    Line(Point, Point),
    /// Quadratic Bezier.
    Quad(QuadBez),
    /// Cubic Bezier.
    Cubic(CubicBez),
}

/// The origin.
pub open spec fn origin() -> Point {
    Point { x: Real { bits: 0 }, y: Real { bits: 0 } }
}

impl PathEl {
    /// The point the pen is at after the element, unless it closes a subpath.
    pub open spec fn end(self) -> Option<Point> {
        match self {
            PathEl::MoveTo(p) => Some(p),
            PathEl::LineTo(p) => Some(p),
            PathEl::QuadTo(_, p) => Some(p),
            PathEl::CurveTo(_, _, p) => Some(p),
            PathEl::ClosePath => None,
        }
    }

    /// The point the pen is at after the element, unless it closes a subpath.
    pub fn end_point(self) -> (p: Option<Point>)
        ensures
            p == self.end(),
    {
        match self {
            PathEl::MoveTo(p) => Some(p),
            PathEl::LineTo(p) => Some(p),
            PathEl::QuadTo(_, p) => Some(p),
            PathEl::CurveTo(_, _, p) => Some(p),
            PathEl::ClosePath => None,
        }
    }
}

impl Segment {
    pub open spec fn first(self) -> Point {
        match self {
            Segment::Line(p0, _) => p0,
            Segment::Quad(q) => q.p0,
            Segment::Cubic(c) => c.p0,
        }
    }

    pub open spec fn last(self) -> Point {
        match self {
            Segment::Line(_, p1) => p1,
            Segment::Quad(q) => q.p2,
            Segment::Cubic(c) => c.p3,
        }
    }

    /// The point the segment starts at.
    pub fn start(self) -> (p: Point)
        ensures
            p == self.first(),
    {
        match self {
            Segment::Line(p0, _) => p0,
            Segment::Quad(q) => q.p0,
            Segment::Cubic(c) => c.p0,
        }
    }

    /// The point the segment ends at.
    pub fn end(self) -> (p: Point)
        ensures
            p == self.last(),
    {
        match self {
            Segment::Line(_, p1) => p1,
            Segment::Quad(q) => q.p2,
            Segment::Cubic(c) => c.p3,
        }
    }

    pub open spec fn backwards(self) -> Segment {
        match self {
            Segment::Line(a, b) => Segment::Line(b, a),
            Segment::Quad(q) => Segment::Quad(QuadBez { p0: q.p2, p1: q.p1, p2: q.p0 }),
            Segment::Cubic(c) => Segment::Cubic(
                CubicBez { p0: c.p3, p1: c.p2, p2: c.p1, p3: c.p0 },
            ),
        }
    }

    /// The same geometry traversed backwards.
    pub fn reverse(self) -> (s: Segment)
        ensures
            s == self.backwards(),
    {
        match self {
            Segment::Line(a, b) => Segment::Line(b, a),
            Segment::Quad(q) => Segment::Quad(QuadBez { p0: q.p2, p1: q.p1, p2: q.p0 }),
            Segment::Cubic(c) => Segment::Cubic(
                CubicBez { p0: c.p3, p1: c.p2, p2: c.p1, p3: c.p0 },
            ),
        }
    }

    pub open spec fn drawn(self) -> PathEl {
        match self {
            Segment::Line(_, b) => PathEl::LineTo(b),
            Segment::Quad(q) => PathEl::QuadTo(q.p1, q.p2),
            Segment::Cubic(c) => PathEl::CurveTo(c.p1, c.p2, c.p3),
        }
    }

    /// The element that draws the segment from its own start point.
    pub fn element(self) -> (el: PathEl)
        ensures
            el == self.drawn(),
    {
        match self {
            Segment::Line(_, b) => PathEl::LineTo(b),
            Segment::Quad(q) => PathEl::QuadTo(q.p1, q.p2),
            Segment::Cubic(c) => PathEl::CurveTo(c.p1, c.p2, c.p3),
        }
    }

    pub open spec fn moved(self, p0: Point, p1: Point) -> Segment {
        if self.first().equals(p0) && self.last().equals(p1) {
            self
        } else {
            match self {
                Segment::Line(..) => Segment::Line(p0, p1),
                Segment::Quad(q) => Segment::Quad(QuadBez { p0, p1: q.p1, p2: p1 }),
                Segment::Cubic(c) => Segment::Cubic(CubicBez { p0, p1: c.p1, p2: c.p2, p3: p1 }),
            }
        }
    }

    /// The segment with its ends moved onto the given points, controls left
    /// alone. One whose ends are there already comes back bit-identical.
    pub fn with_ends(self, p0: Point, p1: Point) -> (s: Segment)
        ensures
            s == self.moved(p0, p1),
    {
        if self.start().equal(p0) && self.end().equal(p1) {
            return self;
        }
        match self {
            Segment::Line(..) => Segment::Line(p0, p1),
            Segment::Quad(q) => Segment::Quad(QuadBez { p0, p1: q.p1, p2: p1 }),
            Segment::Cubic(c) => Segment::Cubic(CubicBez { p0, p1: c.p1, p2: c.p2, p3: p1 }),
        }
    }
}

/// Going back twice is not going back, and the ends change places.
pub proof fn reversing_twice_changes_nothing(s: Segment)
    ensures
        s.backwards().backwards() == s,
        s.backwards().first() == s.last(),
        s.backwards().last() == s.first(),
{
}

/// A segment moved onto two points starts and ends there.
pub proof fn moved_ends_are_met(s: Segment, p0: Point, p1: Point)
    requires
        !p0.x.nan() && !p0.y.nan() && !p1.x.nan() && !p1.y.nan(),
    ensures
        s.moved(p0, p1).first().equals(p0),
        s.moved(p0, p1).last().equals(p1),
{
}

/// One subpath: a start point and the elements drawn from it.
pub struct SubpathModel {
    pub start: Point,
    pub els: Seq<PathEl>,
}

/// The end of the subpath whose elements start at `i`: the next `MoveTo`, the
/// position after the next `ClosePath`, or the end of the path.
pub open spec fn subpath_end(els: Seq<PathEl>, i: int) -> int
    decreases els.len() - i,
{
    if i >= els.len() || els[i] is MoveTo {
        i
    } else if els[i] is ClosePath {
        i + 1
    } else {
        subpath_end(els, i + 1)
    }
}

pub proof fn lemma_subpath_end(els: Seq<PathEl>, i: int)
    requires
        i <= els.len(),
    ensures
        i <= subpath_end(els, i) <= els.len(),
        i < els.len() && !(els[i] is MoveTo) ==> i < subpath_end(els, i),
        forall|k: int| i <= k < subpath_end(els, i) ==> !(els[k] is MoveTo),
        forall|k: int| i <= k < subpath_end(els, i) - 1 ==> !(els[k] is ClosePath),
    decreases els.len() - i,
{
    if i < els.len() && !(els[i] is MoveTo) && !(els[i] is ClosePath) {
        lemma_subpath_end(els, i + 1);
    }
}

/// Where the pen is after a subpath: where it started if it was closed or
/// never moved, else at the end of its last element.
pub open spec fn pen_after(sub: SubpathModel) -> Point {
    if sub.els.len() == 0 {
        sub.start
    } else {
        match sub.els.last().end() {
            Some(p) => p,
            None => sub.start,
        }
    }
}

/// The subpath that starts at element `i` with the pen at `pen`.
pub open spec fn subpath_at(els: Seq<PathEl>, i: int, pen: Point) -> SubpathModel {
    match els[i] {
        PathEl::MoveTo(p) => SubpathModel {
            start: p,
            els: els.subrange(i + 1, subpath_end(els, i + 1)),
        },
        _ => SubpathModel { start: pen, els: els.subrange(i, subpath_end(els, i)) },
    }
}

/// The subpaths from element `i` on, with the pen at `pen`.
pub open spec fn subpaths_from(els: Seq<PathEl>, i: int, pen: Point) -> Seq<SubpathModel>
    decreases els.len() - i,
{
    if i < 0 || i >= els.len() {
        Seq::empty()
    } else {
        let body = if els[i] is MoveTo {
            i + 1
        } else {
            i
        };
        let sub = subpath_at(els, i, pen);
        proof {
            lemma_subpath_end(els, body);
        }
        seq![sub] + subpaths_from(els, subpath_end(els, body), pen_after(sub))
    }
}

/// The segments the elements `i..` of a subpath draw, with the pen at `pen`.
pub open spec fn segments_from(sub: SubpathModel, i: int, pen: Point) -> Seq<Segment>
    decreases sub.els.len() - i,
{
    if i >= sub.els.len() {
        Seq::empty()
    } else {
        match sub.els[i] {
            PathEl::MoveTo(p) => segments_from(sub, i + 1, p),
            PathEl::LineTo(p) => seq![Segment::Line(pen, p)] + segments_from(sub, i + 1, p),
            PathEl::QuadTo(c, p) => seq![Segment::Quad(QuadBez { p0: pen, p1: c, p2: p })]
                + segments_from(sub, i + 1, p),
            PathEl::CurveTo(c0, c1, p) => seq![
                Segment::Cubic(CubicBez { p0: pen, p1: c0, p2: c1, p3: p }),
            ] + segments_from(sub, i + 1, p),
            PathEl::ClosePath => if pen.equals(sub.start) {
                segments_from(sub, i + 1, sub.start)
            } else {
                seq![Segment::Line(pen, sub.start)] + segments_from(sub, i + 1, sub.start)
            },
        }
    }
}

/// The segments of a subpath.
pub open spec fn segments_of(sub: SubpathModel) -> Seq<Segment> {
    segments_from(sub, 0, sub.start)
}

/// The segments of the first `n` subpaths, in order.
pub open spec fn all_segments(subs: Seq<SubpathModel>, n: int) -> Seq<Segment>
    decreases n,
{
    if n <= 0 {
        Seq::empty()
    } else {
        all_segments(subs, n - 1) + segments_of(subs[n - 1])
    }
}

/// A path: an ordered sequence of [`PathEl`], made of zero or more subpaths.
///
/// Elements are stored exactly as given. A path may start without a `MoveTo`,
/// may close twice, may contain lone `MoveTo`s; what those mean is defined by
/// [`Path::subpaths`] rather than rejected.
#[derive(Debug, PartialEq, Eq)]
pub struct Path {
    pub els: Vec<PathEl>,
}

impl View for Path {
    type V = Seq<PathEl>;

    open spec fn view(&self) -> Seq<PathEl> {
        self.els@
    }
}

/// One subpath: a start point and the elements drawn from it. A view into the
/// [`Path`], not a copy.
#[derive(Debug)]
pub struct Subpath<'a> {
    start: Point,
    els: &'a [PathEl],
}

impl<'a> View for Subpath<'a> {
    type V = SubpathModel;

    closed spec fn view(&self) -> SubpathModel {
        SubpathModel { start: self.start, els: self.els@ }
    }
}

/// Subpaths as models, in order.
pub open spec fn subpaths_view<'a>(subs: Seq<Subpath<'a>>) -> Seq<SubpathModel> {
    Seq::new(subs.len(), |i: int| subs[i]@)
}

impl Path {
    /// The subpaths of the path.
    pub open spec fn parts(self) -> Seq<SubpathModel> {
        subpaths_from(self@, 0, origin())
    }

    /// An empty path.
    pub fn new() -> (path: Path)
        ensures
            path@ == Seq::<PathEl>::empty(),
    {
        Path { els: Vec::new() }
    }

    /// Appends one element.
    pub fn push(&mut self, el: PathEl)
        ensures
            final(self)@ == old(self)@.push(el),
    {
        self.els.push(el);
    }

    /// The elements, in order.
    pub fn elements(&self) -> (els: &[PathEl])
        ensures
            els@ == self@,
    {
        self.els.as_slice()
    }

    /// The subpaths, in order.
    ///
    /// A subpath starts at a `MoveTo` and runs to just before the next one, or
    /// through a `ClosePath` if one comes first. A lone `MoveTo` yields a
    /// subpath with no elements. Elements following a `ClosePath` begin a new
    /// subpath at the closed subpath's start point; elements before any
    /// `MoveTo` are drawn from the origin.
    pub fn subpaths(&self) -> (subs: Vec<Subpath<'_>>)
        ensures
            subpaths_view(subs@) == self.parts(),
    {
        let els = self.els.as_slice();
        let n: usize = els.len();
        let mut subs: Vec<Subpath<'_>> = Vec::new();
        let mut pen = Point { x: Real { bits: 0 }, y: Real { bits: 0 } };
        let mut i: usize = 0;
        assert(subpaths_view(subs@) + self.parts() =~= self.parts());
        while i < n
            invariant
                i <= n == els@.len(),
                els@ == self@,
                self.parts() == subpaths_view(subs@) + subpaths_from(els@, i as int, pen),
            decreases n - i,
        {
            let ghost before = subpaths_view(subs@);
            let ghost at = i as int;
            let ghost was = pen;
            let (start, body): (Point, usize) = match els[i] {
                PathEl::MoveTo(p) => (p, i + 1),
                _ => (pen, i),
            };
            let end: usize = end_of_subpath(els, body);
            proof {
                lemma_subpath_end(els@, body as int);
            }
            let part = vstd::slice::slice_subrange(els, body, end);
            pen = if end > body {
                match els[end - 1].end_point() {
                    Some(p) => p,
                    None => start,
                }
            } else {
                start
            };
            let sub = Subpath { start, els: part };
            assert(sub@ == subpath_at(els@, at, was));
            subs.push(sub);
            i = end;
            proof {
                let rest = subpaths_from(els@, i as int, pen);
                assert(subpaths_view(subs@) =~= before.push(sub@));
                assert(before + (seq![sub@] + rest) =~= before.push(sub@) + rest);
            }
        }
        assert(subpaths_view(subs@) + Seq::<SubpathModel>::empty() =~= subpaths_view(subs@));
        subs
    }

    /// Every segment of every subpath, in order, each carrying its start point.
    pub fn segments(&self) -> (segs: Vec<Segment>)
        ensures
            segs@ == all_segments(self.parts(), self.parts().len() as int),
    {
        let subs = self.subpaths();
        let mut segs: Vec<Segment> = Vec::new();
        let mut i: usize = 0;
        while i < subs.len()
            invariant
                i <= subs@.len(),
                subpaths_view(subs@) == self.parts(),
                segs@ == all_segments(self.parts(), i as int),
            decreases subs@.len() - i,
        {
            let mut more = subs[i].segments();
            assert(subs@[i as int]@ == self.parts()[i as int]);
            segs.append(&mut more);
            i += 1;
        }
        segs
    }
}

fn end_of_subpath(els: &[PathEl], from: usize) -> (end: usize)
    requires
        from <= els@.len(),
    ensures
        end == subpath_end(els@, from as int),
{
    let mut end: usize = from;
    while end < els.len()
        invariant
            from <= end <= els@.len(),
            subpath_end(els@, from as int) == subpath_end(els@, end as int),
        decreases els@.len() - end,
    {
        match els[end] {
            PathEl::MoveTo(_) => {
                return end;
            },
            PathEl::ClosePath => {
                return end + 1;
            },
            _ => {
                end += 1;
            },
        }
    }
    end
}

impl<'a> Subpath<'a> {
    /// The point this subpath is drawn from, and the point a `ClosePath`
    /// returns to.
    pub fn start(&self) -> (p: Point)
        ensures
            p == self@.start,
    {
        self.start
    }

    /// True when the subpath ends with a `ClosePath`.
    pub fn is_closed(&self) -> (r: bool)
        ensures
            r == (self@.els.len() > 0 && self@.els.last() is ClosePath),
    {
        let n: usize = self.els.len();
        n > 0 && matches!(self.els[n - 1], PathEl::ClosePath)
    }

    /// The elements after the leading `MoveTo`, including any trailing
    /// `ClosePath`.
    pub fn elements(&self) -> (els: &'a [PathEl])
        ensures
            els@ == self@.els,
    {
        self.els
    }

    /// The segments, in order, each carrying its start point.
    ///
    /// A closed subpath ends with the line back to its start, unless it is
    /// already there: a zero-length closing line draws nothing and has no
    /// tangent.
    pub fn segments(&self) -> (segs: Vec<Segment>)
        ensures
            segs@ == segments_of(self@),
    {
        let ghost sub = self@;
        let n: usize = self.els.len();
        let mut segs: Vec<Segment> = Vec::new();
        let mut pen = self.start;
        let mut i: usize = 0;
        assert(segs@ + segments_of(sub) =~= segments_of(sub));
        while i < n
            invariant
                i <= n == self.els@.len(),
                sub == self@,
                segments_of(sub) == segs@ + segments_from(sub, i as int, pen),
            decreases n - i,
        {
            let ghost before = segs@;
            let ghost was = pen;
            let ghost at = i as int;
            match self.els[i] {
                PathEl::MoveTo(p) => {
                    pen = p;
                },
                PathEl::LineTo(p) => {
                    segs.push(Segment::Line(pen, p));
                    pen = p;
                },
                PathEl::QuadTo(c, p) => {
                    segs.push(Segment::Quad(QuadBez { p0: pen, p1: c, p2: p }));
                    pen = p;
                },
                PathEl::CurveTo(c0, c1, p) => {
                    segs.push(Segment::Cubic(CubicBez { p0: pen, p1: c0, p2: c1, p3: p }));
                    pen = p;
                },
                PathEl::ClosePath => {
                    if !pen.equal(self.start) {
                        segs.push(Segment::Line(pen, self.start));
                    }
                    pen = self.start;
                },
            }
            i += 1;
            proof {
                let rest = segments_from(sub, i as int, pen);
                if segs@.len() > before.len() {
                    assert(before + (seq![segs@.last()] + rest) =~= segs@ + rest);
                }
            }
        }
        assert(segs@ + Seq::<Segment>::empty() =~= segs@);
        segs
    }
}

impl Clone for Path {
    fn clone(&self) -> (path: Path)
        ensures
            path@ == self@,
    {
        let mut els: Vec<PathEl> = Vec::new();
        let mut i: usize = 0;
        while i < self.els.len()
            invariant
                i <= self.els@.len(),
                els@ == self.els@.take(i as int),
            decreases self.els@.len() - i,
        {
            els.push(self.els[i]);
            i += 1;
            assert(els@ =~= self.els@.take(i as int));
        }
        assert(els@ =~= self.els@);
        Path { els }
    }
}

impl Default for Path {
    fn default() -> (path: Path)
        ensures
            path@ == Seq::<PathEl>::empty(),
    {
        Path::new()
    }
}

impl From<Vec<PathEl>> for Path {
    fn from(els: Vec<PathEl>) -> (path: Path) {
        Path { els }
    }
}

impl vstd::std_specs::convert::FromSpecImpl<Vec<PathEl>> for Path {
    open spec fn obeys_from_spec() -> bool {
        true
    }

    open spec fn from_spec(els: Vec<PathEl>) -> Path {
        Path { els }
    }
}

/// Each segment starts where the one before it ended.
pub open spec fn chained(segs: Seq<Segment>) -> bool {
    forall|i: int| 0 <= i < segs.len() - 1 ==> (#[trigger] segs[i]).last() == segs[i + 1].first()
}

/// What a subpath cut from a path never holds: a `MoveTo`, or a `ClosePath`
/// before its last element.
pub open spec fn is_subpath(sub: SubpathModel) -> bool {
    &&& forall|k: int| 0 <= k < sub.els.len() ==> !((#[trigger] sub.els[k]) is MoveTo)
    &&& forall|k: int| 0 <= k < sub.els.len() - 1 ==> !((#[trigger] sub.els[k]) is ClosePath)
}

proof fn lemma_segments_chain(sub: SubpathModel, i: int, pen: Point)
    requires
        is_subpath(sub),
        0 <= i <= sub.els.len(),
    ensures
        chained(segments_from(sub, i, pen)),
        segments_from(sub, i, pen).len() > 0 ==> segments_from(sub, i, pen)[0].first() == pen,
        sub.els.len() > i && sub.els.last() is ClosePath && segments_from(sub, i, pen).len() > 0
            ==> segments_from(sub, i, pen).last().last().equals(sub.start) || segments_from(
            sub,
            i,
            pen,
        ).last().last() == sub.start,
    decreases sub.els.len() - i,
{
    if i < sub.els.len() {
        let next = match sub.els[i].end() {
            Some(p) => p,
            None => sub.start,
        };
        lemma_segments_chain(sub, i + 1, next);
        let rest = segments_from(sub, i + 1, next);
        let all = segments_from(sub, i, pen);
        if all.len() > rest.len() {
            assert forall|k: int| 0 <= k < all.len() - 1 implies (#[trigger] all[k]).last() == all[k
                + 1].first() by {
                if k > 0 {
                    assert(all[k] == rest[k - 1]);
                }
                assert(all[k + 1] == rest[k]);
            }
            if rest.len() > 0 {
                assert(all.last() == rest.last());
            } else if i + 1 < sub.els.len() && sub.els.last() is ClosePath {
                lemma_only_a_closed_rest_is_empty(sub, i + 1, next);
            }
        }
    }
}

/// Nothing is left to draw of a closed subpath only when the pen is back at
/// its start.
proof fn lemma_only_a_closed_rest_is_empty(sub: SubpathModel, i: int, pen: Point)
    requires
        is_subpath(sub),
        0 <= i < sub.els.len(),
        sub.els.last() is ClosePath,
        segments_from(sub, i, pen).len() == 0,
    ensures
        pen.equals(sub.start),
{
}

/// The segments of a subpath are one unbroken line from its start, and a
/// closed subpath that draws anything ends where it started.
pub proof fn segments_are_one_line(sub: SubpathModel)
    requires
        is_subpath(sub),
    ensures
        chained(segments_of(sub)),
        segments_of(sub).len() > 0 ==> segments_of(sub)[0].first() == sub.start,
        sub.els.len() > 0 && sub.els.last() is ClosePath && segments_of(sub).len() > 0
            ==> segments_of(sub).last().last().equals(sub.start) || segments_of(sub).last().last()
            == sub.start,
{
    lemma_segments_chain(sub, 0, sub.start);
}

/// The elements of subpaths put one after the other.
pub open spec fn joined(subs: Seq<SubpathModel>) -> Seq<PathEl>
    decreases subs.len(),
{
    if subs.len() == 0 {
        Seq::empty()
    } else {
        subs[0].els + joined(subs.skip(1))
    }
}

/// The elements from `i` on that draw something.
pub open spec fn drawing(els: Seq<PathEl>, i: int) -> Seq<PathEl>
    decreases els.len() - i,
{
    if i >= els.len() {
        Seq::empty()
    } else if els[i] is MoveTo {
        drawing(els, i + 1)
    } else {
        seq![els[i]] + drawing(els, i + 1)
    }
}

proof fn lemma_drawing_run(els: Seq<PathEl>, i: int, j: int)
    requires
        0 <= i <= j <= els.len(),
        forall|k: int| i <= k < j ==> !(els[k] is MoveTo),
    ensures
        drawing(els, i) == els.subrange(i, j) + drawing(els, j),
    decreases j - i,
{
    if i < j {
        lemma_drawing_run(els, i + 1, j);
        assert(els.subrange(i, j) =~= seq![els[i]] + els.subrange(i + 1, j));
        assert(seq![els[i]] + (els.subrange(i + 1, j) + drawing(els, j)) =~= els.subrange(i, j)
            + drawing(els, j));
    } else {
        assert(els.subrange(i, j) + drawing(els, j) =~= drawing(els, j));
    }
}

/// Cutting a path into subpaths loses no element that draws and invents none,
/// and every piece is a subpath.
pub proof fn subpaths_hold_every_drawing_element(els: Seq<PathEl>, i: int, pen: Point)
    requires
        0 <= i <= els.len(),
    ensures
        joined(subpaths_from(els, i, pen)) == drawing(els, i),
        forall|k: int|
            0 <= k < subpaths_from(els, i, pen).len() ==> is_subpath(
                #[trigger] subpaths_from(els, i, pen)[k],
            ),
    decreases els.len() - i,
{
    if i < els.len() {
        let body = if els[i] is MoveTo {
            i + 1
        } else {
            i
        };
        let sub = subpath_at(els, i, pen);
        let end = subpath_end(els, body);
        lemma_subpath_end(els, body);
        lemma_drawing_run(els, body, end);
        subpaths_hold_every_drawing_element(els, end, pen_after(sub));
        let rest = subpaths_from(els, end, pen_after(sub));
        let all = subpaths_from(els, i, pen);
        assert(all.skip(1) =~= rest);
        assert forall|k: int| 0 <= k < all.len() implies is_subpath(#[trigger] all[k]) by {
            if k > 0 {
                assert(all[k] == rest[k - 1]);
            }
        }
    }
}

/// What the subpath adds to its segments to be closed.
pub open spec fn closing(segs: Seq<Segment>) -> Seq<Segment> {
    if segs.len() > 0 && !segs[0].first().equals(segs.last().last()) {
        segs.push(Segment::Line(segs.last().last(), segs[0].first()))
    } else {
        segs
    }
}

/// The segments of the first `n` subpaths, each subpath closed.
pub open spec fn all_closed(subs: Seq<SubpathModel>, n: int) -> Seq<Segment>
    decreases n,
{
    if n <= 0 {
        Seq::empty()
    } else {
        all_closed(subs, n - 1) + closing(segments_of(subs[n - 1]))
    }
}

/// Every subpath of `path` as segments, closed.
///
/// An open subpath is filled as though it were closed, so the closing line is
/// a real edge.
pub fn closed_segments(path: &Path) -> (out: Vec<Segment>)
    ensures
        out@ == all_closed(path.parts(), path.parts().len() as int),
{
    let subs = path.subpaths();
    let mut out: Vec<Segment> = Vec::new();
    let mut i: usize = 0;
    while i < subs.len()
        invariant
            i <= subs@.len(),
            subpaths_view(subs@) == path.parts(),
            out@ == all_closed(path.parts(), i as int),
        decreases subs@.len() - i,
    {
        let mut segs = subs[i].segments();
        assert(subs@[i as int]@ == path.parts()[i as int]);
        let n: usize = segs.len();
        if n > 0 {
            let a = segs[0].start();
            let b = segs[n - 1].end();
            if !a.equal(b) {
                segs.push(Segment::Line(b, a));
            }
        }
        out.append(&mut segs);
        i += 1;
    }
    out
}

/// Whether an element is another with every point mapped.
pub open spec fn is_mapped<F: Fn(Point) -> Point>(map: F, a: PathEl, b: PathEl) -> bool {
    match (a, b) {
        (PathEl::MoveTo(p), PathEl::MoveTo(q)) => call_ensures(map, (p,), q),
        (PathEl::LineTo(p), PathEl::LineTo(q)) => call_ensures(map, (p,), q),
        (PathEl::QuadTo(p0, p1), PathEl::QuadTo(q0, q1)) => call_ensures(map, (p0,), q0)
            && call_ensures(map, (p1,), q1),
        (PathEl::CurveTo(p0, p1, p2), PathEl::CurveTo(q0, q1, q2)) => call_ensures(map, (p0,), q0)
            && call_ensures(map, (p1,), q1) && call_ensures(map, (p2,), q2),
        (PathEl::ClosePath, PathEl::ClosePath) => true,
        _ => false,
    }
}

impl PathEl {
    /// This element with every point mapped, the control points too.
    pub fn transform<F: Fn(Point) -> Point>(self, map: &F) -> (el: PathEl)
        requires
            forall|p: Point| call_requires(map, (p,)),
        ensures
            is_mapped(*map, self, el),
    {
        match self {
            PathEl::MoveTo(p) => PathEl::MoveTo(map(p)),
            PathEl::LineTo(p) => PathEl::LineTo(map(p)),
            PathEl::QuadTo(p0, p1) => PathEl::QuadTo(map(p0), map(p1)),
            PathEl::CurveTo(p0, p1, p2) => PathEl::CurveTo(map(p0), map(p1), map(p2)),
            PathEl::ClosePath => PathEl::ClosePath,
        }
    }
}

/// Whether boxes are those of segments, in order.
pub open spec fn are_boxes<F: Fn(Segment) -> Rect>(
    bound: F,
    segs: Seq<Segment>,
    boxes: Seq<Rect>,
) -> bool {
    &&& boxes.len() == segs.len()
    &&& forall|k: int| 0 <= k < segs.len() ==> call_ensures(bound, (segs[k],), #[trigger] boxes[k])
}

impl Path {
    /// This path with every point mapped.
    pub fn transform<F: Fn(Point) -> Point>(&self, map: F) -> (path: Path)
        requires
            forall|p: Point| call_requires(map, (p,)),
        ensures
            path@.len() == self@.len(),
            forall|k: int| 0 <= k < self@.len() ==> is_mapped(map, self@[k], #[trigger] path@[k]),
    {
        let els = self.elements();
        let mut path = Path::new();
        let mut i: usize = 0;
        while i < els.len()
            invariant
                i <= els@.len(),
                els@ == self@,
                forall|p: Point| call_requires(map, (p,)),
                path@.len() == i,
                forall|k: int| 0 <= k < i ==> is_mapped(map, self@[k], #[trigger] path@[k]),
            decreases els@.len() - i,
        {
            path.push(els[i].transform(&map));
            i += 1;
        }
        path
    }

    /// The smallest axis-aligned rectangle around the path. `bound` gives the
    /// tight box of one segment.
    ///
    /// A `MoveTo` that is followed by no drawing element contributes nothing:
    /// no ink is laid down there.
    pub fn bounding_box<F: Fn(Segment) -> Rect>(&self, bound: &F) -> (r: Rect)
        requires
            forall|s: Segment| call_requires(bound, (s,)),
        ensures
            exists|boxes: Seq<Rect>| #[trigger]
                are_boxes(*bound, all_segments(self.parts(), self.parts().len() as int), boxes) && r == Rect::across(
                    boxes,
                    boxes.len() as int,
                ),
    {
        let segs = self.segments();
        let mut r = Rect::empty();
        let ghost mut boxes: Seq<Rect> = Seq::empty();
        let mut i: usize = 0;
        while i < segs.len()
            invariant
                i <= segs@.len(),
                segs@ == all_segments(self.parts(), self.parts().len() as int),
                forall|s: Segment| call_requires(bound, (s,)),
                boxes.len() == i,
                forall|k: int|
                    0 <= k < i ==> call_ensures(bound, (segs@[k],), #[trigger] boxes[k]),
                r == Rect::across(boxes, i as int),
            decreases segs@.len() - i,
        {
            let b = bound(segs[i]);
            r = r.union(b);
            proof {
                let before = boxes;
                boxes = boxes.push(b);
                lemma_across_prefix(before, boxes, i as int);
            }
            i += 1;
        }
        assert(are_boxes(*bound, all_segments(self.parts(), self.parts().len() as int), boxes));
        r
    }
}

proof fn lemma_across_prefix(a: Seq<Rect>, b: Seq<Rect>, n: int)
    requires
        n <= a.len(),
        n <= b.len(),
        forall|k: int| 0 <= k < n ==> (#[trigger] a[k]) == b[k],
    ensures
        Rect::across(a, n) == Rect::across(b, n),
    decreases n,
{
    if n > 0 {
        assert(a[n - 1] == b[n - 1]);
        lemma_across_prefix(a, b, n - 1);
    }
}

/// The segments of a subpath are what its elements draw: one for each, with its
/// control points in their order and beginning where the element before it ended.
/// Closing adds a line back to the start where the pen is elsewhere, and nothing
/// where it is there.
pub proof fn segments_draw_their_elements(sub: SubpathModel, k: int)
    requires
        is_subpath(sub),
        0 <= k < sub.els.len(),
    ensures
        ({
            let segs = segments_of(sub);
            let pen = if k == 0 {
                Some(sub.start)
            } else {
                sub.els[k - 1].end()
            };
            match sub.els[k] {
                PathEl::ClosePath => if pen->0.equals(sub.start) {
                    segs.len() == k
                } else {
                    segs.len() == k + 1 && segs[k] == Segment::Line(pen->0, sub.start)
                },
                PathEl::LineTo(p) => k < segs.len() && segs[k] == Segment::Line(pen->0, p),
                PathEl::QuadTo(c, p) => k < segs.len() && segs[k] == Segment::Quad(
                    QuadBez { p0: pen->0, p1: c, p2: p },
                ),
                PathEl::CurveTo(c, d, p) => k < segs.len() && segs[k] == Segment::Cubic(
                    CubicBez { p0: pen->0, p1: c, p2: d, p3: p },
                ),
                PathEl::MoveTo(_) => false,
            }
        }),
        !(sub.els.last() is ClosePath) ==> segments_of(sub).len() == sub.els.len(),
{
    assert(!(sub.els[k] is MoveTo));
    lemma_segment_at(sub, 0, sub.start, k);
}

proof fn lemma_segment_at(sub: SubpathModel, i: int, pen: Point, k: int)
    requires
        is_subpath(sub),
        0 <= i <= k < sub.els.len(),
    ensures
        ({
            let segs = segments_from(sub, i, pen);
            let at = if k == i {
                pen
            } else {
                sub.els[k - 1].end()->0
            };
            match sub.els[k] {
                PathEl::ClosePath => if at.equals(sub.start) {
                    segs.len() == k - i
                } else {
                    segs.len() == k - i + 1 && segs[k - i] == Segment::Line(at, sub.start)
                },
                PathEl::LineTo(p) => k - i < segs.len() && segs[k - i] == Segment::Line(at, p),
                PathEl::QuadTo(c, p) => k - i < segs.len() && segs[k - i] == Segment::Quad(
                    QuadBez { p0: at, p1: c, p2: p },
                ),
                PathEl::CurveTo(c, d, p) => k - i < segs.len() && segs[k - i] == Segment::Cubic(
                    CubicBez { p0: at, p1: c, p2: d, p3: p },
                ),
                PathEl::MoveTo(_) => true,
            }
        }),
        !(sub.els.last() is ClosePath) ==> segments_from(sub, i, pen).len() == sub.els.len() - i,
    decreases k - i,
{
    reveal_with_fuel(segments_from, 2);
    assert(!(sub.els[i] is MoveTo));
    lemma_segment_count(sub, i, pen);
    if i < k {
        assert(!(sub.els[i] is ClosePath));
        let p = sub.els[i].end()->0;
        let rest = segments_from(sub, i + 1, p);
        lemma_segment_at(sub, i + 1, p, k);
        let segs = segments_from(sub, i, pen);
        assert(segs.len() == rest.len() + 1);
        assert(k - i < segs.len() ==> segs[k - i] == rest[k - i - 1]);
    } else if sub.els[i] is ClosePath {
        assert(i == sub.els.len() - 1);
        assert(segments_from(sub, i + 1, sub.start) =~= Seq::<Segment>::empty());
    }
}

proof fn lemma_segment_count(sub: SubpathModel, i: int, pen: Point)
    requires
        is_subpath(sub),
        0 <= i <= sub.els.len(),
    ensures
        sub.els.len() > 0 && !(sub.els.last() is ClosePath) ==> segments_from(sub, i, pen).len()
            == sub.els.len() - i,
    decreases sub.els.len() - i,
{
    if i < sub.els.len() {
        assert(!(sub.els[i] is MoveTo));
        if sub.els[i] is ClosePath {
            if i < sub.els.len() - 1 {
                assert(false);
            }
        } else {
            lemma_segment_count(sub, i + 1, sub.els[i].end()->0);
        }
    }
}

/// A segment drawn from its first point is that segment again, and its ends are
/// the first and the last of its control points.
pub proof fn a_segment_drawn_from_its_start_is_itself(s: Segment)
    ensures
        segments_of(SubpathModel { start: s.first(), els: seq![s.drawn()] }) == seq![s],
        s.drawn().end() == Some(s.last()),
        match s {
            Segment::Line(a, b) => s.first() == a && s.last() == b && s.drawn() == PathEl::LineTo(b),
            Segment::Quad(q) => s.first() == q.p0 && s.last() == q.p2 && s.drawn()
                == PathEl::QuadTo(q.p1, q.p2),
            Segment::Cubic(c) => s.first() == c.p0 && s.last() == c.p3 && s.drawn()
                == PathEl::CurveTo(c.p1, c.p2, c.p3),
        },
{
    reveal_with_fuel(segments_from, 2);
    let sub = SubpathModel { start: s.first(), els: seq![s.drawn()] };
    assert(segments_of(sub) =~= seq![s]);
}

/// Reversing turns the order of all control points about.
pub proof fn reversing_turns_the_controls_about(s: Segment)
    ensures
        match (s, s.backwards()) {
            (Segment::Line(a, b), Segment::Line(c, d)) => a == d && b == c,
            (Segment::Quad(q), Segment::Quad(r)) => r.p0 == q.p2 && r.p1 == q.p1 && r.p2 == q.p0,
            (Segment::Cubic(c), Segment::Cubic(d)) => d.p0 == c.p3 && d.p1 == c.p2 && d.p2 == c.p1
                && d.p3 == c.p0,
            _ => false,
        },
{
}

/// Moving the ends of a segment keeps its kind and its inner control points, and a
/// segment that has those ends already stays as it is.
pub proof fn moving_ends_keeps_the_inner_controls(s: Segment, p0: Point, p1: Point)
    ensures
        s.first().equals(p0) && s.last().equals(p1) ==> s.moved(p0, p1) == s,
        match (s, s.moved(p0, p1)) {
            (Segment::Line(..), Segment::Line(..)) => true,
            (Segment::Quad(q), Segment::Quad(r)) => q.p1 == r.p1,
            (Segment::Cubic(c), Segment::Cubic(d)) => c.p1 == d.p1 && c.p2 == d.p2,
            _ => false,
        },
        !(s.first().equals(p0) && s.last().equals(p1)) ==> s.moved(p0, p1).first() == p0
            && s.moved(p0, p1).last() == p1,
{
}

/// A fill is closed: what is added to the segments of a subpath is at most one
/// line, from their end to their start, and afterwards the end is the start.
pub proof fn closing_meets_the_start(segs: Seq<Segment>)
    requires
        segs.len() > 0,
        !segs[0].first().x.nan() && !segs[0].first().y.nan(),
    ensures
        closing(segs)[0].first().equals(closing(segs).last().last()),
        closing(segs).len() <= segs.len() + 1,
        forall|k: int| 0 <= k < segs.len() ==> closing(segs)[k] == #[trigger] segs[k],
        segs[0].first().equals(segs.last().last()) ==> closing(segs) == segs,
        !segs[0].first().equals(segs.last().last()) ==> closing(segs) == segs.push(
            Segment::Line(segs.last().last(), segs[0].first()),
        ),
{
}

/// A moveto begins a subpath at its point, and the elements up to the next moveto
/// or through the next closepath are that subpath's; what follows a closepath
/// without a moveto begins where the subpath before it began.
pub proof fn subpaths_begin_where_the_pen_is(els: Seq<PathEl>, i: int, pen: Point)
    requires
        0 <= i < els.len(),
    ensures
        ({
            let subs = subpaths_from(els, i, pen);
            let body = if els[i] is MoveTo {
                i + 1
            } else {
                i
            };
            let n = subs[0].els.len() as int;
            &&& subs.len() > 0
            &&& els[i] matches PathEl::MoveTo(p) ==> subs[0].start == p
            &&& !(els[i] is MoveTo) ==> subs[0].start == pen
            &&& body + n <= els.len()
            &&& subs[0].els == els.subrange(body, body + n)
            &&& body + n < els.len() ==> els[body + n] is MoveTo || (n > 0 && els[body + n
                - 1] is ClosePath)
            &&& body + n < els.len() ==> subs.len() > 1 && (!(els[body + n] is MoveTo)
                ==> subs[1].start == subs[0].start)
            &&& subs.skip(1) == subpaths_from(els, body + n, pen_after(subs[0]))
            &&& pen_after(subs[0]) == (if n == 0 || els[body + n - 1] is ClosePath {
                subs[0].start
            } else {
                els[body + n - 1].end()->0
            })
        }),
{
    let subs = subpaths_from(els, i, pen);
    let body = if els[i] is MoveTo {
        i + 1
    } else {
        i
    };
    lemma_subpath_end(els, body);
    lemma_subpath_stop(els, body);
    let e = subpath_end(els, body);
    let sub = subpath_at(els, i, pen);
    let rest = subpaths_from(els, e, pen_after(sub));
    assert(subs =~= seq![sub] + rest);
    assert(subs.skip(1) =~= rest);
    if e < els.len() {
        assert(rest.len() > 0);
        assert(subs[1] == rest[0]);
    }
}

proof fn lemma_subpath_stop(els: Seq<PathEl>, i: int)
    requires
        0 <= i <= els.len(),
    ensures
        i <= subpath_end(els, i) <= els.len(),
        subpath_end(els, i) < els.len() ==> els[subpath_end(els, i)] is MoveTo || (subpath_end(
            els,
            i,
        ) > i && els[subpath_end(els, i) - 1] is ClosePath),
    decreases els.len() - i,
{
    if i < els.len() && !(els[i] is MoveTo) && !(els[i] is ClosePath) {
        lemma_subpath_stop(els, i + 1);
    }
}

/// The segments of a path are those of its subpaths, one subpath after the other;
/// and so are the closed ones.
pub proof fn segments_come_subpath_by_subpath(subs: Seq<SubpathModel>, n: int, k: int, i: int)
    requires
        0 <= k < n <= subs.len(),
    ensures
        all_segments(subs, n) == all_segments(subs, n - 1) + segments_of(subs[n - 1]),
        all_closed(subs, n) == all_closed(subs, n - 1) + closing(segments_of(subs[n - 1])),
        0 <= i < segments_of(subs[k]).len() ==> all_segments(subs, n).contains(
            segments_of(subs[k])[i],
        ),
    decreases n,
{
    if 0 <= i < segments_of(subs[k]).len() {
        let now = all_segments(subs, n);
        let before = all_segments(subs, n - 1);
        let s = segments_of(subs[k])[i];
        if k < n - 1 {
            segments_come_subpath_by_subpath(subs, n - 1, k, i);
            let m = choose|m: int| 0 <= m < before.len() && before[m] == s;
            assert(now[m] == s);
        } else {
            assert(now[before.len() + i] == s);
        }
    }
}

/// A mapped element is of the same kind, with each of its points mapped in its place.
pub proof fn mapping_keeps_the_kind<F: Fn(Point) -> Point>(map: F, a: PathEl, b: PathEl)
    requires
        is_mapped(map, a, b),
    ensures
        a is MoveTo <==> b is MoveTo,
        a is LineTo <==> b is LineTo,
        a is QuadTo <==> b is QuadTo,
        a is CurveTo <==> b is CurveTo,
        a is ClosePath <==> b is ClosePath,
        a.end() matches Some(p) ==> (b.end() matches Some(q) && call_ensures(map, (p,), q)),
        a matches PathEl::QuadTo(c, _) ==> (b matches PathEl::QuadTo(d, _) && call_ensures(
            map,
            (c,),
            d,
        )),
        a matches PathEl::CurveTo(c, e, _) ==> (b matches PathEl::CurveTo(d, f, _) && call_ensures(
            map,
            (c,),
            d,
        ) && call_ensures(map, (e,), f)),
{
}

} // verus!
