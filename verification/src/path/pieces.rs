//! From the segments of two paths to the edges of their arrangement.
//!
//! Segments are cut where they meet, the ends of the pieces are snapped to
//! shared vertices, and pieces that trace the same arc become one edge. What
//! follows compares vertex indices, never coordinates.

use vstd::prelude::*;
use crate::geom::Point;
use crate::geom::Real;
use crate::geom::Rect;
use crate::path::boolean;
use crate::path::boolean::snap;
use crate::path::boolean::Edge;
use crate::path::cutting;
use crate::path::cutting::candidates;
use crate::path::cutting::cluster;
use crate::path::cutting::collect_cuts;
use crate::path::cutting::merge_duplicates;
use crate::path::cutting::sort_edges;
use crate::path::cutting::spans;
use crate::path::cutting::Meeting;
use crate::path::outline::Segment;
use crate::path::winding;

verus! {

/// A segment of an input, and whether it comes from the second one.
pub type Piece = (Segment, bool);

/// How segments were cut: their boxes, where the pairs whose boxes overlap meet,
/// which segments have an extent, and the parts of each.
pub struct Cutting {
    pub boxes: Seq<Rect>,
    pub meetings: Seq<Meeting>,
    pub whole: Seq<bool>,
    pub parts: Seq<Seq<Segment>>,
}

impl Cutting {
    /// The pairs of segments that could meet.
    pub open spec fn pairs(self) -> Seq<(usize, usize)> {
        cutting::pairs(self.boxes, self.boxes.len() as int)
    }
}

/// Whether the boxes are those of the segments, and the meetings those of the
/// pairs whose boxes overlap.
pub open spec fn met<B: Fn(Segment) -> Rect, M: Fn(Segment, Segment) -> Meeting>(
    boxed: B,
    meet: M,
    segs: Seq<Piece>,
    c: Cutting,
) -> bool {
    &&& c.boxes.len() == segs.len()
    &&& forall|i: int|
        0 <= i < segs.len() ==> call_ensures(boxed, (segs[i].0,), #[trigger] c.boxes[i])
    &&& c.meetings.len() == c.pairs().len()
    &&& forall|k: int|
        0 <= k < c.meetings.len() ==> call_ensures(
            meet,
            (segs[c.pairs()[k].0 as int].0, segs[c.pairs()[k].1 as int].0),
            #[trigger] c.meetings[k],
        )
}

/// The stretches of segment `i` between its cuts.
pub open spec fn stretches<L: Fn(Segment, Real, Real) -> bool>(
    long: L,
    segs: Seq<Piece>,
    c: Cutting,
    i: int,
) -> Seq<(Real, Real)> {
    cutting::spans_of(
        long,
        segs[i].0,
        c.whole[i],
        cutting::cuts_of(c.pairs(), c.meetings, i, c.pairs().len() as int),
    )
}

/// Whether the parts of segment `i` are its stretches between its cuts.
pub open spec fn parted<
    L: Fn(Segment, Real, Real) -> bool,
    W: Fn(Segment) -> bool,
    P: Fn(Segment, Real, Real) -> Segment,
>(long: L, whole: W, part: P, segs: Seq<Piece>, c: Cutting, i: int) -> bool {
    let s = stretches(long, segs, c, i);
    &&& call_ensures(whole, (segs[i].0,), c.whole[i])
    &&& c.parts[i].len() == s.len()
    &&& forall|k: int|
        0 <= k < s.len() ==> call_ensures(
            part,
            (segs[i].0, s[k].0, s[k].1),
            #[trigger] c.parts[i][k],
        )
}

/// The first `n` parts of a segment, marked with the input it comes from.
pub open spec fn tagged(parts: Seq<Segment>, second: bool, n: int) -> Seq<Piece> {
    Seq::new(n as nat, |k: int| (parts[k], second))
}

/// The parts of the first `n` segments, in order.
pub open spec fn all_parts(segs: Seq<Piece>, parts: Seq<Seq<Segment>>, n: int) -> Seq<Piece>
    decreases n,
{
    if n <= 0 {
        Seq::empty()
    } else {
        all_parts(segs, parts, n - 1) + tagged(parts[n - 1], segs[n - 1].1, parts[n - 1].len() as int)
    }
}

proof fn lemma_parts_prefix(segs: Seq<Piece>, a: Seq<Seq<Segment>>, b: Seq<Seq<Segment>>, n: int)
    requires
        0 <= n <= a.len(),
        n <= b.len(),
        forall|i: int| 0 <= i < n ==> a[i] == b[i],
    ensures
        all_parts(segs, a, n) == all_parts(segs, b, n),
    decreases n,
{
    if n > 0 {
        lemma_parts_prefix(segs, a, b, n - 1);
    }
}

/// Cuts a segment at the parameters where it meets itself.
///
/// A cubic with a loop crosses itself at two of them. A segment whose derivative
/// vanishes folds: cut there, its halves are ordinary coincident pieces, which
/// then merge into an edge whose contributions cancel.
pub fn split_at<L: Fn(Segment, Real, Real) -> bool, P: Fn(Segment, Real, Real) -> Segment>(
    s: Segment,
    cuts: &Vec<Real>,
    long: &L,
    whole: bool,
    part: &P,
) -> (r: Vec<Segment>)
    requires
        cutting::measures(*long),
        forall|s: Segment, a: Real, b: Real| call_requires(part, (s, a, b)),
    ensures
        cuts@.len() == 0 ==> r@ == seq![s],
        cuts@.len() > 0 ==> {
            let list = cutting::spans_of(*long, s, whole, cuts@);
            &&& r@.len() == list.len()
            &&& forall|k: int|
                0 <= k < list.len() ==> call_ensures(part, (s, list[k].0, list[k].1), #[trigger] r@[k])
        },
{
    let mut r: Vec<Segment> = Vec::new();
    if cuts.len() == 0 {
        r.push(s);
        return r;
    }
    let list = spans(s, cuts, long, whole);
    let mut k: usize = 0;
    while k < list.len()
        invariant
            k <= list@.len(),
            r@.len() == k,
            forall|s: Segment, a: Real, b: Real| call_requires(part, (s, a, b)),
            forall|j: int|
                0 <= j < k ==> call_ensures(part, (s, list@[j].0, list@[j].1), #[trigger] r@[j]),
        decreases list.len() - k,
    {
        r.push(part(s, list[k].0, list[k].1));
        k += 1;
    }
    r
}

/// The segments of two inputs in one list.
pub open spec fn inputs(first: Seq<Segment>, second: Seq<Segment>) -> Seq<Piece> {
    tagged(first, false, first.len() as int) + tagged(second, true, second.len() as int)
}

/// Whether segment `i` was dropped for want of an extent, or cut where it meets
/// itself.
pub open spec fn taken<W: Fn(Segment) -> bool, P: Fn(Segment) -> Vec<Segment>>(
    whole: W,
    split: P,
    segs: Seq<Piece>,
    parts: Seq<Seq<Segment>>,
    i: int,
) -> bool {
    ||| call_ensures(whole, (segs[i].0,), false) && parts[i].len() == 0
    ||| call_ensures(whole, (segs[i].0,), true) && exists|v: Vec<Segment>| #[trigger]
        call_ensures(split, (segs[i].0,), v) && parts[i] == v@
}

/// Whether every segment was dropped or cut so.
pub open spec fn all_taken<W: Fn(Segment) -> bool, P: Fn(Segment) -> Vec<Segment>>(
    whole: W,
    split: P,
    segs: Seq<Piece>,
    parts: Seq<Seq<Segment>>,
) -> bool {
    &&& parts.len() == segs.len()
    &&& forall|i: int| 0 <= i < segs.len() ==> #[trigger] taken(whole, split, segs, parts, i)
}

/// Puts the segments of two inputs in one list, so that a pair of segments is a
/// pair of positions whichever input each comes from.
///
/// A segment without an extent is dropped: it has no direction, so it has no
/// place in the order around a vertex, and it encloses nothing. One that meets
/// itself is cut there, so that from here on two curves that cross are two
/// entries of the list.
pub fn gather<W: Fn(Segment) -> bool, P: Fn(Segment) -> Vec<Segment>>(
    first: &Vec<Segment>,
    second: &Vec<Segment>,
    whole: &W,
    split: &P,
) -> (r: Vec<Piece>)
    requires
        forall|s: Segment| call_requires(whole, (s,)),
        forall|s: Segment| call_requires(split, (s,)),
    ensures
        exists|parts: Seq<Seq<Segment>>| #[trigger]
            all_taken(*whole, *split, inputs(first@, second@), parts) && r@ == all_parts(
                inputs(first@, second@),
                parts,
                inputs(first@, second@).len() as int,
            ),
{
    let mut r: Vec<Piece> = Vec::new();
    let ghost segs = inputs(first@, second@);
    let ghost mut parts: Seq<Seq<Segment>> = Seq::empty();
    let mut second_half = false;
    let mut i: usize = 0;
    let ghost mut done: int = 0;
    assert(r@ =~= all_parts(segs, parts, 0));
    while !second_half || i < second.len()
        invariant
            segs == inputs(first@, second@),
            done == (if second_half {
                first@.len() + i
            } else {
                i as int
            }),
            i <= (if second_half {
                second@.len()
            } else {
                first@.len()
            }),
            parts.len() == done,
            forall|s: Segment| call_requires(whole, (s,)),
            forall|s: Segment| call_requires(split, (s,)),
            forall|k: int| 0 <= k < done ==> #[trigger] taken(*whole, *split, segs, parts, k),
            r@ == all_parts(segs, parts, done),
        decreases
            segs.len() - done,
            (if second_half {
                0int
            } else {
                1int
            }),
    {
        if !second_half && i == first.len() {
            second_half = true;
            i = 0;
        } else {
            let s = if second_half {
                second[i]
            } else {
                first[i]
            };
            assert(segs[done] == (s, second_half));
            let wide = whole(s);
            let list = if wide {
                split(s)
            } else {
                Vec::new()
            };
            let ghost before = r@;
            let mut k: usize = 0;
            assert(r@ =~= before + tagged(list@, second_half, 0));
            while k < list.len()
                invariant
                    k <= list@.len(),
                    r@ == before + tagged(list@, second_half, k as int),
                decreases list.len() - k,
            {
                r.push((list[k], second_half));
                assert(r@ =~= before + tagged(list@, second_half, k + 1));
                k += 1;
            }
            proof {
                let earlier = parts;
                parts = parts.push(list@);
                lemma_parts_prefix(segs, earlier, parts, done);
                assert(parts[done] == list@);
                assert(call_ensures(*whole, (segs[done].0,), wide));
                if wide {
                    assert(call_ensures(*split, (segs[done].0,), list));
                }
                assert(taken(*whole, *split, segs, parts, done));
                assert forall|k: int| 0 <= k < done + 1 implies #[trigger] taken(
                    *whole,
                    *split,
                    segs,
                    parts,
                    k,
                ) by {
                    if k < done {
                        assert(taken(*whole, *split, segs, earlier, k));
                        assert(parts[k] == earlier[k]);
                    }
                }
                assert(r@ =~= all_parts(segs, parts, done + 1));
                done = done + 1;
            }
            i += 1;
        }
    }
    assert(all_taken(*whole, *split, segs, parts));
    r
}

/// The boxes of segments.
fn boxes_of<B: Fn(Segment) -> Rect>(segs: &Vec<Piece>, boxed: &B) -> (r: Vec<Rect>)
    requires
        forall|s: Segment| call_requires(boxed, (s,)),
    ensures
        r@.len() == segs@.len(),
        forall|i: int|
            0 <= i < segs@.len() ==> call_ensures(boxed, (segs@[i].0,), #[trigger] r@[i]),
{
    let mut r: Vec<Rect> = Vec::new();
    let mut i: usize = 0;
    while i < segs.len()
        invariant
            i <= segs@.len(),
            r@.len() == i,
            forall|s: Segment| call_requires(boxed, (s,)),
            forall|k: int| 0 <= k < i ==> call_ensures(boxed, (segs@[k].0,), #[trigger] r@[k]),
        decreases segs.len() - i,
    {
        r.push(boxed(segs[i].0));
        i += 1;
    }
    r
}

/// Where pairs of segments meet.
fn meetings_of<M: Fn(Segment, Segment) -> Meeting>(
    segs: &Vec<Piece>,
    pairs: &Vec<(usize, usize)>,
    meet: &M,
) -> (r: Vec<Meeting>)
    requires
        forall|a: Segment, b: Segment| call_requires(meet, (a, b)),
        forall|k: int|
            0 <= k < pairs@.len() ==> (#[trigger] pairs@[k]).0 < pairs@[k].1 < segs@.len(),
    ensures
        r@.len() == pairs@.len(),
        forall|k: int|
            0 <= k < pairs@.len() ==> call_ensures(
                meet,
                (segs@[pairs@[k].0 as int].0, segs@[pairs@[k].1 as int].0),
                #[trigger] r@[k],
            ),
{
    let mut r: Vec<Meeting> = Vec::new();
    let mut i: usize = 0;
    while i < pairs.len()
        invariant
            i <= pairs@.len(),
            r@.len() == i,
            forall|a: Segment, b: Segment| call_requires(meet, (a, b)),
            forall|k: int|
                0 <= k < pairs@.len() ==> (#[trigger] pairs@[k]).0 < pairs@[k].1 < segs@.len(),
            forall|k: int|
                0 <= k < i ==> call_ensures(
                    meet,
                    (segs@[pairs@[k].0 as int].0, segs@[pairs@[k].1 as int].0),
                    #[trigger] r@[k],
                ),
        decreases pairs.len() - i,
    {
        let (a, b): (usize, usize) = pairs[i];
        assert(pairs@[i as int].0 < pairs@[i as int].1 < segs@.len());
        r.push(meet(segs[a].0, segs[b].0));
        i += 1;
    }
    r
}

/// Cuts segments wherever two of them meet.
///
/// `boxed` is the box of a segment, grown by the tolerance, and `meet` where two
/// of them meet. `long` says whether the stretch between two parameters has an
/// extent and `whole` whether the segment has, and `part` is such a stretch.
pub fn cut_pieces<
    B: Fn(Segment) -> Rect,
    M: Fn(Segment, Segment) -> Meeting,
    L: Fn(Segment, Real, Real) -> bool,
    W: Fn(Segment) -> bool,
    P: Fn(Segment, Real, Real) -> Segment,
>(segs: &Vec<Piece>, boxed: &B, meet: &M, long: &L, whole: &W, part: &P) -> (pieces: Vec<Piece>)
    requires
        forall|s: Segment| call_requires(boxed, (s,)),
        forall|a: Segment, b: Segment| call_requires(meet, (a, b)),
        cutting::measures(*long),
        forall|s: Segment| call_requires(whole, (s,)),
        forall|s: Segment, a: Real, b: Real| call_requires(part, (s, a, b)),
    ensures
        exists|c: Cutting| #[trigger]
            met(*boxed, *meet, segs@, c) && c.whole.len() == segs@.len() && c.parts.len()
                == segs@.len() && (forall|i: int|
                0 <= i < segs@.len() ==> #[trigger] parted(*long, *whole, *part, segs@, c, i))
                && pieces@ == all_parts(segs@, c.parts, segs@.len() as int),
{
    let boxes = boxes_of(segs, boxed);
    let pairs = candidates(&boxes);
    let meetings = meetings_of(segs, &pairs, meet);
    let cuts = collect_cuts(segs.len(), &pairs, &meetings);
    let ghost mut c = Cutting {
        boxes: boxes@,
        meetings: meetings@,
        whole: Seq::empty(),
        parts: Seq::empty(),
    };
    let mut pieces: Vec<Piece> = Vec::new();
    let mut i: usize = 0;
    assert(pieces@ =~= all_parts(segs@, c.parts, 0));
    while i < segs.len()
        invariant
            i <= segs@.len(),
            c.boxes == boxes@,
            c.meetings == meetings@,
            pairs@ == c.pairs(),
            met(*boxed, *meet, segs@, c),
            cuts@.len() == segs@.len(),
            forall|k: int|
                0 <= k < segs@.len() ==> (#[trigger] cuts@[k])@ == cutting::cuts_of(
                    pairs@,
                    meetings@,
                    k,
                    pairs@.len() as int,
                ),
            c.whole.len() == i,
            c.parts.len() == i,
            cutting::measures(*long),
            forall|s: Segment| call_requires(whole, (s,)),
            forall|s: Segment, a: Real, b: Real| call_requires(part, (s, a, b)),
            forall|k: int|
                0 <= k < i ==> #[trigger] parted(*long, *whole, *part, segs@, c, k),
            pieces@ == all_parts(segs@, c.parts, i as int),
        decreases segs.len() - i,
    {
        let (s, second): Piece = segs[i];
        let w = whole(s);
        let list = spans(s, &cuts[i], long, w);
        let ghost before = pieces@;
        let ghost mut parts: Seq<Segment> = Seq::empty();
        let mut k: usize = 0;
        assert(pieces@ =~= before + tagged(parts, second, 0));
        while k < list.len()
            invariant
                k <= list@.len(),
                parts.len() == k,
                forall|s: Segment, a: Real, b: Real| call_requires(part, (s, a, b)),
                forall|j: int|
                    0 <= j < k ==> call_ensures(
                        part,
                        (s, list@[j].0, list@[j].1),
                        #[trigger] parts[j],
                    ),
                pieces@ == before + tagged(parts, second, k as int),
            decreases list.len() - k,
        {
            let piece = part(s, list[k].0, list[k].1);
            pieces.push((piece, second));
            proof {
                parts = parts.push(piece);
                assert(pieces@ =~= before + tagged(parts, second, k + 1));
            }
            k += 1;
        }
        proof {
            let earlier = c;
            c = Cutting { whole: c.whole.push(w), parts: c.parts.push(parts), ..c };
            assert(list@ == stretches(*long, segs@, c, i as int));
            lemma_parts_prefix(segs@, earlier.parts, c.parts, i as int);
            assert(pieces@ =~= all_parts(segs@, c.parts, i + 1));
            assert(parted(*long, *whole, *part, segs@, c, i as int));
            assert forall|j: int| 0 <= j < i + 1 implies #[trigger] parted(
                *long,
                *whole,
                *part,
                segs@,
                c,
                j,
            ) by {
                if j < i {
                    assert(parted(*long, *whole, *part, segs@, earlier, j));
                    assert(c.whole[j] == earlier.whole[j]);
                    assert(c.parts[j] == earlier.parts[j]);
                    assert(c.pairs() == earlier.pairs());
                }
            }
        }
        i += 1;
    }
    pieces
}

/// The ends of pieces: the start of piece `k` is point `2 * k`, its end point
/// `2 * k + 1`.
pub open spec fn ends(pieces: Seq<Piece>) -> Seq<Point> {
    Seq::new(
        2 * pieces.len(),
        |i: int|
            if i % 2 == 0 {
                pieces[i / 2].0.first()
            } else {
                pieces[i / 2].0.last()
            },
    )
}

/// How pieces became edges: the vertices, the vertex of each end, the pieces
/// without an extent once snapped, and the shapes that the edges were ordered by
/// before and after merging.
pub struct Joining {
    pub verts: Seq<Point>,
    pub of_point: Seq<usize>,
    pub tiny: Seq<bool>,
    pub raw: Seq<Seq<Real>>,
    pub shapes: Seq<Seq<Real>>,
}

/// Whether the vertices are the clusters of the ends of pieces, and each end has
/// the vertex of its cluster.
pub open spec fn clustered<B: Fn(Point, Point) -> bool, N: Fn(Point, Point) -> bool>(
    behind: B,
    near: N,
    pieces: Seq<Piece>,
    j: Joining,
) -> bool {
    let points = ends(pieces);
    let n = points.len() as int;
    &&& j.verts == cutting::sweep(behind, near, cutting::swept(points), n).verts
    &&& j.of_point.len() == n
    &&& forall|k: int|
        0 <= k < n ==> j.of_point[#[trigger] cutting::ordered(cutting::point_keys(points), n)[k] as int]
            == cutting::vertex_of(behind, near, cutting::swept(points), k)
}

/// Piece `k` with its ends on their vertices.
pub open spec fn moved(pieces: Seq<Piece>, j: Joining, k: int) -> Segment {
    pieces[k].0.moved(
        j.verts[j.of_point[2 * k] as int],
        j.verts[j.of_point[2 * k + 1] as int],
    )
}

/// Whether `tiny` says which pieces have collapsed once snapped.
pub open spec fn collapses<C: Fn(Segment) -> bool>(
    collapsed: C,
    pieces: Seq<Piece>,
    j: Joining,
) -> bool {
    &&& j.tiny.len() == pieces.len()
    &&& forall|k: int|
        0 <= k < pieces.len() ==> call_ensures(
            collapsed,
            (moved(pieces, j, k),),
            #[trigger] j.tiny[k],
        )
}

/// Whether `shapes` are those of edges.
pub open spec fn shaped<H: Fn(Segment) -> Vec<Real>>(
    shape: H,
    edges: Seq<Edge>,
    shapes: Seq<Seq<Real>>,
) -> bool {
    &&& shapes.len() == edges.len()
    &&& forall|k: int| 0 <= k < edges.len() ==> is_shape(shape, edges[k].seg, #[trigger] shapes[k])
}

/// Whether a shape is that of a segment.
pub open spec fn is_shape<H: Fn(Segment) -> Vec<Real>>(shape: H, s: Segment, r: Seq<Real>) -> bool {
    exists|v: Vec<Real>| #[trigger] call_ensures(shape, (s,), v) && r == v@
}

/// The edges before merging.
pub open spec fn raw_edges(pieces: Seq<Piece>, j: Joining) -> Seq<Edge> {
    boolean::snapped(pieces, j.of_point, j.verts, j.tiny, pieces.len() as int)
}

/// The edges after merging.
pub open spec fn merged_edges<S: Fn(Segment, Segment) -> bool, W: Fn(Segment, Segment) -> bool>(
    same_arc: S,
    same_way: W,
    pieces: Seq<Piece>,
    j: Joining,
) -> Seq<Edge> {
    let raw = raw_edges(pieces, j);
    let order = cutting::edge_order(raw, j.raw, false);
    cutting::merged(same_arc, same_way, raw, order, order.len() as int).kept
}

/// Edges in an order.
pub open spec fn arranged(edges: Seq<Edge>, order: Seq<usize>) -> Seq<Edge> {
    Seq::new(order.len(), |i: int| edges[order[i] as int])
}

/// The shapes of edges.
fn shapes_of<H: Fn(Segment) -> Vec<Real>>(edges: &Vec<Edge>, shape: &H) -> (r: Vec<Vec<Real>>)
    requires
        forall|s: Segment| call_requires(shape, (s,)),
    ensures
        shaped(*shape, edges@, cutting::shape_views(r@)),
{
    let mut r: Vec<Vec<Real>> = Vec::new();
    let mut i: usize = 0;
    while i < edges.len()
        invariant
            i <= edges@.len(),
            r@.len() == i,
            forall|s: Segment| call_requires(shape, (s,)),
            forall|k: int| 0 <= k < i ==> is_shape(*shape, edges@[k].seg, (#[trigger] r@[k])@),
        decreases edges.len() - i,
    {
        let v = shape(edges[i].seg);
        assert(is_shape(*shape, edges@[i as int].seg, v@));
        r.push(v);
        i += 1;
    }
    proof {
        let views = cutting::shape_views(r@);
        assert forall|k: int| 0 <= k < edges@.len() implies is_shape(
            *shape,
            edges@[k].seg,
            #[trigger] views[k],
        ) by {
            assert(is_shape(*shape, edges@[k].seg, r@[k]@));
        }
    }
    r
}

/// Reordering edges leaves their weight.
proof fn lemma_arranged_weight(edges: Seq<Edge>, order: Seq<usize>, used: Seq<bool>, n: int)
    requires
        cutting::is_order(order, edges.len() as int),
        0 <= n <= order.len(),
        used.len() == edges.len(),
        forall|e: int|
            0 <= e < edges.len() ==> (#[trigger] used[e] <==> exists|k: int|
                0 <= k < n && #[trigger] order[k] == e),
    ensures
        ({
            let a = boolean::winds_of(arranged(edges, order));
            let all = Seq::new(a.len(), |i: int| true);
            winding::marked(a, all, n) == winding::marked(
                boolean::winds_of(edges),
                used,
                edges.len() as int,
            )
        }),
    decreases n,
{
    let winds = boolean::winds_of(edges);
    let a = boolean::winds_of(arranged(edges, order));
    let all = Seq::new(a.len(), |i: int| true);
    if n == 0 {
        lemma_unmarked(winds, used, edges.len() as int);
    } else {
        let e = order[n - 1] as int;
        assert(order[n - 1] < edges.len());
        let before = used.update(e, false);
        assert forall|f: int| 0 <= f < edges.len() implies (#[trigger] before[f] <==> exists|k: int|
            0 <= k < n - 1 && #[trigger] order[k] == f) by {
            if f == e {
                assert forall|k: int| 0 <= k < n - 1 implies #[trigger] order[k] != f by {
                    assert(order[k] != order[n - 1]);
                }
            } else {
                assert(before[f] == used[f]);
                if used[f] {
                    let k = choose|k: int| 0 <= k < n && #[trigger] order[k] == f;
                    assert(k != n - 1);
                }
            }
        }
        lemma_arranged_weight(edges, order, before, n - 1);
        assert(used[e]);
        assert(before.update(e, true) =~= used);
        winding::lemma_marked_more(winds, before, e, edges.len() as int);
        assert(a[n - 1] == winds[e]);
    }
}

proof fn lemma_unmarked(winds: Seq<(i32, i32)>, used: Seq<bool>, n: int)
    requires
        0 <= n <= used.len(),
        forall|e: int| 0 <= e < used.len() ==> !#[trigger] used[e],
    ensures
        winding::marked(winds, used, n) == (0nat, 0nat),
    decreases n,
{
    if n > 0 {
        lemma_unmarked(winds, used, n - 1);
    }
}

/// The edges of snapped pieces: at most one per piece, each adding one to one
/// winding number.
proof fn lemma_snapped(
    pieces: Seq<Piece>,
    of_point: Seq<usize>,
    verts: Seq<Point>,
    tiny: Seq<bool>,
    n: int,
)
    requires
        0 <= n,
    ensures
        boolean::snapped(pieces, of_point, verts, tiny, n).len() <= n,
        cutting::single(boolean::snapped(pieces, of_point, verts, tiny, n)),
    decreases n,
{
    if n > 0 {
        lemma_snapped(pieces, of_point, verts, tiny, n - 1);
    }
}

/// What joining pieces gives.
pub open spec fn joins<
    B: Fn(Point, Point) -> bool,
    N: Fn(Point, Point) -> bool,
    C: Fn(Segment) -> bool,
    H: Fn(Segment) -> Vec<Real>,
    S: Fn(Segment, Segment) -> bool,
    W: Fn(Segment, Segment) -> bool,
>(
    behind: B,
    near: N,
    collapsed: C,
    shape: H,
    same_arc: S,
    same_way: W,
    pieces: Seq<Piece>,
    j: Joining,
) -> bool {
    &&& clustered(behind, near, pieces, j)
    &&& collapses(collapsed, pieces, j)
    &&& shaped(shape, raw_edges(pieces, j), j.raw)
    &&& shaped(shape, merged_edges(same_arc, same_way, pieces, j), j.shapes)
}

/// Joins pieces into the edges of an arrangement: their ends are snapped to one
/// vertex per cluster, pieces that have collapsed are dropped, and pieces that
/// trace one arc are merged.
///
/// `behind` and `near` are the tolerances of the clusters, `collapsed` says of a
/// snapped piece whether it has no extent, `shape` gives the numbers that order
/// edges over the same vertices, and `same_arc` and `same_way` compare them. The
/// edges come in an order that does not depend on which input was first.
pub fn join_pieces<
    B: Fn(Point, Point) -> bool,
    N: Fn(Point, Point) -> bool,
    C: Fn(Segment) -> bool,
    H: Fn(Segment) -> Vec<Real>,
    S: Fn(Segment, Segment) -> bool,
    W: Fn(Segment, Segment) -> bool,
>(
    pieces: &Vec<Piece>,
    behind: &B,
    near: &N,
    collapsed: &C,
    shape: &H,
    same_arc: &S,
    same_way: &W,
) -> (r: (Vec<Point>, Vec<Edge>))
    requires
        pieces@.len() <= 0x1fff_ffff,
        cutting::decides(*behind),
        cutting::decides(*near),
        forall|s: Segment| call_requires(collapsed, (s,)),
        forall|s: Segment| call_requires(shape, (s,)),
        cutting::compares(*same_arc),
        cutting::compares(*same_way),
    ensures
        exists|j: Joining| #[trigger]
            joins(*behind, *near, *collapsed, *shape, *same_arc, *same_way, pieces@, j) && r.0@
                == j.verts && r.1@ == arranged(
                merged_edges(*same_arc, *same_way, pieces@, j),
                cutting::edge_order(
                    merged_edges(*same_arc, *same_way, pieces@, j),
                    j.shapes,
                    true,
                ),
            ),
        r.1@.len() <= pieces@.len(),
        forall|e: int|
            0 <= e < r.1@.len() ==> (#[trigger] r.1@[e]).v0 < r.0@.len() && r.1@[e].v1
                < r.0@.len(),
        winding::weight(boolean::winds_of(r.1@)).0 <= pieces@.len(),
        winding::weight(boolean::winds_of(r.1@)).1 <= pieces@.len(),
{
    let n: usize = pieces.len();
    let mut points: Vec<Point> = Vec::new();
    let mut i: usize = 0;
    while i < n
        invariant
            i <= n == pieces@.len() <= 0x1fff_ffff,
            points@.len() == 2 * i,
            forall|k: int| 0 <= k < 2 * i ==> (#[trigger] points@[k]) == ends(pieces@)[k],
        decreases n - i,
    {
        points.push(pieces[i].0.start());
        points.push(pieces[i].0.end());
        i += 1;
    }
    assert(points@ =~= ends(pieces@));
    let (verts, of_point) = cluster(&points, behind, near);
    let mut tiny: Vec<bool> = Vec::new();
    let ghost mut j = Joining {
        verts: verts@,
        of_point: of_point@,
        tiny: Seq::empty(),
        raw: Seq::empty(),
        shapes: Seq::empty(),
    };
    i = 0;
    while i < n
        invariant
            i <= n == pieces@.len() <= 0x1fff_ffff,
            j.verts == verts@,
            j.of_point == of_point@,
            of_point@.len() == 2 * n,
            forall|k: int| 0 <= k < of_point@.len() ==> (#[trigger] of_point@[k]) < verts@.len(),
            tiny@.len() == i,
            forall|s: Segment| call_requires(collapsed, (s,)),
            forall|k: int|
                0 <= k < i ==> call_ensures(
                    collapsed,
                    (moved(pieces@, j, k),),
                    #[trigger] tiny@[k],
                ),
        decreases n - i,
    {
        let a: usize = of_point[2 * i];
        let b: usize = of_point[2 * i + 1];
        let s = pieces[i].0.with_ends(verts[a], verts[b]);
        tiny.push(collapsed(s));
        i += 1;
    }
    let edges = snap(pieces, &of_point, &verts, &tiny);
    proof {
        j.tiny = tiny@;
        lemma_snapped(pieces@, of_point@, verts@, tiny@, n as int);
        assert(edges@ == raw_edges(pieces@, j));
    }
    let raw = shapes_of(&edges, shape);
    let order = sort_edges(&edges, &raw, false);
    let merged = merge_duplicates(&edges, &order, same_arc, same_way);
    proof {
        cutting::lemma_kept_ends(
            *same_arc,
            *same_way,
            edges@,
            order@,
            verts@.len() as int,
            order@.len() as int,
        );
        j.raw = cutting::shape_views(raw@);
        assert(edges@ == raw_edges(pieces@, j));
        assert(merged@ == merged_edges(*same_arc, *same_way, pieces@, j));
    }
    let shapes = shapes_of(&merged, shape);
    let last = sort_edges(&merged, &shapes, true);
    let mut out: Vec<Edge> = Vec::new();
    let m: usize = last.len();
    i = 0;
    while i < m
        invariant
            i <= m == last@.len() == merged@.len(),
            cutting::is_order(last@, m as int),
            out@.len() == i,
            forall|k: int| 0 <= k < i ==> (#[trigger] out@[k]) == merged@[last@[k] as int],
        decreases m - i,
    {
        let at: usize = last[i];
        out.push(merged[at]);
        i += 1;
    }
    proof {
        j.shapes = cutting::shape_views(shapes@);
        assert(edges@ == raw_edges(pieces@, j));
        assert(merged@ == merged_edges(*same_arc, *same_way, pieces@, j));
        assert(clustered(*behind, *near, pieces@, j));
        assert forall|k: int| 0 <= k < pieces@.len() implies call_ensures(
            collapsed,
            (moved(pieces@, j, k),),
            #[trigger] j.tiny[k],
        ) by {
            assert(j.tiny[k] == tiny@[k]);
        }
        assert(joins(*behind, *near, *collapsed, *shape, *same_arc, *same_way, pieces@, j));
        assert(out@ =~= arranged(merged@, last@));
        assert forall|e: int| 0 <= e < out@.len() implies (#[trigger] out@[e]).v0 < verts@.len()
            && out@[e].v1 < verts@.len() by {
            assert(last@[e] < merged@.len());
            assert(merged@[last@[e] as int].v0 < verts@.len());
        }
        let used = Seq::new(
            merged@.len(),
            |e: int| exists|k: int| 0 <= k < m && #[trigger] last@[k] == e,
        );
        lemma_arranged_weight(merged@, last@, used, m as int);
        winding::lemma_marked_bound(boolean::winds_of(merged@), used, m as int);
    }
    (verts, out)
}

/// Every segment of either input goes in, tagged with the input that it is of.
pub proof fn inputs_are_tagged(first: Seq<Segment>, second: Seq<Segment>, k: int)
    ensures
        inputs(first, second).len() == first.len() + second.len(),
        0 <= k < first.len() ==> inputs(first, second)[k] == (first[k], false),
        0 <= k < second.len() ==> inputs(first, second)[first.len() + k] == (second[k], true),
{
}

/// The parts of a segment belong to the input that the segment is of.
pub proof fn parts_belong_to_their_input(
    segs: Seq<Piece>,
    parts: Seq<Seq<Segment>>,
    n: int,
    i: int,
    k: int,
)
    requires
        0 <= i < n <= segs.len(),
        segs.len() == parts.len(),
        0 <= k < parts[i].len(),
    ensures
        all_parts(segs, parts, n).contains((parts[i][k], segs[i].1)),
    decreases n,
{
    let now = all_parts(segs, parts, n);
    let before = all_parts(segs, parts, n - 1);
    if i < n - 1 {
        parts_belong_to_their_input(segs, parts, n - 1, i, k);
        let m = choose|m: int| 0 <= m < before.len() && before[m] == (parts[i][k], segs[i].1);
        assert(now[m] == before[m]);
    } else {
        assert(now[before.len() + k] == (parts[i][k], segs[i].1));
    }
}

/// Both ends of every piece are vertices: the ends are numbered two by two.
pub proof fn ends_are_numbered_two_by_two(pieces: Seq<Piece>, k: int)
    requires
        0 <= k < pieces.len(),
    ensures
        ends(pieces).len() == 2 * pieces.len(),
        ends(pieces)[2 * k] == pieces[k].0.first(),
        ends(pieces)[2 * k + 1] == pieces[k].0.last(),
{
}

} // verus!
