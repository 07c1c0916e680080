//! Boolean operations: union, intersect, subtract and divide.
//!
//! The two paths are cut where they meet into edges that meet only at their
//! ends, over one vertex set. From there on nothing compares coordinates to
//! decide whether two things are the same thing: half-edges are ordered around
//! each vertex and walked into face cycles, every face is given the winding
//! numbers of both inputs, and a result is the boundary of the faces the
//! operation keeps.

use vstd::prelude::*;
use crate::geom::Point;
use crate::geom::Real;
use crate::geom::Rect;
use crate::path::border;
use crate::path::halfedge;
use crate::path::outline::Path;
use crate::path::outline::PathEl;
use crate::path::outline::Segment;
use crate::path::winding;
use crate::path::winding::Ballot;
use crate::path::winding::Pieces;

verus! {

/// Which points a path encloses.
#[derive(Clone, Copy, Debug, PartialEq, Eq, Structural)]
pub enum FillRule {
    /// Filled where the winding number is not zero.
    NonZero,
    /// Filled where the winding number is odd.
    EvenOdd,
}

impl FillRule {
    /// Whether this rule fills a region of winding number `w`.
    pub open spec fn holds(self, w: int) -> bool {
        match self {
            FillRule::NonZero => w != 0,
            FillRule::EvenOdd => w % 2 != 0,
        }
    }

    /// Whether this rule fills a region of winding number `w`.
    pub fn fills(self, w: i32) -> (r: bool)
        ensures
            r == self.holds(w as int),
    {
        match self {
            FillRule::NonZero => w != 0,
            FillRule::EvenOdd => {
                assert((w & 1 != 0) == (w as int % 2 != 0)) by {
                    lemma_low_bit(w);
                }
                w & 1 != 0
            },
        }
    }
}

proof fn lemma_low_bit(w: i32)
    ensures
        (w & 1 != 0) == (w as int % 2 != 0),
{
    assert((w & 1 != 0) == (w % 2 != 0)) by (bit_vector);
}

/// The four boolean operations.
#[derive(Clone, Copy, Debug, PartialEq, Eq, Structural)]
pub enum BoolOp {
    /// Everything either path fills.
    Union,
    /// Everything both paths fill.
    Intersect,
    /// Everything the first path fills and the second does not.
    Subtract,
    /// The three regions (first only, both, second only) as separate paths.
    Divide,
}

/// One edge of the arrangement: a piece of an input segment that meets other
/// edges only at its two ends.
#[derive(Clone, Copy, Debug, PartialEq, Eq)]
pub struct Edge {
    pub seg: Segment,
    pub v0: usize,
    pub v1: usize,
    /// What crossing this edge from its right side to its left does to the
    /// winding number of each input path.
    ///
    /// Normally one of the two is 1 or -1, but an edge two inputs share carries
    /// both, and an edge a path traverses twice carries two.
    pub wind: (i32, i32),
}

/// Two paths split at their intersections into non-crossing edges, with the
/// faces those edges bound.
///
/// The arrangement is what the boolean operations are selected from, and it is
/// built once whatever the operation: [`apply`](Self::apply) may be called
/// repeatedly on one arrangement.
pub struct Arrangement {
    verts: Vec<Point>,
    edges: Vec<Edge>,
    next: Vec<usize>,
    face_of: Vec<usize>,
    faces: Vec<Vec<usize>>,
    pieces: Pieces,
    wind: Vec<(i32, i32)>,
}

/// The vertices edges run between.
pub open spec fn ends_of(edges: Seq<Edge>) -> Seq<(usize, usize)> {
    Seq::new(edges.len(), |i: int| (edges[i].v0, edges[i].v1))
}

/// What edges contribute.
pub open spec fn winds_of(edges: Seq<Edge>) -> Seq<(i32, i32)> {
    Seq::new(edges.len(), |i: int| edges[i].wind)
}

/// The segment half-edge `h` runs along, in its own direction.
pub open spec fn along(edges: Seq<Edge>, h: int) -> Segment {
    if h % 2 == 0 {
        edges[h / 2].seg
    } else {
        edges[h / 2].seg.backwards()
    }
}

/// The vertex half-edge `h` leaves.
pub open spec fn leaving(edges: Seq<Edge>, h: int) -> int {
    if h % 2 == 0 {
        edges[h / 2].v0 as int
    } else {
        edges[h / 2].v1 as int
    }
}

/// What a face of winding numbers `w` is, under the rules of the two inputs.
pub open spec fn inside(rules: (FillRule, FillRule), w: (i32, i32)) -> (bool, bool) {
    (rules.0.holds(w.0 as int), rules.1.holds(w.1 as int))
}

/// How many regions an operation gives.
pub open spec fn regions(op: BoolOp) -> int {
    if op is Divide {
        3
    } else {
        1
    }
}

/// Whether region `k` of an operation holds what is inside the first and the
/// second input as given.
pub open spec fn selects(op: BoolOp, k: int, at: (bool, bool)) -> bool {
    match op {
        BoolOp::Union => at.0 || at.1,
        BoolOp::Intersect => at.0 && at.1,
        BoolOp::Subtract => at.0 && !at.1,
        BoolOp::Divide => if k == 0 {
            at.0 && !at.1
        } else if k == 1 {
            at.0 && at.1
        } else {
            !at.0 && at.1
        },
    }
}

/// The faces region `k` of an operation keeps.
pub open spec fn kept(
    wind: Seq<(i32, i32)>,
    op: BoolOp,
    k: int,
    rules: (FillRule, FillRule),
) -> Seq<bool> {
    Seq::new(wind.len(), |f: int| selects(op, k, inside(rules, wind[f])))
}

/// What the faces among the first `n` that are kept measure together, where
/// face `f` measures `size(f)`.
pub open spec fn measured(keep: Seq<bool>, size: spec_fn(int) -> int, n: int) -> int
    decreases n,
{
    if n <= 0 {
        0
    } else if keep[n - 1] {
        measured(keep, size, n - 1) + size(n - 1)
    } else {
        measured(keep, size, n - 1)
    }
}

/// The faces that are inside the first input, or the second.
pub open spec fn filled_by(wind: Seq<(i32, i32)>, rules: (FillRule, FillRule), second: bool) -> Seq<
    bool,
> {
    Seq::new(
        wind.len(),
        |f: int|
            if second {
                inside(rules, wind[f]).1
            } else {
                inside(rules, wind[f]).0
            },
    )
}

/// Area is conserved: a union and an intersection together measure what the two
/// inputs do, a union measures the parts that a division gives, and a
/// subtraction leaves what the intersection takes.
pub proof fn area_is_conserved(
    wind: Seq<(i32, i32)>,
    rules: (FillRule, FillRule),
    size: spec_fn(int) -> int,
    n: int,
)
    requires
        0 <= n <= wind.len(),
    ensures
        measured(kept(wind, BoolOp::Union, 0, rules), size, n) + measured(
            kept(wind, BoolOp::Intersect, 0, rules),
            size,
            n,
        ) == measured(filled_by(wind, rules, false), size, n) + measured(
            filled_by(wind, rules, true),
            size,
            n,
        ),
        measured(kept(wind, BoolOp::Union, 0, rules), size, n) == measured(
            kept(wind, BoolOp::Divide, 0, rules),
            size,
            n,
        ) + measured(kept(wind, BoolOp::Divide, 1, rules), size, n) + measured(
            kept(wind, BoolOp::Divide, 2, rules),
            size,
            n,
        ),
        measured(kept(wind, BoolOp::Subtract, 0, rules), size, n) + measured(
            kept(wind, BoolOp::Intersect, 0, rules),
            size,
            n,
        ) == measured(filled_by(wind, rules, false), size, n),
    decreases n,
{
    if n > 0 {
        area_is_conserved(wind, rules, size, n - 1);
    }
}

/// The winding numbers with the two inputs exchanged.
pub open spec fn exchanged(wind: Seq<(i32, i32)>) -> Seq<(i32, i32)> {
    Seq::new(wind.len(), |f: int| (wind[f].1, wind[f].0))
}

/// A union and an intersection keep the same faces whichever input comes first,
/// and a division gives the same parts in the opposite order.
pub proof fn the_order_of_the_inputs_does_not_matter(
    wind: Seq<(i32, i32)>,
    rules: (FillRule, FillRule),
)
    ensures
        kept(exchanged(wind), BoolOp::Union, 0, (rules.1, rules.0)) == kept(
            wind,
            BoolOp::Union,
            0,
            rules,
        ),
        kept(exchanged(wind), BoolOp::Intersect, 0, (rules.1, rules.0)) == kept(
            wind,
            BoolOp::Intersect,
            0,
            rules,
        ),
        forall|k: int|
            0 <= k < 3 ==> #[trigger] kept(
                exchanged(wind),
                BoolOp::Divide,
                k,
                (rules.1, rules.0),
            ) == kept(wind, BoolOp::Divide, 2 - k, rules),
{
    assert forall|k: int| 0 <= k < 3 implies #[trigger] kept(
        exchanged(wind),
        BoolOp::Divide,
        k,
        (rules.1, rules.0),
    ) == kept(wind, BoolOp::Divide, 2 - k, rules) by {
        assert(kept(exchanged(wind), BoolOp::Divide, k, (rules.1, rules.0)) =~= kept(
            wind,
            BoolOp::Divide,
            2 - k,
            rules,
        ));
    }
}

/// The elements that draw the half-edges of a loop, the first `n`.
pub open spec fn loop_elements(edges: Seq<Edge>, c: Seq<usize>, n: int) -> Seq<PathEl>
    decreases n,
{
    if n <= 0 {
        Seq::empty()
    } else {
        loop_elements(edges, c, n - 1).push(along(edges, c[n - 1] as int).drawn())
    }
}

/// The closed subpath a loop of half-edges draws.
pub open spec fn loop_path(verts: Seq<Point>, edges: Seq<Edge>, c: Seq<usize>) -> Seq<PathEl> {
    seq![PathEl::MoveTo(verts[leaving(edges, c[0] as int)])] + loop_elements(
        edges,
        c,
        c.len() as int,
    ) + seq![PathEl::ClosePath]
}

/// The path the first `n` loops draw.
pub open spec fn loops_path(
    verts: Seq<Point>,
    edges: Seq<Edge>,
    loops: Seq<Seq<usize>>,
    n: int,
) -> Seq<PathEl>
    decreases n,
{
    if n <= 0 {
        Seq::empty()
    } else {
        loops_path(verts, edges, loops, n - 1) + loop_path(verts, edges, loops[n - 1])
    }
}

/// The paths among `all` that are not empty, in order.
pub open spec fn nonempty(all: Seq<Seq<PathEl>>) -> Seq<Seq<PathEl>>
    decreases all.len(),
{
    if all.len() == 0 {
        Seq::empty()
    } else if all.last().len() == 0 {
        nonempty(all.drop_last())
    } else {
        nonempty(all.drop_last()).push(all.last())
    }
}

/// Paths as element sequences.
pub open spec fn paths_view(paths: Seq<Path>) -> Seq<Seq<PathEl>> {
    Seq::new(paths.len(), |i: int| paths[i]@)
}

impl Arrangement {
    pub closed spec fn points(self) -> Seq<Point> {
        self.verts@
    }

    pub closed spec fn all_edges(self) -> Seq<Edge> {
        self.edges@
    }

    pub closed spec fn follower(self) -> Seq<usize> {
        self.next@
    }

    pub closed spec fn side(self) -> Seq<usize> {
        self.face_of@
    }

    pub closed spec fn cycles(self) -> Seq<Vec<usize>> {
        self.faces@
    }

    pub closed spec fn parts(self) -> Pieces {
        self.pieces
    }

    pub closed spec fn winds(self) -> Seq<(i32, i32)> {
        self.wind@
    }

    /// What holds of every arrangement.
    pub open spec fn wf(self) -> bool {
        let n = self.follower().len();
        &&& n == 2 * self.all_edges().len()
        &&& n < usize::MAX
        &&& forall|e: int|
            0 <= e < self.all_edges().len() ==> (#[trigger] self.all_edges()[e]).v0
                < self.points().len() && self.all_edges()[e].v1 < self.points().len()
        &&& halfedge::permutes(self.follower(), n as int)
        &&& halfedge::are_faces(self.follower(), self.side(), self.cycles())
        &&& winding::are_pieces(
            self.side(),
            winds_of(self.all_edges()),
            self.cycles().len() as int,
            self.parts(),
        )
        &&& forall|f: int|
            0 <= f < self.parts().offset@.len() ==> winding::moderate(
                #[trigger] self.parts().offset@[f],
            )
    }

    /// Whether the faces have been given winding numbers.
    pub open spec fn classified(self) -> bool {
        self.winds().len() == self.cycles().len()
    }

    /// Whether `els` draws the boundary of the kept faces.
    pub open spec fn traces(self, keep: Seq<bool>, els: Seq<PathEl>) -> bool {
        exists|loops: Seq<Seq<usize>>| #[trigger]
            border::are_loops(self.follower(), self.side(), keep, loops) && els == loops_path(
                self.points(),
                self.all_edges(),
                loops,
                loops.len() as int,
            )
    }

    /// The arrangement of edges that meet only at their ends. `keys` orders the
    /// half-edges around their origins, counter-clockwise: half-edge `2 * e`
    /// runs along edge `e`, half-edge `2 * e + 1` against it.
    pub fn linked(verts: Vec<Point>, edges: Vec<Edge>, keys: &Vec<(Real, Real)>) -> (a: Arrangement)
        requires
            2 * edges@.len() < usize::MAX,
            keys@.len() == 2 * edges@.len(),
            halfedge::ordered(keys@),
            forall|e: int|
                0 <= e < edges@.len() ==> (#[trigger] edges@[e]).v0 < verts@.len() && edges@[e].v1
                    < verts@.len(),
            winding::weight(winds_of(edges@)).0 <= 0x1fff_ffff,
            winding::weight(winds_of(edges@)).1 <= 0x1fff_ffff,
        ensures
            a.wf(),
            a.points() == verts@,
            a.all_edges() == edges@,
            a.winds().len() == 0,
            halfedge::follows(halfedge::graph(ends_of(edges@), keys@), a.follower()),
    {
        let mut ends: Vec<(usize, usize)> = Vec::new();
        let mut winds: Vec<(i32, i32)> = Vec::new();
        let n: usize = edges.len();
        let mut i: usize = 0;
        while i < n
            invariant
                i <= n == edges@.len(),
                ends@.len() == i,
                winds@.len() == i,
                forall|k: int| 0 <= k < i ==> (#[trigger] ends@[k]) == (edges@[k].v0, edges@[k].v1),
                forall|k: int| 0 <= k < i ==> (#[trigger] winds@[k]) == edges@[k].wind,
            decreases n - i,
        {
            ends.push((edges[i].v0, edges[i].v1));
            winds.push(edges[i].wind);
            i += 1;
        }
        proof {
            assert(ends@ =~= ends_of(edges@));
            assert(winds@ =~= winds_of(edges@));
            let g = halfedge::graph(ends@, keys@);
            assert forall|e: int| 0 <= e < g.ends.len() implies 0 <= (#[trigger] g.ends[e]).0
                < verts@.len() && 0 <= g.ends[e].1 < verts@.len() by {
                assert(edges@[e].v0 < verts@.len());
            }
        }
        let links = halfedge::link(&ends, keys, verts.len());
        proof {
            border::faces_are_linked(links.next@, links.face_of@, links.faces@);
        }
        let total: usize = links.faces.len();
        proof {
            lemma_face_count(links.next@, links.face_of@, links.faces@);
        }
        let pieces = winding::pieces(&links.face_of, &winds, total);
        Arrangement {
            verts,
            edges,
            next: links.next,
            face_of: links.face_of,
            faces: links.faces,
            pieces,
            wind: Vec::new(),
        }
    }

    /// The vertices: every point where edges meet, deduplicated.
    pub fn vertices(&self) -> (v: &[Point])
        ensures
            v@ == self.points(),
    {
        self.verts.as_slice()
    }

    /// How many edges the arrangement has.
    pub fn edge_count(&self) -> (n: usize)
        ensures
            n == self.all_edges().len(),
    {
        self.edges.len()
    }

    /// One of the edges.
    pub fn edge(&self, e: usize) -> (r: Edge)
        requires
            e < self.all_edges().len(),
        ensures
            r == self.all_edges()[e as int],
    {
        self.edges[e]
    }

    /// How many face cycles the arrangement has.
    ///
    /// A cycle, not a region: a region with a hole in it is bounded by more
    /// than one cycle and is counted once per cycle.
    pub fn face_count(&self) -> (n: usize)
        ensures
            n == self.cycles().len(),
    {
        self.faces.len()
    }

    /// The half-edges of a face, in order.
    pub fn face(&self, face: usize) -> (c: &[usize])
        requires
            face < self.cycles().len(),
        ensures
            c@ == self.cycles()[face as int]@,
    {
        self.faces[face].as_slice()
    }

    /// The segment half-edge `h` runs along, in its own direction.
    pub fn half_edge(&self, h: usize) -> (s: Segment)
        requires
            h < 2 * self.all_edges().len(),
        ensures
            s == along(self.all_edges(), h as int),
    {
        let e = self.edges[h / 2];
        if h % 2 == 0 {
            e.seg
        } else {
            e.seg.reverse()
        }
    }

    /// The winding numbers of the two input paths at every point of `face`.
    pub fn face_winding(&self, face: usize) -> (w: [i32; 2])
        requires
            face < self.winds().len(),
        ensures
            w@ == seq![self.winds()[face as int].0, self.winds()[face as int].1],
    {
        let w = self.wind[face];
        let r: [i32; 2] = [w.0, w.1];
        assert(r@ =~= seq![w.0, w.1]);
        r
    }

    /// The vertex a half-edge leaves.
    fn origin(&self, h: usize) -> (v: usize)
        requires
            h < 2 * self.all_edges().len(),
        ensures
            v == leaving(self.all_edges(), h as int),
    {
        let e = self.edges[h / 2];
        if h % 2 == 0 {
            e.v0
        } else {
            e.v1
        }
    }

    /// The votes of the sampled faces, grouped by piece and by what they say of
    /// the piece's first face. `samples` holds the winding numbers found at a
    /// point inside each face, for the faces that have a point to trust.
    pub fn ballots(&self, samples: &Vec<Option<(i32, i32)>>) -> (votes: Vec<Vec<Ballot>>)
        requires
            self.wf(),
            samples@.len() == self.cycles().len(),
            forall|f: int|
                0 <= f < samples@.len() ==> ((#[trigger] samples@[f]) matches Some(w)
                    ==> winding::moderate(w)),
        ensures
            votes@.len() == self.parts().roots@.len(),
            forall|c: int|
                0 <= c < votes@.len() ==> winding::ballots_view((#[trigger] votes@[c])@)
                    == winding::tally(self.parts(), samples@, c, samples@.len() as int),
    {
        proof {
            self.lemma_piece_range();
        }
        winding::ballots(&self.pieces, samples)
    }

    proof fn lemma_piece_range(self)
        requires
            self.wf(),
        ensures
            forall|f: int|
                0 <= f < self.pieces.piece_of@.len() ==> (#[trigger] self.pieces.piece_of@[f])
                    < self.pieces.roots@.len(),
    {
        assert forall|f: int| 0 <= f < self.pieces.piece_of@.len() implies (
        #[trigger] self.pieces.piece_of@[f]) < self.pieces.roots@.len() by {
            assert(winding::reached(
                self.side(),
                winds_of(self.all_edges()),
                self.parts().piece_of@,
                self.parts().offset@,
                self.parts().roots@,
                f,
            ));
        }
    }

    /// Gives every face its winding numbers: those elected for its piece plus
    /// its own offset. `candidates` holds, for each piece, what its ballots say
    /// and the clearance behind each.
    pub fn classify(&mut self, candidates: &Vec<Vec<((i32, i32), Real)>>)
        requires
            old(self).wf(),
            candidates@.len() == old(self).parts().roots@.len(),
            forall|c: int, i: int|
                0 <= c < candidates@.len() && 0 <= i < candidates@[c]@.len() ==> -0x3fff_fffe <= (
                #[trigger] candidates@[c]@[i]).0.0 <= 0x3fff_fffe && -0x3fff_fffe
                    <= candidates@[c]@[i].0.1 <= 0x3fff_fffe,
        ensures
            final(self).wf(),
            final(self).classified(),
            final(self).points() == old(self).points(),
            final(self).all_edges() == old(self).all_edges(),
            final(self).follower() == old(self).follower(),
            final(self).side() == old(self).side(),
            final(self).cycles() == old(self).cycles(),
            final(self).parts() == old(self).parts(),
            forall|f: int|
                0 <= f < final(self).winds().len() ==> {
                    let p = old(self).parts();
                    let base = elected(candidates@[p.piece_of@[f] as int]@);
                    &&& (#[trigger] final(self).winds()[f]).0 == base.0 + p.offset@[f].0
                    &&& final(self).winds()[f].1 == base.1 + p.offset@[f].1
                },
    {
        proof {
            self.lemma_piece_range();
        }
        let n: usize = candidates.len();
        let mut bases: Vec<(i32, i32)> = Vec::new();
        let mut c: usize = 0;
        while c < n
            invariant
                c <= n == candidates@.len(),
                bases@.len() == c,
                forall|c: int, i: int|
                    0 <= c < candidates@.len() && 0 <= i < candidates@[c]@.len() ==> -0x3fff_fffe
                        <= (#[trigger] candidates@[c]@[i]).0.0 <= 0x3fff_fffe && -0x3fff_fffe
                        <= candidates@[c]@[i].0.1 <= 0x3fff_fffe,
                forall|k: int|
                    0 <= k < c ==> (#[trigger] bases@[k]) == elected(candidates@[k]@) && -0x3fff_fffe
                        <= bases@[k].0 <= 0x3fff_fffe && -0x3fff_fffe <= bases@[k].1
                        <= 0x3fff_fffe,
            decreases n - c,
        {
            let base = winding::elect(&candidates[c]);
            proof {
                lemma_leader_is_listed(candidates@[c as int]@, candidates@[c as int]@.len() as int);
            }
            bases.push(base);
            c += 1;
        }
        let w = winding::windings(&self.pieces, &bases);
        self.wind = w;
    }

    /// Appends the closed subpath a loop of half-edges draws.
    fn push_loop(&self, path: &mut Path, c: &Vec<usize>)
        requires
            self.wf(),
            c@.len() > 0,
            forall|i: int| 0 <= i < c@.len() ==> (#[trigger] c@[i]) < 2 * self.all_edges().len(),
        ensures
            final(path)@ == old(path)@ + loop_path(self.points(), self.all_edges(), c@),
    {
        let ghost before = path@;
        let first: usize = c[0];
        let v: usize = self.origin(first);
        assert(v < self.verts@.len()) by {
            assert(self.all_edges()[first as int / 2].v0 < self.verts@.len());
        }
        path.push(PathEl::MoveTo(self.verts[v]));
        let ghost head = seq![PathEl::MoveTo(self.verts@[v as int])];
        assert(path@ =~= before + head + loop_elements(self.edges@, c@, 0));
        let mut i: usize = 0;
        while i < c.len()
            invariant
                i <= c@.len(),
                forall|i: int|
                    0 <= i < c@.len() ==> (#[trigger] c@[i]) < 2 * self.all_edges().len(),
                path@ == before + head + loop_elements(self.edges@, c@, i as int),
            decreases c@.len() - i,
        {
            let h: usize = c[i];
            let seg = self.half_edge(h);
            path.push(seg.element());
            i += 1;
            assert(path@ =~= before + head + loop_elements(self.edges@, c@, i as int));
        }
        path.push(PathEl::ClosePath);
        assert(path@ =~= before + loop_path(self.verts@, self.edges@, c@));
    }

    /// Walks the boundary of the union of the kept faces into closed subpaths.
    fn assemble(&self, keep: &Vec<bool>) -> (path: Path)
        requires
            self.wf(),
            keep@.len() == self.cycles().len(),
        ensures
            self.traces(keep@, path@),
    {
        proof {
            border::faces_are_linked(self.next@, self.face_of@, self.faces@);
        }
        let loops = border::border_loops(&self.next, &self.face_of, keep);
        let ghost all = border::loops_view(loops@);
        let mut path = Path::new();
        let mut l: usize = 0;
        while l < loops.len()
            invariant
                l <= loops@.len(),
                self.wf(),
                all == border::loops_view(loops@),
                border::are_loops(self.next@, self.face_of@, keep@, all),
                path@ == loops_path(self.verts@, self.edges@, all, l as int),
            decreases loops@.len() - l,
        {
            let ghost c = all[l as int];
            assert(border::is_loop(self.next@, self.face_of@, keep@, c));
            assert forall|i: int| 0 <= i < c.len() implies (#[trigger] c[i]) < 2
                * self.edges@.len() by {
                assert(c[i] < self.next@.len());
            }
            self.push_loop(&mut path, &loops[l]);
            l += 1;
        }
        assert(border::are_loops(self.follower(), self.side(), keep@, all));
        path
    }

    /// The result of `op`, with each input filled by its own rule.
    ///
    /// [`Union`](BoolOp::Union), [`Intersect`](BoolOp::Intersect) and
    /// [`Subtract`](BoolOp::Subtract) return at most one path, none at all
    /// when the result is empty. [`Divide`](BoolOp::Divide) returns up to
    /// three: the part only the first path fills, the part both fill, and the
    /// part only the second fills, in that order, skipping the empty ones.
    pub fn apply(&self, op: BoolOp, rules: [FillRule; 2]) -> (r: Vec<Path>)
        requires
            self.wf(),
            self.classified(),
        ensures
            exists|all: Seq<Seq<PathEl>>| #[trigger]
                self.results(op, (rules@[0], rules@[1]), all) && paths_view(r@) == nonempty(all),
    {
        let rules: (FillRule, FillRule) = (rules[0], rules[1]);
        let total: usize = match op {
            BoolOp::Divide => 3,
            _ => 1,
        };
        let mut r: Vec<Path> = Vec::new();
        let ghost mut all: Seq<Seq<PathEl>> = Seq::empty();
        let mut k: usize = 0;
        assert(paths_view(r@) =~= nonempty(all));
        while k < total
            invariant
                k <= total,
                total == regions(op),
                self.wf(),
                self.classified(),
                all.len() == k,
                forall|i: int|
                    0 <= i < k ==> self.traces(
                        kept(self.winds(), op, i, rules),
                        #[trigger] all[i],
                    ),
                paths_view(r@) == nonempty(all),
            decreases total - k,
        {
            let keep = self.keep(op, k, rules);
            let path = self.assemble(&keep);
            let ghost more = all.push(path@);
            let ghost before = paths_view(r@);
            assert(more.drop_last() =~= all);
            if path.elements().len() > 0 {
                r.push(path);
                assert(paths_view(r@) =~= before.push(path@));
            }
            proof {
                all = more;
            }
            k += 1;
        }
        assert(self.results(op, rules, all));
        r
    }

    /// The regions of an operation, empty ones among them.
    pub open spec fn results(
        self,
        op: BoolOp,
        rules: (FillRule, FillRule),
        all: Seq<Seq<PathEl>>,
    ) -> bool {
        &&& all.len() == regions(op)
        &&& forall|k: int|
            0 <= k < all.len() ==> self.traces(kept(self.winds(), op, k, rules), #[trigger] all[k])
    }

    fn keep(&self, op: BoolOp, k: usize, rules: (FillRule, FillRule)) -> (keep: Vec<bool>)
        requires
            self.wf(),
            self.classified(),
            k < regions(op),
        ensures
            keep@ == kept(self.winds(), op, k as int, rules),
    {
        let mut keep: Vec<bool> = Vec::new();
        let n: usize = self.wind.len();
        let mut f: usize = 0;
        while f < n
            invariant
                f <= n == self.wind@.len(),
                k < regions(op),
                keep@.len() == f,
                forall|i: int|
                    0 <= i < f ==> (#[trigger] keep@[i]) == selects(
                        op,
                        k as int,
                        inside(rules, self.wind@[i]),
                    ),
            decreases n - f,
        {
            let w = self.wind[f];
            let x = rules.0.fills(w.0);
            let y = rules.1.fills(w.1);
            keep.push(
                match op {
                    BoolOp::Union => x || y,
                    BoolOp::Intersect => x && y,
                    BoolOp::Subtract => x && !y,
                    BoolOp::Divide => if k == 0 {
                        x && !y
                    } else if k == 1 {
                        x && y
                    } else {
                        !x && y
                    },
                },
            );
            f += 1;
        }
        assert(keep@ =~= kept(self.winds(), op, k as int, rules));
        keep
    }
}

/// The pair a piece's candidates elect.
pub open spec fn elected(list: Seq<((i32, i32), Real)>) -> (i32, i32) {
    match winding::leader(list, list.len() as int) {
        Some((b, w)) => b,
        None => (0i32, 0i32),
    }
}

proof fn lemma_leader_is_listed(list: Seq<((i32, i32), Real)>, n: int)
    requires
        0 <= n <= list.len(),
    ensures
        winding::leader(list, n) matches Some(l) ==> exists|k: int|
            0 <= k < n && #[trigger] list[k] == l,
    decreases n,
{
    if n > 0 {
        lemma_leader_is_listed(list, n - 1);
        assert(list[n - 1] == (list[n - 1].0, list[n - 1].1));
    }
}

/// There are no more faces than half-edges.
proof fn lemma_face_count(next: Seq<usize>, face_of: Seq<usize>, faces: Seq<Vec<usize>>)
    requires
        halfedge::are_faces(next, face_of, faces),
    ensures
        faces.len() <= next.len(),
{
    if faces.len() > 0 {
        lemma_first_at_least(next, face_of, faces, faces.len() - 1);
        let f = faces.len() - 1;
        assert(halfedge::is_face(next, face_of, f, faces[f]@));
        assert(faces[f]@[0] < next.len());
    }
}

proof fn lemma_first_at_least(
    next: Seq<usize>,
    face_of: Seq<usize>,
    faces: Seq<Vec<usize>>,
    f: int,
)
    requires
        halfedge::are_faces(next, face_of, faces),
        0 <= f < faces.len(),
    ensures
        faces[f]@[0] >= f,
    decreases f,
{
    if f > 0 {
        lemma_first_at_least(next, face_of, faces, f - 1);
        assert(faces[f - 1]@[0] < faces[f]@[0]);
    }
}

/// Turning around a vertex does not leave it.
proof fn lemma_spun_stays(g: halfedge::GraphModel, next: Seq<usize>, from: int, k: nat)
    requires
        halfedge::follows(g, next),
        g.is(from),
    ensures
        g.is(border::spun(next, from, k)),
        g.origin(border::spun(next, from, k)) == g.origin(from),
    decreases k,
{
    if k > 0 {
        lemma_spun_stays(g, next, from, (k - 1) as nat);
        let p = border::spun(next, from, (k - 1) as nat);
        let t = halfedge::twin(p);
        assert(g.is(t) && halfedge::twin(t) == p);
        assert(g.clockwise(halfedge::twin(t), next[t] as int));
    }
}

/// A boundary has no gaps: each half-edge of a loop leaves the vertex at which
/// the one before it arrives, and the first leaves the one where the last
/// arrives.
pub proof fn a_loop_has_no_gaps(
    g: halfedge::GraphModel,
    next: Seq<usize>,
    face_of: Seq<usize>,
    keep: Seq<bool>,
    c: Seq<usize>,
    i: int,
)
    requires
        halfedge::follows(g, next),
        border::is_loop(next, face_of, keep, c),
        0 <= i < c.len(),
    ensures
        ({
            let after = if i < c.len() - 1 {
                c[i + 1]
            } else {
                c[0]
            };
            g.origin(after as int) == g.origin(halfedge::twin(c[i] as int))
        }),
{
    let h = c[i] as int;
    let after = if i < c.len() - 1 {
        c[i + 1]
    } else {
        c[0]
    };
    assert(c[i] < next.len());
    assert(border::goes_on(next, face_of, keep, h, after as int));
    let k = choose|k: nat| #[trigger]
        border::first_met(next, face_of, keep, next[h] as int, k, after as int);
    assert(g.clockwise(halfedge::twin(h), next[h] as int));
    lemma_spun_stays(g, next, next[h] as int, k);
}

/// A path as a region of its own: none where its box encloses nothing, since it
/// fills nothing there.
pub open spec fn region(els: Seq<PathEl>, bound: Rect) -> Seq<Seq<PathEl>> {
    if bound.encloses_nothing() {
        Seq::empty()
    } else {
        nonempty(seq![els])
    }
}

/// What is kept of two paths that cannot meet, as element sequences. `boxes`
/// are their bounding boxes.
pub open spec fn apart(
    a: Seq<PathEl>,
    b: Seq<PathEl>,
    op: BoolOp,
    boxes: (Rect, Rect),
) -> Seq<Seq<PathEl>> {
    match op {
        BoolOp::Union => if boxes.0.encloses_nothing() && boxes.1.encloses_nothing() {
            Seq::empty()
        } else {
            nonempty(seq![a + b])
        },
        BoolOp::Intersect => Seq::empty(),
        BoolOp::Subtract => region(a, boxes.0),
        BoolOp::Divide => region(a, boxes.0) + region(b, boxes.1),
    }
}

/// A path that fills nothing is no result: where both boxes enclose nothing,
/// every operation gives no path at all, and so does a subtraction from one that
/// encloses nothing.
pub proof fn nothing_fills_nothing(
    a: Seq<PathEl>,
    b: Seq<PathEl>,
    op: BoolOp,
    boxes: (Rect, Rect),
)
    requires
        boxes.0.encloses_nothing(),
        op == BoolOp::Subtract || boxes.1.encloses_nothing(),
    ensures
        apart(a, b, op, boxes).len() == 0,
{
}

impl Path {
    /// `op` applied to this path and `other`, which cannot meet: their
    /// bounding boxes are apart, or one of them encloses nothing.
    ///
    /// Inputs that cannot interact are answered without an arrangement at all,
    /// which is what makes a union of disjoint shapes conserve area exactly:
    /// the geometry comes back untouched. There is no path at all when the
    /// result is empty.
    pub fn boolean_apart(&self, other: &Path, op: BoolOp, boxes: (Rect, Rect)) -> (r: Vec<Path>)
        ensures
            paths_view(r@) == apart(self@, other@, op, boxes),
    {
        let mut r: Vec<Path> = Vec::new();
        let mine = !boxes.0.is_empty();
        let others = !boxes.1.is_empty();
        proof {
            reveal_with_fuel(nonempty, 2);
            assert(paths_view(r@) =~= Seq::<Seq<PathEl>>::empty());
            assert(seq![self@].drop_last() =~= Seq::<Seq<PathEl>>::empty());
            assert(seq![other@].drop_last() =~= Seq::<Seq<PathEl>>::empty());
            assert(seq![self@ + other@].drop_last() =~= Seq::<Seq<PathEl>>::empty());
        }
        match op {
            BoolOp::Union => {
                if mine || others {
                    let mut both = self.clone();
                    let els = other.elements();
                    let mut i: usize = 0;
                    assert(both@ =~= self@ + other@.take(0));
                    while i < els.len()
                        invariant
                            i <= els@.len(),
                            els@ == other@,
                            both@ == self@ + other@.take(i as int),
                        decreases els@.len() - i,
                    {
                        both.push(els[i]);
                        i += 1;
                        assert(both@ =~= self@ + other@.take(i as int));
                    }
                    assert(both@ =~= self@ + other@);
                    push_drawn(&mut r, both);
                }
            },
            BoolOp::Intersect => {},
            BoolOp::Subtract => {
                if mine {
                    push_drawn(&mut r, self.clone());
                }
            },
            BoolOp::Divide => {
                if mine {
                    push_drawn(&mut r, self.clone());
                }
                assert(paths_view(r@) =~= region(self@, boxes.0));
                if others {
                    push_drawn(&mut r, other.clone());
                }
                assert(paths_view(r@) =~= region(self@, boxes.0) + region(other@, boxes.1));
            },
        }
        r
    }
}

/// Whether two paths cannot meet: one of them encloses nothing, or their
/// bounding boxes are apart even when grown.
pub open spec fn cannot_meet(boxes: (Rect, Rect), grown: (Rect, Rect)) -> bool {
    boxes.0.encloses_nothing() || boxes.1.encloses_nothing() || !grown.0.meets(grown.1)
}

/// Appends a path unless it is empty.
fn push_drawn(r: &mut Vec<Path>, path: Path)
    ensures
        paths_view(final(r)@) == (if path@.len() == 0 {
            paths_view(old(r)@)
        } else {
            paths_view(old(r)@).push(path@)
        }),
{
    if path.elements().len() > 0 {
        r.push(path);
        assert(paths_view(r@) =~= paths_view(old(r)@).push(path@));
    }
}

/// The vertices an edge joins, the smaller first.
pub open spec fn joined(e: Edge) -> (usize, usize) {
    if e.v0 <= e.v1 {
        (e.v0, e.v1)
    } else {
        (e.v1, e.v0)
    }
}

/// Collapses edges that describe the same arc between the same two vertices
/// into one carrying the sum of their contributions.
///
/// This is where a boundary the two inputs share stops being two edges. Edges
/// are taken in an order that keeps those over one vertex pair together.
pub struct Merger {
    kept: Vec<Edge>,
    /// Where the edges over the current vertex pair start.
    group: usize,
}

impl Merger {
    pub closed spec fn edges(self) -> Seq<Edge> {
        self.kept@
    }

    pub closed spec fn start(self) -> int {
        self.group as int
    }

    pub open spec fn wf(self) -> bool {
        0 <= self.start() <= self.edges().len()
    }

    /// Where the edges that `e` may coincide with start.
    pub open spec fn rivals(self, e: Edge) -> int {
        if self.edges().len() == 0 || joined(self.edges().last()) != joined(e) {
            self.edges().len() as int
        } else {
            self.start()
        }
    }

    pub fn new() -> (m: Merger)
        ensures
            m.wf(),
            m.edges() == Seq::<Edge>::empty(),
            m.start() == 0,
    {
        Merger { kept: Vec::new(), group: 0 }
    }

    /// The kept edges that `e` may coincide with, as the position from which
    /// they run to the end: those over the same pair of vertices.
    pub fn open_group(&mut self, e: Edge) -> (from: usize)
        requires
            old(self).wf(),
        ensures
            final(self).wf(),
            final(self).edges() == old(self).edges(),
            final(self).start() == old(self).rivals(e),
            from == final(self).start(),
    {
        let n: usize = self.kept.len();
        let same = if n == 0 {
            false
        } else {
            let last = self.kept[n - 1];
            let (a, b): (usize, usize) = if last.v0 <= last.v1 {
                (last.v0, last.v1)
            } else {
                (last.v1, last.v0)
            };
            let (c, d): (usize, usize) = if e.v0 <= e.v1 {
                (e.v0, e.v1)
            } else {
                (e.v1, e.v0)
            };
            a == c && b == d
        };
        if !same {
            self.group = n;
        }
        self.group
    }

    /// How many edges have been kept.
    pub fn count(&self) -> (n: usize)
        ensures
            n == self.edges().len(),
    {
        self.kept.len()
    }

    /// The kept edge at `k`.
    pub fn edge(&self, k: usize) -> (e: Edge)
        requires
            k < self.edges().len(),
        ensures
            e == self.edges()[k as int],
    {
        self.kept[k]
    }

    /// Keeps an edge that coincides with none.
    pub fn keep(&mut self, e: Edge)
        requires
            old(self).wf(),
        ensures
            final(self).wf(),
            final(self).edges() == old(self).edges().push(e),
            final(self).start() == old(self).start(),
    {
        self.kept.push(e);
    }

    /// Adds what `e` contributes to the kept edge at `k`, which traces the same
    /// arc. Whether the two run the same way is decided by their vertices,
    /// except for a loop, whose two ends are one vertex: then `same_way` says.
    pub fn absorb(&mut self, k: usize, e: Edge, same_way: bool)
        requires
            old(self).wf(),
            k < old(self).edges().len(),
            ({
                let a = old(self).edges()[k as int];
                let s = alignment(a, e, same_way);
                &&& i32::MIN <= a.wind.0 + s * e.wind.0 <= i32::MAX
                &&& i32::MIN <= a.wind.1 + s * e.wind.1 <= i32::MAX
            }),
        ensures
            final(self).wf(),
            final(self).start() == old(self).start(),
            final(self).edges().len() == old(self).edges().len(),
            forall|i: int|
                0 <= i < final(self).edges().len() && i != k ==> (#[trigger] final(self).edges()[i])
                    == old(self).edges()[i],
            ({
                let a = old(self).edges()[k as int];
                let s = alignment(a, e, same_way);
                let b = final(self).edges()[k as int];
                &&& b.seg == a.seg && b.v0 == a.v0 && b.v1 == a.v1
                &&& b.wind.0 == a.wind.0 + s * e.wind.0
                &&& b.wind.1 == a.wind.1 + s * e.wind.1
            }),
    {
        let a = self.kept[k];
        let forwards = if a.v0 != a.v1 {
            a.v0 == e.v0
        } else {
            same_way
        };
        let x: i64 = if forwards {
            a.wind.0 as i64 + e.wind.0 as i64
        } else {
            a.wind.0 as i64 - e.wind.0 as i64
        };
        let y: i64 = if forwards {
            a.wind.1 as i64 + e.wind.1 as i64
        } else {
            a.wind.1 as i64 - e.wind.1 as i64
        };
        self.kept.set(k, Edge { seg: a.seg, v0: a.v0, v1: a.v1, wind: (x as i32, y as i32) });
    }

    /// Ends the merge.
    pub fn finish(self) -> (edges: Vec<Edge>)
        ensures
            edges@ == self.edges(),
    {
        self.kept
    }
}

/// `1` when two coincident edges run the same way, `-1` when they run opposite
/// ways.
pub open spec fn alignment(a: Edge, e: Edge, same_way: bool) -> int {
    if (if a.v0 != a.v1 {
        a.v0 == e.v0
    } else {
        same_way
    }) {
        1
    } else {
        -1
    }
}

/// What an edge contributes when it is run from its smaller vertex to its
/// larger one.
pub open spec fn upwards(e: Edge) -> (int, int) {
    if e.v0 <= e.v1 {
        (e.wind.0 as int, e.wind.1 as int)
    } else {
        (-(e.wind.0 as int), -(e.wind.1 as int))
    }
}

/// Merging loses nothing: between two different vertices the contributions of
/// two coincident edges add up in one direction.
pub proof fn merging_adds_up(a: Edge, e: Edge, b: Edge, same_way: bool)
    requires
        joined(a) == joined(e),
        a.v0 != a.v1,
        b.v0 == a.v0 && b.v1 == a.v1,
        b.wind.0 == a.wind.0 + alignment(a, e, same_way) * e.wind.0,
        b.wind.1 == a.wind.1 + alignment(a, e, same_way) * e.wind.1,
    ensures
        upwards(b).0 == upwards(a).0 + upwards(e).0,
        upwards(b).1 == upwards(a).1 + upwards(e).1,
{
}

/// An affine map, by its six coefficients.
#[derive(Clone, Copy, Debug, PartialEq, Eq, Structural)]
pub struct Affine {
    pub a: Real,
    pub b: Real,
    pub c: Real,
    pub d: Real,
    pub e: Real,
    pub f: Real,
}

impl Affine {
    /// `==` of two maps, coefficient by coefficient.
    pub open spec fn equals(self, other: Affine) -> bool {
        &&& self.a.equals(other.a) && self.b.equals(other.b) && self.c.equals(other.c)
        &&& self.d.equals(other.d) && self.e.equals(other.e) && self.f.equals(other.f)
    }

    pub fn equal(self, other: Affine) -> (r: bool)
        ensures
            r == self.equals(other),
    {
        self.a.equal(other.a) && self.b.equal(other.b) && self.c.equal(other.c) && self.d.equal(
            other.d,
        ) && self.e.equal(other.e) && self.f.equal(other.f)
    }

    pub open spec fn is_identity(self) -> bool {
        let one = Real { bits: 0x3ff0_0000_0000_0000 };
        let zero = Real { bits: 0 };
        self == (Affine { a: one, b: zero, c: zero, d: one, e: zero, f: zero })
    }
}

/// A boolean operation held open while its inputs move.
///
/// The sources are owned and never modified, so cancelling is giving them back
/// and committing is taking the result that was already on screen.
pub struct Preview {
    a: Path,
    b: Path,
    op: BoolOp,
    rules: [FillRule; 2],
    at: Affine,
    out: Vec<Path>,
}

impl Preview {
    pub closed spec fn sources(self) -> (Path, Path) {
        (self.a, self.b)
    }

    pub closed spec fn operation(self) -> (BoolOp, [FillRule; 2]) {
        (self.op, self.rules)
    }

    pub closed spec fn position(self) -> Affine {
        self.at
    }

    pub closed spec fn shown(self) -> Seq<Path> {
        self.out@
    }

    /// Starts a preview of `op` on `a` and `b`, with `b` not yet moved; `out`
    /// is the result for that.
    pub fn new(a: Path, b: Path, op: BoolOp, rules: [FillRule; 2], out: Vec<Path>) -> (p: Preview)
        ensures
            p.sources() == (a, b),
            p.operation() == (op, rules),
            p.position().is_identity(),
            p.shown() == out@,
    {
        let one = Real { bits: 0x3ff0_0000_0000_0000 };
        let zero = Real { bits: 0 };
        let at = Affine { a: one, b: zero, c: zero, d: one, e: zero, f: zero };
        Preview { a, b, op, rules, at, out }
    }

    /// Whether the result has to be computed anew for `b` moved by `drag`: only
    /// when `drag` has actually changed.
    pub fn is_stale(&self, drag: Affine) -> (r: bool)
        ensures
            r == !drag.equals(self.position()),
    {
        !drag.equal(self.at)
    }

    /// The sources and the operation, to compute a result from.
    pub fn inputs(&self) -> (r: (&Path, &Path, BoolOp, [FillRule; 2]))
        ensures
            (*r.0, *r.1) == self.sources(),
            (r.2, r.3) == self.operation(),
    {
        (&self.a, &self.b, self.op, self.rules)
    }

    /// The result with `b` moved by `drag`, where `fresh` holds it if it had to
    /// be computed anew.
    pub fn drag(&mut self, drag: Affine, fresh: Option<Vec<Path>>) -> (r: &[Path])
        ensures
            final(self).sources() == old(self).sources(),
            final(self).operation() == old(self).operation(),
            match fresh {
                Some(out) => !drag.equals(old(self).position()) ==> final(self).position() == drag
                    && final(self).shown() == out@,
                None => final(self).position() == old(self).position() && final(self).shown()
                    == old(self).shown(),
            },
            drag.equals(old(self).position()) ==> final(self).position() == old(self).position()
                && final(self).shown() == old(self).shown(),
            r@ == final(self).shown(),
    {
        if !drag.equal(self.at) {
            if let Some(out) = fresh {
                self.at = drag;
                self.out = out;
            }
        }
        self.out.as_slice()
    }

    /// The current result, exactly as [`drag`](Self::drag) last left it.
    pub fn result(&self) -> (r: &[Path])
        ensures
            r@ == self.shown(),
    {
        self.out.as_slice()
    }

    /// Ends the preview, keeping the result on screen.
    pub fn commit(self) -> (out: Vec<Path>)
        ensures
            out@ == self.shown(),
    {
        self.out
    }

    /// Ends the preview, giving back the two sources untouched.
    pub fn cancel(self) -> (r: (Path, Path))
        ensures
            r == self.sources(),
    {
        (self.a, self.b)
    }
}

/// The edges of the first `n` pieces over a snapped vertex set. The ends of
/// piece `k` are points `2 * k` and `2 * k + 1`; a piece that snapping has
/// collapsed is dropped.
pub open spec fn snapped(
    pieces: Seq<(Segment, bool)>,
    of_point: Seq<usize>,
    verts: Seq<Point>,
    tiny: Seq<bool>,
    n: int,
) -> Seq<Edge>
    decreases n,
{
    if n <= 0 {
        Seq::empty()
    } else {
        let before = snapped(pieces, of_point, verts, tiny, n - 1);
        let v0 = of_point[2 * n - 2];
        let v1 = of_point[2 * n - 1];
        if v0 == v1 && tiny[n - 1] {
            before
        } else {
            let (seg, second) = pieces[n - 1];
            before.push(
                Edge {
                    seg: seg.moved(verts[v0 as int], verts[v1 as int]),
                    v0,
                    v1,
                    wind: if second {
                        (0, 1)
                    } else {
                        (1, 0)
                    },
                },
            )
        }
    }
}

/// Turns pieces of the input segments into edges over a snapped vertex set.
///
/// `pieces` holds each piece and whether it comes from the second input,
/// `of_point` the vertex each of their ends was snapped to, and `tiny` which
/// pieces have no extent once snapped.
pub fn snap(
    pieces: &Vec<(Segment, bool)>,
    of_point: &Vec<usize>,
    verts: &Vec<Point>,
    tiny: &Vec<bool>,
) -> (edges: Vec<Edge>)
    requires
        of_point@.len() == 2 * pieces@.len(),
        tiny@.len() == pieces@.len(),
        forall|i: int| 0 <= i < of_point@.len() ==> (#[trigger] of_point@[i]) < verts@.len(),
    ensures
        edges@ == snapped(pieces@, of_point@, verts@, tiny@, pieces@.len() as int),
        forall|e: int|
            0 <= e < edges@.len() ==> (#[trigger] edges@[e]).v0 < verts@.len() && edges@[e].v1
                < verts@.len(),
{
    let n: usize = pieces.len();
    let total: usize = of_point.len();
    let mut edges: Vec<Edge> = Vec::new();
    let mut k: usize = 0;
    while k < n
        invariant
            k <= n == pieces@.len() == tiny@.len(),
            total == of_point@.len() == 2 * n,
            forall|i: int| 0 <= i < of_point@.len() ==> (#[trigger] of_point@[i]) < verts@.len(),
            edges@ == snapped(pieces@, of_point@, verts@, tiny@, k as int),
            forall|e: int|
                0 <= e < edges@.len() ==> (#[trigger] edges@[e]).v0 < verts@.len() && edges@[e].v1
                    < verts@.len(),
        decreases n - k,
    {
        let v0: usize = of_point[2 * k];
        let v1: usize = of_point[2 * k + 1];
        if !(v0 == v1 && tiny[k]) {
            let (seg, second) = pieces[k];
            let moved = seg.with_ends(verts[v0], verts[v1]);
            let wind: (i32, i32) = if second {
                (0, 1)
            } else {
                (1, 0)
            };
            edges.push(Edge { seg: moved, v0, v1, wind });
        }
        k += 1;
    }
    edges
}

/// Each input is filled by its own rule: whether a face counts as inside one of
/// them depends on that input's winding number and that input's rule alone, and
/// an operation keeps the faces that are inside as its name says.
pub proof fn each_input_is_filled_by_its_own_rule(
    wind: Seq<(i32, i32)>,
    rules: (FillRule, FillRule),
    f: int,
)
    requires
        0 <= f < wind.len(),
    ensures
        ({
            let first = if rules.0 == FillRule::NonZero {
                wind[f].0 < 0 || wind[f].0 > 0
            } else {
                wind[f].0 as int % 2 == 1
            };
            let second = if rules.1 == FillRule::NonZero {
                wind[f].1 < 0 || wind[f].1 > 0
            } else {
                wind[f].1 as int % 2 == 1
            };
            &&& kept(wind, BoolOp::Union, 0, rules)[f] <==> (first || second)
            &&& kept(wind, BoolOp::Intersect, 0, rules)[f] <==> (first && second)
            &&& kept(wind, BoolOp::Subtract, 0, rules)[f] <==> (first && !second)
            &&& kept(wind, BoolOp::Divide, 0, rules)[f] <==> (first && !second)
            &&& kept(wind, BoolOp::Divide, 1, rules)[f] <==> (first && second)
            &&& kept(wind, BoolOp::Divide, 2, rules)[f] <==> (!first && second)
            &&& filled_by(wind, rules, false)[f] <==> first
            &&& filled_by(wind, rules, true)[f] <==> second
        }),
{
}

/// Changing the rule of one input, or its winding numbers, never changes which
/// faces count as inside the other.
pub proof fn the_inputs_do_not_disturb_each_other(
    wind: Seq<(i32, i32)>,
    changed: Seq<(i32, i32)>,
    rules: (FillRule, FillRule),
    other: FillRule,
)
    requires
        wind.len() == changed.len(),
    ensures
        (forall|f: int| 0 <= f < wind.len() ==> (#[trigger] wind[f]).0 == changed[f].0)
            ==> filled_by(wind, rules, false) == filled_by(changed, (rules.0, other), false),
        (forall|f: int| 0 <= f < wind.len() ==> (#[trigger] wind[f]).1 == changed[f].1)
            ==> filled_by(wind, rules, true) == filled_by(changed, (other, rules.1), true),
{
    if forall|f: int| 0 <= f < wind.len() ==> (#[trigger] wind[f]).0 == changed[f].0 {
        assert forall|f: int| 0 <= f < wind.len() implies filled_by(wind, rules, false)[f]
            == filled_by(changed, (rules.0, other), false)[f] by {
            assert(wind[f].0 == changed[f].0);
        }
        assert(filled_by(wind, rules, false) =~= filled_by(changed, (rules.0, other), false));
    }
    if forall|f: int| 0 <= f < wind.len() ==> (#[trigger] wind[f]).1 == changed[f].1 {
        assert forall|f: int| 0 <= f < wind.len() implies filled_by(wind, rules, true)[f]
            == filled_by(changed, (other, rules.1), true)[f] by {
            assert(wind[f].1 == changed[f].1);
        }
        assert(filled_by(wind, rules, true) =~= filled_by(changed, (other, rules.1), true));
    }
}

/// An operation gives its regions in a fixed number: a division three, any other
/// operation one; and the regions of a division do not overlap.
pub proof fn a_division_parts_what_is_filled(
    wind: Seq<(i32, i32)>,
    rules: (FillRule, FillRule),
    f: int,
)
    requires
        0 <= f < wind.len(),
    ensures
        regions(BoolOp::Divide) == 3,
        regions(BoolOp::Union) == 1 && regions(BoolOp::Intersect) == 1 && regions(
            BoolOp::Subtract,
        ) == 1,
        forall|j: int, k: int|
            0 <= j < k < 3 ==> !((#[trigger] kept(wind, BoolOp::Divide, j, rules))[f] && (
            #[trigger] kept(wind, BoolOp::Divide, k, rules))[f]),
{
}

/// Dropping empty paths drops nothing else, and keeps the order: what is left
/// are the paths that draw something, and each of them is there.
pub proof fn only_empty_paths_are_dropped(all: Seq<Seq<PathEl>>)
    ensures
        nonempty(all).len() <= all.len(),
        forall|k: int| 0 <= k < nonempty(all).len() ==> (#[trigger] nonempty(all)[k]).len() > 0,
        forall|k: int|
            0 <= k < nonempty(all).len() ==> all.contains(#[trigger] nonempty(all)[k]),
        forall|k: int|
            0 <= k < all.len() && (#[trigger] all[k]).len() > 0 ==> nonempty(all).contains(all[k]),
        (forall|k: int| 0 <= k < all.len() ==> (#[trigger] all[k]).len() > 0) ==> nonempty(all)
            == all,
    decreases all.len(),
{
    if all.len() > 0 {
        let front = all.drop_last();
        only_empty_paths_are_dropped(front);
        let r = nonempty(all);
        let before = nonempty(front);
        assert forall|k: int| 0 <= k < r.len() implies all.contains(#[trigger] r[k]) by {
            if k < before.len() {
                assert(r[k] == before[k]);
                assert(front.contains(before[k]));
                let j = choose|j: int| 0 <= j < front.len() && front[j] == before[k];
                assert(all[j] == r[k]);
            } else {
                assert(all[all.len() - 1] == r[k]);
            }
        }
        assert forall|k: int| 0 <= k < r.len() implies (#[trigger] r[k]).len() > 0 by {
            if k < before.len() {
                assert(r[k] == before[k]);
            }
        }
        assert forall|k: int| 0 <= k < all.len() && (#[trigger] all[k]).len() > 0 implies r.contains(
            all[k],
        ) by {
            if k < front.len() {
                assert(front[k] == all[k]);
                assert(before.contains(front[k]));
                let j = choose|j: int| 0 <= j < before.len() && before[j] == front[k];
                assert(r[j] == all[k]);
            } else {
                assert(r[r.len() - 1] == all[k]);
            }
        }
        if forall|k: int| 0 <= k < all.len() ==> (#[trigger] all[k]).len() > 0 {
            assert forall|k: int| 0 <= k < front.len() implies (#[trigger] front[k]).len() > 0 by {
                assert(front[k] == all[k]);
            }
            assert(all[all.len() - 1].len() > 0);
            assert(r =~= all);
        }
    }
}

/// Where paths cannot meet, a union draws both of them, a subtraction the first
/// as it is, and a division each by itself; a box that encloses nothing fills
/// nothing.
pub proof fn paths_apart_come_back_untouched(
    a: Seq<PathEl>,
    b: Seq<PathEl>,
    boxes: (Rect, Rect),
)
    requires
        a.len() > 0,
        b.len() > 0,
    ensures
        apart(a, b, BoolOp::Intersect, boxes).len() == 0,
        !boxes.0.encloses_nothing() ==> apart(a, b, BoolOp::Subtract, boxes) == seq![a],
        boxes.0.encloses_nothing() ==> apart(a, b, BoolOp::Subtract, boxes).len() == 0,
        !boxes.0.encloses_nothing() || !boxes.1.encloses_nothing() ==> apart(
            a,
            b,
            BoolOp::Union,
            boxes,
        ) == seq![a + b],
        !boxes.0.encloses_nothing() && !boxes.1.encloses_nothing() ==> apart(
            a,
            b,
            BoolOp::Divide,
            boxes,
        ) == seq![a, b],
        boxes.0.encloses_nothing() && !boxes.1.encloses_nothing() ==> apart(
            a,
            b,
            BoolOp::Divide,
            boxes,
        ) == seq![b],
        !boxes.0.encloses_nothing() && boxes.1.encloses_nothing() ==> apart(
            a,
            b,
            BoolOp::Divide,
            boxes,
        ) == seq![a],
{
    only_empty_paths_are_dropped(seq![a]);
    only_empty_paths_are_dropped(seq![b]);
    only_empty_paths_are_dropped(seq![a + b]);
    assert(seq![a] + seq![b] =~= seq![a, b]);
    assert(seq![a] + Seq::empty() =~= seq![a]);
    assert(Seq::empty() + seq![b] =~= seq![b]);
}

/// Two paths can meet only where both boxes enclose something and overlap.
pub proof fn only_overlapping_boxes_can_meet(boxes: (Rect, Rect), grown: (Rect, Rect))
    ensures
        !cannot_meet(boxes, grown) <==> (boxes.0.x0.less(boxes.0.x1) && boxes.0.y0.less(boxes.0.y1)
            && boxes.1.x0.less(boxes.1.x1) && boxes.1.y0.less(boxes.1.y1) && grown.0.x0.less(
            grown.1.x1,
        ) && grown.1.x0.less(grown.0.x1) && grown.0.y0.less(grown.1.y1) && grown.1.y0.less(
            grown.0.y1,
        )),
{
}

/// The path of a loop starts where its first half-edge leaves, draws its
/// half-edges in order, each in its own direction, and is closed.
pub proof fn a_loop_is_drawn_in_order(verts: Seq<Point>, edges: Seq<Edge>, c: Seq<usize>, k: int)
    requires
        0 <= k < c.len(),
        forall|i: int| 0 <= i < c.len() ==> (#[trigger] c[i]) < 2 * edges.len(),
    ensures
        loop_path(verts, edges, c).len() == c.len() + 2,
        ({
            let e = edges[c[0] as int / 2];
            loop_path(verts, edges, c)[0] == PathEl::MoveTo(
                verts[(if c[0] % 2 == 0 {
                    e.v0
                } else {
                    e.v1
                }) as int],
            )
        }),
        ({
            let s = edges[c[k] as int / 2].seg;
            let el = loop_path(verts, edges, c)[k + 1];
            if c[k] % 2 == 0 {
                el == s.drawn() && el.end() == Some(s.last())
            } else {
                el == s.backwards().drawn() && el.end() == Some(s.first())
            }
        }),
        loop_path(verts, edges, c).last() == PathEl::ClosePath,
{
    lemma_loop_elements(edges, c, c.len() as int, k);
}

proof fn lemma_loop_elements(edges: Seq<Edge>, c: Seq<usize>, n: int, k: int)
    requires
        0 <= k < n <= c.len(),
    ensures
        loop_elements(edges, c, n).len() == n,
        loop_elements(edges, c, n)[k] == along(edges, c[k] as int).drawn(),
    decreases n,
{
    reveal_with_fuel(loop_elements, 2);
    if k < n - 1 {
        lemma_loop_elements(edges, c, n - 1, k);
    } else if n > 1 {
        lemma_loop_elements(edges, c, n - 1, 0);
    }
}

/// Each piece that is not collapsed becomes one edge: between the vertices of its
/// ends, winding once round its own input and not at all round the other.
pub proof fn a_piece_winds_its_own_input(
    pieces: Seq<(Segment, bool)>,
    of_point: Seq<usize>,
    verts: Seq<Point>,
    tiny: Seq<bool>,
    n: int,
    k: int,
)
    requires
        0 <= k < n <= pieces.len(),
        of_point[2 * k] != of_point[2 * k + 1] || !tiny[k],
    ensures
        exists|i: int|
            0 <= i < snapped(pieces, of_point, verts, tiny, n).len() && ({
                let e = #[trigger] snapped(pieces, of_point, verts, tiny, n)[i];
                &&& e.v0 == of_point[2 * k] && e.v1 == of_point[2 * k + 1]
                &&& !pieces[k].1 ==> e.wind.0 == 1 && e.wind.1 == 0
                &&& pieces[k].1 ==> e.wind.0 == 0 && e.wind.1 == 1
                &&& e.seg == pieces[k].0.moved(verts[e.v0 as int], verts[e.v1 as int])
            }),
    decreases n,
{
    let now = snapped(pieces, of_point, verts, tiny, n);
    let before = snapped(pieces, of_point, verts, tiny, n - 1);
    if k == n - 1 {
        assert(now[now.len() - 1].v0 == of_point[2 * k]);
    } else {
        a_piece_winds_its_own_input(pieces, of_point, verts, tiny, n - 1, k);
        let i = choose|i: int|
            0 <= i < before.len() && ({
                let e = #[trigger] before[i];
                &&& e.v0 == of_point[2 * k] && e.v1 == of_point[2 * k + 1]
                &&& !pieces[k].1 ==> e.wind.0 == 1 && e.wind.1 == 0
                &&& pieces[k].1 ==> e.wind.0 == 0 && e.wind.1 == 1
                &&& e.seg == pieces[k].0.moved(verts[e.v0 as int], verts[e.v1 as int])
            });
        assert(now[i] == before[i]);
    }
}

/// A piece is dropped only where snapping put both its ends on one vertex and left
/// it without extent.
pub proof fn only_collapsed_pieces_are_dropped(
    pieces: Seq<(Segment, bool)>,
    of_point: Seq<usize>,
    verts: Seq<Point>,
    tiny: Seq<bool>,
    n: int,
)
    requires
        0 <= n <= pieces.len(),
        forall|k: int|
            0 <= k < n ==> of_point[2 * k] != of_point[2 * k + 1] || !#[trigger] tiny[k],
    ensures
        snapped(pieces, of_point, verts, tiny, n).len() == n,
    decreases n,
{
    if n > 0 {
        only_collapsed_pieces_are_dropped(pieces, of_point, verts, tiny, n - 1);
        assert(of_point[2 * (n - 1)] != of_point[2 * (n - 1) + 1] || !tiny[n - 1]);
    }
}

} // verus!
