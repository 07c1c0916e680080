//! Scanline fill: pixel buffers, fill edges and the spans between crossings.
//!
//! A path is a list of straight edges. On a horizontal sample line the edges it
//! meets give crossings; sorted from left to right they accumulate the winding
//! number, and the stretches where the rule fills it are the spans.
//!
//! An edge covers its lower end and not its upper one, in the direction of
//! growing `y`. A vertex shared by two edges therefore contributes exactly one
//! crossing, not none and not two.

use vstd::prelude::*;
use crate::geom::Point;
use crate::geom::Real;
use crate::geom::INFINITY;
use crate::path::boolean::FillRule;
use crate::raster::clip::Rows;

verus! {

/// Minus infinity, by its bits.
pub const MINUS_INFINITY: u64 = 0xfff0_0000_0000_0000;

/// A straight (non-premultiplied) 8-bit RGBA colour.
#[derive(Clone, Copy, Debug, PartialEq, Eq, Structural)]
pub struct Color {
    /// Red.
    pub r: u8,
    /// Green.
    pub g: u8,
    /// Blue.
    pub b: u8,
    /// Alpha, where 255 is opaque.
    pub a: u8,
}

/// A rectangular 8-bit RGBA raster target.
///
/// Pixels are **premultiplied**, row-major from the top left, four bytes each.
#[derive(Debug)]
pub struct Pixmap {
    width: u32,
    height: u32,
    data: Vec<u8>,
}

impl Pixmap {
    pub closed spec fn size(self) -> (u32, u32) {
        (self.width, self.height)
    }

    pub closed spec fn bytes(self) -> Seq<u8> {
        self.data@
    }

    /// Four bytes for every pixel.
    pub open spec fn wf(self) -> bool {
        self.bytes().len() == self.size().0 * self.size().1 * 4
    }

    /// A transparent pixmap of `width` by `height` pixels. The buffer has to
    /// fit in the address space.
    pub fn new(width: u32, height: u32) -> (p: Pixmap)
        requires
            width * height * 4 <= usize::MAX,
        ensures
            p.wf(),
            p.size() == (width, height),
            forall|i: int| 0 <= i < p.bytes().len() ==> #[trigger] p.bytes()[i] == 0,
    {
        assert(0 <= width * height <= 0xffff_ffff * 0xffff_ffff) by (nonlinear_arith)
            requires
                width <= 0xffff_ffff,
                height <= 0xffff_ffff,
        ;
        let len: u128 = width as u128 * height as u128 * 4;
        let data: Vec<u8> = vec![0; len as usize];
        Pixmap { width, height, data }
    }

    /// The width in pixels.
    pub fn width(&self) -> (w: u32)
        ensures
            w == self.size().0,
    {
        self.width
    }

    /// The height in pixels.
    pub fn height(&self) -> (h: u32)
        ensures
            h == self.size().1,
    {
        self.height
    }

    /// The pixel bytes: premultiplied RGBA, row-major from the top left.
    pub fn data(&self) -> (d: &[u8])
        ensures
            d@ == self.bytes(),
    {
        self.data.as_slice()
    }

    /// Where the pixel `(x, y)` starts.
    pub open spec fn at(self, x: u32, y: u32) -> int {
        (y * self.size().0 + x) * 4
    }

    /// Overwrites the pixel `(x, y)`.
    pub fn set_pixel(&mut self, x: u32, y: u32, rgba: [u8; 4])
        requires
            old(self).wf(),
            x < old(self).size().0,
            y < old(self).size().1,
        ensures
            final(self).wf(),
            final(self).size() == old(self).size(),
            forall|i: int|
                0 <= i < final(self).bytes().len() ==> #[trigger] final(self).bytes()[i] == (if old(
                    self,
                ).at(x, y) <= i < old(self).at(x, y) + 4 {
                    rgba@[i - old(self).at(x, y)]
                } else {
                    old(self).bytes()[i]
                }),
    {
        let ghost w = self.width as int;
        let ghost h = self.height as int;
        assert((y * w + x + 1) <= w * h && y * w >= 0) by (nonlinear_arith)
            requires
                0 <= x < w,
                0 <= y < h,
        ;
        let total: usize = self.data.len();
        assert(w * h * 4 == total);
        assert(self.at(x, y) + 4 <= total);
        assert(0 <= y * self.width <= 0xffff_ffff * 0xffff_ffff) by (nonlinear_arith)
            requires
                y <= 0xffff_ffff,
                self.width <= 0xffff_ffff,
        ;
        let i: u128 = (y as u128 * self.width as u128 + x as u128) * 4;
        let i: usize = i as usize;
        self.data.set(i, rgba[0]);
        self.data.set(i + 1, rgba[1]);
        self.data.set(i + 2, rgba[2]);
        self.data.set(i + 3, rgba[3]);
    }
}

/// An element of a path whose curves have been flattened.
#[derive(Debug)]
pub enum FlatEl {
    /// Start a subpath.
    MoveTo(Point),
    /// A straight line.
    LineTo(Point),
    /// A curve, as the polyline that stands for it, and its end.
    CurveTo(Vec<Point>, Point),
    /// A line back to the start of the subpath.
    ClosePath,
}

/// An element of a path whose curves have been flattened.
pub enum FlatModel {
    MoveTo(Point),
    LineTo(Point),
    CurveTo(Seq<Point>, Point),
    ClosePath,
}

impl View for FlatEl {
    type V = FlatModel;

    open spec fn view(&self) -> FlatModel {
        match self {
            FlatEl::MoveTo(p) => FlatModel::MoveTo(*p),
            FlatEl::LineTo(p) => FlatModel::LineTo(*p),
            FlatEl::CurveTo(poly, p) => FlatModel::CurveTo(poly@, *p),
            FlatEl::ClosePath => FlatModel::ClosePath,
        }
    }
}

/// A straight fill edge, oriented so that `top.y < bot.y`.
///
/// `dir` remembers which way the path actually ran through it, because that is
/// what the winding number counts.
#[derive(Clone, Copy, Debug, PartialEq, Eq, Structural)]
pub struct Edge {
    pub top: Point,
    pub bot: Point,
    pub dir: i32,
}

/// The edge a path makes running from `a` to `b`. A horizontal line crosses no
/// sample line; one that is not finite would put a phantom crossing into the
/// sort, so a malformed path loses its bad edges and keeps the rest.
pub open spec fn edge_of(a: Point, b: Point) -> Option<Edge> {
    if a.y.equals(b.y) || !a.finite() || !b.finite() {
        None
    } else if a.y.less(b.y) {
        Some(Edge { top: a, bot: b, dir: 1 })
    } else {
        Some(Edge { top: b, bot: a, dir: -1i32 })
    }
}

/// Edges with the one from `a` to `b` added, if there is one.
pub open spec fn with_edge(edges: Seq<Edge>, a: Point, b: Point) -> Seq<Edge> {
    match edge_of(a, b) {
        Some(e) => edges.push(e),
        None => edges,
    }
}

/// Edges with those of the first `n` lines of a polyline added.
pub open spec fn with_polyline(edges: Seq<Edge>, poly: Seq<Point>, n: int) -> Seq<Edge>
    decreases n,
{
    if n <= 0 {
        edges
    } else {
        with_edge(with_polyline(edges, poly, n - 1), poly[n - 1], poly[n])
    }
}

/// The lines of a polyline.
pub open spec fn lines(poly: Seq<Point>) -> int {
    if poly.len() == 0 {
        0
    } else {
        poly.len() - 1
    }
}

/// Where building edges has come to: the pen, the start of the subpath, and
/// the edges so far.
pub struct Pen {
    pub cur: Point,
    pub start: Point,
    pub edges: Seq<Edge>,
}

/// What one element adds.
pub open spec fn drawn(pen: Pen, el: FlatModel) -> Pen {
    match el {
        FlatModel::MoveTo(p) => Pen {
            cur: p,
            start: p,
            edges: with_edge(pen.edges, pen.cur, pen.start),
        },
        FlatModel::LineTo(p) => Pen { cur: p, edges: with_edge(pen.edges, pen.cur, p), ..pen },
        FlatModel::CurveTo(poly, p) => Pen {
            cur: p,
            edges: with_polyline(pen.edges, poly, lines(poly)),
            ..pen
        },
        FlatModel::ClosePath => Pen {
            cur: pen.start,
            edges: with_edge(pen.edges, pen.cur, pen.start),
            ..pen
        },
    }
}

/// The pen before a path: at the origin.
pub open spec fn first_pen() -> Pen {
    let zero = Real { bits: 0 };
    let o = Point { x: zero, y: zero };
    Pen { cur: o, start: o, edges: Seq::empty() }
}

/// What the first `n` elements add.
pub open spec fn drawn_all(path: Seq<FlatEl>, n: int) -> Pen
    decreases n,
{
    if n <= 0 {
        first_pen()
    } else {
        drawn(drawn_all(path, n - 1), path[n - 1]@)
    }
}

/// The edges of a path. Every subpath is closed, whether or not it says so: an
/// open one has no inside otherwise.
pub open spec fn edges_of(path: Seq<FlatEl>) -> Seq<Edge> {
    let pen = drawn_all(path, path.len() as int);
    with_edge(pen.edges, pen.cur, pen.start)
}

/// What holds of every edge: it is finite, runs down, and turns one way or the
/// other.
pub open spec fn upright(e: Edge) -> bool {
    &&& e.top.finite()
    &&& e.bot.finite()
    &&& e.top.y.less(e.bot.y)
    &&& e.dir == 1 || e.dir == -1
}

/// Whether edges are upright.
pub open spec fn all_upright(edges: Seq<Edge>) -> bool {
    forall|i: int| 0 <= i < edges.len() ==> upright(#[trigger] edges[i])
}

proof fn lemma_upright_polyline(edges: Seq<Edge>, poly: Seq<Point>, n: int)
    requires
        all_upright(edges),
    ensures
        all_upright(with_polyline(edges, poly, n)),
    decreases n,
{
    if n > 0 {
        lemma_upright_polyline(edges, poly, n - 1);
    }
}

proof fn lemma_upright_drawn(path: Seq<FlatEl>, n: int)
    ensures
        all_upright(drawn_all(path, n).edges),
    decreases n,
{
    if n > 0 {
        lemma_upright_drawn(path, n - 1);
        if let FlatModel::CurveTo(poly, p) = path[n - 1]@ {
            lemma_upright_polyline(drawn_all(path, n - 1).edges, poly, lines(poly));
        }
    }
}

/// However malformed a path is, its edges are finite, none of them is
/// horizontal, and each runs from its top to its bottom.
pub proof fn edges_run_down(path: Seq<FlatEl>)
    ensures
        all_upright(edges_of(path)),
{
    lemma_upright_drawn(path, path.len() as int);
}

fn push_edge(out: &mut Vec<Edge>, a: Point, b: Point)
    ensures
        final(out)@ == with_edge(old(out)@, a, b),
{
    if a.y.equal(b.y) || !a.is_finite() || !b.is_finite() {
        return;
    }
    if a.y.below(b.y) {
        out.push(Edge { top: a, bot: b, dir: 1 });
    } else {
        out.push(Edge { top: b, bot: a, dir: -1 });
    }
}

fn push_polyline(out: &mut Vec<Edge>, poly: &Vec<Point>)
    ensures
        final(out)@ == with_polyline(old(out)@, poly@, lines(poly@)),
{
    let n: usize = poly.len();
    let mut i: usize = 1;
    while i < n
        invariant
            1 <= i,
            i <= n || (n == 0 && i == 1),
            n == poly@.len(),
            out@ == with_polyline(old(out)@, poly@, i - 1),
        decreases n - i,
    {
        push_edge(out, poly[i - 1], poly[i]);
        i += 1;
    }
}

/// Turns a flattened path into fill edges.
pub fn build_edges(path: &Vec<FlatEl>) -> (out: Vec<Edge>)
    ensures
        out@ == edges_of(path@),
        all_upright(out@),
{
    proof {
        edges_run_down(path@);
    }
    let zero = Real { bits: 0 };
    let mut out: Vec<Edge> = Vec::new();
    let mut cur = Point { x: zero, y: zero };
    let mut start = cur;
    let mut i: usize = 0;
    while i < path.len()
        invariant
            i <= path@.len(),
            drawn_all(path@, i as int) == (Pen { cur, start, edges: out@ }),
        decreases path@.len() - i,
    {
        match &path[i] {
            FlatEl::MoveTo(p) => {
                // Close whatever came before. Before the first subpath that is
                // a line of no length, which is dropped.
                push_edge(&mut out, cur, start);
                start = *p;
                cur = *p;
            },
            FlatEl::LineTo(p) => {
                push_edge(&mut out, cur, *p);
                cur = *p;
            },
            FlatEl::CurveTo(poly, p) => {
                push_polyline(&mut out, poly);
                cur = *p;
            },
            FlatEl::ClosePath => {
                push_edge(&mut out, cur, start);
                cur = start;
            },
        }
        i += 1;
    }
    push_edge(&mut out, cur, start);
    out
}

/// Whether the sample line at `y` crosses an edge: at its top end it does, at
/// its bottom end it does not.
pub open spec fn crosses(e: Edge, y: Real) -> bool {
    e.top.y.at_most(y) && y.less(e.bot.y)
}

/// What the first `n` edges that the line at `y` crosses wind, in all.
pub open spec fn turns(edges: Seq<Edge>, y: Real, n: int) -> int
    decreases n,
{
    if n <= 0 {
        0
    } else if crosses(edges[n - 1], y) {
        turns(edges, y, n - 1) + edges[n - 1].dir
    } else {
        turns(edges, y, n - 1)
    }
}

/// Whether an element holds only finite points, and a curve's polyline leads
/// from the pen to its end.
pub open spec fn sound(el: FlatModel, cur: Point) -> bool {
    match el {
        FlatModel::MoveTo(p) => p.finite(),
        FlatModel::LineTo(p) => p.finite(),
        FlatModel::CurveTo(poly, p) => {
            &&& poly.len() > 0
            &&& forall|i: int| 0 <= i < poly.len() ==> (#[trigger] poly[i]).finite()
            &&& poly[0] == cur && poly.last() == p
        },
        FlatModel::ClosePath => true,
    }
}

/// One where the line at `y` has passed a point, else nothing.
spec fn passed(p: Point, y: Real) -> int {
    if p.y.at_most(y) {
        1
    } else {
        0
    }
}

proof fn lemma_turns_prefix(a: Seq<Edge>, e: Edge, y: Real, n: int)
    requires
        0 <= n <= a.len(),
    ensures
        turns(a.push(e), y, n) == turns(a, y, n),
    decreases n,
{
    if n > 0 {
        lemma_turns_prefix(a, e, y, n - 1);
    }
}

proof fn lemma_edge_turns(edges: Seq<Edge>, a: Point, b: Point, y: Real)
    requires
        a.finite(),
        b.finite(),
        y.finite(),
    ensures
        turns(with_edge(edges, a, b), y, with_edge(edges, a, b).len() as int) == turns(
            edges,
            y,
            edges.len() as int,
        ) + passed(a, y) - passed(b, y),
{
    match edge_of(a, b) {
        Some(e) => {
            lemma_turns_prefix(edges, e, y, edges.len() as int);
        },
        None => {},
    }
}

proof fn lemma_polyline_turns(edges: Seq<Edge>, poly: Seq<Point>, y: Real, n: int)
    requires
        0 <= n < poly.len(),
        forall|i: int| 0 <= i < poly.len() ==> (#[trigger] poly[i]).finite(),
        y.finite(),
    ensures
        turns(with_polyline(edges, poly, n), y, with_polyline(edges, poly, n).len() as int)
            == turns(edges, y, edges.len() as int) + passed(poly[0], y) - passed(poly[n], y),
    decreases n,
{
    if n > 0 {
        lemma_polyline_turns(edges, poly, y, n - 1);
        lemma_edge_turns(with_polyline(edges, poly, n - 1), poly[n - 1], poly[n], y);
    }
}

proof fn lemma_drawn_turns(path: Seq<FlatEl>, y: Real, n: int)
    requires
        0 <= n <= path.len(),
        y.finite(),
        forall|i: int|
            0 <= i < path.len() ==> sound(#[trigger] path[i]@, drawn_all(path, i).cur),
    ensures
        ({
            let pen = drawn_all(path, n);
            &&& pen.cur.finite()
            &&& pen.start.finite()
            &&& turns(pen.edges, y, pen.edges.len() as int) == passed(pen.start, y) - passed(
                pen.cur,
                y,
            )
        }),
    decreases n,
{
    if n > 0 {
        lemma_drawn_turns(path, y, n - 1);
        let pen = drawn_all(path, n - 1);
        assert(sound(path[n - 1]@, pen.cur));
        match path[n - 1]@ {
            FlatModel::MoveTo(p) => {
                lemma_edge_turns(pen.edges, pen.cur, pen.start, y);
            },
            FlatModel::LineTo(p) => {
                lemma_edge_turns(pen.edges, pen.cur, p, y);
            },
            FlatModel::CurveTo(poly, p) => {
                lemma_polyline_turns(pen.edges, poly, y, poly.len() - 1);
            },
            FlatModel::ClosePath => {
                lemma_edge_turns(pen.edges, pen.cur, pen.start, y);
            },
        }
    }
}

/// On every sample line a path winds back to nothing: what lies to the right of
/// the last crossing is outside, so no fill bleeds to the edge of the picture.
pub proof fn every_line_winds_back(path: Seq<FlatEl>, y: Real)
    requires
        y.finite(),
        forall|i: int|
            0 <= i < path.len() ==> sound(#[trigger] path[i]@, drawn_all(path, i).cur),
    ensures
        turns(edges_of(path), y, edges_of(path).len() as int) == 0,
{
    lemma_drawn_turns(path, y, path.len() as int);
    let pen = drawn_all(path, path.len() as int);
    lemma_edge_turns(pen.edges, pen.cur, pen.start, y);
}

/// A crossing of a sample line: where, and which way the edge runs.
pub type Crossing = (Real, i32);

/// Crossings from left to right with `c` put in behind all that are not to its
/// right.
pub open spec fn placed(s: Seq<Crossing>, c: Crossing) -> Seq<Crossing>
    decreases s.len(),
{
    if s.len() == 0 || s.last().0.total_rank() <= c.0.total_rank() {
        s.push(c)
    } else {
        placed(s.drop_last(), c).push(s.last())
    }
}

/// The first `n` crossings, sorted from left to right; those at one place stay
/// in order.
pub open spec fn sorted(s: Seq<Crossing>, n: int) -> Seq<Crossing>
    decreases n,
{
    if n <= 0 {
        Seq::empty()
    } else {
        placed(sorted(s, n - 1), s[n - 1])
    }
}

/// Whether crossings run from left to right.
pub open spec fn ascends(s: Seq<Crossing>) -> bool {
    forall|i: int, j: int|
        0 <= i <= j < s.len() ==> (#[trigger] s[i]).0.total_rank() <= (
        #[trigger] s[j]).0.total_rank()
}

proof fn lemma_placed(s: Seq<Crossing>, c: Crossing)
    requires
        ascends(s),
    ensures
        ascends(placed(s, c)),
        placed(s, c).len() == s.len() + 1,
        placed(s, c).to_multiset() == s.to_multiset().insert(c),
        forall|i: int|
            0 <= i < placed(s, c).len() ==> (#[trigger] placed(s, c)[i]).0.total_rank()
                <= c.0.total_rank() || s.contains(placed(s, c)[i]),
    decreases s.len(),
{
    broadcast use vstd::seq_lib::group_to_multiset_ensures;

    if s.len() == 0 || s.last().0.total_rank() <= c.0.total_rank() {
        assert(ascends(s.push(c))) by {
            assert forall|i: int, j: int| 0 <= i <= j < s.push(c).len() implies (
            #[trigger] s.push(c)[i]).0.total_rank() <= (#[trigger] s.push(c)[j]).0.total_rank() by {
                if i < s.len() {
                    assert(s[i].0.total_rank() <= s[s.len() - 1].0.total_rank());
                    if j < s.len() {
                        assert(s[i].0.total_rank() <= s[j].0.total_rank());
                    }
                }
            }
        }
        assert forall|i: int| 0 <= i < s.push(c).len() implies (#[trigger] s.push(
            c,
        )[i]).0.total_rank() <= c.0.total_rank() || s.contains(s.push(c)[i]) by {
            if i < s.len() {
                assert(s.contains(s[i]));
            }
        }
    } else {
        let front = s.drop_last();
        let last = s.last();
        assert(ascends(front)) by {
            assert forall|i: int, j: int| 0 <= i <= j < front.len() implies (
            #[trigger] front[i]).0.total_rank() <= (#[trigger] front[j]).0.total_rank() by {
                assert(s[i].0.total_rank() <= s[j].0.total_rank());
            }
        }
        lemma_placed(front, c);
        let p = placed(front, c);
        assert(s =~= front.push(last));
        assert forall|i: int| 0 <= i < p.len() implies (#[trigger] p[i]).0.total_rank()
            <= last.0.total_rank() by {
            if front.contains(p[i]) {
                let k = choose|k: int| 0 <= k < front.len() && front[k] == p[i];
                assert(s[k].0.total_rank() <= s[s.len() - 1].0.total_rank());
            }
        }
        assert forall|i: int, j: int| 0 <= i <= j < p.push(last).len() implies (
        #[trigger] p.push(last)[i]).0.total_rank() <= (#[trigger] p.push(
            last,
        )[j]).0.total_rank() by {
            if j < p.len() {
                assert(p[i].0.total_rank() <= p[j].0.total_rank());
            } else if i < p.len() {
                assert(p[i].0.total_rank() <= last.0.total_rank());
            }
        }
        assert(p.push(last).to_multiset() =~= s.to_multiset().insert(c));
        assert forall|i: int| 0 <= i < p.push(last).len() implies (#[trigger] p.push(
            last,
        )[i]).0.total_rank() <= c.0.total_rank() || s.contains(p.push(last)[i]) by {
            if i < p.len() {
                if front.contains(p[i]) {
                    let k = choose|k: int| 0 <= k < front.len() && front[k] == p[i];
                    assert(s[k] == p[i]);
                }
            } else {
                assert(s[s.len() - 1] == last);
            }
        }
    }
}

/// Sorting puts the crossings in order, and neither loses nor invents one.
pub proof fn sorting_orders_the_crossings(s: Seq<Crossing>, n: int)
    requires
        0 <= n <= s.len(),
    ensures
        ascends(sorted(s, n)),
        sorted(s, n).len() == n,
        sorted(s, n).to_multiset() == s.take(n).to_multiset(),
    decreases n,
{
    broadcast use vstd::seq_lib::group_to_multiset_ensures;

    if n > 0 {
        sorting_orders_the_crossings(s, n - 1);
        lemma_placed(sorted(s, n - 1), s[n - 1]);
        assert(s.take(n) =~= s.take(n - 1).push(s[n - 1]));
    } else {
        assert(s.take(0) =~= Seq::<Crossing>::empty());
        assert(sorted(s, 0) =~= s.take(0));
    }
}

/// The winding number to the right of the first `n` crossings.
pub open spec fn wound(s: Seq<Crossing>, n: int) -> int
    decreases n,
{
    if n <= 0 {
        0
    } else {
        wound(s, n - 1) + s[n - 1].1
    }
}

/// The filled stretches among the first `n` between consecutive crossings.
pub open spec fn filled(s: Seq<Crossing>, rule: FillRule, n: int) -> Seq<(Real, Real)>
    decreases n,
{
    if n <= 0 {
        Seq::empty()
    } else if rule.holds(wound(s, n)) {
        filled(s, rule, n - 1).push((s[n - 1].0, s[n].0))
    } else {
        filled(s, rule, n - 1)
    }
}

/// The filled stretches of a sample line with these crossings.
pub open spec fn spans_of(s: Seq<Crossing>, rule: FillRule) -> Seq<(Real, Real)> {
    let t = sorted(s, s.len() as int);
    filled(
        t,
        rule,
        if t.len() == 0 {
            0
        } else {
            t.len() - 1
        },
    )
}

/// Puts a crossing into a sorted list.
fn place(list: &mut Vec<Crossing>, c: Crossing)
    ensures
        final(list)@ == placed(old(list)@, c),
{
    let n: usize = list.len();
    let mut k: usize = n;
    let ghost s = list@;
    while k > 0 && c.0.precedes(list[k - 1].0)
        invariant
            k <= n == list@.len(),
            list@ == s,
            forall|i: int| k <= i < n ==> c.0.total_rank() < (#[trigger] s[i]).0.total_rank(),
        decreases k,
    {
        k -= 1;
    }
    list.insert(k, c);
    proof {
        lemma_insert(s, c, k as int);
    }
}

proof fn lemma_insert(s: Seq<Crossing>, c: Crossing, k: int)
    requires
        0 <= k <= s.len(),
        forall|i: int| k <= i < s.len() ==> c.0.total_rank() < (#[trigger] s[i]).0.total_rank(),
        k > 0 ==> s[k - 1].0.total_rank() <= c.0.total_rank(),
    ensures
        s.insert(k, c) == placed(s, c),
    decreases s.len(),
{
    if k < s.len() {
        let front = s.drop_last();
        assert(c.0.total_rank() < s[s.len() - 1].0.total_rank());
        lemma_insert(front, c, k);
        assert(s.insert(k, c) =~= front.insert(k, c).push(s.last()));
    } else {
        assert(s.insert(k, c) =~= s.push(c));
    }
}

/// The filled stretches of a sample line, from left to right.
///
/// The stretches between consecutive crossings are disjoint by construction, so
/// coverage can never double-count a pixel.
pub fn spans(crossings: &Vec<Crossing>, rule: FillRule) -> (r: Vec<(Real, Real)>)
    requires
        crossings@.len() <= i32::MAX,
        forall|i: int|
            0 <= i < crossings@.len() ==> -1 <= (#[trigger] crossings@[i]).1 <= 1,
    ensures
        r@ == spans_of(crossings@, rule),
{
    let mut list: Vec<Crossing> = Vec::new();
    let n: usize = crossings.len();
    let mut i: usize = 0;
    while i < n
        invariant
            i <= n == crossings@.len(),
            list@ == sorted(crossings@, i as int),
        decreases n - i,
    {
        place(&mut list, crossings[i]);
        i += 1;
    }
    proof {
        sorting_orders_the_crossings(crossings@, n as int);
        lemma_directions(crossings@, n as int);
    }
    let mut r: Vec<(Real, Real)> = Vec::new();
    let mut winding: i32 = 0;
    let mut k: usize = 1;
    while k < n
        invariant
            1 <= k,
            k <= n || (n == 0 && k == 1),
            n == list@.len() <= i32::MAX,
            list@ == sorted(crossings@, n as int),
            n == crossings@.len(),
            forall|i: int| 0 <= i < n ==> -1 <= (#[trigger] list@[i]).1 <= 1,
            winding == wound(list@, k - 1),
            -(k - 1) <= winding <= k - 1,
            r@ == filled(list@, rule, k - 1),
        decreases n - k,
    {
        winding = winding + list[k - 1].1;
        if rule.fills(winding) {
            r.push((list[k - 1].0, list[k].0));
        }
        k += 1;
    }
    r
}

proof fn lemma_directions(s: Seq<Crossing>, n: int)
    requires
        0 <= n <= s.len(),
        forall|i: int| 0 <= i < s.len() ==> -1 <= (#[trigger] s[i]).1 <= 1,
    ensures
        forall|i: int| 0 <= i < sorted(s, n).len() ==> -1 <= (#[trigger] sorted(s, n)[i]).1 <= 1,
    decreases n,
{
    if n > 0 {
        lemma_directions(s, n - 1);
        lemma_placed_directions(sorted(s, n - 1), s[n - 1]);
    }
}

proof fn lemma_placed_directions(s: Seq<Crossing>, c: Crossing)
    requires
        -1 <= c.1 <= 1,
        forall|i: int| 0 <= i < s.len() ==> -1 <= (#[trigger] s[i]).1 <= 1,
    ensures
        forall|i: int| 0 <= i < placed(s, c).len() ==> -1 <= (#[trigger] placed(s, c)[i]).1 <= 1,
    decreases s.len(),
{
    let all = placed(s, c);
    if s.len() == 0 || s.last().0.total_rank() <= c.0.total_rank() {
        assert forall|i: int| 0 <= i < all.len() implies -1 <= (#[trigger] all[i]).1 <= 1 by {
            if i < s.len() {
                assert(all[i] == s[i]);
            }
        }
    } else {
        lemma_placed_directions(s.drop_last(), c);
        let front = placed(s.drop_last(), c);
        assert forall|i: int| 0 <= i < all.len() implies -1 <= (#[trigger] all[i]).1 <= 1 by {
            if i < front.len() {
                assert(all[i] == front[i]);
            } else {
                assert(all[i] == s[s.len() - 1]);
            }
        }
    }
}

proof fn lemma_filled(s: Seq<Crossing>, rule: FillRule, n: int)
    requires
        0 <= n,
        n == 0 || n < s.len(),
        ascends(s),
    ensures
        forall|i: int|
            0 <= i < filled(s, rule, n).len() ==> (#[trigger] filled(s, rule, n)[i]).0.total_rank()
                <= filled(s, rule, n)[i].1.total_rank() && filled(s, rule, n)[i].1.total_rank()
                <= s[n].0.total_rank(),
        forall|i: int, j: int|
            0 <= i < j < filled(s, rule, n).len() ==> (#[trigger] filled(
                s,
                rule,
                n,
            )[i]).1.total_rank() <= (#[trigger] filled(s, rule, n)[j]).0.total_rank(),
    decreases n,
{
    if n > 0 {
        lemma_filled(s, rule, n - 1);
        assert(s[n - 1].0.total_rank() <= s[n].0.total_rank());
        let all = filled(s, rule, n);
        let before = filled(s, rule, n - 1);
        assert forall|i: int| 0 <= i < all.len() implies (#[trigger] all[i]).0.total_rank()
            <= all[i].1.total_rank() && all[i].1.total_rank() <= s[n].0.total_rank() by {
            if i < before.len() {
                assert(all[i] == before[i]);
            }
        }
        assert forall|i: int, j: int| 0 <= i < j < all.len() implies (
        #[trigger] all[i]).1.total_rank() <= (#[trigger] all[j]).0.total_rank() by {
            assert(all[i] == before[i]);
            if j < before.len() {
                assert(all[j] == before[j]);
            }
        }
    }
}

/// Spans run from left to right and do not overlap.
pub proof fn spans_do_not_overlap(s: Seq<Crossing>, rule: FillRule)
    ensures
        forall|i: int|
            0 <= i < spans_of(s, rule).len() ==> (#[trigger] spans_of(s, rule)[i]).0.total_rank()
                <= spans_of(s, rule)[i].1.total_rank(),
        forall|i: int, j: int|
            0 <= i < j < spans_of(s, rule).len() ==> (#[trigger] spans_of(
                s,
                rule,
            )[i]).1.total_rank() <= (#[trigger] spans_of(s, rule)[j]).0.total_rank(),
{
    sorting_orders_the_crossings(s, s.len() as int);
    let t = sorted(s, s.len() as int);
    lemma_filled(
        t,
        rule,
        if t.len() == 0 {
            0
        } else {
            t.len() - 1
        },
    );
}

/// Which of the first `n` edges the sample line at `y` crosses.
pub open spec fn crossed_by(edges: Seq<Edge>, y: Real, n: int) -> Seq<usize>
    decreases n,
{
    if n <= 0 {
        Seq::empty()
    } else if crosses(edges[n - 1], y) {
        crossed_by(edges, y, n - 1).push((n - 1) as usize)
    } else {
        crossed_by(edges, y, n - 1)
    }
}

/// The edges that the sample line at `y` crosses, by their places. `y` is a
/// number.
pub fn crossed(edges: &Vec<Edge>, y: Real) -> (r: Vec<usize>)
    ensures
        r@ == crossed_by(edges@, y, edges@.len() as int),
        forall|k: int| 0 <= k < r@.len() ==> (#[trigger] r@[k]) < edges@.len(),
{
    let mut r: Vec<usize> = Vec::new();
    let mut i: usize = 0;
    while i < edges.len()
        invariant
            i <= edges@.len(),
            r@ == crossed_by(edges@, y, i as int),
            forall|k: int| 0 <= k < r@.len() ==> (#[trigger] r@[k]) < edges@.len(),
        decreases edges@.len() - i,
    {
        if edges[i].top.y.not_above(y) && y.below(edges[i].bot.y) {
            r.push(i);
        }
        i += 1;
    }
    r
}

/// The least top and the greatest bottom of the first `n` edges; infinitely far
/// apart the wrong way round where there are none.
pub open spec fn extent_of(edges: Seq<Edge>, n: int) -> (Real, Real)
    decreases n,
{
    if n <= 0 {
        (Real { bits: INFINITY }, Real { bits: MINUS_INFINITY })
    } else {
        let (lo, hi) = extent_of(edges, n - 1);
        (lo.lesser(edges[n - 1].top.y), hi.greater(edges[n - 1].bot.y))
    }
}

/// The least top and the greatest bottom of the edges: between them lie all the
/// rows that a path can reach.
pub fn extent(edges: &Vec<Edge>) -> (r: (Real, Real))
    ensures
        r == extent_of(edges@, edges@.len() as int),
{
    let mut lo: Real = Real { bits: INFINITY };
    let mut hi: Real = Real { bits: MINUS_INFINITY };
    let mut i: usize = 0;
    while i < edges.len()
        invariant
            i <= edges@.len(),
            (lo, hi) == extent_of(edges@, i as int),
        decreases edges@.len() - i,
    {
        if edges[i].top.y.below(lo) {
            lo = edges[i].top.y;
        }
        if hi.below(edges[i].bot.y) {
            hi = edges[i].bot.y;
        }
        i += 1;
    }
    (lo, hi)
}

/// Sample lines outside the extent cross no edge.
pub proof fn nothing_is_crossed_outside_the_extent(edges: Seq<Edge>, y: Real, n: int)
    requires
        n <= edges.len(),
        y.less(extent_of(edges, n).0) || extent_of(edges, n).1.at_most(y),
    ensures
        crossed_by(edges, y, n) == Seq::<usize>::empty(),
    decreases n,
{
    lemma_extent_numbers(edges, n);
    if n > 0 {
        lemma_extent_numbers(edges, n - 1);
        nothing_is_crossed_outside_the_extent(edges, y, n - 1);
    }
}

proof fn lemma_extent_numbers(edges: Seq<Edge>, n: int)
    ensures
        !extent_of(edges, n).0.nan(),
        !extent_of(edges, n).1.nan(),
    decreases n,
{
    if n > 0 {
        lemma_extent_numbers(edges, n - 1);
    }
}

/// A vertex that two edges share on the way down gives one crossing, not none
/// and not two.
pub proof fn a_shared_vertex_is_crossed_once(a: Point, b: Point, c: Point, y: Real)
    requires
        a.finite() && b.finite() && c.finite(),
        a.y.less(b.y) && b.y.less(c.y),
        y.equals(b.y),
    ensures
        edge_of(a, b) matches Some(e) && !crosses(e, y),
        edge_of(b, c) matches Some(e) && crosses(e, y),
{
}

/// Whether a pixel is the result of painting over what it was, or unchanged
/// where its coverage is not positive.
pub open spec fn shaded<B: Fn(u32, u32, [u8; 4], Real) -> [u8; 4]>(
    blend: B,
    before: Pixmap,
    after: Pixmap,
    x: u32,
    y: u32,
    cover: Seq<Real>,
) -> bool {
    if x < cover.len() && !cover[x as int].at_most(Real { bits: 0 }) {
        exists|was: [u8; 4], now: [u8; 4]|
            #[trigger] call_ensures(blend, (x, y, was, cover[x as int]), now) && before.shows(
                x,
                y,
                was,
            ) && after.shows(x, y, now)
    } else {
        after.same_at(before, x, y)
    }
}

/// Whether the first `n` pixels of row `y` are shaded by some coverage of the
/// row.
pub open spec fn row_shaded<
    C: Fn(u32) -> Vec<Real>,
    B: Fn(u32, u32, [u8; 4], Real) -> [u8; 4],
>(cover: C, blend: B, before: Pixmap, after: Pixmap, y: u32, n: int) -> bool {
    exists|c: Vec<Real>| #[trigger]
        call_ensures(cover, (y,), c) && forall|x: u32|
            0 <= x < n ==> #[trigger] shaded(blend, before, after, x, y, c@)
}

impl Pixmap {
    /// Whether the pixel `(x, y)` has these bytes.
    pub open spec fn shows(self, x: u32, y: u32, rgba: [u8; 4]) -> bool {
        forall|k: int| 0 <= k < 4 ==> self.bytes()[self.at(x, y) + k] == #[trigger] rgba@[k]
    }

    /// Whether the pixel `(x, y)` is the same in two pixmaps.
    pub open spec fn same_at(self, other: Pixmap, x: u32, y: u32) -> bool {
        forall|k: int|
            self.at(x, y) <= k < self.at(x, y) + 4 ==> (#[trigger] self.bytes()[k])
                == other.bytes()[k]
    }

    /// The bytes of the pixel `(x, y)`.
    pub fn pixel(&self, x: u32, y: u32) -> (rgba: [u8; 4])
        requires
            self.wf(),
            x < self.size().0,
            y < self.size().1,
        ensures
            self.shows(x, y, rgba),
    {
        proof {
            lemma_pixel(*self, x, y);
        }
        let total: usize = self.data.len();
        assert(self.at(x, y) + 4 <= total);
        let i: u128 = (y as u128 * self.width as u128 + x as u128) * 4;
        let i: usize = i as usize;
        [self.data[i], self.data[i + 1], self.data[i + 2], self.data[i + 3]]
    }
}

/// A pixel lies within the buffer.
proof fn lemma_pixel(p: Pixmap, x: u32, y: u32)
    requires
        p.wf(),
        x < p.size().0,
        y < p.size().1,
    ensures
        0 <= p.at(x, y),
        p.at(x, y) + 4 <= p.bytes().len(),
        0 <= y * p.size().0 <= 0xffff_ffff * 0xffff_ffff,
{
    let w = p.size().0 as int;
    let h = p.size().1 as int;
    assert((y * w + x + 1) <= w * h && y * w >= 0) by (nonlinear_arith)
        requires
            0 <= x < w,
            0 <= y < h,
    ;
    assert(0 <= y * w <= 0xffff_ffff * 0xffff_ffff) by (nonlinear_arith)
        requires
            y <= 0xffff_ffff,
            0 <= w <= 0xffff_ffff,
    ;
}

/// Two pixels do not share bytes.
proof fn lemma_apart(p: Pixmap, x: u32, y: u32, u: u32, v: u32)
    requires
        x < p.size().0,
        u < p.size().0,
        (x, y) != (u, v),
    ensures
        p.at(x, y) + 4 <= p.at(u, v) || p.at(u, v) + 4 <= p.at(x, y),
{
    let w = p.size().0 as int;
    if y < v {
        assert(y * w + w <= v * w) by (nonlinear_arith)
            requires
                y < v,
                w >= 0,
        ;
    } else if v < y {
        assert(v * w + w <= y * w) by (nonlinear_arith)
            requires
                v < y,
                w >= 0,
        ;
    }
}

/// What is known of a pixel stays known when another one is written.
proof fn lemma_other_pixel<B: Fn(u32, u32, [u8; 4], Real) -> [u8; 4]>(
    blend: B,
    before: Pixmap,
    mid: Pixmap,
    after: Pixmap,
    x: u32,
    y: u32,
    u: u32,
    v: u32,
    cover: Seq<Real>,
)
    requires
        before.size() == mid.size(),
        mid.size() == after.size(),
        mid.bytes().len() == after.bytes().len(),
        mid.wf(),
        x < mid.size().0,
        u < mid.size().0,
        v < mid.size().1,
        (x, y) != (u, v),
        forall|k: int|
            0 <= k < after.bytes().len() && !(mid.at(x, y) <= k < mid.at(x, y) + 4) ==> (
            #[trigger] after.bytes()[k]) == mid.bytes()[k],
    ensures
        mid.same_at(before, u, v) ==> after.same_at(before, u, v),
        shaded(blend, before, mid, u, v, cover) ==> shaded(blend, before, after, u, v, cover),
{
    lemma_apart(mid, x, y, u, v);
    lemma_pixel(mid, u, v);
    let at = mid.at(u, v);
    assert forall|k: int| at <= k < at + 4 implies (#[trigger] after.bytes()[k]) == mid.bytes()[k] by {}
    if u < cover.len() && !cover[u as int].at_most(Real { bits: 0 }) && shaded(
        blend,
        before,
        mid,
        u,
        v,
        cover,
    ) {
        let (was, now) = choose|was: [u8; 4], now: [u8; 4]|
            #[trigger] call_ensures(blend, (u, v, was, cover[u as int]), now) && before.shows(
                u,
                v,
                was,
            ) && mid.shows(u, v, now);
        assert(after.shows(u, v, now)) by {
            assert forall|k: int| 0 <= k < 4 implies after.bytes()[after.at(u, v) + k]
                == #[trigger] now@[k] by {
                assert(mid.bytes()[mid.at(u, v) + k] == now@[k]);
            }
        }
    }
}

proof fn lemma_other_row<
    C: Fn(u32) -> Vec<Real>,
    B: Fn(u32, u32, [u8; 4], Real) -> [u8; 4],
>(cover: C, blend: B, before: Pixmap, mid: Pixmap, after: Pixmap, x: u32, y: u32, v: u32)
    requires
        before.size() == mid.size(),
        mid.size() == after.size(),
        mid.bytes().len() == after.bytes().len(),
        mid.wf(),
        x < mid.size().0,
        v < mid.size().1,
        v != y,
        forall|k: int|
            0 <= k < after.bytes().len() && !(mid.at(x, y) <= k < mid.at(x, y) + 4) ==> (
            #[trigger] after.bytes()[k]) == mid.bytes()[k],
        row_shaded(cover, blend, before, mid, v, mid.size().0 as int),
    ensures
        row_shaded(cover, blend, before, after, v, mid.size().0 as int),
{
    let w = mid.size().0 as int;
    let c = choose|c: Vec<Real>| #[trigger]
        call_ensures(cover, (v,), c) && forall|u: u32|
            0 <= u < w ==> #[trigger] shaded(blend, before, mid, u, v, c@);
    assert forall|u: u32| 0 <= u < w implies #[trigger] shaded(blend, before, after, u, v, c@) by {
        assert(shaded(blend, before, mid, u, v, c@));
        lemma_other_pixel(blend, before, mid, after, x, y, u, v, c@);
    }
}

impl Pixmap {
    /// Paints the pixels of `rows` that are covered. `cover` gives the coverage
    /// of one row of pixels, and `blend` what a pixel becomes when it is painted
    /// over at a coverage.
    ///
    /// Rows outside the pixmap and coverage beyond its width are clipped away,
    /// and a pixel whose coverage is not positive is left alone.
    pub fn paint_rows<C: Fn(u32) -> Vec<Real>, B: Fn(u32, u32, [u8; 4], Real) -> [u8; 4]>(
        &mut self,
        rows: Rows,
        cover: &C,
        blend: &B,
    )
        requires
            old(self).wf(),
            forall|y: u32| y < old(self).size().1 ==> call_requires(cover, (y,)),
            forall|x: u32, y: u32, was: [u8; 4], c: Real| call_requires(blend, (x, y, was, c)),
        ensures
            final(self).wf(),
            final(self).size() == old(self).size(),
            forall|y: u32|
                rows.has(y as int) && y < old(self).size().1 ==> #[trigger] row_shaded(
                    *cover,
                    *blend,
                    *old(self),
                    *final(self),
                    y,
                    old(self).size().0 as int,
                ),
            forall|x: u32, y: u32|
                x < old(self).size().0 && y < old(self).size().1 && !rows.has(y as int)
                    ==> #[trigger] final(self).same_at(*old(self), x, y),
    {
        let ghost before = *self;
        let w: u32 = self.width;
        let end: u32 = if rows.y1 < self.height {
            rows.y1
        } else {
            self.height
        };
        let mut y: u32 = rows.y0;
        while y < end
            invariant
                rows.y0 <= y,
                y <= end || end < rows.y0,
                end == (if rows.y1 < before.size().1 {
                    rows.y1
                } else {
                    before.size().1
                }),
                w == before.size().0,
                self.wf(),
                self.size() == before.size(),
                forall|y: u32| y < before.size().1 ==> call_requires(cover, (y,)),
                forall|x: u32, y: u32, was: [u8; 4], c: Real| call_requires(blend, (x, y, was, c)),
                forall|v: u32|
                    rows.y0 <= v < y && v < end ==> #[trigger] row_shaded(
                        *cover,
                        *blend,
                        before,
                        *self,
                        v,
                        w as int,
                    ),
                forall|u: u32, v: u32|
                    u < w && v < before.size().1 && !(rows.y0 <= v < y && v < end)
                        ==> #[trigger] self.same_at(before, u, v),
            decreases end - y,
        {
            let c = cover(y);
            let mut x: u32 = 0;
            while x < w
                invariant
                    x <= w,
                    rows.y0 <= y < end <= before.size().1,
                    w == before.size().0,
                    self.wf(),
                    self.size() == before.size(),
                    call_ensures(cover, (y,), c),
                    forall|x: u32, y: u32, was: [u8; 4], c: Real|
                        call_requires(blend, (x, y, was, c)),
                    forall|v: u32|
                        rows.y0 <= v < y ==> #[trigger] row_shaded(
                            *cover,
                            *blend,
                            before,
                            *self,
                            v,
                            w as int,
                        ),
                    forall|u: u32|
                        0 <= u < x ==> #[trigger] shaded(*blend, before, *self, u, y, c@),
                    forall|u: u32, v: u32|
                        u < w && v < before.size().1 && !(rows.y0 <= v < y) && !(v == y && u < x)
                            ==> #[trigger] self.same_at(before, u, v),
                decreases w - x,
            {
                let ghost mid = *self;
                assert(mid.same_at(before, x, y));
                if (x as usize) < c.len() && !c[x as usize].not_above(Real { bits: 0 }) {
                    let was = self.pixel(x, y);
                    let now = blend(x, y, was, c[x as usize]);
                    self.set_pixel(x, y, now);
                    proof {
                        lemma_pixel(mid, x, y);
                        assert forall|k: int|
                            0 <= k < self.bytes().len() && !(mid.at(x, y) <= k < mid.at(x, y)
                                + 4) implies (#[trigger] self.bytes()[k]) == mid.bytes()[k] by {}
                        assert(self.shows(x, y, now)) by {
                            assert forall|k: int| 0 <= k < 4 implies self.bytes()[self.at(x, y) + k]
                                == #[trigger] now@[k] by {}
                        }
                        assert(before.shows(x, y, was)) by {
                            assert forall|k: int| 0 <= k < 4 implies before.bytes()[before.at(
                                x,
                                y,
                            ) + k] == #[trigger] was@[k] by {
                                assert(mid.bytes()[mid.at(x, y) + k] == was@[k]);
                            }
                        }
                        assert(shaded(*blend, before, *self, x, y, c@));
                        assert forall|v: u32| rows.y0 <= v < y implies #[trigger] row_shaded(
                            *cover,
                            *blend,
                            before,
                            *self,
                            v,
                            w as int,
                        ) by {
                            assert(row_shaded(*cover, *blend, before, mid, v, w as int));
                            lemma_other_row(*cover, *blend, before, mid, *self, x, y, v);
                        }
                        assert forall|u: u32| 0 <= u < x implies #[trigger] shaded(
                            *blend,
                            before,
                            *self,
                            u,
                            y,
                            c@,
                        ) by {
                            assert(shaded(*blend, before, mid, u, y, c@));
                            lemma_other_pixel(*blend, before, mid, *self, x, y, u, y, c@);
                        }
                        assert forall|u: u32, v: u32|
                            u < w && v < before.size().1 && !(rows.y0 <= v < y) && !(v == y && u
                                < x + 1) implies #[trigger] self.same_at(before, u, v) by {
                            assert(mid.same_at(before, u, v));
                            lemma_other_pixel(*blend, before, mid, *self, x, y, u, v, c@);
                        }
                    }
                }
                x += 1;
            }
            assert(row_shaded(*cover, *blend, before, *self, y, w as int));
            y += 1;
        }
    }
}

/// A line makes an edge unless it is level or not finite: from its upper end to its
/// lower one, counted down as 1 and up as -1. Drawn the other way about it is the
/// same edge with the opposite count.
pub proof fn a_line_makes_one_edge(a: Point, b: Point)
    ensures
        edge_of(a, b) is None <==> a.y.equals(b.y) || !a.finite() || !b.finite(),
        a.finite() && b.finite() && a.y.less(b.y) ==> edge_of(a, b) == Some(
            Edge { top: a, bot: b, dir: 1 },
        ) && edge_of(b, a) == Some(Edge { top: a, bot: b, dir: -1i32 }),
{
}

/// An edge is crossed at its top and down to, but not at, its bottom.
pub proof fn an_edge_is_crossed_from_its_top_on(e: Edge, y: Real)
    ensures
        crosses(e, y) <==> (e.top.y.less(y) || e.top.y.equals(y)) && y.less(e.bot.y),
{
}

/// The edges crossed at a height are those that the height is in, each once and in
/// order.
pub proof fn every_crossed_edge_is_listed(edges: Seq<Edge>, y: Real, n: int, k: int)
    requires
        0 <= n <= edges.len() <= usize::MAX,
        0 <= k < n,
    ensures
        crosses(edges[k], y) <==> crossed_by(edges, y, n).contains(k as usize),
        forall|i: int, j: int|
            0 <= i < j < crossed_by(edges, y, n).len() ==> (#[trigger] crossed_by(edges, y, n)[i])
                < (#[trigger] crossed_by(edges, y, n)[j]) < n,
        forall|i: int|
            0 <= i < crossed_by(edges, y, n).len() ==> (#[trigger] crossed_by(edges, y, n)[i]) < n,
    decreases n,
{
    let before = crossed_by(edges, y, n - 1);
    let now = crossed_by(edges, y, n);
    if n > 1 {
        every_crossed_edge_is_listed(
            edges,
            y,
            n - 1,
            if k < n - 1 {
                k
            } else {
                0
            },
        );
    }
    if crosses(edges[n - 1], y) {
        assert(now[now.len() - 1] == n - 1);
    }
    if k < n - 1 {
        if before.contains(k as usize) {
            let m = choose|m: int| 0 <= m < before.len() && before[m] == k as usize;
            assert(now[m] == k as usize);
        }
        if now.contains(k as usize) {
            let m = choose|m: int| 0 <= m < now.len() && now[m] == k as usize;
            if m < before.len() {
                assert(before[m] == k as usize);
            }
        }
    } else if now.contains(k as usize) && !crosses(edges[k], y) {
        let m = choose|m: int| 0 <= m < now.len() && now[m] == k as usize;
        assert(before[m] < n - 1);
    }
}

/// A line adds its own edge to those drawn before and leaves the pen at its end; a
/// moveto closes what was open and begins anew, and a closepath closes it and goes
/// back to its start.
pub proof fn a_pen_draws_what_it_is_told(pen: Pen, p: Point)
    ensures
        ({
            let line = drawn(pen, FlatModel::LineTo(p));
            let moved = drawn(pen, FlatModel::MoveTo(p));
            let closed = drawn(pen, FlatModel::ClosePath);
            &&& line.cur == p && line.start == pen.start
            &&& moved.cur == p && moved.start == p
            &&& closed.cur == pen.start && closed.start == pen.start
            &&& edge_of(pen.cur, p) matches Some(e) ==> line.edges == pen.edges.push(e)
            &&& edge_of(pen.cur, p) is None ==> line.edges == pen.edges
            &&& edge_of(pen.cur, pen.start) matches Some(e) ==> moved.edges == pen.edges.push(e)
                && closed.edges == pen.edges.push(e)
            &&& edge_of(pen.cur, pen.start) is None ==> moved.edges == pen.edges && closed.edges
                == pen.edges
        }),
{
}

/// A flattened curve is drawn as the lines between its points.
pub proof fn a_polyline_draws_each_of_its_lines(edges: Seq<Edge>, poly: Seq<Point>, n: int, k: int)
    requires
        0 <= k < n < poly.len(),
    ensures
        with_polyline(edges, poly, n).len() >= edges.len(),
        edge_of(poly[k], poly[k + 1]) matches Some(e) ==> with_polyline(edges, poly, n).contains(e),
    decreases n,
{
    let before = with_polyline(edges, poly, n - 1);
    let now = with_polyline(edges, poly, n);
    if n > 1 {
        a_polyline_draws_each_of_its_lines(
            edges,
            poly,
            n - 1,
            if k < n - 1 {
                k
            } else {
                0
            },
        );
    } else {
        assert(before == edges);
    }
    if edge_of(poly[k], poly[k + 1]) is Some {
        let e = edge_of(poly[k], poly[k + 1])->0;
        if k < n - 1 {
            let m = choose|m: int| 0 <= m < before.len() && before[m] == e;
            assert(now[m] == e);
        } else {
            assert(now[now.len() - 1] == e);
        }
    }
}

/// Between two neighbouring crossings there is a span exactly where the winding
/// number there fills: for the nonzero rule where it is not zero.
pub proof fn the_nonzero_rule_fills_what_is_wound(s: Seq<Crossing>, n: int, k: int)
    requires
        0 <= k < n < s.len(),
    ensures
        wound(s, k + 1) != 0 ==> filled(s, FillRule::NonZero, n).contains((s[k].0, s[k + 1].0)),
        (forall|j: int| 0 < j <= n ==> #[trigger] wound(s, j) == 0) ==> filled(
            s,
            FillRule::NonZero,
            n,
        ).len() == 0,
        wound(s, n) == 0 ==> filled(s, FillRule::NonZero, n) == filled(s, FillRule::NonZero, n - 1),
    decreases n,
{
    let before = filled(s, FillRule::NonZero, n - 1);
    let now = filled(s, FillRule::NonZero, n);
    if n > 1 {
        the_nonzero_rule_fills_what_is_wound(
            s,
            n - 1,
            if k < n - 1 {
                k
            } else {
                0
            },
        );
    }
    if wound(s, k + 1) != 0 {
        if k < n - 1 {
            let m = choose|m: int| 0 <= m < before.len() && before[m] == (s[k].0, s[k + 1].0);
            assert(now[m] == before[m]);
        } else {
            assert(now[now.len() - 1] == (s[k].0, s[k + 1].0));
        }
    }
}

/// The even-odd rule fills every other gap between crossings, from the first on,
/// whichever way each of them goes.
pub proof fn the_even_odd_rule_fills_every_other_gap(s: Seq<Crossing>, n: int, k: int)
    requires
        0 <= n < s.len(),
        forall|i: int| 0 <= i < s.len() ==> (#[trigger] s[i]).1 == 1 || s[i].1 == -1,
    ensures
        filled(s, FillRule::EvenOdd, n).len() == (n + 1) / 2,
        0 <= k < (n + 1) / 2 ==> filled(s, FillRule::EvenOdd, n)[k] == (s[2 * k].0, s[2 * k + 1].0),
    decreases n,
{
    if n > 0 {
        the_even_odd_rule_fills_every_other_gap(s, n - 1, k);
        lemma_wound_parity(s, n);
    }
}

proof fn lemma_wound_parity(s: Seq<Crossing>, n: int)
    requires
        0 <= n <= s.len(),
        forall|i: int| 0 <= i < s.len() ==> (#[trigger] s[i]).1 == 1 || s[i].1 == -1,
    ensures
        wound(s, n) % 2 == n % 2,
    decreases n,
{
    if n > 0 {
        lemma_wound_parity(s, n - 1);
        assert(s[n - 1].1 == 1 || s[n - 1].1 == -1);
    }
}

/// The extent reaches from the highest edge to the lowest and no further.
pub proof fn the_extent_is_as_tall_as_its_edges(edges: Seq<Edge>, n: int, k: int)
    requires
        0 <= k < n <= edges.len(),
        all_upright(edges),
    ensures
        extent_of(edges, n).0.at_most(edges[k].top.y),
        edges[k].bot.y.at_most(extent_of(edges, n).1),
        exists|i: int| 0 <= i < n && (#[trigger] edges[i]).top.y == extent_of(edges, n).0,
        exists|i: int| 0 <= i < n && (#[trigger] edges[i]).bot.y == extent_of(edges, n).1,
        extent_of(edges, n).0.finite() && extent_of(edges, n).1.finite(),
    decreases n,
{
    let e = edges[n - 1];
    assert(upright(e));
    let before = extent_of(edges, n - 1);
    let now = extent_of(edges, n);
    if n > 1 {
        the_extent_is_as_tall_as_its_edges(
            edges,
            n - 1,
            if k < n - 1 {
                k
            } else {
                0
            },
        );
        let i = choose|i: int| 0 <= i < n - 1 && (#[trigger] edges[i]).top.y == before.0;
        let j = choose|j: int| 0 <= j < n - 1 && (#[trigger] edges[j]).bot.y == before.1;
        assert(edges[i].top.y == now.0 || e.top.y == now.0);
        assert(edges[j].bot.y == now.1 || e.bot.y == now.1);
    } else {
        assert(before.0 == (Real { bits: INFINITY }) && before.1 == (Real { bits: MINUS_INFINITY }));
        assert(now.0 == e.top.y);
        assert(now.1 == e.bot.y);
    }
}

/// No two pixels share a byte, and every byte of the buffer is in one of them.
pub proof fn pixels_are_laid_out_row_by_row(p: Pixmap, x: u32, y: u32, u: u32, v: u32)
    requires
        x < p.size().0 && u < p.size().0,
        y < p.size().1 && v < p.size().1,
        p.wf(),
    ensures
        0 <= p.at(x, y) && p.at(x, y) + 4 <= p.bytes().len(),
        p.at(0, 0) == 0,
        x + 1 < p.size().0 ==> p.at((x + 1) as u32, y) == p.at(x, y) + 4,
        y + 1 < p.size().1 ==> p.at(x, (y + 1) as u32) == p.at(x, y) + 4 * p.size().0,
        y < v ==> p.at(x, y) + 4 <= p.at(u, v),
{
    let w = p.size().0 as int;
    let h = p.size().1 as int;
    assert(y * w + x + 1 <= h * w) by (nonlinear_arith)
        requires
            0 <= y <= h - 1,
            0 <= x < w,
    ;
    assert(h * w == w * h) by (nonlinear_arith);
    assert((y + 1) * w == y * w + w) by (nonlinear_arith);
    if y < v {
        assert((y + 1) * w <= v * w) by (nonlinear_arith)
            requires
                y + 1 <= v,
                0 <= w,
        ;
    }
    assert(0 <= y * w) by (nonlinear_arith)
        requires
            0 <= y,
            0 <= w,
    ;
}

/// A pixel that nothing covers stays as it is; any other is blended from what it was,
/// by how much of it is covered.
pub proof fn an_uncovered_pixel_stays<B: Fn(u32, u32, [u8; 4], Real) -> [u8; 4]>(
    blend: B,
    before: Pixmap,
    after: Pixmap,
    x: u32,
    y: u32,
    cover: Seq<Real>,
)
    requires
        shaded(blend, before, after, x, y, cover),
    ensures
        x >= cover.len() || cover[x as int].bits == 0 || cover[x as int].less(Real { bits: 0 })
            ==> after.same_at(before, x, y),
        x < cover.len() && (Real { bits: 0 }).less(cover[x as int]) ==> exists|
            was: [u8; 4],
            now: [u8; 4],
        |
            #[trigger] call_ensures(blend, (x, y, was, cover[x as int]), now) && before.shows(
                x,
                y,
                was,
            ) && after.shows(x, y, now),
{
}

/// A pixmap shows one color at a pixel: that of its four bytes in order.
pub proof fn a_pixel_is_four_bytes(p: Pixmap, x: u32, y: u32, a: [u8; 4], b: [u8; 4])
    requires
        p.shows(x, y, a),
        p.shows(x, y, b),
    ensures
        a@ == b@,
        a@[0] == p.bytes()[p.at(x, y)] && a@[3] == p.bytes()[p.at(x, y) + 3],
{
    assert forall|k: int| 0 <= k < 4 implies a@[k] == b@[k] by {
        assert(p.bytes()[p.at(x, y) + k] == a@[k]);
    }
    assert(a@ =~= b@);
}

} // verus!
