//! The coverage of a row of pixels: how much of each the inside of a path
//! covers, sampled along a few lines and exact along each.

use vstd::prelude::*;
use crate::geom::Real;
use crate::path::boolean::FillRule;
use crate::raster::fill;
use crate::raster::fill::crossed;
use crate::raster::fill::spans;
use crate::raster::fill::Crossing;
use crate::raster::fill::Edge;

verus! {

/// How many sample lines a row of pixels has.
pub const SUB_ROWS: u32 = 16;

/// The greater of a number and a bound; the bound for what is not a number.
pub open spec fn raised(v: Real, bound: Real) -> Real {
    if bound.less(v) {
        v
    } else {
        bound
    }
}

/// The lesser of a number and a bound; the bound for what is not a number.
pub open spec fn lowered(v: Real, bound: Real) -> Real {
    if v.less(bound) {
        v
    } else {
        bound
    }
}

/// What the stretch from `a` to `b` makes of the coverage of the pixel between
/// two edges: it grows by the part of the stretch inside the pixel.
pub open spec fn grown<G: Fn(Real, Real, Real) -> Real>(
    grow: G,
    stretch: (Real, Real),
    pixel: (Real, Real),
    was: Real,
    now: Real,
) -> bool {
    let lo = raised(stretch.0, pixel.0);
    let hi = lowered(stretch.1, pixel.1);
    if lo.less(hi) {
        call_ensures(grow, (was, lo, hi), now)
    } else {
        now == was
    }
}

/// Whether adding a stretch takes the coverage of a row to another. `ruler`
/// holds the edges of the pixels.
pub open spec fn span_added<G: Fn(Real, Real, Real) -> Real>(
    grow: G,
    ruler: Seq<Real>,
    stretch: (Real, Real),
    before: Seq<Real>,
    after: Seq<Real>,
) -> bool {
    let a = raised(stretch.0, ruler[0]);
    let b = lowered(stretch.1, ruler.last());
    if b.at_most(a) {
        after == before
    } else {
        &&& after.len() == before.len()
        &&& forall|i: int|
            0 <= i < before.len() ==> grown(
                grow,
                (a, b),
                (ruler[i], ruler[i + 1]),
                before[i],
                #[trigger] after[i],
            )
    }
}

/// What happens along one sample line: where it lies, where it is crossed, and
/// the coverage before each of its filled stretches and after the last.
pub struct LineModel {
    pub at: Real,
    pub crossings: Seq<Crossing>,
    pub steps: Seq<Seq<Real>>,
}

/// Whether a line is crossed at the places of the edges that meet it.
pub open spec fn meets<X: Fn(Edge, Real) -> Real>(x_at: X, edges: Seq<Edge>, l: LineModel) -> bool {
    let places = fill::crossed_by(edges, l.at, edges.len() as int);
    &&& l.crossings.len() == places.len()
    &&& forall|k: int|
        0 <= k < places.len() ==> (#[trigger] l.crossings[k]).1 == edges[places[k] as int].dir
            && call_ensures(x_at, (edges[places[k] as int], l.at), l.crossings[k].0)
}

/// Whether the coverage takes in the filled stretches of a line one by one.
pub open spec fn accumulates<G: Fn(Real, Real, Real) -> Real>(
    grow: G,
    ruler: Seq<Real>,
    rule: FillRule,
    l: LineModel,
) -> bool {
    let list = fill::spans_of(l.crossings, rule);
    &&& l.steps.len() == list.len() + 1
    &&& forall|k: int|
        0 <= k < list.len() ==> span_added(
            grow,
            ruler,
            #[trigger] list[k],
            l.steps[k],
            l.steps[k + 1],
        )
}

/// Whether the lines of a row follow one another, from no coverage on.
pub open spec fn follow(lines: Seq<LineModel>, width: nat) -> bool {
    forall|s: int|
        0 <= s < lines.len() ==> (#[trigger] lines[s]).steps.len() > 0 && lines[s].steps[0] == (if s
            == 0 {
            Seq::new(width, |i: int| Real { bits: 0 })
        } else {
            lines[s - 1].steps.last()
        })
}

/// Whether `lines` are the sample lines of row `y`.
pub open spec fn sampled<
    L: Fn(u32, u32) -> Real,
    X: Fn(Edge, Real) -> Real,
    G: Fn(Real, Real, Real) -> Real,
>(
    line: L,
    x_at: X,
    grow: G,
    edges: Seq<Edge>,
    y: u32,
    ruler: Seq<Real>,
    rule: FillRule,
    lines: Seq<LineModel>,
) -> bool {
    &&& follow(lines, (ruler.len() - 1) as nat)
    &&& forall|s: int|
        0 <= s < lines.len() ==> call_ensures(line, (y, s as u32), (#[trigger] lines[s]).at)
            && meets(x_at, edges, lines[s]) && accumulates(grow, ruler, rule, lines[s])
}

fn raise(v: Real, bound: Real) -> (r: Real)
    ensures
        r == raised(v, bound),
{
    if bound.below(v) {
        v
    } else {
        bound
    }
}

fn lower(v: Real, bound: Real) -> (r: Real)
    ensures
        r == lowered(v, bound),
{
    if v.below(bound) {
        v
    } else {
        bound
    }
}

/// Adds a stretch to the coverage of a row, the partial pixels at each end
/// carrying their exact fraction. `ruler` holds the edges of the pixels, and
/// `grow` is a coverage grown by the stretch between two places.
pub fn add_span<G: Fn(Real, Real, Real) -> Real>(
    acc: &mut Vec<Real>,
    ruler: &Vec<Real>,
    stretch: (Real, Real),
    grow: &G,
)
    requires
        ruler@.len() == old(acc)@.len() + 1,
        forall|c: Real, a: Real, b: Real| call_requires(grow, (c, a, b)),
    ensures
        span_added(*grow, ruler@, stretch, old(acc)@, final(acc)@),
        final(acc)@.len() == old(acc)@.len(),
{
    let n: usize = acc.len();
    let ghost before = acc@;
    let a = raise(stretch.0, ruler[0]);
    let b = lower(stretch.1, ruler[n]);
    if b.not_above(a) {
        return ;
    }
    let mut i: usize = 0;
    while i < n
        invariant
            i <= n == before.len() == acc@.len(),
            ruler@.len() == n + 1,
            forall|c: Real, a: Real, b: Real| call_requires(grow, (c, a, b)),
            forall|k: int| i <= k < n ==> (#[trigger] acc@[k]) == before[k],
            forall|k: int|
                0 <= k < i ==> grown(
                    *grow,
                    (a, b),
                    (ruler@[k], ruler@[k + 1]),
                    before[k],
                    #[trigger] acc@[k],
                ),
        decreases n - i,
    {
        let lo = raise(a, ruler[i]);
        let hi = lower(b, ruler[i + 1]);
        if lo.below(hi) {
            let now = grow(acc[i], lo, hi);
            acc.set(i, now);
        }
        i += 1;
    }
}

/// The coverage of row `y` of pixels, one number per pixel. `line` places a
/// sample line in a row, `x_at` is where an edge crosses such a line, and `grow`
/// a coverage grown by the stretch between two places.
pub fn coverage_row<
    L: Fn(u32, u32) -> Real,
    X: Fn(Edge, Real) -> Real,
    G: Fn(Real, Real, Real) -> Real,
>(
    edges: &Vec<Edge>,
    y: u32,
    ruler: &Vec<Real>,
    rule: FillRule,
    line: &L,
    x_at: &X,
    grow: &G,
) -> (acc: Vec<Real>)
    requires
        ruler@.len() > 0,
        edges@.len() <= i32::MAX,
        fill::all_upright(edges@),
        forall|y: u32, s: u32| call_requires(line, (y, s)),
        forall|e: Edge, y: Real| call_requires(x_at, (e, y)),
        forall|c: Real, a: Real, b: Real| call_requires(grow, (c, a, b)),
    ensures
        acc@.len() == ruler@.len() - 1,
        exists|lines: Seq<LineModel>| #[trigger]
            sampled(*line, *x_at, *grow, edges@, y, ruler@, rule, lines) && lines.len() == SUB_ROWS
                && acc@ == lines.last().steps.last(),
{
    let width: usize = ruler.len() - 1;
    let mut acc: Vec<Real> = Vec::new();
    let mut i: usize = 0;
    while i < width
        invariant
            i <= width,
            acc@.len() == i,
            forall|k: int| 0 <= k < i ==> (#[trigger] acc@[k]) == (Real { bits: 0 }),
        decreases width - i,
    {
        acc.push(Real { bits: 0 });
        i += 1;
    }
    let ghost mut lines: Seq<LineModel> = Seq::empty();
    assert(acc@ =~= Seq::new(width as nat, |i: int| Real { bits: 0 }));
    let mut s: u32 = 0;
    while s < SUB_ROWS
        invariant
            s <= SUB_ROWS,
            lines.len() == s,
            width == ruler@.len() - 1,
            acc@.len() == width,
            acc@ == (if s == 0 {
                Seq::new(width as nat, |i: int| Real { bits: 0 })
            } else {
                lines[s - 1].steps.last()
            }),
            edges@.len() <= i32::MAX,
            fill::all_upright(edges@),
            forall|y: u32, s: u32| call_requires(line, (y, s)),
            forall|e: Edge, y: Real| call_requires(x_at, (e, y)),
            forall|c: Real, a: Real, b: Real| call_requires(grow, (c, a, b)),
            sampled(*line, *x_at, *grow, edges@, y, ruler@, rule, lines),
        decreases SUB_ROWS - s,
    {
        let at = line(y, s);
        let places = crossed(edges, at);
        let crossings = crossings_of(edges, &places, at, x_at);
        proof {
            lemma_crossed(edges@, at, edges@.len() as int);
        }
        let list = spans(&crossings, rule);
        let ghost first = acc@;
        let ghost mut steps: Seq<Seq<Real>> = seq![first];
        let mut k: usize = 0;
        while k < list.len()
            invariant
                k <= list@.len(),
                steps.len() == k + 1,
                steps.last() == acc@,
                acc@.len() == width == ruler@.len() - 1,
                forall|c: Real, a: Real, b: Real| call_requires(grow, (c, a, b)),
                forall|j: int|
                    0 <= j < k ==> span_added(
                        *grow,
                        ruler@,
                        #[trigger] list@[j],
                        steps[j],
                        steps[j + 1],
                    ),
                steps[0] == first,
            decreases list.len() - k,
        {
            let ghost before = steps;
            add_span(&mut acc, ruler, list[k], grow);
            proof {
                steps = steps.push(acc@);
                assert forall|j: int| 0 <= j < k + 1 implies span_added(
                    *grow,
                    ruler@,
                    #[trigger] list@[j],
                    steps[j],
                    steps[j + 1],
                ) by {
                    assert(steps[j] == before[j]);
                    if j < k {
                        assert(steps[j + 1] == before[j + 1]);
                    }
                }
            }
            k += 1;
        }
        proof {
            let l = LineModel { at, crossings: crossings@, steps };
            let earlier = lines;
            lines = lines.push(l);
            assert(accumulates(*grow, ruler@, rule, l));
            assert(meets(*x_at, edges@, l));
            assert forall|t: int| 0 <= t < lines.len() implies call_ensures(
                line,
                (y, t as u32),
                (#[trigger] lines[t]).at,
            ) && meets(*x_at, edges@, lines[t]) && accumulates(*grow, ruler@, rule, lines[t]) by {
                if t < s {
                    assert(lines[t] == earlier[t]);
                }
            }
            assert forall|t: int| 0 <= t < lines.len() implies (#[trigger] lines[t]).steps.len() > 0
                && lines[t].steps[0] == (if t == 0 {
                Seq::new((ruler@.len() - 1) as nat, |i: int| Real { bits: 0 })
            } else {
                lines[t - 1].steps.last()
            }) by {
                if t < s {
                    assert(lines[t] == earlier[t]);
                    if t > 0 {
                        assert(lines[t - 1] == earlier[t - 1]);
                    }
                }
            }
        }
        s += 1;
    }
    acc
}

proof fn lemma_crossed(edges: Seq<Edge>, at: Real, n: int)
    requires
        0 <= n,
    ensures
        fill::crossed_by(edges, at, n).len() <= n,
    decreases n,
{
    if n > 0 {
        lemma_crossed(edges, at, n - 1);
    }
}

/// Where the edges at `places` cross a sample line.
fn crossings_of<X: Fn(Edge, Real) -> Real>(
    edges: &Vec<Edge>,
    places: &Vec<usize>,
    at: Real,
    x_at: &X,
) -> (r: Vec<Crossing>)
    requires
        forall|k: int| 0 <= k < places@.len() ==> (#[trigger] places@[k]) < edges@.len(),
        fill::all_upright(edges@),
        forall|e: Edge, y: Real| call_requires(x_at, (e, y)),
    ensures
        r@.len() == places@.len(),
        forall|k: int|
            0 <= k < places@.len() ==> (#[trigger] r@[k]).1 == edges@[places@[k] as int].dir
                && call_ensures(x_at, (edges@[places@[k] as int], at), r@[k].0),
        forall|k: int| 0 <= k < r@.len() ==> -1 <= (#[trigger] r@[k]).1 <= 1,
{
    let mut r: Vec<Crossing> = Vec::new();
    let mut k: usize = 0;
    while k < places.len()
        invariant
            k <= places@.len(),
            r@.len() == k,
            forall|k: int| 0 <= k < places@.len() ==> (#[trigger] places@[k]) < edges@.len(),
            fill::all_upright(edges@),
            forall|e: Edge, y: Real| call_requires(x_at, (e, y)),
            forall|j: int|
                0 <= j < k ==> (#[trigger] r@[j]).1 == edges@[places@[j] as int].dir
                    && call_ensures(x_at, (edges@[places@[j] as int], at), r@[j].0),
            forall|j: int| 0 <= j < k ==> -1 <= (#[trigger] r@[j]).1 <= 1,
        decreases places.len() - k,
    {
        let e = edges[places[k]];
        assert(fill::upright(e));
        r.push((x_at(e, at), e.dir));
        k += 1;
    }
    r
}

proof fn lemma_bare<
    L: Fn(u32, u32) -> Real,
    X: Fn(Edge, Real) -> Real,
    G: Fn(Real, Real, Real) -> Real,
>(
    line: L,
    x_at: X,
    grow: G,
    edges: Seq<Edge>,
    y: u32,
    ruler: Seq<Real>,
    rule: FillRule,
    lines: Seq<LineModel>,
    s: int,
)
    requires
        sampled(line, x_at, grow, edges, y, ruler, rule, lines),
        0 <= s < lines.len(),
        forall|t: int|
            0 <= t < lines.len() ==> fill::crossed_by(
                edges,
                (#[trigger] lines[t]).at,
                edges.len() as int,
            ).len() == 0,
    ensures
        lines[s].steps.last() == Seq::new((ruler.len() - 1) as nat, |i: int| Real { bits: 0 }),
    decreases s,
{
    let l = lines[s];
    assert(meets(x_at, edges, l) && accumulates(grow, ruler, rule, l));
    assert(fill::crossed_by(edges, lines[s].at, edges.len() as int).len() == 0);
    assert(l.crossings =~= Seq::empty());
    assert(l.steps.len() == 1);
    if s > 0 {
        lemma_bare(line, x_at, grow, edges, y, ruler, rule, lines, s - 1);
    }
}

/// A row whose sample lines cross no edge has no coverage, whatever the rule.
pub proof fn a_row_that_nothing_crosses_is_bare<
    L: Fn(u32, u32) -> Real,
    X: Fn(Edge, Real) -> Real,
    G: Fn(Real, Real, Real) -> Real,
>(
    line: L,
    x_at: X,
    grow: G,
    edges: Seq<Edge>,
    y: u32,
    ruler: Seq<Real>,
    rule: FillRule,
    lines: Seq<LineModel>,
)
    requires
        lines.len() == SUB_ROWS,
        sampled(line, x_at, grow, edges, y, ruler, rule, lines),
        forall|t: int|
            0 <= t < lines.len() ==> fill::crossed_by(
                edges,
                (#[trigger] lines[t]).at,
                edges.len() as int,
            ).len() == 0,
    ensures
        lines.last().steps.last() == Seq::new(
            (ruler.len() - 1) as nat,
            |i: int| Real { bits: 0 },
        ),
{
    lemma_bare(line, x_at, grow, edges, y, ruler, rule, lines, lines.len() - 1);
}

/// What a stretch covers of a pixel is what the two have in common: from the later
/// of the starts to the earlier of the ends, and nothing where those do not leave
/// anything between them.
pub proof fn a_stretch_covers_what_it_shares_with_a_pixel<G: Fn(Real, Real, Real) -> Real>(
    grow: G,
    stretch: (Real, Real),
    pixel: (Real, Real),
    was: Real,
    now: Real,
)
    requires
        !stretch.0.nan() && !stretch.1.nan() && !pixel.0.nan() && !pixel.1.nan(),
        grown(grow, stretch, pixel, was, now),
    ensures
        stretch.1.at_most(pixel.0) || pixel.1.at_most(stretch.0) ==> now == was,
        pixel.0.less(stretch.0) && stretch.1.less(pixel.1) && stretch.0.less(stretch.1)
            ==> call_ensures(grow, (was, stretch.0, stretch.1), now),
        stretch.0.less(pixel.0) && pixel.1.less(stretch.1) && pixel.0.less(pixel.1) ==> call_ensures(
            grow,
            (was, pixel.0, pixel.1),
            now,
        ),
        stretch.0.less(pixel.0) && pixel.0.less(stretch.1) && stretch.1.less(pixel.1)
            ==> call_ensures(grow, (was, pixel.0, stretch.1), now),
        pixel.0.less(stretch.0) && stretch.0.less(pixel.1) && pixel.1.less(stretch.1)
            ==> call_ensures(grow, (was, stretch.0, pixel.1), now),
{
}

/// Each pixel row is sampled on sixteen lines, and each line goes on from what the
/// one before it has added up.
pub proof fn a_row_is_sampled_sixteen_times(lines: Seq<LineModel>, width: nat, s: int)
    requires
        follow(lines, width),
        lines.len() == SUB_ROWS,
        0 <= s < 16,
    ensures
        lines.len() == 16,
        s > 0 ==> lines[s].steps[0] == lines[s - 1].steps.last(),
        s == 0 ==> lines[s].steps[0].len() == width && forall|i: int|
            0 <= i < width ==> #[trigger] lines[0].steps[0][i] == (Real { bits: 0 }),
{
    assert(lines[s].steps.len() > 0);
}

} // verus!
