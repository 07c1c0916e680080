//! Whether a point is inside a path: how a ray from it crosses curves, and how
//! a point well inside a face is chosen.
//!
//! A ray runs straight out along `+x`, with crossings counted by the half-open
//! rule `y0 <= y < y1`: a crossing exactly at a shared end of two curves belongs
//! to exactly one of them whichever way the pair runs, and a curve that touches
//! the ray without passing through it counts zero.

use vstd::prelude::*;
use crate::geom::Point;
use crate::geom::Real;
use crate::geom::Rect;
use crate::geom::INFINITY;
use crate::path::offset;
use crate::path::offset::sort_params;

verus! {

/// One, by its bits.
pub const ONE: u64 = 0x3ff0_0000_0000_0000;

/// How often a bracket is halved: below the last bit of a number, so that it
/// does not end while the bracket still matters.
pub const HALVINGS: u32 = 60;

/// Which way a stretch that runs from height `ya` to `yb` crosses the height
/// `y`: upwards, downwards or not at all.
pub open spec fn way(ya: Real, yb: Real, y: Real) -> int {
    if ya.at_most(y) && y.less(yb) {
        1
    } else if yb.at_most(y) && y.less(ya) {
        -1
    } else {
        0
    }
}

/// Whether a height is above the ray.
pub open spec fn above(v: Real, y: Real) -> int {
    if y.less(v) {
        1
    } else {
        0
    }
}

/// The crossings of the first `n` stretches between the heights `ys`, in all.
pub open spec fn ways(ys: Seq<Real>, y: Real, n: int) -> int
    decreases n,
{
    if n <= 0 {
        0
    } else {
        ways(ys, y, n - 1) + way(ys[n - 1], ys[n], y)
    }
}

/// The crossings of a chain of stretches depend on its two ends alone: a shared
/// end is counted once, and a chain that comes back to where it started is not
/// crossed on balance.
pub proof fn shared_ends_are_counted_once(ys: Seq<Real>, y: Real, n: int)
    requires
        0 <= n < ys.len(),
        !y.nan(),
        forall|i: int| 0 <= i < ys.len() ==> !(#[trigger] ys[i]).nan(),
    ensures
        ways(ys, y, n) == above(ys[n], y) - above(ys[0], y),
    decreases n,
{
    if n > 0 {
        shared_ends_are_counted_once(ys, y, n - 1);
        assert(!ys[n - 1].nan() && !ys[n].nan());
    }
}

/// Whether halving the bracket `lo..hi` up to `n` times around the height `y`
/// gives `a..b`. Where a curve that runs `up` is below `y` the crossing lies
/// further on.
pub open spec fn narrows<H: Fn(Real) -> Real, M: Fn(Real, Real) -> Real>(
    height: H,
    middle: M,
    y: Real,
    up: bool,
    lo: Real,
    hi: Real,
    n: nat,
    a: Real,
    b: Real,
) -> bool
    decreases n,
{
    if n == 0 {
        a == lo && b == hi
    } else {
        exists|m: Real| #[trigger]
            call_ensures(middle, (lo, hi), m) && if m.at_most(lo) || hi.at_most(m) {
                a == lo && b == hi
            } else {
                exists|v: Real| #[trigger]
                    call_ensures(height, (m,), v) && if v.less(y) == up {
                        narrows(height, middle, y, up, m, hi, (n - 1) as nat, a, b)
                    } else {
                        narrows(height, middle, y, up, lo, m, (n - 1) as nat, a, b)
                    }
            }
    }
}

/// Halves the bracket `lo..hi` up to `n` times around the place where a curve
/// crosses the height `y`. `height` is the height of the curve at a parameter
/// and `middle` the parameter halfway between two.
pub fn narrow<H: Fn(Real) -> Real, M: Fn(Real, Real) -> Real>(
    height: &H,
    middle: &M,
    y: Real,
    up: bool,
    lo: Real,
    hi: Real,
    n: u32,
) -> (r: (Real, Real))
    requires
        forall|t: Real| call_requires(height, (t,)),
        forall|a: Real, b: Real| call_requires(middle, (a, b)),
    ensures
        narrows(*height, *middle, y, up, lo, hi, n as nat, r.0, r.1),
    decreases n,
{
    if n == 0 {
        return (lo, hi);
    }
    let m = middle(lo, hi);
    if m.not_above(lo) || hi.not_above(m) {
        return (lo, hi);
    }
    let v = height(m);
    if v.below(y) == up {
        narrow(height, middle, y, up, m, hi, n - 1)
    } else {
        narrow(height, middle, y, up, lo, m, n - 1)
    }
}

/// The parameters among the first `n` that lie strictly between zero and one.
pub open spec fn interior(roots: Seq<Real>, n: int) -> Seq<Real>
    decreases n,
{
    if n <= 0 {
        Seq::empty()
    } else if (Real { bits: 0 }).less(roots[n - 1]) && roots[n - 1].less(Real { bits: ONE }) {
        interior(roots, n - 1).push(roots[n - 1])
    } else {
        interior(roots, n - 1)
    }
}

/// Whether parameters cut a curve into stretches that do not turn: they run
/// from zero to one over its turning points in between.
pub open spec fn cuts_at_turns(roots: Seq<Real>, ts: Seq<Real>) -> bool {
    exists|s: Seq<Real>| #[trigger]
        offset::ascends(s) && s.to_multiset() == interior(
            roots,
            roots.len() as int,
        ).to_multiset() && ts == seq![Real { bits: 0 }] + s + seq![Real { bits: ONE }]
}

/// The parameters between which a curve does not turn. `roots` are its turning
/// points, of which those outside the curve are left out.
pub fn monotone_cuts(roots: &Vec<Real>) -> (ts: Vec<Real>)
    ensures
        cuts_at_turns(roots@, ts@),
        2 <= ts@.len() <= roots@.len() + 2,
{
    let zero = Real { bits: 0 };
    let one = Real { bits: ONE };
    let mut inner: Vec<Real> = Vec::new();
    let mut i: usize = 0;
    while i < roots.len()
        invariant
            i <= roots@.len(),
            zero == (Real { bits: 0 }),
            one == (Real { bits: ONE }),
            inner@ == interior(roots@, i as int),
            inner@.len() <= i,
        decreases roots.len() - i,
    {
        if zero.below(roots[i]) && roots[i].below(one) {
            inner.push(roots[i]);
        }
        i += 1;
    }
    let sorted = sort_params(&inner);
    proof {
        broadcast use vstd::seq_lib::group_to_multiset_ensures;

        assert(sorted@.len() == sorted@.to_multiset().len());
        assert(inner@.len() == inner@.to_multiset().len());
    }
    let mut ts: Vec<Real> = Vec::new();
    ts.push(zero);
    let mut i: usize = 0;
    assert(ts@ =~= seq![zero] + sorted@.take(0));
    while i < sorted.len()
        invariant
            i <= sorted@.len(),
            ts@ == seq![zero] + sorted@.take(i as int),
        decreases sorted.len() - i,
    {
        ts.push(sorted[i]);
        i += 1;
        assert(ts@ =~= seq![zero] + sorted@.take(i as int));
    }
    ts.push(one);
    assert(ts@ =~= seq![zero] + sorted@ + seq![one]);
    assert(offset::ascends(sorted@));
    ts
}

/// One stretch of a curve that does not turn, and how the ray crosses it.
pub struct Leg {
    pub ya: Real,
    pub yb: Real,
    /// The bracket of the crossing.
    pub lo: Real,
    pub hi: Real,
    /// The parameter in the middle of it.
    pub at: Real,
    /// How far out the curve is there.
    pub x: Real,
    /// What the stretch counts.
    pub count: int,
}

/// Whether the stretch between two parameters is counted as it must be: by the
/// way it crosses the height of the point, where that is beyond the point.
pub open spec fn counted<H: Fn(Real) -> Real, A: Fn(Real) -> Real, M: Fn(Real, Real) -> Real>(
    height: H,
    across: A,
    middle: M,
    p: Point,
    ta: Real,
    tb: Real,
    leg: Leg,
) -> bool {
    let dir = way(leg.ya, leg.yb, p.y);
    &&& call_ensures(height, (ta,), leg.ya)
    &&& call_ensures(height, (tb,), leg.yb)
    &&& if dir == 0 {
        leg.count == 0
    } else {
        &&& narrows(height, middle, p.y, dir > 0, ta, tb, HALVINGS as nat, leg.lo, leg.hi)
        &&& call_ensures(middle, (leg.lo, leg.hi), leg.at)
        &&& call_ensures(across, (leg.at,), leg.x)
        &&& leg.count == (if p.x.less(leg.x) {
            dir
        } else {
            0
        })
    }
}

/// What the first `n` stretches count, in all.
pub open spec fn tally(legs: Seq<Leg>, n: int) -> int
    decreases n,
{
    if n <= 0 {
        0
    } else {
        tally(legs, n - 1) + legs[n - 1].count
    }
}

proof fn lemma_tally(a: Seq<Leg>, b: Seq<Leg>, n: int)
    requires
        0 <= n <= a.len(),
        n <= b.len(),
        forall|i: int| 0 <= i < n ==> a[i] == b[i],
    ensures
        tally(a, n) == tally(b, n),
    decreases n,
{
    if n > 0 {
        lemma_tally(a, b, n - 1);
    }
}

/// How often one curve crosses the ray from `p` towards `+x`, with a sign for
/// the way.
///
/// `ts` are the parameters between which the curve does not turn, so that each
/// stretch holds at most one crossing. `height` and `across` are its height and
/// its distance along the ray at a parameter.
pub fn crossings<H: Fn(Real) -> Real, A: Fn(Real) -> Real, M: Fn(Real, Real) -> Real>(
    ts: &Vec<Real>,
    p: Point,
    height: &H,
    across: &A,
    middle: &M,
) -> (w: i32)
    requires
        1 <= ts@.len() <= i32::MAX,
        forall|t: Real| call_requires(height, (t,)),
        forall|t: Real| call_requires(across, (t,)),
        forall|a: Real, b: Real| call_requires(middle, (a, b)),
    ensures
        -(ts@.len() - 1) <= w <= ts@.len() - 1,
        exists|legs: Seq<Leg>|
            legs.len() == ts@.len() - 1 && (forall|k: int|
                0 <= k < legs.len() ==> counted(
                    *height,
                    *across,
                    *middle,
                    p,
                    ts@[k],
                    ts@[k + 1],
                    #[trigger] legs[k],
                )) && w == #[trigger] tally(legs, legs.len() as int),
{
    let n: usize = ts.len() - 1;
    let ghost mut legs: Seq<Leg> = Seq::empty();
    let mut w: i32 = 0;
    let mut k: usize = 0;
    while k < n
        invariant
            k <= n == ts@.len() - 1 < i32::MAX,
            legs.len() == k,
            -(k as int) <= w <= k,
            w == tally(legs, k as int),
            forall|t: Real| call_requires(height, (t,)),
            forall|t: Real| call_requires(across, (t,)),
            forall|a: Real, b: Real| call_requires(middle, (a, b)),
            forall|j: int|
                0 <= j < k ==> counted(
                    *height,
                    *across,
                    *middle,
                    p,
                    ts@[j],
                    ts@[j + 1],
                    #[trigger] legs[j],
                ),
        decreases n - k,
    {
        let ghost earlier = legs;
        let ya = height(ts[k]);
        let yb = height(ts[k + 1]);
        let dir: i32 = if ya.not_above(p.y) && p.y.below(yb) {
            1
        } else if yb.not_above(p.y) && p.y.below(ya) {
            -1
        } else {
            0
        };
        let ghost mut leg = Leg { ya, yb, lo: ya, hi: ya, at: ya, x: ya, count: 0 };
        if dir != 0 {
            let (lo, hi) = narrow(height, middle, p.y, dir > 0, ts[k], ts[k + 1], HALVINGS);
            let at = middle(lo, hi);
            let x = across(at);
            proof {
                leg = Leg {
                    ya,
                    yb,
                    lo,
                    hi,
                    at,
                    x,
                    count: if p.x.less(x) {
                        dir as int
                    } else {
                        0
                    },
                };
            }
            if p.x.below(x) {
                w = w + dir;
            }
        }
        proof {
            legs = legs.push(leg);
            lemma_tally(earlier, legs, k as int);
            assert(counted(*height, *across, *middle, p, ts@[k as int], ts@[k + 1], leg));
        }
        k += 1;
    }
    w
}

/// Whether a curve in a box cannot cross the ray from `p`: it lies to the left
/// of the point, or misses the line of the ray.
pub open spec fn passed_by(b: Rect, p: Point) -> bool {
    b.x1.less(p.x) || p.y.less(b.y0) || b.y1.less(p.y)
}

/// Whether curve `k` counts `c` about `p`.
pub open spec fn winds<C: Fn(usize) -> i32>(
    crossings: C,
    boxes: Seq<Rect>,
    p: Point,
    k: usize,
    c: i32,
) -> bool {
    if passed_by(boxes[k as int], p) {
        c == 0
    } else {
        call_ensures(crossings, (k,), c)
    }
}

/// What the first `n` counts come to.
pub open spec fn sum_of(counts: Seq<i32>, n: int) -> int
    decreases n,
{
    if n <= 0 {
        0
    } else {
        sum_of(counts, n - 1) + counts[n - 1]
    }
}

proof fn lemma_sum(a: Seq<i32>, b: Seq<i32>, n: int)
    requires
        0 <= n <= a.len(),
        n <= b.len(),
        forall|i: int| 0 <= i < n ==> a[i] == b[i],
    ensures
        sum_of(a, n) == sum_of(b, n),
    decreases n,
{
    if n > 0 {
        lemma_sum(a, b, n - 1);
    }
}

/// The winding number of closed curves about `p`. `boxes` are the boxes of the
/// curves, and `crossings` says how often one of them crosses the ray.
pub fn winding<C: Fn(usize) -> i32>(boxes: &Vec<Rect>, p: Point, crossings: &C) -> (w: i32)
    requires
        3 * boxes@.len() <= i32::MAX,
        forall|k: usize| k < boxes@.len() ==> call_requires(crossings, (k,)),
        forall|k: usize, c: i32| #[trigger] call_ensures(crossings, (k,), c) ==> -3 <= c <= 3,
    ensures
        exists|counts: Seq<i32>|
            counts.len() == boxes@.len() && (forall|k: usize|
                k < counts.len() ==> winds(
                    *crossings,
                    boxes@,
                    p,
                    k,
                    #[trigger] counts[k as int],
                )) && w == #[trigger] sum_of(counts, counts.len() as int),
{
    let ghost mut counts: Seq<i32> = Seq::empty();
    let mut w: i32 = 0;
    let mut k: usize = 0;
    while k < boxes.len()
        invariant
            k <= boxes@.len(),
            3 * boxes@.len() <= i32::MAX,
            counts.len() == k,
            -3 * k <= w <= 3 * k,
            w == sum_of(counts, k as int),
            forall|k: usize| k < boxes@.len() ==> call_requires(crossings, (k,)),
            forall|k: usize, c: i32| #[trigger] call_ensures(crossings, (k,), c) ==> -3 <= c <= 3,
            forall|j: usize|
                j < k ==> winds(*crossings, boxes@, p, j, #[trigger] counts[j as int]),
        decreases boxes.len() - k,
    {
        let b = boxes[k];
        let c: i32 = if b.x1.below(p.x) || p.y.below(b.y0) || b.y1.below(p.y) {
            0
        } else {
            crossings(k)
        };
        proof {
            let earlier = counts;
            counts = counts.push(c);
            lemma_sum(earlier, counts, k as int);
            assert(winds(*crossings, boxes@, p, k, c));
        }
        w = w + c;
        k += 1;
    }
    w
}

/// Whether the distance to the nearest of the curves `k..n` is `r`, when the
/// nearest so far is `best` away. A curve whose box is no nearer than that is
/// passed over, and so is `skip`; the search ends once it cannot beat `floor`.
pub open spec fn nears<B: Fn(usize) -> Real, D: Fn(usize) -> Real>(
    box_distance: B,
    nearest: D,
    floor: Option<Real>,
    skip: Option<usize>,
    n: usize,
    k: usize,
    best: Real,
    r: Real,
) -> bool
    decreases n - k,
{
    if k >= n || (floor matches Some(f) && best.at_most(f)) {
        r == best
    } else if skip == Some(k) {
        nears(box_distance, nearest, floor, skip, n, (k + 1) as usize, best, r)
    } else {
        exists|d: Real| #[trigger]
            call_ensures(box_distance, (k,), d) && if best.at_most(d) {
                nears(box_distance, nearest, floor, skip, n, (k + 1) as usize, best, r)
            } else {
                exists|e: Real| #[trigger]
                    call_ensures(nearest, (k,), e) && nears(
                        box_distance,
                        nearest,
                        floor,
                        skip,
                        n,
                        (k + 1) as usize,
                        best.lesser(e),
                        r,
                    )
            }
    }
}

/// The distance from a point to the nearest of `n` curves other than `skip`,
/// giving up as soon as it is clear that the answer cannot beat `floor`.
///
/// `box_distance` is the distance to the box of a curve, a lower bound on
/// `nearest`, the distance to the curve itself.
pub fn clearance<B: Fn(usize) -> Real, D: Fn(usize) -> Real>(
    n: usize,
    floor: Option<Real>,
    skip: Option<usize>,
    box_distance: &B,
    nearest: &D,
) -> (r: Real)
    requires
        forall|k: usize| k < n ==> call_requires(box_distance, (k,)),
        forall|k: usize| k < n ==> call_requires(nearest, (k,)),
    ensures
        nears(*box_distance, *nearest, floor, skip, n, 0, Real { bits: INFINITY }, r),
{
    let ghost start = Real { bits: INFINITY };
    let mut best: Real = Real { bits: INFINITY };
    let mut k: usize = 0;
    while k < n
        invariant
            k <= n,
            forall|k: usize| k < n ==> call_requires(box_distance, (k,)),
            forall|k: usize| k < n ==> call_requires(nearest, (k,)),
            start == (Real { bits: INFINITY }),
            forall|r: Real| #[trigger]
                nears(*box_distance, *nearest, floor, skip, n, k, best, r) ==> nears(
                    *box_distance,
                    *nearest,
                    floor,
                    skip,
                    n,
                    0,
                    start,
                    r,
                ),
        decreases n - k,
    {
        if let Some(f) = floor {
            if best.not_above(f) {
                assert(nears(*box_distance, *nearest, floor, skip, n, k, best, best));
                return best;
            }
        }
        let skipped = match skip {
            Some(s) => s == k,
            None => false,
        };
        let ghost was = best;
        if !skipped {
            let d = box_distance(k);
            if !best.not_above(d) {
                let e = nearest(k);
                if e.below(best) {
                    best = e;
                }
            }
        }
        proof {
            assert forall|r: Real| #[trigger]
                nears(
                    *box_distance,
                    *nearest,
                    floor,
                    skip,
                    n,
                    (k + 1) as usize,
                    best,
                    r,
                ) implies nears(*box_distance, *nearest, floor, skip, n, 0, start, r) by {
                assert(nears(*box_distance, *nearest, floor, skip, n, k, was, r));
            }
        }
        k += 1;
    }
    assert(nears(*box_distance, *nearest, floor, skip, n, k, best, best));
    best
}

/// The clearance a candidate has to beat.
pub open spec fn floor_of(best: Option<(Real, Point)>) -> Real {
    match best {
        Some((c, _)) => c,
        None => Real { bits: 0 },
    }
}

/// How a point's clearance is found, above a floor, as a relation.
pub type Gauge = spec_fn(Point, Real, Real) -> bool;

/// What a function that measures clearances may answer.
pub open spec fn gauge<C: Fn(Point, Real) -> Real>(clearance: C) -> Gauge {
    |p: Point, floor: Real, clear: Real| call_ensures(clearance, (p, floor), clear)
}

/// Whether `r` is the best of the candidates from `k` on, when the best so far
/// is `best`.
pub open spec fn picks(
    clearance: Gauge,
    candidates: Seq<(Point, Real)>,
    k: int,
    best: Option<(Real, Point)>,
    r: Option<(Real, Point)>,
) -> bool
    decreases candidates.len() - k,
{
    if k >= candidates.len() {
        r == best
    } else {
        let (p, need) = candidates[k];
        let floor = floor_of(best);
        if !p.finite() {
            picks(clearance, candidates, k + 1, best, r)
        } else {
            exists|clear: Real| #[trigger]
                clearance(p, floor.greater(need), clear) && picks(
                    clearance,
                    candidates,
                    k + 1,
                    if need.at_most(clear) && floor.less(clear) {
                        Some((clear, p))
                    } else {
                        best
                    },
                    r,
                )
        }
    }
}

/// A point inside a face, chosen for its clearance from every edge.
///
/// Each candidate is a step off one of the face's own edges, with the clearance
/// that it needs to have: a step that ends up much nearer to the edges than it
/// is long has gone round a bend and out of the face. `clearance` measures that
/// of a point, as far as it matters: it may give up below a floor.
pub fn interior_point<C: Fn(Point, Real) -> Real>(
    candidates: &Vec<(Point, Real)>,
    clearance: &C,
) -> (r: Option<(Real, Point)>)
    requires
        forall|p: Point, f: Real| call_requires(clearance, (p, f)),
    ensures
        picks(gauge(*clearance), candidates@, 0, None, r),
        r matches Some((c, p)) ==> p.finite() && (Real { bits: 0 }).less(c),
{
    let mut best: Option<(Real, Point)> = None;
    let mut k: usize = 0;
    while k < candidates.len()
        invariant
            k <= candidates@.len(),
            forall|p: Point, f: Real| call_requires(clearance, (p, f)),
            best matches Some((c, p)) ==> p.finite() && (Real { bits: 0 }).less(c),
            forall|r: Option<(Real, Point)>| #[trigger]
                picks(gauge(*clearance), candidates@, k as int, best, r) ==> picks(
                    gauge(*clearance),
                    candidates@,
                    0,
                    None,
                    r,
                ),
        decreases candidates.len() - k,
    {
        let (p, need) = candidates[k];
        let ghost was = best;
        let ghost mut seen = need;
        if p.is_finite() {
            let floor: Real = match best {
                Some((c, _)) => c,
                None => Real { bits: 0 },
            };
            let bar: Real = if floor.below(need) {
                need
            } else {
                floor
            };
            let clear = clearance(p, bar);
            if need.not_above(clear) && floor.below(clear) {
                best = Some((clear, p));
            }
            proof {
                seen = clear;
                assert(gauge(*clearance)(p, bar, clear));
            }
        }
        proof {
            assert forall|r: Option<(Real, Point)>| #[trigger]
                picks(gauge(*clearance), candidates@, k + 1, best, r) implies picks(
                gauge(*clearance),
                candidates@,
                0,
                None,
                r,
            ) by {
                if p.finite() {
                    assert(gauge(*clearance)(p, floor_of(was).greater(need), seen));
                }
                assert(picks(gauge(*clearance), candidates@, k as int, was, r));
            }
        }
        k += 1;
    }
    assert(picks(gauge(*clearance), candidates@, k as int, best, best));
    best
}

/// A choice by one gauge is one by any gauge that allows the same answers.
pub proof fn lemma_picks(
    a: Gauge,
    b: Gauge,
    candidates: Seq<(Point, Real)>,
    k: int,
    best: Option<(Real, Point)>,
    r: Option<(Real, Point)>,
)
    requires
        forall|p: Point, f: Real, c: Real| #[trigger] a(p, f, c) ==> b(p, f, c),
        picks(a, candidates, k, best, r),
    ensures
        picks(b, candidates, k, best, r),
    decreases candidates.len() - k,
{
    if k < candidates.len() {
        let (p, need) = candidates[k];
        let floor = floor_of(best);
        if !p.finite() {
            lemma_picks(a, b, candidates, k + 1, best, r);
        } else {
            let clear = choose|clear: Real| #[trigger]
                a(p, floor.greater(need), clear) && picks(
                    a,
                    candidates,
                    k + 1,
                    if need.at_most(clear) && floor.less(clear) {
                        Some((clear, p))
                    } else {
                        best
                    },
                    r,
                );
            let next = if need.at_most(clear) && floor.less(clear) {
                Some((clear, p))
            } else {
                best
            };
            lemma_picks(a, b, candidates, k + 1, next, r);
            assert(b(p, floor.greater(need), clear));
        }
    }
}

/// A leg crosses a height where one of its ends is on or below it and the other
/// above: counted up in the one direction and down in the other, so that a leg
/// walked back undoes itself.
pub proof fn a_leg_crosses_the_height_between_its_ends(a: Real, b: Real, y: Real)
    ensures
        way(a, b, y) == 1 <==> a.at_most(y) && y.less(b),
        way(a, b, y) == -1 <==> b.at_most(y) && y.less(a),
        way(a, b, y) == -way(b, a, y),
        way(a, a, y) == 0,
        -1 <= way(a, b, y) <= 1,
{
}

/// A leg counts only where it crosses the height of the point to its right, and
/// then by the way that it goes.
pub proof fn a_leg_counts_to_the_right_of_the_point<
    H: Fn(Real) -> Real,
    A: Fn(Real) -> Real,
    M: Fn(Real, Real) -> Real,
>(height: H, across: A, middle: M, p: Point, ta: Real, tb: Real, leg: Leg)
    requires
        counted(height, across, middle, p, ta, tb, leg),
    ensures
        leg.count == 1 ==> leg.ya.at_most(p.y) && p.y.less(leg.yb) && p.x.less(leg.x),
        leg.count == -1 ==> leg.yb.at_most(p.y) && p.y.less(leg.ya) && p.x.less(leg.x),
        leg.count == 0 ==> !(leg.ya.at_most(p.y) && p.y.less(leg.yb)) && !(leg.yb.at_most(p.y)
            && p.y.less(leg.ya)) || !p.x.less(leg.x),
        -1 <= leg.count <= 1,
{
}

/// Halving keeps the crossing between its ends: where the leg goes up, the lower
/// end is the given one or below the height, and the upper end the given one or
/// not below it; and the other way about where it goes down.
pub proof fn halving_keeps_the_crossing<H: Fn(Real) -> Real, M: Fn(Real, Real) -> Real>(
    height: H,
    middle: M,
    y: Real,
    up: bool,
    lo: Real,
    hi: Real,
    n: nat,
    a: Real,
    b: Real,
)
    requires
        narrows(height, middle, y, up, lo, hi, n, a, b),
    ensures
        a == lo || exists|v: Real| #[trigger] call_ensures(height, (a,), v) && v.less(y) == up,
        b == hi || exists|v: Real| #[trigger] call_ensures(height, (b,), v) && v.less(y) != up,
        lo.less(hi) && (forall|c: Real, d: Real, m: Real| #[trigger]
            call_ensures(middle, (c, d), m) ==> !m.nan()) ==> lo.at_most(a) && a.less(b)
            && b.at_most(hi),
    decreases n,
{
    if n > 0 {
        let m = choose|m: Real| #[trigger]
            call_ensures(middle, (lo, hi), m) && if m.at_most(lo) || hi.at_most(m) {
                a == lo && b == hi
            } else {
                exists|v: Real| #[trigger]
                    call_ensures(height, (m,), v) && if v.less(y) == up {
                        narrows(height, middle, y, up, m, hi, (n - 1) as nat, a, b)
                    } else {
                        narrows(height, middle, y, up, lo, m, (n - 1) as nat, a, b)
                    }
            };
        if !(m.at_most(lo) || hi.at_most(m)) {
            let v = choose|v: Real| #[trigger]
                call_ensures(height, (m,), v) && if v.less(y) == up {
                    narrows(height, middle, y, up, m, hi, (n - 1) as nat, a, b)
                } else {
                    narrows(height, middle, y, up, lo, m, (n - 1) as nat, a, b)
                };
            if v.less(y) == up {
                halving_keeps_the_crossing(height, middle, y, up, m, hi, (n - 1) as nat, a, b);
            } else {
                halving_keeps_the_crossing(height, middle, y, up, lo, m, (n - 1) as nat, a, b);
            }
        }
    }
}

/// The clearance is the distance to the nearest of the segments: none but the one
/// left out is nearer, unless it is not even nearer than a floor that the result
/// does not pass, and one of them is exactly as near, unless there is none.
pub proof fn the_clearance_is_the_nearest<B: Fn(usize) -> Real, D: Fn(usize) -> Real>(
    box_distance: B,
    nearest: D,
    floor: Option<Real>,
    skip: Option<usize>,
    n: usize,
    k: usize,
    best: Real,
    r: Real,
    outer: spec_fn(usize) -> Real,
    inner: spec_fn(usize) -> Real,
)
    requires
        nears(box_distance, nearest, floor, skip, n, k, best, r),
        forall|j: usize, d: Real| #[trigger]
            call_ensures(box_distance, (j,), d) ==> d == outer(j) && !d.nan(),
        forall|j: usize, d: Real| #[trigger]
            call_ensures(nearest, (j,), d) ==> d == inner(j) && !d.nan(),
        forall|j: usize| #![trigger inner(j)] outer(j).at_most(inner(j)),
        !best.nan(),
    ensures
        r.at_most(best),
        forall|j: usize|
            k <= j < n && skip != Some(j) ==> r.at_most(#[trigger] inner(j)) || (floor matches Some(
                f,
            ) && r.at_most(f)),
        r == best || exists|j: usize| k <= j < n && skip != Some(j) && r == #[trigger] inner(j),
    decreases n - k,
{
    if k >= n || (floor matches Some(f) && best.at_most(f)) {
    } else if skip == Some(k) {
        the_clearance_is_the_nearest(
            box_distance,
            nearest,
            floor,
            skip,
            n,
            (k + 1) as usize,
            best,
            r,
            outer,
            inner,
        );
    } else {
        let d = choose|d: Real| #[trigger]
            call_ensures(box_distance, (k,), d) && if best.at_most(d) {
                nears(box_distance, nearest, floor, skip, n, (k + 1) as usize, best, r)
            } else {
                exists|e: Real| #[trigger]
                    call_ensures(nearest, (k,), e) && nears(
                        box_distance,
                        nearest,
                        floor,
                        skip,
                        n,
                        (k + 1) as usize,
                        best.lesser(e),
                        r,
                    )
            };
        let own = inner(k);
        assert(outer(k).at_most(own));
        if best.at_most(d) {
            the_clearance_is_the_nearest(
                box_distance,
                nearest,
                floor,
                skip,
                n,
                (k + 1) as usize,
                best,
                r,
                outer,
                inner,
            );
        } else {
            let e = choose|e: Real| #[trigger]
                call_ensures(nearest, (k,), e) && nears(
                    box_distance,
                    nearest,
                    floor,
                    skip,
                    n,
                    (k + 1) as usize,
                    best.lesser(e),
                    r,
                );
            assert(e == inner(k));
            the_clearance_is_the_nearest(
                box_distance,
                nearest,
                floor,
                skip,
                n,
                (k + 1) as usize,
                best.lesser(e),
                r,
                outer,
                inner,
            );
        }
    }
}

/// What is picked is one of the candidates, a finite point that has the clearance
/// it needs.
pub proof fn what_is_picked_is_a_candidate(
    clearance: Gauge,
    candidates: Seq<(Point, Real)>,
    k: int,
    best: Option<(Real, Point)>,
    r: Option<(Real, Point)>,
)
    requires
        0 <= k <= candidates.len(),
        picks(clearance, candidates, k, best, r),
    ensures
        r == best || (r matches Some((c, p)) && exists|j: int|
            k <= j < candidates.len() && (#[trigger] candidates[j]).0 == p && candidates[j].1.at_most(
                c,
            ) && p.finite()),
        best is Some ==> r is Some && (r == best || floor_of(best).less(floor_of(r))),
    decreases candidates.len() - k,
{
    if k < candidates.len() {
        let (p, need) = candidates[k];
        let floor = floor_of(best);
        if !p.finite() {
            what_is_picked_is_a_candidate(clearance, candidates, k + 1, best, r);
        } else {
            let clear = choose|clear: Real| #[trigger]
                clearance(p, floor.greater(need), clear) && picks(
                    clearance,
                    candidates,
                    k + 1,
                    if need.at_most(clear) && floor.less(clear) {
                        Some((clear, p))
                    } else {
                        best
                    },
                    r,
                );
            let next = if need.at_most(clear) && floor.less(clear) {
                Some((clear, p))
            } else {
                best
            };
            what_is_picked_is_a_candidate(clearance, candidates, k + 1, next, r);
            assert(candidates[k].0 == p);
        }
    }
}

/// The roomiest candidate is picked: where a candidate has the clearance that it
/// needs, more than none, whatever the floor, then one is picked, and none of them
/// has more.
pub proof fn the_roomiest_candidate_is_picked(
    clearance: Gauge,
    candidates: Seq<(Point, Real)>,
    k: int,
    best: Option<(Real, Point)>,
    r: Option<(Real, Point)>,
    j: int,
    room: Real,
)
    requires
        0 <= k <= j < candidates.len(),
        picks(clearance, candidates, k, best, r),
        candidates[j].0.finite(),
        forall|floor: Real, clear: Real| #[trigger]
            clearance(candidates[j].0, floor, clear) ==> clear == room,
        candidates[j].1.at_most(room),
        (Real { bits: 0 }).less(room),
        best matches Some((c, _)) ==> !c.nan(),
    ensures
        r matches Some((c, _)) && room.at_most(c),
    decreases candidates.len() - k,
{
    let (p, need) = candidates[k];
    let floor = floor_of(best);
    if !p.finite() {
        the_roomiest_candidate_is_picked(clearance, candidates, k + 1, best, r, j, room);
    } else {
        let clear = choose|clear: Real| #[trigger]
            clearance(p, floor.greater(need), clear) && picks(
                clearance,
                candidates,
                k + 1,
                if need.at_most(clear) && floor.less(clear) {
                    Some((clear, p))
                } else {
                    best
                },
                r,
            );
        let next = if need.at_most(clear) && floor.less(clear) {
            Some((clear, p))
        } else {
            best
        };
        if k < j {
            the_roomiest_candidate_is_picked(clearance, candidates, k + 1, next, r, j, room);
        } else {
            assert(clear == room);
            assert(next is Some);
            what_is_picked_is_a_candidate(clearance, candidates, k + 1, next, r);
        }
    }
}

/// Only the turns strictly between the ends of a curve cut it, and each of them does.
pub proof fn turns_inside_the_curve_cut_it(roots: Seq<Real>, n: int, k: int)
    requires
        0 <= n <= roots.len(),
        0 <= k < n,
    ensures
        (Real { bits: 0 }).less(roots[k]) && roots[k].less(Real { bits: 0x3ff0_0000_0000_0000 })
            ==> interior(roots, n).contains(roots[k]),
        forall|i: int|
            0 <= i < interior(roots, n).len() ==> (Real { bits: 0 }).less(
                #[trigger] interior(roots, n)[i],
            ) && interior(roots, n)[i].less(Real { bits: 0x3ff0_0000_0000_0000 }),
    decreases n,
{
    let before = interior(roots, n - 1);
    let now = interior(roots, n);
    if n > 1 {
        turns_inside_the_curve_cut_it(
            roots,
            n - 1,
            if k < n - 1 {
                k
            } else {
                0
            },
        );
    }
    if (Real { bits: 0 }).less(roots[k]) && roots[k].less(Real { bits: 0x3ff0_0000_0000_0000 }) {
        if k < n - 1 {
            let m = choose|m: int| 0 <= m < before.len() && before[m] == roots[k];
            assert(now[m] == roots[k]);
        } else {
            assert(now[now.len() - 1] == roots[k]);
        }
    }
}

/// A segment may be passed by without a look only where nothing of it can count: a
/// leg within a box that lies left of the point, above it or below it counts zero.
pub proof fn what_is_passed_by_counts_nothing<
    H: Fn(Real) -> Real,
    A: Fn(Real) -> Real,
    M: Fn(Real, Real) -> Real,
>(height: H, across: A, middle: M, b: Rect, p: Point, ta: Real, tb: Real, leg: Leg)
    requires
        passed_by(b, p),
        counted(height, across, middle, p, ta, tb, leg),
        b.y0.at_most(leg.ya) && leg.ya.at_most(b.y1),
        b.y0.at_most(leg.yb) && leg.yb.at_most(b.y1),
        leg.x.at_most(b.x1),
    ensures
        leg.count == 0,
{
}

/// The box of a segment that the point is level with, and not right of, is looked at.
pub proof fn what_may_be_crossed_is_looked_at(b: Rect, p: Point)
    requires
        p.x.at_most(b.x1),
        b.y0.at_most(p.y) && p.y.at_most(b.y1),
    ensures
        !passed_by(b, p),
{
}

/// A sum goes on by one count at a time.
pub proof fn counts_add_up(counts: Seq<i32>, legs: Seq<Leg>, n: int)
    requires
        0 < n,
    ensures
        sum_of(counts, n) == sum_of(counts, n - 1) + counts[n - 1],
        tally(legs, n) == tally(legs, n - 1) + legs[n - 1].count,
        sum_of(counts, 0) == 0 && tally(legs, 0) == 0,
{
}

} // verus!
