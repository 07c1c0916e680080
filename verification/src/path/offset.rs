//! Offsetting one segment by a distance: where the chain of cubics that stands
//! for the offset is cut, and what each piece of it becomes.
//!
//! The true offset of a cubic is not a polynomial, so the answer is a chain of
//! cubics fitted to it. A piece is fitted, measured against the true offset and
//! cut in half if it misses, up to a bound on the work. The end directions of a
//! piece are handed to it rather than recomputed, so that the two halves of a
//! cut share the direction at the middle exactly: the chain is connected by
//! construction.
//!
//! Directions are unit vectors, held as points.

use vstd::prelude::*;
use crate::geom::Point;
use crate::geom::Real;
use crate::path::outline::CubicBez;
use crate::path::outline::QuadBez;
use crate::path::outline::Segment;

verus! {

/// How often a piece may be cut in half before it settles for its chord.
pub const MAX_DEPTH: u32 = 12;

/// Whether every point of a cubic is finite.
pub open spec fn all_finite(c: CubicBez) -> bool {
    c.p0.finite() && c.p1.finite() && c.p2.finite() && c.p3.finite()
}

/// Whether `a` and `b` are where the ends of a piece are moved to.
pub open spec fn ends<S: Fn(Point, Point) -> Point>(
    shift: S,
    c: CubicBez,
    t0: Point,
    t1: Point,
    a: Point,
    b: Point,
) -> bool {
    call_ensures(shift, (c.p0, t0), a) && call_ensures(shift, (c.p3, t1), b)
}

/// Whether a cubic is a fit to the offset of a piece, and close enough to it.
pub open spec fn fits<
    F: Fn(CubicBez, Point, Point, Point, Point) -> CubicBez,
    D: Fn(CubicBez, CubicBez) -> Real,
>(
    fit: F,
    deviation: D,
    bound: Real,
    c: CubicBez,
    a: Point,
    t0: Point,
    b: Point,
    t1: Point,
    f: CubicBez,
) -> bool {
    &&& call_ensures(fit, (c, a, t0, b, t1), f)
    &&& all_finite(f)
    &&& exists|dev: Real| #[trigger] call_ensures(deviation, (c, f), dev) && dev.at_most(bound)
}

/// Whether a fit to the offset of a piece is not finite or strays too far.
pub open spec fn misses<
    F: Fn(CubicBez, Point, Point, Point, Point) -> CubicBez,
    D: Fn(CubicBez, CubicBez) -> Real,
>(
    fit: F,
    deviation: D,
    bound: Real,
    c: CubicBez,
    a: Point,
    t0: Point,
    b: Point,
    t1: Point,
) -> bool {
    exists|f: CubicBez| #[trigger]
        call_ensures(fit, (c, a, t0, b, t1), f) && (!all_finite(f) || exists|dev: Real| #[trigger]
            call_ensures(deviation, (c, f), dev) && !dev.at_most(bound))
}

/// Whether `l` and `r` are the halves of a piece and `tm` its direction in the
/// middle.
pub open spec fn halved<H: Fn(CubicBez) -> (CubicBez, CubicBez), M: Fn(CubicBez) -> Point>(
    halves: H,
    middle: M,
    c: CubicBez,
    l: CubicBez,
    r: CubicBez,
    tm: Point,
) -> bool {
    call_ensures(halves, (c,), (l, r)) && call_ensures(middle, (c,), tm)
}

/// Whether a chain is the offset of a piece: its chord when no work is left, a
/// fit that is close enough, or the offsets of its two halves.
pub open spec fn pieced<
    S: Fn(Point, Point) -> Point,
    F: Fn(CubicBez, Point, Point, Point, Point) -> CubicBez,
    D: Fn(CubicBez, CubicBez) -> Real,
    H: Fn(CubicBez) -> (CubicBez, CubicBez),
    M: Fn(CubicBez) -> Point,
>(
    shift: S,
    fit: F,
    deviation: D,
    bound: Real,
    halves: H,
    middle: M,
    c: CubicBez,
    depth: nat,
    t0: Point,
    t1: Point,
    chain: Seq<Segment>,
) -> bool
    decreases depth,
{
    if depth == 0 {
        exists|a: Point, b: Point| #[trigger]
            ends(shift, c, t0, t1, a, b) && chain == seq![Segment::Line(a, b)]
    } else {
        ||| exists|a: Point, b: Point, f: CubicBez|
            #![trigger ends(shift, c, t0, t1, a, b), fits(fit, deviation, bound, c, a, t0, b, t1, f)]
            ends(shift, c, t0, t1, a, b) && fits(fit, deviation, bound, c, a, t0, b, t1, f) && chain
                == seq![Segment::Cubic(f)]
        ||| (exists|a: Point, b: Point| #[trigger]
            ends(shift, c, t0, t1, a, b) && misses(fit, deviation, bound, c, a, t0, b, t1)) && (
        exists|l: CubicBez, r: CubicBez, tm: Point, k: int|
            #![trigger halved(halves, middle, c, l, r, tm), chain.take(k)]
            halved(halves, middle, c, l, r, tm) && 0 <= k <= chain.len() && pieced(
                shift,
                fit,
                deviation,
                bound,
                halves,
                middle,
                l,
                (depth - 1) as nat,
                t0,
                tm,
                chain.take(k),
            ) && pieced(
                shift,
                fit,
                deviation,
                bound,
                halves,
                middle,
                r,
                (depth - 1) as nat,
                tm,
                t1,
                chain.skip(k),
            ))
    }
}

/// Appends the offset of one piece, which turns no cusp: fit a cubic, measure
/// it, and cut the piece in half if the fit misses.
///
/// `shift` moves a point off the curve along the normal of a direction, `fit`
/// proposes a cubic between two such points with the given end directions, and
/// `deviation` measures how far a proposal strays. `halves` cuts a piece at its
/// middle, where `middle` gives its direction. `t0` and `t1` are the directions
/// at the ends of the piece.
pub fn offset_piece<
    S: Fn(Point, Point) -> Point,
    F: Fn(CubicBez, Point, Point, Point, Point) -> CubicBez,
    D: Fn(CubicBez, CubicBez) -> Real,
    H: Fn(CubicBez) -> (CubicBez, CubicBez),
    M: Fn(CubicBez) -> Point,
>(
    shift: &S,
    fit: &F,
    deviation: &D,
    bound: Real,
    halves: &H,
    middle: &M,
    c: CubicBez,
    depth: u32,
    t0: Point,
    t1: Point,
    out: &mut Vec<Segment>,
)
    requires
        forall|p: Point, t: Point| call_requires(shift, (p, t)),
        forall|c: CubicBez, a: Point, t: Point, b: Point, u: Point|
            call_requires(fit, (c, a, t, b, u)),
        forall|c: CubicBez, f: CubicBez| call_requires(deviation, (c, f)),
        forall|c: CubicBez| call_requires(halves, (c,)),
        forall|c: CubicBez| call_requires(middle, (c,)),
    ensures
        final(out)@.len() >= old(out)@.len(),
        final(out)@.take(old(out)@.len() as int) == old(out)@,
        pieced(
            *shift,
            *fit,
            *deviation,
            bound,
            *halves,
            *middle,
            c,
            depth as nat,
            t0,
            t1,
            final(out)@.skip(old(out)@.len() as int),
        ),
    decreases depth,
{
    let ghost before = out@;
    let a = shift(c.p0, t0);
    let b = shift(c.p3, t1);
    assert(ends(*shift, c, t0, t1, a, b));
    if depth == 0 {
        // Bounded work beats another halving on input no fit converges on. The
        // chord is at least continuous with its neighbours.
        out.push(Segment::Line(a, b));
        assert(out@.skip(before.len() as int) == seq![Segment::Line(a, b)]);
        assert(out@.take(before.len() as int) == before);
        return ;
    }
    let f = fit(c, a, t0, b, t1);
    if f.p0.is_finite() && f.p1.is_finite() && f.p2.is_finite() && f.p3.is_finite() {
        let dev = deviation(c, f);
        if dev.not_above(bound) {
            out.push(Segment::Cubic(f));
            assert(fits(*fit, *deviation, bound, c, a, t0, b, t1, f));
            assert(out@.skip(before.len() as int) == seq![Segment::Cubic(f)]);
            assert(out@.take(before.len() as int) == before);
            return ;
        }
    }
    assert(misses(*fit, *deviation, bound, c, a, t0, b, t1));
    let (l, r) = halves(c);
    let tm = middle(c);
    offset_piece(shift, fit, deviation, bound, halves, middle, l, depth - 1, t0, tm, out);
    let ghost mid = out@;
    offset_piece(shift, fit, deviation, bound, halves, middle, r, depth - 1, tm, t1, out);
    proof {
        let n = before.len() as int;
        let k = mid.len() - n;
        let chain = out@.skip(n);
        assert(halved(*halves, *middle, c, l, r, tm));
        assert(chain.take(k) == mid.skip(n)) by {
            assert forall|i: int| 0 <= i < k implies chain[i] == mid[n + i] by {
                assert(out@.take(mid.len() as int)[n + i] == mid[n + i]);
            }
        }
        assert(chain.skip(k) == out@.skip(mid.len() as int));
        assert(out@.take(n) == before) by {
            assert forall|i: int| 0 <= i < n implies out@[i] == before[i] by {
                assert(out@.take(mid.len() as int)[i] == mid[i]);
                assert(mid.take(n)[i] == before[i]);
            }
        }
    }
}

/// Whether a chain leads from `a` to `b` without a gap.
pub open spec fn leads(chain: Seq<Segment>, a: Point, b: Point) -> bool {
    &&& chain.len() > 0
    &&& chain[0].first() == a
    &&& chain.last().last() == b
    &&& forall|i: int| 0 < i < chain.len() ==> (#[trigger] chain[i]).first() == chain[i - 1].last()
}

/// Whether a point is always moved to the same place.
pub open spec fn moves_alike<S: Fn(Point, Point) -> Point>(shift: S) -> bool {
    forall|p: Point, t: Point, a: Point, b: Point|
        #[trigger] call_ensures(shift, (p, t), a) && #[trigger] call_ensures(shift, (p, t), b) ==> a
            == b
}

/// Whether a fit keeps the end points that it is given.
pub open spec fn keeps_ends<F: Fn(CubicBez, Point, Point, Point, Point) -> CubicBez>(
    fit: F,
) -> bool {
    forall|c: CubicBez, a: Point, t: Point, b: Point, u: Point, f: CubicBez| #[trigger]
        call_ensures(fit, (c, a, t, b, u), f) ==> f.p0 == a && f.p3 == b
}

/// Whether the halves of a piece meet, and end where the piece does.
pub open spec fn halves_meet<H: Fn(CubicBez) -> (CubicBez, CubicBez)>(halves: H) -> bool {
    forall|c: CubicBez, l: CubicBez, r: CubicBez| #[trigger]
        call_ensures(halves, (c,), (l, r)) ==> l.p0 == c.p0 && l.p3 == r.p0 && r.p3 == c.p3
}

/// The offset of a piece is connected, and leads from where the start of the
/// piece is moved to, to where its end is.
pub proof fn the_offset_of_a_piece_is_connected<
    S: Fn(Point, Point) -> Point,
    F: Fn(CubicBez, Point, Point, Point, Point) -> CubicBez,
    D: Fn(CubicBez, CubicBez) -> Real,
    H: Fn(CubicBez) -> (CubicBez, CubicBez),
    M: Fn(CubicBez) -> Point,
>(
    shift: S,
    fit: F,
    deviation: D,
    bound: Real,
    halves: H,
    middle: M,
    c: CubicBez,
    depth: nat,
    t0: Point,
    t1: Point,
    chain: Seq<Segment>,
)
    requires
        moves_alike(shift),
        keeps_ends(fit),
        halves_meet(halves),
        pieced(shift, fit, deviation, bound, halves, middle, c, depth, t0, t1, chain),
    ensures
        exists|a: Point, b: Point| #[trigger]
            ends(shift, c, t0, t1, a, b) && leads(chain, a, b),
    decreases depth,
{
    if depth == 0 {
        let (a, b) = choose|a: Point, b: Point| #[trigger]
            ends(shift, c, t0, t1, a, b) && chain == seq![Segment::Line(a, b)];
        assert(leads(chain, a, b));
    } else if exists|a: Point, b: Point, f: CubicBez|
        #![trigger ends(shift, c, t0, t1, a, b), fits(fit, deviation, bound, c, a, t0, b, t1, f)]
        ends(shift, c, t0, t1, a, b) && fits(fit, deviation, bound, c, a, t0, b, t1, f) && chain
            == seq![Segment::Cubic(f)] {
        let (a, b, f) = choose|a: Point, b: Point, f: CubicBez|
            #![trigger ends(shift, c, t0, t1, a, b), fits(fit, deviation, bound, c, a, t0, b, t1, f)]
            ends(shift, c, t0, t1, a, b) && fits(fit, deviation, bound, c, a, t0, b, t1, f) && chain
                == seq![Segment::Cubic(f)];
        assert(leads(chain, a, b));
    } else {
        let d = (depth - 1) as nat;
        let (l, r, tm, k) = choose|l: CubicBez, r: CubicBez, tm: Point, k: int|
            #![trigger halved(halves, middle, c, l, r, tm), chain.take(k)]
            halved(halves, middle, c, l, r, tm) && 0 <= k <= chain.len() && pieced(
                shift,
                fit,
                deviation,
                bound,
                halves,
                middle,
                l,
                d,
                t0,
                tm,
                chain.take(k),
            ) && pieced(
                shift,
                fit,
                deviation,
                bound,
                halves,
                middle,
                r,
                d,
                tm,
                t1,
                chain.skip(k),
            );
        let left = chain.take(k);
        let right = chain.skip(k);
        the_offset_of_a_piece_is_connected(
            shift,
            fit,
            deviation,
            bound,
            halves,
            middle,
            l,
            d,
            t0,
            tm,
            left,
        );
        the_offset_of_a_piece_is_connected(
            shift,
            fit,
            deviation,
            bound,
            halves,
            middle,
            r,
            d,
            tm,
            t1,
            right,
        );
        let (a, m) = choose|a: Point, b: Point| #[trigger]
            ends(shift, l, t0, tm, a, b) && leads(left, a, b);
        let (n, b) = choose|a: Point, b: Point| #[trigger]
            ends(shift, r, tm, t1, a, b) && leads(right, a, b);
        assert(m == n);
        assert(ends(shift, c, t0, t1, a, b));
        assert(chain[0] == left[0]);
        assert(chain.last() == right.last());
        assert forall|i: int| 0 < i < chain.len() implies (#[trigger] chain[i]).first() == chain[i
            - 1].last() by {
            if i < k {
                assert(left[i].first() == left[i - 1].last());
            } else if i == k {
                assert(right[0] == chain[k]);
                assert(left.last() == chain[k - 1]);
            } else {
                assert(right[i - k].first() == right[i - k - 1].last());
            }
        }
        assert(leads(chain, a, b));
    }
}

/// One, by its bits: the end of a curve's parameter.
pub const ONE: u64 = 0x3ff0_0000_0000_0000;

/// The parameter at which the piece `i` of a curve ends: at a split, and the
/// last one where the curve does.
pub open spec fn until(splits: Seq<Real>, i: int) -> Real {
    if 0 <= i < splits.len() {
        splits[i]
    } else {
        Real { bits: ONE }
    }
}

/// The parameter at which the piece `i` of a curve starts.
pub open spec fn since(splits: Seq<Real>, i: int) -> Real {
    if i <= 0 {
        Real { bits: 0 }
    } else {
        until(splits, i - 1)
    }
}

/// One piece of a curve and what it adds to the offset: the chain for the piece
/// itself, and the turn at its end.
pub struct Cut {
    pub piece: CubicBez,
    /// The direction in which the curve arrives at the end of the piece.
    pub arriving: Point,
    /// The direction in which it leaves from there.
    pub leaving: Point,
    pub part: Seq<Segment>,
    pub turn: Seq<Segment>,
}

/// Whether `turn` rounds the cusp at the end of a piece: nothing where the two
/// sides of it are within the tolerance of each other.
pub open spec fn rounds<
    C: Fn(Real, Real) -> CubicBez,
    S: Fn(Point, Point) -> Point,
    A: Fn(Point, Point) -> Real,
    R: Fn(Point, Point, Point, Point) -> Vec<Segment>,
>(
    between: C,
    shift: S,
    apart: A,
    arc: R,
    tol: Real,
    splits: Seq<Real>,
    i: int,
    cut: Cut,
    next: CubicBez,
    from: Point,
    to: Point,
    gap: Real,
) -> bool {
    &&& call_ensures(between, (until(splits, i), until(splits, i + 1)), next)
    &&& call_ensures(shift, (cut.piece.p3, cut.arriving), from)
    &&& call_ensures(shift, (next.p0, cut.leaving), to)
    &&& call_ensures(apart, (from, to), gap)
    &&& if tol.less(gap) {
        exists|v: Vec<Segment>| #[trigger]
            call_ensures(arc, (cut.piece.p3, from, to, cut.arriving), v) && cut.turn == v@
    } else {
        cut.turn == Seq::<Segment>::empty()
    }
}

/// Whether a curve has a cusp at the end of the piece `i`: the direction in
/// which it leaves is not the one in which it arrives.
pub open spec fn cusp(splits: Seq<Real>, i: int, cut: Cut) -> bool {
    until(splits, i).less(Real { bits: ONE }) && !cut.arriving.equals(cut.leaving)
}

/// What the first `n` pieces add to an offset, in order.
pub open spec fn added(cuts: Seq<Cut>, n: int) -> Seq<Segment>
    decreases n,
{
    if n <= 0 {
        Seq::empty()
    } else {
        added(cuts, n - 1) + cuts[n - 1].part + cuts[n - 1].turn
    }
}

/// Whether the piece `i` of a curve is cut, offset and rounded as it must be.
/// `first` is the direction in which the curve starts.
pub open spec fn cut_right<
    C: Fn(Real, Real) -> CubicBez,
    T: Fn(Real, bool) -> Point,
    S: Fn(Point, Point) -> Point,
    F: Fn(CubicBez, Point, Point, Point, Point) -> CubicBez,
    D: Fn(CubicBez, CubicBez) -> Real,
    H: Fn(CubicBez) -> (CubicBez, CubicBez),
    M: Fn(CubicBez) -> Point,
    A: Fn(Point, Point) -> Real,
    R: Fn(Point, Point, Point, Point) -> Vec<Segment>,
>(
    between: C,
    tangent: T,
    shift: S,
    fit: F,
    deviation: D,
    bound: Real,
    halves: H,
    middle: M,
    apart: A,
    arc: R,
    tol: Real,
    splits: Seq<Real>,
    first: Point,
    cuts: Seq<Cut>,
    i: int,
) -> bool {
    let cut = cuts[i];
    let leaving = if i == 0 {
        first
    } else {
        cuts[i - 1].leaving
    };
    &&& call_ensures(between, (since(splits, i), until(splits, i)), cut.piece)
    &&& call_ensures(tangent, (until(splits, i), false), cut.arriving)
    &&& call_ensures(tangent, (until(splits, i), true), cut.leaving)
    &&& pieced(
        shift,
        fit,
        deviation,
        bound,
        halves,
        middle,
        cut.piece,
        MAX_DEPTH as nat,
        leaving,
        cut.arriving,
        cut.part,
    )
    &&& if cusp(splits, i, cut) {
        exists|next: CubicBez, from: Point, to: Point, gap: Real| #[trigger]
            rounds(between, shift, apart, arc, tol, splits, i, cut, next, from, to, gap)
    } else {
        cut.turn == Seq::<Segment>::empty()
    }
}

/// Whether a chain is the offset of a curve that is split at the given
/// parameters: of its pieces in order, each with the turn at its end.
pub open spec fn cut_up<
    C: Fn(Real, Real) -> CubicBez,
    T: Fn(Real, bool) -> Point,
    S: Fn(Point, Point) -> Point,
    F: Fn(CubicBez, Point, Point, Point, Point) -> CubicBez,
    D: Fn(CubicBez, CubicBez) -> Real,
    H: Fn(CubicBez) -> (CubicBez, CubicBez),
    M: Fn(CubicBez) -> Point,
    A: Fn(Point, Point) -> Real,
    R: Fn(Point, Point, Point, Point) -> Vec<Segment>,
>(
    between: C,
    tangent: T,
    shift: S,
    fit: F,
    deviation: D,
    bound: Real,
    halves: H,
    middle: M,
    apart: A,
    arc: R,
    tol: Real,
    splits: Seq<Real>,
    first: Point,
    cuts: Seq<Cut>,
) -> bool {
    &&& call_ensures(tangent, (Real { bits: 0 }, true), first)
    &&& forall|i: int|
        0 <= i < cuts.len() ==> #[trigger] cut_right(
            between,
            tangent,
            shift,
            fit,
            deviation,
            bound,
            halves,
            middle,
            apart,
            arc,
            tol,
            splits,
            first,
            cuts,
            i,
        )
}

proof fn lemma_added(a: Seq<Cut>, b: Seq<Cut>, n: int)
    requires
        0 <= n <= a.len(),
        n <= b.len(),
        forall|i: int| 0 <= i < n ==> a[i] == b[i],
    ensures
        added(a, n) == added(b, n),
    decreases n,
{
    if n > 0 {
        lemma_added(a, b, n - 1);
    }
}

/// Appends the offset of a curve, split at the given parameters: each piece is
/// offset on its own, and where the curve turns back in a cusp the two sides
/// are joined by an arc.
///
/// `between` is the piece between two parameters and `tangent` the direction at
/// one, on the side that the curve leaves by or arrives from. The direction at
/// a split is found once and handed to the pieces on both sides of it. `apart`
/// measures the gap at a cusp, and `arc` rounds it about a centre, from one
/// point to another, on the side of the direction of arrival. The rest is as
/// for [`offset_piece`].
pub fn offset_cubic<
    C: Fn(Real, Real) -> CubicBez,
    T: Fn(Real, bool) -> Point,
    S: Fn(Point, Point) -> Point,
    F: Fn(CubicBez, Point, Point, Point, Point) -> CubicBez,
    D: Fn(CubicBez, CubicBez) -> Real,
    H: Fn(CubicBez) -> (CubicBez, CubicBez),
    M: Fn(CubicBez) -> Point,
    A: Fn(Point, Point) -> Real,
    R: Fn(Point, Point, Point, Point) -> Vec<Segment>,
>(
    between: &C,
    tangent: &T,
    shift: &S,
    fit: &F,
    deviation: &D,
    bound: Real,
    halves: &H,
    middle: &M,
    apart: &A,
    arc: &R,
    tol: Real,
    splits: &Vec<Real>,
    out: &mut Vec<Segment>,
)
    requires
        forall|t: Real, u: Real| call_requires(between, (t, u)),
        forall|t: Real, b: bool| call_requires(tangent, (t, b)),
        forall|p: Point, t: Point| call_requires(shift, (p, t)),
        forall|c: CubicBez, a: Point, t: Point, b: Point, u: Point|
            call_requires(fit, (c, a, t, b, u)),
        forall|c: CubicBez, f: CubicBez| call_requires(deviation, (c, f)),
        forall|c: CubicBez| call_requires(halves, (c,)),
        forall|c: CubicBez| call_requires(middle, (c,)),
        forall|a: Point, b: Point| call_requires(apart, (a, b)),
        forall|p: Point, a: Point, b: Point, t: Point| call_requires(arc, (p, a, b, t)),
        splits@.len() < usize::MAX,
    ensures
        exists|first: Point, cuts: Seq<Cut>|
            {
                &&& #[trigger] cut_up(
                    *between,
                    *tangent,
                    *shift,
                    *fit,
                    *deviation,
                    bound,
                    *halves,
                    *middle,
                    *apart,
                    *arc,
                    tol,
                    splits@,
                    first,
                    cuts,
                )
                &&& cuts.len() == splits@.len() + 1
                &&& final(out)@ == old(out)@ + added(cuts, cuts.len() as int)
            },
{
    let n: usize = splits.len();
    let mut t0: Real = Real { bits: 0 };
    let first = tangent(t0, true);
    let mut leaving = first;
    let mut i: usize = 0;
    let ghost mut cuts: Seq<Cut> = Seq::empty();
    assert(out@ =~= old(out)@ + added(cuts, 0));
    while i <= n
        invariant
            i <= n + 1,
            n == splits@.len(),
            n < usize::MAX,
            cuts.len() == i,
            t0 == since(splits@, i as int),
            leaving == (if i == 0 {
                first
            } else {
                cuts[i - 1].leaving
            }),
            out@ == old(out)@ + added(cuts, i as int),
            cut_up(
                *between,
                *tangent,
                *shift,
                *fit,
                *deviation,
                bound,
                *halves,
                *middle,
                *apart,
                *arc,
                tol,
                splits@,
                first,
                cuts,
            ),
            forall|t: Real, u: Real| call_requires(between, (t, u)),
            forall|t: Real, b: bool| call_requires(tangent, (t, b)),
            forall|p: Point, t: Point| call_requires(shift, (p, t)),
            forall|c: CubicBez, a: Point, t: Point, b: Point, u: Point|
                call_requires(fit, (c, a, t, b, u)),
            forall|c: CubicBez, f: CubicBez| call_requires(deviation, (c, f)),
            forall|c: CubicBez| call_requires(halves, (c,)),
            forall|c: CubicBez| call_requires(middle, (c,)),
            forall|a: Point, b: Point| call_requires(apart, (a, b)),
            forall|p: Point, a: Point, b: Point, t: Point| call_requires(arc, (p, a, b, t)),
        decreases n + 1 - i,
    {
        let ghost before = out@;
        let one = Real { bits: ONE };
        let t1: Real = if i < n {
            splits[i]
        } else {
            one
        };
        let piece = between(t0, t1);
        let arriving = tangent(t1, false);
        offset_piece(
            shift,
            fit,
            deviation,
            bound,
            halves,
            middle,
            piece,
            MAX_DEPTH,
            leaving,
            arriving,
            out,
        );
        let ghost mid = out@;
        let ghost part = mid.skip(before.len() as int);
        let ghost mut turn: Seq<Segment> = Seq::empty();
        assert(mid == before + part) by {
            assert forall|k: int| 0 <= k < before.len() implies mid[k] == before[k] by {
                assert(mid.take(before.len() as int)[k] == before[k]);
            }
        }
        let out_of = tangent(t1, true);
        if t1.below(one) && !arriving.equal(out_of) {
            // The tangent reverses: the pen ran forwards, stopped and came
            // back, and the boundary it swept is a round cap.
            let t2: Real = if i < n && i + 1 < n {
                splits[i + 1]
            } else {
                one
            };
            let next = between(t1, t2);
            let from = shift(piece.p3, arriving);
            let to = shift(next.p0, out_of);
            let gap = apart(from, to);
            if tol.below(gap) {
                let v = arc(piece.p3, from, to, arriving);
                append_chain(out, &v);
                proof {
                    turn = v@;
                }
            }
            proof {
                let cut = Cut { piece, arriving, leaving: out_of, part, turn };
                assert(rounds(
                    *between,
                    *shift,
                    *apart,
                    *arc,
                    tol,
                    splits@,
                    i as int,
                    cut,
                    next,
                    from,
                    to,
                    gap,
                ));
            }
        }
        proof {
            let cut = Cut { piece, arriving, leaving: out_of, part, turn };
            let earlier = cuts;
            cuts = cuts.push(cut);
            lemma_added(earlier, cuts, i as int);
            assert(out@ == before + part + turn);
            assert(out@ =~= old(out)@ + added(cuts, i + 1));
            assert forall|k: int| 0 <= k < cuts.len() implies #[trigger] cut_right(
                *between,
                *tangent,
                *shift,
                *fit,
                *deviation,
                bound,
                *halves,
                *middle,
                *apart,
                *arc,
                tol,
                splits@,
                first,
                cuts,
                k,
            ) by {
                if k < i {
                    assert(cut_right(
                        *between,
                        *tangent,
                        *shift,
                        *fit,
                        *deviation,
                        bound,
                        *halves,
                        *middle,
                        *apart,
                        *arc,
                        tol,
                        splits@,
                        first,
                        earlier,
                        k,
                    ));
                    assert(cuts[k] == earlier[k]);
                }
            }
        }
        leaving = out_of;
        t0 = t1;
        i += 1;
    }
}

/// Appends a chain.
fn append_chain(out: &mut Vec<Segment>, more: &Vec<Segment>)
    ensures
        final(out)@ == old(out)@ + more@,
{
    let mut i: usize = 0;
    assert(out@ =~= old(out)@ + more@.take(0));
    while i < more.len()
        invariant
            i <= more@.len(),
            out@ == old(out)@ + more@.take(i as int),
        decreases more.len() - i,
    {
        out.push(more[i]);
        assert(more@.take(i as int + 1) == more@.take(i as int).push(more@[i as int]));
        i += 1;
        assert(out@ =~= old(out)@ + more@.take(i as int));
    }
    assert(more@.take(i as int) == more@);
}

/// Whether a chain is the offset of a segment: the segment itself for a
/// distance of zero, a line for a line, and what the curve gives for a curve,
/// a quadratic one by the cubic that draws it.
pub open spec fn offsets<
    L: Fn(Point, Point) -> Segment,
    E: Fn(QuadBez) -> CubicBez,
    K: Fn(CubicBez) -> Vec<Segment>,
>(straight: L, elevate: E, curve: K, distance: Real, s: Segment, chain: Seq<Segment>) -> bool {
    if distance.equals(Real { bits: 0 }) {
        chain == seq![s]
    } else {
        match s {
            Segment::Line(p0, p1) => exists|l: Segment| #[trigger]
                call_ensures(straight, (p0, p1), l) && chain == seq![l],
            Segment::Quad(q) => exists|c: CubicBez, v: Vec<Segment>|
                #![trigger call_ensures(elevate, (q,), c), call_ensures(curve, (c,), v)]
                call_ensures(elevate, (q,), c) && call_ensures(curve, (c,), v) && chain == v@,
            Segment::Cubic(c) => exists|v: Vec<Segment>| #[trigger]
                call_ensures(curve, (c,), v) && chain == v@,
        }
    }
}

impl Segment {
    /// Appends a chain of segments that stands for this one offset by
    /// `distance`. Offsetting by zero appends the segment unchanged, bit for
    /// bit.
    ///
    /// `straight` offsets a line, `curve` a cubic curve, and `elevate` gives the
    /// cubic curve that draws a quadratic one.
    pub fn offset<
        L: Fn(Point, Point) -> Segment,
        E: Fn(QuadBez) -> CubicBez,
        K: Fn(CubicBez) -> Vec<Segment>,
    >(self, distance: Real, straight: &L, elevate: &E, curve: &K, out: &mut Vec<Segment>)
        requires
            forall|a: Point, b: Point| call_requires(straight, (a, b)),
            forall|q: QuadBez| call_requires(elevate, (q,)),
            forall|c: CubicBez| call_requires(curve, (c,)),
        ensures
            exists|chain: Seq<Segment>| #[trigger]
                offsets(*straight, *elevate, *curve, distance, self, chain) && final(out)@ == old(
                    out,
                )@ + chain,
    {
        let ghost before = out@;
        let ghost mut chain: Seq<Segment> = Seq::empty();
        if distance.equal(Real { bits: 0 }) {
            out.push(self);
            proof {
                chain = seq![self];
            }
        } else {
            match self {
                Segment::Line(p0, p1) => {
                    let l = straight(p0, p1);
                    out.push(l);
                    proof {
                        chain = seq![l];
                    }
                },
                Segment::Quad(q) => {
                    let v = curve(elevate(q));
                    append_chain(out, &v);
                    proof {
                        chain = v@;
                    }
                },
                Segment::Cubic(c) => {
                    let v = curve(c);
                    append_chain(out, &v);
                    proof {
                        chain = v@;
                    }
                },
            }
        }
        assert(offsets(*straight, *elevate, *curve, distance, self, chain));
        assert(out@ =~= before + chain);
    }
}

/// Whether parameters ascend, in the order that tells all bit patterns apart.
pub open spec fn ascends(s: Seq<Real>) -> bool {
    forall|i: int, j: int|
        0 <= i <= j < s.len() ==> (#[trigger] s[i]).total_rank() <= (#[trigger] s[j]).total_rank()
}

/// The first `n` parameters, without those outside `lo..=hi`.
pub open spec fn inside(s: Seq<Real>, lo: Real, hi: Real, n: int) -> Seq<Real>
    decreases n,
{
    if n <= 0 {
        Seq::empty()
    } else if lo.at_most(s[n - 1]) && s[n - 1].at_most(hi) {
        inside(s, lo, hi, n - 1).push(s[n - 1])
    } else {
        inside(s, lo, hi, n - 1)
    }
}

/// Whether `near` says that one parameter follows another too closely.
pub open spec fn close<N: Fn(Real, Real) -> bool>(near: N, a: Real, b: Real) -> bool {
    call_ensures(near, (a, b), true)
}

/// The first `n` parameters, without those that follow too closely on the last
/// one that is kept.
pub open spec fn thinned<N: Fn(Real, Real) -> bool>(near: N, s: Seq<Real>, n: int) -> Seq<Real>
    decreases n,
{
    if n <= 0 {
        Seq::empty()
    } else {
        let kept = thinned(near, s, n - 1);
        if kept.len() > 0 && close(near, kept.last(), s[n - 1]) {
            kept
        } else {
            kept.push(s[n - 1])
        }
    }
}

/// Parameters in ascending order.
pub fn sort_params(roots: &Vec<Real>) -> (r: Vec<Real>)
    ensures
        ascends(r@),
        r@.to_multiset() == roots@.to_multiset(),
{
    let mut r: Vec<Real> = Vec::new();
    let mut i: usize = 0;
    assert(r@ =~= roots@.take(0));
    while i < roots.len()
        invariant
            i <= roots@.len(),
            ascends(r@),
            r@.to_multiset() == roots@.take(i as int).to_multiset(),
        decreases roots.len() - i,
    {
        broadcast use vstd::seq_lib::group_to_multiset_ensures;

        let t = roots[i];
        let ghost s = r@;
        let mut k: usize = r.len();
        while k > 0 && t.precedes(r[k - 1])
            invariant
                k <= r@.len(),
                r@ == s,
                forall|j: int| k <= j < s.len() ==> t.total_rank() < (#[trigger] s[j]).total_rank(),
            decreases k,
        {
            k -= 1;
        }
        r.insert(k, t);
        proof {
            assert(r@ == s.insert(k as int, t));
            assert forall|a: int, b: int| 0 <= a <= b < r@.len() implies (
            #[trigger] r@[a]).total_rank() <= (#[trigger] r@[b]).total_rank() by {
                if a < k && b < k {
                    assert(s[a].total_rank() <= s[b].total_rank());
                } else if a < k && b == k {
                    assert(s[a].total_rank() <= s[k - 1].total_rank());
                } else if a < k {
                    assert(s[a].total_rank() <= s[b - 1].total_rank());
                } else if a == k && b > k {
                    assert(t.total_rank() < s[b - 1].total_rank());
                } else if a > k {
                    assert(s[a - 1].total_rank() <= s[b - 1].total_rank());
                }
            }
            assert(roots@.take(i as int + 1) == roots@.take(i as int).push(t));
        }
        i += 1;
    }
    assert(roots@.take(i as int) == roots@);
    r
}

/// Where to cut a curve before it is fitted: the given parameters in ascending
/// order, inside `lo..=hi` and none too near to the one before it.
pub fn split_params<N: Fn(Real, Real) -> bool>(
    roots: &Vec<Real>,
    lo: Real,
    hi: Real,
    near: &N,
) -> (r: Vec<Real>)
    requires
        forall|a: Real, b: Real| call_requires(near, (a, b)),
        forall|a: Real, b: Real| #[trigger]
            call_ensures(near, (a, b), false) ==> !call_ensures(near, (a, b), true),
    ensures
        exists|s: Seq<Real>| #[trigger]
            ascends(s) && s.to_multiset() == roots@.to_multiset() && r@ == thinned(
                *near,
                inside(s, lo, hi, s.len() as int),
                inside(s, lo, hi, s.len() as int).len() as int,
            ),
{
    let sorted = sort_params(roots);
    let mut kept: Vec<Real> = Vec::new();
    let mut i: usize = 0;
    while i < sorted.len()
        invariant
            i <= sorted@.len(),
            kept@ == inside(sorted@, lo, hi, i as int),
        decreases sorted.len() - i,
    {
        if lo.not_above(sorted[i]) && sorted[i].not_above(hi) {
            kept.push(sorted[i]);
        }
        i += 1;
    }
    let mut r: Vec<Real> = Vec::new();
    let mut i: usize = 0;
    while i < kept.len()
        invariant
            i <= kept@.len(),
            r@ == thinned(*near, kept@, i as int),
            forall|a: Real, b: Real| call_requires(near, (a, b)),
            forall|a: Real, b: Real| #[trigger]
                call_ensures(near, (a, b), false) ==> !call_ensures(near, (a, b), true),
        decreases kept.len() - i,
    {
        let m: usize = r.len();
        let drop = m > 0 && near(r[m - 1], kept[i]);
        if !drop {
            r.push(kept[i]);
        }
        i += 1;
    }
    assert(ascends(sorted@));
    r
}

proof fn lemma_inside(s: Seq<Real>, lo: Real, hi: Real, n: int)
    requires
        0 <= n <= s.len(),
        ascends(s),
    ensures
        ascends(inside(s, lo, hi, n)),
        forall|i: int|
            0 <= i < inside(s, lo, hi, n).len() ==> lo.at_most(#[trigger] inside(s, lo, hi, n)[i])
                && inside(s, lo, hi, n)[i].at_most(hi),
        forall|i: int|
            0 <= i < inside(s, lo, hi, n).len() && n > 0 ==> (#[trigger] inside(
                s,
                lo,
                hi,
                n,
            )[i]).total_rank() <= s[n - 1].total_rank(),
    decreases n,
{
    if n > 0 {
        lemma_inside(s, lo, hi, n - 1);
        if n > 1 {
            assert(s[n - 2].total_rank() <= s[n - 1].total_rank());
        }
    }
}

proof fn lemma_thinned<N: Fn(Real, Real) -> bool>(
    near: N,
    s: Seq<Real>,
    lo: Real,
    hi: Real,
    n: int,
)
    requires
        0 <= n <= s.len(),
        ascends(s),
        forall|i: int| 0 <= i < s.len() ==> lo.at_most(#[trigger] s[i]) && s[i].at_most(hi),
    ensures
        ascends(thinned(near, s, n)),
        forall|i: int|
            0 <= i < thinned(near, s, n).len() ==> lo.at_most(#[trigger] thinned(near, s, n)[i])
                && thinned(near, s, n)[i].at_most(hi),
        forall|i: int|
            0 <= i < thinned(near, s, n).len() && n > 0 ==> (#[trigger] thinned(
                near,
                s,
                n,
            )[i]).total_rank() <= s[n - 1].total_rank(),
        forall|i: int|
            0 < i < thinned(near, s, n).len() ==> !close(
                near,
                thinned(near, s, n)[i - 1],
                #[trigger] thinned(near, s, n)[i],
            ),
    decreases n,
{
    if n > 0 {
        lemma_thinned(near, s, lo, hi, n - 1);
        if n > 1 {
            assert(s[n - 2].total_rank() <= s[n - 1].total_rank());
        }
    }
}

/// Splits ascend, lie inside the bounds, and none is too near to the one before
/// it.
pub proof fn splits_are_apart<N: Fn(Real, Real) -> bool>(near: N, s: Seq<Real>, lo: Real, hi: Real)
    requires
        ascends(s),
    ensures
        ({
            let kept = inside(s, lo, hi, s.len() as int);
            let r = thinned(near, kept, kept.len() as int);
            &&& ascends(r)
            &&& forall|i: int| 0 <= i < r.len() ==> lo.at_most(#[trigger] r[i]) && r[i].at_most(hi)
            &&& forall|i: int| 0 < i < r.len() ==> !close(near, r[i - 1], #[trigger] r[i])
        }),
{
    lemma_inside(s, lo, hi, s.len() as int);
    let kept = inside(s, lo, hi, s.len() as int);
    lemma_thinned(near, kept, lo, hi, kept.len() as int);
}

/// Where a sampled function has a root.
#[derive(Clone, Copy, Debug, PartialEq, Eq, Structural)]
pub enum Bracket {
    /// At a sample.
    At(usize),
    /// Between a sample and the one before it.
    Before(usize),
}

/// Whether two values that are not zero differ in their sign.
pub open spec fn changes_sign(a: Real, b: Real) -> bool {
    !a.equals(Real { bits: 0 }) && a.less(Real { bits: 0 }) != b.less(Real { bits: 0 })
}

/// The brackets among the first `n` samples. A zero at the very last sample of
/// all is no root to split at, and neither is one at the first.
pub open spec fn bracketed(values: Seq<Real>, n: int) -> Seq<Bracket>
    decreases n,
{
    if n <= 1 {
        Seq::empty()
    } else {
        let before = bracketed(values, n - 1);
        let cur = values[n - 1];
        if cur.equals(Real { bits: 0 }) {
            if n < values.len() {
                before.push(Bracket::At((n - 1) as usize))
            } else {
                before
            }
        } else if changes_sign(values[n - 2], cur) {
            before.push(Bracket::Before((n - 1) as usize))
        } else {
            before
        }
    }
}

/// Every sign change of a function over its samples, and every sample at which
/// it is zero, apart from the first and the last.
pub fn roots(values: &Vec<Real>) -> (r: Vec<Bracket>)
    ensures
        r@ == bracketed(values@, values@.len() as int),
{
    let n: usize = values.len();
    let mut r: Vec<Bracket> = Vec::new();
    if n == 0 {
        return r;
    }
    let zero = Real { bits: 0 };
    let mut i: usize = 1;
    while i < n
        invariant
            1 <= i <= n == values@.len(),
            zero == (Real { bits: 0 }),
            r@ == bracketed(values@, i as int),
        decreases n - i,
    {
        let prev = values[i - 1];
        let cur = values[i];
        if cur.equal(zero) {
            if i + 1 < n {
                r.push(Bracket::At(i));
            }
        } else if !prev.equal(zero) && prev.below(zero) != cur.below(zero) {
            r.push(Bracket::Before(i));
        }
        i += 1;
    }
    r
}

/// The largest of the first `n` deviations, and at least zero. One that is not
/// a number counts as larger than any that is.
pub open spec fn worst_of(devs: Seq<Real>, n: int) -> Real
    decreases n,
{
    if n <= 0 {
        Real { bits: 0 }
    } else {
        let worst = worst_of(devs, n - 1);
        if worst.less(devs[n - 1]) || devs[n - 1].nan() {
            devs[n - 1]
        } else {
            worst
        }
    }
}

/// The largest of the deviations that were measured.
pub fn deviation(devs: &Vec<Real>) -> (r: Real)
    ensures
        r == worst_of(devs@, devs@.len() as int),
{
    let mut worst = Real { bits: 0 };
    let mut i: usize = 0;
    while i < devs.len()
        invariant
            i <= devs@.len(),
            worst == worst_of(devs@, i as int),
        decreases devs.len() - i,
    {
        let dev = devs[i];
        if worst.below(dev) || dev.is_nan() {
            worst = dev;
        }
        i += 1;
    }
    worst
}

/// A deviation that is not a number is never swallowed, and no deviation is
/// larger than the largest.
pub proof fn the_worst_deviation_is_reported(devs: Seq<Real>, n: int, k: int)
    requires
        0 <= k < n <= devs.len(),
    ensures
        devs[k].nan() ==> worst_of(devs, n).nan(),
        !worst_of(devs, n).nan() ==> devs[k].at_most(worst_of(devs, n)),
    decreases n,
{
    if k < n - 1 {
        the_worst_deviation_is_reported(devs, n - 1, k);
    }
}

/// The splits cut the curve into pieces that abut and cover all of it: the first
/// begins at the start, each of the others where the one before it ends, and the
/// last ends at the end.
pub proof fn pieces_cover_the_curve(splits: Seq<Real>, i: int)
    requires
        0 <= i,
    ensures
        since(splits, 0) == (Real { bits: 0 }),
        since(splits, i + 1) == until(splits, i),
        i < splits.len() ==> until(splits, i) == splits[i],
        until(splits, splits.len() as int) == (Real { bits: 0x3ff0_0000_0000_0000 }),
{
}

/// Whether a curve is within the bound of some curve that it was fitted to.
pub open spec fn within<D: Fn(CubicBez, CubicBez) -> Real>(
    deviation: D,
    bound: Real,
    f: CubicBez,
) -> bool {
    exists|c: CubicBez, dev: Real| #[trigger]
        call_ensures(deviation, (c, f), dev) && dev.at_most(bound)
}

/// Every curve of an offset is a fit within the bound of some piece that it
/// stands for; a straight line stands only for a piece that could not be halved
/// further.
pub proof fn an_offset_keeps_to_its_bound<
    S: Fn(Point, Point) -> Point,
    F: Fn(CubicBez, Point, Point, Point, Point) -> CubicBez,
    D: Fn(CubicBez, CubicBez) -> Real,
    H: Fn(CubicBez) -> (CubicBez, CubicBez),
    M: Fn(CubicBez) -> Point,
>(
    shift: S,
    fit: F,
    deviation: D,
    bound: Real,
    halves: H,
    middle: M,
    c: CubicBez,
    depth: nat,
    t0: Point,
    t1: Point,
    chain: Seq<Segment>,
    i: int,
)
    requires
        pieced(shift, fit, deviation, bound, halves, middle, c, depth, t0, t1, chain),
        0 <= i < chain.len(),
    ensures
        chain[i] matches Segment::Cubic(f) ==> within(deviation, bound, f),
        !(chain[i] is Quad),
        chain[i] is Line ==> depth == 0 || chain.len() > 1,
        chain.len() >= 1,
    decreases depth,
{
    if depth > 0 {
        if !exists|a: Point, b: Point, f: CubicBez|
            #![trigger ends(shift, c, t0, t1, a, b), fits(fit, deviation, bound, c, a, t0, b, t1, f)]
            ends(shift, c, t0, t1, a, b) && fits(fit, deviation, bound, c, a, t0, b, t1, f) && chain
                == seq![Segment::Cubic(f)] {
            let (l, r, tm, k) = choose|l: CubicBez, r: CubicBez, tm: Point, k: int|
                #![trigger halved(halves, middle, c, l, r, tm), chain.take(k)]
                halved(halves, middle, c, l, r, tm) && 0 <= k <= chain.len() && pieced(
                    shift,
                    fit,
                    deviation,
                    bound,
                    halves,
                    middle,
                    l,
                    (depth - 1) as nat,
                    t0,
                    tm,
                    chain.take(k),
                ) && pieced(
                    shift,
                    fit,
                    deviation,
                    bound,
                    halves,
                    middle,
                    r,
                    (depth - 1) as nat,
                    tm,
                    t1,
                    chain.skip(k),
                );
            let less = (depth - 1) as nat;
            lemma_pieced_some(
                shift, fit, deviation, bound, halves, middle, l, less, t0, tm, chain.take(k),
            );
            lemma_pieced_some(
                shift, fit, deviation, bound, halves, middle, r, less, tm, t1, chain.skip(k),
            );
            if i < k {
                assert(chain.take(k)[i] == chain[i]);
                an_offset_keeps_to_its_bound(
                    shift, fit, deviation, bound, halves, middle, l, less, t0, tm, chain.take(k), i,
                );
            } else {
                assert(chain.skip(k)[i - k] == chain[i]);
                an_offset_keeps_to_its_bound(
                    shift,
                    fit,
                    deviation,
                    bound,
                    halves,
                    middle,
                    r,
                    less,
                    tm,
                    t1,
                    chain.skip(k),
                    i - k,
                );
            }
        } else {
            let (a, b, f) = choose|a: Point, b: Point, f: CubicBez|
                #![trigger ends(shift, c, t0, t1, a, b), fits(fit, deviation, bound, c, a, t0, b, t1, f)]
                ends(shift, c, t0, t1, a, b) && fits(fit, deviation, bound, c, a, t0, b, t1, f)
                    && chain == seq![Segment::Cubic(f)];
            let dev = choose|dev: Real| #[trigger]
                call_ensures(deviation, (c, f), dev) && dev.at_most(bound);
            assert(call_ensures(deviation, (c, f), dev));
            assert(chain[i] == Segment::Cubic(f));
        }
    }
}

proof fn lemma_pieced_some<
    S: Fn(Point, Point) -> Point,
    F: Fn(CubicBez, Point, Point, Point, Point) -> CubicBez,
    D: Fn(CubicBez, CubicBez) -> Real,
    H: Fn(CubicBez) -> (CubicBez, CubicBez),
    M: Fn(CubicBez) -> Point,
>(
    shift: S,
    fit: F,
    deviation: D,
    bound: Real,
    halves: H,
    middle: M,
    c: CubicBez,
    depth: nat,
    t0: Point,
    t1: Point,
    chain: Seq<Segment>,
)
    requires
        pieced(shift, fit, deviation, bound, halves, middle, c, depth, t0, t1, chain),
    ensures
        chain.len() > 0,
    decreases depth,
{
    if depth > 0 {
        if !exists|a: Point, b: Point, f: CubicBez|
            #![trigger ends(shift, c, t0, t1, a, b), fits(fit, deviation, bound, c, a, t0, b, t1, f)]
            ends(shift, c, t0, t1, a, b) && fits(fit, deviation, bound, c, a, t0, b, t1, f) && chain
                == seq![Segment::Cubic(f)] {
            let (l, r, tm, k) = choose|l: CubicBez, r: CubicBez, tm: Point, k: int|
                #![trigger halved(halves, middle, c, l, r, tm), chain.take(k)]
                halved(halves, middle, c, l, r, tm) && 0 <= k <= chain.len() && pieced(
                    shift,
                    fit,
                    deviation,
                    bound,
                    halves,
                    middle,
                    l,
                    (depth - 1) as nat,
                    t0,
                    tm,
                    chain.take(k),
                ) && pieced(
                    shift,
                    fit,
                    deviation,
                    bound,
                    halves,
                    middle,
                    r,
                    (depth - 1) as nat,
                    tm,
                    t1,
                    chain.skip(k),
                );
            lemma_pieced_some(
                shift,
                fit,
                deviation,
                bound,
                halves,
                middle,
                l,
                (depth - 1) as nat,
                t0,
                tm,
                chain.take(k),
            );
        }
    }
}

/// An offset by nothing is the segment itself; a straight segment stays one
/// segment, and a curve of either degree goes the way of cubics.
pub proof fn an_offset_by_nothing_changes_nothing<
    L: Fn(Point, Point) -> Segment,
    E: Fn(QuadBez) -> CubicBez,
    K: Fn(CubicBez) -> Vec<Segment>,
>(straight: L, elevate: E, curve: K, distance: Real, s: Segment, chain: Seq<Segment>)
    requires
        offsets(straight, elevate, curve, distance, s, chain),
    ensures
        distance.bits == 0 || distance.bits == 0x8000_0000_0000_0000 ==> chain == seq![s],
        !distance.equals(Real { bits: 0 }) ==> match s {
            Segment::Line(a, b) => chain.len() == 1 && call_ensures(straight, (a, b), chain[0]),
            Segment::Quad(q) => exists|c: CubicBez, v: Vec<Segment>|
                #![trigger call_ensures(elevate, (q,), c), call_ensures(curve, (c,), v)]
                call_ensures(elevate, (q,), c) && call_ensures(curve, (c,), v) && chain == v@,
            Segment::Cubic(c) => exists|v: Vec<Segment>| #[trigger]
                call_ensures(curve, (c,), v) && chain == v@,
        },
{
}

/// Every parameter that is inside the range is kept, or stands close behind one
/// that is.
pub proof fn no_split_is_lost<N: Fn(Real, Real) -> bool>(
    near: N,
    s: Seq<Real>,
    lo: Real,
    hi: Real,
    n: int,
    k: int,
)
    requires
        0 <= k < n <= s.len(),
        lo.at_most(s[k]) && s[k].at_most(hi),
    ensures
        inside(s, lo, hi, n).contains(s[k]),
    decreases n,
{
    let now = inside(s, lo, hi, n);
    if k == n - 1 {
        assert(now[now.len() - 1] == s[k]);
    } else {
        no_split_is_lost(near, s, lo, hi, n - 1, k);
        let before = inside(s, lo, hi, n - 1);
        let m = choose|m: int| 0 <= m < before.len() && before[m] == s[k];
        assert(now[m] == s[k]);
    }
}

/// Thinning drops a parameter only where it is close to the one kept before it.
pub proof fn thinning_drops_only_what_is_close<N: Fn(Real, Real) -> bool>(
    near: N,
    s: Seq<Real>,
    n: int,
    k: int,
)
    requires
        0 <= k < n <= s.len(),
    ensures
        thinned(near, s, n).len() > 0,
        thinned(near, s, n)[0] == s[0],
        thinned(near, s, n).contains(s[k]) || exists|m: int|
            0 <= m < thinned(near, s, n).len() && close(near, #[trigger] thinned(near, s, n)[m], s[k]),
    decreases n,
{
    let now = thinned(near, s, n);
    let before = thinned(near, s, n - 1);
    if n > 1 {
        thinning_drops_only_what_is_close(near, s, n - 1, 0);
    }
    if k < n - 1 {
        thinning_drops_only_what_is_close(near, s, n - 1, k);
        if before.contains(s[k]) {
            let m = choose|m: int| 0 <= m < before.len() && before[m] == s[k];
            assert(now[m] == s[k]);
        } else {
            let m = choose|m: int|
                0 <= m < before.len() && close(near, #[trigger] before[m], s[k]);
            assert(now[m] == before[m]);
        }
    } else if before.len() > 0 && close(near, before.last(), s[n - 1]) {
        assert(now[now.len() - 1] == before.last());
    } else {
        assert(now[now.len() - 1] == s[k]);
    }
}

/// The worst deviation is one of those reported, or none where there is none.
pub proof fn the_worst_deviation_is_one_of_them(devs: Seq<Real>, n: int)
    requires
        0 <= n <= devs.len(),
    ensures
        worst_of(devs, n) == (Real { bits: 0 }) || exists|k: int|
            0 <= k < n && #[trigger] devs[k] == worst_of(devs, n),
    decreases n,
{
    if n > 0 {
        the_worst_deviation_is_one_of_them(devs, n - 1);
        if worst_of(devs, n) != worst_of(devs, n - 1) {
            assert(devs[n - 1] == worst_of(devs, n));
        }
    }
}

/// Every sign change between two samples is bracketed: where neither is zero and
/// exactly one of the two is negative, there is a bracket before the later; and a
/// sample that is zero, neither the first nor the last, is bracketed itself.
pub proof fn every_sign_change_is_bracketed(values: Seq<Real>, n: int, k: int)
    requires
        0 < k < n <= values.len() <= usize::MAX,
    ensures
        values[k].equals(Real { bits: 0 }) && k < values.len() - 1 ==> bracketed(
            values,
            n,
        ).contains(Bracket::At(k as usize)),
        !values[k - 1].equals(Real { bits: 0 }) && !values[k].equals(Real { bits: 0 })
            && values[k - 1].less(Real { bits: 0 }) != values[k].less(Real { bits: 0 })
            ==> bracketed(values, n).contains(Bracket::Before(k as usize)),
    decreases n,
{
    let now = bracketed(values, n);
    if k == n - 1 {
        if now.len() > 0 {
            assert(now[now.len() - 1] == now.last());
        }
    } else {
        every_sign_change_is_bracketed(values, n - 1, k);
        let before = bracketed(values, n - 1);
        assert forall|b: Bracket| before.contains(b) implies now.contains(b) by {
            let m = choose|m: int| 0 <= m < before.len() && before[m] == b;
            assert(now[m] == b);
        }
    }
}

/// A bracket is only where there is a reason for one.
pub proof fn a_bracket_holds_a_root(values: Seq<Real>, n: int, i: int)
    requires
        0 <= n <= values.len() <= usize::MAX,
        0 <= i < bracketed(values, n).len(),
    ensures
        match bracketed(values, n)[i] {
            Bracket::At(k) => 0 < k < n && k < values.len() - 1 && values[k as int].equals(
                Real { bits: 0 },
            ),
            Bracket::Before(k) => 0 < k < n && !values[k - 1].equals(Real { bits: 0 })
                && !values[k as int].equals(Real { bits: 0 }) && values[k - 1].less(
                Real { bits: 0 },
            ) != values[k as int].less(Real { bits: 0 }),
        },
    decreases n,
{
    let before = bracketed(values, n - 1);
    if n > 1 && i < before.len() {
        assert(bracketed(values, n)[i] == before[i]);
        a_bracket_holds_a_root(values, n - 1, i);
    }
}

/// A gap is closed by an arc only at a cusp, where the direction changes inside the
/// curve, and only where it is wider than the tolerance.
pub proof fn only_a_cusp_is_rounded(splits: Seq<Real>, i: int, cut: Cut)
    ensures
        cut.arriving.equals(cut.leaving) ==> !cusp(splits, i, cut),
        i >= splits.len() ==> !cusp(splits, i, cut),
        0 <= i < splits.len() && splits[i].less(Real { bits: 0x3ff0_0000_0000_0000 })
            && !cut.arriving.equals(cut.leaving) ==> cusp(splits, i, cut),
{
}

/// An offset is the pieces in order, each followed by what turns its cusp.
pub proof fn pieces_and_turns_alternate(cuts: Seq<Cut>, n: int)
    requires
        0 < n <= cuts.len(),
    ensures
        added(cuts, n) == added(cuts, n - 1) + cuts[n - 1].part + cuts[n - 1].turn,
        added(cuts, 0).len() == 0,
        MAX_DEPTH == 12,
{
}

} // verus!
