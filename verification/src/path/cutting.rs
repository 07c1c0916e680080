//! From segments to edges: which segments to intersect, where to cut them, which
//! ends are one vertex and which edges are one edge.
//!
//! How far apart two points are, how large a piece is and where two curves meet
//! is measured outside; closures and lists hold the results.

use vstd::prelude::*;
use crate::geom::Point;
use crate::geom::Real;
use crate::geom::Rect;
use crate::path::boolean;
use crate::path::boolean::Edge;
use crate::path::boolean::Merger;
use crate::path::outline::Segment;
use crate::path::winding;

verus! {

/// Whether key `a` comes before key `b`, from their `k`th numbers on.
pub open spec fn key_less(a: Seq<i128>, b: Seq<i128>, k: int) -> bool
    decreases a.len() - k,
{
    if k < 0 || k >= a.len() || k >= b.len() {
        false
    } else if a[k] == b[k] {
        key_less(a, b, k + 1)
    } else {
        a[k] < b[k]
    }
}

fn key_before(a: &Vec<i128>, b: &Vec<i128>) -> (r: bool)
    ensures
        r == key_less(a@, b@, 0),
{
    let mut k: usize = 0;
    while k < a.len() && k < b.len() && a[k] == b[k]
        invariant
            k <= a@.len(),
            k <= b@.len(),
            key_less(a@, b@, 0) == key_less(a@, b@, k as int),
        decreases a@.len() - k,
    {
        k += 1;
    }
    k < a.len() && k < b.len() && a[k] < b[k]
}

/// Keys as sequences.
pub open spec fn key_views(keys: Seq<Vec<i128>>) -> Seq<Seq<i128>> {
    Seq::new(keys.len(), |i: int| keys[i]@)
}

/// An order with `i` put in behind all whose key does not come after its own.
pub open spec fn placed(keys: Seq<Seq<i128>>, order: Seq<usize>, i: usize) -> Seq<usize>
    decreases order.len(),
{
    if order.len() == 0 || !key_less(keys[i as int], keys[order.last() as int], 0) {
        order.push(i)
    } else {
        placed(keys, order.drop_last(), i).push(order.last())
    }
}

/// The first `n` things by their keys; those with one key stay in order.
pub open spec fn ordered(keys: Seq<Seq<i128>>, n: int) -> Seq<usize>
    decreases n,
{
    if n <= 0 {
        Seq::empty()
    } else {
        placed(keys, ordered(keys, n - 1), (n - 1) as usize)
    }
}

/// Whether a list holds each of `0..n` once.
pub open spec fn is_order(order: Seq<usize>, n: int) -> bool {
    &&& order.len() == n
    &&& forall|k: int| 0 <= k < n ==> (#[trigger] order[k]) < n
    &&& forall|j: int, k: int| 0 <= j < k < n ==> (#[trigger] order[j]) != (#[trigger] order[k])
}

proof fn lemma_placed(keys: Seq<Seq<i128>>, order: Seq<usize>, i: usize)
    ensures
        placed(keys, order, i).len() == order.len() + 1,
        placed(keys, order, i).to_multiset() == order.to_multiset().insert(i),
    decreases order.len(),
{
    broadcast use vstd::seq_lib::group_to_multiset_ensures;

    if order.len() > 0 && key_less(keys[i as int], keys[order.last() as int], 0) {
        lemma_placed(keys, order.drop_last(), i);
        assert(order =~= order.drop_last().push(order.last()));
        assert(placed(keys, order, i).to_multiset() =~= order.to_multiset().insert(i));
    }
}

proof fn lemma_placed_members(keys: Seq<Seq<i128>>, order: Seq<usize>, i: usize, n: int)
    requires
        order.len() <= n,
        forall|k: int| 0 <= k < order.len() ==> (#[trigger] order[k]) < n && order[k] != i,
        forall|j: int, k: int|
            0 <= j < k < order.len() ==> (#[trigger] order[j]) != (#[trigger] order[k]),
    ensures
        placed(keys, order, i).len() == order.len() + 1,
        forall|k: int|
            0 <= k < placed(keys, order, i).len() ==> (#[trigger] placed(keys, order, i)[k]) < n
                || placed(keys, order, i)[k] == i,
        forall|k: int|
            0 <= k < placed(keys, order, i).len() ==> (#[trigger] placed(keys, order, i)[k]) == i
                || order.contains(placed(keys, order, i)[k]),
        forall|j: int, k: int|
            0 <= j < k < placed(keys, order, i).len() ==> (#[trigger] placed(keys, order, i)[j])
                != (#[trigger] placed(keys, order, i)[k]),
    decreases order.len(),
{
    let p = placed(keys, order, i);
    if order.len() == 0 || !key_less(keys[i as int], keys[order.last() as int], 0) {
        assert forall|k: int| 0 <= k < p.len() implies (#[trigger] p[k]) == i || order.contains(
            p[k],
        ) by {
            if k < order.len() {
                assert(order[k] == p[k]);
            }
        }
    } else {
        let front = order.drop_last();
        let q = placed(keys, front, i);
        assert forall|k: int| 0 <= k < front.len() implies (#[trigger] front[k]) < n && front[k]
            != i by {
            assert(front[k] == order[k]);
        }
        assert forall|j: int, k: int| 0 <= j < k < front.len() implies (#[trigger] front[j]) != (
        #[trigger] front[k]) by {
            assert(front[j] == order[j] && front[k] == order[k]);
        }
        lemma_placed_members(keys, front, i, n);
        let last = order.last();
        assert(last == order[order.len() - 1]);
        assert forall|k: int| 0 <= k < q.len() implies (#[trigger] q[k]) != last && (q[k] == i
            || order.contains(q[k])) by {
            if q[k] != i {
                assert(front.contains(q[k]));
                let m = choose|m: int| 0 <= m < front.len() && front[m] == q[k];
                assert(order[m] == q[k]);
            }
        }
        assert forall|k: int| 0 <= k < p.len() implies (#[trigger] p[k]) == i || order.contains(
            p[k],
        ) by {
            if k < q.len() {
                assert(p[k] == q[k]);
            }
        }
        assert forall|k: int| 0 <= k < p.len() implies (#[trigger] p[k]) < n || p[k] == i by {
            if k < q.len() {
                assert(p[k] == q[k]);
            }
        }
        assert forall|j: int, k: int| 0 <= j < k < p.len() implies (#[trigger] p[j]) != (
        #[trigger] p[k]) by {
            assert(p[j] == q[j]);
            if k < q.len() {
                assert(p[k] == q[k]);
            }
        }
    }
}

/// Sorting neither loses nor repeats anything.
pub proof fn sorting_is_a_permutation(keys: Seq<Seq<i128>>, n: int)
    requires
        0 <= n <= usize::MAX,
    ensures
        is_order(ordered(keys, n), n),
    decreases n,
{
    if n > 0 {
        sorting_is_a_permutation(keys, n - 1);
        let before = ordered(keys, n - 1);
        let i = (n - 1) as usize;
        assert forall|k: int| 0 <= k < before.len() implies (#[trigger] before[k]) < n - 1
            && before[k] != i by {}
        lemma_placed_members(keys, before, i, n - 1);
    }
}

/// Sorting leaves nothing out.
proof fn lemma_ordered_covers(keys: Seq<Seq<i128>>, n: int, i: int)
    requires
        0 <= i < n <= usize::MAX,
    ensures
        ordered(keys, n).contains(i as usize),
    decreases n,
{
    broadcast use vstd::seq_lib::group_to_multiset_ensures;

    let before = ordered(keys, n - 1);
    lemma_placed(keys, before, (n - 1) as usize);
    if i < n - 1 {
        lemma_ordered_covers(keys, n - 1, i);
        assert(before.to_multiset().contains(i as usize));
    }
    assert(ordered(keys, n).to_multiset().contains(i as usize));
}

proof fn lemma_insert(keys: Seq<Seq<i128>>, s: Seq<usize>, i: usize, k: int)
    requires
        0 <= k <= s.len(),
        forall|j: int| k <= j < s.len() ==> key_less(keys[i as int], keys[#[trigger] s[j] as int], 0),
        k > 0 ==> !key_less(keys[i as int], keys[s[k - 1] as int], 0),
    ensures
        s.insert(k, i) == placed(keys, s, i),
    decreases s.len(),
{
    if k < s.len() {
        let front = s.drop_last();
        assert(key_less(keys[i as int], keys[s[s.len() - 1] as int], 0));
        assert forall|j: int| k <= j < front.len() implies key_less(
            keys[i as int],
            keys[#[trigger] front[j] as int],
            0,
        ) by {
            assert(front[j] == s[j]);
        }
        lemma_insert(keys, front, i, k);
        assert(s.insert(k, i) =~= front.insert(k, i).push(s.last()));
    } else {
        assert(s.insert(k, i) =~= s.push(i));
    }
}

/// The places of things in the order of their keys; those with one key stay in
/// order.
fn sort_order(keys: &Vec<Vec<i128>>) -> (order: Vec<usize>)
    ensures
        order@ == ordered(key_views(keys@), keys@.len() as int),
{
    let ghost all = key_views(keys@);
    let n: usize = keys.len();
    let mut order: Vec<usize> = Vec::new();
    let mut i: usize = 0;
    while i < n
        invariant
            i <= n == keys@.len(),
            all == key_views(keys@),
            order@ == ordered(all, i as int),
        decreases n - i,
    {
        proof {
            sorting_is_a_permutation(all, i as int);
        }
        let ghost s = order@;
        let mut k: usize = order.len();
        while k > 0 && key_before(&keys[i], &keys[order[k - 1]])
            invariant
                k <= order@.len(),
                i < n == keys@.len(),
                all == key_views(keys@),
                order@ == s,
                is_order(s, i as int),
                forall|j: int|
                    k <= j < s.len() ==> key_less(all[i as int], all[#[trigger] s[j] as int], 0),
            decreases k,
        {
            k -= 1;
        }
        proof {
            lemma_insert(all, s, i, k as int);
        }
        order.insert(k, i);
        i += 1;
    }
    order
}

/// Whether a test of two points can be asked of any and answers one way.
pub open spec fn decides<F: Fn(Point, Point) -> bool>(f: F) -> bool {
    &&& forall|a: Point, b: Point| call_requires(f, (a, b))
    &&& forall|a: Point, b: Point|
        call_ensures(f, (a, b), true) ==> !(#[trigger] call_ensures(f, (a, b), false))
}

/// Whether a test holds of two points.
pub open spec fn says<F: Fn(Point, Point) -> bool>(f: F, a: Point, b: Point) -> bool {
    call_ensures(f, (a, b), true)
}

/// The key a point is sorted by: from left to right, then from top to bottom.
pub open spec fn point_key(p: Point) -> Seq<i128> {
    seq![p.x.total_rank() as i128, p.y.total_rank() as i128]
}

pub open spec fn point_keys(points: Seq<Point>) -> Seq<Seq<i128>> {
    Seq::new(points.len(), |i: int| point_key(points[i]))
}

/// Points in an order.
pub open spec fn in_order(points: Seq<Point>, order: Seq<usize>) -> Seq<Point> {
    Seq::new(order.len(), |k: int| points[order[k] as int])
}

/// Points from left to right.
pub open spec fn swept(points: Seq<Point>) -> Seq<Point> {
    in_order(points, ordered(point_keys(points), points.len() as int))
}

/// The first vertex from the `w`th on that `p` has not left behind.
pub open spec fn ahead<B: Fn(Point, Point) -> bool>(
    behind: B,
    verts: Seq<Point>,
    w: int,
    p: Point,
) -> int
    decreases verts.len() - w,
{
    if 0 <= w < verts.len() && says(behind, verts[w], p) {
        ahead(behind, verts, w + 1, p)
    } else {
        w
    }
}

/// The first vertex from the `k`th on that `p` is near, or the end.
pub open spec fn nearest<N: Fn(Point, Point) -> bool>(
    near: N,
    verts: Seq<Point>,
    k: int,
    p: Point,
) -> int
    decreases verts.len() - k,
{
    if 0 <= k < verts.len() && !says(near, verts[k], p) {
        nearest(near, verts, k + 1, p)
    } else {
        k
    }
}

/// How far a sweep has come: the vertices, and the first that can still be
/// near.
pub struct SweepModel {
    pub verts: Seq<Point>,
    pub window: int,
}

/// The first `n` points grouped: each joins the first vertex it is near, or
/// becomes one.
pub open spec fn sweep<B: Fn(Point, Point) -> bool, N: Fn(Point, Point) -> bool>(
    behind: B,
    near: N,
    q: Seq<Point>,
    n: int,
) -> SweepModel
    decreases n,
{
    if n <= 0 {
        SweepModel { verts: Seq::empty(), window: 0 }
    } else {
        let s = sweep(behind, near, q, n - 1);
        let window = ahead(behind, s.verts, s.window, q[n - 1]);
        if nearest(near, s.verts, window, q[n - 1]) < s.verts.len() {
            SweepModel { verts: s.verts, window }
        } else {
            SweepModel { verts: s.verts.push(q[n - 1]), window }
        }
    }
}

/// The vertex that the `k`th point joins or becomes.
pub open spec fn vertex_of<B: Fn(Point, Point) -> bool, N: Fn(Point, Point) -> bool>(
    behind: B,
    near: N,
    q: Seq<Point>,
    k: int,
) -> int {
    let s = sweep(behind, near, q, k);
    nearest(near, s.verts, ahead(behind, s.verts, s.window, q[k]), q[k])
}

proof fn lemma_sweep<B: Fn(Point, Point) -> bool, N: Fn(Point, Point) -> bool>(
    behind: B,
    near: N,
    q: Seq<Point>,
    n: int,
)
    ensures
        0 <= sweep(behind, near, q, n).window <= sweep(behind, near, q, n).verts.len(),
        sweep(behind, near, q, n).verts.len() <= (if n <= 0 {
            0
        } else {
            n
        }),
    decreases n,
{
    if n > 0 {
        lemma_sweep(behind, near, q, n - 1);
        let s = sweep(behind, near, q, n - 1);
        lemma_ahead(behind, s.verts, s.window, q[n - 1]);
    }
}

proof fn lemma_ahead<B: Fn(Point, Point) -> bool>(behind: B, verts: Seq<Point>, w: int, p: Point)
    requires
        0 <= w <= verts.len(),
    ensures
        w <= ahead(behind, verts, w, p) <= verts.len(),
    decreases verts.len() - w,
{
    if w < verts.len() && says(behind, verts[w], p) {
        lemma_ahead(behind, verts, w + 1, p);
    }
}

proof fn lemma_nearest<N: Fn(Point, Point) -> bool>(near: N, verts: Seq<Point>, k: int, p: Point)
    requires
        0 <= k <= verts.len(),
    ensures
        k <= nearest(near, verts, k, p) <= verts.len(),
        nearest(near, verts, k, p) < verts.len() ==> says(
            near,
            verts[nearest(near, verts, k, p)],
            p,
        ),
    decreases verts.len() - k,
{
    if k < verts.len() && !says(near, verts[k], p) {
        lemma_nearest(near, verts, k + 1, p);
    }
}

/// Groups points that are near each other, and returns the vertices together
/// with each point's vertex. `behind` says of a vertex and a point whether the
/// vertex is too far to the left, `near` whether they are one.
///
/// Sweeping in sorted order rather than in input order is what makes the
/// grouping the same whichever path was passed first.
pub fn cluster<B: Fn(Point, Point) -> bool, N: Fn(Point, Point) -> bool>(
    points: &Vec<Point>,
    behind: &B,
    near: &N,
) -> (r: (Vec<Point>, Vec<usize>))
    requires
        decides(*behind),
        decides(*near),
    ensures
        r.0@ == sweep(*behind, *near, swept(points@), points@.len() as int).verts,
        r.1@.len() == points@.len(),
        forall|k: int|
            0 <= k < points@.len() ==> r.1@[#[trigger] ordered(
                point_keys(points@),
                points@.len() as int,
            )[k] as int] == vertex_of(*behind, *near, swept(points@), k),
        forall|i: int| 0 <= i < points@.len() ==> (#[trigger] r.1@[i]) < r.0@.len(),
{
    let n: usize = points.len();
    let mut keys: Vec<Vec<i128>> = Vec::new();
    let mut of_point: Vec<usize> = Vec::new();
    let mut i: usize = 0;
    while i < n
        invariant
            i <= n == points@.len(),
            keys@.len() == i,
            of_point@.len() == i,
            forall|k: int| 0 <= k < i ==> (#[trigger] keys@[k])@ == point_key(points@[k]),
            forall|k: int| 0 <= k < i ==> (#[trigger] of_point@[k]) == 0,
        decreases n - i,
    {
        let mut key: Vec<i128> = Vec::new();
        key.push(points[i].x.total_key() as i128);
        key.push(points[i].y.total_key() as i128);
        assert(key@ =~= point_key(points@[i as int]));
        keys.push(key);
        of_point.push(0);
        i += 1;
    }
    let order = sort_order(&keys);
    let ghost q = swept(points@);
    proof {
        assert(key_views(keys@) =~= point_keys(points@));
        sorting_is_a_permutation(point_keys(points@), n as int);
    }
    let mut verts: Vec<Point> = Vec::new();
    let mut window: usize = 0;
    let mut k: usize = 0;
    while k < n
        invariant
            k <= n == points@.len(),
            decides(*behind),
            decides(*near),
            order@ == ordered(point_keys(points@), n as int),
            is_order(order@, n as int),
            q == swept(points@),
            of_point@.len() == n,
            verts@ == sweep(*behind, *near, q, k as int).verts,
            window == sweep(*behind, *near, q, k as int).window,
            forall|j: int|
                0 <= j < k ==> of_point@[#[trigger] order@[j] as int] == vertex_of(
                    *behind,
                    *near,
                    q,
                    j,
                ),
            forall|j: int|
                0 <= j < k ==> of_point@[#[trigger] order@[j] as int] < verts@.len(),
        decreases n - k,
    {
        let p = points[order[k]];
        assert(p == q[k as int]);
        proof {
            lemma_sweep(*behind, *near, q, k as int);
            lemma_sweep(*behind, *near, q, k + 1);
        }
        let ghost start = window as int;
        while window < verts.len() && behind(verts[window], p)
            invariant
                window <= verts@.len(),
                decides(*behind),
                ahead(*behind, verts@, start, p) == ahead(*behind, verts@, window as int, p),
            decreases verts@.len() - window,
        {
            window += 1;
        }
        let mut g: usize = window;
        while g < verts.len() && !near(verts[g], p)
            invariant
                window <= g <= verts@.len(),
                decides(*near),
                nearest(*near, verts@, window as int, p) == nearest(*near, verts@, g as int, p),
            decreases verts@.len() - g,
        {
            g += 1;
        }
        let ghost before = of_point@;
        of_point.set(order[k], g);
        if g == verts.len() {
            verts.push(p);
        }
        proof {
            assert forall|j: int| 0 <= j < k + 1 implies of_point@[#[trigger] order@[j] as int]
                == vertex_of(*behind, *near, q, j) && of_point@[order@[j] as int] < verts@.len() by {
                if j < k {
                    assert(order@[j] != order@[k as int]);
                    assert(of_point@[order@[j] as int] == before[order@[j] as int]);
                }
            }
        }
        k += 1;
    }
    proof {
        assert forall|i: int| 0 <= i < n implies (#[trigger] of_point@[i]) < verts@.len() by {
            lemma_ordered_covers(point_keys(points@), n as int, i);
            let j = choose|j: int| 0 <= j < order@.len() && order@[j] == i as usize;
            assert(of_point@[order@[j] as int] < verts@.len());
        }
    }
    (verts, of_point)
}

/// Whether `a` does not come after `b`.
pub open spec fn not_after(a: Point, b: Point) -> bool {
    !key_less(point_key(b), point_key(a), 0)
}

proof fn lemma_not_after(a: Point, b: Point)
    ensures
        not_after(a, b) == (a.x.total_rank() < b.x.total_rank() || (a.x.total_rank()
            == b.x.total_rank() && a.y.total_rank() <= b.y.total_rank())),
{
    reveal_with_fuel(key_less, 3);
}

/// Points with one key are one point.
proof fn lemma_key_tells(a: Point, b: Point)
    requires
        not_after(a, b),
        not_after(b, a),
    ensures
        a == b,
{
    lemma_not_after(a, b);
    lemma_not_after(b, a);
    lemma_rank_tells(a.x, b.x);
    lemma_rank_tells(a.y, b.y);
}

proof fn lemma_rank_tells(a: Real, b: Real)
    requires
        a.total_rank() == b.total_rank(),
    ensures
        a == b,
{
}

proof fn lemma_total_order()
    ensures
        vstd::relations::total_ordering(|a: Point, b: Point| not_after(a, b)),
{
    let leq = |a: Point, b: Point| not_after(a, b);
    assert forall|a: Point, b: Point| #[trigger] leq(a, b) == (a.x.total_rank() < b.x.total_rank()
        || (a.x.total_rank() == b.x.total_rank() && a.y.total_rank() <= b.y.total_rank())) by {
        lemma_not_after(a, b);
    }
    assert forall|a: Point, b: Point| #[trigger] leq(a, b) && #[trigger] leq(b, a) implies a
        == b by {
        lemma_key_tells(a, b);
    }
}

/// Points in an order, with one put in.
proof fn lemma_placed_points(points: Seq<Point>, order: Seq<usize>, i: usize)
    requires
        i < points.len(),
        forall|k: int| 0 <= k < order.len() ==> (#[trigger] order[k]) < points.len(),
        vstd::relations::sorted_by(in_order(points, order), |a: Point, b: Point| not_after(a, b)),
    ensures
        ({
            let p = in_order(points, placed(point_keys(points), order, i));
            &&& p.to_multiset() == in_order(points, order).to_multiset().insert(points[i as int])
            &&& vstd::relations::sorted_by(p, |a: Point, b: Point| not_after(a, b))
        }),
    decreases order.len(),
{
    broadcast use vstd::seq_lib::group_to_multiset_ensures;

    let keys = point_keys(points);
    let leq = |a: Point, b: Point| not_after(a, b);
    let q = in_order(points, order);
    let x = points[i as int];
    lemma_total_order();
    if order.len() == 0 || !key_less(keys[i as int], keys[order.last() as int], 0) {
        let p = in_order(points, order.push(i));
        assert(p =~= q.push(x));
        assert forall|j: int, k: int| 0 <= j < k < p.len() implies #[trigger] leq(p[j], p[k]) by {
            if k < q.len() {
                assert(leq(q[j], q[k]));
            } else {
                let last = q[q.len() - 1];
                assert(order.last() == order[order.len() - 1]);
                assert(leq(last, x));
                if j < q.len() - 1 {
                    assert(leq(q[j], last));
                }
            }
        }
    } else {
        let front = order.drop_last();
        let last = points[order.last() as int];
        assert(order.last() == order[order.len() - 1]);
        let f = in_order(points, front);
        assert(q =~= f.push(last));
        assert forall|k: int| 0 <= k < front.len() implies (#[trigger] front[k]) < points.len() by {
            assert(front[k] == order[k]);
        }
        assert forall|j: int, k: int| 0 <= j < k < f.len() implies #[trigger] leq(f[j], f[k]) by {
            assert(f[j] == q[j] && f[k] == q[k]);
            assert(leq(q[j], q[k]));
        }
        lemma_placed_points(points, front, i);
        let g = in_order(points, placed(keys, front, i));
        let p = in_order(points, placed(keys, order, i));
        lemma_placed(keys, front, i);
        assert(p =~= g.push(last));
        assert(p.to_multiset() =~= q.to_multiset().insert(x));
        assert(leq(x, last)) by {
            lemma_not_after(x, last);
            lemma_not_after(last, x);
        }
        assert forall|j: int, k: int| 0 <= j < k < p.len() implies #[trigger] leq(p[j], p[k]) by {
            if k < g.len() {
                assert(leq(g[j], g[k]));
            } else {
                assert(g.to_multiset().contains(g[j]));
                if g[j] != x {
                    assert(f.to_multiset().contains(g[j]));
                    let m = choose|m: int| 0 <= m < f.len() && f[m] == g[j];
                    assert(leq(q[m], q[q.len() - 1]));
                }
            }
        }
    }
}

/// Sweeping takes every point once, from left to right.
proof fn lemma_swept(points: Seq<Point>, n: int)
    requires
        0 <= n <= points.len() <= usize::MAX,
    ensures
        ({
            let q = in_order(points, ordered(point_keys(points), n));
            &&& q.to_multiset() == points.take(n).to_multiset()
            &&& vstd::relations::sorted_by(q, |a: Point, b: Point| not_after(a, b))
        }),
    decreases n,
{
    broadcast use vstd::seq_lib::group_to_multiset_ensures;

    let keys = point_keys(points);
    if n == 0 {
        assert(in_order(points, ordered(keys, 0)) =~= points.take(0));
    } else {
        lemma_swept(points, n - 1);
        sorting_is_a_permutation(keys, n - 1);
        let order = ordered(keys, n - 1);
        assert forall|k: int| 0 <= k < order.len() implies (#[trigger] order[k]) < points.len() by {}
        lemma_placed_points(points, order, (n - 1) as usize);
        assert(points.take(n) =~= points.take(n - 1).push(points[n - 1]));
    }
}

/// The vertices do not depend on the order in which the points are given, and
/// so not on which path is passed first.
pub proof fn vertices_do_not_depend_on_the_order<
    B: Fn(Point, Point) -> bool,
    N: Fn(Point, Point) -> bool,
>(behind: B, near: N, a: Seq<Point>, b: Seq<Point>)
    requires
        a.len() <= usize::MAX,
        b.len() <= usize::MAX,
        a.to_multiset() == b.to_multiset(),
    ensures
        swept(a) == swept(b),
        sweep(behind, near, swept(a), a.len() as int) == sweep(
            behind,
            near,
            swept(b),
            b.len() as int,
        ),
{
    broadcast use vstd::seq_lib::group_to_multiset_ensures;

    lemma_swept(a, a.len() as int);
    lemma_swept(b, b.len() as int);
    assert(a.take(a.len() as int) =~= a);
    assert(b.take(b.len() as int) =~= b);
    lemma_total_order();
    vstd::seq_lib::lemma_sorted_unique(
        swept(a),
        swept(b),
        |a: Point, b: Point| not_after(a, b),
    );
    assert(a.to_multiset().len() == a.len());
    assert(b.to_multiset().len() == b.len());
}

/// A vertex is a point of the input, so what is snapped to it is met exactly.
pub proof fn a_vertex_is_one_of_the_points<
    B: Fn(Point, Point) -> bool,
    N: Fn(Point, Point) -> bool,
>(behind: B, near: N, q: Seq<Point>, n: int, k: int)
    requires
        0 <= n <= q.len(),
        0 <= k < sweep(behind, near, q, n).verts.len(),
    ensures
        q.contains(sweep(behind, near, q, n).verts[k]),
    decreases n,
{
    if n > 0 {
        let before = sweep(behind, near, q, n - 1).verts;
        if k < before.len() {
            a_vertex_is_one_of_the_points(behind, near, q, n - 1, k);
        } else {
            assert(q[n - 1] == sweep(behind, near, q, n).verts[k]);
        }
    }
}

/// Points that coincide and follow each other share a vertex, where a point is
/// near itself.
pub proof fn points_that_coincide_share_a_vertex<
    B: Fn(Point, Point) -> bool,
    N: Fn(Point, Point) -> bool,
>(behind: B, near: N, q: Seq<Point>, k: int)
    requires
        0 <= k,
        k + 1 < q.len(),
        q[k] == q[k + 1],
        says(near, q[k], q[k]),
        !says(behind, q[k], q[k]),
    ensures
        vertex_of(behind, near, q, k) == vertex_of(behind, near, q, k + 1),
{
    let p = q[k];
    lemma_sweep(behind, near, q, k);
    let s = sweep(behind, near, q, k);
    let w = ahead(behind, s.verts, s.window, p);
    lemma_ahead(behind, s.verts, s.window, p);
    lemma_ahead_stays(behind, s.verts, s.window, p);
    lemma_nearest(near, s.verts, w, p);
    let g = nearest(near, s.verts, w, p);
    let t = sweep(behind, near, q, k + 1);
    assert(t.window == w);
    if g < s.verts.len() {
        assert(ahead(behind, t.verts, w, p) == w);
    } else {
        let m = s.verts.len() as int;
        assert(t.verts == s.verts.push(p));
        assert(t.verts[m] == p);
        assert(ahead(behind, t.verts, w, p) == w) by {
            if w < m {
                assert(t.verts[w] == s.verts[w]);
            }
        }
        lemma_nearest_pushed(near, s.verts, w, p);
    }
}

proof fn lemma_ahead_stays<B: Fn(Point, Point) -> bool>(
    behind: B,
    verts: Seq<Point>,
    w: int,
    p: Point,
)
    requires
        0 <= w <= verts.len(),
    ensures
        ahead(behind, verts, w, p) < verts.len() ==> !says(
            behind,
            verts[ahead(behind, verts, w, p)],
            p,
        ),
    decreases verts.len() - w,
{
    if w < verts.len() && says(behind, verts[w], p) {
        lemma_ahead_stays(behind, verts, w + 1, p);
    }
}

proof fn lemma_nearest_pushed<N: Fn(Point, Point) -> bool>(
    near: N,
    verts: Seq<Point>,
    k: int,
    p: Point,
)
    requires
        0 <= k <= verts.len(),
        nearest(near, verts, k, p) == verts.len(),
        says(near, p, p),
    ensures
        nearest(near, verts.push(p), k, p) == verts.len(),
    decreases verts.len() - k,
{
    if k < verts.len() {
        assert(verts.push(p)[k] == verts[k]);
        lemma_nearest(near, verts, k, p);
        lemma_nearest_pushed(near, verts, k + 1, p);
    }
}

/// Where two segments meet, by their parameters.
#[derive(Debug, PartialEq, Eq)]
pub enum Meeting {
    /// At points: the parameters on the first and on the second.
    Points(Vec<(Real, Real)>),
    /// Along an arc: its two ends on the first and on the second.
    Overlap { a: (Real, Real), b: (Real, Real) },
}

/// The pairs `(i, j)` with `j` below `m` whose boxes overlap.
pub open spec fn row_pairs(boxes: Seq<Rect>, i: int, m: int) -> Seq<(usize, usize)>
    decreases m - i,
{
    if m <= i + 1 {
        Seq::empty()
    } else if boxes[i].meets(boxes[m - 1]) {
        row_pairs(boxes, i, m - 1).push((i as usize, (m - 1) as usize))
    } else {
        row_pairs(boxes, i, m - 1)
    }
}

/// The pairs with `i` below `n` whose boxes overlap.
pub open spec fn pairs(boxes: Seq<Rect>, n: int) -> Seq<(usize, usize)>
    decreases n,
{
    if n <= 0 {
        Seq::empty()
    } else {
        pairs(boxes, n - 1) + row_pairs(boxes, n - 1, boxes.len() as int)
    }
}

/// The pairs of segments that could meet: those whose boxes overlap.
pub fn candidates(boxes: &Vec<Rect>) -> (r: Vec<(usize, usize)>)
    ensures
        r@ == pairs(boxes@, boxes@.len() as int),
        forall|k: int| 0 <= k < r@.len() ==> (#[trigger] r@[k]).0 < r@[k].1 < boxes@.len(),
{
    let n: usize = boxes.len();
    let mut r: Vec<(usize, usize)> = Vec::new();
    let mut i: usize = 0;
    while i < n
        invariant
            i <= n == boxes@.len(),
            r@ == pairs(boxes@, i as int),
            forall|k: int| 0 <= k < r@.len() ==> (#[trigger] r@[k]).0 < r@[k].1 < n,
        decreases n - i,
    {
        let ghost before = r@;
        let mut j: usize = i + 1;
        assert(before + row_pairs(boxes@, i as int, i + 1) =~= before);
        while j < n
            invariant
                i < j <= n == boxes@.len(),
                r@ == before + row_pairs(boxes@, i as int, j as int),
                forall|k: int| 0 <= k < r@.len() ==> (#[trigger] r@[k]).0 < r@[k].1 < n,
            decreases n - j,
        {
            if boxes[i].overlaps(boxes[j]) {
                r.push((i, j));
                assert(r@ =~= before + row_pairs(boxes@, i as int, j + 1));
            }
            j += 1;
        }
        i += 1;
    }
    r
}

/// The parameters of a meeting on the first of the two segments, or on the
/// second.
pub open spec fn sides(m: Meeting, second: bool) -> Seq<Real> {
    match m {
        Meeting::Points(hits) => Seq::new(
            hits@.len(),
            |k: int|
                if second {
                    hits@[k].1
                } else {
                    hits@[k].0
                },
        ),
        Meeting::Overlap { a, b } => if second {
            seq![b.0, b.1]
        } else {
            seq![a.0, a.1]
        },
    }
}

/// Where segment `i` is cut by the first `n` meetings.
pub open spec fn cuts_of(
    pairs: Seq<(usize, usize)>,
    meetings: Seq<Meeting>,
    i: int,
    n: int,
) -> Seq<Real>
    decreases n,
{
    if n <= 0 {
        Seq::empty()
    } else {
        let before = cuts_of(pairs, meetings, i, n - 1);
        if pairs[n - 1].0 == i {
            before + sides(meetings[n - 1], false)
        } else if pairs[n - 1].1 == i {
            before + sides(meetings[n - 1], true)
        } else {
            before
        }
    }
}

/// The parameters of a meeting on one of the two segments.
fn side(m: &Meeting, second: bool, out: &mut Vec<Real>)
    ensures
        final(out)@ == old(out)@ + sides(*m, second),
{
    match m {
        Meeting::Points(hits) => {
            let ghost all = sides(*m, second);
            let mut k: usize = 0;
            assert(all.take(0) =~= Seq::<Real>::empty());
            assert(out@ =~= old(out)@ + all.take(0));
            while k < hits.len()
                invariant
                    k <= hits@.len(),
                    all == sides(Meeting::Points(*hits), second),
                    out@ == old(out)@ + all.take(k as int),
                decreases hits@.len() - k,
            {
                let t = if second {
                    hits[k].1
                } else {
                    hits[k].0
                };
                out.push(t);
                assert(all.take(k + 1) =~= all.take(k as int).push(t));
                assert(out@ =~= old(out)@ + all.take(k + 1));
                k += 1;
            }
            assert(all.take(k as int) =~= all);
        },
        Meeting::Overlap { a, b } => {
            if second {
                out.push(b.0);
                out.push(b.1);
            } else {
                out.push(a.0);
                out.push(a.1);
            }
            assert(out@ =~= old(out)@ + sides(*m, second));
        },
    }
}

/// Where each of `n` segments is cut. An overlap cuts both segments at both
/// ends of the shared arc, which is what makes the shared stretch come out as
/// one edge on each side.
pub fn collect_cuts(
    n: usize,
    pairs: &Vec<(usize, usize)>,
    meetings: &Vec<Meeting>,
) -> (cuts: Vec<Vec<Real>>)
    requires
        pairs@.len() == meetings@.len(),
        forall|k: int| 0 <= k < pairs@.len() ==> (#[trigger] pairs@[k]).0 < pairs@[k].1 < n,
    ensures
        cuts@.len() == n,
        forall|i: int|
            0 <= i < n ==> (#[trigger] cuts@[i])@ == cuts_of(
                pairs@,
                meetings@,
                i,
                pairs@.len() as int,
            ),
{
    let mut cuts: Vec<Vec<Real>> = Vec::new();
    let mut i: usize = 0;
    while i < n
        invariant
            i <= n,
            pairs@.len() == meetings@.len(),
            cuts@.len() == i,
            forall|k: int|
                0 <= k < i ==> (#[trigger] cuts@[k])@ == cuts_of(
                    pairs@,
                    meetings@,
                    k,
                    pairs@.len() as int,
                ),
        decreases n - i,
    {
        let mut list: Vec<Real> = Vec::new();
        let mut k: usize = 0;
        while k < pairs.len()
            invariant
                k <= pairs@.len() == meetings@.len(),
                list@ == cuts_of(pairs@, meetings@, i as int, k as int),
            decreases pairs@.len() - k,
        {
            if pairs[k].0 == i {
                side(&meetings[k], false, &mut list);
            } else if pairs[k].1 == i {
                side(&meetings[k], true, &mut list);
            }
            k += 1;
        }
        cuts.push(list);
        i += 1;
    }
    cuts
}

/// Parameters in order with `t` put in behind all that do not come after it.
pub open spec fn placed_cut(s: Seq<Real>, t: Real) -> Seq<Real>
    decreases s.len(),
{
    if s.len() == 0 || s.last().total_rank() <= t.total_rank() {
        s.push(t)
    } else {
        placed_cut(s.drop_last(), t).push(s.last())
    }
}

/// Whether a parameter is strictly inside a segment.
pub open spec fn inside(t: Real) -> bool {
    t.finite() && (Real { bits: 0 }).less(t) && t.less(Real { bits: ONE })
}

/// The bits of the number 1, the parameter a segment ends at.
pub const ONE: u64 = 0x3ff0_0000_0000_0000;

/// The first `n` cuts that are inside the segment, in order.
pub open spec fn inner_cuts(cuts: Seq<Real>, n: int) -> Seq<Real>
    decreases n,
{
    if n <= 0 {
        Seq::empty()
    } else if inside(cuts[n - 1]) {
        placed_cut(inner_cuts(cuts, n - 1), cuts[n - 1])
    } else {
        inner_cuts(cuts, n - 1)
    }
}

/// Whether a test of a stretch can be asked of any and answers one way.
pub open spec fn measures<F: Fn(Segment, Real, Real) -> bool>(f: F) -> bool {
    &&& forall|s: Segment, a: Real, b: Real| call_requires(f, (s, a, b))
    &&& forall|s: Segment, a: Real, b: Real|
        call_ensures(f, (s, a, b), true) ==> !(#[trigger] call_ensures(f, (s, a, b), false))
}

/// Whether the stretch of a segment between two parameters is long enough to
/// stand alone.
pub open spec fn is_long<F: Fn(Segment, Real, Real) -> bool>(
    long: F,
    seg: Segment,
    a: Real,
    b: Real,
) -> bool {
    call_ensures(long, (seg, a, b), true)
}

/// The start of the segment and those of the first `n` cuts that are far enough
/// from the one kept before.
pub open spec fn kept_cuts<F: Fn(Segment, Real, Real) -> bool>(
    long: F,
    seg: Segment,
    s: Seq<Real>,
    n: int,
) -> Seq<Real>
    decreases n,
{
    if n <= 0 {
        seq![Real { bits: 0 }]
    } else {
        let before = kept_cuts(long, seg, s, n - 1);
        if is_long(long, seg, before.last(), s[n - 1]) {
            before.push(s[n - 1])
        } else {
            before
        }
    }
}

/// The stretches between consecutive parameters.
pub open spec fn between(kept: Seq<Real>) -> Seq<(Real, Real)> {
    Seq::new((kept.len() - 1) as nat, |k: int| (kept[k], kept[k + 1]))
}

/// The stretches of a segment between its cuts. A tail too short to stand alone
/// is given to the stretch before it, and a segment that is too short as a
/// `whole` has none.
pub open spec fn spans_of<F: Fn(Segment, Real, Real) -> bool>(
    long: F,
    seg: Segment,
    whole: bool,
    cuts: Seq<Real>,
) -> Seq<(Real, Real)> {
    let s = inner_cuts(cuts, cuts.len() as int);
    let kept = kept_cuts(long, seg, s, s.len() as int);
    let one = Real { bits: ONE };
    if is_long(long, seg, kept.last(), one) {
        between(kept.push(one))
    } else if kept.len() > 1 {
        between(kept.drop_last().push(one))
    } else if whole {
        between(kept.push(one))
    } else {
        Seq::empty()
    }
}

fn place_cut(list: &mut Vec<Real>, t: Real)
    ensures
        final(list)@ == placed_cut(old(list)@, t),
{
    let ghost s = list@;
    let mut k: usize = list.len();
    while k > 0 && t.precedes(list[k - 1])
        invariant
            k <= list@.len(),
            list@ == s,
            forall|j: int| k <= j < s.len() ==> t.total_rank() < (#[trigger] s[j]).total_rank(),
        decreases k,
    {
        k -= 1;
    }
    list.insert(k, t);
    proof {
        lemma_place_cut(s, t, k as int);
    }
}

proof fn lemma_place_cut(s: Seq<Real>, t: Real, k: int)
    requires
        0 <= k <= s.len(),
        forall|j: int| k <= j < s.len() ==> t.total_rank() < (#[trigger] s[j]).total_rank(),
        k > 0 ==> s[k - 1].total_rank() <= t.total_rank(),
    ensures
        s.insert(k, t) == placed_cut(s, t),
    decreases s.len(),
{
    if k < s.len() {
        let front = s.drop_last();
        assert(t.total_rank() < s[s.len() - 1].total_rank());
        assert forall|j: int| k <= j < front.len() implies t.total_rank() < (
        #[trigger] front[j]).total_rank() by {
            assert(front[j] == s[j]);
        }
        lemma_place_cut(front, t, k);
        assert(s.insert(k, t) =~= front.insert(k, t).push(s.last()));
    } else {
        assert(s.insert(k, t) =~= s.push(t));
    }
}

/// The parameter spans of a segment between consecutive cuts. `long` says
/// whether its arc between two parameters has an extent, `whole` whether the
/// segment has.
///
/// Cuts closer together than a piece of geometry are merged, towards the ends
/// rather than away from them: a cut a hair short of an endpoint becomes the
/// endpoint.
pub fn spans<F: Fn(Segment, Real, Real) -> bool>(
    seg: Segment,
    cuts: &Vec<Real>,
    long: &F,
    whole: bool,
) -> (r: Vec<(Real, Real)>)
    requires
        measures(*long),
    ensures
        r@ == spans_of(*long, seg, whole, cuts@),
{
    let zero = Real { bits: 0 };
    let one = Real { bits: ONE };
    let mut s: Vec<Real> = Vec::new();
    let mut i: usize = 0;
    while i < cuts.len()
        invariant
            i <= cuts@.len(),
            zero == (Real { bits: 0 }),
            one == (Real { bits: ONE }),
            s@ == inner_cuts(cuts@, i as int),
        decreases cuts@.len() - i,
    {
        let t = cuts[i];
        if t.is_finite() && zero.below(t) && t.below(one) {
            place_cut(&mut s, t);
        }
        i += 1;
    }
    let mut kept: Vec<Real> = Vec::new();
    kept.push(zero);
    let mut k: usize = 0;
    assert(kept@ =~= kept_cuts(*long, seg, s@, 0));
    while k < s.len()
        invariant
            k <= s@.len(),
            measures(*long),
            kept@.len() > 0,
            kept@ == kept_cuts(*long, seg, s@, k as int),
        decreases s@.len() - k,
    {
        let last = kept[kept.len() - 1];
        if long(seg, last, s[k]) {
            kept.push(s[k]);
        }
        k += 1;
    }
    let last = kept[kept.len() - 1];
    if !long(seg, last, one) {
        if kept.len() == 1 {
            if !whole {
                return Vec::new();
            }
        } else {
            let ghost before = kept@;
            kept.pop();
            assert(kept@ =~= before.drop_last());
        }
    }
    kept.push(one);
    let mut r: Vec<(Real, Real)> = Vec::new();
    let mut j: usize = 1;
    while j < kept.len()
        invariant
            1 <= j <= kept@.len(),
            r@.len() == j - 1,
            forall|m: int| 0 <= m < j - 1 ==> (#[trigger] r@[m]) == (kept@[m], kept@[m + 1]),
        decreases kept@.len() - j,
    {
        r.push((kept[j - 1], kept[j]));
        j += 1;
    }
    assert(r@ =~= between(kept@));
    r
}

/// Cuts cover a segment without gaps: the first stretch starts where the
/// segment does, each starts where the one before it ends, and the last ends
/// where the segment does.
pub proof fn stretches_have_no_gaps<F: Fn(Segment, Real, Real) -> bool>(
    long: F,
    seg: Segment,
    whole: bool,
    cuts: Seq<Real>,
    k: int,
)
    requires
        0 <= k < spans_of(long, seg, whole, cuts).len(),
    ensures
        spans_of(long, seg, whole, cuts)[0].0 == (Real { bits: 0 }),
        spans_of(long, seg, whole, cuts).last().1 == (Real { bits: ONE }),
        k + 1 < spans_of(long, seg, whole, cuts).len() ==> spans_of(long, seg, whole, cuts)[k].1 == spans_of(
            long,
            seg,
            whole,
            cuts,
        )[k + 1].0,
{
    let s = inner_cuts(cuts, cuts.len() as int);
    lemma_kept_starts(long, seg, s, s.len() as int);
    let kept = kept_cuts(long, seg, s, s.len() as int);
    let one = Real { bits: ONE };
    if !is_long(long, seg, kept.last(), one) && kept.len() > 1 {
        assert(kept.drop_last().push(one)[0] == kept[0]);
    }
}

proof fn lemma_kept_starts<F: Fn(Segment, Real, Real) -> bool>(
    long: F,
    seg: Segment,
    s: Seq<Real>,
    n: int,
)
    ensures
        kept_cuts(long, seg, s, n).len() > 0,
        kept_cuts(long, seg, s, n)[0] == (Real { bits: 0 }),
    decreases n,
{
    if n > 0 {
        lemma_kept_starts(long, seg, s, n - 1);
    }
}

/// The key an edge is sorted by: its vertices, the smaller first where `apart`
/// does not tell them apart, and its shape.
pub open spec fn edge_key(e: Edge, shape: Seq<Real>, apart: bool) -> Seq<i128> {
    let v = if apart {
        (e.v0, e.v1)
    } else {
        boolean::joined(e)
    };
    seq![v.0 as i128, v.1 as i128] + Seq::new(shape.len(), |k: int| shape[k].rank() as i128)
}

/// The shapes of edges, by their control points.
pub open spec fn shape_views(shapes: Seq<Vec<Real>>) -> Seq<Seq<Real>> {
    Seq::new(shapes.len(), |k: int| shapes[k]@)
}

pub open spec fn edge_keys(edges: Seq<Edge>, shapes: Seq<Seq<Real>>, apart: bool) -> Seq<Seq<i128>> {
    Seq::new(edges.len(), |k: int| edge_key(edges[k], shapes[k], apart))
}

/// The order of edges by their keys.
pub open spec fn edge_order(edges: Seq<Edge>, shapes: Seq<Seq<Real>>, apart: bool) -> Seq<usize> {
    ordered(edge_keys(edges, shapes, apart), edges.len() as int)
}

/// The order of edges by their vertices and then by their shapes, the numbers of
/// their control points. With `apart` an edge and its reverse have other keys.
///
/// It is the same whichever path was passed first.
pub fn sort_edges(edges: &Vec<Edge>, shapes: &Vec<Vec<Real>>, apart: bool) -> (order: Vec<usize>)
    requires
        shapes@.len() == edges@.len(),
    ensures
        order@ == edge_order(edges@, shape_views(shapes@), apart),
        is_order(order@, edges@.len() as int),
{
    let n: usize = edges.len();
    let ghost all = shape_views(shapes@);
    let mut keys: Vec<Vec<i128>> = Vec::new();
    let mut i: usize = 0;
    while i < n
        invariant
            i <= n == edges@.len() == shapes@.len(),
            all == shape_views(shapes@),
            keys@.len() == i,
            forall|k: int|
                0 <= k < i ==> (#[trigger] keys@[k])@ == edge_key(edges@[k], all[k], apart),
        decreases n - i,
    {
        let e = edges[i];
        let mut key: Vec<i128> = Vec::new();
        if apart || e.v0 <= e.v1 {
            key.push(e.v0 as i128);
            key.push(e.v1 as i128);
        } else {
            key.push(e.v1 as i128);
            key.push(e.v0 as i128);
        }
        let ghost head = key@;
        let ghost tail = Seq::new(all[i as int].len(), |k: int| all[i as int][k].rank() as i128);
        let mut k: usize = 0;
        while k < shapes[i].len()
            invariant
                i < n == shapes@.len(),
                k <= shapes@[i as int]@.len(),
                all == shape_views(shapes@),
                tail == Seq::new(all[i as int].len(), |k: int| all[i as int][k].rank() as i128),
                key@ == head + tail.take(k as int),
            decreases shapes@[i as int]@.len() - k,
        {
            key.push(shapes[i][k].order_key() as i128);
            assert(tail.take(k + 1) =~= tail.take(k as int).push(tail[k as int]));
            assert(key@ =~= head + tail.take(k + 1));
            k += 1;
        }
        proof {
            assert(tail.take(k as int) =~= tail);
            assert(key@ =~= edge_key(e, all[i as int], apart));
        }
        keys.push(key);
        i += 1;
    }
    proof {
        assert(key_views(keys@) =~= edge_keys(edges@, all, apart));
        sorting_is_a_permutation(edge_keys(edges@, all, apart), n as int);
    }
    sort_order(&keys)
}

/// Whether a test of two segments can be asked of any and answers one way.
pub open spec fn compares<F: Fn(Segment, Segment) -> bool>(f: F) -> bool {
    &&& forall|a: Segment, b: Segment| call_requires(f, (a, b))
    &&& forall|a: Segment, b: Segment|
        call_ensures(f, (a, b), true) ==> !(#[trigger] call_ensures(f, (a, b), false))
}

/// Whether a test holds of two segments.
pub open spec fn alike<F: Fn(Segment, Segment) -> bool>(f: F, a: Segment, b: Segment) -> bool {
    call_ensures(f, (a, b), true)
}

/// Edges that have been kept, and where those over the current pair of vertices
/// start.
pub struct MergeModel {
    pub kept: Seq<Edge>,
    pub group: int,
}

/// The first kept edge from the `k`th on that traces the same arc as another,
/// or the end.
pub open spec fn same_from<S: Fn(Segment, Segment) -> bool>(
    same_arc: S,
    kept: Seq<Edge>,
    k: int,
    e: Edge,
) -> int
    decreases kept.len() - k,
{
    if 0 <= k < kept.len() && !alike(same_arc, kept[k].seg, e.seg) {
        same_from(same_arc, kept, k + 1, e)
    } else {
        k
    }
}

/// An edge with the contribution of another added.
pub open spec fn absorbed(a: Edge, e: Edge, same_way: bool) -> Edge {
    let s = boolean::alignment(a, e, same_way);
    Edge { wind: ((a.wind.0 + s * e.wind.0) as i32, (a.wind.1 + s * e.wind.1) as i32), ..a }
}

/// The first `n` edges in an order, merged: an edge that traces the arc of a
/// kept one adds to it, any other is kept.
pub open spec fn merged<S: Fn(Segment, Segment) -> bool, W: Fn(Segment, Segment) -> bool>(
    same_arc: S,
    same_way: W,
    edges: Seq<Edge>,
    order: Seq<usize>,
    n: int,
) -> MergeModel
    decreases n,
{
    if n <= 0 {
        MergeModel { kept: Seq::empty(), group: 0 }
    } else {
        let m = merged(same_arc, same_way, edges, order, n - 1);
        let e = edges[order[n - 1] as int];
        let group = if m.kept.len() == 0 || boolean::joined(m.kept.last()) != boolean::joined(e) {
            m.kept.len() as int
        } else {
            m.group
        };
        let k = same_from(same_arc, m.kept, group, e);
        if k < m.kept.len() {
            MergeModel {
                kept: m.kept.update(
                    k,
                    absorbed(m.kept[k], e, alike(same_way, m.kept[k].seg, e.seg)),
                ),
                group,
            }
        } else {
            MergeModel { kept: m.kept.push(e), group }
        }
    }
}

/// Whether edges contribute at most one to each winding number.
pub open spec fn single(edges: Seq<Edge>) -> bool {
    forall|k: int|
        0 <= k < edges.len() ==> -1 <= (#[trigger] edges[k]).wind.0 <= 1 && -1 <= edges[k].wind.1
            <= 1
}

/// The weight of the first `n` edges, by all of them.
proof fn lemma_marked(a: Seq<(i32, i32)>, b: Seq<(i32, i32)>, u: Seq<bool>, v: Seq<bool>, n: int)
    requires
        0 <= n,
        n <= a.len(),
        n <= b.len(),
        n <= u.len(),
        n <= v.len(),
        forall|k: int| 0 <= k < n ==> (#[trigger] a[k]) == b[k],
        forall|k: int| 0 <= k < n ==> (#[trigger] u[k]) == v[k],
    ensures
        winding::marked(a, u, n) == winding::marked(b, v, n),
    decreases n,
{
    if n > 0 {
        assert(a[n - 1] == b[n - 1]);
        assert(u[n - 1] == v[n - 1]);
        lemma_marked(a, b, u, v, n - 1);
    }
}

/// What one edge more adds to the weight.
proof fn lemma_weight_push(edges: Seq<Edge>, e: Edge)
    ensures
        winding::weight(boolean::winds_of(edges.push(e))).0 == winding::weight(
            boolean::winds_of(edges),
        ).0 + winding::size(e.wind.0),
        winding::weight(boolean::winds_of(edges.push(e))).1 == winding::weight(
            boolean::winds_of(edges),
        ).1 + winding::size(e.wind.1),
{
    let a = boolean::winds_of(edges);
    let b = boolean::winds_of(edges.push(e));
    let u = Seq::new(a.len(), |i: int| true);
    let v = Seq::new(b.len(), |i: int| true);
    lemma_marked(a, b, u, v, a.len() as int);
}

/// What changing one edge does to the weight of the first `n`.
proof fn lemma_weight_update(edges: Seq<Edge>, k: int, e: Edge, n: int)
    requires
        0 <= k < edges.len(),
        0 <= n <= edges.len(),
    ensures
        ({
            let a = boolean::winds_of(edges);
            let b = boolean::winds_of(edges.update(k, e));
            let u = Seq::new(a.len(), |i: int| true);
            let x = winding::marked(a, u, n);
            let y = winding::marked(b, u, n);
            if k < n {
                &&& y.0 + winding::size(edges[k].wind.0) == x.0 + winding::size(e.wind.0)
                &&& y.1 + winding::size(edges[k].wind.1) == x.1 + winding::size(e.wind.1)
            } else {
                x == y
            }
        }),
    decreases n,
{
    if n > 0 {
        lemma_weight_update(edges, k, e, n - 1);
    }
}

proof fn lemma_same_from<S: Fn(Segment, Segment) -> bool>(
    same_arc: S,
    kept: Seq<Edge>,
    k: int,
    e: Edge,
)
    ensures
        same_from(same_arc, kept, k, e) >= k,
    decreases kept.len() - k,
{
    if 0 <= k < kept.len() && !alike(same_arc, kept[k].seg, e.seg) {
        lemma_same_from(same_arc, kept, k + 1, e);
    }
}

/// Merging keeps the ends of the edges it keeps.
pub proof fn lemma_kept_ends<S: Fn(Segment, Segment) -> bool, W: Fn(Segment, Segment) -> bool>(
    same_arc: S,
    same_way: W,
    edges: Seq<Edge>,
    order: Seq<usize>,
    limit: int,
    n: int,
)
    requires
        0 <= n <= order.len(),
        is_order(order, edges.len() as int),
        forall|e: int|
            0 <= e < edges.len() ==> (#[trigger] edges[e]).v0 < limit && edges[e].v1 < limit,
    ensures
        forall|e: int|
            0 <= e < merged(same_arc, same_way, edges, order, n).kept.len() ==> (
            #[trigger] merged(same_arc, same_way, edges, order, n).kept[e]).v0 < limit && merged(
                same_arc,
                same_way,
                edges,
                order,
                n,
            ).kept[e].v1 < limit,
        0 <= merged(same_arc, same_way, edges, order, n).group,
    decreases n,
{
    if n > 0 {
        lemma_kept_ends(same_arc, same_way, edges, order, limit, n - 1);
        let m = merged(same_arc, same_way, edges, order, n - 1);
        let now = merged(same_arc, same_way, edges, order, n);
        assert(order[n - 1] < edges.len());
        let e = edges[order[n - 1] as int];
        lemma_same_from(same_arc, m.kept, now.group, e);
        let k = same_from(same_arc, m.kept, now.group, e);
        assert forall|i: int| 0 <= i < now.kept.len() implies (#[trigger] now.kept[i]).v0 < limit
            && now.kept[i].v1 < limit by {
            if k < m.kept.len() {
                assert(m.kept[i].v0 < limit && m.kept[i].v1 < limit);
            } else if i < m.kept.len() {
                assert(m.kept[i].v0 < limit && m.kept[i].v1 < limit);
            }
        }
    }
}

proof fn lemma_sign(s: int, x: int)
    requires
        s == 1 || s == -1,
    ensures
        s * x == (if s == 1 {
            x
        } else {
            -x
        }),
{
    assert(1 * x == x);
    assert(-1 * x == -x);
}

/// Collapses edges that describe the same arc between the same two vertices
/// into one carrying the sum of their contributions. `order` keeps the edges
/// over one pair of vertices together, `same_arc` says of the segments of two
/// such edges whether they trace one arc, and `same_way` of two loops whether
/// they run the same way.
///
/// This is where a boundary the two inputs share stops being two edges. Left
/// separate they would be classified independently.
pub fn merge_duplicates<S: Fn(Segment, Segment) -> bool, W: Fn(Segment, Segment) -> bool>(
    edges: &Vec<Edge>,
    order: &Vec<usize>,
    same_arc: &S,
    same_way: &W,
) -> (r: Vec<Edge>)
    requires
        edges@.len() <= 0x1fff_ffff,
        single(edges@),
        is_order(order@, edges@.len() as int),
        compares(*same_arc),
        compares(*same_way),
    ensures
        r@ == merged(*same_arc, *same_way, edges@, order@, order@.len() as int).kept,
        r@.len() <= edges@.len(),
        winding::weight(boolean::winds_of(r@)).0 <= edges@.len(),
        winding::weight(boolean::winds_of(r@)).1 <= edges@.len(),
{
    let n: usize = order.len();
    let mut m = Merger::new();
    let mut i: usize = 0;
    assert(boolean::winds_of(m.edges()) =~= Seq::<(i32, i32)>::empty());
    while i < n
        invariant
            i <= n == order@.len() == edges@.len(),
            n <= 0x1fff_ffff,
            single(edges@),
            is_order(order@, n as int),
            compares(*same_arc),
            compares(*same_way),
            m.wf(),
            m.edges() == merged(*same_arc, *same_way, edges@, order@, i as int).kept,
            m.start() == merged(*same_arc, *same_way, edges@, order@, i as int).group,
            m.edges().len() <= i,
            forall|k: int|
                0 <= k < m.edges().len() ==> -i <= (#[trigger] m.edges()[k]).wind.0 <= i && -i
                    <= m.edges()[k].wind.1 <= i,
            winding::weight(boolean::winds_of(m.edges())).0 <= i,
            winding::weight(boolean::winds_of(m.edges())).1 <= i,
        decreases n - i,
    {
        let at: usize = order[i];
        let e = edges[at];
        assert(single(edges@) ==> -1 <= edges@[at as int].wind.0 <= 1 && -1
            <= edges@[at as int].wind.1 <= 1);
        let group: usize = m.open_group(e);
        let mut k: usize = group;
        let kept: usize = m.count();
        while k < kept && !same_arc(m.edge(k).seg, e.seg)
            invariant
                group <= k <= kept == m.edges().len(),
                compares(*same_arc),
                same_from(*same_arc, m.edges(), group as int, e) == same_from(
                    *same_arc,
                    m.edges(),
                    k as int,
                    e,
                ),
            decreases kept - k,
        {
            k += 1;
        }
        let ghost before = m.edges();
        if k < kept {
            let way = same_way(m.edge(k).seg, e.seg);
            proof {
                let a = before[k as int];
                lemma_sign(boolean::alignment(a, e, way), e.wind.0 as int);
                lemma_sign(boolean::alignment(a, e, way), e.wind.1 as int);
            }
            m.absorb(k, e, way);
            proof {
                let b = absorbed(before[k as int], e, way);
                assert(m.edges() =~= before.update(k as int, b));
                lemma_weight_update(before, k as int, b, before.len() as int);
            }
        } else {
            m.keep(e);
            proof {
                lemma_weight_push(before, e);
            }
        }
        i += 1;
    }
    m.finish()
}

/// Two segments are looked at for a meeting exactly where their boxes overlap, each
/// pair once with the earlier one first.
pub proof fn every_overlapping_pair_is_looked_at(boxes: Seq<Rect>, n: int, i: int, j: int)
    requires
        0 <= n <= boxes.len() <= usize::MAX,
        0 <= i < n,
        i < j < boxes.len(),
        boxes[i].meets(boxes[j]),
    ensures
        pairs(boxes, n).contains((i as usize, j as usize)),
    decreases n,
{
    let now = pairs(boxes, n);
    let before = pairs(boxes, n - 1);
    let row = row_pairs(boxes, n - 1, boxes.len() as int);
    if i == n - 1 {
        lemma_row_has(boxes, i, boxes.len() as int, j);
        let k = choose|k: int| 0 <= k < row.len() && row[k] == (i as usize, j as usize);
        assert(now[before.len() + k] == row[k]);
    } else {
        every_overlapping_pair_is_looked_at(boxes, n - 1, i, j);
        let k = choose|k: int| 0 <= k < before.len() && before[k] == (i as usize, j as usize);
        assert(now[k] == before[k]);
    }
}

proof fn lemma_row_has(boxes: Seq<Rect>, i: int, m: int, j: int)
    requires
        0 <= i < j < m <= boxes.len() <= usize::MAX,
        boxes[i].meets(boxes[j]),
    ensures
        row_pairs(boxes, i, m).contains((i as usize, j as usize)),
    decreases m - i,
{
    let now = row_pairs(boxes, i, m);
    if j == m - 1 {
        assert(now[now.len() - 1] == (i as usize, j as usize));
    } else {
        lemma_row_has(boxes, i, m - 1, j);
        let before = row_pairs(boxes, i, m - 1);
        let k = choose|k: int| 0 <= k < before.len() && before[k] == (i as usize, j as usize);
        assert(now[k] == before[k]);
    }
}

/// No pair is looked at whose boxes do not overlap.
pub proof fn only_overlapping_pairs_are_looked_at(boxes: Seq<Rect>, n: int, k: int)
    requires
        0 <= n <= boxes.len() <= usize::MAX,
        0 <= k < pairs(boxes, n).len(),
    ensures
        ({
            let (i, j) = pairs(boxes, n)[k];
            i < j < boxes.len() && boxes[i as int].meets(boxes[j as int])
        }),
    decreases n,
{
    let before = pairs(boxes, n - 1);
    if k < before.len() {
        only_overlapping_pairs_are_looked_at(boxes, n - 1, k);
        assert(pairs(boxes, n)[k] == before[k]);
    } else {
        lemma_row_meets(boxes, n - 1, boxes.len() as int, k - before.len());
        assert(pairs(boxes, n)[k] == row_pairs(boxes, n - 1, boxes.len() as int)[k
            - before.len()]);
    }
}

proof fn lemma_row_meets(boxes: Seq<Rect>, i: int, m: int, k: int)
    requires
        0 <= i < boxes.len() <= usize::MAX,
        m <= boxes.len(),
        0 <= k < row_pairs(boxes, i, m).len(),
    ensures
        ({
            let (a, b) = row_pairs(boxes, i, m)[k];
            a == i && i < b < m && boxes[i].meets(boxes[b as int])
        }),
    decreases m - i,
{
    let before = row_pairs(boxes, i, m - 1);
    if k < before.len() {
        lemma_row_meets(boxes, i, m - 1, k);
        assert(row_pairs(boxes, i, m)[k] == before[k]);
    }
}

/// Both segments of a pair are cut where they meet, each at its own parameter: at
/// every point of a meeting, and at both ends of a stretch that they share.
pub proof fn a_meeting_cuts_both_segments(
    pairs: Seq<(usize, usize)>,
    meetings: Seq<Meeting>,
    n: int,
    k: int,
)
    requires
        0 <= k < n <= pairs.len(),
        pairs.len() == meetings.len(),
        pairs[k].0 != pairs[k].1,
    ensures
        meetings[k] matches Meeting::Points(hits) ==> forall|h: int|
            0 <= h < hits@.len() ==> cuts_of(pairs, meetings, pairs[k].0 as int, n).contains(
                (#[trigger] hits@[h]).0,
            ) && cuts_of(pairs, meetings, pairs[k].1 as int, n).contains(hits@[h].1),
        meetings[k] matches Meeting::Overlap { a, b } ==> cuts_of(
            pairs,
            meetings,
            pairs[k].0 as int,
            n,
        ).contains(a.0) && cuts_of(pairs, meetings, pairs[k].0 as int, n).contains(a.1) && cuts_of(
            pairs,
            meetings,
            pairs[k].1 as int,
            n,
        ).contains(b.0) && cuts_of(pairs, meetings, pairs[k].1 as int, n).contains(b.1),
{
    lemma_cut_kept(pairs, meetings, pairs[k].0 as int, n, k, false);
    lemma_cut_kept(pairs, meetings, pairs[k].1 as int, n, k, true);
    let first = sides(meetings[k], false);
    let second = sides(meetings[k], true);
    let x = cuts_of(pairs, meetings, pairs[k].0 as int, n);
    let y = cuts_of(pairs, meetings, pairs[k].1 as int, n);
    match meetings[k] {
        Meeting::Points(hits) => {
            assert forall|h: int| 0 <= h < hits@.len() implies x.contains((#[trigger] hits@[h]).0)
                && y.contains(hits@[h].1) by {
                assert(first[h] == hits@[h].0);
                assert(second[h] == hits@[h].1);
                assert(x.contains(first[h]));
                assert(y.contains(second[h]));
            }
        },
        Meeting::Overlap { a, b } => {
            assert(x.contains(first[0]) && x.contains(first[1]));
            assert(y.contains(second[0]) && y.contains(second[1]));
        },
    }
}

proof fn lemma_cut_kept(
    pairs: Seq<(usize, usize)>,
    meetings: Seq<Meeting>,
    i: int,
    n: int,
    k: int,
    second: bool,
)
    requires
        0 <= k < n <= pairs.len(),
        pairs.len() == meetings.len(),
        if second {
            pairs[k].1 == i && pairs[k].0 != i
        } else {
            pairs[k].0 == i
        },
    ensures
        forall|h: int|
            0 <= h < sides(meetings[k], second).len() ==> cuts_of(pairs, meetings, i, n).contains(
                #[trigger] sides(meetings[k], second)[h],
            ),
    decreases n,
{
    let now = cuts_of(pairs, meetings, i, n);
    let before = cuts_of(pairs, meetings, i, n - 1);
    let list = sides(meetings[k], second);
    if k < n - 1 {
        lemma_cut_kept(pairs, meetings, i, n - 1, k, second);
    }
    assert forall|h: int| 0 <= h < list.len() implies now.contains(#[trigger] list[h]) by {
        if k < n - 1 {
            assert(before.contains(list[h]));
            let m = choose|m: int| 0 <= m < before.len() && before[m] == list[h];
            assert(now[m] == list[h]);
        } else {
            assert(now[before.len() + h] == list[h]);
        }
    }
}

/// The cuts of a segment are those strictly between its ends, in order and none
/// left out.
pub proof fn inner_cuts_are_sorted(cuts: Seq<Real>, n: int, k: int)
    requires
        0 <= n <= cuts.len(),
        0 <= k < n,
    ensures
        cuts[k].finite() && (Real { bits: 0 }).less(cuts[k]) && cuts[k].less(
            Real { bits: 0x3ff0_0000_0000_0000 },
        ) ==> inner_cuts(cuts, n).contains(cuts[k]),
        forall|j: int|
            0 <= j < inner_cuts(cuts, n).len() ==> (Real { bits: 0 }).less(
                #[trigger] inner_cuts(cuts, n)[j],
            ) && inner_cuts(cuts, n)[j].less(Real { bits: 0x3ff0_0000_0000_0000 }),
        super::offset::ascends(inner_cuts(cuts, n)),
    decreases n,
{
    let before = inner_cuts(cuts, n - 1);
    let now = inner_cuts(cuts, n);
    if n > 1 {
        inner_cuts_are_sorted(
            cuts,
            n - 1,
            if k < n - 1 {
                k
            } else {
                0
            },
        );
    }
    if inside(cuts[n - 1]) {
        lemma_placed_cut(before, cuts[n - 1]);
        if k < n - 1 && inside(cuts[k]) {
            let m = choose|m: int| 0 <= m < before.len() && before[m] == cuts[k];
            assert(before.contains(before[m]));
        }
        assert forall|j: int| 0 <= j < now.len() implies (Real { bits: 0 }).less(#[trigger] now[j])
            && now[j].less(Real { bits: 0x3ff0_0000_0000_0000 }) by {
            assert(now.contains(now[j]));
            if now[j] != cuts[n - 1] {
                let m = choose|m: int| 0 <= m < before.len() && before[m] == now[j];
                assert((Real { bits: 0 }).less(before[m]));
            }
        }
    }
}

proof fn lemma_placed_cut(s: Seq<Real>, t: Real)
    requires
        super::offset::ascends(s),
    ensures
        super::offset::ascends(placed_cut(s, t)),
        placed_cut(s, t).contains(t),
        forall|x: Real| s.contains(x) ==> #[trigger] placed_cut(s, t).contains(x),
        forall|x: Real| #[trigger] placed_cut(s, t).contains(x) ==> s.contains(x) || x == t,
    decreases s.len(),
{
    let now = placed_cut(s, t);
    if s.len() == 0 || s.last().total_rank() <= t.total_rank() {
        assert(now[now.len() - 1] == t);
        assert forall|x: Real| s.contains(x) implies #[trigger] now.contains(x) by {
            let m = choose|m: int| 0 <= m < s.len() && s[m] == x;
            assert(now[m] == x);
        }
        assert forall|i: int, j: int| 0 <= i <= j < now.len() implies (
        #[trigger] now[i]).total_rank() <= (#[trigger] now[j]).total_rank() by {
            if s.len() > 0 && i < s.len() {
                assert(s[i].total_rank() <= s[s.len() - 1].total_rank());
                if j < s.len() {
                    assert(s[i].total_rank() <= s[j].total_rank());
                }
            }
        }
    } else {
        let front = s.drop_last();
        let part = placed_cut(front, t);
        lemma_placed_cut(front, t);
        assert(now == part.push(s.last()));
        let at = choose|m: int| 0 <= m < part.len() && part[m] == t;
        assert(now[at] == t);
        assert(now[now.len() - 1] == s.last());
        assert forall|x: Real| s.contains(x) implies #[trigger] now.contains(x) by {
            let m = choose|m: int| 0 <= m < s.len() && s[m] == x;
            if m < front.len() {
                assert(front[m] == x);
                assert(front.contains(x));
                assert(part.contains(x));
                let q = choose|q: int| 0 <= q < part.len() && part[q] == x;
                assert(now[q] == x);
            }
        }
        assert forall|x: Real| #[trigger] now.contains(x) implies s.contains(x) || x == t by {
            let q = choose|q: int| 0 <= q < now.len() && now[q] == x;
            if q < part.len() {
                assert(part.contains(part[q]));
                if x != t {
                    assert(front.contains(x));
                    let m = choose|m: int| 0 <= m < front.len() && front[m] == x;
                    assert(s[m] == x);
                }
            } else {
                assert(s[s.len() - 1] == x);
            }
        }
        assert forall|i: int, j: int| 0 <= i <= j < now.len() implies (
        #[trigger] now[i]).total_rank() <= (#[trigger] now[j]).total_rank() by {
            if j < part.len() {
                assert(part[i].total_rank() <= part[j].total_rank());
            } else if i < part.len() {
                assert(part.contains(part[i]));
                if part[i] != t {
                    let m = choose|m: int| 0 <= m < front.len() && front[m] == part[i];
                    assert(s[m].total_rank() <= s[s.len() - 1].total_rank());
                }
            }
        }
    }
}

/// A segment is never lost to its cuts: where the whole of it has a length, some
/// stretch of it stays.
pub proof fn a_whole_segment_is_never_lost<F: Fn(Segment, Real, Real) -> bool>(
    long: F,
    seg: Segment,
    cuts: Seq<Real>,
)
    ensures
        spans_of(long, seg, true, cuts).len() > 0,
        cuts.len() == 0 ==> spans_of(long, seg, true, cuts) == seq![
            (Real { bits: 0 }, Real { bits: 0x3ff0_0000_0000_0000 }),
        ],
{
    let s = inner_cuts(cuts, cuts.len() as int);
    lemma_kept_some(long, seg, s, s.len() as int);
    if cuts.len() == 0 {
        assert(s =~= Seq::<Real>::empty());
        let kept = kept_cuts(long, seg, s, 0);
        assert(kept =~= seq![Real { bits: 0 }]);
        assert(spans_of(long, seg, true, cuts) =~= seq![
            (Real { bits: 0 }, Real { bits: 0x3ff0_0000_0000_0000 }),
        ]);
    }
}

proof fn lemma_kept_some<F: Fn(Segment, Real, Real) -> bool>(
    long: F,
    seg: Segment,
    s: Seq<Real>,
    n: int,
)
    ensures
        kept_cuts(long, seg, s, n).len() > 0,
        kept_cuts(long, seg, s, n)[0] == (Real { bits: 0 }),
    decreases n,
{
    if n > 0 {
        lemma_kept_some(long, seg, s, n - 1);
    }
}

/// Merging adds an edge to the one it coincides with: with its own sign where they
/// run the same way and with the opposite one where they run against each other.
pub proof fn absorbing_adds_or_subtracts(a: Edge, e: Edge, same_way: bool)
    requires
        -0x1fff_ffff <= a.wind.0 <= 0x1fff_ffff && -0x1fff_ffff <= a.wind.1 <= 0x1fff_ffff,
        -1 <= e.wind.0 <= 1 && -1 <= e.wind.1 <= 1,
    ensures
        ({
            let r = absorbed(a, e, same_way);
            let with = (a.v0 != a.v1 && a.v0 == e.v0) || (a.v0 == a.v1 && same_way);
            &&& with ==> r.wind.0 == a.wind.0 + e.wind.0 && r.wind.1 == a.wind.1 + e.wind.1
            &&& !with ==> r.wind.0 == a.wind.0 - e.wind.0 && r.wind.1 == a.wind.1 - e.wind.1
            &&& r.seg == a.seg && r.v0 == a.v0 && r.v1 == a.v1
        }),
{
}

proof fn lemma_verts_kept<B: Fn(Point, Point) -> bool, N: Fn(Point, Point) -> bool>(
    behind: B,
    near: N,
    q: Seq<Point>,
    m: int,
    n: int,
)
    requires
        0 <= m <= n <= q.len(),
    ensures
        sweep(behind, near, q, m).verts.len() <= sweep(behind, near, q, n).verts.len(),
        forall|k: int|
            0 <= k < sweep(behind, near, q, m).verts.len() ==> sweep(behind, near, q, n).verts[k]
                == #[trigger] sweep(behind, near, q, m).verts[k],
    decreases n - m,
{
    if m < n {
        lemma_verts_kept(behind, near, q, m, n - 1);
    }
}

/// Every point goes to a vertex that is near it, or is a vertex itself.
pub proof fn a_point_goes_to_a_vertex_near_it<
    B: Fn(Point, Point) -> bool,
    N: Fn(Point, Point) -> bool,
>(behind: B, near: N, q: Seq<Point>, k: int)
    requires
        0 <= k < q.len(),
    ensures
        ({
            let verts = sweep(behind, near, q, q.len() as int).verts;
            let v = vertex_of(behind, near, q, k);
            &&& 0 <= v < verts.len()
            &&& says(near, verts[v], q[k]) || verts[v] == q[k]
        }),
{
    let s = sweep(behind, near, q, k);
    let next = sweep(behind, near, q, k + 1);
    lemma_sweep(behind, near, q, k);
    lemma_ahead(behind, s.verts, s.window, q[k]);
    let w = ahead(behind, s.verts, s.window, q[k]);
    lemma_nearest(near, s.verts, w, q[k]);
    lemma_verts_kept(behind, near, q, k + 1, q.len() as int);
    let v = vertex_of(behind, near, q, k);
    assert(0 <= v < next.verts.len());
    assert(sweep(behind, near, q, q.len() as int).verts[v] == next.verts[v]);
}

/// Points go by their x first and by their y where that is the same.
pub proof fn points_are_ordered_by_x(a: Point, b: Point)
    ensures
        not_after(a, b) <==> a.x.total_rank() < b.x.total_rank() || (a.x.total_rank()
            == b.x.total_rank() && a.y.total_rank() <= b.y.total_rank()),
{
    lemma_not_after(a, b);
}

/// Keys compare by the first place in which they differ.
pub proof fn keys_compare_by_their_first_difference(a: Seq<i128>, b: Seq<i128>, k: int, i: int)
    requires
        0 <= k <= i,
        i < a.len() && i < b.len(),
        forall|j: int| k <= j < i ==> a[j] == b[j],
        a[i] != b[i],
    ensures
        key_less(a, b, k) <==> a[i] < b[i],
    decreases i - k,
{
    if k < i {
        keys_compare_by_their_first_difference(a, b, k + 1, i);
    }
}

/// What edges contribute between two vertices, all of them run from the smaller
/// to the larger.
pub open spec fn carried(edges: Seq<Edge>, pair: (usize, usize)) -> (int, int)
    decreases edges.len(),
{
    if edges.len() == 0 {
        (0, 0)
    } else {
        let rest = carried(edges.drop_last(), pair);
        let e = edges.last();
        if boolean::joined(e) == pair {
            (rest.0 + boolean::upwards(e).0, rest.1 + boolean::upwards(e).1)
        } else {
            rest
        }
    }
}

/// The first `n` edges in an order.
pub open spec fn taken(edges: Seq<Edge>, order: Seq<usize>, n: int) -> Seq<Edge> {
    Seq::new(n as nat, |i: int| edges[order[i] as int])
}

proof fn lemma_carried_update(edges: Seq<Edge>, k: int, e: Edge, pair: (usize, usize))
    requires
        0 <= k < edges.len(),
        boolean::joined(e) == boolean::joined(edges[k]),
    ensures
        boolean::joined(e) == pair ==> carried(edges.update(k, e), pair).0 == carried(edges, pair).0
            + boolean::upwards(e).0 - boolean::upwards(edges[k]).0,
        boolean::joined(e) == pair ==> carried(edges.update(k, e), pair).1 == carried(edges, pair).1
            + boolean::upwards(e).1 - boolean::upwards(edges[k]).1,
        boolean::joined(e) != pair ==> carried(edges.update(k, e), pair) == carried(edges, pair),
    decreases edges.len(),
{
    if k == edges.len() - 1 {
        assert(edges.update(k, e).drop_last() =~= edges.drop_last());
    } else {
        assert(edges.update(k, e).drop_last() =~= edges.drop_last().update(k, e));
        lemma_carried_update(edges.drop_last(), k, e, pair);
    }
}

/// Where the kept edges over the current pair of vertices start, all that
/// follow lie over that pair.
proof fn lemma_group<S: Fn(Segment, Segment) -> bool, W: Fn(Segment, Segment) -> bool>(
    same_arc: S,
    same_way: W,
    edges: Seq<Edge>,
    order: Seq<usize>,
    n: int,
)
    requires
        0 <= n <= order.len(),
        n <= 0x1fff_ffff,
        is_order(order, edges.len() as int),
        single(edges),
    ensures
        ({
            let m = merged(same_arc, same_way, edges, order, n);
            &&& 0 <= m.group <= m.kept.len()
            &&& forall|k: int|
                m.group <= k < m.kept.len() ==> boolean::joined(#[trigger] m.kept[k])
                    == boolean::joined(m.kept.last())
            &&& forall|k: int|
                0 <= k < m.kept.len() ==> -n <= (#[trigger] m.kept[k]).wind.0 <= n && -n
                    <= m.kept[k].wind.1 <= n
        }),
    decreases n,
{
    if n > 0 {
        lemma_group(same_arc, same_way, edges, order, n - 1);
        let m = merged(same_arc, same_way, edges, order, n - 1);
        let now = merged(same_arc, same_way, edges, order, n);
        assert(order[n - 1] < edges.len());
        let e = edges[order[n - 1] as int];
        assert(-1 <= e.wind.0 <= 1 && -1 <= e.wind.1 <= 1);
        lemma_same_from(same_arc, m.kept, now.group, e);
        let k = same_from(same_arc, m.kept, now.group, e);
        if k < m.kept.len() {
            let way = alike(same_way, m.kept[k].seg, e.seg);
            lemma_sign(boolean::alignment(m.kept[k], e, way), e.wind.0 as int);
            lemma_sign(boolean::alignment(m.kept[k], e, way), e.wind.1 as int);
            assert(-(n - 1) <= m.kept[k].wind.0 <= n - 1 && -(n - 1) <= m.kept[k].wind.1 <= n - 1);
            assert(boolean::joined(m.kept[k]) == boolean::joined(m.kept.last()));
        }
        assert forall|j: int| 0 <= j < now.kept.len() implies -n <= (#[trigger] now.kept[j]).wind.0
            <= n && -n <= now.kept[j].wind.1 <= n by {
            if j < m.kept.len() {
                assert(-(n - 1) <= m.kept[j].wind.0 <= n - 1 && -(n - 1) <= m.kept[j].wind.1 <= n
                    - 1);
            }
        }
        assert forall|j: int| now.group <= j < now.kept.len() implies boolean::joined(
            #[trigger] now.kept[j],
        ) == boolean::joined(now.kept.last()) by {
            if j < m.kept.len() {
                assert(boolean::joined(m.kept[j]) == boolean::joined(m.kept.last()));
            }
        }
    }
}

/// Merging moves nothing to other vertices: between any two, the edges that are
/// kept contribute together what the edges that were merged contributed.
pub proof fn merging_keeps_what_each_pair_carries<
    S: Fn(Segment, Segment) -> bool,
    W: Fn(Segment, Segment) -> bool,
>(
    same_arc: S,
    same_way: W,
    edges: Seq<Edge>,
    order: Seq<usize>,
    n: int,
    pair: (usize, usize),
)
    requires
        0 <= n <= order.len(),
        n <= 0x1fff_ffff,
        is_order(order, edges.len() as int),
        single(edges),
        pair.0 != pair.1,
    ensures
        carried(merged(same_arc, same_way, edges, order, n).kept, pair) == carried(
            taken(edges, order, n),
            pair,
        ),
    decreases n,
{
    if n > 0 {
        merging_keeps_what_each_pair_carries(same_arc, same_way, edges, order, n - 1, pair);
        lemma_group(same_arc, same_way, edges, order, n - 1);
        let m = merged(same_arc, same_way, edges, order, n - 1);
        let now = merged(same_arc, same_way, edges, order, n);
        assert(order[n - 1] < edges.len());
        let e = edges[order[n - 1] as int];
        assert(-1 <= e.wind.0 <= 1 && -1 <= e.wind.1 <= 1);
        assert(taken(edges, order, n).drop_last() =~= taken(edges, order, n - 1));
        lemma_same_from(same_arc, m.kept, now.group, e);
        let k = same_from(same_arc, m.kept, now.group, e);
        if k < m.kept.len() {
            let a = m.kept[k];
            let way = alike(same_way, a.seg, e.seg);
            let b = absorbed(a, e, way);
            lemma_sign(boolean::alignment(a, e, way), e.wind.0 as int);
            lemma_sign(boolean::alignment(a, e, way), e.wind.1 as int);
            assert(-(n - 1) <= a.wind.0 <= n - 1 && -(n - 1) <= a.wind.1 <= n - 1);
            assert(boolean::joined(a) == boolean::joined(m.kept.last()));
            lemma_carried_update(m.kept, k, b, pair);
            if boolean::joined(a) == pair {
                boolean::merging_adds_up(a, e, b, way);
            }
        } else {
            assert(m.kept.push(e).drop_last() =~= m.kept);
        }
    } else {
        assert(taken(edges, order, n) =~= Seq::<Edge>::empty());
    }
}

/// Whether the `k`th of some kept edges joins the two vertices of another edge
/// and is that edge or traces its arc.
pub open spec fn stands_for<S: Fn(Segment, Segment) -> bool>(
    same_arc: S,
    kept: Seq<Edge>,
    k: int,
    e: Edge,
) -> bool {
    &&& 0 <= k < kept.len()
    &&& boolean::joined(kept[k]) == boolean::joined(e)
    &&& kept[k].seg == e.seg || alike(same_arc, kept[k].seg, e.seg)
}

/// Merging loses no edge: each has one among those kept that joins the same two
/// vertices and is the edge itself or traces its arc.
pub proof fn every_edge_is_kept_or_merged<
    S: Fn(Segment, Segment) -> bool,
    W: Fn(Segment, Segment) -> bool,
>(same_arc: S, same_way: W, edges: Seq<Edge>, order: Seq<usize>, n: int, i: int)
    requires
        0 <= i < n <= order.len(),
        n <= 0x1fff_ffff,
        is_order(order, edges.len() as int),
        single(edges),
    ensures
        exists|k: int|
            stands_for(
                same_arc,
                merged(same_arc, same_way, edges, order, n).kept,
                k,
                edges[order[i] as int],
            ),
    decreases n,
{
    lemma_group(same_arc, same_way, edges, order, n - 1);
    let m = merged(same_arc, same_way, edges, order, n - 1);
    let now = merged(same_arc, same_way, edges, order, n);
    let last = edges[order[n - 1] as int];
    lemma_same_from(same_arc, m.kept, now.group, last);
    let at = same_from(same_arc, m.kept, now.group, last);
    if i < n - 1 {
        every_edge_is_kept_or_merged(same_arc, same_way, edges, order, n - 1, i);
        let e = edges[order[i] as int];
        let k = choose|k: int| stands_for(same_arc, m.kept, k, e);
        assert(stands_for(same_arc, now.kept, k, e));
    } else if at < m.kept.len() {
        lemma_found(same_arc, m.kept, now.group, last);
        assert(boolean::joined(m.kept[at]) == boolean::joined(m.kept.last()));
        assert(stands_for(same_arc, now.kept, at, last));
    } else {
        assert(stands_for(same_arc, now.kept, m.kept.len() as int, last));
    }
}

proof fn lemma_found<S: Fn(Segment, Segment) -> bool>(
    same_arc: S,
    kept: Seq<Edge>,
    k: int,
    e: Edge,
)
    requires
        0 <= k <= kept.len(),
    ensures
        same_from(same_arc, kept, k, e) < kept.len() ==> alike(
            same_arc,
            kept[same_from(same_arc, kept, k, e)].seg,
            e.seg,
        ),
    decreases kept.len() - k,
{
    if k < kept.len() && !alike(same_arc, kept[k].seg, e.seg) {
        lemma_found(same_arc, kept, k + 1, e);
    }
}

} // verus!
