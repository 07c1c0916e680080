//! The boundary of a union of faces.
//!
//! A half-edge lies on the boundary when the face to its left is kept and the
//! face to its right is not. From the end of one, the boundary goes on with the
//! first boundary half-edge met turning clockwise around that vertex: skipping
//! a half-edge whose other side is also kept is what erases the seam between
//! two faces of the same result.

use vstd::prelude::*;
use crate::path::halfedge;
use crate::path::halfedge::twin_of;

verus! {

/// Whether `h` lies on the boundary of the kept faces.
pub open spec fn border(face_of: Seq<usize>, keep: Seq<bool>, h: int) -> bool {
    keep[face_of[h] as int] && !keep[face_of[halfedge::twin(h)] as int]
}

/// The half-edge `k` steps clockwise of `g` around the vertex both leave.
pub open spec fn spun(next: Seq<usize>, g: int, k: nat) -> int
    decreases k,
{
    if k == 0 {
        g
    } else {
        next[halfedge::twin(spun(next, g, (k - 1) as nat))] as int
    }
}

/// Whether the boundary goes on from `h` with `g`.
pub open spec fn goes_on(
    next: Seq<usize>,
    face_of: Seq<usize>,
    keep: Seq<bool>,
    h: int,
    g: int,
) -> bool {
    exists|k: nat| #[trigger] first_met(next, face_of, keep, next[h] as int, k, g)
}

/// Whether `g` is the first boundary half-edge clockwise from `from`, `k` steps
/// on.
pub open spec fn first_met(
    next: Seq<usize>,
    face_of: Seq<usize>,
    keep: Seq<bool>,
    from: int,
    k: nat,
    g: int,
) -> bool {
    &&& spun(next, from, k) == g
    &&& border(face_of, keep, g)
    &&& forall|j: nat| j < k ==> !border(face_of, keep, #[trigger] spun(next, from, j))
}

/// A half-edge structure: twins in pairs, a permutation, faces closed under it.
pub open spec fn linked(next: Seq<usize>, face_of: Seq<usize>, faces: int) -> bool {
    &&& next.len() % 2 == 0
    &&& halfedge::permutes(next, next.len() as int)
    &&& face_of.len() == next.len()
    &&& forall|h: int| 0 <= h < face_of.len() ==> (#[trigger] face_of[h]) < faces
    &&& forall|h: int| 0 <= h < next.len() ==> face_of[(#[trigger] next[h]) as int] == face_of[h]
}

/// The faces of a subdivision make a half-edge structure.
pub proof fn faces_are_linked(next: Seq<usize>, face_of: Seq<usize>, faces: Seq<Vec<usize>>)
    requires
        next.len() % 2 == 0,
        next.len() <= usize::MAX,
        halfedge::permutes(next, next.len() as int),
        halfedge::are_faces(next, face_of, faces),
    ensures
        linked(next, face_of, faces.len() as int),
{
    assert forall|h: int| 0 <= h < next.len() implies face_of[(#[trigger] next[h]) as int]
        == face_of[h] by {
        let f = face_of[h] as int;
        let c = faces[f]@;
        assert(c.contains(h as usize));
        assert(halfedge::is_face(next, face_of, f, c));
        let i = choose|i: int| 0 <= i < c.len() && c[i] == h as usize;
        if i < c.len() - 1 {
            assert(next[c[i] as int] == c[i + 1]);
            assert(face_of[c[i + 1] as int] == f);
        } else {
            assert(next[c[i] as int] == c[0]);
            assert(face_of[c[0] as int] == f);
        }
    }
}

proof fn lemma_spun_in(next: Seq<usize>, g: int, k: nat)
    requires
        next.len() % 2 == 0,
        halfedge::permutes(next, next.len() as int),
        0 <= g < next.len(),
    ensures
        0 <= spun(next, g, k) < next.len(),
    decreases k,
{
    if k > 0 {
        lemma_spun_in(next, g, (k - 1) as nat);
        let p = spun(next, g, (k - 1) as nat);
        assert(0 <= halfedge::twin(p) < next.len());
    }
}

/// Steps add up.
proof fn lemma_spun_add(next: Seq<usize>, g: int, i: nat, j: nat)
    ensures
        spun(next, spun(next, g, i), j) == spun(next, g, i + j),
    decreases j,
{
    if j > 0 {
        lemma_spun_add(next, g, i, (j - 1) as nat);
    }
}

/// Turning can be undone.
proof fn lemma_spun_cancel(next: Seq<usize>, a: int, b: int, k: nat)
    requires
        next.len() % 2 == 0,
        halfedge::permutes(next, next.len() as int),
        0 <= a < next.len(),
        0 <= b < next.len(),
        spun(next, a, k) == spun(next, b, k),
    ensures
        a == b,
    decreases k,
{
    if k > 0 {
        let x = spun(next, a, (k - 1) as nat);
        let y = spun(next, b, (k - 1) as nat);
        lemma_spun_in(next, a, (k - 1) as nat);
        lemma_spun_in(next, b, (k - 1) as nat);
        assert(next[halfedge::twin(x)] == next[halfedge::twin(y)]);
        assert(halfedge::twin(x) == halfedge::twin(y));
        assert(x == y);
        lemma_spun_cancel(next, a, b, (k - 1) as nat);
    }
}

/// More numbers than there are values hold one value twice.
proof fn lemma_pigeonhole(a: Seq<int>, n: int)
    requires
        a.len() > n,
        forall|i: int| 0 <= i < a.len() ==> 0 <= (#[trigger] a[i]) < n,
        0 <= n,
    ensures
        exists|i: int, j: int| 0 <= i < j < a.len() && #[trigger] a[i] == #[trigger] a[j],
{
    if forall|i: int, j: int| 0 <= i < j < a.len() ==> #[trigger] a[i] != #[trigger] a[j] {
        assert(a.no_duplicates());
        a.unique_seq_to_set();
        let all = vstd::set_lib::set_int_range(0, n);
        vstd::set_lib::lemma_int_range(0, n);
        assert(a.to_set().subset_of(all));
        vstd::set_lib::lemma_len_subset(a.to_set(), all);
    }
}

/// Turning around a vertex comes back to where it started.
proof fn lemma_comes_round(next: Seq<usize>, g: int) -> (k: nat)
    requires
        next.len() % 2 == 0,
        halfedge::permutes(next, next.len() as int),
        0 <= g < next.len(),
    ensures
        0 < k <= next.len(),
        spun(next, g, k) == g,
{
    let n = next.len() as int;
    let a = Seq::new((n + 1) as nat, |i: int| spun(next, g, i as nat));
    assert forall|i: int| 0 <= i < a.len() implies 0 <= (#[trigger] a[i]) < n by {
        lemma_spun_in(next, g, i as nat);
    }
    lemma_pigeonhole(a, n);
    let (i, j) = choose|i: int, j: int|
        0 <= i < j < a.len() && #[trigger] a[i] == #[trigger] a[j];
    let k = (j - i) as nat;
    lemma_spun_add(next, g, k, i as nat);
    lemma_spun_in(next, g, k);
    lemma_spun_cancel(next, g, spun(next, g, k), i as nat);
    k
}

/// While no boundary half-edge is met, turning stays among kept faces.
proof fn lemma_stays_kept(
    next: Seq<usize>,
    face_of: Seq<usize>,
    faces: int,
    keep: Seq<bool>,
    from: int,
    k: nat,
)
    requires
        linked(next, face_of, faces),
        0 <= from < next.len(),
        keep[face_of[from] as int],
        forall|j: nat| j < k ==> !border(face_of, keep, #[trigger] spun(next, from, j)),
    ensures
        keep[face_of[spun(next, from, k)] as int],
    decreases k,
{
    if k > 0 {
        let p = spun(next, from, (k - 1) as nat);
        lemma_spun_in(next, from, (k - 1) as nat);
        lemma_stays_kept(next, face_of, faces, keep, from, (k - 1) as nat);
        assert(!border(face_of, keep, p));
        assert(keep[face_of[halfedge::twin(p)] as int]);
        assert(face_of[next[halfedge::twin(p)] as int] == face_of[halfedge::twin(p)]);
    }
}

/// From every boundary half-edge the boundary goes on.
pub proof fn the_boundary_goes_on(
    next: Seq<usize>,
    face_of: Seq<usize>,
    faces: int,
    keep: Seq<bool>,
    h: int,
) -> (k: nat)
    requires
        linked(next, face_of, faces),
        0 <= h < next.len(),
        border(face_of, keep, h),
    ensures
        first_met(
            next,
            face_of,
            keep,
            next[h] as int,
            k,
            spun(next, next[h] as int, k),
        ),
{
    let t = halfedge::twin(h);
    let from = next[h] as int;
    let round = lemma_comes_round(next, t);
    assert(spun(next, t, 1) == from) by {
        reveal_with_fuel(spun, 2);
    }
    lemma_spun_add(next, t, 1, (round - 1) as nat);
    assert(spun(next, from, (round - 1) as nat) == t);
    assert(face_of[from] == face_of[h]);
    if forall|j: nat| j < round ==> !border(face_of, keep, #[trigger] spun(next, from, j)) {
        lemma_stays_kept(next, face_of, faces, keep, from, (round - 1) as nat);
        assert(false);
    }
    let some = choose|j: nat| j < round && border(face_of, keep, #[trigger] spun(next, from, j));
    lemma_first(next, face_of, keep, from, some)
}

/// The first of the boundary half-edges met, given that one is.
proof fn lemma_first(
    next: Seq<usize>,
    face_of: Seq<usize>,
    keep: Seq<bool>,
    from: int,
    some: nat,
) -> (k: nat)
    requires
        border(face_of, keep, spun(next, from, some)),
    ensures
        k <= some,
        first_met(next, face_of, keep, from, k, spun(next, from, k)),
    decreases some,
{
    if exists|j: nat| j < some && border(face_of, keep, #[trigger] spun(next, from, j)) {
        let j = choose|j: nat| j < some && border(face_of, keep, #[trigger] spun(next, from, j));
        lemma_first(next, face_of, keep, from, j)
    } else {
        some
    }
}

/// No two boundary half-edges go on with the same one.
pub proof fn the_boundary_does_not_merge(
    next: Seq<usize>,
    face_of: Seq<usize>,
    faces: int,
    keep: Seq<bool>,
    a: int,
    b: int,
    g: int,
)
    requires
        linked(next, face_of, faces),
        0 <= a < next.len(),
        0 <= b < next.len(),
        border(face_of, keep, a),
        border(face_of, keep, b),
        goes_on(next, face_of, keep, a, g),
        goes_on(next, face_of, keep, b, g),
    ensures
        a == b,
{
    let i = choose|k: nat| #[trigger] first_met(next, face_of, keep, next[a] as int, k, g);
    let j = choose|k: nat| #[trigger] first_met(next, face_of, keep, next[b] as int, k, g);
    if i <= j {
        lemma_no_merge(next, face_of, faces, keep, a, b, i, j, g);
    } else {
        lemma_no_merge(next, face_of, faces, keep, b, a, j, i, g);
    }
}

proof fn lemma_no_merge(
    next: Seq<usize>,
    face_of: Seq<usize>,
    faces: int,
    keep: Seq<bool>,
    a: int,
    b: int,
    i: nat,
    j: nat,
    g: int,
)
    requires
        linked(next, face_of, faces),
        0 <= a < next.len(),
        0 <= b < next.len(),
        border(face_of, keep, a),
        border(face_of, keep, b),
        i <= j,
        first_met(next, face_of, keep, next[a] as int, i, g),
        first_met(next, face_of, keep, next[b] as int, j, g),
    ensures
        a == b,
{
    let x = next[a] as int;
    let y = next[b] as int;
    let m = (j - i) as nat;
    // `m` turns on from `y` is `x`.
    lemma_spun_add(next, y, m, i);
    lemma_spun_in(next, y, m);
    lemma_spun_cancel(next, x, spun(next, y, m), i);
    if m > 0 {
        let p = spun(next, y, (m - 1) as nat);
        lemma_spun_in(next, y, (m - 1) as nat);
        assert(next[halfedge::twin(p)] == next[a]);
        assert(halfedge::twin(p) == a);
        assert(p == halfedge::twin(a));
        assert(face_of[next[b] as int] == face_of[b]);
        assert forall|k: nat| k < (m - 1) as nat implies !border(
            face_of,
            keep,
            #[trigger] spun(next, y, k),
        ) by {
            assert(k < j);
        }
        lemma_stays_kept(next, face_of, faces, keep, y, (m - 1) as nat);
        assert(false);
    }
}

/// A loop of boundary half-edges, the smallest first.
pub open spec fn is_loop(
    next: Seq<usize>,
    face_of: Seq<usize>,
    keep: Seq<bool>,
    c: Seq<usize>,
) -> bool {
    &&& c.len() > 0
    &&& c.no_duplicates()
    &&& forall|i: int|
        0 <= i < c.len() ==> (#[trigger] c[i]) < next.len() && border(face_of, keep, c[i] as int)
            && c[0] <= c[i]
    &&& forall|i: int|
        0 <= i < c.len() - 1 ==> goes_on(
            next,
            face_of,
            keep,
            (#[trigger] c[i]) as int,
            c[i + 1] as int,
        )
    &&& goes_on(next, face_of, keep, c.last() as int, c[0] as int)
}

/// The boundary as loops, ordered by their smallest half-edges: each boundary
/// half-edge lies in exactly one.
pub open spec fn are_loops(
    next: Seq<usize>,
    face_of: Seq<usize>,
    keep: Seq<bool>,
    loops: Seq<Seq<usize>>,
) -> bool {
    &&& forall|l: int| 0 <= l < loops.len() ==> is_loop(next, face_of, keep, #[trigger] loops[l])
    &&& forall|h: int| #![trigger border(face_of, keep, h)]
        0 <= h < next.len() && border(face_of, keep, h) ==> exists|l: int|
            0 <= l < loops.len() && (#[trigger] loops[l]).contains(h as usize)
    &&& forall|l: int, m: int|
        0 <= l < m < loops.len() ==> (#[trigger] loops[l])[0] < (#[trigger] loops[m])[0]
    &&& forall|l: int, m: int, h: usize|
        0 <= l < loops.len() && 0 <= m < loops.len() && (#[trigger] loops[l].contains(h)) && (
        #[trigger] loops[m].contains(h)) ==> l == m
}

/// Loops as sequences.
pub open spec fn loops_view(loops: Seq<Vec<usize>>) -> Seq<Seq<usize>> {
    Seq::new(loops.len(), |i: int| loops[i]@)
}

fn is_border(face_of: &Vec<usize>, keep: &Vec<bool>, h: usize) -> (r: bool)
    requires
        h < face_of@.len() < usize::MAX,
        face_of@.len() % 2 == 0,
        forall|k: int| 0 <= k < face_of@.len() ==> (#[trigger] face_of@[k]) < keep@.len(),
    ensures
        r == border(face_of@, keep@, h as int),
{
    let t: usize = twin_of(h);
    keep[face_of[h]] && !keep[face_of[t]]
}

/// The half-edge the boundary goes on with from `h`.
fn onward(next: &Vec<usize>, face_of: &Vec<usize>, keep: &Vec<bool>, h: usize) -> (g: usize)
    requires
        linked(next@, face_of@, keep@.len() as int),
        next@.len() < usize::MAX,
        h < next@.len(),
        border(face_of@, keep@, h as int),
    ensures
        goes_on(next@, face_of@, keep@, h as int, g as int),
        g < next@.len(),
        border(face_of@, keep@, g as int),
{
    let ghost k = the_boundary_goes_on(
        next@,
        face_of@,
        keep@.len() as int,
        keep@,
        h as int,
    );
    let ghost from = next@[h as int] as int;
    let ghost mut j: nat = 0;
    let mut g: usize = next[h];
    while !is_border(face_of, keep, g)
        invariant
            linked(next@, face_of@, keep@.len() as int),
            next@.len() < usize::MAX,
            g < next@.len(),
            0 <= from < next@.len(),
            from == next@[h as int],
            g == spun(next@, from, j),
            j <= k,
            first_met(next@, face_of@, keep@, from, k, spun(next@, from, k)),
        decreases k - j,
    {
        let t: usize = twin_of(g);
        g = next[t];
        proof {
            if j == k {
                assert(false);
            }
            j = j + 1;
        }
    }
    proof {
        if j < k {
            assert(!border(face_of@, keep@, spun(next@, from, j)));
        }
        assert(first_met(next@, face_of@, keep@, from, k, g as int));
    }
    g
}

/// Which half-edge follows which along the boundary; one that is not on it
/// follows itself.
spec fn steps(
    next: Seq<usize>,
    face_of: Seq<usize>,
    keep: Seq<bool>,
    succ: Seq<usize>,
    n: int,
) -> bool {
    &&& succ.len() == n
    &&& forall|h: int|
        0 <= h < n ==> (#[trigger] succ[h]) < next.len() && (if border(face_of, keep, h) {
            goes_on(next, face_of, keep, h, succ[h] as int) && border(
                face_of,
                keep,
                succ[h] as int,
            )
        } else {
            succ[h] == h
        })
}

/// The boundary of the kept faces, as loops of half-edges.
pub fn border_loops(next: &Vec<usize>, face_of: &Vec<usize>, keep: &Vec<bool>) -> (loops: Vec<
    Vec<usize>,
>)
    requires
        linked(next@, face_of@, keep@.len() as int),
        next@.len() < usize::MAX,
    ensures
        are_loops(next@, face_of@, keep@, loops_view(loops@)),
{
    let n: usize = next.len();
    let mut succ: Vec<usize> = Vec::new();
    let mut h: usize = 0;
    while h < n
        invariant
            h <= n == next@.len() < usize::MAX,
            linked(next@, face_of@, keep@.len() as int),
            steps(next@, face_of@, keep@, succ@, h as int),
        decreases n - h,
    {
        if is_border(face_of, keep, h) {
            let g: usize = onward(next, face_of, keep, h);
            succ.push(g);
        } else {
            succ.push(h);
        }
        h += 1;
    }
    proof {
        assert forall|a: int, b: int|
            0 <= a < n && 0 <= b < n && #[trigger] succ@[a] == #[trigger] succ@[b] implies a
            == b by {
            if border(face_of@, keep@, a) && border(face_of@, keep@, b) {
                the_boundary_does_not_merge(
                    next@,
                    face_of@,
                    keep@.len() as int,
                    keep@,
                    a,
                    b,
                    succ@[a] as int,
                );
            }
        }
    }
    let (cycle_of, cycles) = halfedge::cycles(&succ);
    let mut loops: Vec<Vec<usize>> = Vec::new();
    let ghost mut from: Seq<int> = Seq::empty();
    let mut c: usize = 0;
    let total: usize = cycles.len();
    while c < total
        invariant
            c <= total == cycles@.len(),
            n == next@.len() < usize::MAX,
            linked(next@, face_of@, keep@.len() as int),
            steps(next@, face_of@, keep@, succ@, n as int),
            halfedge::are_faces(succ@, cycle_of@, cycles@),
            from.len() == loops@.len(),
            forall|l: int|
                0 <= l < from.len() ==> 0 <= (#[trigger] from[l]) < c && loops@[l]@
                    == cycles@[from[l]]@ && border(face_of@, keep@, loops@[l]@[0] as int),
            forall|l: int, m: int|
                0 <= l < m < from.len() ==> (#[trigger] from[l]) < (#[trigger] from[m]),
            forall|d: int| #![trigger cycles@[d]]
                0 <= d < c && border(face_of@, keep@, cycles@[d]@[0] as int) ==> exists|l: int|
                    0 <= l < from.len() && #[trigger] from[l] == d,
        decreases total - c,
    {
        assert(halfedge::is_face(succ@, cycle_of@, c as int, cycles@[c as int]@));
        let first: usize = cycles[c][0];
        if is_border(face_of, keep, first) {
            let copy = copy_of(&cycles[c]);
            let ghost before = from;
            loops.push(copy);
            proof {
                from = from.push(c as int);
                assert forall|d: int| #![trigger cycles@[d]]
                    0 <= d < c + 1 && border(
                        face_of@,
                        keep@,
                        cycles@[d]@[0] as int,
                    ) implies exists|l: int| 0 <= l < from.len() && #[trigger] from[l] == d by {
                    if d == c {
                        assert(from[before.len() as int] == d);
                    } else {
                        let l = choose|l: int| 0 <= l < before.len() && #[trigger] before[l] == d;
                        assert(from[l] == d);
                    }
                }
            }
        }
        c += 1;
    }
    proof {
        lemma_loops(
            next@,
            face_of@,
            keep@,
            succ@,
            cycle_of@,
            cycles@,
            loops_view(loops@),
            from,
        );
    }
    loops
}

fn copy_of(v: &Vec<usize>) -> (r: Vec<usize>)
    ensures
        r@ == v@,
{
    let mut r: Vec<usize> = Vec::new();
    let mut i: usize = 0;
    while i < v.len()
        invariant
            i <= v@.len(),
            r@ == v@.take(i as int),
        decreases v@.len() - i,
    {
        r.push(v[i]);
        i += 1;
        assert(r@ =~= v@.take(i as int));
    }
    assert(r@ =~= v@);
    r
}

/// A cycle whose first half-edge is on the boundary is on it throughout.
proof fn lemma_cycle_on_border(
    next: Seq<usize>,
    face_of: Seq<usize>,
    keep: Seq<bool>,
    succ: Seq<usize>,
    c: Seq<usize>,
    i: int,
)
    requires
        steps(next, face_of, keep, succ, next.len() as int),
        halfedge::is_cycle(succ, c),
        0 <= i < c.len(),
        border(face_of, keep, c[0] as int),
    ensures
        border(face_of, keep, c[i] as int),
    decreases i,
{
    if i > 0 {
        lemma_cycle_on_border(next, face_of, keep, succ, c, i - 1);
        assert(succ[c[i - 1] as int] == c[i - 1 + 1]);
    }
}

/// A cycle with a boundary half-edge in it has one at its start.
proof fn lemma_cycle_from_border(
    next: Seq<usize>,
    face_of: Seq<usize>,
    keep: Seq<bool>,
    succ: Seq<usize>,
    c: Seq<usize>,
    i: int,
)
    requires
        steps(next, face_of, keep, succ, next.len() as int),
        halfedge::is_cycle(succ, c),
        0 <= i < c.len(),
        border(face_of, keep, c[i] as int),
    ensures
        border(face_of, keep, c[0] as int),
    decreases c.len() - i,
{
    if i < c.len() - 1 {
        assert(succ[c[i] as int] == c[i + 1]);
        lemma_cycle_from_border(next, face_of, keep, succ, c, i + 1);
    } else {
        assert(succ[c[i] as int] == c[0]);
    }
}

/// The cycles that lie on the boundary are its loops.
proof fn lemma_loops(
    next: Seq<usize>,
    face_of: Seq<usize>,
    keep: Seq<bool>,
    succ: Seq<usize>,
    cycle_of: Seq<usize>,
    cycles: Seq<Vec<usize>>,
    loops: Seq<Seq<usize>>,
    from: Seq<int>,
)
    requires
        next.len() <= usize::MAX,
        steps(next, face_of, keep, succ, next.len() as int),
        halfedge::are_faces(succ, cycle_of, cycles),
        from.len() == loops.len(),
        forall|l: int|
            0 <= l < from.len() ==> 0 <= (#[trigger] from[l]) < cycles.len() && loops[l]
                == cycles[from[l]]@ && border(face_of, keep, loops[l][0] as int),
        forall|l: int, m: int|
            0 <= l < m < from.len() ==> (#[trigger] from[l]) < (#[trigger] from[m]),
        forall|d: int| #![trigger cycles[d]]
            0 <= d < cycles.len() && border(face_of, keep, cycles[d]@[0] as int) ==> exists|l: int|
                0 <= l < from.len() && #[trigger] from[l] == d,
    ensures
        are_loops(next, face_of, keep, loops),
{
    assert forall|l: int| 0 <= l < loops.len() implies is_loop(
        next,
        face_of,
        keep,
        #[trigger] loops[l],
    ) by {
        let c = loops[l];
        let d = from[l];
        assert(halfedge::is_face(succ, cycle_of, d, cycles[d]@));
        assert forall|i: int| 0 <= i < c.len() implies (#[trigger] c[i]) < next.len() && border(
            face_of,
            keep,
            c[i] as int,
        ) && c[0] <= c[i] by {
            lemma_cycle_on_border(next, face_of, keep, succ, c, i);
        }
        assert forall|i: int| 0 <= i < c.len() - 1 implies goes_on(
            next,
            face_of,
            keep,
            (#[trigger] c[i]) as int,
            c[i + 1] as int,
        ) by {
            assert(succ[c[i] as int] == c[i + 1]);
        }
        assert(succ[c.last() as int] == c[0]);
        assert(border(face_of, keep, c[c.len() - 1] as int));
    }
    assert forall|h: int| #![trigger border(face_of, keep, h)]
        0 <= h < next.len() && border(face_of, keep, h) implies exists|l: int|
        0 <= l < loops.len() && (#[trigger] loops[l]).contains(h as usize) by {
        let d = cycle_of[h] as int;
        let c = cycles[d]@;
        assert(c.contains(h as usize));
        assert(halfedge::is_face(succ, cycle_of, d, c));
        let i = choose|i: int| 0 <= i < c.len() && c[i] == h as usize;
        lemma_cycle_from_border(next, face_of, keep, succ, c, i);
        let l = choose|l: int| 0 <= l < from.len() && #[trigger] from[l] == d;
        assert(loops[l].contains(h as usize));
    }
    assert forall|l: int, m: int| 0 <= l < m < loops.len() implies (#[trigger] loops[l])[0] < (
    #[trigger] loops[m])[0] by {
        assert(cycles[from[l]]@[0] < cycles[from[m]]@[0]);
    }
    assert forall|l: int, m: int, h: usize|
        0 <= l < loops.len() && 0 <= m < loops.len() && (#[trigger] loops[l].contains(h)) && (
        #[trigger] loops[m].contains(h)) implies l == m by {
        assert(halfedge::is_face(succ, cycle_of, from[l], cycles[from[l]]@));
        assert(halfedge::is_face(succ, cycle_of, from[m], cycles[from[m]]@));
        let i = choose|i: int| 0 <= i < loops[l].len() && loops[l][i] == h;
        let j = choose|j: int| 0 <= j < loops[m].len() && loops[m][j] == h;
        assert(cycle_of[loops[l][i] as int] == from[l]);
        assert(cycle_of[loops[m][j] as int] == from[m]);
        if l < m {
            assert(from[l] < from[m]);
        }
        if m < l {
            assert(from[m] < from[l]);
        }
    }
}

/// The border runs with what is kept on its left: a half-edge is on it where its
/// own face is kept and that of its twin is not, so never together with its twin.
pub proof fn the_border_parts_kept_from_dropped(face_of: Seq<usize>, keep: Seq<bool>, h: int)
    requires
        0 <= h < face_of.len(),
    ensures
        border(face_of, keep, h) ==> keep[face_of[h] as int] && !keep[face_of[halfedge::twin(
            h,
        )] as int],
        !border(face_of, keep, h) && !border(face_of, keep, halfedge::twin(h)) <==> keep[face_of[h] as int]
            == keep[face_of[halfedge::twin(h)] as int],
        !(border(face_of, keep, h) && border(face_of, keep, halfedge::twin(h))),
{
}

} // verus!
