//! The half-edge structure of a planar subdivision: which half-edge follows
//! which, and the face cycles that gives.
//!
//! Half-edge `h` runs along edge `h / 2`, forwards when `h` is even; its twin
//! runs the other way along the same edge. Faces lie to the left of their
//! half-edges.

use vstd::prelude::*;
use crate::geom::Real;

verus! {

/// The half-edge that runs the other way along the same edge.
pub open spec fn twin(h: int) -> int {
    if h % 2 == 0 {
        h + 1
    } else {
        h - 1
    }
}

/// The half-edge that runs the other way along the same edge.
pub fn twin_of(h: usize) -> (t: usize)
    requires
        h < usize::MAX,
    ensures
        t == twin(h as int),
{
    if h % 2 == 0 {
        h + 1
    } else {
        h - 1
    }
}

/// The ends of the edges of a subdivision, and the directions in which the
/// half-edges leave their origins.
pub struct GraphModel {
    /// For each edge, the vertices it runs from and to.
    pub ends: Seq<(int, int)>,
    /// For each half-edge, a pair that orders it around its origin.
    pub keys: Seq<(int, int)>,
}

impl GraphModel {
    /// The number of half-edges.
    pub open spec fn size(self) -> int {
        2 * self.ends.len() as int
    }

    pub open spec fn is(self, h: int) -> bool {
        0 <= h < self.size()
    }

    /// The vertex a half-edge leaves.
    pub open spec fn origin(self, h: int) -> int {
        if h % 2 == 0 {
            self.ends[h / 2].0
        } else {
            self.ends[h / 2].1
        }
    }

    /// Whether half-edge `a` comes before `b` counter-clockwise. Directions
    /// that cannot be told apart are ordered by number.
    pub open spec fn before(self, a: int, b: int) -> bool {
        let x = self.keys[a];
        let y = self.keys[b];
        x.0 < y.0 || (x.0 == y.0 && (x.1 < y.1 || (x.1 == y.1 && a < b)))
    }

    /// Whether `g` is the first half-edge met going clockwise from `t` around
    /// the vertex both leave.
    pub open spec fn clockwise(self, t: int, g: int) -> bool {
        &&& self.is(g)
        &&& self.origin(g) == self.origin(t)
        &&& if exists|k: int| self.is(k) && self.origin(k) == self.origin(t) && #[trigger] self.before(k, t) {
            self.before(g, t) && forall|k: int|
                self.is(k) && self.origin(k) == self.origin(t) && #[trigger] self.before(k, t)
                    ==> !self.before(g, k)
        } else {
            forall|k: int|
                self.is(k) && self.origin(k) == self.origin(t) ==> !#[trigger] self.before(g, k)
        }
    }

    pub open spec fn wf(self, vertices: int) -> bool {
        &&& self.keys.len() == self.size()
        &&& forall|e: int|
            0 <= e < self.ends.len() ==> 0 <= (#[trigger] self.ends[e]).0 < vertices
                && 0 <= self.ends[e].1 < vertices
    }
}

/// No half-edge is met first from two different ones: going clockwise can be
/// undone.
pub proof fn clockwise_is_injective(g: GraphModel, a: int, b: int, c: int)
    requires
        g.is(a) && g.is(b),
        g.clockwise(a, c),
        g.clockwise(b, c),
    ensures
        a == b,
{
    if a != b {
        assert(g.before(a, b) || g.before(b, a));
        if g.before(a, b) {
            assert(!g.before(c, a));
            assert(g.before(a, b));
            assert(g.before(c, b));
            if exists|k: int| g.is(k) && g.origin(k) == g.origin(a) && #[trigger] g.before(k, a) {
                assert(g.before(c, a));
            } else {
                assert(!g.before(c, b));
            }
        } else {
            assert(!g.before(c, b));
            if exists|k: int| g.is(k) && g.origin(k) == g.origin(b) && #[trigger] g.before(k, b) {
                assert(g.before(c, b));
            } else {
                assert(!g.before(c, a));
            }
        }
    }
}

/// The subdivision that edge ends and leaving directions describe.
pub open spec fn graph(ends: Seq<(usize, usize)>, keys: Seq<(Real, Real)>) -> GraphModel {
    GraphModel {
        ends: Seq::new(ends.len(), |i: int| (ends[i].0 as int, ends[i].1 as int)),
        keys: Seq::new(keys.len(), |i: int| (keys[i].0.rank(), keys[i].1.rank())),
    }
}

/// No direction is a NaN.
pub open spec fn ordered(keys: Seq<(Real, Real)>) -> bool {
    forall|i: int| 0 <= i < keys.len() ==> !(#[trigger] keys[i]).0.nan() && !keys[i].1.nan()
}

/// The vertex half-edge `h` leaves.
pub fn origin_of(ends: &Vec<(usize, usize)>, h: usize) -> (v: usize)
    requires
        h < 2 * ends@.len(),
    ensures
        v == graph(ends@, Seq::empty()).origin(h as int),
        forall|keys: Seq<(Real, Real)>| v == #[trigger] graph(ends@, keys).origin(h as int),
{
    let e = ends[h / 2];
    if h % 2 == 0 {
        e.0
    } else {
        e.1
    }
}

fn comes_before(
    keys: &Vec<(Real, Real)>,
    a: usize,
    b: usize,
    ends: Ghost<Seq<(usize, usize)>>,
) -> (r: bool)
    requires
        a < keys@.len(),
        b < keys@.len(),
        ordered(keys@),
    ensures
        r == graph(ends@, keys@).before(a as int, b as int),
{
    let x = keys[a];
    let y = keys[b];
    x.0.below(y.0) || (x.0.equal(y.0) && (x.1.below(y.1) || (x.1.equal(y.1) && a < b)))
}

/// The half-edges that leave each vertex, by number.
fn rings(ends: &Vec<(usize, usize)>, keys: &Vec<(Real, Real)>, vertices: usize) -> (r: Vec<
    Vec<usize>,
>)
    requires
        graph(ends@, keys@).wf(vertices as int),
        2 * ends@.len() < usize::MAX,
    ensures
        r@.len() == vertices,
        forall|v: int, h: usize|
            0 <= v < vertices ==> ((#[trigger] r@[v]@.contains(h)) <==> graph(ends@, keys@).is(
                h as int,
            ) && graph(ends@, keys@).origin(h as int) == v),
{
    let ghost g = graph(ends@, keys@);
    let mut r: Vec<Vec<usize>> = Vec::new();
    let mut v: usize = 0;
    while v < vertices
        invariant
            v <= vertices,
            r@.len() == v,
            forall|u: int| 0 <= u < v ==> (#[trigger] r@[u])@ == Seq::<usize>::empty(),
        decreases vertices - v,
    {
        r.push(Vec::new());
        v += 1;
    }
    let n: usize = 2 * ends.len();
    let mut h: usize = 0;
    while h < n
        invariant
            h <= n == 2 * ends@.len() < usize::MAX,
            g == graph(ends@, keys@),
            g.wf(vertices as int),
            r@.len() == vertices,
            forall|v: int, k: usize|
                0 <= v < vertices ==> ((#[trigger] r@[v]@.contains(k)) <==> k < h && g.origin(
                    k as int,
                ) == v),
        decreases n - h,
    {
        let v: usize = origin_of(ends, h);
        assert(g.origin(h as int) == v);
        assert(v < vertices) by {
            assert(g.ends[h as int / 2].0 < vertices);
        }
        let ghost before = r@;
        r[v].push(h);
        proof {
            assert forall|u: int, k: usize| 0 <= u < vertices implies ((
            #[trigger] r@[u]@.contains(k)) <==> k < h + 1 && g.origin(k as int) == u) by {
                assert(before[u]@.contains(k) <==> k < h && g.origin(k as int) == u);
                if u == v {
                    assert(r@[u]@ == before[u]@.push(h));
                    if before[u]@.contains(k) {
                        let i = choose|i: int| 0 <= i < before[u]@.len() && before[u]@[i] == k;
                        assert(r@[u]@[i] == k);
                    }
                    if k == h {
                        assert(r@[u]@[before[u]@.len() as int] == h);
                    }
                } else {
                    assert(r@[u]@ == before[u]@);
                }
            }
        }
        h += 1;
    }
    r
}

/// The half-edge that comes clockwise of `t` among those of `ring`, which are
/// the ones that leave its origin.
fn clockwise_of(
    ends: &Vec<(usize, usize)>,
    keys: &Vec<(Real, Real)>,
    ring: &Vec<usize>,
    t: usize,
) -> (r: usize)
    requires
        graph(ends@, keys@).keys.len() == graph(ends@, keys@).size(),
        graph(ends@, keys@).is(t as int),
        ordered(keys@),
        2 * ends@.len() < usize::MAX,
        forall|h: usize| #[trigger]
            ring@.contains(h) <==> graph(ends@, keys@).is(h as int) && graph(ends@, keys@).origin(
                h as int,
            ) == graph(ends@, keys@).origin(t as int),
    ensures
        graph(ends@, keys@).clockwise(t as int, r as int),
{
    let ghost g = graph(ends@, keys@);
    let ghost v = g.origin(t as int);
    assert(ring@.contains(t));
    // The last one before `t`, and the last one of all.
    let mut near: Option<usize> = None;
    let mut last: usize = t;
    let mut i: usize = 0;
    while i < ring.len()
        invariant
            i <= ring@.len(),
            g == graph(ends@, keys@),
            g.keys.len() == g.size(),
            g.is(t as int),
            v == g.origin(t as int),
            ordered(keys@),
            2 * ends@.len() < usize::MAX,
            forall|h: usize| #[trigger]
                ring@.contains(h) <==> g.is(h as int) && g.origin(h as int) == v,
            g.is(last as int) && g.origin(last as int) == v,
            forall|k: int| 0 <= k < i ==> !#[trigger] g.before(last as int, ring@[k] as int),
            near matches Some(b) ==> g.is(b as int) && g.origin(b as int) == v && g.before(
                b as int,
                t as int,
            ) && forall|k: int|
                0 <= k < i && #[trigger] g.before(ring@[k] as int, t as int) ==> !g.before(
                    b as int,
                    ring@[k] as int,
                ),
            near is None ==> forall|k: int|
                0 <= k < i ==> !#[trigger] g.before(ring@[k] as int, t as int),
        decreases ring@.len() - i,
    {
        let h: usize = ring[i];
        assert(ring@.contains(ring@[i as int]));
        assert(g.is(h as int) && g.origin(h as int) == v);
        let ghost old_last = last;
        let ghost old_near = near;
        if comes_before(keys, last, h, Ghost(ends@)) {
            last = h;
        }
        if comes_before(keys, h, t, Ghost(ends@)) {
            near = match near {
                Some(b) => if comes_before(keys, b, h, Ghost(ends@)) {
                    Some(h)
                } else {
                    Some(b)
                },
                None => Some(h),
            };
        }
        i += 1;
        proof {
            assert forall|k: int| 0 <= k < i implies !#[trigger] g.before(
                last as int,
                ring@[k] as int,
            ) by {
                if k < i - 1 {
                    assert(!g.before(old_last as int, ring@[k] as int));
                }
            }
            if let Some(b) = near {
                assert forall|k: int|
                    0 <= k < i && #[trigger] g.before(ring@[k] as int, t as int) implies !g.before(
                    b as int,
                    ring@[k] as int,
                ) by {
                    if k < i - 1 {
                        if let Some(o) = old_near {
                            assert(!g.before(o as int, ring@[k] as int));
                        } else {
                            assert(!g.before(ring@[k] as int, t as int));
                        }
                    }
                }
            }
        }
    }
    assert forall|k: int| g.is(k) && g.origin(k) == v implies exists|j: int|
        0 <= j < ring@.len() && #[trigger] ring@[j] == k by {
        assert(ring@.contains(k as usize));
    }
    match near {
        Some(b) => {
            assert(g.before(b as int, t as int));
            assert forall|k: int|
                g.is(k) && g.origin(k) == v && #[trigger] g.before(k, t as int) implies !g.before(
                b as int,
                k,
            ) by {
                let j = choose|j: int| 0 <= j < ring@.len() && #[trigger] ring@[j] == k;
                assert(g.before(ring@[j] as int, t as int));
            }
            b
        },
        None => {
            assert forall|k: int| g.is(k) && g.origin(k) == v implies !#[trigger] g.before(
                k,
                t as int,
            ) by {
                let j = choose|j: int| 0 <= j < ring@.len() && #[trigger] ring@[j] == k;
                assert(!g.before(ring@[j] as int, t as int));
            }
            assert forall|k: int| g.is(k) && g.origin(k) == v implies !#[trigger] g.before(
                last as int,
                k,
            ) by {
                let j = choose|j: int| 0 <= j < ring@.len() && #[trigger] ring@[j] == k;
                assert(!g.before(last as int, ring@[j] as int));
            }
            last
        },
    }
}

/// Every number below `n` is followed by one below `n`, no two by the same.
pub open spec fn permutes(next: Seq<usize>, n: int) -> bool {
    &&& next.len() == n
    &&& forall|h: int| 0 <= h < n ==> (#[trigger] next[h]) < n
    &&& forall|a: int, b: int|
        0 <= a < n && 0 <= b < n && #[trigger] next[a] == #[trigger] next[b] ==> a == b
}

/// `c` is a cycle: each is followed by the one after it, the last by the first.
pub open spec fn is_cycle(next: Seq<usize>, c: Seq<usize>) -> bool {
    &&& c.len() > 0
    &&& forall|i: int| 0 <= i < c.len() ==> (#[trigger] c[i]) < next.len()
    &&& forall|i: int| 0 <= i < c.len() - 1 ==> next[(#[trigger] c[i]) as int] == c[i + 1]
    &&& next[c.last() as int] == c[0]
}

/// The faces are the cycles of `next`: every half-edge lies in exactly one, and
/// they are numbered by their smallest half-edge, which comes first in each.
pub open spec fn are_faces(next: Seq<usize>, face_of: Seq<usize>, faces: Seq<Vec<usize>>) -> bool {
    &&& face_of.len() == next.len()
    &&& forall|h: int|
        0 <= h < face_of.len() ==> (#[trigger] face_of[h]) < faces.len()
            && faces[face_of[h] as int]@.contains(h as usize)
    &&& forall|f: int| #![trigger faces[f]]
        0 <= f < faces.len() ==> is_face(next, face_of, f, faces[f]@)
    &&& forall|f: int, g: int|
        0 <= f < g < faces.len() ==> (#[trigger] faces[f])@[0] < (#[trigger] faces[g])@[0]
}

/// `c` is the cycle of face `f`.
pub open spec fn is_face(next: Seq<usize>, face_of: Seq<usize>, f: int, c: Seq<usize>) -> bool {
    &&& is_cycle(next, c)
    &&& c.no_duplicates()
    &&& forall|i: int| 0 <= i < c.len() ==> face_of[(#[trigger] c[i]) as int] == f && c[0] <= c[i]
}

/// The number of the first `n` that are not in a face yet.
pub open spec fn pending(face_of: Seq<usize>, n: int) -> nat
    decreases n,
{
    if n <= 0 {
        0
    } else if face_of[n - 1] == usize::MAX {
        pending(face_of, n - 1) + 1
    } else {
        pending(face_of, n - 1)
    }
}

pub proof fn lemma_pending(face_of: Seq<usize>, h: int, f: usize, n: int)
    requires
        0 <= h < face_of.len(),
        face_of[h] == usize::MAX,
        f != usize::MAX,
        0 <= n <= face_of.len(),
    ensures
        pending(face_of.update(h, f), n) == pending(face_of, n) - (if h < n {
            1int
        } else {
            0
        }),
    decreases n,
{
    if n > 0 {
        lemma_pending(face_of, h, f, n - 1);
    }
}

/// The cycle through `h0`, which no face holds yet, numbered `f`.
fn walk(next: &Vec<usize>, face_of: &mut Vec<usize>, h0: usize, f: usize) -> (cycle: Vec<usize>)
    requires
        permutes(next@, next@.len() as int),
        old(face_of)@.len() == next@.len(),
        h0 < next@.len(),
        f < usize::MAX,
        old(face_of)@[h0 as int] == usize::MAX,
        forall|h: int|
            0 <= h < next@.len() ==> (#[trigger] old(face_of)@[h]) == usize::MAX || old(
                face_of,
            )@[h] < f,
        forall|h: int| 0 <= h < h0 ==> (#[trigger] old(face_of)@[h]) != usize::MAX,
        // What is in a face already is followed and preceded in that face.
        forall|h: int|
            0 <= h < next@.len() && (#[trigger] old(face_of)@[h]) != usize::MAX ==> exists|p: int|
                0 <= p < next@.len() && #[trigger] next@[p] == h && old(face_of)@[p] == old(
                    face_of,
                )@[h],
    ensures
        final(face_of)@.len() == next@.len(),
        is_face(next@, final(face_of)@, f as int, cycle@),
        cycle@[0] == h0,
        forall|h: int|
            0 <= h < next@.len() ==> (#[trigger] final(face_of)@[h]) == (if cycle@.contains(
                h as usize,
            ) {
                f
            } else {
                old(face_of)@[h]
            }),
        forall|i: int|
            0 <= i < cycle@.len() ==> old(face_of)@[(#[trigger] cycle@[i]) as int] == usize::MAX,
{
    let size: usize = next.len();
    let ghost n = size as int;
    let ghost was = face_of@;
    let mut cycle: Vec<usize> = Vec::new();
    let mut h: usize = h0;
    while face_of[h] == usize::MAX
        invariant
            permutes(next@, n),
            n == size == next@.len() == face_of@.len() == was.len(),
            h < n,
            h0 < n,
            f < usize::MAX,
            was[h0 as int] == usize::MAX,
            forall|k: int| 0 <= k < h0 ==> (#[trigger] was[k]) != usize::MAX,
            forall|k: int| 0 <= k < n ==> (#[trigger] was[k]) == usize::MAX || was[k] < f,
            cycle@.len() == 0 ==> h == h0,
            cycle@.len() > 0 ==> cycle@[0] == h0 && next@[cycle@.last() as int] == h,
            cycle@.no_duplicates(),
            forall|i: int| 0 <= i < cycle@.len() ==> (#[trigger] cycle@[i]) < n,
            forall|i: int|
                0 <= i < cycle@.len() - 1 ==> next@[(#[trigger] cycle@[i]) as int] == cycle@[i + 1],
            forall|i: int|
                0 <= i < cycle@.len() ==> was[(#[trigger] cycle@[i]) as int] == usize::MAX
                    && face_of@[cycle@[i] as int] == f && h0 <= cycle@[i],
            forall|k: int|
                0 <= k < n ==> (#[trigger] face_of@[k]) == (if cycle@.contains(k as usize) {
                    f
                } else {
                    was[k]
                }),
        decreases pending(face_of@, n),
    {
        let ghost before = cycle@;
        let ghost marks = face_of@;
        proof {
            lemma_pending(face_of@, h as int, f, n);
            assert(!before.contains(h)) by {
                if before.contains(h) {
                    let i = choose|i: int| 0 <= i < before.len() && before[i] == h;
                    assert(face_of@[before[i] as int] == f);
                }
            }
            assert(was[h as int] == usize::MAX);
            if h < h0 {
                assert(was[h as int] != usize::MAX);
            }
        }
        face_of.set(h, f);
        cycle.push(h);
        proof {
            assert(cycle@ == before.push(h));
            assert forall|k: int| 0 <= k < n implies (#[trigger] face_of@[k]) == (
            if cycle@.contains(k as usize) {
                f
            } else {
                was[k]
            }) by {
                assert(marks[k] == (if before.contains(k as usize) {
                    f
                } else {
                    was[k]
                }));
                if before.contains(k as usize) {
                    let i = choose|i: int| 0 <= i < before.len() && before[i] == k as usize;
                    assert(cycle@[i] == k as usize);
                }
                if k == h {
                    assert(cycle@[before.len() as int] == h);
                }
            }
            assert forall|i: int| 0 <= i < cycle@.len() - 1 implies next@[(
            #[trigger] cycle@[i]) as int] == cycle@[i + 1] by {
                if i < before.len() - 1 {
                    assert(next@[before[i] as int] == before[i + 1]);
                }
            }
        }
        h = next[h];
    }
    proof {
        // The half-edge the walk came back to is the one it started from: any
        // other has a predecessor that was walked before the last one was.
        let last = cycle@.last() as int;
        assert(cycle@.len() > 0);
        assert(next@[last] == h);
        assert(face_of@[h as int] != usize::MAX);
        if cycle@.contains(h) {
            let i = choose|i: int| 0 <= i < cycle@.len() && cycle@[i] == h;
            if i > 0 {
                assert(next@[cycle@[i - 1] as int] == cycle@[i - 1 + 1]);
                assert(cycle@[i - 1] == last);
                assert(cycle@[i - 1] == cycle@[cycle@.len() - 1]);
                assert(false);
            }
        } else {
            assert(was[h as int] != usize::MAX);
            let p = choose|p: int|
                0 <= p < n && #[trigger] next@[p] == h && was[p] == was[h as int];
            assert(p == last);
            assert(was[cycle@[cycle@.len() - 1] as int] == usize::MAX);
            assert(false);
        }
    }
    cycle
}

/// Which half-edge follows which, and the faces that gives.
pub struct Links {
    pub next: Vec<usize>,
    pub face_of: Vec<usize>,
    pub faces: Vec<Vec<usize>>,
}

/// Following a half-edge is going clockwise from its twin, which keeps the face
/// on the left.
pub open spec fn follows(g: GraphModel, next: Seq<usize>) -> bool {
    &&& next.len() == g.size()
    &&& forall|h: int| g.is(h) ==> g.clockwise(twin(h), (#[trigger] next[h]) as int)
}

/// No half-edge follows two others.
pub proof fn following_is_a_permutation(g: GraphModel, next: Seq<usize>)
    requires
        follows(g, next),
    ensures
        permutes(next, g.size()),
{
    assert forall|a: int, b: int|
        0 <= a < g.size() && 0 <= b < g.size() && #[trigger] next[a] == #[trigger] next[b] implies a
        == b by {
        clockwise_is_injective(g, twin(a), twin(b), next[a] as int);
    }
}

/// A half-edge starts where the one it follows ends.
pub proof fn following_continues(g: GraphModel, next: Seq<usize>, h: int)
    requires
        follows(g, next),
        g.is(h),
    ensures
        g.origin(next[h] as int) == g.origin(twin(h)),
{
}

proof fn lemma_preceded(next: Seq<usize>, face_of: Seq<usize>, f: int, c: Seq<usize>, h: usize)
    requires
        is_face(next, face_of, f, c),
        c.contains(h),
    ensures
        exists|p: int| 0 <= p < next.len() && #[trigger] next[p] == h && face_of[p] == f,
{
    let i = choose|i: int| 0 <= i < c.len() && c[i] == h;
    if i > 0 {
        assert(next[c[i - 1] as int] == c[i - 1 + 1]);
    } else {
        assert(next[c[c.len() - 1] as int] == h);
        assert(face_of[c[c.len() - 1] as int] == f);
    }
}

/// The faces found so far, of which every half-edge below `h0` is in one.
spec fn some_faces(
    next: Seq<usize>,
    face_of: Seq<usize>,
    faces: Seq<Vec<usize>>,
    h0: int,
) -> bool {
    &&& face_of.len() == next.len()
    &&& faces.len() <= h0
    &&& forall|h: int|
        0 <= h < face_of.len() ==> (#[trigger] face_of[h]) == usize::MAX || (face_of[h]
            < faces.len() && faces[face_of[h] as int]@.contains(h as usize))
    &&& forall|h: int| 0 <= h < h0 ==> (#[trigger] face_of[h]) != usize::MAX
    &&& forall|f: int| #![trigger faces[f]]
        0 <= f < faces.len() ==> is_face(next, face_of, f, faces[f]@) && faces[f]@[0] < h0
    &&& forall|f: int, g: int|
        0 <= f < g < faces.len() ==> (#[trigger] faces[f])@[0] < (#[trigger] faces[g])@[0]
}

/// Adding the cycle through `h0` to the faces found so far.
proof fn lemma_face_added(
    next: Seq<usize>,
    marks: Seq<usize>,
    old_faces: Seq<Vec<usize>>,
    face_of: Seq<usize>,
    cycle: Vec<usize>,
    h0: int,
)
    requires
        next.len() < usize::MAX,
        0 <= h0 < next.len(),
        some_faces(next, marks, old_faces, h0),
        face_of.len() == next.len(),
        is_face(next, face_of, old_faces.len() as int, cycle@),
        cycle@[0] == h0,
        forall|h: int|
            0 <= h < next.len() ==> (#[trigger] face_of[h]) == (if cycle@.contains(h as usize) {
                old_faces.len() as usize
            } else {
                marks[h]
            }),
        forall|i: int|
            0 <= i < cycle@.len() ==> marks[(#[trigger] cycle@[i]) as int] == usize::MAX,
    ensures
        some_faces(next, face_of, old_faces.push(cycle), h0 + 1),
{
    let faces = old_faces.push(cycle);
    let f = old_faces.len() as int;
    assert forall|k: int| #![trigger faces[k]] 0 <= k < faces.len() implies is_face(
        next,
        face_of,
        k,
        faces[k]@,
    ) && faces[k]@[0] < h0 + 1 by {
        if k < f {
            assert(faces[k] == old_faces[k]);
            let c = old_faces[k]@;
            assert(is_face(next, marks, k, c));
            assert forall|i: int| 0 <= i < c.len() implies face_of[(#[trigger] c[i]) as int] == k
                && c[0] <= c[i] by {
                assert(marks[c[i] as int] == k);
                if cycle@.contains(c[i]) {
                    let j = choose|j: int| 0 <= j < cycle@.len() && cycle@[j] == c[i];
                    assert(marks[cycle@[j] as int] == usize::MAX);
                }
                assert(face_of[c[i] as int] == marks[c[i] as int]);
            }
        }
    }
    assert forall|h: int| 0 <= h < face_of.len() implies (#[trigger] face_of[h]) == usize::MAX || (
    face_of[h] < faces.len() && faces[face_of[h] as int]@.contains(h as usize)) by {
        if cycle@.contains(h as usize) {
            assert(faces[f]@.contains(h as usize));
        } else {
            assert(face_of[h] == marks[h]);
            if marks[h] != usize::MAX {
                assert(old_faces[marks[h] as int]@.contains(h as usize));
                assert(faces[marks[h] as int] == old_faces[marks[h] as int]);
            }
        }
    }
    assert forall|h: int| 0 <= h < h0 + 1 implies (#[trigger] face_of[h]) != usize::MAX by {
        if h == h0 {
            assert(cycle@.contains(cycle@[0]));
        } else {
            assert(marks[h] != usize::MAX);
        }
    }
    assert forall|a: int, b: int| 0 <= a < b < faces.len() implies (#[trigger] faces[a])@[0] < (
    #[trigger] faces[b])@[0] by {
        assert(faces[a] == old_faces[a]);
        if b < f {
            assert(faces[b] == old_faces[b]);
        }
        assert(old_faces[a]@[0] < h0);
    }
}

/// The cycles of a permutation.
pub fn cycles(next: &Vec<usize>) -> (r: (Vec<usize>, Vec<Vec<usize>>))
    requires
        permutes(next@, next@.len() as int),
        next@.len() < usize::MAX,
    ensures
        are_faces(next@, r.0@, r.1@),
{
    let n: usize = next.len();
    let mut face_of: Vec<usize> = Vec::new();
    let mut i: usize = 0;
    while i < n
        invariant
            i <= n,
            face_of@.len() == i,
            forall|k: int| 0 <= k < i ==> (#[trigger] face_of@[k]) == usize::MAX,
        decreases n - i,
    {
        face_of.push(usize::MAX);
        i += 1;
    }
    let mut faces: Vec<Vec<usize>> = Vec::new();
    let mut h0: usize = 0;
    while h0 < n
        invariant
            h0 <= n == next@.len() < usize::MAX,
            permutes(next@, n as int),
            some_faces(next@, face_of@, faces@, h0 as int),
        decreases n - h0,
    {
        if face_of[h0] == usize::MAX {
            let ghost marks = face_of@;
            let ghost old_faces = faces@;
            let f: usize = faces.len();
            proof {
                assert forall|h: int|
                    0 <= h < n && (#[trigger] marks[h]) != usize::MAX implies exists|p: int|
                    0 <= p < n && #[trigger] next@[p] == h && marks[p] == marks[h] by {
                    let k = marks[h] as int;
                    assert(old_faces[k]@.contains(h as usize));
                    lemma_preceded(next@, marks, k, old_faces[k]@, h as usize);
                }
            }
            let cycle = walk(next, &mut face_of, h0, f);
            faces.push(cycle);
            proof {
                lemma_face_added(next@, marks, old_faces, face_of@, cycle, h0 as int);
            }
        }
        h0 += 1;
    }
    (face_of, faces)
}

/// Orders the half-edges around each vertex and walks the face cycles.
pub fn link(ends: &Vec<(usize, usize)>, keys: &Vec<(Real, Real)>, vertices: usize) -> (r: Links)
    requires
        graph(ends@, keys@).wf(vertices as int),
        ordered(keys@),
        2 * ends@.len() < usize::MAX,
    ensures
        follows(graph(ends@, keys@), r.next@),
        permutes(r.next@, 2 * ends@.len() as int),
        are_faces(r.next@, r.face_of@, r.faces@),
{
    let ghost g = graph(ends@, keys@);
    let n: usize = 2 * ends.len();
    let ring = rings(ends, keys, vertices);
    let mut next: Vec<usize> = Vec::new();
    let mut h: usize = 0;
    while h < n
        invariant
            h <= n == 2 * ends@.len() < usize::MAX,
            g == graph(ends@, keys@),
            g.wf(vertices as int),
            ordered(keys@),
            ring@.len() == vertices,
            forall|v: int, k: usize|
                0 <= v < vertices ==> ((#[trigger] ring@[v]@.contains(k)) <==> g.is(k as int)
                    && g.origin(k as int) == v),
            next@.len() == h,
            forall|k: int| 0 <= k < h ==> g.clockwise(twin(k), (#[trigger] next@[k]) as int),
        decreases n - h,
    {
        let t: usize = twin_of(h);
        let v: usize = origin_of(ends, t);
        assert(g.origin(t as int) == v);
        assert(v < vertices) by {
            assert(g.ends[t as int / 2].0 < vertices);
        }
        let c: usize = clockwise_of(ends, keys, &ring[v], t);
        next.push(c);
        h += 1;
    }
    proof {
        following_is_a_permutation(g, next@);
    }
    let (face_of, faces) = cycles(&next);
    Links { next, face_of, faces }
}

/// The half-edges of an edge are each other's twins; the one along it leaves its
/// first end, the other its second.
pub proof fn twins_share_an_edge(g: GraphModel, e: int)
    requires
        0 <= e < g.ends.len(),
    ensures
        twin(2 * e) == 2 * e + 1,
        twin(2 * e + 1) == 2 * e,
        g.origin(2 * e) == g.ends[e].0,
        g.origin(2 * e + 1) == g.ends[e].1,
{
}

/// Half-edges are ordered by the first part of their keys, by the second where the
/// first is the same, and by number where both are: any two are ordered one way,
/// and only one.
pub proof fn half_edges_are_ordered(g: GraphModel, a: int, b: int, c: int)
    ensures
        g.keys[a].0 < g.keys[b].0 ==> g.before(a, b),
        g.keys[a].0 == g.keys[b].0 && g.keys[a].1 < g.keys[b].1 ==> g.before(a, b),
        g.keys[a] == g.keys[b] ==> (g.before(a, b) <==> a < b),
        a != b ==> g.before(a, b) != g.before(b, a),
        g.before(a, b) && g.before(b, c) ==> g.before(a, c),
        !g.before(a, a),
{
}

} // verus!
