//! The winding numbers of the faces of an arrangement.
//!
//! Crossing an edge from its right to its left changes each winding number by
//! exactly what that edge contributes, so within one connected piece of the
//! arrangement every face's winding is a single unknown pair plus known integer
//! offsets. Samples are votes on that one unknown, and the vote with the most
//! clearance behind it wins. No face can disagree with its neighbour, whatever
//! a sample says.

use vstd::prelude::*;
use crate::geom::Real;
use crate::path::halfedge;
use crate::path::halfedge::twin_of;

verus! {

/// A pair of winding numbers, one for each input.
pub type Pair = (int, int);

/// What crossing half-edge `h` from its face to the one across does to the
/// winding numbers.
pub open spec fn crossing(wind: Seq<(i32, i32)>, h: int) -> Pair {
    let w = wind[h / 2];
    if h % 2 == 0 {
        (-(w.0 as int), -(w.1 as int))
    } else {
        (w.0 as int, w.1 as int)
    }
}

/// Whether crossing the half-edges `w` one after the other leads from face
/// `from` to face `to`.
pub open spec fn leads(face_of: Seq<usize>, w: Seq<int>, from: int, to: int) -> bool
    decreases w.len(),
{
    if w.len() == 0 {
        from == to
    } else {
        let h = w.last();
        &&& 0 <= h < face_of.len()
        &&& face_of[halfedge::twin(h)] == to
        &&& leads(face_of, w.drop_last(), from, face_of[h] as int)
    }
}

/// What crossing the half-edges `w` does to the winding numbers.
pub open spec fn gain(wind: Seq<(i32, i32)>, w: Seq<int>) -> Pair
    decreases w.len(),
{
    if w.len() == 0 {
        (0, 0)
    } else {
        let before = gain(wind, w.drop_last());
        let c = crossing(wind, w.last());
        (before.0 + c.0, before.1 + c.1)
    }
}

/// Whether some way from `from` to `to` changes the winding numbers by `by`.
pub open spec fn reaches(
    face_of: Seq<usize>,
    wind: Seq<(i32, i32)>,
    from: int,
    to: int,
    by: Pair,
) -> bool {
    exists|w: Seq<int>| #[trigger] leads(face_of, w, from, to) && gain(wind, w) == by
}

/// The connected pieces of an arrangement, and each face's offset in its piece.
pub struct Pieces {
    /// The piece each face belongs to.
    pub piece_of: Vec<usize>,
    /// What each face's winding numbers are, relative to its piece's first face.
    pub offset: Vec<(i32, i32)>,
    /// The first face of each piece.
    pub roots: Vec<usize>,
}

/// What is known of the faces that have been reached.
pub open spec fn reached(
    face_of: Seq<usize>,
    wind: Seq<(i32, i32)>,
    piece_of: Seq<usize>,
    offset: Seq<(i32, i32)>,
    roots: Seq<usize>,
    f: int,
) -> bool {
    &&& piece_of[f] < roots.len()
    &&& roots[piece_of[f] as int] <= f
    &&& reaches(
        face_of,
        wind,
        roots[piece_of[f] as int] as int,
        f,
        (offset[f].0 as int, offset[f].1 as int),
    )
}

/// Whether the faces on both sides of half-edge `h` are in one piece.
pub open spec fn joins(face_of: Seq<usize>, piece_of: Seq<usize>, h: int) -> bool {
    piece_of[face_of[h] as int] == piece_of[face_of[halfedge::twin(h)] as int]
}

/// The pieces are the connected components of the faces under shared edges,
/// numbered by their first faces, and every offset is the gain of some way from
/// the first face of the piece.
pub open spec fn are_pieces(
    face_of: Seq<usize>,
    wind: Seq<(i32, i32)>,
    faces: int,
    p: Pieces,
) -> bool {
    &&& p.piece_of@.len() == faces
    &&& p.offset@.len() == faces
    &&& forall|f: int|
        0 <= f < faces ==> #[trigger] reached(
            face_of,
            wind,
            p.piece_of@,
            p.offset@,
            p.roots@,
            f,
        )
    &&& forall|h: int| 0 <= h < face_of.len() ==> #[trigger] joins(face_of, p.piece_of@, h)
    &&& forall|c: int|
        0 <= c < p.roots@.len() ==> (#[trigger] p.roots@[c]) < faces
            && p.piece_of@[p.roots@[c] as int] == c
    &&& forall|c: int, d: int|
        0 <= c < d < p.roots@.len() ==> (#[trigger] p.roots@[c]) < (#[trigger] p.roots@[d])
}

/// The size of a contribution.
pub open spec fn size(x: i32) -> nat {
    if x < 0 {
        (-x) as nat
    } else {
        x as nat
    }
}

/// The sizes of the contributions of the first `n` edges to the first and the
/// second input, summed over those edges that `used` marks.
pub open spec fn marked(wind: Seq<(i32, i32)>, used: Seq<bool>, n: int) -> (nat, nat)
    decreases n,
{
    if n <= 0 {
        (0, 0)
    } else {
        let before = marked(wind, used, n - 1);
        if used[n - 1] {
            (before.0 + size(wind[n - 1].0), before.1 + size(wind[n - 1].1))
        } else {
            before
        }
    }
}

/// The sizes of all contributions to the first and the second input.
pub open spec fn weight(wind: Seq<(i32, i32)>) -> (nat, nat) {
    marked(wind, Seq::new(wind.len(), |i: int| true), wind.len() as int)
}

pub proof fn lemma_marked_bound(wind: Seq<(i32, i32)>, used: Seq<bool>, n: int)
    requires
        used.len() == wind.len(),
        0 <= n <= wind.len(),
    ensures
        marked(wind, used, n).0 <= marked(wind, Seq::new(wind.len(), |i: int| true), n).0,
        marked(wind, used, n).1 <= marked(wind, Seq::new(wind.len(), |i: int| true), n).1,
    decreases n,
{
    if n > 0 {
        lemma_marked_bound(wind, used, n - 1);
    }
}

pub proof fn lemma_marked_more(wind: Seq<(i32, i32)>, used: Seq<bool>, e: int, n: int)
    requires
        used.len() == wind.len(),
        0 <= e < wind.len(),
        !used[e],
        0 <= n <= wind.len(),
    ensures
        marked(wind, used.update(e, true), n).0 == marked(wind, used, n).0 + (if e < n {
            size(wind[e].0)
        } else {
            0
        }),
        marked(wind, used.update(e, true), n).1 == marked(wind, used, n).1 + (if e < n {
            size(wind[e].1)
        } else {
            0
        }),
    decreases n,
{
    if n > 0 {
        lemma_marked_more(wind, used, e, n - 1);
    }
}

/// Crossing one more half-edge leads one face further.
proof fn lemma_reach_further(
    face_of: Seq<usize>,
    wind: Seq<(i32, i32)>,
    from: int,
    h: int,
    by: Pair,
)
    requires
        0 <= h < face_of.len(),
        reaches(face_of, wind, from, face_of[h] as int, by),
    ensures
        reaches(
            face_of,
            wind,
            from,
            face_of[halfedge::twin(h)] as int,
            (by.0 + crossing(wind, h).0, by.1 + crossing(wind, h).1),
        ),
{
    let w = choose|w: Seq<int>| #[trigger]
        leads(face_of, w, from, face_of[h] as int) && gain(wind, w) == by;
    let more = w.push(h);
    assert(more.drop_last() =~= w);
    assert(leads(face_of, more, from, face_of[halfedge::twin(h)] as int));
}

/// If the faces have winding numbers that agree across every edge, then every
/// way from one face to another changes them by the difference between the two.
pub proof fn every_way_agrees(
    face_of: Seq<usize>,
    wind: Seq<(i32, i32)>,
    truth: Seq<Pair>,
    w: Seq<int>,
    from: int,
    to: int,
)
    requires
        leads(face_of, w, from, to),
        0 <= from < truth.len(),
        agrees(face_of, wind, truth),
    ensures
        gain(wind, w) == (truth[to].0 - truth[from].0, truth[to].1 - truth[from].1),
    decreases w.len(),
{
    if w.len() > 0 {
        let h = w.last();
        every_way_agrees(face_of, wind, truth, w.drop_last(), from, face_of[h] as int);
        assert(agrees_at(face_of, wind, truth, h));
    }
}

/// Winding numbers that change across half-edge `h` by what it contributes.
pub open spec fn agrees_at(
    face_of: Seq<usize>,
    wind: Seq<(i32, i32)>,
    truth: Seq<Pair>,
    h: int,
) -> bool {
    let a = truth[face_of[h] as int];
    let b = truth[face_of[halfedge::twin(h)] as int];
    b.0 - a.0 == crossing(wind, h).0 && b.1 - a.1 == crossing(wind, h).1
}

/// Winding numbers that agree across every edge.
pub open spec fn agrees(face_of: Seq<usize>, wind: Seq<(i32, i32)>, truth: Seq<Pair>) -> bool {
    forall|h: int| 0 <= h < face_of.len() ==> #[trigger] agrees_at(face_of, wind, truth, h)
}

/// For each face, the half-edges on its left, by number.
fn sides(face_of: &Vec<usize>, faces: usize) -> (r: Vec<Vec<usize>>)
    requires
        forall|h: int| 0 <= h < face_of@.len() ==> (#[trigger] face_of@[h]) < faces,
    ensures
        r@.len() == faces,
        forall|f: int, h: usize|
            0 <= f < faces ==> ((#[trigger] r@[f]@.contains(h)) <==> h < face_of@.len()
                && face_of@[h as int] == f),
{
    let mut r: Vec<Vec<usize>> = Vec::new();
    let mut f: usize = 0;
    while f < faces
        invariant
            f <= faces,
            r@.len() == f,
            forall|g: int| 0 <= g < f ==> (#[trigger] r@[g])@ == Seq::<usize>::empty(),
        decreases faces - f,
    {
        r.push(Vec::new());
        f += 1;
    }
    let mut h: usize = 0;
    while h < face_of.len()
        invariant
            h <= face_of@.len(),
            r@.len() == faces,
            forall|k: int| 0 <= k < face_of@.len() ==> (#[trigger] face_of@[k]) < faces,
            forall|f: int, k: usize|
                0 <= f < faces ==> ((#[trigger] r@[f]@.contains(k)) <==> k < h
                    && face_of@[k as int] == f),
        decreases face_of@.len() - h,
    {
        let f: usize = face_of[h];
        let ghost before = r@;
        r[f].push(h);
        proof {
            assert forall|g: int, k: usize| 0 <= g < faces implies ((
            #[trigger] r@[g]@.contains(k)) <==> k < h + 1 && face_of@[k as int] == g) by {
                assert(before[g]@.contains(k) <==> k < h && face_of@[k as int] == g);
                if g == f {
                    assert(r@[g]@ == before[g]@.push(h));
                    if before[g]@.contains(k) {
                        let i = choose|i: int| 0 <= i < before[g]@.len() && before[g]@[i] == k;
                        assert(r@[g]@[i] == k);
                    }
                    if k == h {
                        assert(r@[g]@[before[g]@.len() as int] == h);
                    }
                } else {
                    assert(r@[g]@ == before[g]@);
                }
            }
        }
        h += 1;
    }
    r
}

/// What the search keeps while it runs. `c` is the piece being explored, the
/// faces of `stack` are still to be crossed out of, and `busy` is the one being
/// crossed out of.
spec fn searching(
    face_of: Seq<usize>,
    wind: Seq<(i32, i32)>,
    p: Pieces,
    c: int,
    stack: Seq<usize>,
    busy: int,
    used: Seq<bool>,
) -> bool {
    let n = p.piece_of@.len();
    &&& p.offset@.len() == n
    &&& p.roots@.len() == c + 1
    &&& used.len() == wind.len()
    &&& forall|f: int|
        0 <= f < n && (#[trigger] p.piece_of@[f]) != usize::MAX ==> reached(
            face_of,
            wind,
            p.piece_of@,
            p.offset@,
            p.roots@,
            f,
        ) && size(p.offset@[f].0) <= marked(wind, used, wind.len() as int).0 && size(p.offset@[f].1)
            <= marked(wind, used, wind.len() as int).1
    &&& forall|i: int|
        0 <= i < stack.len() ==> (#[trigger] stack[i]) < n && p.piece_of@[stack[i] as int] == c
    &&& forall|e: int| #![trigger used[e]]
        0 <= e < used.len() && used[e] ==> p.piece_of@[face_of[2 * e] as int] != usize::MAX
            && p.piece_of@[face_of[2 * e + 1] as int] != usize::MAX
    &&& forall|h: int|
        0 <= h < face_of.len() && p.piece_of@[face_of[h] as int] != usize::MAX && face_of[h] != busy
            && !stack.contains(face_of[h]) ==> #[trigger] joins(face_of, p.piece_of@, h)
    &&& forall|k: int|
        0 <= k < p.roots@.len() ==> (#[trigger] p.roots@[k]) < n
            && p.piece_of@[p.roots@[k] as int] == k
    &&& forall|k: int, d: int|
        0 <= k < d < p.roots@.len() ==> (#[trigger] p.roots@[k]) < (#[trigger] p.roots@[d])
}

/// Crosses half-edge `h` out of the face being explored, and takes the face
/// across into the piece unless it is in it already.
fn cross(
    face_of: &Vec<usize>,
    wind: &Vec<(i32, i32)>,
    p: &mut Pieces,
    stack: &mut Vec<usize>,
    h: usize,
    c: usize,
    used: Ghost<Seq<bool>>,
) -> (now: Ghost<Seq<bool>>)
    requires
        face_of@.len() == 2 * wind@.len(),
        face_of@.len() < usize::MAX,
        h < face_of@.len(),
        c < usize::MAX,
        forall|k: int|
            0 <= k < face_of@.len() ==> (#[trigger] face_of@[k]) < old(p).piece_of@.len(),
        weight(wind@).0 <= 0x1fff_ffff,
        weight(wind@).1 <= 0x1fff_ffff,
        searching(
            face_of@,
            wind@,
            *old(p),
            c as int,
            old(stack)@,
            face_of@[h as int] as int,
            used@,
        ),
        old(p).piece_of@[face_of@[h as int] as int] == c,
        forall|f: int|
            0 <= f < old(p).piece_of@.len() && (#[trigger] old(p).piece_of@[f]) == usize::MAX
                ==> f >= old(p).roots@[c as int],
    ensures
        searching(
            face_of@,
            wind@,
            *final(p),
            c as int,
            final(stack)@,
            face_of@[h as int] as int,
            now@,
        ),
        final(p).piece_of@.len() == old(p).piece_of@.len(),
        final(p).roots == old(p).roots,
        final(p).piece_of@[face_of@[halfedge::twin(h as int)] as int] == c,
        forall|f: int|
            0 <= f < old(p).piece_of@.len() && (#[trigger] old(p).piece_of@[f]) != usize::MAX
                ==> final(p).piece_of@[f] == old(p).piece_of@[f],
        forall|f: int|
            0 <= f < old(p).piece_of@.len() && (#[trigger] final(p).piece_of@[f]) == usize::MAX
                ==> old(p).piece_of@[f] == usize::MAX && final(p).offset@[f] == old(p).offset@[f],
        ({
            let n = old(p).piece_of@.len() as int;
            let a = halfedge::pending(old(p).piece_of@, n);
            let b = halfedge::pending(final(p).piece_of@, n);
            b < a || (b == a && final(stack)@ == old(stack)@)
        }),
{
    let t: usize = twin_of(h);
    let f: usize = face_of[h];
    let g: usize = face_of[t];
    let ghost n = p.piece_of@.len() as int;
    let ghost e = h as int / 2;
    let ghost before = *p;
    let ghost waiting = stack@;
    assert(halfedge::twin(t as int) == h);
    if p.piece_of[g] != usize::MAX {
        proof {
            // A face of another piece would have crossed back to this one.
            if p.piece_of@[g as int] != c {
                assert(!stack@.contains(g)) by {
                    if stack@.contains(g) {
                        let i = choose|i: int| 0 <= i < stack@.len() && stack@[i] == g;
                        assert(p.piece_of@[stack@[i] as int] == c);
                    }
                }
                assert(joins(face_of@, p.piece_of@, t as int));
                assert(false);
            }
        }
        return used;
    }
    let w = wind[h / 2];
    let o = p.offset[f];
    let ghost marks = used@;
    let ghost now = marks.update(e, true);
    proof {
        assert(e == h as int / 2 && (h == 2 * e || h == 2 * e + 1));
        if marks[e] {
            assert(p.piece_of@[face_of@[2 * e] as int] != usize::MAX);
            assert(false);
        }
        lemma_marked_more(wind@, marks, e, wind@.len() as int);
        lemma_marked_bound(wind@, now, wind@.len() as int);
        assert(reached(face_of@, wind@, p.piece_of@, p.offset@, p.roots@, f as int)) by {
            assert(p.piece_of@[f as int] != usize::MAX);
        }
        lemma_reach_further(
            face_of@,
            wind@,
            p.roots@[c as int] as int,
            h as int,
            (o.0 as int, o.1 as int),
        );
        halfedge::lemma_pending(p.piece_of@, g as int, c, n);
    }
    let there: (i32, i32) = if h % 2 == 0 {
        (o.0 - w.0, o.1 - w.1)
    } else {
        (o.0 + w.0, o.1 + w.1)
    };
    p.piece_of.set(g, c);
    p.offset.set(g, there);
    stack.push(g);
    proof {
        assert(stack@ == waiting.push(g));
        assert forall|x: int|
            0 <= x < n && (#[trigger] p.piece_of@[x]) != usize::MAX implies reached(
            face_of@,
            wind@,
            p.piece_of@,
            p.offset@,
            p.roots@,
            x,
        ) && size(p.offset@[x].0) <= marked(wind@, now, wind@.len() as int).0 && size(
            p.offset@[x].1,
        ) <= marked(wind@, now, wind@.len() as int).1 by {
            if x != g {
                assert(before.piece_of@[x] != usize::MAX);
                assert(reached(
                    face_of@,
                    wind@,
                    before.piece_of@,
                    before.offset@,
                    before.roots@,
                    x,
                ));
            }
        }
        assert forall|k: int|
            0 <= k < face_of@.len() && p.piece_of@[face_of@[k] as int] != usize::MAX && face_of@[k]
                != f && !stack@.contains(face_of@[k]) implies #[trigger] joins(
            face_of@,
            p.piece_of@,
            k,
        ) by {
            assert(stack@[waiting.len() as int] == g);
            assert(face_of@[k] != g);
            assert(!waiting.contains(face_of@[k])) by {
                if waiting.contains(face_of@[k]) {
                    let i = choose|i: int| 0 <= i < waiting.len() && waiting[i] == face_of@[k];
                    assert(stack@[i] == face_of@[k]);
                }
            }
            assert(joins(face_of@, before.piece_of@, k));
        }
        assert forall|i: int| 0 <= i < stack@.len() implies (#[trigger] stack@[i]) < n
            && p.piece_of@[stack@[i] as int] == c by {
            if i < waiting.len() {
                assert(waiting[i] < n && before.piece_of@[waiting[i] as int] == c);
            }
        }
        assert forall|k: int| 0 <= k < p.roots@.len() implies (#[trigger] p.roots@[k]) < n
            && p.piece_of@[p.roots@[k] as int] == k by {
            assert(before.piece_of@[before.roots@[k] as int] == k);
        }
    }
    Ghost(now)
}

/// Explores one piece from the faces on the stack.
fn explore(
    face_of: &Vec<usize>,
    wind: &Vec<(i32, i32)>,
    sides: &Vec<Vec<usize>>,
    p: &mut Pieces,
    root: usize,
    c: usize,
    used: Ghost<Seq<bool>>,
) -> (now: Ghost<Seq<bool>>)
    requires
        face_of@.len() == 2 * wind@.len(),
        face_of@.len() < usize::MAX,
        c < usize::MAX,
        root < old(p).piece_of@.len(),
        forall|k: int|
            0 <= k < face_of@.len() ==> (#[trigger] face_of@[k]) < old(p).piece_of@.len(),
        sides@.len() == old(p).piece_of@.len(),
        forall|f: int, h: usize|
            0 <= f < sides@.len() ==> ((#[trigger] sides@[f]@.contains(h)) <==> h < face_of@.len()
                && face_of@[h as int] == f),
        weight(wind@).0 <= 0x1fff_ffff,
        weight(wind@).1 <= 0x1fff_ffff,
        searching(face_of@, wind@, *old(p), c as int, seq![root], -1, used@),
        old(p).roots@[c as int] == root,
        forall|f: int|
            0 <= f < old(p).piece_of@.len() && (#[trigger] old(p).piece_of@[f]) == usize::MAX
                ==> f >= root,
    ensures
        searching(face_of@, wind@, *final(p), c as int, Seq::empty(), -1, now@),
        final(p).piece_of@.len() == old(p).piece_of@.len(),
        final(p).roots == old(p).roots,
        forall|f: int|
            0 <= f < old(p).piece_of@.len() && (#[trigger] old(p).piece_of@[f]) != usize::MAX
                ==> final(p).piece_of@[f] == old(p).piece_of@[f],
        forall|f: int|
            0 <= f < old(p).piece_of@.len() && (#[trigger] final(p).piece_of@[f]) == usize::MAX
                ==> old(p).piece_of@[f] == usize::MAX && final(p).offset@[f] == old(p).offset@[f],
{
    let ghost n = p.piece_of@.len() as int;
    let mut stack: Vec<usize> = Vec::new();
    stack.push(root);
    assert(stack@ =~= seq![root]);
    let mut used = used;
    while stack.len() > 0
        invariant
            n == p.piece_of@.len() == sides@.len() == old(p).piece_of@.len(),
            face_of@.len() == 2 * wind@.len(),
            face_of@.len() < usize::MAX,
            c < usize::MAX,
            forall|k: int| 0 <= k < face_of@.len() ==> (#[trigger] face_of@[k]) < n,
            forall|f: int, h: usize|
                0 <= f < n ==> ((#[trigger] sides@[f]@.contains(h)) <==> h < face_of@.len()
                    && face_of@[h as int] == f),
            weight(wind@).0 <= 0x1fff_ffff,
            weight(wind@).1 <= 0x1fff_ffff,
            searching(face_of@, wind@, *p, c as int, stack@, -1, used@),
            p.roots == old(p).roots,
            p.roots@[c as int] == root,
            forall|f: int|
                0 <= f < n && (#[trigger] p.piece_of@[f]) == usize::MAX ==> f >= root,
            forall|f: int|
                0 <= f < n && (#[trigger] old(p).piece_of@[f]) != usize::MAX ==> p.piece_of@[f]
                    == old(p).piece_of@[f],
            forall|f: int|
                0 <= f < n && (#[trigger] p.piece_of@[f]) == usize::MAX ==> old(p).piece_of@[f]
                    == usize::MAX && p.offset@[f] == old(p).offset@[f],
        decreases halfedge::pending(p.piece_of@, n), stack@.len(),
    {
        let ghost waiting = stack@;
        let ghost before = *p;
        let f: usize = stack[stack.len() - 1];
        stack.pop();
        let ghost shorter = stack@;
        assert(waiting[waiting.len() - 1] == f);
        assert(f < n && p.piece_of@[f as int] == c);
        proof {
            assert forall|h: int|
                0 <= h < face_of@.len() && p.piece_of@[face_of@[h] as int] != usize::MAX
                    && face_of@[h] != f && !stack@.contains(face_of@[h]) implies #[trigger] joins(
                face_of@,
                p.piece_of@,
                h,
            ) by {
                if waiting.contains(face_of@[h]) {
                    let i = choose|i: int| 0 <= i < waiting.len() && waiting[i] == face_of@[h];
                    assert(stack@[i] == face_of@[h]);
                }
            }
            assert forall|i: int| 0 <= i < stack@.len() implies (#[trigger] stack@[i]) < n
                && p.piece_of@[stack@[i] as int] == c by {
                assert(stack@[i] == waiting[i]);
            }
        }
        let mut i: usize = 0;
        while i < sides[f].len()
            invariant
                f < n,
                i <= sides@[f as int]@.len(),
                n == p.piece_of@.len() == sides@.len() == before.piece_of@.len() == old(p).piece_of@.len(),
                face_of@.len() == 2 * wind@.len(),
                face_of@.len() < usize::MAX,
                c < usize::MAX,
                forall|k: int| 0 <= k < face_of@.len() ==> (#[trigger] face_of@[k]) < n,
                forall|f: int, h: usize|
                    0 <= f < n ==> ((#[trigger] sides@[f]@.contains(h)) <==> h < face_of@.len()
                        && face_of@[h as int] == f),
                weight(wind@).0 <= 0x1fff_ffff,
                weight(wind@).1 <= 0x1fff_ffff,
                searching(face_of@, wind@, *p, c as int, stack@, f as int, used@),
                p.piece_of@[f as int] == c,
                p.roots == old(p).roots,
                p.roots@[c as int] == root,
                forall|f: int|
                    0 <= f < n && (#[trigger] p.piece_of@[f]) == usize::MAX ==> f >= root,
                forall|f: int|
                    0 <= f < n && (#[trigger] old(p).piece_of@[f]) != usize::MAX ==> p.piece_of@[f]
                        == old(p).piece_of@[f],
                forall|f: int|
                    0 <= f < n && (#[trigger] p.piece_of@[f]) == usize::MAX ==> old(p).piece_of@[f]
                        == usize::MAX && p.offset@[f] == old(p).offset@[f],
                forall|k: int|
                    0 <= k < i ==> p.piece_of@[face_of@[halfedge::twin(
                        (#[trigger] sides@[f as int]@[k]) as int,
                    )] as int] == c,
                halfedge::pending(p.piece_of@, n) < halfedge::pending(before.piece_of@, n) || (
                halfedge::pending(p.piece_of@, n) == halfedge::pending(before.piece_of@, n)
                    && stack@ == shorter),
            decreases sides@[f as int]@.len() - i,
        {
            let h: usize = sides[f][i];
            assert(sides@[f as int]@.contains(sides@[f as int]@[i as int]));
            let ghost earlier = *p;
            used = cross(face_of, wind, p, &mut stack, h, c, used);
            proof {
                assert forall|k: int| 0 <= k < i + 1 implies p.piece_of@[face_of@[halfedge::twin(
                    (#[trigger] sides@[f as int]@[k]) as int,
                )] as int] == c by {
                    if k < i {
                        let o = sides@[f as int]@[k];
                        assert(sides@[f as int]@.contains(o));
                        let x = face_of@[halfedge::twin(o as int)] as int;
                        assert(0 <= halfedge::twin(o as int) < face_of@.len());
                        assert(earlier.piece_of@[x] == c);
                    }
                }
                assert(earlier.piece_of@[f as int] == c);
            }
            i += 1;
        }
        proof {
            assert forall|h: int|
                0 <= h < face_of@.len() && p.piece_of@[face_of@[h] as int] != usize::MAX
                    && face_of@[h] != -1 && !stack@.contains(face_of@[h]) implies #[trigger] joins(
                face_of@,
                p.piece_of@,
                h,
            ) by {
                if face_of@[h] == f {
                    assert(sides@[f as int]@.contains(h as usize));
                    let k = choose|k: int|
                        0 <= k < sides@[f as int]@.len() && sides@[f as int]@[k] == h as usize;
                    assert(p.piece_of@[face_of@[halfedge::twin(
                        sides@[f as int]@[k] as int,
                    )] as int] == c);
                }
            }
        }
    }
    assert(stack@ =~= Seq::<usize>::empty());
    used
}

/// Finds the connected pieces of the faces, and each face's offset from the
/// first face of its piece, by a search over the shared edges.
pub fn pieces(face_of: &Vec<usize>, wind: &Vec<(i32, i32)>, faces: usize) -> (p: Pieces)
    requires
        face_of@.len() == 2 * wind@.len(),
        face_of@.len() < usize::MAX,
        faces < usize::MAX,
        forall|h: int| 0 <= h < face_of@.len() ==> (#[trigger] face_of@[h]) < faces,
        weight(wind@).0 <= 0x1fff_ffff,
        weight(wind@).1 <= 0x1fff_ffff,
    ensures
        are_pieces(face_of@, wind@, faces as int, p),
        forall|f: int|
            0 <= f < faces ==> -0x1fff_ffff <= (#[trigger] p.offset@[f]).0 <= 0x1fff_ffff
                && -0x1fff_ffff <= p.offset@[f].1 <= 0x1fff_ffff,
{
    let by_face = sides(face_of, faces);
    let mut p = Pieces { piece_of: Vec::new(), offset: Vec::new(), roots: Vec::new() };
    let mut i: usize = 0;
    while i < faces
        invariant
            i <= faces,
            p.piece_of@.len() == i,
            p.offset@.len() == i,
            p.roots@.len() == 0,
            forall|k: int| 0 <= k < i ==> (#[trigger] p.piece_of@[k]) == usize::MAX,
            forall|k: int| 0 <= k < i ==> (#[trigger] p.offset@[k]) == (0i32, 0i32),
        decreases faces - i,
    {
        p.piece_of.push(usize::MAX);
        p.offset.push((0, 0));
        i += 1;
    }
    let mut used: Ghost<Seq<bool>> = Ghost(Seq::new(wind@.len(), |i: int| false));
    let mut root: usize = 0;
    while root < faces
        invariant
            root <= faces < usize::MAX,
            face_of@.len() == 2 * wind@.len(),
            face_of@.len() < usize::MAX,
            p.piece_of@.len() == faces,
            by_face@.len() == faces,
            p.roots@.len() <= root,
            forall|k: int| 0 <= k < face_of@.len() ==> (#[trigger] face_of@[k]) < faces,
            forall|f: int, h: usize|
                0 <= f < faces ==> ((#[trigger] by_face@[f]@.contains(h)) <==> h < face_of@.len()
                    && face_of@[h as int] == f),
            weight(wind@).0 <= 0x1fff_ffff,
            weight(wind@).1 <= 0x1fff_ffff,
            searching(face_of@, wind@, p, p.roots@.len() - 1, Seq::empty(), -1, used@),
            forall|f: int| 0 <= f < root ==> (#[trigger] p.piece_of@[f]) != usize::MAX,
            forall|f: int|
                0 <= f < faces && (#[trigger] p.piece_of@[f]) == usize::MAX ==> p.offset@[f] == (
                0i32,
                0i32,
                ),
            forall|c: int| 0 <= c < p.roots@.len() ==> (#[trigger] p.roots@[c]) < root,
        decreases faces - root,
    {
        if p.piece_of[root] == usize::MAX {
            let c: usize = p.roots.len();
            let ghost before = p;
            p.piece_of.set(root, c);
            p.roots.push(root);
            let ghost stack = seq![root];
            proof {
                assert forall|f: int|
                    0 <= f < faces && (#[trigger] p.piece_of@[f]) != usize::MAX implies reached(
                    face_of@,
                    wind@,
                    p.piece_of@,
                    p.offset@,
                    p.roots@,
                    f,
                ) && size(p.offset@[f].0) <= marked(wind@, used@, wind@.len() as int).0 && size(
                    p.offset@[f].1,
                ) <= marked(wind@, used@, wind@.len() as int).1 by {
                    if f == root {
                        assert(before.offset@[f] == (0i32, 0i32)) by {
                            assert(before.piece_of@[f] == usize::MAX);
                        }
                        let w = Seq::<int>::empty();
                        assert(leads(face_of@, w, root as int, root as int));
                        assert(gain(wind@, w) == (0int, 0int));
                    } else {
                        assert(before.piece_of@[f] != usize::MAX);
                        assert(reached(
                            face_of@,
                            wind@,
                            before.piece_of@,
                            before.offset@,
                            before.roots@,
                            f,
                        ));
                    }
                }
                assert forall|h: int|
                    0 <= h < face_of@.len() && p.piece_of@[face_of@[h] as int] != usize::MAX
                        && face_of@[h] != -1 && !stack.contains(
                        face_of@[h],
                    ) implies #[trigger] joins(face_of@, p.piece_of@, h) by {
                    assert(stack[0] == root);
                    assert(face_of@[h] != root);
                    assert(before.piece_of@[face_of@[h] as int] != usize::MAX);
                    assert(!Seq::<usize>::empty().contains(face_of@[h]));
                    assert(joins(face_of@, before.piece_of@, h));
                    assert(face_of@[halfedge::twin(h)] != root);
                }
                assert forall|k: int| 0 <= k < p.roots@.len() implies (#[trigger] p.roots@[k])
                    < faces && p.piece_of@[p.roots@[k] as int] == k by {
                    if k < c {
                        assert(before.piece_of@[before.roots@[k] as int] == k);
                    }
                }
                assert forall|k: int, d: int| 0 <= k < d < p.roots@.len() implies (
                #[trigger] p.roots@[k]) < (#[trigger] p.roots@[d]) by {
                    if d == c {
                        assert(before.roots@[k] < root);
                    } else {
                        assert(before.roots@[k] < before.roots@[d]);
                    }
                }
                assert forall|e: int| #![trigger used@[e]] 0 <= e < used@.len() && used@[e] implies p.piece_of@[face_of@[2
                    * e] as int] != usize::MAX && p.piece_of@[face_of@[2 * e + 1] as int]
                    != usize::MAX by {
                    assert(before.piece_of@[face_of@[2 * e] as int] != usize::MAX);
                }
                assert(searching(face_of@, wind@, p, c as int, stack, -1, used@));
            }
            let ghost middle = p;
            used = explore(face_of, wind, &by_face, &mut p, root, c, used);
            proof {
                assert forall|f: int| 0 <= f < root + 1 implies (#[trigger] p.piece_of@[f])
                    != usize::MAX by {
                    assert(middle.piece_of@[f] != usize::MAX);
                }
            }
        }
        root += 1;
    }
    proof {
        lemma_marked_bound(wind@, used@, wind@.len() as int);
        assert forall|h: int| 0 <= h < face_of@.len() implies #[trigger] joins(
            face_of@,
            p.piece_of@,
            h,
        ) by {
            assert(p.piece_of@[face_of@[h] as int] != usize::MAX);
        }
        assert forall|f: int| 0 <= f < faces implies #[trigger] reached(
            face_of@,
            wind@,
            p.piece_of@,
            p.offset@,
            p.roots@,
            f,
        ) by {
            assert(p.piece_of@[f] != usize::MAX);
        }
        assert forall|f: int| 0 <= f < faces implies -0x1fff_ffff <= (#[trigger] p.offset@[f]).0
            <= 0x1fff_ffff && -0x1fff_ffff <= p.offset@[f].1 <= 0x1fff_ffff by {
            assert(p.piece_of@[f] != usize::MAX);
        }
    }
    p
}

/// The faces that vote for one pair of winding numbers of a piece's first face.
pub struct Ballot {
    pub base: (i32, i32),
    pub faces: Vec<usize>,
}

/// The faces that vote for one pair.
pub struct BallotModel {
    pub base: (i32, i32),
    pub faces: Seq<usize>,
}

/// Ballots as models, in order.
pub open spec fn ballots_view(b: Seq<Ballot>) -> Seq<BallotModel> {
    Seq::new(b.len(), |i: int| BallotModel { base: b[i].base, faces: b[i].faces@ })
}

/// What the sample of face `f` says the winding numbers of the first face of
/// its piece are.
pub open spec fn implied(offset: Seq<(i32, i32)>, f: int, sample: (i32, i32)) -> (i32, i32) {
    ((sample.0 - offset[f].0) as i32, (sample.1 - offset[f].1) as i32)
}

/// The first of the ballots `i..` for `base`, or their number.
pub open spec fn ballot_for(b: Seq<BallotModel>, i: int, base: (i32, i32)) -> int
    decreases b.len() - i,
{
    if i >= b.len() || b[i].base == base {
        i
    } else {
        ballot_for(b, i + 1, base)
    }
}

/// Ballots with the vote of face `f` for `base` added.
pub open spec fn with_vote(b: Seq<BallotModel>, base: (i32, i32), f: usize) -> Seq<BallotModel> {
    let k = ballot_for(b, 0, base);
    if 0 <= k < b.len() {
        b.update(k, BallotModel { base, faces: b[k].faces.push(f) })
    } else {
        b.push(BallotModel { base, faces: seq![f] })
    }
}

/// The ballots of piece `c` after the first `n` faces have voted, each face
/// that has a sample.
pub open spec fn tally(
    p: Pieces,
    samples: Seq<Option<(i32, i32)>>,
    c: int,
    n: int,
) -> Seq<BallotModel>
    decreases n,
{
    if n <= 0 {
        Seq::empty()
    } else {
        let before = tally(p, samples, c, n - 1);
        match samples[n - 1] {
            Some(w) => if p.piece_of@[n - 1] == c {
                with_vote(before, implied(p.offset@, n - 1, w), (n - 1) as usize)
            } else {
                before
            },
            None => before,
        }
    }
}

/// A winding number that leaves room for the offsets.
pub open spec fn moderate(w: (i32, i32)) -> bool {
    -0x1fff_ffff <= w.0 <= 0x1fff_ffff && -0x1fff_ffff <= w.1 <= 0x1fff_ffff
}

/// Collects the votes: one per face that has a sample, grouped by what they say
/// of the first face of their piece.
pub fn ballots(p: &Pieces, samples: &Vec<Option<(i32, i32)>>) -> (votes: Vec<Vec<Ballot>>)
    requires
        p.piece_of@.len() == samples@.len(),
        p.offset@.len() == samples@.len(),
        forall|f: int|
            0 <= f < p.piece_of@.len() ==> (#[trigger] p.piece_of@[f]) < p.roots@.len(),
        forall|f: int| 0 <= f < p.offset@.len() ==> moderate(#[trigger] p.offset@[f]),
        forall|f: int|
            0 <= f < samples@.len() ==> ((#[trigger] samples@[f]) matches Some(w) ==> moderate(w)),
    ensures
        votes@.len() == p.roots@.len(),
        forall|c: int|
            0 <= c < votes@.len() ==> ballots_view((#[trigger] votes@[c])@) == tally(
                *p,
                samples@,
                c,
                samples@.len() as int,
            ),
{
    let mut votes: Vec<Vec<Ballot>> = Vec::new();
    let pieces: usize = p.roots.len();
    let mut c: usize = 0;
    while c < pieces
        invariant
            c <= pieces,
            votes@.len() == c,
            forall|k: int| 0 <= k < c ==> (#[trigger] votes@[k])@ == Seq::<Ballot>::empty(),
        decreases pieces - c,
    {
        votes.push(Vec::new());
        c += 1;
    }
    assert forall|k: int| 0 <= k < votes@.len() implies ballots_view((#[trigger] votes@[k])@)
        == tally(*p, samples@, k, 0) by {
        assert(ballots_view(votes@[k]@) =~= Seq::<BallotModel>::empty());
    }
    let n: usize = samples.len();
    let mut f: usize = 0;
    while f < n
        invariant
            f <= n == samples@.len() == p.piece_of@.len() == p.offset@.len(),
            votes@.len() == p.roots@.len(),
            forall|f: int|
                0 <= f < p.piece_of@.len() ==> (#[trigger] p.piece_of@[f]) < p.roots@.len(),
            forall|f: int| 0 <= f < p.offset@.len() ==> moderate(#[trigger] p.offset@[f]),
            forall|f: int|
                0 <= f < samples@.len() ==> ((#[trigger] samples@[f]) matches Some(w) ==> moderate(
                    w,
                )),
            forall|c: int|
                0 <= c < votes@.len() ==> ballots_view((#[trigger] votes@[c])@) == tally(
                    *p,
                    samples@,
                    c,
                    f as int,
                ),
        decreases n - f,
    {
        let ghost before = votes@;
        if let Some(w) = samples[f] {
            let o = p.offset[f];
            assert(moderate(o) && moderate(w)) by {
                assert(moderate(p.offset@[f as int]));
                assert(samples@[f as int] == Some(w));
            }
            let base: (i32, i32) = (w.0 - o.0, w.1 - o.1);
            let c: usize = p.piece_of[f];
            vote(&mut votes[c], base, f);
            proof {
                assert forall|k: int| 0 <= k < votes@.len() implies ballots_view(
                    (#[trigger] votes@[k])@,
                ) == tally(*p, samples@, k, f + 1) by {
                    assert(ballots_view(before[k]@) == tally(*p, samples@, k, f as int));
                    if k != c {
                        assert(votes@[k] == before[k]);
                    }
                }
            }
        }
        f += 1;
    }
    votes
}

fn vote(list: &mut Vec<Ballot>, base: (i32, i32), f: usize)
    ensures
        ballots_view(final(list)@) == with_vote(ballots_view(old(list)@), base, f),
{
    let ghost b = ballots_view(list@);
    let n: usize = list.len();
    let mut k: usize = 0;
    while k < n && !(list[k].base.0 == base.0 && list[k].base.1 == base.1)
        invariant
            k <= n == list@.len(),
            b == ballots_view(list@),
            list == old(list),
            ballot_for(b, 0, base) == ballot_for(b, k as int, base),
        decreases n - k,
    {
        assert(b[k as int].base != base);
        k += 1;
    }
    if k < n {
        assert(b[k as int].base == base);
        list[k].faces.push(f);
        assert(ballots_view(list@) =~= with_vote(b, base, f));
    } else {
        let mut faces: Vec<usize> = Vec::new();
        faces.push(f);
        assert(faces@ =~= seq![f]);
        list.push(Ballot { base, faces });
        assert(ballots_view(list@) =~= with_vote(b, base, f));
    }
}

/// Whether one pair is at most another, first numbers first.
pub open spec fn pair_at_most(a: (i32, i32), b: (i32, i32)) -> bool {
    a.0 < b.0 || (a.0 == b.0 && a.1 <= b.1)
}

/// The leader among the first `n` candidates: the heavier one stays, and of two
/// equally heavy ones the smaller.
pub open spec fn leader(list: Seq<((i32, i32), Real)>, n: int) -> Option<((i32, i32), Real)>
    decreases n,
{
    if n <= 0 {
        None
    } else {
        let (b, w) = list[n - 1];
        match leader(list, n - 1) {
            Some((bb, bw)) => if w.less(bw) || (bw.equals(w) && pair_at_most(bb, b)) {
                Some((bb, bw))
            } else {
                Some((b, w))
            },
            None => Some((b, w)),
        }
    }
}

/// The winding numbers the ballots elect, each with its clearances summed up:
/// those with the most clearance behind them. With no ballot at all, none wind.
pub fn elect(list: &Vec<((i32, i32), Real)>) -> (base: (i32, i32))
    ensures
        base == (match leader(list@, list@.len() as int) {
            Some((b, w)) => b,
            None => (0i32, 0i32),
        }),
{
    let mut best: Option<((i32, i32), Real)> = None;
    let mut i: usize = 0;
    while i < list.len()
        invariant
            i <= list@.len(),
            best == leader(list@, i as int),
        decreases list@.len() - i,
    {
        let (b, w) = list[i];
        let stays = match best {
            Some((bb, bw)) => w.below(bw) || (bw.equal(w) && (bb.0 < b.0 || (bb.0 == b.0 && bb.1
                <= b.1))),
            None => false,
        };
        if !stays {
            best = Some((b, w));
        }
        i += 1;
    }
    match best {
        Some((b, _)) => b,
        None => (0, 0),
    }
}

/// The elected pair has the most clearance behind it, and among equals it is
/// the smallest: the order of the ballots does not matter.
pub proof fn the_heaviest_ballot_wins(list: Seq<((i32, i32), Real)>, n: int, i: int)
    requires
        0 <= i < n <= list.len(),
        forall|k: int| 0 <= k < n ==> !(#[trigger] list[k]).1.nan(),
    ensures
        leader(list, n) matches Some((b, w)) && list[i].1.at_most(w) && (list[i].1.equals(w)
            ==> pair_at_most(b, list[i].0)) && exists|k: int| 0 <= k < n && #[trigger] list[k] == (b, w),
    decreases n,
{
    if n > 1 {
        if i < n - 1 {
            the_heaviest_ballot_wins(list, n - 1, i);
        } else {
            the_heaviest_ballot_wins(list, n - 1, 0);
        }
        let (bb, bw) = leader(list, n - 1)->0;
        let k = choose|k: int| 0 <= k < n - 1 && #[trigger] list[k] == (bb, bw);
        assert(!list[k].1.nan());
        assert(!list[n - 1].1.nan());
        assert(list[n - 1] == list[n - 1]);
    } else {
        assert(leader(list, 0) is None);
        assert(list[0] == (list[0].0, list[0].1));
    }
}

/// The winding numbers of every face, given those of each piece's first face.
pub fn windings(p: &Pieces, bases: &Vec<(i32, i32)>) -> (w: Vec<(i32, i32)>)
    requires
        p.piece_of@.len() == p.offset@.len(),
        bases@.len() == p.roots@.len(),
        forall|f: int|
            0 <= f < p.piece_of@.len() ==> (#[trigger] p.piece_of@[f]) < p.roots@.len(),
        forall|f: int| 0 <= f < p.offset@.len() ==> moderate(#[trigger] p.offset@[f]),
        forall|c: int|
            0 <= c < bases@.len() ==> -0x3fff_fffe <= (#[trigger] bases@[c]).0 <= 0x3fff_fffe
                && -0x3fff_fffe <= bases@[c].1 <= 0x3fff_fffe,
    ensures
        w@.len() == p.offset@.len(),
        forall|f: int|
            0 <= f < w@.len() ==> (#[trigger] w@[f]).0 == bases@[p.piece_of@[f] as int].0
                + p.offset@[f].0 && w@[f].1 == bases@[p.piece_of@[f] as int].1 + p.offset@[f].1,
{
    let mut w: Vec<(i32, i32)> = Vec::new();
    let n: usize = p.offset.len();
    let mut f: usize = 0;
    while f < n
        invariant
            f <= n == p.offset@.len() == p.piece_of@.len(),
            bases@.len() == p.roots@.len(),
            forall|f: int|
                0 <= f < p.piece_of@.len() ==> (#[trigger] p.piece_of@[f]) < p.roots@.len(),
            forall|f: int| 0 <= f < p.offset@.len() ==> moderate(#[trigger] p.offset@[f]),
            forall|c: int|
                0 <= c < bases@.len() ==> -0x3fff_fffe <= (#[trigger] bases@[c]).0 <= 0x3fff_fffe
                    && -0x3fff_fffe <= bases@[c].1 <= 0x3fff_fffe,
            w@.len() == f,
            forall|k: int|
                0 <= k < f ==> (#[trigger] w@[k]).0 == bases@[p.piece_of@[k] as int].0
                    + p.offset@[k].0 && w@[k].1 == bases@[p.piece_of@[k] as int].1
                    + p.offset@[k].1,
        decreases n - f,
    {
        let b = bases[p.piece_of[f]];
        let o = p.offset[f];
        assert(moderate(p.offset@[f as int]));
        w.push((b.0 + o.0, b.1 + o.1));
        f += 1;
    }
    w
}

/// Winding numbers made of one pair per piece and the offsets.
pub open spec fn assembled(p: Pieces, bases: Seq<Pair>) -> Seq<Pair> {
    Seq::new(
        p.offset@.len(),
        |f: int|
            (
                bases[p.piece_of@[f] as int].0 + p.offset@[f].0,
                bases[p.piece_of@[f] as int].1 + p.offset@[f].1,
            ),
    )
}

/// Where winding numbers that agree across every edge exist at all, the ones
/// assembled agree too, whatever the votes said; and if each piece's first face
/// was given its true pair, they are the true ones.
pub proof fn no_face_disagrees_with_its_neighbour(
    face_of: Seq<usize>,
    wind: Seq<(i32, i32)>,
    p: Pieces,
    bases: Seq<Pair>,
    truth: Seq<Pair>,
)
    requires
        face_of.len() % 2 == 0,
        are_pieces(face_of, wind, truth.len() as int, p),
        forall|h: int| 0 <= h < face_of.len() ==> (#[trigger] face_of[h]) < truth.len(),
        agrees(face_of, wind, truth),
    ensures
        agrees(face_of, wind, assembled(p, bases)),
        (forall|c: int|
            0 <= c < p.roots@.len() ==> #[trigger] bases[c] == truth[p.roots@[c] as int])
            ==> assembled(p, bases) == truth,
{
    let w = assembled(p, bases);
    assert forall|f: int| 0 <= f < truth.len() implies #[trigger] w[f] == (
        bases[p.piece_of@[f] as int].0 + truth[f].0 - truth[p.roots@[p.piece_of@[f] as int] as int].0,
        bases[p.piece_of@[f] as int].1 + truth[f].1 - truth[p.roots@[p.piece_of@[f] as int] as int].1,
    ) by {
        assert(reached(face_of, wind, p.piece_of@, p.offset@, p.roots@, f));
        let root = p.roots@[p.piece_of@[f] as int] as int;
        let by = (p.offset@[f].0 as int, p.offset@[f].1 as int);
        let way = choose|way: Seq<int>| #[trigger]
            leads(face_of, way, root, f) && gain(wind, way) == by;
        every_way_agrees(face_of, wind, truth, way, root, f);
    }
    assert forall|h: int| 0 <= h < face_of.len() implies #[trigger] agrees_at(
        face_of,
        wind,
        w,
        h,
    ) by {
        assert(agrees_at(face_of, wind, truth, h));
        assert(joins(face_of, p.piece_of@, h));
        assert(0 <= halfedge::twin(h) < face_of.len());
        let a = face_of[h] as int;
        let b = face_of[halfedge::twin(h)] as int;
        assert(0 <= a < truth.len() && 0 <= b < truth.len());
        assert(w[a] == w[a] && w[b] == w[b]);
    }
    if forall|c: int| 0 <= c < p.roots@.len() ==> #[trigger] bases[c] == truth[p.roots@[c] as int] {
        assert forall|f: int| 0 <= f < truth.len() implies w[f] == truth[f] by {
            assert(reached(face_of, wind, p.piece_of@, p.offset@, p.roots@, f));
            let c = p.piece_of@[f] as int;
            assert(bases[c] == truth[p.roots@[c] as int]);
        }
        assert(w =~= truth);
    }
}

/// Crossing an edge to its left or back over it undo each other: a half-edge and
/// its twin change the winding numbers by opposite amounts, each by what the edge
/// winds. The half-edge along the edge loses it, its twin gains it.
pub proof fn crossing_back_undoes_crossing(wind: Seq<(i32, i32)>, e: int)
    requires
        0 <= e < wind.len(),
    ensures
        crossing(wind, 2 * e) == (-(wind[e].0 as int), -(wind[e].1 as int)),
        crossing(wind, 2 * e + 1) == (wind[e].0 as int, wind[e].1 as int),
        crossing(wind, 2 * e).0 + crossing(wind, halfedge::twin(2 * e)).0 == 0,
        crossing(wind, 2 * e).1 + crossing(wind, halfedge::twin(2 * e)).1 == 0,
{
}

/// A sample of a face speaks for the base that, carried to that face, gives the
/// sample back.
pub proof fn a_sample_speaks_for_its_base(
    offset: Seq<(i32, i32)>,
    f: int,
    sample: (i32, i32),
)
    requires
        0 <= f < offset.len(),
        moderate(offset[f]),
        moderate(sample),
    ensures
        implied(offset, f, sample).0 + offset[f].0 == sample.0,
        implied(offset, f, sample).1 + offset[f].1 == sample.1,
{
}

/// Every sampled face of a piece has one vote, on the ballot of the base it
/// speaks for, and no other face has any.
pub proof fn every_sampled_face_votes_once(
    p: Pieces,
    samples: Seq<Option<(i32, i32)>>,
    c: int,
    n: int,
    f: int,
)
    requires
        0 <= n <= samples.len() <= usize::MAX,
        0 <= f < samples.len(),
    ensures
        f < n && samples[f] is Some && p.piece_of@[f] == c ==> exists|k: int|
            0 <= k < tally(p, samples, c, n).len() && (#[trigger] tally(p, samples, c, n)[k]).base
                == implied(p.offset@, f, samples[f]->0) && tally(p, samples, c, n)[k].faces.contains(
                f as usize,
            ),
        forall|k: int|
            0 <= k < tally(p, samples, c, n).len() ==> ((#[trigger] tally(p, samples, c, n)[k])
                .faces.contains(f as usize) ==> f < n && samples[f] is Some && p.piece_of@[f] == c
                && tally(p, samples, c, n)[k].base == implied(p.offset@, f, samples[f]->0)),
    decreases n,
{
    if n > 0 {
        every_sampled_face_votes_once(p, samples, c, n - 1, f);
        let before = tally(p, samples, c, n - 1);
        let now = tally(p, samples, c, n);
        if samples[n - 1] is Some && p.piece_of@[n - 1] == c {
            let base = implied(p.offset@, n - 1, samples[n - 1]->0);
            let at = ballot_for(before, 0, base);
            lemma_ballot_for(before, 0, base);
            let voter = (n - 1) as usize;
            assert(now == with_vote(before, base, voter));
            let list = now[at].faces;
            if at < before.len() {
                assert(list == before[at].faces.push(voter));
                assert(list[list.len() - 1] == voter);
            } else {
                assert(list == seq![voter]);
                assert(list[0] == voter);
            }
            assert(now[at].base == base && now[at].faces.contains(voter));
            if f < n - 1 && samples[f] is Some && p.piece_of@[f] == c {
                let k = choose|k: int|
                    0 <= k < before.len() && (#[trigger] before[k]).base == implied(
                        p.offset@,
                        f,
                        samples[f]->0,
                    ) && before[k].faces.contains(f as usize);
                let i = choose|i: int|
                    0 <= i < before[k].faces.len() && before[k].faces[i] == f as usize;
                assert(now[k].faces[i] == f as usize);
                assert(now[k].base == before[k].base);
            }
            assert forall|k: int|
                0 <= k < now.len() && (#[trigger] now[k]).faces.contains(f as usize) implies f < n
                && samples[f] is Some && p.piece_of@[f] == c && now[k].base == implied(
                p.offset@,
                f,
                samples[f]->0,
            ) by {
                if now[k].faces.contains(f as usize) {
                    let i = choose|i: int|
                        0 <= i < now[k].faces.len() && now[k].faces[i] == f as usize;
                    if k == at && i == list.len() - 1 {
                        assert(f == n - 1);
                    } else {
                        assert(before[k].faces[i] == f as usize);
                        assert(before[k].faces.contains(f as usize));
                    }
                }
            }
        }
    }
}

proof fn lemma_ballot_for(b: Seq<BallotModel>, i: int, base: (i32, i32))
    requires
        0 <= i <= b.len(),
    ensures
        i <= ballot_for(b, i, base) <= b.len(),
        ballot_for(b, i, base) < b.len() ==> b[ballot_for(b, i, base)].base == base,
        forall|k: int| i <= k < ballot_for(b, i, base) ==> (#[trigger] b[k]).base != base,
    decreases b.len() - i,
{
    if i < b.len() && b[i].base != base {
        lemma_ballot_for(b, i + 1, base);
    }
}

/// Pairs are in one order, their first numbers before their second ones.
pub proof fn pairs_are_in_one_order(a: (i32, i32), b: (i32, i32), c: (i32, i32))
    ensures
        a.0 < b.0 ==> pair_at_most(a, b) && !pair_at_most(b, a),
        a.0 == b.0 && a.1 < b.1 ==> pair_at_most(a, b) && !pair_at_most(b, a),
        pair_at_most(a, b) && pair_at_most(b, a) <==> a == b,
        pair_at_most(a, b) && pair_at_most(b, c) ==> pair_at_most(a, c),
{
}

} // verus!
