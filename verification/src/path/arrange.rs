//! Arrangements from edges: the order of the edges around each vertex, and the
//! election of the winding numbers.

use vstd::prelude::*;
use crate::geom::Point;
use crate::geom::Real;
use crate::path::boolean;
use crate::path::boolean::Arrangement;
use crate::path::boolean::Edge;
use crate::path::halfedge;
use crate::path::outline::Segment;
use crate::path::winding;
use crate::path::winding::Ballot;
use crate::path::winding::BallotModel;

verus! {

/// Positive infinity.
pub const INFINITY: u64 = 0x7ff0_0000_0000_0000;

/// The least of the first `n` half-edges' reaches among those that leave a
/// vertex: the radius at which the edges around it are compared, so that the
/// sample stays on every edge.
pub open spec fn radius(edges: Seq<Edge>, reach: Seq<Real>, v: int, n: int) -> Real
    decreases n,
{
    if n <= 0 {
        Real { bits: INFINITY }
    } else {
        let before = radius(edges, reach, v, n - 1);
        if boolean::leaving(edges, n - 1) == v && reach[n - 1].less(before) {
            reach[n - 1]
        } else {
            before
        }
    }
}

/// Whether `keys` order the half-edges around the vertices that they leave, each
/// compared at the radius of its vertex.
pub open spec fn keyed<R: Fn(Segment) -> Real, K: Fn(Segment, Real) -> (Real, Real)>(
    reach: R,
    key: K,
    edges: Seq<Edge>,
    reaches: Seq<Real>,
    keys: Seq<(Real, Real)>,
) -> bool {
    &&& reaches.len() == 2 * edges.len()
    &&& keys.len() == 2 * edges.len()
    &&& forall|h: int|
        0 <= h < 2 * edges.len() ==> call_ensures(
            reach,
            (boolean::along(edges, h),),
            #[trigger] reaches[h],
        )
    &&& forall|h: int|
        0 <= h < 2 * edges.len() ==> call_ensures(
            key,
            (
                boolean::along(edges, h),
                radius(edges, reaches, boolean::leaving(edges, h), reaches.len() as int),
            ),
            #[trigger] keys[h],
        )
}

/// The segment half-edge `h` runs along.
fn along_of(edges: &Vec<Edge>, h: usize) -> (s: Segment)
    requires
        h < 2 * edges@.len(),
    ensures
        s == boolean::along(edges@, h as int),
{
    let e = edges[h / 2];
    if h % 2 == 0 {
        e.seg
    } else {
        e.seg.reverse()
    }
}

/// The vertex half-edge `h` leaves.
fn leaving_of(edges: &Vec<Edge>, h: usize) -> (v: usize)
    requires
        h < 2 * edges@.len(),
    ensures
        v == boolean::leaving(edges@, h as int),
{
    let e = edges[h / 2];
    if h % 2 == 0 {
        e.v0
    } else {
        e.v1
    }
}

/// The arrangement of edges that meet only at their ends. `reach` is how far
/// from its start an edge may be sampled, and `key` the direction in which it
/// leaves, sampled at a radius.
pub fn arrange<R: Fn(Segment) -> Real, K: Fn(Segment, Real) -> (Real, Real)>(
    verts: Vec<Point>,
    edges: Vec<Edge>,
    reach: &R,
    key: &K,
) -> (a: Arrangement)
    requires
        2 * edges@.len() < usize::MAX,
        forall|e: int|
            0 <= e < edges@.len() ==> (#[trigger] edges@[e]).v0 < verts@.len() && edges@[e].v1
                < verts@.len(),
        winding::weight(boolean::winds_of(edges@)).0 <= 0x1fff_ffff,
        winding::weight(boolean::winds_of(edges@)).1 <= 0x1fff_ffff,
        forall|s: Segment| call_requires(reach, (s,)),
        forall|s: Segment, r: Real| call_requires(key, (s, r)),
        forall|s: Segment, r: Real, k: (Real, Real)| #[trigger]
            call_ensures(key, (s, r), k) ==> !k.0.nan() && !k.1.nan(),
    ensures
        a.wf(),
        a.points() == verts@,
        a.all_edges() == edges@,
        a.winds().len() == 0,
        exists|reaches: Seq<Real>, keys: Seq<(Real, Real)>| #[trigger]
            keyed(*reach, *key, edges@, reaches, keys) && halfedge::follows(
                halfedge::graph(boolean::ends_of(edges@), keys),
                a.follower(),
            ),
{
    let n: usize = 2 * edges.len();
    let mut least: Vec<Real> = Vec::new();
    let mut v: usize = 0;
    while v < verts.len()
        invariant
            v <= verts@.len(),
            least@.len() == v,
            forall|k: int| 0 <= k < v ==> (#[trigger] least@[k]) == (Real { bits: INFINITY }),
        decreases verts.len() - v,
    {
        least.push(Real { bits: INFINITY });
        v += 1;
    }
    let mut reaches: Vec<Real> = Vec::new();
    let mut h: usize = 0;
    while h < n
        invariant
            h <= n == 2 * edges@.len(),
            reaches@.len() == h,
            least@.len() == verts@.len(),
            forall|s: Segment| call_requires(reach, (s,)),
            forall|e: int|
                0 <= e < edges@.len() ==> (#[trigger] edges@[e]).v0 < verts@.len() && edges@[e].v1
                    < verts@.len(),
            forall|k: int|
                0 <= k < h ==> call_ensures(
                    reach,
                    (boolean::along(edges@, k),),
                    #[trigger] reaches@[k],
                ),
            forall|k: int|
                0 <= k < verts@.len() ==> (#[trigger] least@[k]) == radius(
                    edges@,
                    reaches@,
                    k,
                    h as int,
                ),
        decreases n - h,
    {
        let ghost before = reaches@;
        let r = reach(along_of(&edges, h));
        let v: usize = leaving_of(&edges, h);
        assert(v < verts@.len()) by {
            assert(edges@[h as int / 2].v0 < verts@.len());
        }
        reaches.push(r);
        proof {
            assert forall|k: int| 0 <= k < verts@.len() implies (#[trigger] least@[k]) == radius(
                edges@,
                reaches@,
                k,
                h as int,
            ) by {
                lemma_radius(edges@, before, reaches@, k, h as int);
            }
        }
        if r.below(least[v]) {
            least.set(v, r);
        }
        h += 1;
    }
    let mut keys: Vec<(Real, Real)> = Vec::new();
    h = 0;
    while h < n
        invariant
            h <= n == 2 * edges@.len(),
            keys@.len() == h,
            least@.len() == verts@.len(),
            forall|s: Segment, r: Real| call_requires(key, (s, r)),
            forall|s: Segment, r: Real, k: (Real, Real)| #[trigger]
                call_ensures(key, (s, r), k) ==> !k.0.nan() && !k.1.nan(),
            forall|e: int|
                0 <= e < edges@.len() ==> (#[trigger] edges@[e]).v0 < verts@.len() && edges@[e].v1
                    < verts@.len(),
            forall|k: int|
                0 <= k < verts@.len() ==> (#[trigger] least@[k]) == radius(
                    edges@,
                    reaches@,
                    k,
                    n as int,
                ),
            forall|k: int|
                0 <= k < h ==> call_ensures(
                    key,
                    (
                        boolean::along(edges@, k),
                        radius(edges@, reaches@, boolean::leaving(edges@, k), n as int),
                    ),
                    #[trigger] keys@[k],
                ),
            halfedge::ordered(keys@),
        decreases n - h,
    {
        let v: usize = leaving_of(&edges, h);
        assert(v < verts@.len()) by {
            assert(edges@[h as int / 2].v0 < verts@.len());
        }
        let k = key(along_of(&edges, h), least[v]);
        keys.push(k);
        h += 1;
    }
    assert(keyed(*reach, *key, edges@, reaches@, keys@));
    Arrangement::linked(verts, edges, &keys)
}

proof fn lemma_radius(edges: Seq<Edge>, a: Seq<Real>, b: Seq<Real>, v: int, n: int)
    requires
        0 <= n <= a.len(),
        n <= b.len(),
        forall|k: int| 0 <= k < n ==> a[k] == b[k],
    ensures
        radius(edges, a, v, n) == radius(edges, b, v, n),
    decreases n,
{
    if n > 0 {
        lemma_radius(edges, a, b, v, n - 1);
    }
}

/// What a point inside a face says: the winding numbers there, and the clearance
/// of the point from every edge.
pub type Sample = ((i32, i32), Real);

/// The winding numbers of samples.
pub open spec fn counts(samples: Seq<Option<Sample>>) -> Seq<Option<(i32, i32)>> {
    Seq::new(
        samples.len(),
        |f: int|
            match samples[f] {
                Some((w, clear)) => Some(w),
                None => None,
            },
    )
}

/// The clearance of the sample of a face.
pub open spec fn clearance(samples: Seq<Option<Sample>>, f: int) -> Real {
    match samples[f] {
        Some((w, clear)) => clear,
        None => Real { bits: 0 },
    }
}

/// Whether the running totals of the clearances of faces are `sums`.
pub open spec fn adds_up<T: Fn(Real, Real) -> Real>(
    total: T,
    samples: Seq<Option<Sample>>,
    faces: Seq<usize>,
    sums: Seq<Real>,
) -> bool {
    &&& 0 < faces.len() == sums.len()
    &&& sums[0] == clearance(samples, faces[0] as int)
    &&& forall|k: int|
        1 <= k < faces.len() ==> call_ensures(
            total,
            (sums[k - 1], clearance(samples, faces[k] as int)),
            #[trigger] sums[k],
        )
}

/// Whether a ballot weighs `w`: the clearances of the faces that cast it, added
/// in order.
pub open spec fn weighs<T: Fn(Real, Real) -> Real>(
    total: T,
    samples: Seq<Option<Sample>>,
    faces: Seq<usize>,
    w: Real,
) -> bool {
    exists|sums: Seq<Real>| #[trigger] adds_up(total, samples, faces, sums) && w == sums.last()
}

/// Whether the candidates of a piece are its ballots with their weights.
pub open spec fn weighed<T: Fn(Real, Real) -> Real>(
    total: T,
    samples: Seq<Option<Sample>>,
    ballots: Seq<BallotModel>,
    list: Seq<((i32, i32), Real)>,
) -> bool {
    &&& list.len() == ballots.len()
    &&& forall|i: int|
        0 <= i < list.len() ==> (#[trigger] list[i]).0 == ballots[i].base && weighs(
            total,
            samples,
            ballots[i].faces,
            list[i].1,
        )
}

/// Whether the candidates of every piece are its ballots with their weights.
pub open spec fn all_weighed<T: Fn(Real, Real) -> Real>(
    total: T,
    samples: Seq<Option<Sample>>,
    a: Arrangement,
    lists: Seq<Seq<((i32, i32), Real)>>,
) -> bool {
    &&& lists.len() == a.parts().roots@.len()
    &&& forall|c: int|
        0 <= c < lists.len() ==> weighed(
            total,
            samples,
            winding::tally(a.parts(), counts(samples), c, samples.len() as int),
            #[trigger] lists[c],
        )
}

/// What holds of every ballot: someone cast it, those who did are faces, and it
/// leaves room for the offsets.
pub open spec fn is_ballot(b: BallotModel, faces: int) -> bool {
    &&& b.faces.len() > 0
    &&& forall|k: int| 0 <= k < b.faces.len() ==> (#[trigger] b.faces[k]) < faces
    &&& -0x3fff_fffe <= b.base.0 <= 0x3fff_fffe
    &&& -0x3fff_fffe <= b.base.1 <= 0x3fff_fffe
}

proof fn lemma_ballots(
    p: winding::Pieces,
    samples: Seq<Option<(i32, i32)>>,
    c: int,
    n: int,
    limit: int,
)
    requires
        0 <= n <= samples.len() <= usize::MAX,
        n <= limit,
        p.offset@.len() == samples.len(),
        forall|f: int| 0 <= f < p.offset@.len() ==> winding::moderate(#[trigger] p.offset@[f]),
        forall|f: int|
            0 <= f < samples.len() ==> ((#[trigger] samples[f]) matches Some(w)
                ==> winding::moderate(w)),
    ensures
        forall|i: int|
            0 <= i < winding::tally(p, samples, c, n).len() ==> is_ballot(
                #[trigger] winding::tally(p, samples, c, n)[i],
                limit,
            ),
    decreases n,
{
    if n > 0 {
        lemma_ballots(p, samples, c, n - 1, limit);
        let before = winding::tally(p, samples, c, n - 1);
        let now = winding::tally(p, samples, c, n);
        if let Some(w) = samples[n - 1] {
            if p.piece_of@[n - 1] == c {
                assert(winding::moderate(p.offset@[n - 1]));
                let base = winding::implied(p.offset@, n - 1, w);
                let k = winding::ballot_for(before, 0, base);
                assert forall|i: int| 0 <= i < now.len() implies is_ballot(
                    #[trigger] now[i],
                    limit,
                ) by {
                    if i < before.len() {
                        assert(is_ballot(before[i], limit));
                        if i == k && 0 <= k < before.len() {
                            let faces = before[k].faces.push((n - 1) as usize);
                            assert forall|j: int| 0 <= j < faces.len() implies (
                            #[trigger] faces[j]) < limit by {
                                if j < before[k].faces.len() {
                                    assert(before[k].faces[j] < limit);
                                }
                            }
                        }
                    }
                }
            }
        }
    }
}

/// The weight of a ballot.
fn weigh<T: Fn(Real, Real) -> Real>(samples: &Vec<Option<Sample>>, b: &Ballot, total: &T) -> (w: Real)
    requires
        b.faces@.len() > 0,
        forall|k: int| 0 <= k < b.faces@.len() ==> (#[trigger] b.faces@[k]) < samples@.len(),
        forall|x: Real, y: Real| call_requires(total, (x, y)),
    ensures
        weighs(*total, samples@, b.faces@, w),
{
    let mut w = Real { bits: 0 };
    let ghost mut sums: Seq<Real> = Seq::empty();
    let mut k: usize = 0;
    while k < b.faces.len()
        invariant
            k <= b.faces@.len(),
            sums.len() == k,
            k > 0 ==> w == sums.last(),
            k > 0 ==> adds_up(*total, samples@, b.faces@.take(k as int), sums),
            forall|k: int| 0 <= k < b.faces@.len() ==> (#[trigger] b.faces@[k]) < samples@.len(),
            forall|x: Real, y: Real| call_requires(total, (x, y)),
        decreases b.faces.len() - k,
    {
        let f: usize = b.faces[k];
        let clear = match &samples[f] {
            Some((count, clear)) => *clear,
            None => Real { bits: 0 },
        };
        assert(clear == clearance(samples@, f as int));
        let ghost before = sums;
        let ghost earlier = b.faces@.take(k as int);
        w = if k == 0 {
            clear
        } else {
            total(w, clear)
        };
        proof {
            sums = sums.push(w);
            let now = b.faces@.take(k + 1);
            assert forall|i: int| 1 <= i < now.len() implies call_ensures(
                total,
                (sums[i - 1], clearance(samples@, now[i] as int)),
                #[trigger] sums[i],
            ) by {
                if i < k {
                    assert(now[i] == earlier[i]);
                    assert(sums[i] == before[i] && sums[i - 1] == before[i - 1]);
                }
            }
            if k > 0 {
                assert(earlier[0] == now[0]);
            }
            assert(adds_up(*total, samples@, now, sums));
        }
        k += 1;
    }
    assert(b.faces@.take(k as int) =~= b.faces@);
    w
}

/// Winding numbers as pairs.
pub open spec fn pairs(winds: Seq<(i32, i32)>) -> Seq<(int, int)> {
    Seq::new(winds.len(), |f: int| (winds[f].0 as int, winds[f].1 as int))
}

/// Whether the faces of an arrangement have the winding numbers that are elected
/// for their pieces, with their own offsets.
pub open spec fn settled(
    a: Arrangement,
    lists: Seq<Seq<((i32, i32), Real)>>,
    winds: Seq<(i32, i32)>,
) -> bool {
    let p = a.parts();
    &&& winds.len() == a.cycles().len()
    &&& forall|f: int|
        0 <= f < winds.len() ==> {
            let base = boolean::elected(lists[p.piece_of@[f] as int]);
            &&& (#[trigger] winds[f]).0 == base.0 + p.offset@[f].0
            &&& winds[f].1 == base.1 + p.offset@[f].1
        }
}

/// Whatever the samples say, settling leaves no face at odds with its neighbour:
/// where winding numbers that agree across every edge exist at all, those that
/// are elected agree across every edge. And where the true pair is elected for
/// the first face of every piece, every face has its true winding numbers.
pub proof fn settling_keeps_neighbours_agreed(
    a: Arrangement,
    lists: Seq<Seq<((i32, i32), Real)>>,
    winds: Seq<(i32, i32)>,
    truth: Seq<(int, int)>,
)
    requires
        a.wf(),
        settled(a, lists, winds),
        truth.len() == a.cycles().len(),
        winding::agrees(a.side(), boolean::winds_of(a.all_edges()), truth),
    ensures
        winding::agrees(a.side(), boolean::winds_of(a.all_edges()), pairs(winds)),
        (forall|c: int|
            0 <= c < a.parts().roots@.len() ==> ({
                let base = boolean::elected(#[trigger] lists[c]);
                (base.0 as int, base.1 as int) == truth[a.parts().roots@[c] as int]
            })) ==> pairs(winds) == truth,
{
    let p = a.parts();
    let bases = Seq::new(
        p.roots@.len(),
        |c: int| (boolean::elected(lists[c]).0 as int, boolean::elected(lists[c]).1 as int),
    );
    assert forall|h: int| 0 <= h < a.side().len() implies (#[trigger] a.side()[h])
        < truth.len() by {
        assert(halfedge::are_faces(a.follower(), a.side(), a.cycles()));
    }
    winding::no_face_disagrees_with_its_neighbour(
        a.side(),
        boolean::winds_of(a.all_edges()),
        p,
        bases,
        truth,
    );
    assert forall|f: int| 0 <= f < winds.len() implies pairs(winds)[f] == winding::assembled(
        p,
        bases,
    )[f] by {
        assert(winding::reached(
            a.side(),
            boolean::winds_of(a.all_edges()),
            p.piece_of@,
            p.offset@,
            p.roots@,
            f,
        ));
        assert(winds[f] == winds[f]);
    }
    assert(pairs(winds) =~= winding::assembled(p, bases));
    if forall|c: int|
        0 <= c < p.roots@.len() ==> ({
            let base = boolean::elected(#[trigger] lists[c]);
            (base.0 as int, base.1 as int) == truth[p.roots@[c] as int]
        }) {
        assert forall|c: int| 0 <= c < p.roots@.len() implies #[trigger] bases[c]
            == truth[p.roots@[c] as int] by {
            let base = boolean::elected(lists[c]);
        }
    }
}

impl Arrangement {
    /// Gives every face its winding numbers. `samples` holds what was found at a
    /// point inside each face, for the faces that have a point far enough from
    /// every edge to trust.
    ///
    /// Each sample is a vote on the winding numbers of the first face of its
    /// piece, and the vote with the most clearance behind it wins: one thin face
    /// sampled on the wrong side cannot outweigh the rest, nor make a face
    /// disagree with its neighbour. `total` adds clearances.
    pub fn settle<T: Fn(Real, Real) -> Real>(
        &mut self,
        samples: &Vec<Option<Sample>>,
        total: &T,
    )
        requires
            old(self).wf(),
            samples@.len() == old(self).cycles().len(),
            forall|f: int|
                0 <= f < samples@.len() ==> ((#[trigger] samples@[f]) matches Some((w, clear))
                    ==> winding::moderate(w)),
            forall|x: Real, y: Real| call_requires(total, (x, y)),
        ensures
            final(self).wf(),
            final(self).classified(),
            final(self).points() == old(self).points(),
            final(self).all_edges() == old(self).all_edges(),
            final(self).follower() == old(self).follower(),
            final(self).side() == old(self).side(),
            final(self).cycles() == old(self).cycles(),
            final(self).parts() == old(self).parts(),
            exists|lists: Seq<Seq<((i32, i32), Real)>>| #[trigger]
                all_weighed(*total, samples@, *old(self), lists) && settled(
                    *old(self),
                    lists,
                    final(self).winds(),
                ),
    {
        let n: usize = samples.len();
        let mut found: Vec<Option<(i32, i32)>> = Vec::new();
        let mut f: usize = 0;
        while f < n
            invariant
                f <= n == samples@.len(),
                found@.len() == f,
                forall|k: int| 0 <= k < f ==> (#[trigger] found@[k]) == counts(samples@)[k],
            decreases n - f,
        {
            let w: Option<(i32, i32)> = match &samples[f] {
                Some((w, clear)) => Some(*w),
                None => None,
            };
            found.push(w);
            f += 1;
        }
        assert(found@ =~= counts(samples@));
        assert forall|k: int| 0 <= k < found@.len() implies ((#[trigger] found@[k]) matches Some(w)
            ==> winding::moderate(w)) by {
            assert(samples@[k] matches Some((w, clear)) ==> winding::moderate(w));
        }
        let votes = self.ballots(&found);
        let ghost old_self = *self;
        let mut lists: Vec<Vec<((i32, i32), Real)>> = Vec::new();
        let mut c: usize = 0;
        while c < votes.len()
            invariant
                c <= votes@.len() == old_self.parts().roots@.len(),
                lists@.len() == c,
                old_self.wf(),
                n == samples@.len() == old_self.cycles().len(),
                found@ == counts(samples@),
                forall|k: int|
                    0 <= k < found@.len() ==> ((#[trigger] found@[k]) matches Some(w)
                        ==> winding::moderate(w)),
                forall|x: Real, y: Real| call_requires(total, (x, y)),
                forall|k: int|
                    0 <= k < votes@.len() ==> winding::ballots_view((#[trigger] votes@[k])@)
                        == winding::tally(old_self.parts(), found@, k, n as int),
                forall|k: int|
                    0 <= k < c ==> weighed(
                        *total,
                        samples@,
                        winding::tally(old_self.parts(), found@, k, n as int),
                        (#[trigger] lists@[k])@,
                    ),
                forall|k: int, i: int|
                    0 <= k < c && 0 <= i < lists@[k]@.len() ==> -0x3fff_fffe <= (
                    #[trigger] lists@[k]@[i]).0.0 <= 0x3fff_fffe && -0x3fff_fffe
                        <= lists@[k]@[i].0.1 <= 0x3fff_fffe,
            decreases votes.len() - c,
        {
            let ghost cast = winding::tally(old_self.parts(), found@, c as int, n as int);
            proof {
                lemma_ballots(old_self.parts(), found@, c as int, n as int, n as int);
                assert(winding::ballots_view(votes@[c as int]@) == cast);
            }
            let mut list: Vec<((i32, i32), Real)> = Vec::new();
            let mut i: usize = 0;
            while i < votes[c].len()
                invariant
                    c < votes@.len(),
                    i <= votes@[c as int]@.len(),
                    list@.len() == i,
                    n == samples@.len(),
                    winding::ballots_view(votes@[c as int]@) == cast,
                    forall|k: int| 0 <= k < cast.len() ==> is_ballot(#[trigger] cast[k], n as int),
                    forall|x: Real, y: Real| call_requires(total, (x, y)),
                    forall|k: int|
                        0 <= k < i ==> (#[trigger] list@[k]).0 == cast[k].base && weighs(
                            *total,
                            samples@,
                            cast[k].faces,
                            list@[k].1,
                        ),
                    forall|k: int|
                        0 <= k < i ==> -0x3fff_fffe <= (#[trigger] list@[k]).0.0 <= 0x3fff_fffe
                            && -0x3fff_fffe <= list@[k].0.1 <= 0x3fff_fffe,
                decreases votes@[c as int]@.len() - i,
            {
                let b = &votes[c][i];
                assert(is_ballot(cast[i as int], n as int));
                assert(cast[i as int].faces == b.faces@ && cast[i as int].base == b.base);
                let w = weigh(samples, b, total);
                list.push((b.base, w));
                i += 1;
            }
            lists.push(list);
            c += 1;
        }
        self.classify(&lists);
        proof {
            let views = Seq::new(lists@.len(), |c: int| lists@[c]@);
            assert forall|c: int| 0 <= c < views.len() implies weighed(
                *total,
                samples@,
                winding::tally(old_self.parts(), counts(samples@), c, samples@.len() as int),
                #[trigger] views[c],
            ) by {
                assert(views[c] == lists@[c]@);
            }
            assert(all_weighed(*total, samples@, old_self, views));
            assert forall|f: int| 0 <= f < self.winds().len() implies ({
                let p = old_self.parts();
                let base = boolean::elected(views[p.piece_of@[f] as int]);
                &&& (#[trigger] self.winds()[f]).0 == base.0 + p.offset@[f].0
                &&& self.winds()[f].1 == base.1 + p.offset@[f].1
            }) by {
                let p = old_self.parts();
                assert(winding::reached(
                    old_self.side(),
                    boolean::winds_of(old_self.all_edges()),
                    p.piece_of@,
                    p.offset@,
                    p.roots@,
                    f,
                ));
                assert(views[p.piece_of@[f] as int] == lists@[p.piece_of@[f] as int]@);
            }
        }
    }
}

/// The radius of a vertex is the shortest reach of the half-edges that leave it:
/// none of them is shorter, and one of them is exactly as long, unless none leaves
/// it at all.
pub proof fn a_radius_is_the_shortest_reach(
    edges: Seq<Edge>,
    reach: Seq<Real>,
    v: int,
    n: int,
    h: int,
)
    requires
        0 <= n <= reach.len(),
        0 <= h < n,
        forall|k: int| 0 <= k < n ==> !(#[trigger] reach[k]).nan(),
    ensures
        boolean::leaving(edges, h) == v ==> radius(edges, reach, v, n).at_most(reach[h]),
        radius(edges, reach, v, n) == (Real { bits: INFINITY }) || exists|k: int|
            0 <= k < n && boolean::leaving(edges, k) == v && #[trigger] reach[k] == radius(
                edges,
                reach,
                v,
                n,
            ),
        !radius(edges, reach, v, n).nan(),
    decreases n,
{
    assert(!reach[n - 1].nan());
    let before = radius(edges, reach, v, n - 1);
    if n > 1 {
        a_radius_is_the_shortest_reach(
            edges,
            reach,
            v,
            n - 1,
            if h < n - 1 {
                h
            } else {
                0
            },
        );
        if radius(edges, reach, v, n) != before {
            assert(reach[n - 1] == radius(edges, reach, v, n));
        }
    } else {
        assert(before == (Real { bits: INFINITY }));
        if radius(edges, reach, v, n) != before {
            assert(reach[n - 1] == radius(edges, reach, v, n));
        }
    }
}

/// A ballot weighs what the clearances of its faces add up to.
pub proof fn a_ballot_weighs_its_clearances<T: Fn(Real, Real) -> Real>(
    total: T,
    samples: Seq<Option<Sample>>,
    faces: Seq<usize>,
    sums: Seq<Real>,
    value: spec_fn(Real) -> int,
    k: int,
)
    requires
        adds_up(total, samples, faces, sums),
        0 <= k < faces.len(),
        forall|a: Real, b: Real, c: Real| #[trigger]
            call_ensures(total, (a, b), c) ==> value(c) == value(a) + value(b),
    ensures
        value(sums[k]) == cleared(samples, faces, value, k + 1),
        samples[faces[k] as int] matches Some((_, clear)) ==> clearance(samples, faces[k] as int)
            == clear,
    decreases k,
{
    reveal_with_fuel(cleared, 2);
    if k > 0 {
        a_ballot_weighs_its_clearances(total, samples, faces, sums, value, k - 1);
        assert(call_ensures(total, (sums[k - 1], clearance(samples, faces[k] as int)), sums[k]));
    }
}

/// The sum of the clearances of the first `n` faces.
pub open spec fn cleared(
    samples: Seq<Option<Sample>>,
    faces: Seq<usize>,
    value: spec_fn(Real) -> int,
    n: int,
) -> int
    decreases n,
{
    if n <= 0 {
        0
    } else {
        cleared(samples, faces, value, n - 1) + value(clearance(samples, faces[n - 1] as int))
    }
}

} // verus!
