//! Dashing: cutting a path into the drawn stretches of a pattern of lengths.

use vstd::prelude::*;
use crate::geom::Point;
use crate::geom::Real;
use crate::path::outline;
use crate::path::outline::Path;
use crate::path::outline::PathEl;
use crate::path::outline::Segment;
use crate::path::outline::Subpath;
use crate::path::outline::SubpathModel;
use crate::path::stroke;
use crate::path::stroke::Step;
use crate::path::stroke::StrokeStyle;
use crate::path::stroke::dashable;
use crate::path::stroke::Dashes;

verus! {

/// How lengths along a segment are measured.
pub struct Tape<L, P, S, M, A> {
    /// The length of a segment.
    pub length: L,
    /// The part of a segment from a position on, of some length.
    pub part: P,
    /// The point of a segment at a position.
    pub spot: S,
    /// The difference of two lengths.
    pub minus: M,
    /// The sum of two lengths.
    pub plus: A,
}

/// A walk's place in a pattern and what it has cut.
pub struct DashModel {
    pub entry: int,
    pub on: bool,
    pub started: bool,
    pub els: Seq<PathEl>,
}

/// What a walk has come to.
pub open spec fn model(d: Dashes) -> DashModel {
    DashModel { entry: d.entry as int, on: d.on, started: d.started, els: d.els@ }
}

/// The start of a pattern, with what was cut before.
pub open spec fn fresh(els: Seq<PathEl>) -> DashModel {
    DashModel { entry: 0, on: true, started: false, els }
}

/// One entry further in a pattern of `len` entries.
pub open spec fn advanced(d: DashModel, len: int) -> DashModel {
    DashModel { entry: (d.entry + 1) % len, on: !d.on, ..d }
}

/// `n` entries further in a pattern of `len` entries.
pub open spec fn advanced_by(d: DashModel, len: int, n: nat) -> DashModel
    decreases n,
{
    if n == 0 {
        d
    } else {
        advanced(advanced_by(d, len, (n - 1) as nat), len)
    }
}

proof fn lemma_advanced_by(d: DashModel, len: int, n: nat)
    requires
        0 <= d.entry < len,
    ensures
        advanced_by(d, len, n).entry == (d.entry + n) % len,
        advanced_by(d, len, n).on == (d.on == (n % 2 == 0)),
        advanced_by(d, len, n).started == d.started,
        advanced_by(d, len, n).els == d.els,
    decreases n,
{
    if n == 0 {
        vstd::arithmetic::div_mod::lemma_small_mod(d.entry as nat, len as nat);
    } else {
        lemma_advanced_by(d, len, (n - 1) as nat);
        vstd::arithmetic::div_mod::lemma_add_mod_noop(d.entry + n - 1, 1, len);
        vstd::arithmetic::div_mod::lemma_add_mod_noop_right(1, d.entry + n - 1, len);
    }
}

/// A pattern with an even number of entries comes round to where it began. One
/// with an odd number comes round with the roles of its entries swapped, and
/// repeats doubled.
pub proof fn an_odd_pattern_repeats_doubled(d: DashModel, len: int)
    requires
        0 <= d.entry < len,
    ensures
        len % 2 == 0 ==> advanced_by(d, len, len as nat) == d,
        len % 2 == 1 ==> advanced_by(d, len, len as nat) == (DashModel { on: !d.on, ..d }),
        advanced_by(d, len, (2 * len) as nat) == d,
{
    lemma_advanced_by(d, len, len as nat);
    lemma_advanced_by(d, len, (2 * len) as nat);
    vstd::arithmetic::div_mod::lemma_mod_add_multiples_vanish(d.entry, len);
    vstd::arithmetic::div_mod::lemma_mod_add_multiples_vanish(d.entry + len, len);
    vstd::arithmetic::div_mod::lemma_small_mod(d.entry as nat, len as nat);
}

/// One stretch of a segment: what of the segment is left behind its start, where
/// the stretch ends, what is then left of the entry, and what it draws.
pub struct Leg {
    pub rest: Real,
    pub pos: Real,
    pub left: Real,
    pub piece: Option<Segment>,
    pub at: Point,
}

/// The length of a stretch: what is left of the entry or of the segment.
pub open spec fn shorter(left: Real, rest: Real) -> Real {
    if rest.less(left) {
        rest
    } else {
        left
    }
}

/// Whether a stretch is the one at `pos`, with `left` of the entry left.
pub open spec fn is_leg<
    L: Fn(Segment) -> Real,
    P: Fn(Segment, Real, Real) -> Segment,
    S: Fn(Segment, Real) -> Point,
    M: Fn(Real, Real) -> Real,
    A: Fn(Real, Real) -> Real,
>(
    tape: Tape<L, P, S, M, A>,
    seg: Segment,
    total: Real,
    pos: Real,
    left: Real,
    on: bool,
    leg: Leg,
) -> bool {
    let take = shorter(left, leg.rest);
    &&& call_ensures(tape.minus, (total, pos), leg.rest)
    &&& call_ensures(tape.plus, (pos, take), leg.pos)
    &&& call_ensures(tape.minus, (left, take), leg.left)
    &&& if !on {
        leg.piece is None && leg.at == seg.first()
    } else if (Real { bits: 0 }).less(take) {
        leg.piece matches Some(s) && call_ensures(tape.part, (seg, pos, take), s) && leg.at
            == s.first()
    } else {
        leg.piece is None && call_ensures(tape.spot, (seg, pos), leg.at)
    }
}

/// Whether an entry ends with a stretch.
pub open spec fn used_up(leg: Leg) -> bool {
    leg.left.at_most(Real { bits: 0 })
}

/// What a stretch makes of a walk. One that draws goes on with the dash it is in
/// or begins one; where the entry ends, so does the dash.
pub open spec fn after(d: DashModel, leg: Leg, len: int) -> DashModel {
    let els = if d.on {
        d.els + (if d.started {
            Seq::empty()
        } else {
            seq![PathEl::MoveTo(leg.at)]
        }) + (match leg.piece {
            Some(s) => seq![s.drawn()],
            None => Seq::empty(),
        })
    } else {
        d.els
    };
    DashModel {
        entry: if used_up(leg) {
            (d.entry + 1) % len
        } else {
            d.entry
        },
        on: d.on != used_up(leg),
        started: !used_up(leg) && (d.started || d.on),
        els,
    }
}

/// What is left of the entry that a walk is in behind a stretch.
pub open spec fn left_after(d: DashModel, leg: Leg, pattern: Seq<Real>) -> Real {
    if used_up(leg) {
        pattern[after(d, leg, pattern.len() as int).entry]
    } else {
        leg.left
    }
}

/// Whether walking a segment from `pos` on, in at most `n` stretches, ends with
/// `out`: what is left of the entry, and the walk.
pub open spec fn cuts<
    L: Fn(Segment) -> Real,
    P: Fn(Segment, Real, Real) -> Segment,
    S: Fn(Segment, Real) -> Point,
    M: Fn(Real, Real) -> Real,
    A: Fn(Real, Real) -> Real,
>(
    tape: Tape<L, P, S, M, A>,
    pattern: Seq<Real>,
    seg: Segment,
    total: Real,
    pos: Real,
    left: Real,
    d: DashModel,
    n: nat,
    out: (Real, DashModel),
) -> bool
    decreases n,
{
    if !pos.less(total) {
        out == (left, d)
    } else {
        n > 0 && exists|leg: Leg| #[trigger]
            is_leg(tape, seg, total, pos, left, d.on, leg) && cuts(
                tape,
                pattern,
                seg,
                total,
                leg.pos,
                left_after(d, leg, pattern),
                after(d, leg, pattern.len() as int),
                (n - 1) as nat,
                out,
            )
    }
}

/// Whether walking a segment from `pos` on is not over after `n` stretches.
pub open spec fn outlasts<
    L: Fn(Segment) -> Real,
    P: Fn(Segment, Real, Real) -> Segment,
    S: Fn(Segment, Real) -> Point,
    M: Fn(Real, Real) -> Real,
    A: Fn(Real, Real) -> Real,
>(
    tape: Tape<L, P, S, M, A>,
    pattern: Seq<Real>,
    seg: Segment,
    total: Real,
    pos: Real,
    left: Real,
    d: DashModel,
    n: nat,
) -> bool
    decreases n,
{
    &&& pos.less(total)
    &&& n > 0 ==> exists|leg: Leg| #[trigger]
        is_leg(tape, seg, total, pos, left, d.on, leg) && outlasts(
            tape,
            pattern,
            seg,
            total,
            leg.pos,
            left_after(d, leg, pattern),
            after(d, leg, pattern.len() as int),
            (n - 1) as nat,
        )
}

/// Whether a walk that starts `phase` into a pattern, and passes at most `n`
/// entries, starts with `out`: what is left of the entry it starts in, and the
/// walk.
///
/// An entry of no length at phase zero is entered, and draws its dot.
pub open spec fn enters<M: Fn(Real, Real) -> Real>(
    minus: M,
    pattern: Seq<Real>,
    phase: Real,
    left: Real,
    d: DashModel,
    n: nat,
    out: (Real, DashModel),
) -> bool
    decreases n,
{
    if (Real { bits: 0 }).less(phase) && left.at_most(phase) {
        let next = advanced(d, pattern.len() as int);
        n > 0 && exists|p: Real| #[trigger]
            call_ensures(minus, (phase, left), p) && enters(
                minus,
                pattern,
                p,
                pattern[next.entry],
                next,
                (n - 1) as nat,
                out,
            )
    } else {
        out.1 == d && call_ensures(minus, (left, phase), out.0)
    }
}

/// Whether a walk that starts `phase` into a pattern passes more than `n`
/// entries.
pub open spec fn passes<M: Fn(Real, Real) -> Real>(
    minus: M,
    pattern: Seq<Real>,
    phase: Real,
    left: Real,
    d: DashModel,
    n: nat,
) -> bool
    decreases n,
{
    let next = advanced(d, pattern.len() as int);
    &&& (Real { bits: 0 }).less(phase) && left.at_most(phase)
    &&& n > 0 ==> exists|p: Real| #[trigger]
        call_ensures(minus, (phase, left), p) && passes(
            minus,
            pattern,
            p,
            pattern[next.entry],
            next,
            (n - 1) as nat,
        )
}

/// Whether a tape can be laid along anything.
pub open spec fn measures<
    L: Fn(Segment) -> Real,
    P: Fn(Segment, Real, Real) -> Segment,
    S: Fn(Segment, Real) -> Point,
    M: Fn(Real, Real) -> Real,
    A: Fn(Real, Real) -> Real,
>(tape: Tape<L, P, S, M, A>) -> bool {
    &&& forall|s: Segment| call_requires(tape.length, (s,))
    &&& forall|s: Segment, p: Real, t: Real| call_requires(tape.part, (s, p, t))
    &&& forall|s: Segment, p: Real| call_requires(tape.spot, (s, p))
    &&& forall|a: Real, b: Real| call_requires(tape.minus, (a, b))
    &&& forall|a: Real, b: Real| call_requires(tape.plus, (a, b))
}

/// Enters a pattern `phase` into it; nothing where more than `limit` entries
/// would have to be passed.
fn enter<
    L: Fn(Segment) -> Real,
    P: Fn(Segment, Real, Real) -> Segment,
    S: Fn(Segment, Real) -> Point,
    M: Fn(Real, Real) -> Real,
    A: Fn(Real, Real) -> Real,
>(tape: &Tape<L, P, S, M, A>, pattern: &Vec<Real>, start: Real, limit: u64, d: &mut Dashes) -> (r:
    Option<Real>)
    requires
        measures(*tape),
        old(d).entry < pattern@.len(),
    ensures
        final(d).entry < pattern@.len(),
        r matches Some(left) ==> enters(
            tape.minus,
            pattern@,
            start,
            pattern@[old(d).entry as int],
            model(*old(d)),
            limit as nat,
            (left, model(*final(d))),
        ),
        r is None ==> passes(
            tape.minus,
            pattern@,
            start,
            pattern@[old(d).entry as int],
            model(*old(d)),
            limit as nat,
        ),
{
    let zero = Real { bits: 0 };
    let mut phase = start;
    let mut left = pattern[d.entry];
    let mut n: u64 = limit;
    let ghost whole = pattern@[d.entry as int];
    let ghost first = model(*d);
    while zero.below(phase) && left.not_above(phase)
        invariant
            zero == (Real { bits: 0 }),
            measures(*tape),
            d.entry < pattern@.len(),
            n <= limit,
            first == model(*old(d)),
            whole == pattern@[old(d).entry as int],
            forall|out: (Real, DashModel)| #[trigger]
                enters(tape.minus, pattern@, phase, left, model(*d), n as nat, out) ==> enters(
                    tape.minus,
                    pattern@,
                    start,
                    whole,
                    first,
                    limit as nat,
                    out,
                ),
            passes(tape.minus, pattern@, phase, left, model(*d), n as nat) ==> passes(
                tape.minus,
                pattern@,
                start,
                whole,
                first,
                limit as nat,
            ),
        decreases n,
    {
        if n == 0 {
            assert(passes(tape.minus, pattern@, phase, left, model(*d), 0));
            return None;
        }
        let p = (tape.minus)(phase, left);
        let ghost before = model(*d);
        let ghost (was, had) = (phase, left);
        let ghost m = n;
        d.advance(pattern.len());
        phase = p;
        left = pattern[d.entry];
        n -= 1;
        proof {
            let next = advanced(before, pattern@.len() as int);
            assert(model(*d) == next);
            assert forall|out: (Real, DashModel)| #[trigger]
                enters(tape.minus, pattern@, phase, left, model(*d), n as nat, out) implies enters(
                tape.minus,
                pattern@,
                start,
                whole,
                first,
                limit as nat,
                out,
            ) by {
                assert(call_ensures(tape.minus, (was, had), p));
                assert(enters(tape.minus, pattern@, was, had, before, m as nat, out));
            }
            if passes(tape.minus, pattern@, phase, left, model(*d), n as nat) {
                assert(call_ensures(tape.minus, (was, had), p));
                assert(passes(tape.minus, pattern@, was, had, before, m as nat));
            }
        }
    }
    let r = (tape.minus)(left, phase);
    assert(enters(tape.minus, pattern@, phase, left, model(*d), n as nat, (r, model(*d))));
    Some(r)
}

/// Cuts one segment into the pattern, appending the drawn stretches; nothing
/// where it takes more than `limit` of them.
fn cut<
    L: Fn(Segment) -> Real,
    P: Fn(Segment, Real, Real) -> Segment,
    S: Fn(Segment, Real) -> Point,
    M: Fn(Real, Real) -> Real,
    A: Fn(Real, Real) -> Real,
>(
    tape: &Tape<L, P, S, M, A>,
    pattern: &Vec<Real>,
    seg: Segment,
    total: Real,
    had: Real,
    limit: u64,
    d: &mut Dashes,
) -> (r: Option<Real>)
    requires
        measures(*tape),
        old(d).entry < pattern@.len(),
    ensures
        final(d).entry < pattern@.len(),
        r matches Some(left) ==> cuts(
            *tape,
            pattern@,
            seg,
            total,
            Real { bits: 0 },
            had,
            model(*old(d)),
            limit as nat,
            (left, model(*final(d))),
        ),
        r is None ==> outlasts(
            *tape,
            pattern@,
            seg,
            total,
            Real { bits: 0 },
            had,
            model(*old(d)),
            limit as nat,
        ),
{
    let zero = Real { bits: 0 };
    let mut pos = zero;
    let mut left = had;
    let mut n: u64 = limit;
    let ghost first = model(*d);
    while pos.below(total)
        invariant
            zero == (Real { bits: 0 }),
            measures(*tape),
            d.entry < pattern@.len(),
            n <= limit,
            first == model(*old(d)),
            forall|out: (Real, DashModel)| #[trigger]
                cuts(*tape, pattern@, seg, total, pos, left, model(*d), n as nat, out) ==> cuts(
                    *tape,
                    pattern@,
                    seg,
                    total,
                    zero,
                    had,
                    first,
                    limit as nat,
                    out,
                ),
            outlasts(*tape, pattern@, seg, total, pos, left, model(*d), n as nat) ==> outlasts(
                *tape,
                pattern@,
                seg,
                total,
                zero,
                had,
                first,
                limit as nat,
            ),
        decreases n,
    {
        if n == 0 {
            assert(outlasts(*tape, pattern@, seg, total, pos, left, model(*d), 0));
            return None;
        }
        let rest = (tape.minus)(total, pos);
        let take = if rest.below(left) {
            rest
        } else {
            left
        };
        let end = (tape.plus)(pos, take);
        let now = (tape.minus)(left, take);
        let mut piece: Option<Segment> = None;
        let mut at = seg.start();
        if d.on {
            if zero.below(take) {
                let s = (tape.part)(seg, pos, take);
                at = s.start();
                piece = Some(s);
            } else {
                at = (tape.spot)(seg, pos);
            }
        }
        let ended = now.not_above(zero);
        let ghost leg = Leg { rest, pos: end, left: now, piece, at };
        let ghost before = model(*d);
        let ghost (was, held, m) = (pos, left, n);
        d.take(piece, at, ended, pattern.len());
        pos = end;
        left = if ended {
            pattern[d.entry]
        } else {
            now
        };
        n -= 1;
        proof {
            assert(is_leg(*tape, seg, total, was, held, before.on, leg));
            let next = after(before, leg, pattern@.len() as int);
            assert(model(*d).els =~= next.els);
            assert(model(*d) == next);
            assert(left == left_after(before, leg, pattern@));
            assert forall|out: (Real, DashModel)| #[trigger]
                cuts(*tape, pattern@, seg, total, pos, left, model(*d), n as nat, out) implies cuts(
                *tape,
                pattern@,
                seg,
                total,
                zero,
                had,
                first,
                limit as nat,
                out,
            ) by {
                assert(cuts(*tape, pattern@, seg, total, was, held, before, m as nat, out));
            }
            if outlasts(*tape, pattern@, seg, total, pos, left, model(*d), n as nat) {
                assert(outlasts(*tape, pattern@, seg, total, was, held, before, m as nat));
            }
        }
    }
    assert(cuts(*tape, pattern@, seg, total, pos, left, model(*d), n as nat, (left, model(*d))));
    Some(left)
}

/// Whether walking a segment takes a walk from one state to another.
pub open spec fn walked<
    L: Fn(Segment) -> Real,
    P: Fn(Segment, Real, Real) -> Segment,
    S: Fn(Segment, Real) -> Point,
    M: Fn(Real, Real) -> Real,
    A: Fn(Real, Real) -> Real,
>(
    tape: Tape<L, P, S, M, A>,
    pattern: Seq<Real>,
    seg: Segment,
    limit: nat,
    from: (Real, DashModel),
    to: (Real, DashModel),
) -> bool {
    exists|total: Real| #[trigger]
        call_ensures(tape.length, (seg,), total) && cuts(
            tape,
            pattern,
            seg,
            total,
            Real { bits: 0 },
            from.0,
            from.1,
            limit,
            to,
        )
}

/// Whether walking a segment takes more than `limit` stretches.
pub open spec fn overlong<
    L: Fn(Segment) -> Real,
    P: Fn(Segment, Real, Real) -> Segment,
    S: Fn(Segment, Real) -> Point,
    M: Fn(Real, Real) -> Real,
    A: Fn(Real, Real) -> Real,
>(
    tape: Tape<L, P, S, M, A>,
    pattern: Seq<Real>,
    seg: Segment,
    limit: nat,
    from: (Real, DashModel),
) -> bool {
    exists|total: Real| #[trigger]
        call_ensures(tape.length, (seg,), total) && outlasts(
            tape,
            pattern,
            seg,
            total,
            Real { bits: 0 },
            from.0,
            from.1,
            limit,
        )
}

/// Whether `runs` are the states of a walk over segments, each entered `phase`
/// into the pattern at first: before the first of them, and behind each.
pub open spec fn runs_over<
    L: Fn(Segment) -> Real,
    P: Fn(Segment, Real, Real) -> Segment,
    S: Fn(Segment, Real) -> Point,
    M: Fn(Real, Real) -> Real,
    A: Fn(Real, Real) -> Real,
>(
    tape: Tape<L, P, S, M, A>,
    pattern: Seq<Real>,
    phase: Real,
    segs: Seq<Segment>,
    limit: nat,
    els: Seq<PathEl>,
    runs: Seq<(Real, DashModel)>,
) -> bool {
    &&& 0 < runs.len() <= segs.len() + 1
    &&& enters(tape.minus, pattern, phase, pattern[0], fresh(els), limit, runs[0])
    &&& forall|k: int|
        0 <= k < runs.len() - 1 ==> walked(
            tape,
            pattern,
            #[trigger] segs[k],
            limit,
            runs[k],
            runs[k + 1],
        )
}

/// What ending a subpath makes of what was cut. One with no segments still has a
/// position, and a dot there is what a round cap draws.
pub open spec fn ended(sub: SubpathModel, d: DashModel) -> Seq<PathEl> {
    if !d.started && d.on && outline::segments_of(sub).len() == 0 {
        d.els.push(PathEl::MoveTo(sub.start))
    } else {
        d.els
    }
}

/// Whether dashing a subpath takes what was cut before to `out`.
pub open spec fn subpath_dashed<
    L: Fn(Segment) -> Real,
    P: Fn(Segment, Real, Real) -> Segment,
    S: Fn(Segment, Real) -> Point,
    M: Fn(Real, Real) -> Real,
    A: Fn(Real, Real) -> Real,
>(
    tape: Tape<L, P, S, M, A>,
    pattern: Seq<Real>,
    phase: Real,
    sub: SubpathModel,
    limit: nat,
    els: Seq<PathEl>,
    out: Seq<PathEl>,
) -> bool {
    let segs = outline::segments_of(sub);
    exists|runs: Seq<(Real, DashModel)>| #[trigger]
        runs_over(tape, pattern, phase, segs, limit, els, runs) && runs.len() == segs.len() + 1
            && out == ended(sub, runs.last().1)
}

/// Whether dashing a subpath passes more than `limit` entries before it, or
/// takes more than `limit` stretches on one of its segments.
pub open spec fn subpath_overlong<
    L: Fn(Segment) -> Real,
    P: Fn(Segment, Real, Real) -> Segment,
    S: Fn(Segment, Real) -> Point,
    M: Fn(Real, Real) -> Real,
    A: Fn(Real, Real) -> Real,
>(
    tape: Tape<L, P, S, M, A>,
    pattern: Seq<Real>,
    phase: Real,
    sub: SubpathModel,
    limit: nat,
    els: Seq<PathEl>,
) -> bool {
    let segs = outline::segments_of(sub);
    ||| passes(tape.minus, pattern, phase, pattern[0], fresh(els), limit)
    ||| exists|runs: Seq<(Real, DashModel)>| #[trigger]
        runs_over(tape, pattern, phase, segs, limit, els, runs) && runs.len() <= segs.len()
            && overlong(tape, pattern, segs[runs.len() - 1], limit, runs.last())
}

/// Dashes one subpath.
fn dash_subpath<
    L: Fn(Segment) -> Real,
    P: Fn(Segment, Real, Real) -> Segment,
    S: Fn(Segment, Real) -> Point,
    M: Fn(Real, Real) -> Real,
    A: Fn(Real, Real) -> Real,
>(
    tape: &Tape<L, P, S, M, A>,
    pattern: &Vec<Real>,
    phase: Real,
    sub: &Subpath<'_>,
    limit: u64,
    d: &mut Dashes,
) -> (r: bool)
    requires
        measures(*tape),
        pattern@.len() > 0,
    ensures
        r ==> subpath_dashed(
            *tape,
            pattern@,
            phase,
            sub@,
            limit as nat,
            old(d).els@,
            final(d).els@,
        ),
        !r ==> subpath_overlong(*tape, pattern@, phase, sub@, limit as nat, old(d).els@),
{
    let ghost els = d.els@;
    d.restart();
    let segs = sub.segments();
    let mut left = match enter(tape, pattern, phase, limit, d) {
        Some(v) => v,
        None => {
            return false;
        },
    };
    let ghost mut runs: Seq<(Real, DashModel)> = seq![(left, model(*d))];
    let mut i: usize = 0;
    while i < segs.len()
        invariant
            i <= segs@.len(),
            segs@ == outline::segments_of(sub@),
            measures(*tape),
            els == old(d).els@,
            d.entry < pattern@.len(),
            runs.len() == i + 1,
            runs.last() == (left, model(*d)),
            runs_over(*tape, pattern@, phase, segs@, limit as nat, els, runs),
        decreases segs.len() - i,
    {
        let total = (tape.length)(segs[i]);
        let ghost before = runs;
        left = match cut(tape, pattern, segs[i], total, left, limit, d) {
            Some(v) => v,
            None => {
                proof {
                    assert(overlong(
                        *tape,
                        pattern@,
                        segs@[i as int],
                        limit as nat,
                        before.last(),
                    ));
                }
                return false;
            },
        };
        proof {
            runs = runs.push((left, model(*d)));
            assert(walked(
                *tape,
                pattern@,
                segs@[i as int],
                limit as nat,
                before.last(),
                (left, model(*d)),
            ));
            assert forall|k: int| 0 <= k < runs.len() - 1 implies walked(
                *tape,
                pattern@,
                #[trigger] segs@[k],
                limit as nat,
                runs[k],
                runs[k + 1],
            ) by {
                assert(runs[k] == before[k]);
                if k < i {
                    assert(runs[k + 1] == before[k + 1]);
                }
            }
        }
        i += 1;
    }
    d.end_subpath(sub.start(), segs.len() == 0);
    assert(d.els@ == ended(sub@, runs.last().1));
    true
}

/// Whether `states` hold what was cut before the first subpath and behind each.
pub open spec fn states_over<
    L: Fn(Segment) -> Real,
    P: Fn(Segment, Real, Real) -> Segment,
    S: Fn(Segment, Real) -> Point,
    M: Fn(Real, Real) -> Real,
    A: Fn(Real, Real) -> Real,
>(
    tape: Tape<L, P, S, M, A>,
    pattern: Seq<Real>,
    phase: Real,
    subs: Seq<SubpathModel>,
    limit: nat,
    states: Seq<Seq<PathEl>>,
) -> bool {
    &&& 0 < states.len() <= subs.len() + 1
    &&& states[0] == Seq::<PathEl>::empty()
    &&& forall|i: int|
        0 <= i < states.len() - 1 ==> subpath_dashed(
            tape,
            pattern,
            phase,
            #[trigger] subs[i],
            limit,
            states[i],
            states[i + 1],
        )
}

/// Whether `out` is what dashing every subpath in turn cuts. The pattern starts
/// over at each.
pub open spec fn all_dashed<
    L: Fn(Segment) -> Real,
    P: Fn(Segment, Real, Real) -> Segment,
    S: Fn(Segment, Real) -> Point,
    M: Fn(Real, Real) -> Real,
    A: Fn(Real, Real) -> Real,
>(
    tape: Tape<L, P, S, M, A>,
    pattern: Seq<Real>,
    phase: Real,
    subs: Seq<SubpathModel>,
    limit: nat,
    out: Seq<PathEl>,
) -> bool {
    exists|states: Seq<Seq<PathEl>>| #[trigger]
        states_over(tape, pattern, phase, subs, limit, states) && states.len() == subs.len() + 1
            && out == states.last()
}

/// Whether dashing one of the subpaths is too long.
pub open spec fn some_overlong<
    L: Fn(Segment) -> Real,
    P: Fn(Segment, Real, Real) -> Segment,
    S: Fn(Segment, Real) -> Point,
    M: Fn(Real, Real) -> Real,
    A: Fn(Real, Real) -> Real,
>(
    tape: Tape<L, P, S, M, A>,
    pattern: Seq<Real>,
    phase: Real,
    subs: Seq<SubpathModel>,
    limit: nat,
) -> bool {
    exists|states: Seq<Seq<PathEl>>| #[trigger]
        states_over(tape, pattern, phase, subs, limit, states) && states.len() <= subs.len()
            && subpath_overlong(
            tape,
            pattern,
            phase,
            subs[states.len() - 1],
            limit,
            states.last(),
        )
}

/// Whether a pattern repeats after `period`: the sum of its entries, or twice
/// that for an odd number of them, since their roles then alternate.
pub open spec fn repeats<A: Fn(Real, Real) -> Real>(
    plus: A,
    pattern: Seq<Real>,
    sums: Seq<Real>,
    period: Real,
) -> bool {
    &&& sums.len() == pattern.len() + 1
    &&& sums[0] == (Real { bits: 0 })
    &&& forall|k: int|
        0 <= k < pattern.len() ==> call_ensures(plus, (sums[k], #[trigger] pattern[k]), sums[k + 1])
    &&& if pattern.len() % 2 == 1 {
        call_ensures(plus, (sums.last(), sums.last()), period)
    } else {
        period == sums.last()
    }
}

/// The period of a pattern.
fn period_of<A: Fn(Real, Real) -> Real>(pattern: &Vec<Real>, plus: &A) -> (period: Real)
    requires
        forall|a: Real, b: Real| call_requires(plus, (a, b)),
    ensures
        exists|sums: Seq<Real>| #[trigger] repeats(*plus, pattern@, sums, period),
{
    let mut sum = Real { bits: 0 };
    let ghost mut sums: Seq<Real> = seq![sum];
    let mut i: usize = 0;
    while i < pattern.len()
        invariant
            i <= pattern@.len(),
            sums.len() == i + 1,
            sums[0] == (Real { bits: 0 }),
            sums.last() == sum,
            forall|a: Real, b: Real| call_requires(plus, (a, b)),
            forall|k: int|
                0 <= k < i ==> call_ensures(plus, (sums[k], #[trigger] pattern@[k]), sums[k + 1]),
        decreases pattern.len() - i,
    {
        let ghost before = sums;
        sum = plus(sum, pattern[i]);
        proof {
            sums = sums.push(sum);
            assert forall|k: int| 0 <= k < i + 1 implies call_ensures(
                plus,
                (sums[k], #[trigger] pattern@[k]),
                sums[k + 1],
            ) by {
                assert(sums[k] == before[k]);
                if k < i {
                    assert(sums[k + 1] == before[k + 1]);
                }
            }
        }
        i += 1;
    }
    let period = if pattern.len() % 2 == 1 {
        plus(sum, sum)
    } else {
        sum
    };
    assert(repeats(*plus, pattern@, sums, period));
    period
}

/// Whether `r` is a path cut into the drawn stretches of a pattern. There is
/// none only where the walk along a segment would be longer than `limit`.
pub open spec fn dashes<
    L: Fn(Segment) -> Real,
    P: Fn(Segment, Real, Real) -> Segment,
    S: Fn(Segment, Real) -> Point,
    M: Fn(Real, Real) -> Real,
    A: Fn(Real, Real) -> Real,
    W: Fn(Real, Real) -> Real,
>(
    tape: Tape<L, P, S, M, A>,
    wrap: W,
    pattern: Seq<Real>,
    offset: Real,
    limit: nat,
    path: Path,
    r: Option<Path>,
) -> bool {
    exists|sums: Seq<Real>, period: Real| #[trigger]
        repeats(tape.plus, pattern, sums, period) && if stroke::can_dash(pattern, period, offset) {
            exists|phase: Real| #[trigger]
                call_ensures(wrap, (offset, period), phase) && match r {
                    Some(p) => all_dashed(tape, pattern, phase, path.parts(), limit, p@),
                    None => some_overlong(tape, pattern, phase, path.parts(), limit),
                }
        } else {
            r matches Some(p) && p@ == path@
        }
}

impl Path {
    /// This path cut into the drawn stretches of `pattern`, starting `offset`
    /// into it. Lengths are measured with `tape`, and `wrap` brings an offset
    /// within the period.
    ///
    /// The pattern runs on across segment boundaries within a subpath, so a dash
    /// that starts on one curve and ends on the next is one subpath. It starts
    /// over at every subpath. A pattern that is empty, has a negative entry or no
    /// positive finite period leaves the path as it is.
    ///
    /// A walk may be endless where a length is lost in the rounding of another:
    /// nothing comes back where more than `limit` entries or stretches would be
    /// needed for one segment.
    pub fn dash<
        L: Fn(Segment) -> Real,
        P: Fn(Segment, Real, Real) -> Segment,
        S: Fn(Segment, Real) -> Point,
        M: Fn(Real, Real) -> Real,
        A: Fn(Real, Real) -> Real,
        W: Fn(Real, Real) -> Real,
    >(
        &self,
        pattern: &Vec<Real>,
        offset: Real,
        tape: &Tape<L, P, S, M, A>,
        wrap: &W,
        limit: u64,
    ) -> (r: Option<Path>)
        requires
            measures(*tape),
            forall|a: Real, b: Real| call_requires(wrap, (a, b)),
        ensures
            dashes(*tape, *wrap, pattern@, offset, limit as nat, *self, r),
    {
        let period = period_of(pattern, &tape.plus);
        let ghost sums = choose|sums: Seq<Real>| #[trigger]
            repeats(tape.plus, pattern@, sums, period);
        assert(repeats(tape.plus, pattern@, sums, period));
        if !dashable(pattern, period, offset) {
            return Some(self.clone());
        }
        let phase = wrap(offset, period);
        let subs = self.subpaths();
        let mut d = Dashes::new();
        let ghost mut states: Seq<Seq<PathEl>> = seq![d.els@];
        let mut i: usize = 0;
        while i < subs.len()
            invariant
                i <= subs@.len(),
                outline::subpaths_view(subs@) == self.parts(),
                measures(*tape),
                pattern@.len() > 0,
                states.len() == i + 1,
                states.last() == d.els@,
                repeats(tape.plus, pattern@, sums, period),
                stroke::can_dash(pattern@, period, offset),
                call_ensures(wrap, (offset, period), phase),
                states_over(*tape, pattern@, phase, self.parts(), limit as nat, states),
            decreases subs.len() - i,
        {
            let ghost before = states;
            assert(self.parts()[i as int] == subs@[i as int]@);
            if !dash_subpath(tape, pattern, phase, &subs[i], limit, &mut d) {
                proof {
                    assert(subpath_overlong(
                        *tape,
                        pattern@,
                        phase,
                        self.parts()[before.len() - 1],
                        limit as nat,
                        before.last(),
                    ));
                    assert(some_overlong(*tape, pattern@, phase, self.parts(), limit as nat));
                }
                return None;
            }
            proof {
                states = states.push(d.els@);
                assert forall|k: int| 0 <= k < states.len() - 1 implies subpath_dashed(
                    *tape,
                    pattern@,
                    phase,
                    #[trigger] self.parts()[k],
                    limit as nat,
                    states[k],
                    states[k + 1],
                ) by {
                    assert(states[k] == before[k]);
                    if k < i {
                        assert(states[k + 1] == before[k + 1]);
                    }
                }
            }
            i += 1;
        }
        let path = Path { els: d.els };
        assert(all_dashed(*tape, pattern@, phase, self.parts(), limit as nat, path@));
        Some(path)
    }
}

impl Path {
    /// The outline this path fills when it is stroked: nothing for a width that
    /// draws nothing. A style with dashes strokes the path cut into them.
    ///
    /// `tape`, `wrap` and `limit` are those of [`Path::dash`]; there is no
    /// outline only where there are no dashes. `clockwise` says whether the area
    /// that segments enclose is negative, and `draw` draws one step.
    pub fn stroke<
        L: Fn(Segment) -> Real,
        P: Fn(Segment, Real, Real) -> Segment,
        S: Fn(Segment, Real) -> Point,
        M: Fn(Real, Real) -> Real,
        A: Fn(Real, Real) -> Real,
        W: Fn(Real, Real) -> Real,
        C: Fn(Vec<Segment>) -> bool,
        R: Fn(Step) -> Vec<PathEl>,
    >(
        &self,
        style: &StrokeStyle,
        tape: &Tape<L, P, S, M, A>,
        wrap: &W,
        limit: u64,
        clockwise: &C,
        draw: &R,
    ) -> (r: Option<Path>)
        requires
            measures(*tape),
            forall|a: Real, b: Real| call_requires(wrap, (a, b)),
            forall|v: Vec<Segment>| call_requires(clockwise, (v,)),
            forall|s: Step| call_requires(draw, (s,)),
        ensures
            if !((Real { bits: 0 }).less(style.width) && style.width.finite()) {
                r matches Some(p) && p@ == Seq::<PathEl>::empty()
            } else if style.dash@.len() == 0 {
                r matches Some(p) && stroke::strokes(
                    *clockwise,
                    *draw,
                    style.align,
                    self.parts(),
                    p@,
                )
            } else {
                exists|d: Option<Path>| #[trigger]
                    dashes(
                        *tape,
                        *wrap,
                        style.dash@,
                        style.dash_offset,
                        limit as nat,
                        *self,
                        d,
                    ) && match d {
                        Some(cut) => r matches Some(p) && stroke::strokes(
                            *clockwise,
                            *draw,
                            style.align,
                            cut.parts(),
                            p@,
                        ),
                        None => r is None,
                    }
            },
    {
        if !style.draws() || style.dash.len() == 0 {
            return Some(self.stroke_undashed(style, clockwise, draw));
        }
        let cut = self.dash(&style.dash, style.dash_offset, tape, wrap, limit);
        match cut {
            Some(path) => Some(path.stroke_undashed(style, clockwise, draw)),
            None => None,
        }
    }
}

/// Where the `k`th entry of a repeated pattern begins, counted along the pattern
/// from its start; `value` says how long a length is.
pub open spec fn boundary(pattern: Seq<Real>, value: spec_fn(Real) -> int, k: nat) -> int
    decreases k,
{
    if k == 0 {
        0
    } else {
        boundary(pattern, value, (k - 1) as nat) + value(
            pattern[((k - 1) as nat % pattern.len()) as int],
        )
    }
}

/// Whether a state is in step with the pattern `at` along it: it is in some entry,
/// drawing in every other one from the first on, and has exactly that entry's
/// remainder left.
pub open spec fn in_step(
    pattern: Seq<Real>,
    value: spec_fn(Real) -> int,
    at: int,
    left: Real,
    d: DashModel,
) -> bool {
    exists|k: nat|
        #![trigger boundary(pattern, value, k)]
        d.entry == k % pattern.len() && d.on == (k % 2 == 0) && boundary(pattern, value, k) <= at
            && at + value(left) == boundary(pattern, value, (k + 1) as nat)
}

/// Whether `value` orders numbers as they compare and the differences and sums of
/// numbers are exact in it.
pub open spec fn exact<M: Fn(Real, Real) -> Real, A: Fn(Real, Real) -> Real>(
    minus: M,
    plus: A,
    value: spec_fn(Real) -> int,
) -> bool {
    &&& value(Real { bits: 0 }) == 0
    &&& forall|a: Real, b: Real| #[trigger] a.less(b) ==> value(a) < value(b)
    &&& forall|a: Real, b: Real| #[trigger] a.at_most(b) ==> value(a) <= value(b)
    &&& forall|a: Real, b: Real, c: Real| #[trigger]
        call_ensures(minus, (a, b), c) ==> !a.nan() && !b.nan() && !c.nan() && value(c) == value(a)
            - value(b)
    &&& forall|a: Real, b: Real, c: Real| #[trigger]
        call_ensures(plus, (a, b), c) ==> !a.nan() && !b.nan() && !c.nan() && value(c) == value(a)
            + value(b)
}

/// The offset takes a pattern in: whatever it skips, the first dash starts in step
/// with the pattern that far along.
pub proof fn the_offset_goes_into_the_pattern<M: Fn(Real, Real) -> Real, A: Fn(Real, Real) -> Real>(
    minus: M,
    plus: A,
    value: spec_fn(Real) -> int,
    pattern: Seq<Real>,
    phase: Real,
    els: Seq<PathEl>,
    n: nat,
    out: (Real, DashModel),
)
    requires
        exact(minus, plus, value),
        pattern.len() > 0,
        0 <= value(phase),
        enters(minus, pattern, phase, pattern[0], fresh(els), n, out),
    ensures
        in_step(pattern, value, value(phase), out.0, out.1),
        !out.1.started && out.1.els == els,
{
    reveal_with_fuel(boundary, 2);
    lemma_enters(minus, plus, value, pattern, phase, pattern[0], fresh(els), n, out, 0, value(phase));
}

proof fn lemma_enters<M: Fn(Real, Real) -> Real, A: Fn(Real, Real) -> Real>(
    minus: M,
    plus: A,
    value: spec_fn(Real) -> int,
    pattern: Seq<Real>,
    phase: Real,
    left: Real,
    d: DashModel,
    n: nat,
    out: (Real, DashModel),
    k: nat,
    at: int,
)
    requires
        exact(minus, plus, value),
        pattern.len() > 0,
        0 <= value(phase),
        enters(minus, pattern, phase, left, d, n, out),
        d.entry == k % pattern.len(),
        d.on == (k % 2 == 0),
        !d.started,
        boundary(pattern, value, k) + value(phase) == at,
        left == pattern[d.entry],
    ensures
        in_step(pattern, value, at, out.0, out.1),
        !out.1.started && out.1.els == d.els,
    decreases n,
{
    let len = pattern.len() as int;
    let next_k = (k + 1) as nat;
    assert(boundary(pattern, value, next_k) == boundary(pattern, value, k) + value(left));
    if (Real { bits: 0 }).less(phase) && left.at_most(phase) {
        let next = advanced(d, len);
        let p = choose|p: Real| #[trigger]
            call_ensures(minus, (phase, left), p) && enters(
                minus,
                pattern,
                p,
                pattern[next.entry],
                next,
                (n - 1) as nat,
                out,
            );
        lemma_next_entry(k, pattern.len());
        lemma_enters(
            minus,
            plus,
            value,
            pattern,
            p,
            pattern[next.entry],
            next,
            (n - 1) as nat,
            out,
            next_k,
            at,
        );
    }
}

proof fn lemma_next_entry(k: nat, len: nat)
    requires
        len > 0,
    ensures
        ((k % len) + 1) % len == ((k + 1) as nat) % len,
        0 <= k % len < len,
{
    vstd::arithmetic::div_mod::lemma_add_mod_noop(k as int, 1, len as int);
    vstd::arithmetic::div_mod::lemma_mod_bound(k as int, len as int);
    if len > 1 {
        vstd::arithmetic::div_mod::lemma_small_mod(1, len);
        vstd::arithmetic::div_mod::lemma_add_mod_noop_right(
            (k % len) as int,
            1,
            len as int,
        );
    }
    vstd::arithmetic::div_mod::lemma_add_mod_noop_right(1, k as int, len as int);
}

/// A leg lies in one entry of the pattern and on the segment, and leaves the dashes
/// in step with the pattern where it ends.
pub proof fn a_leg_stays_in_step<
    L: Fn(Segment) -> Real,
    P: Fn(Segment, Real, Real) -> Segment,
    S: Fn(Segment, Real) -> Point,
    M: Fn(Real, Real) -> Real,
    A: Fn(Real, Real) -> Real,
>(
    tape: Tape<L, P, S, M, A>,
    value: spec_fn(Real) -> int,
    pattern: Seq<Real>,
    seg: Segment,
    total: Real,
    pos: Real,
    left: Real,
    d: DashModel,
    leg: Leg,
    at: int,
)
    requires
        exact(tape.minus, tape.plus, value),
        pattern.len() > 0,
        forall|i: int|
            0 <= i < pattern.len() ==> !(#[trigger] pattern[i]).nan() && 0 <= value(pattern[i]),
        is_leg(tape, seg, total, pos, left, d.on, leg),
        pos.less(total),
        0 <= value(left),
        in_step(pattern, value, at, left, d),
    ensures
        ({
            let take = value(leg.pos) - value(pos);
            &&& 0 <= take <= value(left)
            &&& value(leg.pos) <= value(total)
            &&& take < value(left) ==> value(leg.pos) == value(total)
            &&& in_step(
                pattern,
                value,
                at + take,
                left_after(d, leg, pattern),
                after(d, leg, pattern.len() as int),
            )
            &&& 0 <= value(left_after(d, leg, pattern))
        }),
{
    let len = pattern.len() as int;
    let k = choose|k: nat|
        #![trigger boundary(pattern, value, k)]
        d.entry == k % pattern.len() && d.on == (k % 2 == 0) && boundary(pattern, value, k) <= at
            && at + value(left) == boundary(pattern, value, (k + 1) as nat);
    let take = shorter(left, leg.rest);
    let zero = Real { bits: 0 };
    assert(value(leg.rest) == value(total) - value(pos));
    assert(value(pos) < value(total));
    assert(!leg.rest.nan() && !left.nan());
    if !leg.rest.less(left) {
        assert(left.at_most(leg.rest));
    }
    assert(value(leg.pos) == value(pos) + value(take));
    assert(value(leg.left) == value(left) - value(take));
    let next = after(d, leg, len);
    if used_up(leg) {
        lemma_next_entry(k, pattern.len());
        let j = (k + 1) as nat;
        assert(boundary(pattern, value, (j + 1) as nat) == boundary(pattern, value, j) + value(
            pattern[(j % pattern.len()) as int],
        ));
        assert(next.entry == j % pattern.len());
        assert(!pattern[next.entry].nan() && 0 <= value(pattern[next.entry]));
        assert(value(leg.left) <= 0);
    } else {
        assert(zero.less(leg.left));
        assert(boundary(pattern, value, k) <= at + value(take));
    }
}

/// Dashes keep in step with the pattern along a whole segment: they come out of it
/// as far along the pattern as the segment is long.
pub proof fn a_segment_uses_up_its_length<
    L: Fn(Segment) -> Real,
    P: Fn(Segment, Real, Real) -> Segment,
    S: Fn(Segment, Real) -> Point,
    M: Fn(Real, Real) -> Real,
    A: Fn(Real, Real) -> Real,
>(
    tape: Tape<L, P, S, M, A>,
    value: spec_fn(Real) -> int,
    pattern: Seq<Real>,
    seg: Segment,
    total: Real,
    pos: Real,
    left: Real,
    d: DashModel,
    n: nat,
    out: (Real, DashModel),
    at: int,
)
    requires
        exact(tape.minus, tape.plus, value),
        pattern.len() > 0,
        forall|i: int|
            0 <= i < pattern.len() ==> !(#[trigger] pattern[i]).nan() && 0 <= value(pattern[i]),
        cuts(tape, pattern, seg, total, pos, left, d, n, out),
        !pos.nan() && !total.nan(),
        value(pos) <= value(total),
        0 <= value(left),
        in_step(pattern, value, at, left, d),
    ensures
        in_step(pattern, value, at + value(total) - value(pos), out.0, out.1),
        0 <= value(out.0),
    decreases n,
{
    if pos.less(total) {
        let leg = choose|leg: Leg| #[trigger]
            is_leg(tape, seg, total, pos, left, d.on, leg) && cuts(
                tape,
                pattern,
                seg,
                total,
                leg.pos,
                left_after(d, leg, pattern),
                after(d, leg, pattern.len() as int),
                (n - 1) as nat,
                out,
            );
        a_leg_stays_in_step(tape, value, pattern, seg, total, pos, left, d, leg, at);
        a_segment_uses_up_its_length(
            tape,
            value,
            pattern,
            seg,
            total,
            leg.pos,
            left_after(d, leg, pattern),
            after(d, leg, pattern.len() as int),
            (n - 1) as nat,
            out,
            at + value(leg.pos) - value(pos),
        );
    } else {
        assert(total.at_most(pos));
    }
}

/// A gap draws nothing. A dash draws the part of the segment that it covers, and a
/// new one moves to where that begins first; a dash that goes on from the segment
/// before does not move again.
pub proof fn only_dashes_are_drawn<
    L: Fn(Segment) -> Real,
    P: Fn(Segment, Real, Real) -> Segment,
    S: Fn(Segment, Real) -> Point,
    M: Fn(Real, Real) -> Real,
    A: Fn(Real, Real) -> Real,
>(
    tape: Tape<L, P, S, M, A>,
    seg: Segment,
    total: Real,
    pos: Real,
    left: Real,
    d: DashModel,
    leg: Leg,
    len: int,
)
    requires
        is_leg(tape, seg, total, pos, left, d.on, leg),
        len > 0,
    ensures
        ({
            let next = after(d, leg, len);
            let take = if leg.rest.less(left) {
                leg.rest
            } else {
                left
            };
            &&& !d.on ==> next.els == d.els
            &&& d.on && (Real { bits: 0 }).less(take) ==> (leg.piece matches Some(s)
                && call_ensures(tape.part, (seg, pos, take), s) && next.els == d.els + if d.started {
                seq![s.drawn()]
            } else {
                seq![PathEl::MoveTo(s.first()), s.drawn()]
            })
            &&& d.on && !(Real { bits: 0 }).less(take) && d.started ==> next.els == d.els
            &&& d.on && !(Real { bits: 0 }).less(take) && !d.started ==> next.els == d.els.push(
                PathEl::MoveTo(leg.at),
            )
            &&& d.on && !leg.left.at_most(Real { bits: 0 }) ==> next.started && next.on
            &&& leg.left.at_most(Real { bits: 0 }) ==> next.on != d.on && !next.started
            &&& !d.on && !leg.left.at_most(Real { bits: 0 }) ==> !next.on
        }),
{
    let next = after(d, leg, len);
    if d.on {
        match leg.piece {
            Some(s) => {
                if d.started {
                    assert(next.els =~= d.els + seq![s.drawn()]);
                } else {
                    assert(next.els =~= d.els + seq![PathEl::MoveTo(s.first()), s.drawn()]);
                }
            },
            None => {
                if d.started {
                    assert(next.els =~= d.els);
                } else {
                    assert(next.els =~= d.els.push(PathEl::MoveTo(leg.at)));
                }
            },
        }
    }
}

/// The period of a pattern is the sum of its entries, twice over where their number
/// is odd.
pub proof fn the_period_is_the_sum<A: Fn(Real, Real) -> Real>(
    plus: A,
    pattern: Seq<Real>,
    sums: Seq<Real>,
    period: Real,
    value: spec_fn(Real) -> int,
)
    requires
        repeats(plus, pattern, sums, period),
        value(Real { bits: 0 }) == 0,
        forall|a: Real, b: Real, c: Real| #[trigger]
            call_ensures(plus, (a, b), c) ==> value(c) == value(a) + value(b),
    ensures
        pattern.len() % 2 == 0 ==> value(period) == boundary(pattern, value, pattern.len()),
        pattern.len() % 2 == 1 ==> value(period) == 2 * boundary(pattern, value, pattern.len()),
{
    lemma_sums(plus, pattern, sums, period, value, pattern.len());
}

proof fn lemma_sums<A: Fn(Real, Real) -> Real>(
    plus: A,
    pattern: Seq<Real>,
    sums: Seq<Real>,
    period: Real,
    value: spec_fn(Real) -> int,
    k: nat,
)
    requires
        repeats(plus, pattern, sums, period),
        value(Real { bits: 0 }) == 0,
        forall|a: Real, b: Real, c: Real| #[trigger]
            call_ensures(plus, (a, b), c) ==> value(c) == value(a) + value(b),
        k <= pattern.len(),
    ensures
        value(sums[k as int]) == boundary(pattern, value, k),
    decreases k,
{
    if k > 0 {
        lemma_sums(plus, pattern, sums, period, value, (k - 1) as nat);
        vstd::arithmetic::div_mod::lemma_small_mod((k - 1) as nat, pattern.len());
        assert(call_ensures(plus, (sums[k - 1], pattern[k - 1]), sums[k as int]));
    }
}

/// A dot on a subpath of no segments is kept where a dash would be drawn there, and
/// nothing is added to any other subpath.
pub proof fn a_dot_keeps_its_place(sub: SubpathModel, d: DashModel)
    ensures
        outline::segments_of(sub).len() > 0 ==> ended(sub, d) == d.els,
        outline::segments_of(sub).len() == 0 && d.on && !d.started ==> ended(sub, d) == d.els.push(
            PathEl::MoveTo(sub.start),
        ),
        !d.on || d.started ==> ended(sub, d) == d.els,
{
}

/// Every subpath starts the pattern anew, as far into it as the offset says, whatever
/// was drawn before it, and draws behind that.
pub proof fn every_subpath_starts_the_pattern_anew<
    L: Fn(Segment) -> Real,
    P: Fn(Segment, Real, Real) -> Segment,
    S: Fn(Segment, Real) -> Point,
    M: Fn(Real, Real) -> Real,
    A: Fn(Real, Real) -> Real,
>(
    tape: Tape<L, P, S, M, A>,
    value: spec_fn(Real) -> int,
    pattern: Seq<Real>,
    phase: Real,
    sub: SubpathModel,
    limit: nat,
    els: Seq<PathEl>,
    out: Seq<PathEl>,
)
    requires
        exact(tape.minus, tape.plus, value),
        pattern.len() > 0,
        0 <= value(phase),
        subpath_dashed(tape, pattern, phase, sub, limit, els, out),
    ensures
        exists|first: (Real, DashModel)| #[trigger]
            in_step(pattern, value, value(phase), first.0, first.1) && first.1.els == els
                && !first.1.started && (outline::segments_of(sub).len() == 0 ==> out == ended(
                sub,
                first.1,
            )),
{
    let segs = outline::segments_of(sub);
    let runs = choose|runs: Seq<(Real, DashModel)>| #[trigger]
        runs_over(tape, pattern, phase, segs, limit, els, runs) && runs.len() == segs.len() + 1
            && out == ended(sub, runs.last().1);
    the_offset_goes_into_the_pattern(
        tape.minus,
        tape.plus,
        value,
        pattern,
        phase,
        els,
        limit,
        runs[0],
    );
    assert(in_step(pattern, value, value(phase), runs[0].0, runs[0].1));
}

/// A path whose pattern cannot be applied comes back as it is.
pub proof fn a_senseless_pattern_changes_nothing<
    L: Fn(Segment) -> Real,
    P: Fn(Segment, Real, Real) -> Segment,
    S: Fn(Segment, Real) -> Point,
    M: Fn(Real, Real) -> Real,
    A: Fn(Real, Real) -> Real,
    W: Fn(Real, Real) -> Real,
>(
    tape: Tape<L, P, S, M, A>,
    wrap: W,
    pattern: Seq<Real>,
    offset: Real,
    limit: nat,
    path: Path,
    r: Option<Path>,
)
    requires
        dashes(tape, wrap, pattern, offset, limit, path, r),
        pattern.len() == 0 || !offset.finite() || exists|i: int|
            0 <= i < pattern.len() && (#[trigger] pattern[i]).less(Real { bits: 0 }),
    ensures
        r matches Some(p) && p@ == path@,
{
    if pattern.len() > 0 && offset.finite() {
        let i = choose|i: int| 0 <= i < pattern.len() && (#[trigger] pattern[i]).less(
            Real { bits: 0 },
        );
        assert(!(Real { bits: 0 }).at_most(pattern[i]));
    }
}

} // verus!
