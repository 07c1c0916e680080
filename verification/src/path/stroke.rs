//! Stroke expansion: which offsets, joins, caps and contours make the outline a
//! path fills when it is drawn with a pen.
//!
//! Offsets, joins, caps, dashes and alignment are one walk over the segments of
//! a subpath, and they share its degenerate cases: a segment with no tangent, a
//! subpath with no segments, a corner that is not a corner. The walk is decided
//! here, as a list of [`Step`]s; what each step draws is geometry.
//!
//! The outline is filled nonzero. The inner side of a tight corner and the
//! overlap where a stroke doubles back on itself are left in it rather than
//! trimmed out.

use vstd::prelude::*;
use crate::geom::Point;
use crate::geom::Real;
use crate::path::outline;
use crate::path::outline::Path;
use crate::path::outline::PathEl;
use crate::path::outline::Segment;
use crate::path::outline::Subpath;
use crate::path::outline::SubpathModel;

verus! {

/// How the outline turns a corner between two segments.
#[derive(Clone, Copy, Debug, PartialEq, Eq, Structural)]
pub enum Join {
    /// Extend both edges until they meet, falling back to
    /// [`Bevel`](Self::Bevel) past the miter limit.
    Miter,
    /// A circular arc of the stroke's radius about the corner.
    Round,
    /// A straight edge across the gap.
    Bevel,
}

/// How the outline ends an open subpath.
#[derive(Clone, Copy, Debug, PartialEq, Eq, Structural)]
pub enum Cap {
    /// Square off at the endpoint, adding nothing.
    Butt,
    /// A half circle of the stroke's radius about the endpoint.
    Round,
    /// Square off half a width past the endpoint.
    Square,
}

/// Where the stroke sits relative to the path.
///
/// Inside and outside are defined against the fill: the stroke is the ring
/// between the fill's boundary and that boundary offset by the whole width. So
/// an open subpath is closed implicitly, and neither ever caps.
#[derive(Clone, Copy, Debug, PartialEq, Eq, Structural)]
pub enum Align {
    /// Half the width either side.
    Center,
    /// The full width inside the fill.
    Inside,
    /// The full width outside the fill.
    Outside,
}

impl Default for Join {
    fn default() -> (j: Join)
        ensures
            j == Join::Miter,
    {
        Join::Miter
    }
}

impl Default for Cap {
    fn default() -> (c: Cap)
        ensures
            c == Cap::Butt,
    {
        Cap::Butt
    }
}

impl Default for Align {
    fn default() -> (a: Align)
        ensures
            a == Align::Center,
    {
        Align::Center
    }
}

/// Used when a style asks for a tolerance that cannot be met: the number 0.1.
pub const DEFAULT_TOLERANCE: u64 = 0x3fb9_9999_9999_999a;

/// Everything that decides what a stroke looks like.
#[derive(Debug)]
pub struct StrokeStyle {
    /// Total width of the stroke. Zero or negative draws nothing at all.
    pub width: Real,
    /// How corners are turned.
    pub join: Join,
    /// How the ends of open subpaths are finished.
    pub cap: Cap,
    /// The largest ratio of miter length to stroke width a miter join may
    /// reach before it becomes a bevel.
    pub miter_limit: Real,
    /// Where the stroke sits relative to the path.
    pub align: Align,
    /// Alternating on and off lengths, in arc length. Empty for a solid stroke.
    pub dash: Vec<Real>,
    /// How far into the dash pattern each subpath starts.
    pub dash_offset: Real,
    /// The largest distance the outline may stray from the true one.
    pub tolerance: Real,
}

impl Default for StrokeStyle {
    /// Width 1, miter joins with a limit of 4, butt caps, no dashes, centred.
    fn default() -> (s: StrokeStyle)
        ensures
            s.width.bits == 0x3ff0_0000_0000_0000,
            s.join == Join::Miter,
            s.cap == Cap::Butt,
            s.miter_limit.bits == 0x4010_0000_0000_0000,
            s.align == Align::Center,
            s.dash@ == Seq::<Real>::empty(),
            s.dash_offset.bits == 0,
            s.tolerance.bits == DEFAULT_TOLERANCE,
    {
        StrokeStyle {
            width: Real { bits: 0x3ff0_0000_0000_0000 },
            join: Join::default(),
            cap: Cap::default(),
            miter_limit: Real { bits: 0x4010_0000_0000_0000 },
            align: Align::default(),
            dash: Vec::new(),
            dash_offset: Real { bits: 0 },
            tolerance: Real { bits: DEFAULT_TOLERANCE },
        }
    }
}

impl StrokeStyle {
    /// Whether a stroke of this width draws anything: a width that is not
    /// positive, not finite or not a number has no outline.
    pub fn draws(&self) -> (r: bool)
        ensures
            r == ((Real { bits: 0 }).less(self.width) && self.width.finite()),
    {
        (Real { bits: 0 }).below(self.width) && self.width.is_finite()
    }

    /// The tolerance to draw with, in place of refusing to draw.
    pub fn usable_tolerance(&self) -> (t: Real)
        ensures
            t == (if (Real { bits: 0 }).less(self.tolerance) {
                self.tolerance
            } else {
                Real { bits: DEFAULT_TOLERANCE }
            }),
    {
        if (Real { bits: 0 }).below(self.tolerance) {
            self.tolerance
        } else {
            Real { bits: DEFAULT_TOLERANCE }
        }
    }
}

/// How far from a segment its offset lies, as a part of the stroke's width.
#[derive(Clone, Copy, Debug, PartialEq, Eq, Structural)]
pub enum Distance {
    /// Half the width.
    Half,
    /// The whole width.
    Whole,
    /// The whole width, to the other side.
    MinusWhole,
}

/// One step of drawing an outline.
#[derive(Clone, Copy, Debug, PartialEq, Eq, Structural)]
pub enum Step {
    /// A cap with no length under it.
    Dot(Point),
    /// The offset of a segment, behind a `MoveTo` if `begin` says so.
    Offset { seg: Segment, d: Distance, begin: bool },
    /// The corner at a point between the offsets of two segments.
    Corner { at: Point, prev: Segment, next: Segment, d: Distance },
    /// The end of an open stroke at a point, in the direction in which a
    /// segment arrives.
    Finish { at: Point, along: Segment },
    /// An element as it is.
    Draw(PathEl),
}

/// Whether every control point sits on the start point.
pub open spec fn is_dot(s: Segment) -> bool {
    match s {
        Segment::Line(p0, p1) => p0.equals(p1),
        Segment::Quad(q) => q.p0.equals(q.p1) && q.p1.equals(q.p2),
        Segment::Cubic(c) => c.p0.equals(c.p1) && c.p1.equals(c.p2) && c.p2.equals(c.p3),
    }
}

/// True when every control point sits on the start point, so the segment has
/// no direction anywhere.
pub fn is_point(s: Segment) -> (r: bool)
    ensures
        r == is_dot(s),
{
    match s {
        Segment::Line(p0, p1) => p0.equal(p1),
        Segment::Quad(q) => q.p0.equal(q.p1) && q.p1.equal(q.p2),
        Segment::Cubic(c) => c.p0.equal(c.p1) && c.p1.equal(c.p2) && c.p2.equal(c.p3),
    }
}

/// The first `n` segments without those that have no direction.
pub open spec fn directed(segs: Seq<Segment>, n: int) -> Seq<Segment>
    decreases n,
{
    if n <= 0 {
        Seq::empty()
    } else if is_dot(segs[n - 1]) {
        directed(segs, n - 1)
    } else {
        directed(segs, n - 1).push(segs[n - 1])
    }
}

/// The segments of a subpath a stroke walks.
pub open spec fn walked(sub: SubpathModel) -> Seq<Segment> {
    directed(outline::segments_of(sub), outline::segments_of(sub).len() as int)
}

/// Whether a subpath ends with a `ClosePath`.
pub open spec fn closes(sub: SubpathModel) -> bool {
    sub.els.len() > 0 && sub.els.last() is ClosePath
}

/// The segments walked backwards, each reversed.
pub open spec fn turned(segs: Seq<Segment>) -> Seq<Segment> {
    Seq::new(segs.len(), |i: int| segs[segs.len() - 1 - i].backwards())
}

/// The closed contour of the fill of a subpath: an open one is closed by a
/// line, unless it ends where it starts.
pub open spec fn ring(sub: SubpathModel) -> Seq<Segment> {
    let segs = walked(sub);
    if segs.len() > 0 && !closes(sub) && !segs.last().last().equals(segs[0].first()) {
        segs.push(Segment::Line(segs.last().last(), segs[0].first()))
    } else {
        segs
    }
}

/// The offsets of the first `n` segments with the corners between them.
pub open spec fn side_steps(segs: Seq<Segment>, d: Distance, begin: bool, n: int) -> Seq<Step>
    decreases n,
{
    if n <= 0 {
        Seq::empty()
    } else {
        let offset = Step::Offset { seg: segs[n - 1], d, begin: begin && n == 1 };
        if n == 1 {
            seq![offset]
        } else {
            side_steps(segs, d, begin, n - 1).push(
                Step::Corner {
                    at: segs[n - 1].first(),
                    prev: segs[n - 2],
                    next: segs[n - 1],
                    d,
                },
            ).push(offset)
        }
    }
}

/// One side of a stroke: joined at every interior corner, and at the seam too
/// when it is closed.
pub open spec fn side(segs: Seq<Segment>, closed: bool, d: Distance, begin: bool) -> Seq<Step> {
    let steps = side_steps(segs, d, begin, segs.len() as int);
    if closed {
        steps.push(
            Step::Corner { at: segs[0].first(), prev: segs.last(), next: segs[0], d },
        ).push(Step::Draw(PathEl::ClosePath))
    } else {
        steps
    }
}

/// Segments as one closed contour.
pub open spec fn contour_steps(segs: Seq<Segment>) -> Seq<Step> {
    seq![Step::Draw(PathEl::MoveTo(segs[0].first()))] + Seq::new(
        segs.len(),
        |i: int| Step::Draw(segs[i].drawn()),
    ) + seq![Step::Draw(PathEl::ClosePath)]
}

/// The steps that outline a subpath. `clockwise` says whether the area its ring
/// encloses is negative, which decides what side of it is out.
pub open spec fn outline_steps(sub: SubpathModel, align: Align, clockwise: bool) -> Seq<Step> {
    let segs = walked(sub);
    if segs.len() == 0 {
        if align is Center {
            seq![Step::Dot(sub.start)]
        } else {
            Seq::empty()
        }
    } else if align is Center {
        let back = turned(segs);
        if closes(sub) {
            side(segs, true, Distance::Half, true) + side(back, true, Distance::Half, true)
        } else {
            side(segs, false, Distance::Half, true) + seq![
                Step::Finish { at: segs.last().last(), along: segs.last() },
            ] + side(back, false, Distance::Half, false) + seq![
                Step::Finish { at: segs[0].first(), along: back.last() },
                Step::Draw(PathEl::ClosePath),
            ]
        }
    } else {
        let closed = ring(sub);
        let d = if clockwise {
            Distance::Whole
        } else {
            Distance::MinusWhole
        };
        if align is Outside {
            side(closed, true, d, true) + contour_steps(turned(closed))
        } else {
            contour_steps(closed) + side(turned(closed), true, d, true)
        }
    }
}

/// The segments of a subpath that have a direction.
fn walked_segments(sub: &Subpath<'_>) -> (r: Vec<Segment>)
    ensures
        r@ == walked(sub@),
{
    let segs = sub.segments();
    let mut r: Vec<Segment> = Vec::new();
    let mut i: usize = 0;
    while i < segs.len()
        invariant
            i <= segs@.len(),
            r@ == directed(segs@, i as int),
        decreases segs@.len() - i,
    {
        if !is_point(segs[i]) {
            r.push(segs[i]);
        }
        i += 1;
    }
    r
}

/// The closed contour of a subpath's fill, whose area decides what side is out.
pub fn ring_segments(sub: &Subpath<'_>) -> (r: Vec<Segment>)
    ensures
        r@ == ring(sub@),
{
    let mut segs = walked_segments(sub);
    let n: usize = segs.len();
    if n > 0 && !sub.is_closed() {
        let last = segs[n - 1].end();
        let first = segs[0].start();
        if !last.equal(first) {
            segs.push(Segment::Line(last, first));
        }
    }
    segs
}

/// The same segments walked backwards, each reversed.
pub fn reversed(segs: &Vec<Segment>) -> (r: Vec<Segment>)
    ensures
        r@ == turned(segs@),
{
    let mut r: Vec<Segment> = Vec::new();
    let n: usize = segs.len();
    let mut i: usize = 0;
    while i < n
        invariant
            i <= n == segs@.len(),
            r@.len() == i,
            forall|k: int| 0 <= k < i ==> (#[trigger] r@[k]) == segs@[n - 1 - k].backwards(),
        decreases n - i,
    {
        r.push(segs[n - 1 - i].reverse());
        i += 1;
    }
    assert(r@ =~= turned(segs@));
    r
}

/// Walking back twice is walking forwards.
pub proof fn walking_back_twice_changes_nothing(segs: Seq<Segment>)
    ensures
        turned(turned(segs)) == segs,
{
    assert(turned(turned(segs)) =~= segs);
}

/// Appends the offset of `segs` at distance `d`, joined at every interior
/// corner and at the seam too when `closed`.
///
/// `begin` starts a new contour; the second side of an open stroke continues
/// from the cap that precedes it instead.
fn offset_side(
    segs: &Vec<Segment>,
    closed: bool,
    d: Distance,
    begin: bool,
    steps: &mut Vec<Step>,
)
    requires
        segs@.len() > 0,
    ensures
        final(steps)@ == old(steps)@ + side(segs@, closed, d, begin),
{
    let n: usize = segs.len();
    let mut i: usize = 0;
    assert(steps@ =~= old(steps)@ + side_steps(segs@, d, begin, 0));
    while i < n
        invariant
            i <= n == segs@.len(),
            steps@ == old(steps)@ + side_steps(segs@, d, begin, i as int),
        decreases n - i,
    {
        let seg = segs[i];
        if i > 0 {
            steps.push(Step::Corner { at: seg.start(), prev: segs[i - 1], next: seg, d });
        }
        steps.push(Step::Offset { seg, d, begin: begin && i == 0 });
        i += 1;
        assert(steps@ =~= old(steps)@ + side_steps(segs@, d, begin, i as int));
    }
    if closed {
        let last = segs[n - 1];
        steps.push(Step::Corner { at: segs[0].start(), prev: last, next: segs[0], d });
        steps.push(Step::Draw(PathEl::ClosePath));
    }
    assert(steps@ =~= old(steps)@ + side(segs@, closed, d, begin));
}

/// Appends `segs` as one closed contour of its own.
fn contour(segs: &Vec<Segment>, steps: &mut Vec<Step>)
    requires
        segs@.len() > 0,
    ensures
        final(steps)@ == old(steps)@ + contour_steps(segs@),
{
    let ghost drawn = Seq::new(segs@.len(), |i: int| Step::Draw(segs@[i].drawn()));
    steps.push(Step::Draw(PathEl::MoveTo(segs[0].start())));
    let ghost head = steps@;
    let mut i: usize = 0;
    while i < segs.len()
        invariant
            i <= segs@.len(),
            drawn.len() == segs@.len(),
            forall|k: int|
                0 <= k < segs@.len() ==> (#[trigger] drawn[k]) == Step::Draw(segs@[k].drawn()),
            steps@ == head + drawn.take(i as int),
        decreases segs@.len() - i,
    {
        steps.push(Step::Draw(segs[i].element()));
        i += 1;
        assert(steps@ =~= head + drawn.take(i as int));
    }
    steps.push(Step::Draw(PathEl::ClosePath));
    assert(steps@ =~= old(steps)@ + contour_steps(segs@));
}

/// The outline of one subpath, as steps.
///
/// Segments with no direction are dropped once, here: such a segment is also a
/// corner that does not exist. A subpath with nothing left is a dot.
///
/// `clockwise` says whether the area of [`ring_segments`] is negative; it is
/// not looked at for a centred stroke.
pub fn stroke_subpath(sub: &Subpath<'_>, align: Align, clockwise: bool) -> (steps: Vec<Step>)
    ensures
        steps@ == outline_steps(sub@, align, clockwise),
{
    let mut steps: Vec<Step> = Vec::new();
    let segs = walked_segments(sub);
    let n: usize = segs.len();
    if n == 0 {
        if matches!(align, Align::Center) {
            steps.push(Step::Dot(sub.start()));
        }
        assert(steps@ =~= outline_steps(sub@, align, clockwise));
        return steps;
    }
    if matches!(align, Align::Center) {
        let back = reversed(&segs);
        if sub.is_closed() {
            // Two contours and no caps: the seam is a corner like any other.
            offset_side(&segs, true, Distance::Half, true, &mut steps);
            offset_side(&back, true, Distance::Half, true, &mut steps);
        } else {
            let last = segs[n - 1];
            offset_side(&segs, false, Distance::Half, true, &mut steps);
            steps.push(Step::Finish { at: last.end(), along: last });
            offset_side(&back, false, Distance::Half, false, &mut steps);
            steps.push(Step::Finish { at: segs[0].start(), along: back[n - 1] });
            steps.push(Step::Draw(PathEl::ClosePath));
        }
        assert(steps@ =~= outline_steps(sub@, align, clockwise));
        return steps;
    }
    let closed = ring_segments(sub);
    let back = reversed(&closed);
    // Reversing the traversal flips both the side an offset lands on and the
    // side wanted, so the same signed distance serves both alignments.
    let d = if clockwise {
        Distance::Whole
    } else {
        Distance::MinusWhole
    };
    // Nonzero winding does the clipping: the offset boundary and the fill
    // boundary wound oppositely leave the ring between them.
    if matches!(align, Align::Outside) {
        offset_side(&closed, true, d, true, &mut steps);
        contour(&back, &mut steps);
    } else {
        contour(&closed, &mut steps);
        offset_side(&back, true, d, true, &mut steps);
    }
    assert(steps@ =~= outline_steps(sub@, align, clockwise));
    steps
}

/// The corners among the first `n` steps.
pub open spec fn corners(steps: Seq<Step>, n: int) -> nat
    decreases n,
{
    if n <= 0 {
        0
    } else if steps[n - 1] is Corner {
        corners(steps, n - 1) + 1
    } else {
        corners(steps, n - 1)
    }
}

proof fn lemma_corners_prefix(a: Seq<Step>, b: Seq<Step>, n: int)
    requires
        0 <= n <= a.len(),
        n <= b.len(),
        forall|i: int| 0 <= i < n ==> a[i] == b[i],
    ensures
        corners(a, n) == corners(b, n),
    decreases n,
{
    if n > 0 {
        lemma_corners_prefix(a, b, n - 1);
    }
}

proof fn lemma_side_corners(segs: Seq<Segment>, d: Distance, begin: bool, n: int)
    requires
        1 <= n <= segs.len(),
    ensures
        corners(side_steps(segs, d, begin, n), side_steps(segs, d, begin, n).len() as int) == n - 1,
    decreases n,
{
    let steps = side_steps(segs, d, begin, n);
    reveal_with_fuel(corners, 4);
    if n > 1 {
        lemma_side_corners(segs, d, begin, n - 1);
        let before = side_steps(segs, d, begin, n - 1);
        lemma_corners_prefix(before, steps, before.len() as int);
    } else {
        assert(steps.len() == 1);
        assert(!(steps[0] is Corner));
    }
}

/// A side turns exactly one corner between each two segments, and one more at
/// the seam when it is closed.
pub proof fn a_side_turns_each_corner_once(
    segs: Seq<Segment>,
    closed: bool,
    d: Distance,
    begin: bool,
)
    requires
        segs.len() > 0,
    ensures
        corners(side(segs, closed, d, begin), side(segs, closed, d, begin).len() as int)
            == segs.len() - (if closed {
            0int
        } else {
            1
        }),
{
    lemma_side_corners(segs, d, begin, segs.len() as int);
    if closed {
        let before = side_steps(segs, d, begin, segs.len() as int);
        let steps = side(segs, closed, d, begin);
        reveal_with_fuel(corners, 4);
        lemma_corners_prefix(before, steps, before.len() as int);
    }
}

proof fn lemma_side_never_caps(segs: Seq<Segment>, d: Distance, begin: bool, n: int)
    requires
        0 <= n <= segs.len(),
    ensures
        forall|i: int|
            0 <= i < side_steps(segs, d, begin, n).len() ==> !((#[trigger] side_steps(
                segs,
                d,
                begin,
                n,
            )[i]) is Finish) && !(side_steps(segs, d, begin, n)[i] is Dot),
    decreases n,
{
    if n > 0 {
        lemma_side_never_caps(segs, d, begin, n - 1);
    }
}

/// Neither the inside nor the outside alignment ever caps or dots: a ring has
/// no ends.
pub proof fn a_ring_never_caps(sub: SubpathModel, align: Align, clockwise: bool, i: int)
    requires
        !(align is Center),
        0 <= i < outline_steps(sub, align, clockwise).len(),
    ensures
        !(outline_steps(sub, align, clockwise)[i] is Finish),
        !(outline_steps(sub, align, clockwise)[i] is Dot),
{
    let closed = ring(sub);
    let d = if clockwise {
        Distance::Whole
    } else {
        Distance::MinusWhole
    };
    lemma_side_never_caps(closed, d, true, closed.len() as int);
    lemma_side_never_caps(turned(closed), d, true, closed.len() as int);
}

/// Whether a dash pattern can be applied: it has entries, none of them
/// negative, a positive finite period and a finite offset.
pub open spec fn can_dash(pattern: Seq<Real>, period: Real, offset: Real) -> bool {
    &&& pattern.len() > 0
    &&& forall|i: int| 0 <= i < pattern.len() ==> (Real { bits: 0 }).at_most(#[trigger] pattern[i])
    &&& (Real { bits: 0 }).less(period) && period.finite()
    &&& offset.finite()
}

/// Whether a dash pattern can be applied. `period` is the sum of the entries,
/// or twice that for a pattern with an odd number of them.
pub fn dashable(pattern: &Vec<Real>, period: Real, offset: Real) -> (r: bool)
    ensures
        r == can_dash(pattern@, period, offset),
{
    let zero = Real { bits: 0 };
    if pattern.len() == 0 || !zero.below(period) || !period.is_finite() || !offset.is_finite() {
        return false;
    }
    let mut i: usize = 0;
    while i < pattern.len()
        invariant
            i <= pattern@.len(),
            zero == (Real { bits: 0 }),
            forall|k: int| 0 <= k < i ==> zero.at_most(#[trigger] pattern@[k]),
        decreases pattern@.len() - i,
    {
        if !zero.not_above(pattern[i]) {
            return false;
        }
        i += 1;
    }
    true
}

/// A walk's place in a dash pattern, and the dashes it has cut.
///
/// Dashing produces open subpaths; a dash of zero length comes out as a lone
/// `MoveTo`, which is exactly the dot a round cap draws there.
pub struct Dashes {
    /// The entry of the pattern the walk is in.
    pub entry: usize,
    /// Whether that entry draws.
    pub on: bool,
    /// Whether the dash being built already has a `MoveTo`; it outlives a
    /// segment because a dash spans segment boundaries.
    pub started: bool,
    pub els: Vec<PathEl>,
}

impl Dashes {
    /// The start of a pattern.
    pub fn new() -> (d: Dashes)
        ensures
            d.entry == 0,
            d.on,
            !d.started,
            d.els@ == Seq::<PathEl>::empty(),
    {
        Dashes { entry: 0, on: true, started: false, els: Vec::new() }
    }

    /// Starts the pattern over for the next subpath, keeping what was cut.
    pub fn restart(&mut self)
        ensures
            final(self).entry == 0,
            final(self).on,
            !final(self).started,
            final(self).els@ == old(self).els@,
    {
        self.entry = 0;
        self.on = true;
        self.started = false;
    }

    /// Goes on to the next entry of a pattern of `len` entries, which begins
    /// again after its last. A pattern of an odd length thus swaps the roles of
    /// its entries every time round.
    pub fn advance(&mut self, len: usize)
        requires
            old(self).entry < len,
        ensures
            final(self).entry == (old(self).entry + 1) % len as int,
            final(self).on == !old(self).on,
            final(self).started == old(self).started,
            final(self).els@ == old(self).els@,
    {
        let next: usize = if self.entry + 1 == len {
            0
        } else {
            self.entry + 1
        };
        proof {
            if next == 0 {
                assert((self.entry + 1) % len as int == 0) by (nonlinear_arith)
                    requires
                        self.entry + 1 == len,
                        len > 0,
                ;
            } else {
                assert((self.entry + 1) % len as int == self.entry + 1) by (nonlinear_arith)
                    requires
                        0 <= self.entry + 1 < len,
                ;
            }
        }
        self.entry = next;
        self.on = !self.on;
    }

    /// Takes a stretch of a segment: `piece` is what it covers, or nothing for
    /// a stretch of no length at `at`. `used_up` says whether the entry ends
    /// with it; the next drawn stretch is then a new subpath, because dashes do
    /// not join.
    pub fn take(&mut self, piece: Option<Segment>, at: Point, used_up: bool, len: usize)
        requires
            old(self).entry < len,
        ensures
            final(self).els@ == old(self).els@ + (if old(self).on {
                (if old(self).started {
                    Seq::empty()
                } else {
                    seq![
                        PathEl::MoveTo(
                            match piece {
                                Some(s) => s.first(),
                                None => at,
                            },
                        ),
                    ]
                }) + (match piece {
                    Some(s) => seq![s.drawn()],
                    None => Seq::empty(),
                })
            } else {
                Seq::empty()
            }),
            final(self).started == (!used_up && (old(self).started || old(self).on)),
            final(self).on == (old(self).on != used_up),
            final(self).entry == (if used_up {
                (old(self).entry + 1) % len as int
            } else {
                old(self).entry as int
            }),
    {
        if self.on {
            if !self.started {
                let start = match piece {
                    Some(s) => s.start(),
                    None => at,
                };
                self.els.push(PathEl::MoveTo(start));
                self.started = true;
            }
            if let Some(s) = piece {
                self.els.push(s.element());
            }
        }
        assert(self.els@ =~= old(self).els@ + (if old(self).on {
            (if old(self).started {
                Seq::empty()
            } else {
                seq![
                    PathEl::MoveTo(
                        match piece {
                            Some(s) => s.first(),
                            None => at,
                        },
                    ),
                ]
            }) + (match piece {
                Some(s) => seq![s.drawn()],
                None => Seq::empty(),
            })
        } else {
            Seq::empty()
        }));
        if used_up {
            self.advance(len);
            self.started = false;
        }
    }

    /// Ends a subpath. One with no segments still has a position, and a dot
    /// there is what a round cap draws.
    pub fn end_subpath(&mut self, start: Point, no_segments: bool)
        ensures
            final(self).els@ == (if !old(self).started && old(self).on && no_segments {
                old(self).els@.push(PathEl::MoveTo(start))
            } else {
                old(self).els@
            }),
            final(self).entry == old(self).entry,
            final(self).on == old(self).on,
            final(self).started == old(self).started,
    {
        if !self.started && self.on && no_segments {
            self.els.push(PathEl::MoveTo(start));
        }
    }
}

/// The outline of one subpath as it was drawn: the side on which its ring lies,
/// and the elements of each step.
pub struct Outline {
    pub clockwise: bool,
    pub parts: Seq<Vec<PathEl>>,
}

/// Whether an outline is drawn step by step.
pub open spec fn outlined<W: Fn(Vec<Segment>) -> bool, R: Fn(Step) -> Vec<PathEl>>(
    clockwise: W,
    draw: R,
    align: Align,
    sub: SubpathModel,
    line: Outline,
) -> bool {
    let steps = outline_steps(sub, align, line.clockwise);
    &&& !(align is Center) ==> exists|v: Vec<Segment>| #[trigger]
        call_ensures(clockwise, (v,), line.clockwise) && v@ == ring(sub)
    &&& line.parts.len() == steps.len()
    &&& forall|k: int|
        0 <= k < steps.len() ==> call_ensures(draw, (steps[k],), #[trigger] line.parts[k])
}

/// The elements of the first `n` steps, in order.
pub open spec fn drawn_parts(parts: Seq<Vec<PathEl>>, n: int) -> Seq<PathEl>
    decreases n,
{
    if n <= 0 {
        Seq::empty()
    } else {
        drawn_parts(parts, n - 1) + parts[n - 1]@
    }
}

/// The elements of the first `n` outlines, in order.
pub open spec fn drawn_lines(lines: Seq<Outline>, n: int) -> Seq<PathEl>
    decreases n,
{
    if n <= 0 {
        Seq::empty()
    } else {
        drawn_lines(lines, n - 1) + drawn_parts(lines[n - 1].parts, lines[n - 1].parts.len() as int)
    }
}

proof fn lemma_parts_prefix(a: Seq<Vec<PathEl>>, b: Seq<Vec<PathEl>>, n: int)
    requires
        0 <= n <= a.len(),
        n <= b.len(),
        forall|i: int| 0 <= i < n ==> a[i] == b[i],
    ensures
        drawn_parts(a, n) == drawn_parts(b, n),
    decreases n,
{
    if n > 0 {
        lemma_parts_prefix(a, b, n - 1);
    }
}

proof fn lemma_lines_prefix(a: Seq<Outline>, b: Seq<Outline>, n: int)
    requires
        0 <= n <= a.len(),
        n <= b.len(),
        forall|i: int| 0 <= i < n ==> a[i] == b[i],
    ensures
        drawn_lines(a, n) == drawn_lines(b, n),
    decreases n,
{
    if n > 0 {
        lemma_lines_prefix(a, b, n - 1);
    }
}

/// Appends elements.
fn append_elements(els: &mut Vec<PathEl>, more: &Vec<PathEl>)
    ensures
        final(els)@ == old(els)@ + more@,
{
    let mut i: usize = 0;
    assert(els@ =~= old(els)@ + more@.take(0));
    while i < more.len()
        invariant
            i <= more@.len(),
            els@ == old(els)@ + more@.take(i as int),
        decreases more.len() - i,
    {
        els.push(more[i]);
        i += 1;
        assert(els@ =~= old(els)@ + more@.take(i as int));
    }
    assert(more@.take(i as int) == more@);
}

/// Draws steps one after another.
fn draw_steps<R: Fn(Step) -> Vec<PathEl>>(steps: &Vec<Step>, draw: &R, els: &mut Vec<PathEl>) -> (
parts: Ghost<Seq<Vec<PathEl>>>)
    requires
        forall|s: Step| call_requires(draw, (s,)),
    ensures
        parts@.len() == steps@.len(),
        forall|k: int|
            0 <= k < steps@.len() ==> call_ensures(draw, (steps@[k],), #[trigger] parts@[k]),
        final(els)@ == old(els)@ + drawn_parts(parts@, parts@.len() as int),
{
    let ghost mut parts: Seq<Vec<PathEl>> = Seq::empty();
    let mut i: usize = 0;
    assert(els@ =~= old(els)@ + drawn_parts(parts, 0));
    while i < steps.len()
        invariant
            i <= steps@.len(),
            parts.len() == i,
            forall|s: Step| call_requires(draw, (s,)),
            forall|k: int|
                0 <= k < i ==> call_ensures(draw, (steps@[k],), #[trigger] parts[k]),
            els@ == old(els)@ + drawn_parts(parts, i as int),
        decreases steps.len() - i,
    {
        let part = draw(steps[i]);
        append_elements(els, &part);
        proof {
            let earlier = parts;
            parts = parts.push(part);
            lemma_parts_prefix(earlier, parts, i as int);
            assert(els@ =~= old(els)@ + drawn_parts(parts, i + 1));
        }
        i += 1;
    }
    Ghost(parts)
}

/// Whether `els` is the outline that subpaths fill when they are stroked.
pub open spec fn strokes<W: Fn(Vec<Segment>) -> bool, R: Fn(Step) -> Vec<PathEl>>(
    clockwise: W,
    draw: R,
    align: Align,
    subs: Seq<SubpathModel>,
    els: Seq<PathEl>,
) -> bool {
    exists|lines: Seq<Outline>|
        lines.len() == subs.len() && (forall|i: int|
            0 <= i < subs.len() ==> outlined(
                clockwise,
                draw,
                align,
                subs[i],
                #[trigger] lines[i],
            )) && els == #[trigger] drawn_lines(lines, lines.len() as int)
}

impl Path {
    /// The outline this path fills when it is stroked as it is, whatever the
    /// dashes of the style: nothing for a width that draws nothing.
    ///
    /// `clockwise` says whether the area that segments enclose is negative, and
    /// `draw` draws one step.
    pub fn stroke_undashed<W: Fn(Vec<Segment>) -> bool, R: Fn(Step) -> Vec<PathEl>>(
        &self,
        style: &StrokeStyle,
        clockwise: &W,
        draw: &R,
    ) -> (r: Path)
        requires
            forall|v: Vec<Segment>| call_requires(clockwise, (v,)),
            forall|s: Step| call_requires(draw, (s,)),
        ensures
            !((Real { bits: 0 }).less(style.width) && style.width.finite()) ==> r@ == Seq::<
                PathEl,
            >::empty(),
            (Real { bits: 0 }).less(style.width) && style.width.finite() ==> strokes(
                *clockwise,
                *draw,
                style.align,
                self.parts(),
                r@,
            ),
    {
        if !style.draws() {
            return Path::new();
        }
        let subs = self.subpaths();
        let ghost models = self.parts();
        let mut els: Vec<PathEl> = Vec::new();
        let ghost mut lines: Seq<Outline> = Seq::empty();
        let mut i: usize = 0;
        while i < subs.len()
            invariant
                i <= subs@.len(),
                lines.len() == i,
                models == outline::subpaths_view(subs@),
                forall|v: Vec<Segment>| call_requires(clockwise, (v,)),
                forall|s: Step| call_requires(draw, (s,)),
                forall|k: int|
                    0 <= k < i ==> outlined(
                        *clockwise,
                        *draw,
                        style.align,
                        models[k],
                        #[trigger] lines[k],
                    ),
                els@ == drawn_lines(lines, i as int),
            decreases subs.len() - i,
        {
            let closed = ring_segments(&subs[i]);
            let ghost segs = closed;
            let turning = if matches!(style.align, Align::Center) {
                false
            } else {
                clockwise(closed)
            };
            let steps = stroke_subpath(&subs[i], style.align, turning);
            let parts = draw_steps(&steps, draw, &mut els);
            proof {
                let earlier = lines;
                let line = Outline { clockwise: turning, parts: parts@ };
                lines = lines.push(line);
                lemma_lines_prefix(earlier, lines, i as int);
                let sub = models[i as int];
                assert(sub == subs@[i as int]@);
                assert(steps@ == outline_steps(sub, style.align, line.clockwise));
                if !(style.align is Center) {
                    assert(call_ensures(clockwise, (segs,), turning) && segs@ == ring(sub));
                }
                assert forall|k: int| 0 <= k < steps@.len() implies call_ensures(
                    draw,
                    (steps@[k],),
                    #[trigger] line.parts[k],
                ) by {}
                assert(outlined(*clockwise, *draw, style.align, models[i as int], line));
                assert(els@ =~= drawn_lines(lines, i + 1));
            }
            i += 1;
        }
        Path::from(els)
    }
}

/// The control points of a segment, its ends among them.
pub open spec fn controls(s: Segment) -> Seq<Point> {
    match s {
        Segment::Line(p0, p1) => seq![p0, p1],
        Segment::Quad(q) => seq![q.p0, q.p1, q.p2],
        Segment::Cubic(c) => seq![c.p0, c.p1, c.p2, c.p3],
    }
}

/// A segment is left out of the walk only where all its control points are the
/// same point, whatever its kind: it stays as soon as two of them differ. Where
/// it is left out, each of its control points equals the next.
pub proof fn only_a_dot_is_left_out(s: Segment, i: int, j: int)
    requires
        0 <= i < controls(s).len(),
        0 <= j < controls(s).len(),
    ensures
        is_dot(s) <==> forall|k: int|
            0 < k < controls(s).len() ==> controls(s)[k - 1].equals(#[trigger] controls(s)[k]),
        is_dot(s) && i < j ==> controls(s)[i].equals(controls(s)[j]),
{
    let c = controls(s);
    if forall|k: int| 0 < k < c.len() ==> c[k - 1].equals(#[trigger] c[k]) {
        assert(c[0].equals(c[1]));
        if c.len() > 2 {
            assert(c[1].equals(c[2]));
        }
        if c.len() > 3 {
            assert(c[2].equals(c[3]));
        }
    }
    if is_dot(s) {
        assert(c[0].equals(c[1]));
        assert(c[1 - 1].equals(c[1]));
        if c.len() > 2 {
            assert(c[2 - 1].equals(c[2]));
        }
        if c.len() > 3 {
            assert(c[3 - 1].equals(c[3]));
        }
    }
}

/// A walk keeps exactly the segments that have a direction, in their order.
proof fn lemma_directed(segs: Seq<Segment>, n: int)
    requires
        0 <= n <= segs.len(),
    ensures
        directed(segs, n).len() <= n,
        forall|m: int|
            0 <= m < directed(segs, n).len() ==> !is_dot(#[trigger] directed(segs, n)[m])
                && segs.contains(directed(segs, n)[m]),
        forall|k: int|
            0 <= k < n && !is_dot(#[trigger] segs[k]) ==> directed(segs, n).contains(segs[k]),
        (forall|k: int| 0 <= k < n ==> !is_dot(#[trigger] segs[k])) ==> directed(segs, n)
            == segs.take(n),
    decreases n,
{
    if n > 0 {
        lemma_directed(segs, n - 1);
        let before = directed(segs, n - 1);
        let now = directed(segs, n);
        assert forall|k: int| 0 <= k < n && !is_dot(#[trigger] segs[k]) implies now.contains(
            segs[k],
        ) by {
            if k < n - 1 {
                assert(before.contains(segs[k]));
                let m = choose|m: int| 0 <= m < before.len() && before[m] == segs[k];
                assert(now[m] == segs[k]);
            } else {
                assert(now[now.len() - 1] == segs[k]);
            }
        }
        if forall|k: int| 0 <= k < n ==> !is_dot(#[trigger] segs[k]) {
            assert(!is_dot(segs[n - 1]));
            assert(now =~= segs.take(n));
        }
    } else {
        assert(directed(segs, n) =~= segs.take(n));
    }
}

/// The steps of a side one by one: the offsets of its segments in order, with a
/// corner between each two, turned at the point where the second begins.
proof fn lemma_side_step(segs: Seq<Segment>, d: Distance, begin: bool, n: int, k: int)
    requires
        0 <= k < n <= segs.len(),
    ensures
        side_steps(segs, d, begin, n).len() == 2 * n - 1,
        side_steps(segs, d, begin, n)[2 * k] == (Step::Offset {
            seg: segs[k],
            d,
            begin: begin && k == 0,
        }),
        k > 0 ==> side_steps(segs, d, begin, n)[2 * k - 1] == (Step::Corner {
            at: segs[k].first(),
            prev: segs[k - 1],
            next: segs[k],
            d,
        }),
    decreases n,
{
    if n > 1 {
        if k < n - 1 {
            lemma_side_step(segs, d, begin, n - 1, k);
        } else {
            lemma_side_step(segs, d, begin, n - 1, 0);
        }
    }
}

/// Every segment with a direction is offset on both sides of a centred stroke:
/// for each segment of a subpath with two control points that differ, whatever
/// its kind, the outline has an offset of it by half the width and one of its
/// reverse.
pub proof fn every_segment_is_offset_on_both_sides(
    sub: SubpathModel,
    clockwise: bool,
    k: int,
    i: int,
    j: int,
)
    requires
        0 <= k < outline::segments_of(sub).len(),
        0 <= i < j < controls(outline::segments_of(sub)[k]).len(),
        !controls(outline::segments_of(sub)[k])[i].equals(
            controls(outline::segments_of(sub)[k])[j],
        ),
    ensures
        ({
            let s = outline::segments_of(sub)[k];
            let steps = outline_steps(sub, Align::Center, clockwise);
            &&& exists|m: int|
                0 <= m < steps.len() && (#[trigger] steps[m] matches Step::Offset { seg, d, .. }
                    && seg == s && d == Distance::Half)
            &&& exists|m: int|
                0 <= m < steps.len() && (#[trigger] steps[m] matches Step::Offset { seg, d, .. }
                    && seg == s.backwards() && d == Distance::Half)
        }),
{
    let all = outline::segments_of(sub);
    let s = all[k];
    only_a_dot_is_left_out(s, i, j);
    lemma_directed(all, all.len() as int);
    let segs = walked(sub);
    assert(segs.contains(s));
    let at = choose|m: int| 0 <= m < segs.len() && segs[m] == s;
    a_centred_stroke_goes_out_and_back(sub, clockwise, at);
    a_centred_stroke_goes_out_and_back(sub, clockwise, segs.len() - 1 - at);
    let steps = outline_steps(sub, Align::Center, clockwise);
    let n = segs.len() as int;
    let gap: int = if closes(sub) {
        1
    } else {
        0
    };
    assert(steps[2 * at] is Offset);
    let back = 2 * n + gap + 2 * (n - 1 - at);
    assert(steps[back] is Offset);
}

/// A centred stroke goes out along its segments and back along their reverses,
/// half the width away, with a corner between each two. An open one is finished
/// at its end and, once back, at its start, and closed once; a closed one turns
/// a corner at its seam on either way and closes both.
pub proof fn a_centred_stroke_goes_out_and_back(sub: SubpathModel, clockwise: bool, k: int)
    requires
        0 <= k < walked(sub).len(),
    ensures
        ({
            let segs = walked(sub);
            let n = segs.len() as int;
            let steps = outline_steps(sub, Align::Center, clockwise);
            let gap: int = if closes(sub) {
                1
            } else {
                0
            };
            let half = Distance::Half;
            let behind = segs[n - 1 - k].backwards();
            &&& steps.len() == 4 * n + (if closes(sub) {
                2int
            } else {
                1int
            })
            &&& steps[2 * k] == (Step::Offset { seg: segs[k], d: half, begin: k == 0 })
            &&& k > 0 ==> steps[2 * k - 1] == (Step::Corner {
                at: segs[k].first(),
                prev: segs[k - 1],
                next: segs[k],
                d: half,
            })
            &&& steps[2 * n + gap + 2 * k] == (Step::Offset {
                seg: behind,
                d: half,
                begin: k == 0 && closes(sub),
            })
            &&& k > 0 ==> steps[2 * n + gap + 2 * k - 1] == (Step::Corner {
                at: segs[n - 1 - k].last(),
                prev: segs[n - k].backwards(),
                next: behind,
                d: half,
            })
            &&& !closes(sub) ==> steps[2 * n - 1] == (Step::Finish {
                at: segs[n - 1].last(),
                along: segs[n - 1],
            }) && steps[4 * n - 1] == (Step::Finish {
                at: segs[0].first(),
                along: segs[0].backwards(),
            }) && steps[4 * n] == Step::Draw(PathEl::ClosePath)
            &&& closes(sub) ==> steps[2 * n - 1] == (Step::Corner {
                at: segs[0].first(),
                prev: segs[n - 1],
                next: segs[0],
                d: half,
            }) && steps[2 * n] == Step::Draw(PathEl::ClosePath) && steps[4 * n] == (Step::Corner {
                at: segs[n - 1].last(),
                prev: segs[0].backwards(),
                next: segs[n - 1].backwards(),
                d: half,
            }) && steps[4 * n + 1] == Step::Draw(PathEl::ClosePath)
        }),
{
    let segs = walked(sub);
    let n = segs.len() as int;
    let back = turned(segs);
    let half = Distance::Half;
    lemma_side_step(segs, half, true, n, k);
    lemma_side_step(back, half, closes(sub), n, k);
    lemma_side_step(segs, half, true, n, 0);
    let steps = outline_steps(sub, Align::Center, clockwise);
    let out = side_steps(segs, half, true, n);
    let home = side_steps(back, half, closes(sub), n);
    assert(back[n - 1] == segs[0].backwards());
    assert(back[0] == segs[n - 1].backwards());
    if closes(sub) {
        assert(steps[2 * k] == out[2 * k]);
        assert(k > 0 ==> steps[2 * k - 1] == out[2 * k - 1]);
        assert(steps[2 * n + 1 + 2 * k] == home[2 * k]);
        assert(k > 0 ==> steps[2 * n + 1 + 2 * k - 1] == home[2 * k - 1]);
    } else {
        assert(steps[2 * k] == out[2 * k]);
        assert(k > 0 ==> steps[2 * k - 1] == out[2 * k - 1]);
        assert(steps[2 * n + 2 * k] == home[2 * k]);
        assert(k > 0 ==> steps[2 * n + 2 * k - 1] == home[2 * k - 1]);
    }
}

/// A stroke beside the line has one side a whole width away, outward, and the
/// line itself as the other. Drawn outside, the side goes the way of the ring and
/// the ring comes back reversed; inside, the other way about. What is outward
/// depends on the way the ring goes round alone.
pub proof fn a_stroke_beside_the_line_follows_its_ring(
    sub: SubpathModel,
    align: Align,
    clockwise: bool,
    k: int,
)
    requires
        align != Align::Center,
        0 <= k < ring(sub).len(),
    ensures
        ({
            let r = ring(sub);
            let n = r.len() as int;
            let steps = outline_steps(sub, align, clockwise);
            let d = if clockwise {
                Distance::Whole
            } else {
                Distance::MinusWhole
            };
            let behind = r[n - 1 - k].backwards();
            &&& steps.len() == 3 * n + 3
            &&& align == Align::Outside ==> steps[2 * k] == (Step::Offset {
                seg: r[k],
                d,
                begin: k == 0,
            }) && steps[2 * n] == Step::Draw(PathEl::ClosePath) && steps[2 * n + 1] == Step::Draw(
                PathEl::MoveTo(r[n - 1].last()),
            ) && steps[2 * n + 2 + k] == Step::Draw(behind.drawn())
            &&& align == Align::Inside ==> steps[0] == Step::Draw(PathEl::MoveTo(r[0].first()))
                && steps[1 + k] == Step::Draw(r[k].drawn()) && steps[n + 1] == Step::Draw(
                PathEl::ClosePath,
            ) && steps[n + 2 + 2 * k] == (Step::Offset { seg: behind, d, begin: k == 0 })
            &&& steps[3 * n + 2] == Step::Draw(PathEl::ClosePath)
        }),
{
    let r = ring(sub);
    let n = r.len() as int;
    let back = turned(r);
    let d = if clockwise {
        Distance::Whole
    } else {
        Distance::MinusWhole
    };
    assert(walked(sub).len() > 0);
    lemma_side_step(r, d, true, n, k);
    lemma_side_step(back, d, true, n, k);
    let steps = outline_steps(sub, align, clockwise);
    assert(back[0] == r[n - 1].backwards());
    if align == Align::Outside {
        assert(steps[2 * k] == side_steps(r, d, true, n)[2 * k]);
    } else {
        assert(steps[n + 2 + 2 * k] == side_steps(back, d, true, n)[2 * k]);
    }
}

/// The ring of a subpath goes back to where it began: it is the walk itself when
/// that is closed or ends where it starts, and otherwise one line longer.
pub proof fn a_ring_comes_back(sub: SubpathModel)
    requires
        walked(sub).len() > 0,
    ensures
        ({
            let r = ring(sub);
            let w = walked(sub);
            let shut = closes(sub) || w.last().last().equals(w[0].first());
            &&& shut ==> r == w
            &&& !shut ==> r.len() == w.len() + 1 && r.last() == Segment::Line(
                w.last().last(),
                w[0].first(),
            )
            &&& forall|k: int| 0 <= k < w.len() ==> r[k] == #[trigger] w[k]
        }),
{
}

/// A subpath without any direction is a dot when the stroke is centred and
/// nothing otherwise, and nothing but such a subpath is drawn as a dot.
pub proof fn only_a_subpath_without_direction_is_a_dot(
    sub: SubpathModel,
    align: Align,
    clockwise: bool,
)
    ensures
        (forall|k: int|
            0 <= k < outline::segments_of(sub).len() ==> is_dot(
                #[trigger] outline::segments_of(sub)[k],
            )) ==> outline_steps(sub, align, clockwise) == (if align == Align::Center {
            seq![Step::Dot(sub.start)]
        } else {
            Seq::empty()
        }),
{
    let all = outline::segments_of(sub);
    lemma_directed(all, all.len() as int);
    if forall|k: int| 0 <= k < all.len() ==> is_dot(#[trigger] all[k]) {
        if walked(sub).len() > 0 {
            let s = walked(sub)[0];
            assert(all.contains(s));
            let k = choose|k: int| 0 <= k < all.len() && all[k] == s;
            assert(is_dot(all[k]));
        }
    }
}

/// A pattern is applied only where it makes sense: it is not empty, no entry is
/// negative or no number, the period is positive and finite and the offset finite.
pub proof fn only_a_sensible_pattern_dashes(pattern: Seq<Real>, period: Real, offset: Real, i: int)
    requires
        0 <= i < pattern.len(),
    ensures
        pattern[i].nan() || pattern[i].less(Real { bits: 0 }) ==> !can_dash(pattern, period, offset),
        period.nan() || period.bits == 0x7ff0_0000_0000_0000 || period.at_most(Real { bits: 0 })
            ==> !can_dash(pattern, period, offset),
        !offset.finite() ==> !can_dash(pattern, period, offset),
        !can_dash(Seq::empty(), period, offset),
        (forall|j: int|
            0 <= j < pattern.len() ==> !(#[trigger] pattern[j]).nan() && !pattern[j].less(
                Real { bits: 0 },
            )) && (Real { bits: 0 }).less(period) && period.finite() && offset.finite()
            ==> can_dash(pattern, period, offset),
{
    if forall|j: int|
        0 <= j < pattern.len() ==> !(#[trigger] pattern[j]).nan() && !pattern[j].less(
            Real { bits: 0 },
        ) {
        assert forall|j: int| 0 <= j < pattern.len() implies (Real { bits: 0 }).at_most(
            #[trigger] pattern[j],
        ) by {
            assert(!pattern[j].nan() && !pattern[j].less(Real { bits: 0 }));
        }
    }
}

/// A stroke draws its subpaths one after the other, and of each all its steps in
/// order.
pub proof fn a_stroke_draws_step_by_step(parts: Seq<Vec<PathEl>>, lines: Seq<Outline>, n: int)
    requires
        0 < n,
    ensures
        drawn_parts(parts, n) == drawn_parts(parts, n - 1) + parts[n - 1]@,
        drawn_lines(lines, n) == drawn_lines(lines, n - 1) + drawn_parts(
            lines[n - 1].parts,
            lines[n - 1].parts.len() as int,
        ),
        drawn_parts(parts, 0).len() == 0 && drawn_lines(lines, 0).len() == 0,
{
}

} // verus!
