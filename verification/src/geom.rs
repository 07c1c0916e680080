//! Coordinates, points and rectangles.
//!
//! A coordinate is an IEEE 754 binary64 number held by its bit pattern. What is
//! decided here and in the modules above is how coordinates compare: equality,
//! order, finiteness. Their arithmetic is the caller's.

use vstd::prelude::*;

verus! {

/// A binary64 number, by its bits.
#[derive(Clone, Copy, Debug, PartialEq, Eq, Hash, Structural)]
pub struct Real {
    pub bits: u64,
}

/// The bits of positive infinity: every finite number has a smaller magnitude,
/// every NaN a larger one.
pub const INFINITY: u64 = 0x7ff0_0000_0000_0000;

impl Real {
    /// The bits without the sign. Among numbers of one sign it grows with them.
    pub open spec fn magnitude(self) -> int {
        self.bits as int % 0x8000_0000_0000_0000
    }

    pub open spec fn negative(self) -> bool {
        self.bits >= 0x8000_0000_0000_0000
    }

    pub open spec fn nan(self) -> bool {
        self.magnitude() > INFINITY
    }

    pub open spec fn finite(self) -> bool {
        self.magnitude() < INFINITY
    }

    /// An integer that orders numbers as their values do; both zeros are 0.
    pub open spec fn rank(self) -> int {
        if self.negative() {
            -self.magnitude()
        } else {
            self.magnitude()
        }
    }

    /// `==` of two numbers: a NaN equals nothing.
    pub open spec fn equals(self, other: Real) -> bool {
        !self.nan() && !other.nan() && self.rank() == other.rank()
    }

    /// `<` of two numbers: a NaN is not ordered.
    pub open spec fn less(self, other: Real) -> bool {
        !self.nan() && !other.nan() && self.rank() < other.rank()
    }

    /// `<=` of two numbers.
    pub open spec fn at_most(self, other: Real) -> bool {
        !self.nan() && !other.nan() && self.rank() <= other.rank()
    }

    /// `other` where it is the smaller number.
    pub open spec fn lesser(self, other: Real) -> Real {
        if other.less(self) {
            other
        } else {
            self
        }
    }

    /// `other` where it is the larger number.
    pub open spec fn greater(self, other: Real) -> Real {
        if self.less(other) {
            other
        } else {
            self
        }
    }

    /// An integer that orders all bit patterns as `total_cmp` does: a negative
    /// zero comes before a positive one.
    pub open spec fn total_rank(self) -> int {
        if self.negative() {
            -1 - self.magnitude()
        } else {
            self.magnitude()
        }
    }

    /// The number with these bits.
    pub fn from_bits(bits: u64) -> (r: Real)
        ensures
            r.bits == bits,
    {
        Real { bits }
    }

    fn magnitude_bits(self) -> (m: u64)
        ensures
            m == self.magnitude(),
    {
        self.bits % 0x8000_0000_0000_0000
    }

    fn rank_bits(self) -> (r: i64)
        ensures
            r == self.rank(),
    {
        if self.bits >= 0x8000_0000_0000_0000 {
            -(self.magnitude_bits() as i64)
        } else {
            self.bits as i64
        }
    }

    /// An integer that orders all bit patterns: a negative zero comes before a
    /// positive one.
    pub fn total_key(self) -> (r: i64)
        ensures
            r == self.total_rank(),
    {
        if self.bits >= 0x8000_0000_0000_0000 {
            -1 - (self.magnitude_bits() as i64)
        } else {
            self.bits as i64
        }
    }

    /// An integer that orders numbers as their values do.
    pub fn order_key(self) -> (r: i64)
        ensures
            r == self.rank(),
    {
        self.rank_bits()
    }

    pub fn is_nan(self) -> (r: bool)
        ensures
            r == self.nan(),
    {
        self.magnitude_bits() > INFINITY
    }

    pub fn is_finite(self) -> (r: bool)
        ensures
            r == self.finite(),
    {
        self.magnitude_bits() < INFINITY
    }

    /// `self == other` as numbers.
    pub fn equal(self, other: Real) -> (r: bool)
        ensures
            r == self.equals(other),
    {
        !self.is_nan() && !other.is_nan() && self.rank_bits() == other.rank_bits()
    }

    /// `self < other` as numbers.
    pub fn below(self, other: Real) -> (r: bool)
        ensures
            r == self.less(other),
    {
        !self.is_nan() && !other.is_nan() && self.rank_bits() < other.rank_bits()
    }

    /// `self <= other` as numbers.
    pub fn not_above(self, other: Real) -> (r: bool)
        ensures
            r == self.at_most(other),
    {
        !self.is_nan() && !other.is_nan() && self.rank_bits() <= other.rank_bits()
    }

    /// Whether `self` comes before `other` in the total order of bit patterns.
    pub fn precedes(self, other: Real) -> (r: bool)
        ensures
            r == (self.total_rank() < other.total_rank()),
    {
        let a_neg = self.bits >= 0x8000_0000_0000_0000;
        let b_neg = other.bits >= 0x8000_0000_0000_0000;
        if a_neg && b_neg {
            other.magnitude_bits() < self.magnitude_bits()
        } else if a_neg != b_neg {
            a_neg
        } else {
            self.bits < other.bits
        }
    }
}

/// A point of the plane.
#[derive(Clone, Copy, Debug, PartialEq, Eq, Hash, Structural)]
pub struct Point {
    pub x: Real,
    pub y: Real,
}

impl Point {
    /// `==` of two points, coordinate by coordinate.
    pub open spec fn equals(self, other: Point) -> bool {
        self.x.equals(other.x) && self.y.equals(other.y)
    }

    pub open spec fn finite(self) -> bool {
        self.x.finite() && self.y.finite()
    }

    /// The point with these coordinates.
    pub fn new(x: Real, y: Real) -> (p: Point)
        ensures
            p == (Point { x, y }),
    {
        Point { x, y }
    }

    /// `self == other`, coordinate by coordinate.
    pub fn equal(self, other: Point) -> (r: bool)
        ensures
            r == self.equals(other),
    {
        self.x.equal(other.x) && self.y.equal(other.y)
    }

    pub fn is_finite(self) -> (r: bool)
        ensures
            r == self.finite(),
    {
        self.x.is_finite() && self.y.is_finite()
    }
}

/// An axis-aligned rectangle, from `(x0, y0)` to `(x1, y1)`.
#[derive(Clone, Copy, Debug, PartialEq, Eq, Structural)]
pub struct Rect {
    pub x0: Real,
    pub y0: Real,
    pub x1: Real,
    pub y1: Real,
}

impl Rect {
    /// Edge to edge: each rectangle starts before the other ends, on both axes.
    pub open spec fn meets(self, other: Rect) -> bool {
        &&& self.x0.less(other.x1) && other.x0.less(self.x1)
        &&& self.y0.less(other.y1) && other.y0.less(self.y1)
    }

    /// `other` does not reach outside this rectangle.
    pub open spec fn holds(self, other: Rect) -> bool {
        &&& self.x0.at_most(other.x0) && other.x1.at_most(self.x1)
        &&& self.y0.at_most(other.y0) && other.y1.at_most(self.y1)
    }

    /// Whether there is nothing between the edges on one of the axes; edges that
    /// are no numbers enclose nothing either.
    pub open spec fn encloses_nothing(self) -> bool {
        !(self.x0.less(self.x1) && self.y0.less(self.y1))
    }

    /// The rectangle of no points: its edges are infinite and inverted.
    pub open spec fn nothing() -> Rect {
        let far = Real { bits: INFINITY };
        let back = Real { bits: 0xfff0_0000_0000_0000 };
        Rect { x0: far, y0: far, x1: back, y1: back }
    }

    /// This rectangle, grown as far as it takes to hold a point.
    pub open spec fn grown(self, p: Point) -> Rect {
        Rect {
            x0: self.x0.lesser(p.x),
            y0: self.y0.lesser(p.y),
            x1: self.x1.greater(p.x),
            y1: self.y1.greater(p.y),
        }
    }

    /// This rectangle, grown as far as it takes to hold another.
    pub open spec fn joined(self, other: Rect) -> Rect {
        Rect {
            x0: self.x0.lesser(other.x0),
            y0: self.y0.lesser(other.y0),
            x1: self.x1.greater(other.x1),
            y1: self.y1.greater(other.y1),
        }
    }

    /// The bound of the first `n` rectangles.
    pub open spec fn across(boxes: Seq<Rect>, n: int) -> Rect
        decreases n,
    {
        if n <= 0 {
            Rect::nothing()
        } else {
            Rect::across(boxes, n - 1).joined(boxes[n - 1])
        }
    }

    /// The bound of the first `n` points.
    pub open spec fn around(points: Seq<Point>, n: int) -> Rect
        decreases n,
    {
        if n <= 0 {
            Rect::nothing()
        } else {
            Rect::around(points, n - 1).grown(points[n - 1])
        }
    }

    /// The rectangle of no points, which nothing overlaps.
    pub fn empty() -> (r: Rect)
        ensures
            r == Rect::nothing(),
    {
        let far = Real { bits: INFINITY };
        let back = Real { bits: 0xfff0_0000_0000_0000 };
        Rect { x0: far, y0: far, x1: back, y1: back }
    }

    /// Whether the rectangle has no area.
    pub fn is_empty(self) -> (r: bool)
        ensures
            r == self.encloses_nothing(),
    {
        !(self.x0.below(self.x1) && self.y0.below(self.y1))
    }

    /// The smallest rectangle around this one and another.
    pub fn union(self, other: Rect) -> (r: Rect)
        ensures
            r == self.joined(other),
    {
        Rect {
            x0: if other.x0.below(self.x0) {
                other.x0
            } else {
                self.x0
            },
            y0: if other.y0.below(self.y0) {
                other.y0
            } else {
                self.y0
            },
            x1: if self.x1.below(other.x1) {
                other.x1
            } else {
                self.x1
            },
            y1: if self.y1.below(other.y1) {
                other.y1
            } else {
                self.y1
            },
        }
    }

    /// The smallest rectangle around this one and a point.
    pub fn union_point(self, p: Point) -> (r: Rect)
        ensures
            r == self.grown(p),
    {
        self.union(Rect { x0: p.x, y0: p.y, x1: p.x, y1: p.y })
    }

    /// The rectangle with these edges.
    pub fn new(x0: Real, y0: Real, x1: Real, y1: Real) -> (r: Rect)
        ensures
            r == (Rect { x0, y0, x1, y1 }),
    {
        Rect { x0, y0, x1, y1 }
    }

    /// Whether the two rectangles overlap. Touching edges do not count.
    pub fn overlaps(self, other: Rect) -> (r: bool)
        ensures
            r == self.meets(other),
    {
        self.x0.below(other.x1) && other.x0.below(self.x1) && self.y0.below(other.y1)
            && other.y0.below(self.y1)
    }

    /// Whether `other` lies in this rectangle, touching edges allowed.
    pub fn contains_rect(self, other: Rect) -> (r: bool)
        ensures
            r == self.holds(other),
    {
        self.x0.not_above(other.x0) && other.x1.not_above(self.x1) && self.y0.not_above(other.y0)
            && other.y1.not_above(self.y1)
    }
}

/// What lies in a rectangle and meets an area makes the rectangle meet it too.
pub proof fn holding_carries_meeting(outer: Rect, inner: Rect, area: Rect)
    requires
        outer.holds(inner),
        inner.meets(area),
    ensures
        outer.meets(area),
{
}

/// A rectangle of no points overlaps nothing.
pub proof fn nothing_meets_no_points(area: Rect)
    ensures
        !Rect::nothing().meets(area),
        !area.meets(Rect::nothing()),
        Rect::nothing().encloses_nothing(),
{
}

/// The bound of points holds every one of them that is a number on both axes.
pub proof fn a_bound_holds_its_points(points: Seq<Point>, n: int, k: int)
    requires
        0 <= k < n <= points.len(),
        !points[k].x.nan(),
        !points[k].y.nan(),
    ensures
        Rect::around(points, n).x0.at_most(points[k].x),
        points[k].x.at_most(Rect::around(points, n).x1),
        Rect::around(points, n).y0.at_most(points[k].y),
        points[k].y.at_most(Rect::around(points, n).y1),
    decreases n,
{
    lemma_bound_numbers(points, n - 1);
    if k < n - 1 {
        a_bound_holds_its_points(points, n - 1, k);
    }
}

proof fn lemma_bound_numbers(points: Seq<Point>, n: int)
    ensures
        !Rect::around(points, n).x0.nan(),
        !Rect::around(points, n).y0.nan(),
        !Rect::around(points, n).x1.nan(),
        !Rect::around(points, n).y1.nan(),
    decreases n,
{
    if n > 0 {
        lemma_bound_numbers(points, n - 1);
    }
}

/// The bound of rectangles holds every one of them whose edges are numbers.
pub proof fn a_bound_holds_its_boxes(boxes: Seq<Rect>, n: int, k: int)
    requires
        0 <= k < n <= boxes.len(),
        !boxes[k].x0.nan() && !boxes[k].y0.nan() && !boxes[k].x1.nan() && !boxes[k].y1.nan(),
    ensures
        Rect::across(boxes, n).holds(boxes[k]),
    decreases n,
{
    lemma_across_numbers(boxes, n - 1);
    if k < n - 1 {
        a_bound_holds_its_boxes(boxes, n - 1, k);
    }
}

proof fn lemma_across_numbers(boxes: Seq<Rect>, n: int)
    ensures
        !Rect::across(boxes, n).x0.nan(),
        !Rect::across(boxes, n).y0.nan(),
        !Rect::across(boxes, n).x1.nan(),
        !Rect::across(boxes, n).y1.nan(),
    decreases n,
{
    if n > 0 {
        lemma_across_numbers(boxes, n - 1);
    }
}

/// Numbers compare by sign and size: of two numbers one is below the other or
/// they are equal, never both; a negative number is below a positive one, larger
/// bits are larger among positive numbers and smaller among negative ones, and
/// the two zeros are equal.
pub proof fn numbers_are_ordered(a: Real, b: Real)
    requires
        !a.nan(),
        !b.nan(),
    ensures
        a.less(b) || b.less(a) || a.equals(b),
        !(a.less(b) && b.less(a)) && !(a.less(b) && a.equals(b)),
        a.equals(b) <==> b.equals(a),
        a.at_most(b) <==> a.less(b) || a.equals(b),
        a.bits < 0x8000_0000_0000_0000 && b.bits < 0x8000_0000_0000_0000 ==> (a.less(b)
            <==> a.bits < b.bits),
        a.bits >= 0x8000_0000_0000_0000 && b.bits >= 0x8000_0000_0000_0000 ==> (a.less(b)
            <==> a.bits > b.bits),
        a.bits > 0x8000_0000_0000_0000 && b.bits < 0x8000_0000_0000_0000 ==> a.less(b),
        a.bits == 0x8000_0000_0000_0000 && b.bits == 0 ==> a.equals(b),
        a.equals(b) ==> a.bits == b.bits || (a.bits == 0 && b.bits == 0x8000_0000_0000_0000) || (
        a.bits == 0x8000_0000_0000_0000 && b.bits == 0),
{
}

/// What is below a number is below everything that is not below that number.
pub proof fn the_order_carries_over(a: Real, b: Real, c: Real)
    ensures
        a.less(b) && b.less(c) ==> a.less(c),
        a.less(b) && b.at_most(c) ==> a.less(c),
        a.at_most(b) && b.less(c) ==> a.less(c),
        a.at_most(b) && b.at_most(c) ==> a.at_most(c),
        a.equals(b) && b.equals(c) ==> a.equals(c),
        a.at_most(b) && b.at_most(a) ==> a.equals(b),
{
}

/// What is no number is not ordered and equals nothing, not even itself; a number
/// is finite unless it is one of the two infinities, between which all lie.
pub proof fn what_is_no_number_is_not_ordered(a: Real, b: Real)
    ensures
        a.nan() ==> !a.less(b) && !b.less(a) && !a.equals(b) && !a.at_most(b) && !b.at_most(a)
            && !a.equals(a),
        !a.nan() ==> a.equals(a) && a.at_most(a),
        a.nan() <==> 0x7ff0_0000_0000_0000 < a.bits < 0x8000_0000_0000_0000 || a.bits
            > 0xfff0_0000_0000_0000,
        a.finite() <==> !a.nan() && a.bits != 0x7ff0_0000_0000_0000 && a.bits
            != 0xfff0_0000_0000_0000,
        a.finite() ==> a.less(Real { bits: 0x7ff0_0000_0000_0000 }) && (Real {
            bits: 0xfff0_0000_0000_0000,
        }).less(a),
{
}

/// The total order tells all bit patterns apart, agrees with the order of numbers
/// and puts a negative zero before a positive one.
pub proof fn the_total_order_refines_the_order(a: Real, b: Real)
    ensures
        a.total_rank() == b.total_rank() <==> a.bits == b.bits,
        a.less(b) ==> a.total_rank() < b.total_rank(),
        (Real { bits: 0x8000_0000_0000_0000 }).total_rank() < (Real { bits: 0 }).total_rank(),
        a.negative() && !b.negative() ==> a.total_rank() < b.total_rank(),
{
}

/// The lesser and the greater of two numbers are one of them, below or above
/// both.
pub proof fn the_lesser_and_the_greater(a: Real, b: Real)
    requires
        !a.nan(),
        !b.nan(),
    ensures
        a.lesser(b).at_most(a) && a.lesser(b).at_most(b),
        a.at_most(a.greater(b)) && b.at_most(a.greater(b)),
        a.lesser(b) == a || a.lesser(b) == b,
        a.greater(b) == a || a.greater(b) == b,
        a.equals(b) ==> a.lesser(b) == a && a.greater(b) == a,
{
}

/// Overlap goes both ways, and touching is none; a rectangle that encloses
/// something overlaps itself, and what lies in a rectangle that lies in another
/// lies in that one.
pub proof fn overlap_is_mutual(a: Rect, b: Rect, c: Rect)
    ensures
        a.meets(b) <==> b.meets(a),
        a.x1.at_most(b.x0) ==> !a.meets(b),
        a.y1.at_most(b.y0) ==> !a.meets(b),
        !a.encloses_nothing() ==> a.meets(a),
        a.holds(b) && b.holds(c) ==> a.holds(c),
        a.holds(b) && !b.encloses_nothing() ==> a.meets(b),
{
}

/// Where two rectangles overlap they share a part that encloses something: the
/// greater of their starts lies before the lesser of their ends on both axes.
pub proof fn overlap_is_a_common_part(a: Rect, b: Rect)
    requires
        !a.x0.nan() && !a.y0.nan() && !a.x1.nan() && !a.y1.nan(),
        !b.x0.nan() && !b.y0.nan() && !b.x1.nan() && !b.y1.nan(),
        !a.encloses_nothing() && !b.encloses_nothing(),
    ensures
        a.meets(b) <==> a.x0.greater(b.x0).less(a.x1.lesser(b.x1)) && a.y0.greater(b.y0).less(
            a.y1.lesser(b.y1),
        ),
{
}

/// The union of two rectangles holds both, and lies in every rectangle that holds
/// both: it is the smallest.
pub proof fn a_union_is_the_smallest_that_holds_both(a: Rect, b: Rect, other: Rect)
    requires
        !a.x0.nan() && !a.y0.nan() && !a.x1.nan() && !a.y1.nan(),
        !b.x0.nan() && !b.y0.nan() && !b.x1.nan() && !b.y1.nan(),
    ensures
        a.joined(b).holds(a) && a.joined(b).holds(b),
        other.holds(a) && other.holds(b) ==> other.holds(a.joined(b)),
{
}

/// A rectangle grown by a point is the smallest that holds both.
pub proof fn growing_takes_in_one_point(a: Rect, p: Point)
    ensures
        a.grown(p) == a.joined(Rect { x0: p.x, y0: p.y, x1: p.x, y1: p.y }),
{
}

/// The bound of points is no larger than they need: each edge goes through one of
/// them, unless there is none to bound.
pub proof fn a_bound_touches_its_points(points: Seq<Point>, n: int)
    requires
        0 <= n <= points.len(),
        exists|k: int|
            0 <= k < n && (#[trigger] points[k]).finite(),
    ensures
        exists|k: int| 0 <= k < n && (#[trigger] points[k]).x == Rect::around(points, n).x0,
        exists|k: int| 0 <= k < n && (#[trigger] points[k]).x == Rect::around(points, n).x1,
        exists|k: int| 0 <= k < n && (#[trigger] points[k]).y == Rect::around(points, n).y0,
        exists|k: int| 0 <= k < n && (#[trigger] points[k]).y == Rect::around(points, n).y1,
{
    let k = choose|k: int| 0 <= k < n && (#[trigger] points[k]).finite();
    a_bound_holds_its_points(points, n, k);
    lemma_edges_of_points(points, n);
}

proof fn lemma_edges_of_points(points: Seq<Point>, n: int)
    requires
        0 <= n <= points.len(),
    ensures
        Rect::around(points, n).x0 == Rect::nothing().x0 || exists|k: int|
            0 <= k < n && (#[trigger] points[k]).x == Rect::around(points, n).x0,
        Rect::around(points, n).x1 == Rect::nothing().x1 || exists|k: int|
            0 <= k < n && (#[trigger] points[k]).x == Rect::around(points, n).x1,
        Rect::around(points, n).y0 == Rect::nothing().y0 || exists|k: int|
            0 <= k < n && (#[trigger] points[k]).y == Rect::around(points, n).y0,
        Rect::around(points, n).y1 == Rect::nothing().y1 || exists|k: int|
            0 <= k < n && (#[trigger] points[k]).y == Rect::around(points, n).y1,
    decreases n,
{
    if n > 0 {
        lemma_edges_of_points(points, n - 1);
        let p = points[n - 1];
        let before = Rect::around(points, n - 1);
        let now = Rect::around(points, n);
        assert(now.x0 == before.x0 || now.x0 == p.x);
        assert(now.x1 == before.x1 || now.x1 == p.x);
        assert(now.y0 == before.y0 || now.y0 == p.y);
        assert(now.y1 == before.y1 || now.y1 == p.y);
    }
}

/// The bound of rectangles lies in every rectangle that holds them all.
pub proof fn a_bound_of_boxes_is_the_smallest(boxes: Seq<Rect>, n: int, other: Rect)
    requires
        0 < n <= boxes.len(),
        forall|k: int| 0 <= k < n ==> other.holds(#[trigger] boxes[k]),
    ensures
        other.holds(Rect::across(boxes, n)),
    decreases n,
{
    assert(other.holds(boxes[n - 1]));
    lemma_across_numbers(boxes, n - 1);
    if n > 1 {
        a_bound_of_boxes_is_the_smallest(boxes, n - 1, other);
    } else {
        reveal_with_fuel(Rect::across, 2);
    }
}

} // verus!
