//! What a fill is painted with: which stops of a ramp a point lies between, and
//! the dither pattern that hides the steps of an 8-bit gradient.

use vstd::prelude::*;
use crate::geom::Point;
use crate::geom::Real;
use crate::raster::fill::Color;

verus! {

/// One colour stop of a gradient.
#[derive(Clone, Copy, Debug, PartialEq, Eq, Structural)]
pub struct Stop {
    /// Position along the gradient: 0 at its start, 1 at its end.
    ///
    /// Offsets are given in non-decreasing order. Two equal offsets are a hard
    /// edge between the colours.
    pub offset: Real,
    /// The straight (non-premultiplied) colour at that offset.
    pub color: Color,
}

/// What a gradient paints outside its range.
#[derive(Clone, Copy, Debug, PartialEq, Eq, Structural)]
pub enum Spread {
    /// The end stops extend outwards forever.
    Pad,
    /// The ramp tiles: 1.25 paints what 0.25 paints.
    Repeat,
    /// The ramp tiles mirrored: 1.25 paints what 0.75 paints.
    Reflect,
}

/// What a fill is painted with.
#[derive(Debug)]
pub enum Paint {
    /// A single straight colour.
    Solid(Color),
    /// A ramp along the axis from `start` to `end`, constant across it.
    Linear { start: Point, end: Point, stops: Vec<Stop>, spread: Spread },
    /// A ramp from `focus` outwards to the circle `center`/`radius`.
    Radial { center: Point, radius: Real, focus: Point, stops: Vec<Stop>, spread: Spread },
}

/// Where on a ramp a parameter lies.
#[derive(Clone, Copy, Debug, PartialEq, Eq, Structural)]
pub enum Ramp {
    /// The ramp has no stops: nothing is painted.
    Nothing,
    /// One colour, as it is.
    Exactly(Color),
    /// Between two stops, to be interpolated by the distances to them.
    Between(Stop, Stop),
}

/// What the stops from `i` on say of `t`, which lies before the last of them.
pub open spec fn between(stops: Seq<Stop>, i: int, t: Real) -> Ramp
    decreases stops.len() - i,
{
    if i + 1 >= stops.len() {
        Ramp::Exactly(stops.last().color)
    } else if t.less(stops[i + 1].offset) {
        if stops[i + 1].offset.at_most(stops[i].offset) {
            Ramp::Exactly(stops[i + 1].color)
        } else {
            Ramp::Between(stops[i], stops[i + 1])
        }
    } else {
        between(stops, i + 1, t)
    }
}

/// Where on a ramp `t` lies.
pub open spec fn located(stops: Seq<Stop>, t: Real) -> Ramp {
    if stops.len() == 0 {
        Ramp::Nothing
    } else if t.at_most(stops[0].offset) {
        Ramp::Exactly(stops[0].color)
    } else if stops.last().offset.at_most(t) {
        Ramp::Exactly(stops.last().color)
    } else {
        between(stops, 0, t)
    }
}

/// Where on a ramp `t` lies.
///
/// At and beyond the ends the colour is the end stop's own. Offsets out of
/// order are a caller's mistake, but never give two stops to divide by zero
/// between.
pub fn sample(stops: &Vec<Stop>, t: Real) -> (r: Ramp)
    ensures
        r == located(stops@, t),
{
    let n: usize = stops.len();
    if n == 0 {
        return Ramp::Nothing;
    }
    let last = stops[n - 1];
    if t.not_above(stops[0].offset) {
        return Ramp::Exactly(stops[0].color);
    }
    if last.offset.not_above(t) {
        return Ramp::Exactly(last.color);
    }
    let mut i: usize = 0;
    while i + 1 < n
        invariant
            i < n == stops@.len(),
            last == stops@[n - 1],
            between(stops@, i as int, t) == between(stops@, 0, t),
            located(stops@, t) == between(stops@, 0, t),
        decreases n - i,
    {
        let a = stops[i];
        let b = stops[i + 1];
        if t.below(b.offset) {
            if b.offset.not_above(a.offset) {
                return Ramp::Exactly(b.color);
            }
            return Ramp::Between(a, b);
        }
        i += 1;
    }
    Ramp::Exactly(last.color)
}

/// Whether offsets are numbers in non-decreasing order.
pub open spec fn in_order(stops: Seq<Stop>) -> bool {
    forall|i: int, j: int|
        0 <= i <= j < stops.len() ==> (#[trigger] stops[i]).offset.at_most(
            (#[trigger] stops[j]).offset,
        )
}

proof fn lemma_between(stops: Seq<Stop>, i: int, t: Real)
    requires
        in_order(stops),
        0 <= i < stops.len(),
        stops[i].offset.at_most(t),
        t.less(stops.last().offset),
    ensures
        between(stops, i, t) matches Ramp::Between(a, b) && a.offset.at_most(t) && t.less(b.offset),
    decreases stops.len() - i,
{
    assert(i + 1 < stops.len()) by {
        assert(stops[i].offset.at_most(stops[stops.len() - 1].offset));
    }
    assert(stops[i + 1].offset.at_most(stops[i + 1].offset));
    if !t.less(stops[i + 1].offset) {
        lemma_between(stops, i + 1, t);
    }
}

/// On a ramp in order, a parameter inside it lies between two stops that hold
/// it, the first at or before it and the second beyond it: the distance between
/// them is never zero.
pub proof fn a_ramp_brackets_its_inside(stops: Seq<Stop>, t: Real)
    requires
        in_order(stops),
        stops.len() > 0,
        stops[0].offset.less(t),
        t.less(stops.last().offset),
    ensures
        located(stops, t) matches Ramp::Between(a, b) && a.offset.at_most(t) && t.less(b.offset),
{
    lemma_between(stops, 0, t);
}

/// One, by its bits: the far end of a ramp.
pub const END: u64 = 0x3ff0_0000_0000_0000;

/// Zero: the near end of a ramp.
pub open spec fn near_end() -> Real {
    Real { bits: 0 }
}

/// One: the far end of a ramp.
pub open spec fn far_end() -> Real {
    Real { bits: END }
}

impl Spread {
    /// Whether a parameter folds to `r`. One that is infinite lies at an end of
    /// the ramp, and one that is not a number at its start.
    pub open spec fn folds<R: Fn(Real) -> Real, M: Fn(Real) -> Real>(
        self,
        repeated: R,
        reflected: M,
        t: Real,
        r: Real,
    ) -> bool {
        if !t.finite() {
            r == if near_end().less(t) {
                far_end()
            } else {
                near_end()
            }
        } else {
            match self {
                Spread::Pad => r == if t.less(near_end()) {
                    near_end()
                } else if far_end().less(t) {
                    far_end()
                } else {
                    t
                },
                Spread::Repeat => call_ensures(repeated, (t,), r),
                Spread::Reflect => call_ensures(reflected, (t,), r),
            }
        }
    }

    /// Folds a raw gradient parameter into the ramp. `repeated` is the part of a
    /// finite number behind its floor, and `reflected` the same folded at every
    /// other one.
    pub fn map<R: Fn(Real) -> Real, M: Fn(Real) -> Real>(
        self,
        t: Real,
        repeated: &R,
        reflected: &M,
    ) -> (r: Real)
        requires
            forall|t: Real| call_requires(repeated, (t,)),
            forall|t: Real| call_requires(reflected, (t,)),
        ensures
            self.folds(*repeated, *reflected, t, r),
    {
        let zero = Real { bits: 0 };
        let one = Real { bits: END };
        if !t.is_finite() {
            return if zero.below(t) {
                one
            } else {
                zero
            };
        }
        match self {
            Spread::Pad => if t.below(zero) {
                zero
            } else if one.below(t) {
                one
            } else {
                t
            },
            Spread::Repeat => repeated(t),
            Spread::Reflect => reflected(t),
        }
    }
}

/// Whether folding keeps finite parameters on the ramp.
pub open spec fn stays_on<F: Fn(Real) -> Real>(fold: F) -> bool {
    forall|t: Real, r: Real| #[trigger]
        call_ensures(fold, (t,), r) ==> near_end().at_most(r) && r.at_most(far_end())
}

/// A folded parameter lies on the ramp, whatever it was before.
pub proof fn a_folded_parameter_is_on_the_ramp<R: Fn(Real) -> Real, M: Fn(Real) -> Real>(
    spread: Spread,
    repeated: R,
    reflected: M,
    t: Real,
    r: Real,
)
    requires
        spread.folds(repeated, reflected, t, r),
        stays_on(repeated),
        stays_on(reflected),
    ensures
        near_end().at_most(r),
        r.at_most(far_end()),
{
    assert(near_end().rank() == 0);
    assert(far_end().rank() > 0);
}

impl Paint {
    /// Whether `t` is the parameter of a gradient at `p`, before it is folded: a
    /// linear one on an axis of no length and a radial one of no radius paint
    /// their last stop.
    pub open spec fn runs<
        L: Fn(Point, Point) -> Real,
        A: Fn(Point, Point, Point) -> Real,
        C: Fn(Point, Real, Point, Point) -> Real,
    >(self, length: L, along: A, around: C, p: Point, t: Real) -> bool {
        match self {
            Paint::Solid(_) => true,
            Paint::Linear { start, end, .. } => exists|len: Real| #[trigger]
                call_ensures(length, (start, end), len) && if near_end().less(len) {
                    call_ensures(along, (start, end, p), t)
                } else {
                    t == far_end()
                },
            Paint::Radial { center, radius, focus, .. } => if near_end().less(radius) {
                call_ensures(around, (center, radius, focus, p), t)
            } else {
                t == far_end()
            },
        }
    }

    /// Where on its ramp a paint lies at the folded parameter `t`.
    pub open spec fn shows(self, t: Real) -> Ramp {
        match self {
            Paint::Solid(c) => Ramp::Exactly(c),
            Paint::Linear { stops, .. } => located(stops@, t),
            Paint::Radial { stops, .. } => located(stops@, t),
        }
    }

    pub open spec fn folding(self) -> Spread {
        match self {
            Paint::Solid(_) => Spread::Pad,
            Paint::Linear { spread, .. } => spread,
            Paint::Radial { spread, .. } => spread,
        }
    }

    /// What this paint has at a point.
    ///
    /// `length` measures an axis, `along` is the parameter of a point on one,
    /// and `around` that of a point about a focus in a circle whose radius is
    /// positive. The rest is as for [`Spread::map`].
    pub fn at<
        L: Fn(Point, Point) -> Real,
        A: Fn(Point, Point, Point) -> Real,
        C: Fn(Point, Real, Point, Point) -> Real,
        R: Fn(Real) -> Real,
        M: Fn(Real) -> Real,
    >(&self, p: Point, length: &L, along: &A, around: &C, repeated: &R, reflected: &M) -> (r: Ramp)
        requires
            forall|a: Point, b: Point| call_requires(length, (a, b)),
            forall|a: Point, b: Point, c: Point| call_requires(along, (a, b, c)),
            forall|a: Point, b: Real, c: Point, d: Point| call_requires(around, (a, b, c, d)),
            forall|t: Real| call_requires(repeated, (t,)),
            forall|t: Real| call_requires(reflected, (t,)),
        ensures
            exists|t: Real, u: Real|
                #![trigger self.runs(*length, *along, *around, p, t), self.shows(u)]
                self.runs(*length, *along, *around, p, t) && (self is Solid || self.folding().folds(
                    *repeated,
                    *reflected,
                    t,
                    u,
                )) && r == self.shows(u),
    {
        let zero = Real { bits: 0 };
        let one = Real { bits: END };
        match self {
            Paint::Solid(c) => {
                assert(self.runs(*length, *along, *around, p, zero) && self.shows(zero)
                    == Ramp::Exactly(*c));
                Ramp::Exactly(*c)
            },
            Paint::Linear { start, end, stops, spread } => {
                let len = length(*start, *end);
                let t: Real = if zero.below(len) {
                    along(*start, *end, p)
                } else {
                    one
                };
                let u = spread.map(t, repeated, reflected);
                assert(self.runs(*length, *along, *around, p, t));
                let r = sample(stops, u);
                assert(r == self.shows(u));
                r
            },
            Paint::Radial { center, radius, focus, stops, spread } => {
                let t: Real = if zero.below(*radius) {
                    around(*center, *radius, *focus, p)
                } else {
                    one
                };
                let u = spread.map(t, repeated, reflected);
                assert(self.runs(*length, *along, *around, p, t));
                let r = sample(stops, u);
                assert(r == self.shows(u));
                r
            },
        }
    }
}

/// A cell of the two by two matrix the pattern is built from.
pub open spec fn cell(a: int, b: int) -> int {
    if b == 0 {
        2 * a
    } else {
        3 - 2 * a
    }
}

/// The eight by eight ordered dither matrix, in the recursive Bayer order: a
/// cell says first which quarter of the values it draws from by its lowest
/// coordinate bits, then which quarter of that.
pub open spec fn bayer(x: int, y: int) -> int {
    16 * cell(x % 2, y % 2) + 4 * cell(x / 2 % 2, y / 2 % 2) + cell(x / 4 % 2, y / 4 % 2)
}

fn cell_of(a: u32, b: u32) -> (c: i32)
    requires
        a < 2,
        b < 2,
    ensures
        c == cell(a as int, b as int),
        0 <= c < 4,
{
    if b == 0 {
        2 * a as i32
    } else {
        3 - 2 * a as i32
    }
}

/// The dither offset for a pixel in units of 1/128 of a byte, to be added
/// before the byte is rounded: an odd number between -64 and 64.
///
/// The 64 offsets of a tile are spread evenly, so a value between two bytes
/// rounds up in its own share of a tile's pixels, and the mean is kept.
pub fn dither(x: u32, y: u32) -> (d: i32)
    ensures
        d == 2 * bayer(x as int % 8, y as int % 8) - 63,
        -64 < d < 64,
{
    let (u, v): (u32, u32) = (x % 8, y % 8);
    let b: i32 = 16 * cell_of(u % 2, v % 2) + 4 * cell_of(u / 2 % 2, v / 2 % 2) + cell_of(
        u / 4 % 2,
        v / 4 % 2,
    );
    2 * b - 63
}

/// The matrix is a permutation: its 64 cells hold the 64 numbers below 64, each
/// once.
pub proof fn the_dither_matrix_is_a_permutation(x: int, y: int, u: int, v: int)
    requires
        0 <= x < 8 && 0 <= y < 8,
        0 <= u < 8 && 0 <= v < 8,
    ensures
        0 <= bayer(x, y) < 64,
        bayer(x, y) == bayer(u, v) ==> x == u && y == v,
{
    lemma_bits(x);
    lemma_bits(y);
    lemma_bits(u);
    lemma_bits(v);
    lemma_cell(x % 2, y % 2, u % 2, v % 2);
    lemma_cell(x / 2 % 2, y / 2 % 2, u / 2 % 2, v / 2 % 2);
    lemma_cell(x / 4 % 2, y / 4 % 2, u / 4 % 2, v / 4 % 2);
}

/// A number below eight is its three bits.
proof fn lemma_bits(x: int)
    requires
        0 <= x < 8,
    ensures
        0 <= x % 2 < 2,
        0 <= x / 2 % 2 < 2,
        0 <= x / 4 % 2 < 2,
        x == x % 2 + 2 * (x / 2 % 2) + 4 * (x / 4 % 2),
{
}

/// The four cells of the small matrix hold four numbers, each once.
proof fn lemma_cell(a: int, b: int, c: int, d: int)
    requires
        0 <= a < 2 && 0 <= b < 2,
        0 <= c < 2 && 0 <= d < 2,
    ensures
        0 <= cell(a, b) < 4,
        0 <= cell(c, d) < 4,
        cell(a, b) == cell(c, d) ==> a == c && b == d,
{
}

/// The offsets are symmetric about zero, so dithering neither brightens nor
/// darkens a flat area.
pub proof fn the_dither_matrix_is_balanced(x: int, y: int)
    requires
        0 <= x < 8 && 0 <= y < 8,
    ensures
        2 * bayer(x, 7 - y) - 63 == -(2 * bayer(x, y) - 63),
{
    assert((7 - y) % 2 == 1 - y % 2);
    assert((7 - y) / 2 % 2 == 1 - y / 2 % 2);
    assert((7 - y) / 4 % 2 == 1 - y / 4 % 2);
}

/// Before the first stop a ramp is the first color and from the last on the last
/// one; a ramp of no stops shows nothing.
pub proof fn a_ramp_is_padded_at_its_ends(stops: Seq<Stop>, t: Real)
    ensures
        stops.len() == 0 <==> located(stops, t) == Ramp::Nothing,
        stops.len() > 0 && t.at_most(stops[0].offset) ==> located(stops, t) == Ramp::Exactly(
            stops[0].color,
        ),
        stops.len() > 0 && stops[0].offset.less(t) && stops.last().offset.at_most(t) ==> located(
            stops,
            t,
        ) == Ramp::Exactly(stops.last().color),
{
    if stops.len() > 0 {
        lemma_between_some(stops, 0, t);
    }
}

proof fn lemma_between_some(stops: Seq<Stop>, i: int, t: Real)
    requires
        0 <= i < stops.len(),
    ensures
        between(stops, i, t) != Ramp::Nothing,
    decreases stops.len() - i,
{
    if i + 1 < stops.len() && !t.less(stops[i + 1].offset) {
        lemma_between_some(stops, i + 1, t);
    }
}

/// Whether a place lies between a stop and the next: at the one or behind it, and
/// before the other.
pub open spec fn lies_behind(stops: Seq<Stop>, i: int, t: Real) -> bool {
    0 <= i && i + 1 < stops.len() && stops[i].offset.at_most(t) && t.less(stops[i + 1].offset)
}

/// Inside, a ramp runs between two stops that are next to each other: the last one
/// at or before the place and the first one behind it. At a stop itself it has
/// left the stops before it.
pub proof fn a_ramp_runs_between_neighbours(stops: Seq<Stop>, t: Real)
    requires
        in_order(stops),
        stops.len() > 0,
        stops[0].offset.less(t),
        t.less(stops.last().offset),
    ensures
        exists|i: int| #[trigger]
            lies_behind(stops, i, t) && located(stops, t) == Ramp::Between(stops[i], stops[i + 1]),
{
    let i = lemma_between_neighbours(stops, 0, t);
    assert(lies_behind(stops, i, t));
}

proof fn lemma_between_neighbours(stops: Seq<Stop>, i: int, t: Real) -> (k: int)
    requires
        in_order(stops),
        0 <= i < stops.len(),
        stops[i].offset.at_most(t),
        t.less(stops.last().offset),
    ensures
        lies_behind(stops, k, t),
        between(stops, i, t) == Ramp::Between(stops[k], stops[k + 1]),
    decreases stops.len() - i,
{
    if t.less(stops[i + 1].offset) {
        assert(stops[i].offset.at_most(stops[i + 1].offset));
        i
    } else {
        assert(stops[i].offset.at_most(stops[i + 1].offset));
        lemma_between_neighbours(stops, i + 1, t)
    }
}

/// A padded parameter is clamped to the ramp; an infinite one goes to the end on
/// its side, whatever the spread, and one that is no number to the start.
pub proof fn padding_clamps<R: Fn(Real) -> Real, M: Fn(Real) -> Real>(
    spread: Spread,
    repeated: R,
    reflected: M,
    t: Real,
    r: Real,
)
    requires
        spread.folds(repeated, reflected, t, r),
    ensures
        t.bits == 0x7ff0_0000_0000_0000 ==> r.bits == 0x3ff0_0000_0000_0000,
        t.bits == 0xfff0_0000_0000_0000 || t.nan() ==> r.bits == 0,
        spread == Spread::Pad && t.finite() && t.less(Real { bits: 0 }) ==> r.bits == 0,
        spread == Spread::Pad && t.finite() && (Real { bits: 0x3ff0_0000_0000_0000 }).less(t)
            ==> r.bits == 0x3ff0_0000_0000_0000,
        spread == Spread::Pad && (Real { bits: 0 }).at_most(t) && t.at_most(
            Real { bits: 0x3ff0_0000_0000_0000 },
        ) ==> r == t,
        spread == Spread::Repeat && t.finite() ==> call_ensures(repeated, (t,), r),
        spread == Spread::Reflect && t.finite() ==> call_ensures(reflected, (t,), r),
{
}

/// A gradient without an extent shows its far end: a linear one whose ends
/// coincide, a radial one of no radius.
pub proof fn a_gradient_of_no_extent_shows_its_end<
    L: Fn(Point, Point) -> Real,
    A: Fn(Point, Point, Point) -> Real,
    C: Fn(Point, Real, Point, Point) -> Real,
>(paint: Paint, length: L, along: A, around: C, p: Point, t: Real)
    requires
        paint.runs(length, along, around, p, t),
    ensures
        paint matches Paint::Linear { start, end, .. } ==> (forall|len: Real| #[trigger]
            call_ensures(length, (start, end), len) ==> len.at_most(Real { bits: 0 })) ==> t.bits
            == 0x3ff0_0000_0000_0000,
        paint matches Paint::Linear { start, end, .. } ==> (forall|len: Real| #[trigger]
            call_ensures(length, (start, end), len) ==> (Real { bits: 0 }).less(len))
            ==> call_ensures(along, (start, end, p), t),
        paint matches Paint::Radial { center, radius, focus, .. } ==> if (Real { bits: 0 }).less(
            radius,
        ) {
            call_ensures(around, (center, radius, focus, p), t)
        } else {
            t.bits == 0x3ff0_0000_0000_0000
        },
{
}

/// The dither matrix row by row.
pub proof fn the_dither_matrix(x: int)
    requires
        0 <= x < 8,
    ensures
        bayer(x, 0) == seq![0int, 32, 8, 40, 2, 34, 10, 42][x],
        bayer(x, 1) == seq![48int, 16, 56, 24, 50, 18, 58, 26][x],
        bayer(x, 2) == seq![12int, 44, 4, 36, 14, 46, 6, 38][x],
        bayer(x, 3) == seq![60int, 28, 52, 20, 62, 30, 54, 22][x],
        bayer(x, 4) == seq![3int, 35, 11, 43, 1, 33, 9, 41][x],
        bayer(x, 5) == seq![51int, 19, 59, 27, 49, 17, 57, 25][x],
        bayer(x, 6) == seq![15int, 47, 7, 39, 13, 45, 5, 37][x],
        bayer(x, 7) == seq![63int, 31, 55, 23, 61, 29, 53, 21][x],
{
    assert(x == 0 || x == 1 || x == 2 || x == 3 || x == 4 || x == 5 || x == 6 || x == 7);
}

/// A solid paint shows its color everywhere; a gradient shows its own stops, folded by
/// its own spread.
pub proof fn a_paint_shows_its_own_stops(paint: Paint, t: Real)
    ensures
        paint matches Paint::Solid(c) ==> paint.shows(t) == Ramp::Exactly(c),
        paint matches Paint::Linear { stops, spread, .. } ==> paint.shows(t) == located(stops@, t)
            && paint.folding() == spread,
        paint matches Paint::Radial { stops, spread, .. } ==> paint.shows(t) == located(stops@, t)
            && paint.folding() == spread,
{
}

/// Where stops are out of order, the first one behind the place decides: a ramp runs to
/// it from the stop before it, or jumps to it where that is no earlier.
pub proof fn the_first_stop_behind_the_place_decides(stops: Seq<Stop>, i: int, t: Real, k: int)
    requires
        0 <= i <= k,
        k + 1 < stops.len(),
        forall|j: int| i < j <= k ==> !t.less((#[trigger] stops[j]).offset),
        t.less(stops[k + 1].offset),
    ensures
        stops[k].offset.less(stops[k + 1].offset) ==> between(stops, i, t) == Ramp::Between(
            stops[k],
            stops[k + 1],
        ),
        stops[k + 1].offset.at_most(stops[k].offset) ==> between(stops, i, t) == Ramp::Exactly(
            stops[k + 1].color,
        ),
    decreases k - i,
{
    if i < k {
        assert(!t.less(stops[i + 1].offset));
        the_first_stop_behind_the_place_decides(stops, i + 1, t, k);
    }
}

} // verus!
