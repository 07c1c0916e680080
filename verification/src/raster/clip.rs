//! Clip regions, as coverage that multiplies a fill's own.
//!
//! A clip is a mask of one coverage per pixel. Narrowing it multiplies in the
//! coverage of a further path, so nested clips are one mask and not a stack.

use crate::geom::Real;
use vstd::prelude::*;

verus! {

/// No coverage at all.
pub const ZERO: u64 = 0;

/// Full coverage: one.
pub const FULL: u64 = 0x3ff0_0000_0000_0000;

/// The rows of a clip that can have any coverage: from `y0` up to but not with
/// `y1`. Rows outside it hold none, so this is a fast path and not a separate
/// source of truth.
#[derive(Clone, Copy, Debug, PartialEq, Eq, Structural)]
pub struct Rows {
    pub y0: u32,
    pub y1: u32,
}

impl Rows {
    /// Whether row `y` is one of them.
    pub open spec fn has(self, y: int) -> bool {
        self.y0 <= y < self.y1
    }

    /// The rows of a clip that covers everything.
    pub fn all(height: u32) -> (r: Rows)
        ensures
            r == (Rows { y0: 0, y1: height }),
    {
        Rows { y0: 0, y1: height }
    }

    /// The rows that are in both: none of them, written as an empty range at
    /// the later start, where the two do not meet.
    pub open spec fn both(self, path: Rows) -> Rows {
        let y0 = if self.y0 < path.y0 {
            path.y0
        } else {
            self.y0
        };
        let least = if self.y1 < path.y1 {
            self.y1
        } else {
            path.y1
        };
        Rows {
            y0,
            y1: if least < y0 {
                y0
            } else {
                least
            },
        }
    }

    /// Narrows the rows to those a further path can reach as well.
    pub fn intersect(self, path: Rows) -> (r: Rows)
        ensures
            r == self.both(path),
            forall|y: int| #[trigger] r.has(y) <==> self.has(y) && path.has(y),
    {
        let y0: u32 = if self.y0 < path.y0 {
            path.y0
        } else {
            self.y0
        };
        let least: u32 = if self.y1 < path.y1 {
            self.y1
        } else {
            path.y1
        };
        let y1: u32 = if least < y0 {
            y0
        } else {
            least
        };
        Rows { y0, y1 }
    }

    /// True when nothing can survive a clip of these rows and this width.
    pub fn is_empty(self, width: u32) -> (r: bool)
        ensures
            r == (width == 0 || self.y1 <= self.y0),
            !r ==> self.has(self.y0 as int),
    {
        width == 0 || self.y1 <= self.y0
    }
}

/// The rows in reach do not depend on the order in which clips are nested.
pub proof fn nesting_order_does_not_matter(a: Rows, b: Rows, c: Rows)
    ensures
        forall|y: int| #[trigger]
            a.both(b).both(c).has(y) <==> c.both(b).both(a).has(y),
{
}

/// A clip region: the coverage of one or more paths, intersected.
///
/// Sized for one pixmap, and only usable with that size.
#[derive(Debug)]
pub struct Clip {
    width: u32,
    height: u32,
    data: Vec<Real>,
    rows: Rows,
}

impl Clip {
    /// Width and height, in pixels.
    pub closed spec fn size(self) -> (u32, u32) {
        (self.width, self.height)
    }

    /// The coverage of every pixel, row by row.
    pub closed spec fn mask(self) -> Seq<Real> {
        self.data@
    }

    /// The rows that can have any coverage.
    pub closed spec fn reach(self) -> Rows {
        self.rows
    }

    /// Where the pixel `(x, y)` stands in the mask.
    pub open spec fn at(self, x: u32, y: u32) -> int {
        y * self.size().0 + x
    }

    /// The coverage of the pixel `(x, y)`.
    pub open spec fn coverage(self, x: u32, y: u32) -> Real {
        self.mask()[self.at(x, y)]
    }

    /// Whether `(x, y)` is one of the pixels.
    pub open spec fn within(self, x: u32, y: u32) -> bool {
        x < self.size().0 && y < self.size().1
    }

    /// One coverage per pixel, and none outside the rows in reach.
    pub open spec fn wf(self) -> bool {
        &&& self.mask().len() == self.size().0 * self.size().1
        &&& forall|x: u32, y: u32|
            self.within(x, y) && !self.reach().has(y as int) ==> #[trigger] self.coverage(x, y)
                == (Real { bits: ZERO })
    }

    /// The width in pixels.
    pub fn width(&self) -> (w: u32)
        ensures
            w == self.size().0,
    {
        self.width
    }

    /// The height in pixels.
    pub fn height(&self) -> (h: u32)
        ensures
            h == self.size().1,
    {
        self.height
    }

    /// True when nothing can survive this clip.
    pub fn is_empty(&self) -> (r: bool)
        ensures
            r == (self.size().0 == 0 || self.reach().y1 <= self.reach().y0),
    {
        self.rows.is_empty(self.width)
    }

    /// One row of the mask.
    pub fn row(&self, y: u32) -> (r: &[Real])
        requires
            self.wf(),
            y < self.size().1,
        ensures
            r@.len() == self.size().0,
            forall|x: u32| x < self.size().0 ==> r@[x as int] == #[trigger] self.coverage(x, y),
    {
        proof {
            lemma_row(*self, y);
        }
        let total: usize = self.data.len();
        assert(y * self.width + self.width <= total);
        let from: u128 = y as u128 * self.width as u128;
        let upto: u128 = from + self.width as u128;
        let r = vstd::slice::slice_subrange(self.data.as_slice(), from as usize, upto as usize);
        assert forall|x: u32| x < self.size().0 implies r@[x as int] == #[trigger] self.coverage(
            x,
            y,
        ) by {}
        r
    }
}

impl Clone for Clip {
    fn clone(&self) -> (r: Clip)
        ensures
            r.size() == self.size(),
            r.reach() == self.reach(),
            r.mask() == self.mask(),
    {
        let data = self.data.clone();
        assert(data@ =~= self.data@);
        Clip { width: self.width, height: self.height, data, rows: self.rows }
    }
}

/// What a pixel of the mask becomes under the coverage of one row: the product
/// of the two, where a row that ends before it covers nothing.
pub open spec fn narrowed<P: Fn(Real, Real) -> Real>(
    product: P,
    cover: Seq<Real>,
    x: int,
    was: Real,
    now: Real,
) -> bool {
    if x < cover.len() {
        call_ensures(product, (was, cover[x]), now)
    } else {
        now == (Real { bits: ZERO })
    }
}

/// Whether row `y` of a mask, `w` pixels wide, is narrowed by some coverage of
/// the row.
pub open spec fn row_narrowed<C: Fn(u32) -> Vec<Real>, P: Fn(Real, Real) -> Real>(
    cover: C,
    product: P,
    before: Seq<Real>,
    after: Seq<Real>,
    w: int,
    y: u32,
) -> bool {
    exists|c: Vec<Real>| #[trigger]
        call_ensures(cover, (y,), c) && forall|x: int|
            0 <= x < w ==> narrowed(product, c@, x, before[y * w + x], #[trigger] after[y * w + x])
}

/// Where the rows of a mask stand.
proof fn lemma_rows(w: int, v: int, y: int, u: int)
    requires
        0 <= v < y,
        0 <= u < w,
    ensures
        0 <= v * w + u < y * w,
        v * w + u < v * w + w <= y * w,
{
    assert(0 <= v * w && v * w + w <= y * w) by (nonlinear_arith)
        requires
            0 <= v < y,
            0 <= w,
    ;
}

/// A row lies within the mask.
proof fn lemma_row(c: Clip, y: u32)
    requires
        c.mask().len() == c.size().0 * c.size().1,
        y < c.size().1,
    ensures
        0 <= y * c.size().0,
        y * c.size().0 + c.size().0 <= c.mask().len(),
        y * c.size().0 <= 0xffff_ffff * 0xffff_ffff,
{
    let w = c.size().0 as int;
    let h = c.size().1 as int;
    assert(0 <= y * w && y * w + w <= w * h) by (nonlinear_arith)
        requires
            0 <= y < h,
            0 <= w,
    ;
    assert(y * w <= 0xffff_ffff * 0xffff_ffff) by (nonlinear_arith)
        requires
            0 <= y <= 0xffff_ffff,
            0 <= w <= 0xffff_ffff,
    ;
}

/// One row of a mask, narrowed by the coverage of that row.
fn narrow_row<P: Fn(Real, Real) -> Real>(row: &[Real], c: &Vec<Real>, product: &P) -> (out: Vec<
    Real,
>)
    requires
        forall|a: Real, b: Real| call_requires(product, (a, b)),
    ensures
        out@.len() == row@.len(),
        forall|x: int|
            0 <= x < row@.len() ==> narrowed(*product, c@, x, row@[x], #[trigger] out@[x]),
{
    let n: usize = row.len();
    let mut out: Vec<Real> = Vec::new();
    let mut x: usize = 0;
    while x < n
        invariant
            x <= n == row@.len(),
            out@.len() == x,
            forall|a: Real, b: Real| call_requires(product, (a, b)),
            forall|k: int| 0 <= k < x ==> narrowed(*product, c@, k, row@[k], #[trigger] out@[k]),
        decreases n - x,
    {
        let now: Real = if x < c.len() {
            product(row[x], c[x])
        } else {
            Real { bits: ZERO }
        };
        out.push(now);
        x += 1;
    }
    out
}

/// Adds a row to the end of a mask.
fn append_row(mask: &mut Vec<Real>, row: &Vec<Real>)
    ensures
        final(mask)@ == old(mask)@ + row@,
{
    let mut x: usize = 0;
    let ghost before = mask@;
    while x < row.len()
        invariant
            x <= row@.len(),
            mask@ == before + row@.take(x as int),
        decreases row.len() - x,
    {
        mask.push(row[x]);
        assert(row@.take(x as int + 1) == row@.take(x as int).push(row@[x as int]));
        x += 1;
    }
    assert(row@.take(x as int) == row@);
}

/// A row of `n` equal coverages.
fn blank(n: u32, v: Real) -> (r: Vec<Real>)
    ensures
        r@ == Seq::new(n as nat, |i: int| v),
{
    let mut r: Vec<Real> = Vec::new();
    let mut x: u32 = 0;
    while x < n
        invariant
            x <= n,
            r@ == Seq::new(x as nat, |i: int| v),
        decreases n - x,
    {
        r.push(v);
        x += 1;
    }
    r
}

/// What row `y` of a mask becomes: narrowed where it is in reach of the mask
/// and of the path, and without coverage elsewhere.
pub open spec fn row_after<C: Fn(u32) -> Vec<Real>, P: Fn(Real, Real) -> Real>(
    cover: C,
    product: P,
    before: Seq<Real>,
    after: Seq<Real>,
    w: int,
    y: u32,
    both: Rows,
) -> bool {
    if both.has(y as int) {
        row_narrowed(cover, product, before, after, w, y)
    } else {
        forall|x: int| 0 <= x < w ==> #[trigger] after[y * w + x] == (Real { bits: ZERO })
    }
}

/// A row that is done stays done when rows are added after it.
proof fn lemma_row_stays<C: Fn(u32) -> Vec<Real>, P: Fn(Real, Real) -> Real>(
    cover: C,
    product: P,
    before: Seq<Real>,
    after: Seq<Real>,
    more: Seq<Real>,
    w: int,
    v: u32,
    y: int,
    both: Rows,
)
    requires
        v < y,
        w >= 0,
        after.len() == y * w,
        row_after(cover, product, before, after, w, v, both),
    ensures
        row_after(cover, product, before, after + more, w, v, both),
{
    let all = after + more;
    assert forall|x: int| 0 <= x < w implies #[trigger] all[v * w + x] == after[v * w + x] by {
        lemma_rows(w, v as int, y, x);
    }
    if both.has(v as int) {
        let c = choose|c: Vec<Real>| #[trigger]
            call_ensures(cover, (v,), c) && forall|x: int|
                0 <= x < w ==> narrowed(
                    product,
                    c@,
                    x,
                    before[v * w + x],
                    #[trigger] after[v * w + x],
                );
        assert forall|x: int| 0 <= x < w implies narrowed(
            product,
            c@,
            x,
            before[v * w + x],
            #[trigger] all[v * w + x],
        ) by {
            assert(all[v * w + x] == after[v * w + x]);
        }
    }
}

/// Whether one clip is another, narrowed to its intersection with a path.
pub open spec fn intersected<C: Fn(u32) -> Vec<Real>, P: Fn(Real, Real) -> Real>(
    before: Clip,
    after: Clip,
    path: Rows,
    cover: C,
    product: P,
) -> bool {
    let (w, h) = before.size();
    if w == 0 || before.reach().y1 <= before.reach().y0 {
        after == before
    } else {
        &&& after.size() == before.size()
        &&& after.reach() == before.reach().both(path)
        &&& forall|y: u32|
            y < h && after.reach().has(y as int) ==> #[trigger] row_narrowed(
                cover,
                product,
                before.mask(),
                after.mask(),
                w as int,
                y,
            )
    }
}

/// Whether a clip covers all of its pixels.
pub open spec fn covers_all(c: Clip, width: u32, height: u32) -> bool {
    &&& c.wf()
    &&& c.size() == (width, height)
    &&& c.reach() == (Rows { y0: 0, y1: height })
    &&& forall|k: int| 0 <= k < c.mask().len() ==> #[trigger] c.mask()[k] == (Real { bits: FULL })
}

impl Clip {
    /// Narrows this clip by the coverage of a path. `path` gives the rows that
    /// the path can reach, `cover` its coverage of one row of pixels, and
    /// `product` the product of two coverages.
    ///
    /// A clip that nothing survives stays as it is.
    pub fn narrow_rows<C: Fn(u32) -> Vec<Real>, P: Fn(Real, Real) -> Real>(
        &mut self,
        path: Rows,
        cover: &C,
        product: &P,
    )
        requires
            old(self).wf(),
            forall|y: u32| call_requires(cover, (y,)),
            forall|a: Real, b: Real| call_requires(product, (a, b)),
        ensures
            final(self).wf(),
            intersected(*old(self), *final(self), path, *cover, *product),
    {
        if self.is_empty() {
            return ;
        }
        let ghost before = *self;
        let w: u32 = self.width;
        let h: u32 = self.height;
        let both: Rows = self.rows.intersect(path);
        let mut out: Vec<Real> = Vec::new();
        let mut y: u32 = 0;
        while y < h
            invariant
                y <= h,
                *self == before,
                before.wf(),
                (w, h) == before.size(),
                both == before.reach().both(path),
                out@.len() == y * w,
                forall|y: u32| call_requires(cover, (y,)),
                forall|a: Real, b: Real| call_requires(product, (a, b)),
                forall|v: u32|
                    v < y ==> #[trigger] row_after(
                        *cover,
                        *product,
                        before.mask(),
                        out@,
                        w as int,
                        v,
                        both,
                    ),
            decreases h - y,
        {
            let ghost done = out@;
            let row: Vec<Real>;
            if both.y0 <= y && y < both.y1 {
                let c = cover(y);
                row = narrow_row(self.row(y), &c, product);
                proof {
                    let all = done + row@;
                    assert forall|x: int| 0 <= x < w implies narrowed(
                        *product,
                        c@,
                        x,
                        before.mask()[y * w + x],
                        #[trigger] all[y * w + x],
                    ) by {
                        assert(before.coverage(x as u32, y) == before.mask()[y * w + x]);
                        assert(all[y * w + x] == row@[x]);
                    }
                    assert(row_narrowed(*cover, *product, before.mask(), all, w as int, y));
                }
            } else {
                row = blank(w, Real { bits: ZERO });
            }
            append_row(&mut out, &row);
            proof {
                assert(row_after(*cover, *product, before.mask(), out@, w as int, y, both));
                assert forall|v: u32| v < y + 1 implies #[trigger] row_after(
                    *cover,
                    *product,
                    before.mask(),
                    out@,
                    w as int,
                    v,
                    both,
                ) by {
                    if v < y {
                        assert(row_after(
                            *cover,
                            *product,
                            before.mask(),
                            done,
                            w as int,
                            v,
                            both,
                        ));
                        lemma_row_stays(
                            *cover,
                            *product,
                            before.mask(),
                            done,
                            row@,
                            w as int,
                            v,
                            y as int,
                            both,
                        );
                    }
                }
                assert((y + 1) * w == y * w + w) by (nonlinear_arith);
            }
            y += 1;
        }
        self.data = out;
        self.rows = both;
        proof {
            assert(h * w == w * h) by (nonlinear_arith);
            assert forall|x: u32, y: u32|
                self.within(x, y) && !self.reach().has(y as int) implies #[trigger] self.coverage(
                x,
                y,
            ) == (Real { bits: ZERO }) by {
                assert(row_after(*cover, *product, before.mask(), self.mask(), w as int, y, both));
                assert(self.mask()[y * w + x as int] == (Real { bits: ZERO }));
            }
            assert forall|y: u32| y < h && both.has(y as int) implies #[trigger] row_narrowed(
                *cover,
                *product,
                before.mask(),
                self.mask(),
                w as int,
                y,
            ) by {
                assert(row_after(*cover, *product, before.mask(), self.mask(), w as int, y, both));
            }
        }
    }
}

impl Clip {
    /// A clip that covers all of its pixels.
    pub fn whole(width: u32, height: u32) -> (r: Clip)
        requires
            width * height <= usize::MAX,
        ensures
            covers_all(r, width, height),
    {
        let mut data: Vec<Real> = Vec::new();
        let mut y: u32 = 0;
        while y < height
            invariant
                y <= height,
                data@.len() == y * width,
                forall|k: int|
                    0 <= k < data@.len() ==> #[trigger] data@[k] == (Real { bits: FULL }),
            decreases height - y,
        {
            append_row(&mut data, &blank(width, Real { bits: FULL }));
            assert((y + 1) * width == y * width + width) by (nonlinear_arith);
            y += 1;
        }
        assert(height * width == width * height) by (nonlinear_arith);
        Clip { width, height, data, rows: Rows::all(height) }
    }
}

/// Whether the product of two coverages does not depend on their order, and
/// full coverage changes nothing.
pub open spec fn commutes<P: Fn(Real, Real) -> Real>(product: P) -> bool {
    &&& forall|a: Real, b: Real, p: Real, q: Real|
        !a.nan() && !b.nan() && #[trigger] call_ensures(product, (a, b), p)
            && #[trigger] call_ensures(product, (b, a), q) ==> p == q
    &&& forall|a: Real, p: Real|
        !a.nan() && #[trigger] call_ensures(product, (Real { bits: FULL }, a), p) ==> p == a
}

/// Whether the coverage of a row is always the same `w` numbers.
pub open spec fn steady<C: Fn(u32) -> Vec<Real>>(cover: C, w: int) -> bool {
    &&& forall|y: u32, c: Vec<Real>| #[trigger]
        call_ensures(cover, (y,), c) ==> c@.len() == w && forall|x: int|
            0 <= x < w ==> !(#[trigger] c@[x]).nan()
    &&& forall|y: u32, c: Vec<Real>, d: Vec<Real>|
        #[trigger] call_ensures(cover, (y,), c) && #[trigger] call_ensures(cover, (y,), d) ==> c@
            == d@
}

/// Nesting two clips gives the same mask in either order.
pub proof fn two_clips_nest_either_way<
    C: Fn(u32) -> Vec<Real>,
    D: Fn(u32) -> Vec<Real>,
    P: Fn(Real, Real) -> Real,
>(
    whole: Clip,
    a: Clip,
    ab: Clip,
    b: Clip,
    ba: Clip,
    rows_a: Rows,
    cover_a: C,
    rows_b: Rows,
    cover_b: D,
    product: P,
)
    requires
        covers_all(whole, whole.size().0, whole.size().1),
        a.wf(),
        ab.wf(),
        b.wf(),
        ba.wf(),
        intersected(whole, a, rows_a, cover_a, product),
        intersected(a, ab, rows_b, cover_b, product),
        intersected(whole, b, rows_b, cover_b, product),
        intersected(b, ba, rows_a, cover_a, product),
        commutes(product),
        steady(cover_a, whole.size().0 as int),
        steady(cover_b, whole.size().0 as int),
    ensures
        forall|x: u32, y: u32|
            whole.within(x, y) ==> #[trigger] ab.coverage(x, y) == ba.coverage(x, y),
{
    let w = whole.size().0 as int;
    assert forall|x: u32, y: u32| whole.within(x, y) implies #[trigger] ab.coverage(x, y)
        == ba.coverage(x, y) by {
        if rows_a.has(y as int) && rows_b.has(y as int) {
            let k = y * w + x;
            lemma_row(whole, y);
            assert(row_narrowed(cover_a, product, whole.mask(), a.mask(), w, y));
            assert(row_narrowed(cover_b, product, a.mask(), ab.mask(), w, y));
            assert(row_narrowed(cover_b, product, whole.mask(), b.mask(), w, y));
            assert(row_narrowed(cover_a, product, b.mask(), ba.mask(), w, y));
            let c1 = choose|c: Vec<Real>| #[trigger]
                call_ensures(cover_a, (y,), c) && forall|x: int|
                    0 <= x < w ==> narrowed(
                        product,
                        c@,
                        x,
                        whole.mask()[y * w + x],
                        #[trigger] a.mask()[y * w + x],
                    );
            let d1 = choose|c: Vec<Real>| #[trigger]
                call_ensures(cover_b, (y,), c) && forall|x: int|
                    0 <= x < w ==> narrowed(
                        product,
                        c@,
                        x,
                        a.mask()[y * w + x],
                        #[trigger] ab.mask()[y * w + x],
                    );
            let d2 = choose|c: Vec<Real>| #[trigger]
                call_ensures(cover_b, (y,), c) && forall|x: int|
                    0 <= x < w ==> narrowed(
                        product,
                        c@,
                        x,
                        whole.mask()[y * w + x],
                        #[trigger] b.mask()[y * w + x],
                    );
            let c2 = choose|c: Vec<Real>| #[trigger]
                call_ensures(cover_a, (y,), c) && forall|x: int|
                    0 <= x < w ==> narrowed(
                        product,
                        c@,
                        x,
                        b.mask()[y * w + x],
                        #[trigger] ba.mask()[y * w + x],
                    );
            assert(c1@ == c2@ && d1@ == d2@);
            let i = x as int;
            assert(narrowed(product, c1@, i, whole.mask()[k], a.mask()[y * w + i]));
            assert(narrowed(product, d1@, i, a.mask()[k], ab.mask()[y * w + i]));
            assert(narrowed(product, d2@, i, whole.mask()[k], b.mask()[y * w + i]));
            assert(narrowed(product, c2@, i, b.mask()[k], ba.mask()[y * w + i]));
            assert(a.mask()[k] == c1@[i]);
            assert(b.mask()[k] == d2@[i]);
        } else {
            assert(!ab.reach().has(y as int) || !a.reach().has(y as int));
            assert(!ba.reach().has(y as int) || !b.reach().has(y as int));
        }
    }
}

/// The rows that two clips share are those in both: the later start and the earlier
/// end, and none where they do not meet.
pub proof fn shared_rows_are_in_both(a: Rows, b: Rows, y: int)
    ensures
        a.both(b).has(y) <==> a.y0 <= y < a.y1 && b.y0 <= y < b.y1,
        a.both(b).y0 <= a.both(b).y1,
        a.both(b).y0 >= a.y0 && a.both(b).y0 >= b.y0,
{
}

/// A narrowed clip lets nothing through in any row that the path or the clip before it
/// does not reach.
pub proof fn narrowing_lets_nothing_new_through<C: Fn(u32) -> Vec<Real>, P: Fn(Real, Real) -> Real>(
    before: Clip,
    after: Clip,
    path: Rows,
    cover: C,
    product: P,
    x: u32,
    y: u32,
)
    requires
        before.wf(),
        after.wf(),
        intersected(before, after, path, cover, product),
        before.size().0 > 0 && before.reach().y0 < before.reach().y1,
        before.within(x, y),
        !(path.y0 <= y < path.y1) || !(before.reach().y0 <= y < before.reach().y1),
    ensures
        after.coverage(x, y).bits == 0,
{
    assert(after.within(x, y));
    assert(!after.reach().has(y as int));
}

/// A pixel of a row that is narrowed keeps what both let through, and nothing beyond
/// the end of the row that narrows it.
pub proof fn a_row_ends_where_its_cover_ends<P: Fn(Real, Real) -> Real>(
    product: P,
    cover: Seq<Real>,
    x: int,
    was: Real,
    now: Real,
)
    requires
        0 <= x,
        narrowed(product, cover, x, was, now),
    ensures
        x >= cover.len() ==> now.bits == 0,
        x < cover.len() ==> call_ensures(product, (was, cover[x]), now),
{
}

} // verus!
