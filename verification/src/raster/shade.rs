//! Filling a path: from its outline to the pixels.

use vstd::prelude::*;
use crate::geom::Real;
use crate::path::boolean::FillRule;
use crate::raster::clip;
use crate::raster::clip::Clip;
use crate::raster::clip::Rows;
use crate::raster::coverage;
use crate::raster::coverage::coverage_row;
use crate::raster::coverage::LineModel;
use crate::raster::coverage::SUB_ROWS;
use crate::raster::fill;
use crate::raster::fill::build_edges;
use crate::raster::fill::extent;
use crate::raster::fill::Edge;
use crate::raster::fill::FlatEl;
use crate::raster::fill::Pixmap;

verus! {

/// The computations on coordinates and coverages that filling rests on.
pub struct Sampler<Reach, Line, Across, Grow, Times> {
    /// The rows that lie between two heights, in a pixmap of some height.
    pub reach: Reach,
    /// Where a sample line of a row lies.
    pub line: Line,
    /// Where an edge crosses a sample line.
    pub across: Across,
    /// A coverage grown by the stretch between two places.
    pub grow: Grow,
    /// The product of two coverages.
    pub times: Times,
}

/// Whether a coverage is narrowed by a clip, pixel by pixel.
pub open spec fn clipped<T: Fn(Real, Real) -> Real>(
    times: T,
    clip: Option<&Clip>,
    y: u32,
    bare: Seq<Real>,
    cover: Seq<Real>,
) -> bool {
    match clip {
        None => cover == bare,
        Some(c) => cover.len() == bare.len() && forall|x: u32|
            x < bare.len() ==> call_ensures(
                times,
                (bare[x as int], c.coverage(x, y)),
                #[trigger] cover[x as int],
            ),
    }
}

impl<
    Reach: Fn(Real, Real, u32) -> Rows,
    Line: Fn(u32, u32) -> Real,
    Across: Fn(Edge, Real) -> Real,
    Grow: Fn(Real, Real, Real) -> Real,
    Times: Fn(Real, Real) -> Real,
> Sampler<Reach, Line, Across, Grow, Times> {
    /// Whether every question may be asked.
    pub open spec fn ready(self) -> bool {
        &&& forall|a: Real, b: Real, h: u32| call_requires(self.reach, (a, b, h))
        &&& forall|y: u32, s: u32| call_requires(self.line, (y, s))
        &&& forall|e: Edge, y: Real| call_requires(self.across, (e, y))
        &&& forall|c: Real, a: Real, b: Real| call_requires(self.grow, (c, a, b))
        &&& forall|a: Real, b: Real| call_requires(self.times, (a, b))
    }

    /// Whether these are the rows that edges can reach.
    pub open spec fn reaches(self, edges: Seq<Edge>, height: u32, rows: Rows) -> bool {
        let (lo, hi) = fill::extent_of(edges, edges.len() as int);
        call_ensures(self.reach, (lo, hi, height), rows)
    }

    /// Whether `cover` is how much of each pixel of row `y` the inside of the
    /// edges covers, within the clip.
    pub open spec fn covers(
        self,
        edges: Seq<Edge>,
        rule: FillRule,
        clip: Option<&Clip>,
        ruler: Seq<Real>,
        y: u32,
        cover: Seq<Real>,
    ) -> bool {
        exists|lines: Seq<LineModel>| #[trigger]
            coverage::sampled(self.line, self.across, self.grow, edges, y, ruler, rule, lines)
                && lines.len() == SUB_ROWS && clipped(
                self.times,
                clip,
                y,
                lines.last().steps.last(),
                cover,
            )
    }

    /// Whether row `y` is painted over where the inside of the edges covers it.
    pub open spec fn paints<B: Fn(u32, u32, [u8; 4], Real) -> [u8; 4]>(
        self,
        edges: Seq<Edge>,
        rule: FillRule,
        clip: Option<&Clip>,
        ruler: Seq<Real>,
        blend: B,
        before: Pixmap,
        after: Pixmap,
        y: u32,
    ) -> bool {
        exists|cover: Seq<Real>| #[trigger]
            self.covers(edges, rule, clip, ruler, y, cover) && forall|x: u32|
                x < before.size().0 ==> #[trigger] fill::shaded(blend, before, after, x, y, cover)
    }

    /// Whether row `y` of a clip is narrowed by how much of it the inside of the
    /// edges covers.
    pub open spec fn narrows_row(
        self,
        edges: Seq<Edge>,
        rule: FillRule,
        ruler: Seq<Real>,
        before: Clip,
        after: Clip,
        y: u32,
    ) -> bool {
        exists|cover: Seq<Real>| #[trigger]
            self.covers(edges, rule, None, ruler, y, cover) && forall|x: u32|
                x < before.size().0 ==> call_ensures(
                    self.times,
                    (before.coverage(x, y), cover[x as int]),
                    #[trigger] after.coverage(x, y),
                )
    }

    /// Whether one clip is another, narrowed to its intersection with a path. A
    /// clip that nothing survives stays as it is.
    pub open spec fn narrows(
        self,
        path: Seq<FlatEl>,
        rule: FillRule,
        ruler: Seq<Real>,
        before: Clip,
        after: Clip,
    ) -> bool {
        let edges = fill::edges_of(path);
        if before.size().0 == 0 || before.reach().y1 <= before.reach().y0 {
            after == before
        } else {
            &&& after.size() == before.size()
            &&& exists|rows: Rows| #[trigger]
                self.reaches(edges, before.size().1, rows) && after.reach()
                    == before.reach().both(rows)
            &&& forall|y: u32|
                y < before.size().1 && after.reach().has(y as int) ==> #[trigger] self.narrows_row(
                    edges,
                    rule,
                    ruler,
                    before,
                    after,
                    y,
                )
        }
    }

    /// The coverage of one row of pixels, within the clip.
    fn cover(
        &self,
        edges: &Vec<Edge>,
        rule: FillRule,
        clip: Option<&Clip>,
        ruler: &Vec<Real>,
        y: u32,
    ) -> (cover: Vec<Real>)
        requires
            self.ready(),
            ruler@.len() > 0,
            edges@.len() <= i32::MAX,
            fill::all_upright(edges@),
            clip matches Some(c) ==> c.wf() && c.size().0 == ruler@.len() - 1 && y < c.size().1,
        ensures
            self.covers(edges@, rule, clip, ruler@, y, cover@),
            cover@.len() == ruler@.len() - 1,
    {
        let bare = coverage_row(edges, y, ruler, rule, &self.line, &self.across, &self.grow);
        let ghost lines = choose|lines: Seq<LineModel>| #[trigger]
            coverage::sampled(self.line, self.across, self.grow, edges@, y, ruler@, rule, lines)
                && lines.len() == SUB_ROWS && bare@ == lines.last().steps.last();
        match clip {
            None => {
                assert(clipped(self.times, clip, y, bare@, bare@));
                bare
            },
            Some(c) => {
                let mask = c.row(y);
                let mut cover: Vec<Real> = Vec::new();
                let mut x: usize = 0;
                while x < bare.len()
                    invariant
                        x <= bare@.len() == mask@.len(),
                        cover@.len() == x,
                        self.ready(),
                        forall|k: int|
                            0 <= k < x ==> call_ensures(
                                self.times,
                                (bare@[k], mask@[k]),
                                #[trigger] cover@[k],
                            ),
                    decreases bare.len() - x,
                {
                    cover.push((self.times)(bare[x], mask[x]));
                    x += 1;
                }
                proof {
                    assert forall|x: u32| x < bare@.len() implies call_ensures(
                        self.times,
                        (bare@[x as int], c.coverage(x, y)),
                        #[trigger] cover@[x as int],
                    ) by {
                        assert(mask@[x as int] == c.coverage(x, y));
                    }
                    assert(clipped(self.times, clip, y, bare@, cover@));
                }
                cover
            },
        }
    }
}

impl Clip {
    /// Narrows this clip to its intersection with a path under a fill rule.
    /// `ruler` holds the edges of the pixels of a row.
    ///
    /// Nested clips are exactly this: coverage is a product, so a third clip is a
    /// third factor.
    pub fn intersect_path<
        Reach: Fn(Real, Real, u32) -> Rows,
        Line: Fn(u32, u32) -> Real,
        Across: Fn(Edge, Real) -> Real,
        Grow: Fn(Real, Real, Real) -> Real,
        Times: Fn(Real, Real) -> Real,
    >(
        &mut self,
        path: &Vec<FlatEl>,
        rule: FillRule,
        ruler: &Vec<Real>,
        sampler: &Sampler<Reach, Line, Across, Grow, Times>,
    )
        requires
            old(self).wf(),
            sampler.ready(),
            ruler@.len() == old(self).size().0 + 1,
            fill::edges_of(path@).len() <= i32::MAX,
        ensures
            final(self).wf(),
            final(self).size() == old(self).size(),
            sampler.narrows(path@, rule, ruler@, *old(self), *final(self)),
    {
        let edges = build_edges(path);
        let (lo, hi) = extent(&edges);
        let height: u32 = self.height();
        let rows = (sampler.reach)(lo, hi, height);
        let cover = |y: u32| -> (c: Vec<Real>)
            ensures
                sampler.covers(edges@, rule, None, ruler@, y, c@),
                c@.len() == ruler@.len() - 1,
            { sampler.cover(&edges, rule, None, ruler, y) };
        let ghost before = *self;
        self.narrow_rows(rows, &cover, &sampler.times);
        proof {
            if !(before.size().0 == 0 || before.reach().y1 <= before.reach().y0) {
                assert(sampler.reaches(edges@, height, rows));
                let w = before.size().0 as int;
                assert forall|y: u32|
                    y < before.size().1 && self.reach().has(y as int) implies #[trigger]
                    sampler.narrows_row(edges@, rule, ruler@, before, *self, y) by {
                    assert(clip::row_narrowed(
                        cover,
                        sampler.times,
                        before.mask(),
                        self.mask(),
                        w,
                        y,
                    ));
                    let c = choose|c: Vec<Real>| #[trigger]
                        call_ensures(cover, (y,), c) && forall|x: int|
                            0 <= x < w ==> clip::narrowed(
                                sampler.times,
                                c@,
                                x,
                                before.mask()[y * w + x],
                                #[trigger] self.mask()[y * w + x],
                            );
                    assert(sampler.covers(edges@, rule, None, ruler@, y, c@));
                    assert forall|x: u32| x < before.size().0 implies call_ensures(
                        sampler.times,
                        (before.coverage(x, y), c@[x as int]),
                        #[trigger] self.coverage(x, y),
                    ) by {
                        assert(clip::narrowed(
                            sampler.times,
                            c@,
                            x as int,
                            before.mask()[y * w + x as int],
                            self.mask()[y * w + x as int],
                        ));
                    }
                }
            }
        }
    }

    /// The region inside a path under a fill rule, for a `width` by `height`
    /// pixmap: a clip that covers everything, narrowed to the path.
    pub fn from_path<
        Reach: Fn(Real, Real, u32) -> Rows,
        Line: Fn(u32, u32) -> Real,
        Across: Fn(Edge, Real) -> Real,
        Grow: Fn(Real, Real, Real) -> Real,
        Times: Fn(Real, Real) -> Real,
    >(
        width: u32,
        height: u32,
        path: &Vec<FlatEl>,
        rule: FillRule,
        ruler: &Vec<Real>,
        sampler: &Sampler<Reach, Line, Across, Grow, Times>,
    ) -> (r: Clip)
        requires
            width * height <= usize::MAX,
            sampler.ready(),
            ruler@.len() == width + 1,
            fill::edges_of(path@).len() <= i32::MAX,
        ensures
            r.wf(),
            r.size() == (width, height),
            exists|whole: Clip| #[trigger]
                clip::covers_all(whole, width, height) && sampler.narrows(
                    path@,
                    rule,
                    ruler@,
                    whole,
                    r,
                ),
    {
        let mut r = Clip::whole(width, height);
        r.intersect_path(path, rule, ruler, sampler);
        r
    }
}

impl Pixmap {
    /// Fills a path, anti-aliased, by a fill rule and within a clip.
    ///
    /// Every subpath is closed implicitly: an open one has no inside otherwise.
    /// Anything outside the pixmap is clipped away. `ruler` holds the edges of
    /// the pixels of a row, and `blend` is what a pixel becomes when it is
    /// painted over at a coverage.
    pub fn fill_path<
        Reach: Fn(Real, Real, u32) -> Rows,
        Line: Fn(u32, u32) -> Real,
        Across: Fn(Edge, Real) -> Real,
        Grow: Fn(Real, Real, Real) -> Real,
        Times: Fn(Real, Real) -> Real,
        B: Fn(u32, u32, [u8; 4], Real) -> [u8; 4],
    >(
        &mut self,
        path: &Vec<FlatEl>,
        rule: FillRule,
        clip: Option<&Clip>,
        ruler: &Vec<Real>,
        sampler: &Sampler<Reach, Line, Across, Grow, Times>,
        blend: &B,
    )
        requires
            old(self).wf(),
            sampler.ready(),
            ruler@.len() == old(self).size().0 + 1,
            fill::edges_of(path@).len() <= i32::MAX,
            clip matches Some(c) ==> c.wf() && c.size() == old(self).size(),
            forall|x: u32, y: u32, was: [u8; 4], c: Real| call_requires(blend, (x, y, was, c)),
        ensures
            final(self).wf(),
            final(self).size() == old(self).size(),
            fill::edges_of(path@).len() == 0 ==> *final(self) == *old(self),
            fill::edges_of(path@).len() > 0 ==> exists|rows: Rows| #[trigger]
                sampler.reaches(fill::edges_of(path@), old(self).size().1, rows) && (forall|y: u32|
                    rows.has(y as int) && y < old(self).size().1 ==> #[trigger] sampler.paints(
                        fill::edges_of(path@),
                        rule,
                        clip,
                        ruler@,
                        *blend,
                        *old(self),
                        *final(self),
                        y,
                    )) && (forall|x: u32, y: u32|
                    x < old(self).size().0 && y < old(self).size().1 && !rows.has(y as int)
                        ==> #[trigger] final(self).same_at(*old(self), x, y)),
    {
        let edges = build_edges(path);
        if edges.len() == 0 {
            return ;
        }
        let (lo, hi) = extent(&edges);
        let height: u32 = self.height();
        let rows = (sampler.reach)(lo, hi, height);
        let end: u32 = if rows.y1 < height {
            rows.y1
        } else {
            height
        };
        let inside = Rows { y0: rows.y0, y1: end };
        let cover = |y: u32| -> (c: Vec<Real>)
            requires
                y < height,
            ensures
                sampler.covers(edges@, rule, clip, ruler@, y, c@),
            { sampler.cover(&edges, rule, clip, ruler, y) };
        let ghost before = *self;
        self.paint_rows(inside, &cover, blend);
        proof {
            assert(sampler.reaches(edges@, height, rows));
            assert forall|y: u32| rows.has(y as int) && y < before.size().1 implies #[trigger]
                sampler.paints(edges@, rule, clip, ruler@, *blend, before, *self, y) by {
                assert(inside.has(y as int));
                assert(fill::row_shaded(
                    cover,
                    *blend,
                    before,
                    *self,
                    y,
                    before.size().0 as int,
                ));
                let c = choose|c: Vec<Real>| #[trigger]
                    call_ensures(cover, (y,), c) && forall|x: u32|
                        0 <= x < before.size().0 as int ==> #[trigger] fill::shaded(
                            *blend,
                            before,
                            *self,
                            x,
                            y,
                            c@,
                        );
                assert(sampler.covers(edges@, rule, clip, ruler@, y, c@));
            }
            assert forall|x: u32, y: u32|
                x < before.size().0 && y < before.size().1 && !rows.has(y as int) implies #[trigger]
                self.same_at(before, x, y) by {
                assert(!inside.has(y as int));
            }
        }
    }
}

/// Without a clip what a path covers is what it covers; with one it is that and what
/// the clip lets through, at the same pixel.
pub proof fn a_clip_works_pixel_by_pixel<T: Fn(Real, Real) -> Real>(
    times: T,
    clip: Option<&Clip>,
    y: u32,
    bare: Seq<Real>,
    cover: Seq<Real>,
    x: u32,
)
    requires
        clipped(times, clip, y, bare, cover),
        x < bare.len(),
    ensures
        cover.len() == bare.len(),
        clip is None ==> cover[x as int] == bare[x as int],
        clip matches Some(c) ==> call_ensures(
            times,
            (bare[x as int], c.coverage(x, y)),
            cover[x as int],
        ),
{
}

} // verus!
