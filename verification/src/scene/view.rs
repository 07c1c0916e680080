//! The screen to document mapping: which gestures a view takes.
//!
//! Screen y grows downwards, so a positive rotation reads as clockwise. Pan is
//! the screen position of document point `(0, 0)`; zoom scales about that
//! origin and rotation turns about it. The arithmetic of a gesture is the
//! caller's; what a view makes of its result is decided here.

use vstd::prelude::*;
use crate::geom::Point;
use crate::geom::Real;
use crate::geom::Rect;

verus! {

/// The furthest out a view may zoom: the number 1e-4.
///
/// Both limits are the guard that keeps the mapping invertible, so they are
/// enforced, not advisory.
pub const MIN_ZOOM: u64 = 0x3f1a_36e2_eb1c_432d;

/// The closest in a view may zoom: the number 1e6.
pub const MAX_ZOOM: u64 = 0x412e_8480_0000_0000;

/// A zoom within the limits.
pub open spec fn within(zoom: Real) -> bool {
    (Real { bits: MIN_ZOOM }).at_most(zoom) && zoom.at_most(Real { bits: MAX_ZOOM })
}

/// A zoom held within the limits.
pub open spec fn held(zoom: Real) -> Real {
    if zoom.less(Real { bits: MIN_ZOOM }) {
        Real { bits: MIN_ZOOM }
    } else if (Real { bits: MAX_ZOOM }).less(zoom) {
        Real { bits: MAX_ZOOM }
    } else {
        zoom
    }
}

/// A viewport's pan, zoom and rotation.
///
/// The three are private because they are not independent: the zoom is held
/// inside [`MIN_ZOOM`]`..=`[`MAX_ZOOM`] and every field is held finite, which
/// stops a NaN wheel delta from poisoning every later hit test.
#[derive(Clone, Copy, Debug, PartialEq, Eq, Structural)]
pub struct View {
    pan: Point,
    zoom: Real,
    rotation: Real,
}

impl View {
    pub closed spec fn at(self) -> Point {
        self.pan
    }

    pub closed spec fn scale(self) -> Real {
        self.zoom
    }

    pub closed spec fn angle(self) -> Real {
        self.rotation
    }

    /// Every field is finite and the zoom is within its limits.
    pub open spec fn wf(self) -> bool {
        &&& self.at().finite()
        &&& within(self.scale())
        &&& self.angle().finite()
    }

    /// Where the view is after it was asked to go to `to`: an infinite or NaN
    /// pan would survive forever and take the whole document with it.
    pub open spec fn panned(self, to: Point) -> Point {
        if to.finite() {
            to
        } else {
            self.at()
        }
    }

    /// The identity view: document origin at the screen origin, 1:1, upright.
    pub fn new() -> (v: View)
        ensures
            v.wf(),
            v.at() == (Point { x: Real { bits: 0 }, y: Real { bits: 0 } }),
            v.scale().bits == 0x3ff0_0000_0000_0000,
            v.angle().bits == 0,
    {
        let zero = Real { bits: 0 };
        View {
            pan: Point { x: zero, y: zero },
            zoom: Real { bits: 0x3ff0_0000_0000_0000 },
            rotation: zero,
        }
    }

    /// The screen position of document point `(0, 0)`.
    pub fn pan(&self) -> (p: Point)
        ensures
            p == self.at(),
    {
        self.pan
    }

    /// Screen pixels per document unit.
    pub fn zoom(&self) -> (z: Real)
        ensures
            z == self.scale(),
    {
        self.zoom
    }

    /// The rotation in radians.
    pub fn rotation(&self) -> (r: Real)
        ensures
            r == self.angle(),
    {
        self.rotation
    }

    /// The single place the pan is written, so one guard covers every path
    /// into it.
    fn set_pan(&mut self, to: Point)
        ensures
            final(self).at() == old(self).panned(to),
            final(self).scale() == old(self).scale(),
            final(self).angle() == old(self).angle(),
    {
        if to.is_finite() {
            self.pan = to;
        }
    }

    /// Slides the view; `to` is the pan and the displacement, added.
    pub fn pan_by(&mut self, to: Point)
        requires
            old(self).wf(),
        ensures
            final(self).wf(),
            final(self).at() == old(self).panned(to),
            final(self).scale() == old(self).scale(),
            final(self).angle() == old(self).angle(),
    {
        self.set_pan(to);
    }

    /// Moves the pan so that a document point lands on a screen point.
    /// `anchored` is the pan that does that to this view.
    pub fn anchor_at<F: Fn(View) -> Point>(&mut self, anchored: F)
        requires
            old(self).wf(),
            call_requires(anchored, (*old(self),)),
        ensures
            final(self).wf(),
            exists|to: Point| #[trigger]
                call_ensures(anchored, (*old(self),), to) && final(self).at() == old(self).panned(
                    to,
                ),
            final(self).scale() == old(self).scale(),
            final(self).angle() == old(self).angle(),
    {
        let to = anchored(*self);
        self.set_pan(to);
    }

    /// A zoom held within the limits.
    pub fn clamp_zoom(zoom: Real) -> (z: Real)
        ensures
            z == held(zoom),
    {
        if zoom.below(Real { bits: MIN_ZOOM }) {
            Real { bits: MIN_ZOOM }
        } else if (Real { bits: MAX_ZOOM }).below(zoom) {
            Real { bits: MAX_ZOOM }
        } else {
            zoom
        }
    }

    /// Whether a zoom by `factor` to `product` changes the view. A factor that
    /// is not positive or not finite is rejected rather than clamped, which
    /// would turn garbage into a plausible-looking zoom.
    pub open spec fn zooms(self, factor: Real, product: Real) -> bool {
        &&& (Real { bits: 0 }).less(factor)
        &&& factor.finite()
        &&& !product.nan()
        &&& !held(product).equals(self.scale())
    }

    /// Multiplies the zoom by `factor`, keeping a document point in place.
    /// `product` is the zoom and the factor, multiplied, and `anchored` gives
    /// the pan that keeps the point where it is at a zoom.
    ///
    /// The zoom is clamped before anchoring, so at either limit the point still
    /// holds still instead of drifting by the clamped-away part.
    pub fn zoom_about<F: Fn(Real) -> Point>(&mut self, factor: Real, product: Real, anchored: F)
        requires
            old(self).wf(),
            forall|z: Real| within(z) ==> #[trigger] call_requires(anchored, (z,)),
        ensures
            final(self).wf(),
            final(self).angle() == old(self).angle(),
            if old(self).zooms(factor, product) {
                &&& final(self).scale() == held(product)
                &&& exists|to: Point|
                    call_ensures(anchored, (held(product),), to) && final(self).at() == old(
                        self,
                    ).panned(to)
            } else {
                *final(self) == *old(self)
            },
    {
        let zero = Real { bits: 0 };
        if !zero.below(factor) || !factor.is_finite() || product.is_nan() {
            return;
        }
        let zoom = View::clamp_zoom(product);
        if zoom.equal(self.zoom) {
            return;
        }
        let to = anchored(zoom);
        self.zoom = zoom;
        self.set_pan(to);
        assert(self.at() == old(self).panned(to));
    }

    /// Turns the view by `delta`, keeping a document point in place. `folded`
    /// is the rotation and `delta`, added and folded to half a turn either way,
    /// and `anchored` gives the pan that keeps the point where it is at a
    /// rotation.
    pub fn rotate_about<F: Fn(Real) -> Point>(&mut self, delta: Real, folded: Real, anchored: F)
        requires
            old(self).wf(),
            folded.finite() ==> call_requires(anchored, (folded,)),
        ensures
            final(self).wf(),
            final(self).scale() == old(self).scale(),
            if delta.finite() && folded.finite() {
                &&& final(self).angle() == folded
                &&& exists|to: Point|
                    call_ensures(anchored, (folded,), to) && final(self).at() == old(self).panned(
                        to,
                    )
            } else {
                *final(self) == *old(self)
            },
    {
        if !delta.is_finite() || !folded.is_finite() {
            return;
        }
        let to = anchored(folded);
        self.rotation = folded;
        self.set_pan(to);
        assert(self.at() == old(self).panned(to));
    }
}

impl Default for View {
    fn default() -> (v: View)
        ensures
            v.wf(),
            v.at() == (Point { x: Real { bits: 0 }, y: Real { bits: 0 } }),
            v.scale().bits == 0x3ff0_0000_0000_0000,
            v.angle().bits == 0,
    {
        View::new()
    }
}

/// The corners of a rectangle.
pub open spec fn corners(r: Rect) -> Seq<Point> {
    seq![
        Point { x: r.x0, y: r.y0 },
        Point { x: r.x1, y: r.y0 },
        Point { x: r.x0, y: r.y1 },
        Point { x: r.x1, y: r.y1 },
    ]
}

/// Whether these are the document points under the corners of a screen
/// rectangle.
pub open spec fn are_corners<F: Fn(View, Point) -> Point>(
    view: View,
    r: Rect,
    map: F,
    to: Seq<Point>,
) -> bool {
    &&& to.len() == 4
    &&& forall|k: int| 0 <= k < 4 ==> call_ensures(map, (view, corners(r)[k]), #[trigger] to[k])
}

impl View {
    /// The document-space bounding box of the screen rectangle `screen`, which
    /// has been grown by the overdraw margin. `to_document` says which document
    /// point is under a screen point of a view.
    ///
    /// Under rotation this is the bounding box of the rotated viewport, not the
    /// viewport. A viewport with no area comes back as the rectangle of no
    /// points, which matches nothing: its corners, mapped, could cover the whole
    /// plane.
    pub fn visible_bounds<F: Fn(View, Point) -> Point>(
        &self,
        screen: Rect,
        to_document: F,
    ) -> (r: Rect)
        requires
            forall|p: Point| call_requires(to_document, (*self, p)),
        ensures
            if screen.encloses_nothing() {
                r == Rect::nothing()
            } else {
                exists|to: Seq<Point>| #[trigger]
                    are_corners(*self, screen, to_document, to) && r == Rect::around(to, 4)
            },
    {
        if screen.is_empty() {
            return Rect::empty();
        }
        let a = to_document(*self, Point { x: screen.x0, y: screen.y0 });
        let b = to_document(*self, Point { x: screen.x1, y: screen.y0 });
        let c = to_document(*self, Point { x: screen.x0, y: screen.y1 });
        let d = to_document(*self, Point { x: screen.x1, y: screen.y1 });
        let r = Rect::empty().union_point(a).union_point(b).union_point(c).union_point(d);
        proof {
            let to = seq![a, b, c, d];
            reveal_with_fuel(Rect::around, 5);
            assert forall|k: int| 0 <= k < 4 implies call_ensures(
                to_document,
                (*self, corners(screen)[k]),
                #[trigger] to[k],
            ) by {
                if k == 0 {
                } else if k == 1 {
                } else if k == 2 {
                }
            }
            assert(are_corners(*self, screen, to_document, to));
            assert(r == Rect::around(to, 4));
        }
        r
    }
}

/// A zoom that is a number is within the limits once held, and one that was
/// within them is not changed.
pub proof fn holding_keeps_to_the_limits(zoom: Real)
    requires
        !zoom.nan(),
    ensures
        within(held(zoom)),
        within(zoom) ==> held(zoom) == zoom,
        held(held(zoom)) == held(zoom),
{
}

/// The zoom stays between a ten-thousandth and a million: below it is raised to
/// the one, above lowered to the other, and a larger zoom is never held to a
/// smaller one.
pub proof fn holding_clamps(zoom: Real, larger: Real)
    ensures
        zoom.less(Real { bits: 0x3f1a_36e2_eb1c_432d }) ==> held(zoom).bits
            == 0x3f1a_36e2_eb1c_432d,
        (Real { bits: 0x412e_8480_0000_0000 }).less(zoom) ==> held(zoom).bits
            == 0x412e_8480_0000_0000,
        (Real { bits: 0x3f1a_36e2_eb1c_432d }).at_most(zoom) && zoom.at_most(
            Real { bits: 0x412e_8480_0000_0000 },
        ) ==> held(zoom) == zoom,
        zoom.at_most(larger) ==> held(zoom).at_most(held(larger)),
{
}

/// A zoom by a factor that is not positive, not finite or leads nowhere changes
/// nothing, and neither does one that the limits take back.
pub proof fn a_senseless_zoom_is_ignored(view: View, factor: Real, product: Real)
    requires
        view.wf(),
    ensures
        factor.nan() || factor.at_most(Real { bits: 0 }) || factor.bits == 0x7ff0_0000_0000_0000
            ==> !view.zooms(factor, product),
        product.nan() ==> !view.zooms(factor, product),
        view.scale() == (Real { bits: 0x412e_8480_0000_0000 }) && view.scale().at_most(product)
            ==> !view.zooms(factor, product),
        view.scale() == (Real { bits: 0x3f1a_36e2_eb1c_432d }) && product.at_most(view.scale())
            ==> !view.zooms(factor, product),
        (Real { bits: 0 }).less(factor) && factor.finite() && within(product) && !product.equals(
            view.scale(),
        ) ==> view.zooms(factor, product),
{
}

/// A pan that is not finite is ignored; any other is taken.
pub proof fn a_pan_goes_where_it_is_finite(view: View, to: Point)
    ensures
        to.x.finite() && to.y.finite() ==> view.panned(to) == to,
        !to.x.finite() || !to.y.finite() ==> view.panned(to) == view.at(),
{
}

/// The corners of a rectangle are all four combinations of its edges.
pub proof fn a_rectangle_has_four_corners(r: Rect)
    ensures
        corners(r).len() == 4,
        corners(r).contains(Point { x: r.x0, y: r.y0 }),
        corners(r).contains(Point { x: r.x0, y: r.y1 }),
        corners(r).contains(Point { x: r.x1, y: r.y0 }),
        corners(r).contains(Point { x: r.x1, y: r.y1 }),
{
    let c = corners(r);
    assert(c[0] == (Point { x: r.x0, y: r.y0 }));
    assert(c[1] == (Point { x: r.x1, y: r.y0 }));
    assert(c[2] == (Point { x: r.x0, y: r.y1 }));
    assert(c[3] == (Point { x: r.x1, y: r.y1 }));
}

} // verus!
