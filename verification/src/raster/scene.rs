//! A drawing as data: a list of fills with their paint, rule, clips and blend
//! mode, and groups of them that are composited as one.

use vstd::prelude::*;
use crate::geom::Real;
use crate::path::boolean::FillRule;
use crate::path::outline::PathEl;
use crate::raster::fill::Color;
use crate::raster::fill::Pixmap;
use crate::raster::paint::Paint;

verus! {

/// How a colour combines with what is behind it.
#[derive(Clone, Copy, Debug, PartialEq, Eq, Structural)]
pub enum BlendMode {
    Normal,
    Multiply,
    Screen,
    Overlay,
    Darken,
    Lighten,
    ColorDodge,
    ColorBurn,
    HardLight,
    SoftLight,
    Difference,
    Exclusion,
    Hue,
    Saturation,
    Color,
    Luminosity,
}

/// One fill: a path, what to paint it with, and how it lands.
#[derive(Debug)]
pub struct Draw {
    /// The path to fill, in pixels.
    pub path: Vec<PathEl>,
    /// What to paint it with.
    pub paint: Paint,
    /// Which winding rule decides the inside.
    pub rule: FillRule,
    /// How the result combines with the backdrop.
    pub blend: BlendMode,
    /// Paths whose coverage multiplies this fill's, innermost last. Empty is
    /// unclipped.
    pub clip: Vec<(Vec<PathEl>, FillRule)>,
}

/// A node of a scene: a fill, or a group of nodes composited as one.
#[derive(Debug)]
pub enum Node {
    /// One fill.
    Fill(Draw),
    /// An isolated group: `nodes` composite onto a transparent surface of their
    /// own, and that surface then composites onto the parent at `alpha` through
    /// `blend`. A member's blend mode sees only what the group drew.
    Group { nodes: Vec<Node>, blend: BlendMode, alpha: Real },
}

/// A canvas and everything drawn onto it, in order.
#[derive(Debug)]
pub struct Scene {
    /// Canvas width in pixels.
    pub width: u32,
    /// Canvas height in pixels.
    pub height: u32,
    /// The nodes, painted back to front.
    pub nodes: Vec<Node>,
}

/// Whether a pixmap of this size is transparent everywhere.
pub open spec fn is_blank(p: Pixmap, size: (u32, u32)) -> bool {
    &&& p.wf()
    &&& p.size() == size
    &&& forall|i: int| 0 <= i < p.bytes().len() ==> #[trigger] p.bytes()[i] == 0
}

/// Whether painting a node takes one pixmap to another. A group is painted on
/// its own, from a blank surface, whatever it lands on.
pub open spec fn lands<
    F: Fn(Pixmap, &Draw) -> Pixmap,
    C: Fn(Pixmap, Pixmap, BlendMode, Real) -> Pixmap,
>(fill: F, composite: C, node: Node, before: Pixmap, after: Pixmap) -> bool
    decreases node, 0int,
{
    match node {
        Node::Fill(d) => call_ensures(fill, (before, &d), after),
        Node::Group { nodes, blend, alpha } => exists|blank: Pixmap, layer: Pixmap|
            #![trigger is_blank(blank, before.size()), call_ensures(composite, (before, layer, blend, alpha), after)]
            is_blank(blank, before.size()) && all_land(
                fill,
                composite,
                nodes@,
                nodes@.len() as int,
                blank,
                layer,
            ) && call_ensures(composite, (before, layer, blend, alpha), after),
    }
}

/// Whether painting the first `n` nodes in order takes one pixmap to another.
pub open spec fn all_land<
    F: Fn(Pixmap, &Draw) -> Pixmap,
    C: Fn(Pixmap, Pixmap, BlendMode, Real) -> Pixmap,
>(fill: F, composite: C, nodes: Seq<Node>, n: int, before: Pixmap, after: Pixmap) -> bool
    decreases nodes, n,
{
    if n <= 0 || n > nodes.len() {
        after == before
    } else {
        exists|mid: Pixmap| #[trigger]
            mid.wf() && all_land(fill, composite, nodes, n - 1, before, mid) && lands(
                fill,
                composite,
                nodes[n - 1],
                mid,
                after,
            )
    }
}

/// Whether painting keeps a pixmap in shape and at its size.
pub open spec fn keeps_size<
    F: Fn(Pixmap, &Draw) -> Pixmap,
    C: Fn(Pixmap, Pixmap, BlendMode, Real) -> Pixmap,
>(fill: F, composite: C) -> bool {
    &&& forall|p: Pixmap, d: &Draw| p.wf() ==> #[trigger] call_requires(fill, (p, d))
    &&& forall|p: Pixmap, d: &Draw, q: Pixmap|
        p.wf() && #[trigger] call_ensures(fill, (p, d), q) ==> q.wf() && q.size() == p.size()
    &&& forall|p: Pixmap, l: Pixmap, b: BlendMode, a: Real|
        p.wf() && l.wf() && l.size() == p.size() ==> #[trigger] call_requires(
            composite,
            (p, l, b, a),
        )
    &&& forall|p: Pixmap, l: Pixmap, b: BlendMode, a: Real, q: Pixmap|
        p.wf() && #[trigger] call_ensures(composite, (p, l, b, a), q) ==> q.wf() && q.size()
            == p.size()
}

/// Paints a node.
fn paint_node<
    F: Fn(Pixmap, &Draw) -> Pixmap,
    C: Fn(Pixmap, Pixmap, BlendMode, Real) -> Pixmap,
>(node: &Node, pm: Pixmap, fill: &F, composite: &C) -> (r: Pixmap)
    requires
        pm.wf(),
        pm.size().0 * pm.size().1 * 4 <= usize::MAX,
        keeps_size(*fill, *composite),
    ensures
        r.wf(),
        r.size() == pm.size(),
        lands(*fill, *composite, *node, pm, r),
    decreases node,
{
    match node {
        Node::Fill(d) => fill(pm, d),
        Node::Group { nodes, blend, alpha } => {
            let blank = Pixmap::new(pm.width(), pm.height());
            let ghost start = blank;
            let layer = paint_nodes(nodes, blank, fill, composite);
            assert(is_blank(start, pm.size()));
            composite(pm, layer, *blend, *alpha)
        },
    }
}

/// Paints nodes one after the other.
fn paint_nodes<
    F: Fn(Pixmap, &Draw) -> Pixmap,
    C: Fn(Pixmap, Pixmap, BlendMode, Real) -> Pixmap,
>(nodes: &Vec<Node>, pm: Pixmap, fill: &F, composite: &C) -> (r: Pixmap)
    requires
        pm.wf(),
        pm.size().0 * pm.size().1 * 4 <= usize::MAX,
        keeps_size(*fill, *composite),
    ensures
        r.wf(),
        r.size() == pm.size(),
        all_land(*fill, *composite, nodes@, nodes@.len() as int, pm, r),
    decreases nodes,
{
    let ghost start = pm;
    let mut at = pm;
    let mut i: usize = 0;
    while i < nodes.len()
        invariant
            i <= nodes@.len(),
            at.wf(),
            at.size() == start.size(),
            start.size().0 * start.size().1 * 4 <= usize::MAX,
            keeps_size(*fill, *composite),
            all_land(*fill, *composite, nodes@, i as int, start, at),
        decreases nodes.len() - i,
    {
        proof {
            assert(decreases_to!(nodes => nodes@[i as int]));
        }
        let ghost mid = at;
        at = paint_node(&nodes[i], at, fill, composite);
        proof {
            let n = i + 1;
            assert(mid.wf());
            assert(all_land(*fill, *composite, nodes@, n - 1, start, mid));
            assert(lands(*fill, *composite, nodes@[n - 1], mid, at));
        }
        i += 1;
    }
    at
}

impl Scene {
    /// An empty `width` by `height` scene.
    pub fn new(width: u32, height: u32) -> (s: Scene)
        ensures
            s.width == width,
            s.height == height,
            s.nodes@ == Seq::<Node>::empty(),
    {
        Scene { width, height, nodes: Vec::new() }
    }

    /// Appends a fill.
    pub fn push(&mut self, draw: Draw)
        ensures
            final(self).width == old(self).width,
            final(self).height == old(self).height,
            final(self).nodes@ == old(self).nodes@.push(Node::Fill(draw)),
    {
        self.nodes.push(Node::Fill(draw));
    }

    /// Appends a solid fill by the nonzero rule, unclipped.
    pub fn fill(&mut self, path: Vec<PathEl>, color: Color)
        ensures
            final(self).width == old(self).width,
            final(self).height == old(self).height,
            final(self).nodes@.len() == old(self).nodes@.len() + 1,
            final(self).nodes@.drop_last() == old(self).nodes@,
            final(self).nodes@.last() matches Node::Fill(d) && d.path@ == path@ && d.paint
                == Paint::Solid(color) && d.rule == FillRule::NonZero && d.blend
                == BlendMode::Normal && d.clip@.len() == 0,
    {
        let clip: Vec<(Vec<PathEl>, FillRule)> = Vec::new();
        let draw = Draw {
            path,
            paint: Paint::Solid(color),
            rule: FillRule::NonZero,
            blend: BlendMode::Normal,
            clip,
        };
        self.push(draw);
        assert(self.nodes@.drop_last() =~= old(self).nodes@);
    }

    /// Appends an isolated group.
    pub fn push_group(&mut self, nodes: Vec<Node>, blend: BlendMode, alpha: Real)
        ensures
            final(self).width == old(self).width,
            final(self).height == old(self).height,
            final(self).nodes@ == old(self).nodes@.push(Node::Group { nodes, blend, alpha }),
    {
        self.nodes.push(Node::Group { nodes, blend, alpha });
    }

    /// Renders this scene onto a transparent canvas. `fill` paints one fill,
    /// and `composite` lays a finished group onto what is behind it.
    pub fn render<
        F: Fn(Pixmap, &Draw) -> Pixmap,
        C: Fn(Pixmap, Pixmap, BlendMode, Real) -> Pixmap,
    >(&self, fill: &F, composite: &C) -> (r: Pixmap)
        requires
            self.width * self.height * 4 <= usize::MAX,
            keeps_size(*fill, *composite),
        ensures
            r.wf(),
            r.size() == (self.width, self.height),
            exists|blank: Pixmap| #[trigger]
                is_blank(blank, (self.width, self.height)) && all_land(
                    *fill,
                    *composite,
                    self.nodes@,
                    self.nodes@.len() as int,
                    blank,
                    r,
                ),
    {
        let blank = Pixmap::new(self.width, self.height);
        let ghost start = blank;
        assert(is_blank(start, (self.width, self.height)));
        paint_nodes(&self.nodes, blank, fill, composite)
    }
}

/// What is painted later lands on what was painted before: painting nodes is
/// painting all but the last, and then the last on what that gave.
pub proof fn later_nodes_land_on_earlier_ones<
    F: Fn(Pixmap, &Draw) -> Pixmap,
    C: Fn(Pixmap, Pixmap, BlendMode, Real) -> Pixmap,
>(fill: F, composite: C, nodes: Seq<Node>, n: int, before: Pixmap, after: Pixmap)
    requires
        0 < n <= nodes.len(),
        all_land(fill, composite, nodes, n, before, after),
    ensures
        exists|mid: Pixmap| #[trigger]
            mid.wf() && all_land(fill, composite, nodes, n - 1, before, mid) && lands(
                fill,
                composite,
                nodes[n - 1],
                mid,
                after,
            ),
        forall|same: Pixmap|
            all_land(fill, composite, nodes, 0, before, same) ==> same == before,
{
}

/// A group is painted by itself, on a layer of nothing, and then laid over what is
/// there by its own blend mode and alpha; a fill is painted right there.
pub proof fn a_group_is_painted_by_itself<
    F: Fn(Pixmap, &Draw) -> Pixmap,
    C: Fn(Pixmap, Pixmap, BlendMode, Real) -> Pixmap,
>(fill: F, composite: C, node: Node, before: Pixmap, after: Pixmap)
    requires
        lands(fill, composite, node, before, after),
    ensures
        node matches Node::Fill(d) ==> call_ensures(fill, (before, &d), after),
        node matches Node::Group { nodes, blend, alpha } ==> exists|blank: Pixmap, layer: Pixmap|
            #![trigger is_blank(blank, before.size()), call_ensures(composite, (before, layer, blend, alpha), after)]
            blank.wf() && blank.size() == before.size() && is_blank(blank, before.size())
                && all_land(fill, composite, nodes@, nodes@.len() as int, blank, layer)
                && call_ensures(composite, (before, layer, blend, alpha), after),
{
}

} // verus!
