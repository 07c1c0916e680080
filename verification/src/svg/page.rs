//! From a scene to the page that is written of it.
//!
//! The tree of the page is that of the scene, with the same styles, clips and
//! names. What has to be computed, coordinates and coefficients, is asked for.

use vstd::prelude::*;
use crate::scene::arena::Arena;
use crate::scene::arena::NodeId;
use crate::scene::arena::CAPACITY;
use super::document;
use super::document::KindModel;
use super::document::TreeModel;
use super::export;
use super::export::Item;
use super::export::ItemKind;
use super::export::ItemKindModel;
use super::export::ItemModel;
use super::export::Outline;
use super::export::OutlineModel;
use super::export::Page;
use super::export::PageModel;
use super::export::Ramp;
use super::export::RampModel;
use super::export::RampStop;
use super::export::RampStopModel;
use super::graph;
use super::import;
use super::layout;
use super::markup;
use super::path_data;
use super::path_data::Plotted;
use super::round_trip;
use super::scene::Clip;
use super::scene::ClipShape;
use super::scene::Gradient;
use super::scene::Node;
use super::scene::NodeKind;
use super::scene::Scene;
use super::scene::Shape;
use super::scene::Stop;
use super::xml;

verus! {

/// Whether two trees are nested alike, with the same styles and, of the clips
/// that there are, the same ones.
pub open spec fn same_tree(clips: Seq<OutlineModel>, a: TreeModel, b: TreeModel) -> bool
    decreases a,
{
    &&& b.style == a.style
    &&& b.clip == layout::kept_clip(clips, a.clip)
    &&& match (a.kind, b.kind) {
        (KindModel::Shape(_), KindModel::Shape(_)) => true,
        (KindModel::Group(x), KindModel::Group(y)) => x.len() == y.len() && same_trees(
            clips,
            x,
            y,
            x.len() as int,
        ),
        _ => false,
    }
}

/// Whether the first `n` of two lists of trees are nested alike.
pub open spec fn same_trees(
    clips: Seq<OutlineModel>,
    a: Seq<TreeModel>,
    b: Seq<TreeModel>,
    n: int,
) -> bool
    decreases a, n,
{
    n <= 0 || n > a.len() || (same_trees(clips, a, b, n - 1) && same_tree(
        clips,
        a[n - 1],
        b[n - 1],
    ))
}

/// The computations that a page rests on, each giving numbers as texts.
pub struct Plotter<Plot, Place, Cut, Coords, Bend, Offset, Side> {
    /// The outline of a shape.
    pub plot: Plot,
    /// The coefficients of a node's own transform, unless that is the identity.
    pub place: Place,
    /// The outline of a clipping shape, its transforms applied.
    pub cut: Cut,
    /// The coordinates of a gradient.
    pub coords: Coords,
    /// The coefficients of a gradient's transform, unless that is the identity.
    pub bend: Bend,
    /// The offset of a stop.
    pub offset: Offset,
    /// One number of the view box.
    pub side: Side,
}

impl<
    Plot: Fn(&Shape) -> Vec<Plotted>,
    Place: Fn(&Node) -> Option<Vec<String>>,
    Cut: Fn(&ClipShape) -> Vec<Plotted>,
    Coords: Fn(&Gradient) -> Vec<String>,
    Bend: Fn(&Gradient) -> Option<Vec<String>>,
    Offset: Fn(&Stop) -> String,
    Side: Fn(&String) -> String,
> Plotter<Plot, Place, Cut, Coords, Bend, Offset, Side> {
    /// Whether every question may be asked.
    pub open spec fn ready(self) -> bool {
        &&& forall|s: Shape| call_requires(self.plot, (&s,))
        &&& forall|n: Node| call_requires(self.place, (&n,))
        &&& forall|s: ClipShape| call_requires(self.cut, (&s,))
        &&& forall|g: Gradient| call_requires(self.coords, (&g,))
        &&& forall|g: Gradient| call_requires(self.bend, (&g,))
        &&& forall|s: Stop| call_requires(self.offset, (&s,))
        &&& forall|t: String| call_requires(self.side, (&t,))
    }

    /// Whether an item is what is written of a node and everything under it.
    pub open spec fn draws(self, nodes: Map<NodeId, Node>, id: NodeId, m: ItemModel) -> bool
        decreases id.slot(), 1int, 0int,
    {
        let n = nodes[id];
        &&& m.style == n.style@
        &&& m.clip == xml::optional_view(n.clip_path)
        &&& exists|v: Option<Vec<String>>| #[trigger]
            call_ensures(self.place, (&n,), v) && m.matrix == export::optional_texts(v)
        &&& match n.kind {
            NodeKind::Path(shape) => exists|v: Vec<Plotted>| #[trigger]
                call_ensures(self.plot, (&shape,), v) && m.kind == ItemKindModel::Path(
                    path_data::plots(v@),
                ),
            NodeKind::Group(ids) => m.kind matches ItemKindModel::Group(items) && items.len()
                == ids@.len() && self.draws_all(
                nodes,
                ids@,
                id.slot(),
                items,
                ids@.len() as int,
            ),
        }
    }

    /// Whether the first `n` items are what is written of nodes, all in slots
    /// before `bound`.
    pub open spec fn draws_all(
        self,
        nodes: Map<NodeId, Node>,
        ids: Seq<NodeId>,
        bound: nat,
        items: Seq<ItemModel>,
        n: int,
    ) -> bool
        decreases bound, 0int, n,
    {
        n <= 0 || n > ids.len() || (self.draws_all(nodes, ids, bound, items, n - 1) && ids[n
            - 1].slot() < bound && self.draws(nodes, ids[n - 1], items[n - 1]))
    }

    /// Whether a stop is what is written of one.
    pub open spec fn stops_at(self, s: Stop, m: RampStopModel) -> bool {
        &&& exists|v: String| #[trigger]
            call_ensures(self.offset, (&s,), v) && m.offset == v@
        &&& m.color == s.color@
        &&& m.opacity == s.opacity@
    }

    /// Whether a ramp is what is written of a gradient.
    pub open spec fn ramps(self, g: Gradient, m: RampModel) -> bool {
        &&& m.id == g.id@
        &&& m.radial == g.radial
        &&& exists|v: Vec<String>| #[trigger]
            call_ensures(self.coords, (&g,), v) && m.coords == path_data::texts(v@)
        &&& m.user_space == g.user_space
        &&& exists|v: Option<Vec<String>>| #[trigger]
            call_ensures(self.bend, (&g,), v) && m.matrix == export::optional_texts(v)
        &&& m.spread == g.spread@
        &&& m.stops.len() == g.stops@.len()
        &&& forall|k: int|
            0 <= k < g.stops@.len() ==> self.stops_at(g.stops@[k], #[trigger] m.stops[k])
    }

    /// Whether an outline is what is written of a clip.
    pub open spec fn outlines(self, c: Clip, m: OutlineModel) -> bool {
        &&& m.id == c.id@
        &&& m.paths.len() == c.shapes@.len()
        &&& forall|k: int|
            0 <= k < c.shapes@.len() ==> self.cuts(c.shapes@[k], #[trigger] m.paths[k])
    }

    /// Whether a path is what is written of a clipping shape.
    pub open spec fn cuts(self, s: ClipShape, els: Seq<path_data::PlottedModel>) -> bool {
        exists|v: Vec<Plotted>| #[trigger]
            call_ensures(self.cut, (&s,), v) && els == path_data::plots(v@)
    }

    /// Whether a text is what is written of a number of the view box.
    pub open spec fn sides(self, t: String, m: Seq<char>) -> bool {
        exists|v: String| #[trigger] call_ensures(self.side, (&t,), v) && m == v@
    }

    /// Whether a page is what is written of a scene.
    pub open spec fn depicts(self, s: Scene, p: PageModel) -> bool {
        &&& p.width == xml::optional_view(s.width)
        &&& p.height == xml::optional_view(s.height)
        &&& match s.view_box {
            Some(b) => p.view_box matches Some(m) && m.len() == b@.len() && forall|k: int|
                0 <= k < b@.len() ==> self.sides(b@[k], #[trigger] m[k]),
            None => p.view_box is None,
        }
        &&& p.gradients.len() == s.gradients@.len()
        &&& forall|k: int|
            0 <= k < s.gradients@.len() ==> self.ramps(s.gradients@[k], #[trigger] p.gradients[k])
        &&& p.clips.len() == s.clips@.len()
        &&& forall|k: int|
            0 <= k < s.clips@.len() ==> self.outlines(s.clips@[k], #[trigger] p.clips[k])
        &&& p.roots.len() == s.roots@.len()
        &&& self.draws_all(
            s.nodes@,
            s.roots@,
            CAPACITY as nat,
            p.roots,
            s.roots@.len() as int,
        )
    }

    proof fn lemma_draws_prefix(
        self,
        nodes: Map<NodeId, Node>,
        ids: Seq<NodeId>,
        bound: nat,
        a: Seq<ItemModel>,
        b: Seq<ItemModel>,
        n: int,
    )
        requires
            n <= ids.len(),
            forall|k: int| 0 <= k < n ==> a[k] == b[k],
            self.draws_all(nodes, ids, bound, a, n),
        ensures
            self.draws_all(nodes, ids, bound, b, n),
        decreases n,
    {
        if n > 0 {
            self.lemma_draws_prefix(nodes, ids, bound, a, b, n - 1);
        }
    }

    proof fn lemma_same_tree(
        self,
        nodes: Map<NodeId, Node>,
        id: NodeId,
        clips: Seq<OutlineModel>,
        item: ItemModel,
        t: TreeModel,
    )
        requires
            self.draws(nodes, id, item),
            round_trip::comes_back(clips, item, t),
        ensures
            same_tree(clips, graph::tree_at(nodes, id), t),
        decreases id.slot(), 1int, 0int,
    {
        if let NodeKind::Group(ids) = nodes[id].kind {
            let n = ids@.len() as int;
            let items = item.kind->Group_0;
            let trees = t.kind->Group_0;
            graph::lemma_trees_at(nodes, ids@, id.slot(), n);
            self.lemma_same_trees(nodes, ids@, id.slot(), clips, items, trees, n, n);
        }
    }

    proof fn lemma_same_trees(
        self,
        nodes: Map<NodeId, Node>,
        ids: Seq<NodeId>,
        bound: nat,
        clips: Seq<OutlineModel>,
        items: Seq<ItemModel>,
        trees: Seq<TreeModel>,
        all: int,
        n: int,
    )
        requires
            0 <= n <= all == ids.len() == items.len() == trees.len(),
            self.draws_all(nodes, ids, bound, items, n),
            round_trip::all_come_back(clips, items, trees, n),
        ensures
            same_trees(clips, graph::trees_at(nodes, ids, bound, all), trees, n),
        decreases bound, 0int, n,
    {
        if n > 0 {
            graph::lemma_trees_at(nodes, ids, bound, all);
            assert(self.draws_all(nodes, ids, bound, items, n - 1));
            assert(round_trip::all_come_back(clips, items, trees, n - 1));
            self.lemma_same_trees(nodes, ids, bound, clips, items, trees, all, n - 1);
            self.lemma_same_tree(nodes, ids[n - 1], clips, items[n - 1], trees[n - 1]);
            let drawn = graph::trees_at(nodes, ids, bound, all);
            assert(drawn[n - 1] == graph::tree_at(nodes, ids[n - 1]));
        }
    }

    /// A scene that is saved can be opened again: what is written of it, numbers
    /// and names fit to be written, is imported as the same page, number for
    /// number, and its nodes are nested as those of the scene, with the same
    /// styles and clips.
    pub proof fn a_saved_scene_opens_again(
        self,
        s: Scene,
        p: PageModel,
        hidden: Seq<(nat, nat)>,
    )
        requires
            self.depicts(s, p),
            round_trip::writable(p),
        ensures
            markup::document(markup::normal(export::page_text(p))) matches Ok(root)
                && import::starts_svg(root) && ({
                let again = document::scene(root, hidden);
                &&& round_trip::page_comes_back(p, again)
                &&& again.width == s@.width && again.height == s@.height
                &&& again.roots.len() == s@.roots.len()
                &&& same_trees(p.clips, s@.roots, again.roots, s@.roots.len() as int)
            }),
    {
        round_trip::importing_undoes_exporting(p, hidden);
        let root = markup::document(markup::normal(export::page_text(p)))->Ok_0;
        let again = document::scene(root, hidden);
        let n = s.roots@.len() as int;
        graph::lemma_trees_at(s.nodes@, s.roots@, CAPACITY as nat, n);
        self.lemma_same_trees(
            s.nodes@,
            s.roots@,
            CAPACITY as nat,
            p.clips,
            p.roots,
            again.roots,
            n,
            n,
        );
    }

    /// What is written of a node and everything under it.
    fn item(&self, nodes: &Arena<Node>, id: NodeId) -> (r: Item)
        requires
            self.ready(),
            graph::grounded(nodes@),
            graph::styled(nodes@),
            nodes@.contains_key(id),
        ensures
            self.draws(nodes@, id, r@),
            export::item_wf(r),
        decreases id.slot(), 1int,
    {
        assert(graph::hangs(nodes@, id));
        let n: &Node = nodes.get(id).unwrap();
        let kind = match &n.kind {
            NodeKind::Path(shape) => {
                let els = (self.plot)(shape);
                ItemKind::Path(els)
            },
            NodeKind::Group(ids) => {
                let items = self.items(nodes, ids, Ghost(id.slot()));
                ItemKind::Group(items)
            },
        };
        let matrix = (self.place)(n);
        Item { kind, matrix, style: n.style.clone(), clip_path: copied(&n.clip_path) }
    }

    /// What is written of nodes, in order.
    fn items(&self, nodes: &Arena<Node>, ids: &Vec<NodeId>, Ghost(bound): Ghost<nat>) -> (r: Vec<
        Item,
    >)
        requires
            self.ready(),
            graph::grounded(nodes@),
            graph::styled(nodes@),
            forall|k: int|
                0 <= k < ids@.len() ==> nodes@.contains_key(#[trigger] ids@[k]) && ids@[k].slot()
                    < bound,
        ensures
            export::items_view(r@).len() == ids@.len(),
            self.draws_all(nodes@, ids@, bound, export::items_view(r@), ids@.len() as int),
            export::items_wf(r@),
        decreases bound, 0int,
    {
        let mut r: Vec<Item> = Vec::new();
        let mut i: usize = 0;
        while i < ids.len()
            invariant
                i <= ids@.len(),
                self.ready(),
                graph::grounded(nodes@),
                graph::styled(nodes@),
                forall|k: int|
                    0 <= k < ids@.len() ==> nodes@.contains_key(#[trigger] ids@[k])
                        && ids@[k].slot() < bound,
                export::items_view(r@).len() == i,
                self.draws_all(nodes@, ids@, bound, export::items_view(r@), i as int),
                export::items_wf(r@),
            decreases ids.len() - i,
        {
            assert(nodes@.contains_key(ids@[i as int]));
            let t = self.item(nodes, ids[i]);
            proof {
                let before = export::items_view(r@);
                let after = export::items_view(r@.push(t));
                assert(r@.push(t).drop_last() =~= r@);
                assert(after == before.push(t@));
                self.lemma_draws_prefix(nodes@, ids@, bound, before, after, i as int);
            }
            r.push(t);
            i += 1;
        }
        r
    }

    /// What is written of a gradient.
    fn ramp(&self, g: &Gradient) -> (r: Ramp)
        requires
            self.ready(),
        ensures
            self.ramps(*g, r@),
    {
        let mut stops: Vec<RampStop> = Vec::new();
        let mut i: usize = 0;
        while i < g.stops.len()
            invariant
                i <= g.stops@.len(),
                self.ready(),
                stops@.len() == i,
                forall|k: int|
                    0 <= k < i ==> self.stops_at(g.stops@[k], (#[trigger] stops@[k])@),
            decreases g.stops.len() - i,
        {
            let s = &g.stops[i];
            let offset = (self.offset)(s);
            let stop = RampStop { offset, color: s.color.clone(), opacity: s.opacity.clone() };
            assert(self.stops_at(*s, stop@));
            stops.push(stop);
            i += 1;
        }
        let r = Ramp {
            id: g.id.clone(),
            radial: g.radial,
            coords: (self.coords)(g),
            user_space: g.user_space,
            matrix: (self.bend)(g),
            spread: g.spread.clone(),
            stops,
        };
        assert forall|k: int| 0 <= k < g.stops@.len() implies self.stops_at(
            g.stops@[k],
            #[trigger] r@.stops[k],
        ) by {
            assert(r@.stops[k] == stops@[k]@);
        }
        r
    }

    /// What is written of a clip.
    fn outline(&self, c: &Clip) -> (r: Outline)
        requires
            self.ready(),
        ensures
            self.outlines(*c, r@),
    {
        let mut paths: Vec<Vec<Plotted>> = Vec::new();
        let mut i: usize = 0;
        while i < c.shapes.len()
            invariant
                i <= c.shapes@.len(),
                self.ready(),
                paths@.len() == i,
                forall|k: int|
                    0 <= k < i ==> self.cuts(
                        c.shapes@[k],
                        path_data::plots((#[trigger] paths@[k])@),
                    ),
            decreases c.shapes.len() - i,
        {
            paths.push((self.cut)(&c.shapes[i]));
            i += 1;
        }
        let r = Outline { id: c.id.clone(), paths };
        assert forall|k: int| 0 <= k < c.shapes@.len() implies self.cuts(
            c.shapes@[k],
            #[trigger] r@.paths[k],
        ) by {
            assert(r@.paths[k] == path_data::plots(paths@[k]@));
        }
        r
    }

    /// The page that is written of a scene.
    pub fn page(&self, scene: &Scene) -> (p: Page)
        requires
            self.ready(),
            scene.wf(),
        ensures
            self.depicts(*scene, p@),
            export::items_wf(p.roots@),
    {
        let view_box: Option<Vec<String>> = match &scene.view_box {
            None => None,
            Some(b) => {
                let mut sides: Vec<String> = Vec::new();
                let mut i: usize = 0;
                while i < b.len()
                    invariant
                        i <= b@.len(),
                        self.ready(),
                        sides@.len() == i,
                        forall|k: int|
                            0 <= k < i ==> self.sides(b@[k], (#[trigger] sides@[k])@),
                    decreases b.len() - i,
                {
                    sides.push((self.side)(&b[i]));
                    i += 1;
                }
                assert forall|k: int| 0 <= k < b@.len() implies self.sides(
                    b@[k],
                    #[trigger] path_data::texts(sides@)[k],
                ) by {
                    assert(path_data::texts(sides@)[k] == sides@[k]@);
                }
                Some(sides)
            },
        };
        let mut gradients: Vec<Ramp> = Vec::new();
        let mut i: usize = 0;
        while i < scene.gradients.len()
            invariant
                i <= scene.gradients@.len(),
                self.ready(),
                gradients@.len() == i,
                forall|k: int|
                    0 <= k < i ==> self.ramps(scene.gradients@[k], (#[trigger] gradients@[k])@),
            decreases scene.gradients.len() - i,
        {
            gradients.push(self.ramp(&scene.gradients[i]));
            i += 1;
        }
        let mut clips: Vec<Outline> = Vec::new();
        i = 0;
        while i < scene.clips.len()
            invariant
                i <= scene.clips@.len(),
                self.ready(),
                clips@.len() == i,
                forall|k: int|
                    0 <= k < i ==> self.outlines(scene.clips@[k], (#[trigger] clips@[k])@),
            decreases scene.clips.len() - i,
        {
            clips.push(self.outline(&scene.clips[i]));
            i += 1;
        }
        let roots = self.items(&scene.nodes, &scene.roots, Ghost(CAPACITY as nat));
        let p = Page {
            width: copied(&scene.width),
            height: copied(&scene.height),
            view_box,
            gradients,
            clips,
            roots,
        };
        proof {
            assert forall|k: int| 0 <= k < scene.gradients@.len() implies self.ramps(
                scene.gradients@[k],
                #[trigger] p@.gradients[k],
            ) by {
                assert(p@.gradients[k] == gradients@[k]@);
            }
            assert forall|k: int| 0 <= k < scene.clips@.len() implies self.outlines(
                scene.clips@[k],
                #[trigger] p@.clips[k],
            ) by {
                assert(p@.clips[k] == clips@[k]@);
            }
        }
        p
    }
}

/// A text that may be missing, again.
fn copied(t: &Option<String>) -> (r: Option<String>)
    ensures
        xml::optional_view(r) == xml::optional_view(*t),
{
    match t {
        Some(t) => Some(t.clone()),
        None => None,
    }
}

} // verus!
