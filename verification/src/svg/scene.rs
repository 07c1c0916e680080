//! What an imported SVG becomes: the document in plain terms.
//!
//! This is not an SVG DOM. Shapes and groups are all there is, style is the
//! resolved [`Style`], and the group hierarchy survives only because a
//! transform and a clip need somewhere to hang. Numbers are still the text
//! they were written as.
//!
//! What that costs is recorded rather than hidden: every element, attribute and
//! feature the import could not represent lands in [`Scene::losses`].

use vstd::prelude::*;
use crate::scene::arena::Arena;
use crate::scene::arena::NodeId;
use crate::scene::arena::CAPACITY;
use crate::text;
use super::document::Basic;
use super::document::ClipModel;
use super::document::ClipShapeModel;
use super::document::GradientModel;
use super::document::KindModel;
use super::document::LengthModel;
use super::document::LossModel;
use super::document::SceneModel;
use super::document::ShapeModel;
use super::document::StopModel;
use super::document::TreeModel;
use super::document::Unit;
use super::graph;
use super::path_data;
use super::path_data::Drawing;
use super::style::Style;
use super::transform;
use super::transform::Function;
use super::transform::FunctionModel;
use super::xml;

verus! {

/// A length: a number and its unit.
#[derive(Debug, PartialEq, Eq)]
pub struct Length {
    pub number: String,
    pub unit: Unit,
}

impl View for Length {
    type V = LengthModel;

    open spec fn view(&self) -> LengthModel {
        LengthModel { number: self.number@, unit: self.unit }
    }
}

pub open spec fn length_view(l: Option<Length>) -> Option<LengthModel> {
    match l {
        Some(l) => Some(l@),
        None => None,
    }
}

pub open spec fn lengths_view(l: Seq<Option<Length>>) -> Seq<Option<LengthModel>> {
    l.map_values(|m: Option<Length>| length_view(m))
}

/// A node's geometry, in its own coordinate system.
#[derive(Debug, PartialEq, Eq)]
pub enum Shape {
    /// A shape given by its lengths.
    Basic(Basic, Vec<Option<Length>>),
    /// A shape given by path data.
    Drawn(Drawing),
}

impl View for Shape {
    type V = ShapeModel;

    open spec fn view(&self) -> ShapeModel {
        match self {
            Shape::Basic(b, l) => ShapeModel::Basic(*b, lengths_view(l@)),
            Shape::Drawn(d) => ShapeModel::Drawn(d@),
        }
    }
}

/// Where a `use` places its copy.
#[derive(Debug, PartialEq, Eq)]
pub struct Shift {
    pub x: Option<Length>,
    pub y: Option<Length>,
}

/// One node of the scene graph.
pub struct Node {
    /// Whether this node groups others or draws geometry.
    pub kind: NodeKind,
    /// This node's own transform, applied before its parent's.
    pub transform: Vec<Function>,
    /// The translation of a `use`, applied before its transform.
    pub shift: Option<Shift>,
    /// The computed style, with the cascade already resolved.
    pub style: Style,
    /// The id of a [`Clip`] this node is clipped by, if any.
    pub clip_path: Option<String>,
}

/// A node's content.
pub enum NodeKind {
    /// Children in paint order.
    Group(Vec<NodeId>),
    /// Geometry.
    Path(Shape),
}

/// A node with everything under it, before it is planted.
pub struct Tree {
    pub kind: TreeKind,
    pub transform: Vec<Function>,
    pub shift: Option<Shift>,
    pub style: Style,
    pub clip_path: Option<String>,
}

/// The content of a tree's root.
pub enum TreeKind {
    /// Children in paint order.
    Group(Vec<Tree>),
    /// Geometry.
    Path(Shape),
}

pub open spec fn shift_view(s: Option<Shift>) -> Option<
    (Option<LengthModel>, Option<LengthModel>),
> {
    match s {
        Some(s) => Some((length_view(s.x), length_view(s.y))),
        None => None,
    }
}

/// Nodes as models, in order.
pub open spec fn trees_view(nodes: Seq<Tree>) -> Seq<TreeModel>
    decreases nodes,
{
    if nodes.len() == 0 {
        Seq::empty()
    } else {
        trees_view(nodes.drop_last()).push(tree_view(nodes.last()))
    }
}

pub open spec fn kind_view(kind: TreeKind) -> KindModel
    decreases kind,
{
    match kind {
        TreeKind::Group(nodes) => KindModel::Group(trees_view(nodes@)),
        TreeKind::Path(shape) => KindModel::Shape(shape@),
    }
}

/// A node as a model.
pub open spec fn tree_view(node: Tree) -> TreeModel
    decreases node,
{
    TreeModel {
        kind: kind_view(node.kind),
        transform: transform::functions_view(node.transform@),
        shift: shift_view(node.shift),
        style: node.style@,
        clip: xml::optional_view(node.clip_path),
    }
}

impl View for Tree {
    type V = TreeModel;

    open spec fn view(&self) -> TreeModel {
        tree_view(*self)
    }
}

pub proof fn lemma_trees_push(nodes: Seq<Tree>, node: Tree)
    ensures
        trees_view(nodes.push(node)) == trees_view(nodes).push(tree_view(node)),
        trees_view(Seq::<Tree>::empty()) == Seq::<TreeModel>::empty(),
{
    assert(nodes.push(node).drop_last() =~= nodes);
}

pub proof fn lemma_trees_len(nodes: Seq<Tree>)
    ensures
        trees_view(nodes).len() == nodes.len(),
    decreases nodes.len(),
{
    if nodes.len() > 0 {
        lemma_trees_len(nodes.drop_last());
    }
}

/// One colour stop.
#[derive(Debug, PartialEq, Eq)]
pub struct Stop {
    /// Position along the gradient, to be clamped to `0..=1`.
    pub offset: Option<Length>,
    /// The computed `stop-color`, as text.
    pub color: String,
    /// The computed `stop-opacity`, as text.
    pub opacity: String,
}

impl View for Stop {
    type V = StopModel;

    open spec fn view(&self) -> StopModel {
        StopModel {
            offset: length_view(self.offset),
            color: self.color@,
            opacity: self.opacity@,
        }
    }
}

/// A gradient definition.
#[derive(Debug, PartialEq, Eq)]
pub struct Gradient {
    /// The `id` it is referenced by. Never empty.
    pub id: String,
    /// Radial or linear.
    pub radial: bool,
    /// `x1 y1 x2 y2` of a linear gradient, `cx cy r fx fy` of a radial one.
    pub coords: Vec<Option<Length>>,
    /// `gradientTransform`.
    pub transform: Vec<Function>,
    /// True for `gradientUnits="userSpaceOnUse"`.
    pub user_space: bool,
    /// `spreadMethod`, kept as written.
    pub spread: String,
    /// The colour stops, in order.
    pub stops: Vec<Stop>,
}

impl View for Gradient {
    type V = GradientModel;

    open spec fn view(&self) -> GradientModel {
        GradientModel {
            id: self.id@,
            radial: self.radial,
            coords: lengths_view(self.coords@),
            transform: transform::functions_view(self.transform@),
            user_space: self.user_space,
            spread: self.spread@,
            stops: self.stops@.map_values(|s: Stop| s@),
        }
    }
}

/// A clipping shape and the transforms on it, the outermost first.
#[derive(Debug, PartialEq, Eq)]
pub struct ClipShape {
    pub transforms: Vec<Vec<Function>>,
    pub shape: Shape,
}

pub open spec fn transforms_view(t: Seq<Vec<Function>>) -> Seq<Seq<FunctionModel>> {
    t.map_values(|f: Vec<Function>| transform::functions_view(f@))
}

impl View for ClipShape {
    type V = ClipShapeModel;

    open spec fn view(&self) -> ClipShapeModel {
        ClipShapeModel { transforms: transforms_view(self.transforms@), shape: self.shape@ }
    }
}

/// A clip definition.
#[derive(Debug, PartialEq, Eq)]
pub struct Clip {
    /// The `id` it is referenced by.
    pub id: String,
    /// The clipping geometry. A point is inside the clip when it is inside any
    /// of these.
    pub shapes: Vec<ClipShape>,
}

impl View for Clip {
    type V = ClipModel;

    open spec fn view(&self) -> ClipModel {
        ClipModel { id: self.id@, shapes: self.shapes@.map_values(|s: ClipShape| s@) }
    }
}

/// Something the document said that the scene graph cannot hold.
#[derive(Debug, PartialEq, Eq)]
pub struct Loss {
    /// What was dropped, and what that means, without position.
    pub message: String,
    /// 1-based line of the element it was dropped from.
    pub line: usize,
    /// 1-based column of the element it was dropped from.
    pub column: usize,
}

impl View for Loss {
    type V = LossModel;

    open spec fn view(&self) -> LossModel {
        LossModel { message: self.message@, line: self.line as nat, column: self.column as nat }
    }
}

pub open spec fn losses_view(l: Seq<Loss>) -> Seq<LossModel> {
    l.map_values(|m: Loss| m@)
}

impl Clone for Loss {
    fn clone(&self) -> (r: Loss)
        ensures
            r@ == self@,
    {
        Loss { message: self.message.clone(), line: self.line, column: self.column }
    }
}

impl Loss {
    /// The position and the description, for a reader.
    pub fn to_string(&self) -> (r: String)
        ensures
            r@ == "line "@ + text::decimal(self.line as nat) + ", column "@ + text::decimal(
                self.column as nat,
            ) + ": "@ + self.message@,
    {
        let mut out = "line ".to_owned();
        text::push_decimal(&mut out, self.line);
        out.append(", column ");
        text::push_decimal(&mut out, self.column);
        out.append(": ");
        out.append(self.message.as_str());
        out
    }
}

/// A whole imported document.
pub struct Scene {
    /// Every node, group and leaf alike. Navigate from [`roots`](Self::roots).
    pub nodes: Arena<Node>,
    /// The children of the `<svg>` element, in paint order.
    pub roots: Vec<NodeId>,
    /// Gradient definitions. A paint value of `url(#id)` names one of these by
    /// [`Gradient::id`].
    pub gradients: Vec<Gradient>,
    /// Clip definitions, named by [`Node::clip_path`].
    pub clips: Vec<Clip>,
    /// The root `viewBox` as its four numbers.
    pub view_box: Option<Vec<String>>,
    /// The root `width` attribute verbatim, units and percentages included.
    pub width: Option<String>,
    /// The root `height` attribute, verbatim.
    pub height: Option<String>,
    /// Everything the import could not represent, in document order.
    pub losses: Vec<Loss>,
}

pub open spec fn texts_view(t: Option<Vec<String>>) -> Option<Seq<Seq<char>>> {
    match t {
        Some(t) => Some(path_data::texts(t@)),
        None => None,
    }
}

impl View for Scene {
    type V = SceneModel;

    open spec fn view(&self) -> SceneModel {
        SceneModel {
            roots: graph::trees_at(
                self.nodes@,
                self.roots@,
                CAPACITY as nat,
                self.roots@.len() as int,
            ),
            gradients: self.gradients@.map_values(|g: Gradient| g@),
            clips: self.clips@.map_values(|c: Clip| c@),
            view_box: texts_view(self.view_box),
            width: xml::optional_view(self.width),
            height: xml::optional_view(self.height),
            losses: losses_view(self.losses@),
        }
    }
}

/// A leaf of the scene: its geometry, and the nodes from a root down to it.
pub struct LeafModel {
    pub chain: Seq<TreeModel>,
    pub shape: ShapeModel,
}

/// The leaves under a node that hangs below `chain`, in paint order.
pub open spec fn leaves_under(t: TreeModel, chain: Seq<TreeModel>) -> Seq<LeafModel>
    decreases t, 0int,
{
    match t.kind {
        KindModel::Shape(shape) => seq![LeafModel { chain: chain.push(t), shape }],
        KindModel::Group(nodes) => leaves_of(nodes, chain.push(t), nodes.len() as int),
    }
}

/// The leaves under the first `n` of these nodes, in paint order.
pub open spec fn leaves_of(nodes: Seq<TreeModel>, chain: Seq<TreeModel>, n: int) -> Seq<LeafModel>
    decreases nodes, n,
{
    if n <= 0 || n > nodes.len() {
        Seq::empty()
    } else {
        leaves_of(nodes, chain, n - 1) + leaves_under(nodes[n - 1], chain)
    }
}

/// A leaf of the scene. Composing the transforms of the chain, the outermost
/// on the left, takes its geometry to the root coordinate system.
pub struct Leaf<'a> {
    /// The nodes from a root down to the leaf itself.
    pub chain: Vec<NodeId>,
    /// Its geometry, in its own coordinate system.
    pub shape: &'a Shape,
}

pub open spec fn chain_view(nodes: Map<NodeId, Node>, chain: Seq<NodeId>) -> Seq<TreeModel> {
    Seq::new(chain.len(), |k: int| graph::tree_at(nodes, chain[k]))
}

pub open spec fn leaves_view(nodes: Map<NodeId, Node>, leaves: Seq<Leaf<'_>>) -> Seq<LeafModel> {
    Seq::new(
        leaves.len(),
        |k: int|
            LeafModel { chain: chain_view(nodes, leaves[k].chain@), shape: leaves[k].shape@ },
    )
}

pub proof fn lemma_trees_index(nodes: Seq<Tree>, i: int)
    requires
        0 <= i < nodes.len(),
    ensures
        trees_view(nodes)[i] == tree_view(nodes[i]),
    decreases nodes.len(),
{
    lemma_trees_len(nodes);
    lemma_trees_len(nodes.drop_last());
    if i < nodes.len() - 1 {
        lemma_trees_index(nodes.drop_last(), i);
    }
}

fn copy_chain(chain: &Vec<NodeId>) -> (r: Vec<NodeId>)
    ensures
        r@ == chain@,
{
    let mut r: Vec<NodeId> = Vec::new();
    let mut i: usize = 0;
    while i < chain.len()
        invariant
            i <= chain@.len(),
            r@ =~= chain@.take(i as int),
        decreases chain@.len() - i,
    {
        r.push(chain[i]);
        i += 1;
    }
    assert(chain@.take(i as int) =~= chain@);
    r
}

/// Appends the leaves under a node.
fn flatten_node<'a>(
    nodes: &'a Arena<Node>,
    id: NodeId,
    chain: &mut Vec<NodeId>,
    out: &mut Vec<Leaf<'a>>,
)
    requires
        graph::grounded(nodes@),
        nodes@.contains_key(id),
    ensures
        final(chain)@ == old(chain)@,
        leaves_view(nodes@, final(out)@) == leaves_view(nodes@, old(out)@) + leaves_under(
            graph::tree_at(nodes@, id),
            chain_view(nodes@, old(chain)@),
        ),
    decreases id.slot(), 1int,
{
    let ghost above = chain_view(nodes@, chain@);
    let ghost was = chain@;
    let ghost t = graph::tree_at(nodes@, id);
    let found = nodes.get(id);
    chain.push(id);
    assert(chain_view(nodes@, chain@) =~= above.push(t));
    if let Some(node) = found {
        match &node.kind {
            NodeKind::Path(shape) => {
                let leaf = Leaf { chain: copy_chain(chain), shape };
                let ghost before = leaves_view(nodes@, out@);
                out.push(leaf);
                assert(leaves_view(nodes@, out@) =~= before + leaves_under(t, above));
            },
            NodeKind::Group(ids) => {
                proof {
                    assert(graph::hangs(nodes@, id));
                    graph::lemma_trees_at(nodes@, ids@, id.slot(), ids@.len() as int);
                }
                flatten_nodes(nodes, ids, Ghost(id.slot()), chain, out);
            },
        }
    }
    chain.pop();
    assert(chain@ =~= was);
}

/// Appends the leaves under nodes in slots before `bound`, one after the other.
fn flatten_nodes<'a>(
    nodes: &'a Arena<Node>,
    ids: &Vec<NodeId>,
    Ghost(bound): Ghost<nat>,
    chain: &mut Vec<NodeId>,
    out: &mut Vec<Leaf<'a>>,
)
    requires
        graph::grounded(nodes@),
        forall|k: int|
            0 <= k < ids@.len() ==> nodes@.contains_key(#[trigger] ids@[k]) && ids@[k].slot()
                < bound,
    ensures
        final(chain)@ == old(chain)@,
        leaves_view(nodes@, final(out)@) == leaves_view(nodes@, old(out)@) + leaves_of(
            graph::trees_at(nodes@, ids@, bound, ids@.len() as int),
            chain_view(nodes@, old(chain)@),
            ids@.len() as int,
        ),
    decreases bound, 0int,
{
    let ghost before = leaves_view(nodes@, out@);
    let ghost above = chain_view(nodes@, chain@);
    let ghost trees = graph::trees_at(nodes@, ids@, bound, ids@.len() as int);
    let mut i: usize = 0;
    proof {
        graph::lemma_trees_at(nodes@, ids@, bound, ids@.len() as int);
        assert(before + leaves_of(trees, above, 0) =~= before);
    }
    while i < ids.len()
        invariant
            i <= ids@.len(),
            graph::grounded(nodes@),
            forall|k: int|
                0 <= k < ids@.len() ==> nodes@.contains_key(#[trigger] ids@[k]) && ids@[k].slot()
                    < bound,
            trees == graph::trees_at(nodes@, ids@, bound, ids@.len() as int),
            trees.len() == ids@.len(),
            chain@ == old(chain)@,
            above == chain_view(nodes@, chain@),
            leaves_view(nodes@, out@) == before + leaves_of(trees, above, i as int),
        decreases ids@.len() - i,
    {
        proof {
            graph::lemma_trees_at(nodes@, ids@, bound, ids@.len() as int);
            assert(trees[i as int] == graph::tree_at(nodes@, ids@[i as int]));
        }
        flatten_node(nodes, ids[i], chain, out);
        assert(before + leaves_of(trees, above, i as int) + leaves_under(trees[i as int], above)
            =~= before + leaves_of(trees, above, i + 1));
        i += 1;
    }
}

impl Scene {
    /// Whether the graph hangs together: the roots are nodes, and so are the
    /// children of every node. Every node has a computed style.
    pub open spec fn wf(&self) -> bool {
        &&& self.nodes.wf()
        &&& graph::grounded(self.nodes@)
        &&& graph::styled(self.nodes@)
        &&& forall|k: int|
            0 <= k < self.roots@.len() ==> self.nodes@.contains_key(#[trigger] self.roots@[k])
    }

    /// Every leaf in paint order, with the nodes whose transforms take it to the
    /// root coordinate system.
    pub fn flatten(&self) -> (leaves: Vec<Leaf<'_>>)
        requires
            self.wf(),
        ensures
            leaves_view(self.nodes@, leaves@) == leaves_of(
                self@.roots,
                Seq::empty(),
                self@.roots.len() as int,
            ),
    {
        let mut chain: Vec<NodeId> = Vec::new();
        let mut out: Vec<Leaf<'_>> = Vec::new();
        assert(chain_view(self.nodes@, chain@) =~= Seq::<TreeModel>::empty());
        flatten_nodes(&self.nodes, &self.roots, Ghost(CAPACITY as nat), &mut chain, &mut out);
        proof {
            graph::lemma_trees_at(
                self.nodes@,
                self.roots@,
                CAPACITY as nat,
                self.roots@.len() as int,
            );
            let none = Seq::<LeafModel>::empty();
            let all = leaves_of(self@.roots, Seq::empty(), self@.roots.len() as int);
            assert(leaves_view(self.nodes@, Seq::empty()) =~= none);
            assert(none + all =~= all);
        }
        out
    }
}

/// A leaf hangs at the end of its own chain.
pub proof fn a_leaf_ends_its_chain(t: TreeModel, chain: Seq<TreeModel>, k: int)
    requires
        0 <= k < leaves_under(t, chain).len(),
    ensures
        ({
            let leaf = leaves_under(t, chain)[k];
            &&& leaf.chain.len() > chain.len()
            &&& leaf.chain.take(chain.len() as int) == chain
            &&& leaf.chain[chain.len() as int] == t
            &&& leaf.chain.last().kind == KindModel::Shape(leaf.shape)
        }),
    decreases t, 0int,
{
    match t.kind {
        KindModel::Shape(shape) => {
            assert(chain.push(t).take(chain.len() as int) =~= chain);
        },
        KindModel::Group(nodes) => {
            lemma_leaves_of(t, nodes, chain, nodes.len() as int, k);
        },
    }
}

proof fn lemma_leaves_of(
    t: TreeModel,
    nodes: Seq<TreeModel>,
    chain: Seq<TreeModel>,
    n: int,
    k: int,
)
    requires
        0 <= n <= nodes.len(),
        0 <= k < leaves_of(nodes, chain.push(t), n).len(),
    ensures
        ({
            let leaf = leaves_of(nodes, chain.push(t), n)[k];
            &&& leaf.chain.len() > chain.len()
            &&& leaf.chain.take(chain.len() as int) == chain
            &&& leaf.chain[chain.len() as int] == t
            &&& leaf.chain.last().kind == KindModel::Shape(leaf.shape)
        }),
    decreases nodes, n,
{
    let inner = chain.push(t);
    if n > 0 {
        let front = leaves_of(nodes, inner, n - 1);
        if k < front.len() {
            lemma_leaves_of(t, nodes, chain, n - 1, k);
        } else {
            a_leaf_ends_its_chain(nodes[n - 1], inner, k - front.len());
            let leaf = leaves_under(nodes[n - 1], inner)[k - front.len()];
            assert(leaves_of(nodes, inner, n)[k] == leaf);
            let m = chain.len() as int;
            assert(leaf.chain.take(m + 1)[m] == t);
            assert(leaf.chain.take(m) =~= leaf.chain.take(m + 1).take(m));
            assert(inner.take(m) =~= chain);
        }
    }
}

} // verus!
