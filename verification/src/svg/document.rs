//! What an SVG document draws, in its own terms.
//!
//! The meaning of an element tree, stated over the tree: which elements are
//! shapes, groups and definitions, what a reference points at, how `use`
//! expands, and what is reported as lost. Numbers stay as written.

use vstd::prelude::*;
use crate::text;
use super::markup;
use super::markup::ElementModel;
use super::markup::NodeModel;
use super::number;
use super::path_data;
use super::path_data::DrawingModel;
use super::style;
use super::transform;
use super::transform::FunctionModel;

verus! {

/// The SVG namespace. An element in any other namespace is not ours to draw.
pub const SVG_NS: &'static str = "http://www.w3.org/2000/svg";

/// The namespace `xlink:href` lives in, which is how SVG 1.1 spells `href`.
pub const XLINK_NS: &'static str = "http://www.w3.org/1999/xlink";

/// How deep `use` may expand, and how far an `href` chain is followed.
///
/// Two elements that each `use` the other are finite text and infinite
/// expansion.
pub const MAX_USE_DEPTH: usize = 16;

/// What a length is written in.
#[derive(Clone, Copy, Debug, PartialEq, Eq, Structural)]
pub enum Unit {
    /// User units, or pixels, which are the same.
    User,
    Point,
    Pica,
    Millimetre,
    Centimetre,
    Inch,
    Percent,
}

/// A length: a number and its unit.
pub struct LengthModel {
    pub number: Seq<char>,
    pub unit: Unit,
}

/// A shape given by lengths.
#[derive(Clone, Copy, Debug, PartialEq, Eq, Structural)]
pub enum Basic {
    Rect,
    Circle,
    Ellipse,
    Line,
}

pub enum ShapeModel {
    /// A shape given by its lengths, in the order [`lengths_of`] names them.
    Basic(Basic, Seq<Option<LengthModel>>),
    /// A shape given by path data.
    Drawn(DrawingModel),
}

/// Something the document said that the scene cannot hold.
pub struct LossModel {
    pub message: Seq<char>,
    pub line: nat,
    pub column: nat,
}

/// A node of the scene and everything under it.
pub struct TreeModel {
    pub kind: KindModel,
    pub transform: Seq<FunctionModel>,
    /// Where a `use` places its copy, after its own transform.
    pub shift: Option<(Option<LengthModel>, Option<LengthModel>)>,
    pub style: Seq<Seq<char>>,
    pub clip: Option<Seq<char>>,
}

pub enum KindModel {
    Group(Seq<TreeModel>),
    Shape(ShapeModel),
}

pub struct StopModel {
    pub offset: Option<LengthModel>,
    pub color: Seq<char>,
    pub opacity: Seq<char>,
}

pub struct GradientModel {
    pub id: Seq<char>,
    pub radial: bool,
    /// `x1 y1 x2 y2`, or `cx cy r fx fy`.
    pub coords: Seq<Option<LengthModel>>,
    pub transform: Seq<FunctionModel>,
    pub user_space: bool,
    pub spread: Seq<char>,
    pub stops: Seq<StopModel>,
}

/// A clip shape and the transforms on it, the outermost first.
pub struct ClipShapeModel {
    pub transforms: Seq<Seq<FunctionModel>>,
    pub shape: ShapeModel,
}

pub struct ClipModel {
    pub id: Seq<char>,
    pub shapes: Seq<ClipShapeModel>,
}

/// Whether `el` is in the SVG namespace, or in none at all.
pub open spec fn is_svg(e: ElementModel) -> bool {
    match e.name.namespace {
        None => true,
        Some(ns) => ns == SVG_NS@,
    }
}

/// The names of the basic shapes.
pub open spec fn is_shape(name: Seq<char>) -> bool {
    name == "rect"@ || name == "circle"@ || name == "ellipse"@ || name == "line"@ || name
        == "polyline"@ || name == "polygon"@ || name == "path"@
}

/// The value of the first `href` from the `i`th attribute on, in no namespace
/// or in that of `xlink`.
pub open spec fn href_from(a: Seq<markup::AttributeModel>, i: int) -> Option<Seq<char>>
    decreases a.len() - i,
{
    if i < 0 || i >= a.len() {
        None
    } else if a[i].name.local == "href"@ && (match a[i].name.namespace {
        None => true,
        Some(ns) => ns == XLINK_NS@,
    }) {
        Some(a[i].value)
    } else {
        href_from(a, i + 1)
    }
}

/// What follows the `#` of a reference into this document.
pub open spec fn fragment(e: ElementModel) -> Option<Seq<char>> {
    match href_from(e.attributes, 0) {
        Some(h) => if h.len() > 0 && h[0] == '#' {
            Some(h.skip(1))
        } else {
            None
        },
        None => None,
    }
}

/// The id an element can be referred to by.
pub open spec fn id_of(e: ElementModel) -> Option<Seq<char>> {
    match markup::plain(e, "id"@) {
        Some(id) => if id.len() > 0 {
            Some(id)
        } else {
            None
        },
        None => None,
    }
}

/// An element and everything under it, in document order.
pub open spec fn all(e: ElementModel) -> Seq<ElementModel>
    decreases e,
{
    seq![e] + all_of(e.children, e.children.len() as int)
}

/// Everything under the first `n` of these nodes, in document order.
pub open spec fn all_of(nodes: Seq<NodeModel>, n: int) -> Seq<ElementModel>
    decreases nodes, n,
{
    if n <= 0 || n > nodes.len() {
        Seq::empty()
    } else {
        all_of(nodes, n - 1) + (match nodes[n - 1] {
            NodeModel::Element(e) => all(e),
            NodeModel::Text(_) => Seq::empty(),
        })
    }
}

/// The first of these elements from the `i`th on with this id.
pub open spec fn with_id(els: Seq<ElementModel>, id: Seq<char>, i: int) -> Option<ElementModel>
    decreases els.len() - i,
{
    if i < 0 || i >= els.len() {
        None
    } else if id_of(els[i]) == Some(id) {
        Some(els[i])
    } else {
        with_id(els, id, i + 1)
    }
}

/// The element that an `href` points at, within this document.
pub open spec fn target(els: Seq<ElementModel>, e: ElementModel) -> Option<ElementModel> {
    match fragment(e) {
        Some(id) => with_id(els, id, 0),
        None => None,
    }
}

/// Without the quotes at the start.
pub open spec fn unquoted_start(s: Seq<char>) -> Seq<char>
    decreases s.len(),
{
    if s.len() > 0 && (s[0] == '"' || s[0] == '\'') {
        unquoted_start(s.skip(1))
    } else {
        s
    }
}

/// Without the quotes at the end.
pub open spec fn unquoted_end(s: Seq<char>) -> Seq<char>
    decreases s.len(),
{
    if s.len() > 0 && (s.last() == '"' || s.last() == '\'') {
        unquoted_end(s.drop_last())
    } else {
        s
    }
}

/// The id inside `url(#id)`, for a paint or clip reference.
pub open spec fn url_id(value: Seq<char>) -> Option<Seq<char>> {
    let v = text::trimmed(value);
    let p = "url("@;
    if v.len() <= p.len() || v.take(p.len() as int) != p || v.last() != ')' {
        None
    } else {
        let inner = text::trimmed(v.subrange(p.len() as int, v.len() - 1));
        let bare = unquoted_end(unquoted_start(inner));
        if bare.len() > 1 && bare[0] == '#' {
            Some(bare.skip(1))
        } else {
            None
        }
    }
}

/// Whether a text ends with another.
pub open spec fn ends_with(s: Seq<char>, t: Seq<char>) -> bool {
    s.len() >= t.len() && s.skip(s.len() - t.len()) == t
}

/// The unit a length ends with, and how many characters it takes.
pub open spec fn unit_of(v: Seq<char>) -> (Unit, nat) {
    if ends_with(v, "px"@) {
        (Unit::User, "px"@.len())
    } else if ends_with(v, "pt"@) {
        (Unit::Point, "pt"@.len())
    } else if ends_with(v, "pc"@) {
        (Unit::Pica, "pc"@.len())
    } else if ends_with(v, "mm"@) {
        (Unit::Millimetre, "mm"@.len())
    } else if ends_with(v, "cm"@) {
        (Unit::Centimetre, "cm"@.len())
    } else if ends_with(v, "in"@) {
        (Unit::Inch, "in"@.len())
    } else if ends_with(v, "%"@) {
        (Unit::Percent, "%"@.len())
    } else {
        (Unit::User, 0)
    }
}

/// A `<length>` or `<coordinate>`. `em` and `ex` need a font, so they are no
/// lengths here.
pub open spec fn length(value: Seq<char>) -> Option<LengthModel> {
    let v = text::trimmed(value);
    let (unit, n) = unit_of(v);
    let number = text::trimmed(v.take(v.len() - n));
    if number::is_number(number) {
        Some(LengthModel { number, unit })
    } else {
        None
    }
}

/// The length of an attribute.
pub open spec fn length_of(e: ElementModel, name: Seq<char>) -> Option<LengthModel> {
    match markup::plain(e, name) {
        Some(v) => length(v),
        None => None,
    }
}

pub open spec fn is_list_separator(c: char) -> bool {
    c == ' ' || c == '\t' || c == '\n' || c == '\r' || c == ','
}

/// Past the list separators from `i` on.
pub open spec fn past_list_separators(s: Seq<char>, i: int) -> int
    decreases s.len() - i,
{
    if 0 <= i < s.len() && is_list_separator(s[i]) {
        past_list_separators(s, i + 1)
    } else {
        i
    }
}

/// Past the word from `i` on.
pub open spec fn word_end(s: Seq<char>, i: int) -> int
    decreases s.len() - i,
{
    if 0 <= i < s.len() && !is_list_separator(s[i]) {
        word_end(s, i + 1)
    } else {
        i
    }
}

/// The first `n` words of a list, if they are all finite numbers, and where
/// they end.
pub open spec fn leading_numbers(s: Seq<char>, n: int) -> Option<(Seq<Seq<char>>, int)>
    decreases n,
{
    if n <= 0 {
        Some((Seq::empty(), 0))
    } else {
        match leading_numbers(s, n - 1) {
            None => None,
            Some((a, i)) => {
                let j = past_list_separators(s, i);
                let word = s.subrange(j, word_end(s, j));
                if number::is_number(word) {
                    Some((a.push(word), word_end(s, j)))
                } else {
                    None
                }
            },
        }
    }
}

/// `viewBox="x y width height"` as its four numbers, where it has a size.
pub open spec fn view_box(value: Seq<char>) -> Option<Seq<Seq<char>>> {
    match leading_numbers(value, 4) {
        Some((a, _)) => if number::positive(a[2], 0) && number::positive(a[3], 0) {
            Some(a)
        } else {
            None
        },
        None => None,
    }
}

/// The shape a name stands for, where it is one given by lengths.
pub open spec fn basic_of(name: Seq<char>) -> Option<Basic> {
    if name == "rect"@ {
        Some(Basic::Rect)
    } else if name == "circle"@ {
        Some(Basic::Circle)
    } else if name == "ellipse"@ {
        Some(Basic::Ellipse)
    } else if name == "line"@ {
        Some(Basic::Line)
    } else {
        None
    }
}

/// The attributes that give a shape.
pub open spec fn lengths_of(b: Basic) -> Seq<Seq<char>> {
    match b {
        Basic::Rect => seq!["x"@, "y"@, "width"@, "height"@, "rx"@, "ry"@],
        Basic::Circle => seq!["cx"@, "cy"@, "r"@],
        Basic::Ellipse => seq!["cx"@, "cy"@, "rx"@, "ry"@],
        Basic::Line => seq!["x1"@, "y1"@, "x2"@, "y2"@],
    }
}

/// Which of its lengths are sizes: a shape is only drawn where these are
/// positive.
pub open spec fn is_size(b: Basic, k: int) -> bool {
    match b {
        Basic::Rect => k == 2 || k == 3,
        Basic::Circle => k == 2,
        Basic::Ellipse => k == 2 || k == 3,
        Basic::Line => false,
    }
}

/// Where an element stands.
pub open spec fn position(e: ElementModel) -> (nat, nat) {
    (e.line, e.column)
}

/// Whether a size comes to nothing. What a percentage comes to depends on the
/// viewport: `hidden` lists the elements where one comes to nothing.
pub open spec fn comes_to_nothing(size: Option<LengthModel>, hidden: bool) -> bool {
    match size {
        None => true,
        Some(l) => if l.unit == Unit::Percent {
            hidden
        } else {
            !number::positive(l.number, 0)
        },
    }
}

/// The lengths of a shape.
pub open spec fn basic_lengths(e: ElementModel, b: Basic) -> Seq<Option<LengthModel>> {
    lengths_of(b).map_values(|n: Seq<char>| length_of(e, n))
}

/// Whether a shape given by lengths draws anything.
pub open spec fn has_size(e: ElementModel, b: Basic, hidden: Seq<(nat, nat)>) -> bool {
    forall|k: int|
        0 <= k < lengths_of(b).len() && is_size(b, k) ==> !comes_to_nothing(
            #[trigger] basic_lengths(e, b)[k],
            hidden.contains(position(e)),
        )
}

/// Path data with its shape: the valid prefix is kept, a failure reported, and
/// data that draws nothing is no shape.
pub open spec fn drawn_shape(d: Seq<char>) -> (Option<ShapeModel>, Option<Seq<char>>) {
    let (drawing, stop) = path_data::drawn(d);
    (
        if drawing.steps.len() == 0 {
            None
        } else {
            Some(ShapeModel::Drawn(drawing))
        },
        match stop {
            Some((at, message)) => Some(
                "path data truncated at offset "@ + text::decimal(at as nat) + ": "@ + message,
            ),
            None => None,
        },
    )
}

/// An attribute's value, or nothing.
pub open spec fn or_empty(e: ElementModel, name: Seq<char>) -> Seq<char> {
    match markup::plain(e, name) {
        Some(v) => v,
        None => Seq::empty(),
    }
}

/// The geometry of a basic shape, or none where it draws nothing, and what is
/// lost of it.
pub open spec fn shape_of(e: ElementModel, hidden: Seq<(nat, nat)>) -> (
    Option<ShapeModel>,
    Option<Seq<char>>,
) {
    let name = e.name.local;
    match basic_of(name) {
        Some(b) => (
            if has_size(e, b, hidden) {
                Some(ShapeModel::Basic(b, basic_lengths(e, b)))
            } else {
                None
            },
            None,
        ),
        None => if name == "polyline"@ || name == "polygon"@ {
            let points = text::trimmed(or_empty(e, "points"@));
            if points.len() == 0 {
                (None, None)
            } else if name == "polygon"@ {
                drawn_shape("M"@ + points + "Z"@)
            } else {
                drawn_shape("M"@ + points)
            }
        } else {
            drawn_shape(or_empty(e, "d"@))
        },
    }
}

/// The transform of an element, and what is lost of it.
pub open spec fn transform_of(e: ElementModel) -> (Seq<FunctionModel>, Option<Seq<char>>) {
    match markup::plain(e, "transform"@) {
        None => (Seq::empty(), None),
        Some(v) => match transform::transform_list(v) {
            Ok(list) => (list, None),
            Err((_, message)) => (Seq::empty(), Some("transform ignored: "@ + message)),
        },
    }
}

/// A loss at an element, where there is one.
pub open spec fn lost(e: ElementModel, message: Option<Seq<char>>) -> Seq<LossModel> {
    match message {
        Some(message) => seq![LossModel { message, line: e.line, column: e.column }],
        None => Seq::empty(),
    }
}

/// The document around an element: everything in it, the ids of its gradients
/// and clips, and the elements whose percentages come to nothing.
pub struct WorldModel {
    pub els: Seq<ElementModel>,
    pub gradients: Seq<Seq<char>>,
    pub clips: Seq<Seq<char>>,
    pub hidden: Seq<(nat, nat)>,
}

/// The first element among these nodes from the `i`th on.
pub open spec fn first_element(nodes: Seq<NodeModel>, i: int) -> Option<int>
    decreases nodes.len() - i,
{
    if i < 0 || i >= nodes.len() {
        None
    } else if nodes[i] is Element {
        Some(i)
    } else {
        first_element(nodes, i + 1)
    }
}

/// Elements that group others.
pub open spec fn is_group(name: Seq<char>) -> bool {
    name == "g"@ || name == "a"@ || name == "symbol"@ || name == "svg"@
}

/// Elements that are handled elsewhere or carry nothing to draw.
pub open spec fn is_silent(name: Seq<char>) -> bool {
    name == "defs"@ || name == "clipPath"@ || name == "linearGradient"@ || name
        == "radialGradient"@ || name == "title"@ || name == "desc"@ || name == "metadata"@ || name
        == "stop"@ || name == "style"@
}

/// The id of the clip an element names.
pub open spec fn clip_of(e: ElementModel) -> Option<Seq<char>> {
    match markup::plain(e, "clip-path"@) {
        Some(v) => url_id(v),
        None => None,
    }
}

/// What is lost of a clip reference: one to something that is no clip.
pub open spec fn clip_loss(w: WorldModel, e: ElementModel) -> Option<Seq<char>> {
    match clip_of(e) {
        Some(id) => if w.clips.contains(id) {
            None
        } else {
            Some("clip-path references #"@ + id + ", which is not a clipPath"@)
        },
        None => None,
    }
}

/// What is lost of an effect that is not rendered.
pub open spec fn effect_loss(e: ElementModel, effect: Seq<char>) -> Option<Seq<char>> {
    match markup::plain(e, effect) {
        Some(v) => if v == "none"@ {
            None
        } else {
            Some(effect + "=\""@ + v + "\" ignored"@)
        },
        None => None,
    }
}

/// What is lost of a paint reference: one to something that is no gradient.
/// `i` is the property.
pub open spec fn paint_loss(w: WorldModel, values: Seq<Seq<char>>, i: int) -> Option<Seq<char>> {
    match url_id(values[i]) {
        Some(id) => if w.gradients.contains(id) {
            None
        } else {
            Some(style::name(i) + " references #"@ + id + ", which is not a gradient"@)
        },
        None => None,
    }
}

/// What is lost of an element that is drawn.
pub open spec fn remarks(w: WorldModel, e: ElementModel, values: Seq<Seq<char>>) -> Seq<
    LossModel,
> {
    lost(e, clip_loss(w, e)) + lost(e, effect_loss(e, "mask"@)) + lost(
        e,
        effect_loss(e, "filter"@),
    ) + lost(e, effect_loss(e, "marker-start"@)) + lost(e, effect_loss(e, "marker-mid"@)) + lost(
        e,
        effect_loss(e, "marker-end"@),
    ) + lost(e, paint_loss(w, values, 1)) + lost(e, paint_loss(w, values, 4)) + lost(
        e,
        transform_of(e).1,
    )
}

/// Where a `use` places its copy.
pub open spec fn shift_of(e: ElementModel) -> Option<
    (Option<LengthModel>, Option<LengthModel>),
> {
    if e.name.local == "use"@ {
        Some((length_of(e, "x"@), length_of(e, "y"@)))
    } else {
        None
    }
}

/// One element and everything under it, and what is lost of it. None where it
/// draws nothing. `stack` holds the ids that `use` is expanding.
pub open spec fn node(
    w: WorldModel,
    e: ElementModel,
    parent: Seq<Seq<char>>,
    depth: nat,
    stack: Seq<Seq<char>>,
) -> (Option<TreeModel>, Seq<LossModel>)
    decreases MAX_USE_DEPTH - depth, e, 2int,
{
    if !is_svg(e) {
        (None, Seq::empty())
    } else {
        let values = style::resolved(parent, e);
        match content(w, e, values, depth, stack) {
            (None, losses) => (None, losses),
            (Some(kind), losses) => (
                Some(
                    TreeModel {
                        kind,
                        transform: transform_of(e).0,
                        shift: shift_of(e),
                        style: values,
                        clip: clip_of(e),
                    },
                ),
                losses + remarks(w, e, values),
            ),
        }
    }
}

/// What an element groups or draws.
pub open spec fn content(
    w: WorldModel,
    e: ElementModel,
    values: Seq<Seq<char>>,
    depth: nat,
    stack: Seq<Seq<char>>,
) -> (Option<KindModel>, Seq<LossModel>)
    decreases MAX_USE_DEPTH - depth, e, 1int,
{
    let name = e.name.local;
    if is_group(name) {
        let before = if name != "g"@ && markup::plain(e, "viewBox"@) is Some {
            lost(e, Some("viewBox on <"@ + name + "> ignored"@))
        } else {
            Seq::empty()
        };
        let (nodes, losses) = children(
            w,
            e.children,
            values,
            depth,
            stack,
            e.children.len() as int,
        );
        if nodes.len() == 0 {
            (None, before + losses)
        } else {
            (Some(KindModel::Group(nodes)), before + losses)
        }
    } else if name == "switch"@ {
        let before = lost(e, Some("<switch> imported as its first branch"@));
        match first_element(e.children, 0) {
            None => (None, before),
            Some(k) => match e.children[k] {
                NodeModel::Text(_) => (None, before),
                NodeModel::Element(child) => {
                    if 0 <= k < e.children.len() {
                        match node(w, child, values, depth, stack) {
                            (Some(t), losses) => (
                                Some(KindModel::Group(seq![t])),
                                before + losses,
                            ),
                            (None, losses) => (None, before + losses),
                        }
                    } else {
                        (None, before)
                    }
                },
            },
        }
    } else if name == "use"@ {
        match fragment(e) {
            None => (None, lost(e, Some("<use> without a same-document href"@))),
            Some(id) => match with_id(w.els, id, 0) {
                None => (
                    None,
                    lost(e, Some("<use> references #"@ + id + ", which does not exist"@)),
                ),
                Some(to) => if stack.contains(id) || depth >= MAX_USE_DEPTH {
                    (
                        None,
                        lost(e, Some("<use> of #"@ + id + " recurses; expansion stopped"@)),
                    )
                } else {
                    match node(w, to, values, depth + 1, stack.push(id)) {
                        (Some(t), losses) => (Some(KindModel::Group(seq![t])), losses),
                        (None, losses) => (None, losses),
                    }
                },
            },
        }
    } else if is_silent(name) {
        (None, Seq::empty())
    } else if is_shape(name) {
        let (shape, message) = shape_of(e, w.hidden);
        (
            match shape {
                Some(s) => Some(KindModel::Shape(s)),
                None => None,
            },
            lost(e, message),
        )
    } else {
        (None, lost(e, Some("<"@ + name + "> is not supported and was dropped"@)))
    }
}

/// The nodes for the elements among the first `n` of these, in paint order.
pub open spec fn children(
    w: WorldModel,
    nodes: Seq<NodeModel>,
    values: Seq<Seq<char>>,
    depth: nat,
    stack: Seq<Seq<char>>,
    n: int,
) -> (Seq<TreeModel>, Seq<LossModel>)
    decreases MAX_USE_DEPTH - depth, nodes, n,
{
    if n <= 0 || n > nodes.len() {
        (Seq::empty(), Seq::empty())
    } else {
        let (front, losses) = children(w, nodes, values, depth, stack, n - 1);
        match nodes[n - 1] {
            NodeModel::Text(_) => (front, losses),
            NodeModel::Element(e) => match node(w, e, values, depth, stack) {
                (Some(t), more) => (front.push(t), losses + more),
                (None, more) => (front, losses + more),
            },
        }
    }
}

/// An attribute of `e`, or of the first element in its `href` chain that has
/// it.
pub open spec fn inherited(
    els: Seq<ElementModel>,
    e: ElementModel,
    name: Seq<char>,
    hops: int,
) -> Option<Seq<char>>
    decreases hops,
{
    if hops <= 0 {
        None
    } else {
        match markup::plain(e, name) {
            Some(v) => Some(v),
            None => match target(els, e) {
                Some(t) => inherited(els, t, name, hops - 1),
                None => None,
            },
        }
    }
}

pub open spec fn is_stop(node: NodeModel) -> bool {
    node matches NodeModel::Element(e) && e.name.local == "stop"@
}

/// Whether an element has stops of its own.
pub open spec fn has_stops(e: ElementModel) -> bool {
    exists|k: int| 0 <= k < e.children.len() && is_stop(#[trigger] e.children[k])
}

/// `e`, or the nearest gradient in its `href` chain that has stops.
pub open spec fn stop_source(els: Seq<ElementModel>, e: ElementModel, hops: int) -> ElementModel
    decreases hops,
{
    if hops <= 0 || has_stops(e) {
        e
    } else {
        match target(els, e) {
            Some(t) => stop_source(els, t, hops - 1),
            None => e,
        }
    }
}

/// A colour stop.
pub open spec fn stop_of(e: ElementModel, parent: Seq<Seq<char>>) -> StopModel {
    let values = style::resolved(parent, e);
    StopModel {
        offset: length(
            match markup::plain(e, "offset"@) {
                Some(v) => v,
                None => "0"@,
            },
        ),
        color: values[15],
        opacity: values[16],
    }
}

/// The stops among the first `n` of these nodes.
pub open spec fn stops_of(nodes: Seq<NodeModel>, parent: Seq<Seq<char>>, n: int) -> Seq<StopModel>
    decreases n,
{
    if n <= 0 || n > nodes.len() {
        Seq::empty()
    } else {
        match nodes[n - 1] {
            NodeModel::Element(e) => if e.name.local == "stop"@ {
                stops_of(nodes, parent, n - 1).push(stop_of(e, parent))
            } else {
                stops_of(nodes, parent, n - 1)
            },
            NodeModel::Text(_) => stops_of(nodes, parent, n - 1),
        }
    }
}

/// The attributes that give a gradient's geometry.
pub open spec fn coords_of(radial: bool) -> Seq<Seq<char>> {
    if radial {
        seq!["cx"@, "cy"@, "r"@, "fx"@, "fy"@]
    } else {
        seq!["x1"@, "y1"@, "x2"@, "y2"@]
    }
}

/// The length of an attribute of a gradient or of one in its `href` chain.
pub open spec fn inherited_length(
    els: Seq<ElementModel>,
    e: ElementModel,
    name: Seq<char>,
) -> Option<LengthModel> {
    match inherited(els, e, name, MAX_USE_DEPTH as int) {
        Some(v) => length(v),
        None => None,
    }
}

/// The transform of a gradient, and what is lost of it.
pub open spec fn gradient_transform(els: Seq<ElementModel>, e: ElementModel) -> (
    Seq<FunctionModel>,
    Option<Seq<char>>,
) {
    match inherited(els, e, "gradientTransform"@, MAX_USE_DEPTH as int) {
        None => (Seq::empty(), None),
        Some(v) => match transform::transform_list(v) {
            Ok(list) => (list, None),
            Err((_, message)) => (Seq::empty(), Some("gradientTransform ignored: "@ + message)),
        },
    }
}

/// A gradient definition with the id `id`.
pub open spec fn gradient(els: Seq<ElementModel>, e: ElementModel, id: Seq<char>) -> GradientModel {
    let radial = e.name.local == "radialGradient"@;
    let source = stop_source(els, e, MAX_USE_DEPTH as int);
    GradientModel {
        id,
        radial,
        coords: coords_of(radial).map_values(|n: Seq<char>| inherited_length(els, e, n)),
        transform: gradient_transform(els, e).0,
        user_space: inherited(els, e, "gradientUnits"@, MAX_USE_DEPTH as int) == Some(
            "userSpaceOnUse"@,
        ),
        spread: match inherited(els, e, "spreadMethod"@, MAX_USE_DEPTH as int) {
            Some(v) => v,
            None => "pad"@,
        },
        stops: stops_of(
            source.children,
            style::resolved(style::initials(), source),
            source.children.len() as int,
        ),
    }
}

pub open spec fn is_gradient(e: ElementModel) -> bool {
    is_svg(e) && (e.name.local == "linearGradient"@ || e.name.local == "radialGradient"@)
}

/// The gradients among the first `n` elements that something can name, and what
/// is lost of them.
pub open spec fn gradients(els: Seq<ElementModel>, n: int) -> (Seq<GradientModel>, Seq<LossModel>)
    decreases n,
{
    if n <= 0 || n > els.len() {
        (Seq::empty(), Seq::empty())
    } else {
        let (front, losses) = gradients(els, n - 1);
        let e = els[n - 1];
        if !is_gradient(e) {
            (front, losses)
        } else {
            match id_of(e) {
                None => (front, losses),
                Some(id) => (
                    front.push(gradient(els, e, id)),
                    losses + lost(e, gradient_transform(els, e).1),
                ),
            }
        }
    }
}

/// The shapes among the first `n` nodes of a clip, each with the transforms on
/// it, and what is lost of them.
pub open spec fn clip_shapes(
    nodes: Seq<NodeModel>,
    transforms: Seq<Seq<FunctionModel>>,
    hidden: Seq<(nat, nat)>,
    n: int,
) -> (Seq<ClipShapeModel>, Seq<LossModel>)
    decreases nodes, n,
{
    if n <= 0 || n > nodes.len() {
        (Seq::empty(), Seq::empty())
    } else {
        let (front, losses) = clip_shapes(nodes, transforms, hidden, n - 1);
        match nodes[n - 1] {
            NodeModel::Text(_) => (front, losses),
            NodeModel::Element(e) => {
                let (t, message) = transform_of(e);
                let so_far = losses + lost(e, message);
                let inner = transforms.push(t);
                let name = e.name.local;
                if name == "g"@ && is_svg(e) {
                    let (more, rest) = clip_shapes(
                        e.children,
                        inner,
                        hidden,
                        e.children.len() as int,
                    );
                    (front + more, so_far + rest)
                } else if is_shape(name) {
                    let (shape, trouble) = shape_of(e, hidden);
                    (
                        match shape {
                            Some(shape) => front.push(
                                ClipShapeModel { transforms: inner, shape },
                            ),
                            None => front,
                        },
                        so_far + lost(e, trouble),
                    )
                } else {
                    (front, so_far + lost(e, Some("<"@ + name + "> in a clipPath ignored"@)))
                }
            },
        }
    }
}

pub open spec fn is_clip(e: ElementModel) -> bool {
    is_svg(e) && e.name.local == "clipPath"@
}

/// The clips among the first `n` elements that something can name, and what is
/// lost of them.
pub open spec fn clips(els: Seq<ElementModel>, hidden: Seq<(nat, nat)>, n: int) -> (
    Seq<ClipModel>,
    Seq<LossModel>,
)
    decreases n,
{
    if n <= 0 || n > els.len() {
        (Seq::empty(), Seq::empty())
    } else {
        let (front, losses) = clips(els, hidden, n - 1);
        let e = els[n - 1];
        if !is_clip(e) {
            (front, losses)
        } else {
            match id_of(e) {
                None => (front, losses),
                Some(id) => {
                    let units = if markup::plain(e, "clipPathUnits"@) == Some(
                        "objectBoundingBox"@,
                    ) {
                        Some("clipPathUnits=\"objectBoundingBox\" ignored"@)
                    } else {
                        None
                    };
                    let (shapes, more) = clip_shapes(
                        e.children,
                        Seq::empty(),
                        hidden,
                        e.children.len() as int,
                    );
                    (front.push(ClipModel { id, shapes }), losses + lost(e, units) + more)
                },
            }
        }
    }
}

/// What is lost to stylesheets among the first `n` elements.
pub open spec fn stylesheet_losses(els: Seq<ElementModel>, n: int) -> Seq<LossModel>
    decreases n,
{
    if n <= 0 || n > els.len() {
        Seq::empty()
    } else {
        let e = els[n - 1];
        if is_svg(e) && e.name.local == "style"@ {
            stylesheet_losses(els, n - 1) + lost(
                e,
                Some("CSS in a <style> element is not applied"@),
            )
        } else {
            stylesheet_losses(els, n - 1)
        }
    }
}

/// A whole imported document.
pub struct SceneModel {
    pub roots: Seq<TreeModel>,
    pub gradients: Seq<GradientModel>,
    pub clips: Seq<ClipModel>,
    pub view_box: Option<Seq<Seq<char>>>,
    pub width: Option<Seq<char>>,
    pub height: Option<Seq<char>>,
    pub losses: Seq<LossModel>,
}

pub open spec fn world_of(root: ElementModel, hidden: Seq<(nat, nat)>) -> WorldModel {
    let els = all(root);
    WorldModel {
        els,
        gradients: gradients(els, els.len() as int).0.map_values(|g: GradientModel| g.id),
        clips: clips(els, hidden, els.len() as int).0.map_values(|c: ClipModel| c.id),
        hidden,
    }
}

/// Whether a loss was met earlier in the document than another.
pub open spec fn earlier(a: LossModel, b: LossModel) -> bool {
    a.line < b.line || a.line == b.line && a.column < b.column
}

/// A list in document order with one more loss at its place: behind all that
/// are not later than it.
pub open spec fn filed(s: Seq<LossModel>, l: LossModel) -> Seq<LossModel>
    decreases s.len(),
{
    if s.len() > 0 && earlier(l, s.last()) {
        filed(s.drop_last(), l).push(s.last())
    } else {
        s.push(l)
    }
}

/// These losses in document order. Losses of one place keep their order.
pub open spec fn in_document_order(s: Seq<LossModel>) -> Seq<LossModel>
    decreases s.len(),
{
    if s.len() == 0 {
        s
    } else {
        filed(in_document_order(s.drop_last()), s.last())
    }
}

/// Whether no loss of a list stands behind a later one.
pub open spec fn ordered(s: Seq<LossModel>) -> bool {
    forall|i: int, j: int| 0 <= i < j < s.len() ==> !earlier(#[trigger] s[j], #[trigger] s[i])
}

proof fn lemma_filed(s: Seq<LossModel>, l: LossModel)
    requires
        ordered(s),
    ensures
        ordered(filed(s, l)),
        filed(s, l).len() == s.len() + 1,
        filed(s, l).to_multiset() == s.to_multiset().insert(l),
        forall|x: LossModel| #[trigger] filed(s, l).contains(x) ==> s.contains(x) || x == l,
    decreases s.len(),
{
    let r = filed(s, l);
    s.to_multiset_ensures();
    if s.len() > 0 && earlier(l, s.last()) {
        let front = s.drop_last();
        lemma_filed(front, l);
        let inner = filed(front, l);
        inner.to_multiset_ensures();
        front.to_multiset_ensures();
        assert(s =~= front.push(s.last()));
        assert(r.to_multiset() =~= s.to_multiset().insert(l));
        assert forall|x: LossModel| r.contains(x) implies s.contains(x) || x == l by {
            let k = choose|k: int| 0 <= k < r.len() && r[k] == x;
            if k < inner.len() {
                assert(inner.contains(inner[k]));
                if front.contains(x) {
                    let m = choose|m: int| 0 <= m < front.len() && front[m] == x;
                    assert(s[m] == x);
                }
            } else {
                assert(s[s.len() - 1] == x);
            }
        }
        assert forall|i: int, j: int| 0 <= i < j < r.len() implies !earlier(
            #[trigger] r[j],
            #[trigger] r[i],
        ) by {
            if j < inner.len() {
                assert(!earlier(inner[j], inner[i]));
            } else {
                assert(inner.contains(inner[i]));
                if front.contains(r[i]) {
                    let m = choose|m: int| 0 <= m < front.len() && front[m] == r[i];
                    assert(!earlier(s[s.len() - 1], s[m]));
                }
            }
        }
    } else {
        assert forall|x: LossModel| r.contains(x) implies s.contains(x) || x == l by {
            let k = choose|k: int| 0 <= k < r.len() && r[k] == x;
            if k < s.len() {
                assert(s[k] == x);
            }
        }
        assert forall|i: int, j: int| 0 <= i < j < r.len() implies !earlier(
            #[trigger] r[j],
            #[trigger] r[i],
        ) by {
            if j < s.len() {
                assert(!earlier(s[j], s[i]));
            } else if i < s.len() - 1 {
                assert(!earlier(s[s.len() - 1], s[i]));
            }
        }
    }
}

/// Putting losses in document order drops none, adds none, and leaves no loss
/// behind a later one.
pub proof fn sorting_keeps_every_loss(s: Seq<LossModel>)
    ensures
        ordered(in_document_order(s)),
        in_document_order(s).len() == s.len(),
        in_document_order(s).to_multiset() == s.to_multiset(),
        forall|x: LossModel| #[trigger] in_document_order(s).contains(x) ==> s.contains(x),
    decreases s.len(),
{
    if s.len() > 0 {
        let front = s.drop_last();
        sorting_keeps_every_loss(front);
        lemma_filed(in_document_order(front), s.last());
        front.to_multiset_ensures();
        assert(s =~= front.push(s.last()));
        assert forall|x: LossModel| in_document_order(s).contains(x) implies s.contains(x) by {
            if in_document_order(front).contains(x) {
                let k = choose|k: int| 0 <= k < front.len() && front[k] == x;
                assert(s[k] == x);
            } else {
                assert(s[s.len() - 1] == x);
            }
        }
    }
}

/// Losses of one place are told in the order in which they were met: of two
/// that are filed one after the other, the second stands behind the first.
pub proof fn sorting_is_stable(s: Seq<LossModel>, l: LossModel)
    requires
        ordered(s),
    ensures
        exists|k: int|
            0 <= k <= s.len() && filed(s, l) == #[trigger] s.insert(k, l) && (forall|i: int|
                0 <= i < k ==> !earlier(l, #[trigger] s[i])) && (forall|i: int|
                k <= i < s.len() ==> earlier(l, #[trigger] s[i])),
    decreases s.len(),
{
    if s.len() > 0 && earlier(l, s.last()) {
        let front = s.drop_last();
        assert forall|i: int, j: int| 0 <= i < j < front.len() implies !earlier(
            #[trigger] front[j],
            #[trigger] front[i],
        ) by {
            assert(!earlier(s[j], s[i]));
        }
        sorting_is_stable(front, l);
        let k = choose|k: int|
            0 <= k <= front.len() && filed(front, l) == #[trigger] front.insert(k, l) && (forall|
                i: int,
            |
                0 <= i < k ==> !earlier(l, #[trigger] front[i])) && (forall|i: int|
                k <= i < front.len() ==> earlier(l, #[trigger] front[i]));
        assert(filed(s, l) =~= s.insert(k, l));
        assert forall|i: int| 0 <= i < k implies !earlier(l, #[trigger] s[i]) by {
            assert(!earlier(l, front[i]));
        }
        assert forall|i: int| k <= i < s.len() implies earlier(l, #[trigger] s[i]) by {
            if i < front.len() {
                assert(earlier(l, front[i]));
            }
        }
    } else {
        let k = s.len() as int;
        assert(filed(s, l) =~= s.insert(k, l));
        assert forall|i: int| 0 <= i < k implies !earlier(l, #[trigger] s[i]) by {
            if i < s.len() - 1 {
                assert(!earlier(s[s.len() - 1], s[i]));
            }
        }
    }
}

/// What the document under an `<svg>` element is.
pub open spec fn scene(root: ElementModel, hidden: Seq<(nat, nat)>) -> SceneModel {
    let w = world_of(root, hidden);
    let n = w.els.len() as int;
    let (roots, losses) = children(
        w,
        root.children,
        style::resolved(style::initials(), root),
        0,
        Seq::empty(),
        root.children.len() as int,
    );
    SceneModel {
        roots,
        gradients: gradients(w.els, n).0,
        clips: clips(w.els, hidden, n).0,
        view_box: match markup::plain(root, "viewBox"@) {
            Some(v) => view_box(v),
            None => None,
        },
        width: markup::plain(root, "width"@),
        height: markup::plain(root, "height"@),
        losses: in_document_order(
            stylesheet_losses(w.els, n) + gradients(w.els, n).1 + clips(w.els, hidden, n).1
                + losses,
        ),
    }
}

/// A definition nothing can name is not imported.
pub proof fn definitions_have_names(els: Seq<ElementModel>, hidden: Seq<(nat, nat)>, n: int)
    ensures
        forall|k: int|
            0 <= k < gradients(els, n).0.len() ==> (#[trigger] gradients(els, n).0[k]).id.len()
                > 0,
        forall|k: int|
            0 <= k < clips(els, hidden, n).0.len() ==> (#[trigger] clips(
                els,
                hidden,
                n,
            ).0[k]).id.len() > 0,
    decreases n,
{
    if 0 < n <= els.len() {
        definitions_have_names(els, hidden, n - 1);
        let g = gradients(els, n).0;
        let g0 = gradients(els, n - 1).0;
        assert forall|k: int| 0 <= k < g.len() implies (#[trigger] g[k]).id.len() > 0 by {
            if k < g0.len() {
                assert(g[k] == g0[k]);
            }
        }
        let c = clips(els, hidden, n).0;
        let c0 = clips(els, hidden, n - 1).0;
        assert forall|k: int| 0 <= k < c.len() implies (#[trigger] c[k]).id.len() > 0 by {
            if k < c0.len() {
                assert(c[k] == c0[k]);
            }
        }
    }
}

/// Whether a loss is reported at an element of the document.
pub open spec fn placed(l: LossModel, els: Seq<ElementModel>) -> bool {
    exists|k: int|
        0 <= k < els.len() && (#[trigger] els[k]).line == l.line && els[k].column == l.column
}

/// Everything under the children of an element is under the element.
proof fn lemma_all_under(e: ElementModel, k: int, x: ElementModel)
    requires
        0 <= k < e.children.len(),
        e.children[k] matches NodeModel::Element(c) && all(c).contains(x),
    ensures
        all(e).contains(x),
{
    lemma_all_of(e.children, k, e.children.len() as int, x);
    let inner = all_of(e.children, e.children.len() as int);
    let j = choose|j: int| 0 <= j < inner.len() && inner[j] == x;
    assert(all(e)[j + 1] == x);
}

proof fn lemma_all_of(nodes: Seq<NodeModel>, k: int, n: int, x: ElementModel)
    requires
        0 <= k < n <= nodes.len(),
        nodes[k] matches NodeModel::Element(c) && all(c).contains(x),
    ensures
        all_of(nodes, n).contains(x),
    decreases n,
{
    let front = all_of(nodes, n - 1);
    let whole = all_of(nodes, n);
    if k == n - 1 {
        let part = all(nodes[k]->Element_0);
        let j = choose|j: int| 0 <= j < part.len() && part[j] == x;
        assert(whole[front.len() + j] == x);
    } else {
        lemma_all_of(nodes, k, n - 1, x);
        let j = choose|j: int| 0 <= j < front.len() && front[j] == x;
        assert(whole[j] == x);
    }
}

/// What is under an element under `e` is under `e`.
proof fn lemma_all_transitive(e: ElementModel, x: ElementModel, y: ElementModel)
    requires
        all(e).contains(x),
        all(x).contains(y),
    ensures
        all(e).contains(y),
    decreases e, 1int,
{
    let j = choose|j: int| 0 <= j < all(e).len() && all(e)[j] == x;
    if j > 0 {
        let inner = all_of(e.children, e.children.len() as int);
        assert(inner[j - 1] == x);
        assert(inner.contains(x));
        lemma_all_of_transitive(e.children, e.children.len() as int, x, y);
        let k = choose|k: int| 0 <= k < inner.len() && inner[k] == y;
        assert(all(e)[k + 1] == y);
    }
}

proof fn lemma_all_of_transitive(nodes: Seq<NodeModel>, n: int, x: ElementModel, y: ElementModel)
    requires
        all_of(nodes, n).contains(x),
        all(x).contains(y),
    ensures
        all_of(nodes, n).contains(y),
    decreases nodes, n,
{
    if 0 < n <= nodes.len() {
        let front = all_of(nodes, n - 1);
        let whole = all_of(nodes, n);
        let j = choose|j: int| 0 <= j < whole.len() && whole[j] == x;
        if j < front.len() {
            assert(front[j] == x);
            assert(front.contains(x));
            lemma_all_of_transitive(nodes, n - 1, x, y);
            let k = choose|k: int| 0 <= k < front.len() && front[k] == y;
            assert(whole[k] == y);
        } else {
            let part = all(nodes[n - 1]->Element_0);
            assert(nodes[n - 1] is Element);
            assert(part[j - front.len()] == x);
            assert(part.contains(x));
            lemma_all_transitive(nodes[n - 1]->Element_0, x, y);
            let k = choose|k: int| 0 <= k < part.len() && part[k] == y;
            assert(whole[front.len() + k] == y);
        }
    }
}

/// Every loss of a list is reported at an element of the document.
pub open spec fn all_placed(l: Seq<LossModel>, els: Seq<ElementModel>) -> bool {
    forall|k: int| 0 <= k < l.len() ==> placed(#[trigger] l[k], els)
}

proof fn lemma_placed_add(a: Seq<LossModel>, b: Seq<LossModel>, els: Seq<ElementModel>)
    requires
        all_placed(a, els),
        all_placed(b, els),
    ensures
        all_placed(a + b, els),
{
    assert forall|k: int| 0 <= k < (a + b).len() implies placed(#[trigger] (a + b)[k], els) by {
        if k < a.len() {
            assert((a + b)[k] == a[k]);
        } else {
            assert((a + b)[k] == b[k - a.len()]);
        }
    }
}

proof fn lemma_lost_placed(e: ElementModel, m: Option<Seq<char>>, els: Seq<ElementModel>)
    requires
        els.contains(e),
    ensures
        all_placed(lost(e, m), els),
{
    if let Some(message) = m {
        let j = choose|j: int| 0 <= j < els.len() && els[j] == e;
        let l = LossModel { message, line: e.line, column: e.column };
        assert(els[j].line == l.line && els[j].column == l.column);
        assert(placed(l, els));
    }
}

proof fn lemma_remarks_placed(w: WorldModel, e: ElementModel, values: Seq<Seq<char>>)
    requires
        w.els.contains(e),
    ensures
        all_placed(remarks(w, e, values), w.els),
{
    let a = lost(e, clip_loss(w, e));
    let b = lost(e, effect_loss(e, "mask"@));
    let c = lost(e, effect_loss(e, "filter"@));
    let d = lost(e, effect_loss(e, "marker-start"@));
    let f = lost(e, effect_loss(e, "marker-mid"@));
    let g = lost(e, effect_loss(e, "marker-end"@));
    let h = lost(e, paint_loss(w, values, 1));
    let i = lost(e, paint_loss(w, values, 4));
    let j = lost(e, transform_of(e).1);
    lemma_lost_placed(e, clip_loss(w, e), w.els);
    lemma_lost_placed(e, effect_loss(e, "mask"@), w.els);
    lemma_lost_placed(e, effect_loss(e, "filter"@), w.els);
    lemma_lost_placed(e, effect_loss(e, "marker-start"@), w.els);
    lemma_lost_placed(e, effect_loss(e, "marker-mid"@), w.els);
    lemma_lost_placed(e, effect_loss(e, "marker-end"@), w.els);
    lemma_lost_placed(e, paint_loss(w, values, 1), w.els);
    lemma_lost_placed(e, paint_loss(w, values, 4), w.els);
    lemma_lost_placed(e, transform_of(e).1, w.els);
    lemma_placed_add(a, b, w.els);
    lemma_placed_add(a + b, c, w.els);
    lemma_placed_add(a + b + c, d, w.els);
    lemma_placed_add(a + b + c + d, f, w.els);
    lemma_placed_add(a + b + c + d + f, g, w.els);
    lemma_placed_add(a + b + c + d + f + g, h, w.els);
    lemma_placed_add(a + b + c + d + f + g + h, i, w.els);
    lemma_placed_add(a + b + c + d + f + g + h + i, j, w.els);
}

/// An element found by its id is one of the document's.
proof fn lemma_with_id(els: Seq<ElementModel>, id: Seq<char>, i: int)
    requires
        0 <= i,
    ensures
        with_id(els, id, i) matches Some(e) ==> els.contains(e) && id_of(e) == Some(id),
    decreases els.len() - i,
{
    if i < els.len() && id_of(els[i]) != Some(id) {
        lemma_with_id(els, id, i + 1);
    }
}

proof fn lemma_first_element(nodes: Seq<NodeModel>, i: int)
    requires
        0 <= i,
    ensures
        first_element(nodes, i) matches Some(k) ==> 0 <= k < nodes.len() && nodes[k] is Element,
    decreases nodes.len() - i,
{
    if i < nodes.len() && !(nodes[i] is Element) {
        lemma_first_element(nodes, i + 1);
    }
}

proof fn lemma_self_in_all(e: ElementModel)
    ensures
        all(e).contains(e),
{
    assert(all(e)[0] == e);
}

proof fn lemma_child_in_document(root: ElementModel, e: ElementModel, k: int)
    requires
        all(root).contains(e),
        0 <= k < e.children.len(),
        e.children[k] is Element,
    ensures
        all(root).contains(e.children[k]->Element_0),
{
    let c = e.children[k]->Element_0;
    lemma_self_in_all(c);
    lemma_all_under(e, k, c);
    lemma_all_transitive(root, e, c);
}

proof fn lemma_node_placed(
    root: ElementModel,
    w: WorldModel,
    e: ElementModel,
    parent: Seq<Seq<char>>,
    depth: nat,
    stack: Seq<Seq<char>>,
)
    requires
        w.els == all(root),
        w.els.contains(e),
        depth <= MAX_USE_DEPTH,
    ensures
        all_placed(node(w, e, parent, depth, stack).1, w.els),
    decreases MAX_USE_DEPTH - depth, e, 2int,
{
    if is_svg(e) {
        let values = style::resolved(parent, e);
        lemma_content_placed(root, w, e, values, depth, stack);
        lemma_remarks_placed(w, e, values);
        lemma_placed_add(
            content(w, e, values, depth, stack).1,
            remarks(w, e, values),
            w.els,
        );
    }
}

proof fn lemma_content_placed(
    root: ElementModel,
    w: WorldModel,
    e: ElementModel,
    values: Seq<Seq<char>>,
    depth: nat,
    stack: Seq<Seq<char>>,
)
    requires
        w.els == all(root),
        w.els.contains(e),
        depth <= MAX_USE_DEPTH,
    ensures
        all_placed(content(w, e, values, depth, stack).1, w.els),
    decreases MAX_USE_DEPTH - depth, e, 1int,
{
    let name = e.name.local;
    if is_group(name) {
        let message = Some("viewBox on <"@ + name + "> ignored"@);
        lemma_lost_placed(e, message, w.els);
        let n = e.children.len() as int;
        lemma_children_placed(root, w, e, values, depth, stack, n);
        let losses = children(w, e.children, values, depth, stack, n).1;
        lemma_placed_add(lost(e, message), losses, w.els);
        lemma_placed_add(Seq::empty(), losses, w.els);
    } else if name == "switch"@ {
        let message = Some("<switch> imported as its first branch"@);
        lemma_lost_placed(e, message, w.els);
        lemma_first_element(e.children, 0);
        if let Some(k) = first_element(e.children, 0) {
            lemma_child_in_document(root, e, k);
            let child = e.children[k]->Element_0;
            lemma_node_placed(root, w, child, values, depth, stack);
            lemma_placed_add(
                lost(e, message),
                node(w, child, values, depth, stack).1,
                w.els,
            );
        }
    } else if name == "use"@ {
        lemma_lost_placed(e, Some("<use> without a same-document href"@), w.els);
        if let Some(id) = fragment(e) {
            lemma_lost_placed(
                e,
                Some("<use> references #"@ + id + ", which does not exist"@),
                w.els,
            );
            lemma_lost_placed(
                e,
                Some("<use> of #"@ + id + " recurses; expansion stopped"@),
                w.els,
            );
            lemma_with_id(w.els, id, 0);
            if let Some(to) = with_id(w.els, id, 0) {
                if !stack.contains(id) && depth < MAX_USE_DEPTH {
                    lemma_node_placed(root, w, to, values, depth + 1, stack.push(id));
                }
            }
        }
    } else if is_shape(name) {
        lemma_lost_placed(e, shape_of(e, w.hidden).1, w.els);
    } else {
        lemma_lost_placed(e, Some("<"@ + name + "> is not supported and was dropped"@), w.els);
    }
}

proof fn lemma_children_placed(
    root: ElementModel,
    w: WorldModel,
    e: ElementModel,
    values: Seq<Seq<char>>,
    depth: nat,
    stack: Seq<Seq<char>>,
    n: int,
)
    requires
        w.els == all(root),
        w.els.contains(e),
        depth <= MAX_USE_DEPTH,
    ensures
        all_placed(children(w, e.children, values, depth, stack, n).1, w.els),
    decreases MAX_USE_DEPTH - depth, e.children, n,
{
    if 0 < n <= e.children.len() {
        lemma_children_placed(root, w, e, values, depth, stack, n - 1);
        if let NodeModel::Element(c) = e.children[n - 1] {
            lemma_child_in_document(root, e, n - 1);
            lemma_node_placed(root, w, c, values, depth, stack);
            lemma_placed_add(
                children(w, e.children, values, depth, stack, n - 1).1,
                node(w, c, values, depth, stack).1,
                w.els,
            );
        }
    }
}

proof fn lemma_clip_shapes_placed(
    root: ElementModel,
    e: ElementModel,
    transforms: Seq<Seq<FunctionModel>>,
    hidden: Seq<(nat, nat)>,
    n: int,
)
    requires
        all(root).contains(e),
    ensures
        all_placed(clip_shapes(e.children, transforms, hidden, n).1, all(root)),
    decreases e.children, n,
{
    let els = all(root);
    if 0 < n <= e.children.len() {
        lemma_clip_shapes_placed(root, e, transforms, hidden, n - 1);
        if let NodeModel::Element(c) = e.children[n - 1] {
            lemma_child_in_document(root, e, n - 1);
            let losses = clip_shapes(e.children, transforms, hidden, n - 1).1;
            let (t, message) = transform_of(c);
            lemma_lost_placed(c, message, els);
            lemma_placed_add(losses, lost(c, message), els);
            let so_far = losses + lost(c, message);
            let name = c.name.local;
            let dropped = Some("<"@ + name + "> in a clipPath ignored"@);
            lemma_lost_placed(c, dropped, els);
            lemma_placed_add(so_far, lost(c, dropped), els);
            lemma_lost_placed(c, shape_of(c, hidden).1, els);
            lemma_placed_add(so_far, lost(c, shape_of(c, hidden).1), els);
            if name == "g"@ && is_svg(c) {
                let m = c.children.len() as int;
                lemma_clip_shapes_placed(root, c, transforms.push(t), hidden, m);
                lemma_placed_add(
                    so_far,
                    clip_shapes(c.children, transforms.push(t), hidden, m).1,
                    els,
                );
            }
        }
    }
}

proof fn lemma_definitions_placed(root: ElementModel, hidden: Seq<(nat, nat)>, n: int)
    ensures
        all_placed(stylesheet_losses(all(root), n), all(root)),
        all_placed(gradients(all(root), n).1, all(root)),
        all_placed(clips(all(root), hidden, n).1, all(root)),
    decreases n,
{
    let els = all(root);
    if 0 < n <= els.len() {
        lemma_definitions_placed(root, hidden, n - 1);
        let e = els[n - 1];
        assert(els.contains(e));
        let sheet = Some("CSS in a <style> element is not applied"@);
        lemma_lost_placed(e, sheet, els);
        lemma_placed_add(stylesheet_losses(els, n - 1), lost(e, sheet), els);
        lemma_lost_placed(e, gradient_transform(els, e).1, els);
        lemma_placed_add(
            gradients(els, n - 1).1,
            lost(e, gradient_transform(els, e).1),
            els,
        );
        let before = clips(els, hidden, n - 1).1;
        let boxed = Some("clipPathUnits=\"objectBoundingBox\" ignored"@);
        let m = e.children.len() as int;
        let inner = clip_shapes(e.children, Seq::empty(), hidden, m).1;
        lemma_lost_placed(e, boxed, els);
        lemma_lost_placed(e, None, els);
        lemma_placed_add(before, lost(e, boxed), els);
        lemma_placed_add(before, lost(e, None), els);
        lemma_clip_shapes_placed(root, e, Seq::empty(), hidden, m);
        lemma_placed_add(before + lost(e, boxed), inner, els);
        lemma_placed_add(before + lost(e, None), inner, els);
    }
}

/// The losses of a document are told in document order.
pub proof fn losses_come_in_document_order(root: ElementModel, hidden: Seq<(nat, nat)>)
    ensures
        ordered(scene(root, hidden).losses),
{
    let w = world_of(root, hidden);
    let n = w.els.len() as int;
    let values = style::resolved(style::initials(), root);
    let m = root.children.len() as int;
    sorting_keeps_every_loss(
        stylesheet_losses(w.els, n) + gradients(w.els, n).1 + clips(w.els, hidden, n).1
            + children(w, root.children, values, 0, Seq::empty(), m).1,
    );
}

/// Every loss is reported where one of the document's elements is.
pub proof fn losses_name_a_place(root: ElementModel, hidden: Seq<(nat, nat)>)
    ensures
        all_placed(scene(root, hidden).losses, all(root)),
{
    let w = world_of(root, hidden);
    let values = style::resolved(style::initials(), root);
    let els = all(root);
    let n = els.len() as int;
    let m = root.children.len() as int;
    lemma_self_in_all(root);
    lemma_children_placed(root, w, root, values, 0, Seq::empty(), m);
    lemma_definitions_placed(root, hidden, n);
    let a = stylesheet_losses(els, n);
    let b = gradients(els, n).1;
    let c = clips(els, hidden, n).1;
    lemma_placed_add(a, b, els);
    lemma_placed_add(a + b, c, els);
    let d = children(w, root.children, values, 0, Seq::empty(), m).1;
    lemma_placed_add(a + b + c, d, els);
    let met = a + b + c + d;
    sorting_keeps_every_loss(met);
    let told = scene(root, hidden).losses;
    assert forall|k: int| 0 <= k < told.len() implies placed(#[trigger] told[k], els) by {
        assert(told.contains(told[k]));
        let j = choose|j: int| 0 <= j < met.len() && met[j] == told[k];
        assert(placed(met[j], els));
    }
}

/// Whether every property has a value, and none is a keyword for another.
pub open spec fn is_style(values: Seq<Seq<char>>) -> bool {
    values.len() == style::COUNT && style::plain_values(values)
}

/// Whether no group of a tree is empty, and every node has a computed style.
pub open spec fn sound(t: TreeModel) -> bool
    decreases t,
{
    is_style(t.style) && match t.kind {
        KindModel::Group(inner) => inner.len() > 0 && all_sound(inner, inner.len() as int),
        KindModel::Shape(_) => true,
    }
}

/// Whether the first `n` of these trees are sound.
pub open spec fn all_sound(trees: Seq<TreeModel>, n: int) -> bool
    decreases trees, n,
{
    if n <= 0 || n > trees.len() {
        true
    } else {
        all_sound(trees, n - 1) && sound(trees[n - 1])
    }
}

proof fn lemma_all_sound_front(a: Seq<TreeModel>, b: Seq<TreeModel>, n: int)
    requires
        0 <= n <= a.len(),
        n <= b.len(),
        a.take(n) == b.take(n),
        all_sound(a, n),
    ensures
        all_sound(b, n),
    decreases n,
{
    if n > 0 {
        assert(a.take(n - 1) =~= a.take(n).take(n - 1));
        assert(b.take(n - 1) =~= b.take(n).take(n - 1));
        assert(a.take(n)[n - 1] == a[n - 1]);
        assert(b.take(n)[n - 1] == b[n - 1]);
        assert(all_sound(a, n - 1) && sound(a[n - 1]));
        lemma_all_sound_front(a, b, n - 1);
    }
}

pub proof fn lemma_all_sound(trees: Seq<TreeModel>, n: int, k: int)
    requires
        0 <= k < n <= trees.len(),
        all_sound(trees, n),
    ensures
        sound(trees[k]),
    decreases n,
{
    assert(all_sound(trees, n - 1) && sound(trees[n - 1]));
    if k < n - 1 {
        lemma_all_sound(trees, n - 1, k);
    }
}

proof fn lemma_one_sound(t: TreeModel)
    requires
        sound(t),
    ensures
        all_sound(seq![t], 1),
{
    reveal_with_fuel(all_sound, 2);
}

proof fn lemma_node_sound(
    w: WorldModel,
    e: ElementModel,
    parent: Seq<Seq<char>>,
    depth: nat,
    stack: Seq<Seq<char>>,
)
    requires
        is_style(parent),
        depth <= MAX_USE_DEPTH,
    ensures
        node(w, e, parent, depth, stack).0 matches Some(t) ==> sound(t),
    decreases MAX_USE_DEPTH - depth, e, 2int,
{
    if is_svg(e) {
        let values = style::resolved(parent, e);
        style::computed_values_are_plain(parent, e);
        lemma_content_sound(w, e, values, depth, stack);
    }
}

proof fn lemma_content_sound(
    w: WorldModel,
    e: ElementModel,
    values: Seq<Seq<char>>,
    depth: nat,
    stack: Seq<Seq<char>>,
)
    requires
        is_style(values),
        depth <= MAX_USE_DEPTH,
    ensures
        content(w, e, values, depth, stack).0 matches Some(KindModel::Group(inner))
            ==> inner.len() > 0 && all_sound(inner, inner.len() as int),
    decreases MAX_USE_DEPTH - depth, e, 1int,
{
    let name = e.name.local;
    if is_group(name) {
        lemma_children_sound(w, e.children, values, depth, stack, e.children.len() as int);
    } else if name == "switch"@ {
        lemma_first_element(e.children, 0);
        if let Some(k) = first_element(e.children, 0) {
            let child = e.children[k]->Element_0;
            lemma_node_sound(w, child, values, depth, stack);
            if let Some(t) = node(w, child, values, depth, stack).0 {
                lemma_one_sound(t);
            }
        }
    } else if name == "use"@ {
        if let Some(id) = fragment(e) {
            if let Some(to) = with_id(w.els, id, 0) {
                if !stack.contains(id) && depth < MAX_USE_DEPTH {
                    lemma_node_sound(w, to, values, depth + 1, stack.push(id));
                    if let Some(t) = node(w, to, values, depth + 1, stack.push(id)).0 {
                        lemma_one_sound(t);
                    }
                }
            }
        }
    }
}

proof fn lemma_children_sound(
    w: WorldModel,
    nodes: Seq<NodeModel>,
    values: Seq<Seq<char>>,
    depth: nat,
    stack: Seq<Seq<char>>,
    n: int,
)
    requires
        is_style(values),
        depth <= MAX_USE_DEPTH,
        0 <= n <= nodes.len(),
    ensures
        ({
            let found = children(w, nodes, values, depth, stack, n).0;
            all_sound(found, found.len() as int)
        }),
    decreases MAX_USE_DEPTH - depth, nodes, n,
{
    if n > 0 {
        lemma_children_sound(w, nodes, values, depth, stack, n - 1);
        let front = children(w, nodes, values, depth, stack, n - 1).0;
        if let NodeModel::Element(e) = nodes[n - 1] {
            lemma_node_sound(w, e, values, depth, stack);
            if let Some(t) = node(w, e, values, depth, stack).0 {
                let all = front.push(t);
                assert(front.take(front.len() as int) =~= all.take(front.len() as int));
                lemma_all_sound_front(front, all, front.len() as int);
            }
        }
    }
}

/// What draws nothing is not imported: no group of a scene is empty. And every
/// node has a computed style, with no value left to look up.
pub proof fn imported_nodes_are_sound(root: ElementModel, hidden: Seq<(nat, nat)>)
    ensures
        ({
            let roots = scene(root, hidden).roots;
            all_sound(roots, roots.len() as int)
        }),
{
    style::initial_values_are_plain();
    style::computed_values_are_plain(style::initials(), root);
    lemma_children_sound(
        world_of(root, hidden),
        root.children,
        style::resolved(style::initials(), root),
        0,
        Seq::empty(),
        root.children.len() as int,
    );
}

/// What an element becomes goes by its name: containers and shapes are imported,
/// what only defines or describes is passed over in silence, and any other element
/// is dropped and reported, at its place.
pub proof fn an_unknown_element_is_reported(
    w: WorldModel,
    e: ElementModel,
    parent: Seq<Seq<char>>,
    depth: nat,
    stack: Seq<Seq<char>>,
)
    requires
        is_svg(e),
        e.name.local != "g"@ && e.name.local != "a"@ && e.name.local != "symbol"@ && e.name.local
            != "svg"@ && e.name.local != "switch"@ && e.name.local != "use"@,
        e.name.local != "rect"@ && e.name.local != "circle"@ && e.name.local != "ellipse"@
            && e.name.local != "line"@ && e.name.local != "polyline"@ && e.name.local != "polygon"@
            && e.name.local != "path"@,
    ensures
        ({
            let silent = e.name.local == "defs"@ || e.name.local == "clipPath"@ || e.name.local
                == "linearGradient"@ || e.name.local == "radialGradient"@ || e.name.local
                == "title"@ || e.name.local == "desc"@ || e.name.local == "metadata"@
                || e.name.local == "stop"@ || e.name.local == "style"@;
            let (tree, losses) = node(w, e, parent, depth, stack);
            &&& tree is None
            &&& silent ==> losses.len() == 0
            &&& !silent ==> losses.len() == 1 && losses[0].line == e.line && losses[0].column
                == e.column && losses[0].message == "<"@ + e.name.local
                + "> is not supported and was dropped"@
        }),
{
}

/// An element of another namespace is no part of the drawing.
pub proof fn a_foreign_element_is_passed_over(
    w: WorldModel,
    e: ElementModel,
    parent: Seq<Seq<char>>,
    depth: nat,
    stack: Seq<Seq<char>>,
)
    ensures
        is_svg(e) <==> (e.name.namespace is None || e.name.namespace == Some(
            "http://www.w3.org/2000/svg"@,
        )),
        !is_svg(e) ==> node(w, e, parent, depth, stack) == (
            None::<TreeModel>,
            Seq::<LossModel>::empty(),
        ),
{
}

/// A shape is imported as what it draws, with the style it computes to, its own
/// transform and its own clip; one that draws nothing is left out.
pub proof fn a_shape_is_imported_with_its_style(
    w: WorldModel,
    e: ElementModel,
    parent: Seq<Seq<char>>,
    depth: nat,
    stack: Seq<Seq<char>>,
)
    requires
        is_svg(e),
        e.name.local == "rect"@ || e.name.local == "circle"@ || e.name.local == "ellipse"@
            || e.name.local == "line"@ || e.name.local == "polyline"@ || e.name.local == "polygon"@
            || e.name.local == "path"@,
    ensures
        ({
            let (tree, _) = node(w, e, parent, depth, stack);
            match shape_of(e, w.hidden).0 {
                Some(shape) => tree matches Some(t) && t.kind == KindModel::Shape(shape) && t.style
                    == style::resolved(parent, e) && t.transform == transform_of(e).0 && t.clip
                    == clip_of(e) && t.shift is None,
                None => tree is None,
            }
        }),
{
    reveal_strlit("rect");
    reveal_strlit("circle");
    reveal_strlit("ellipse");
    reveal_strlit("line");
    reveal_strlit("polyline");
    reveal_strlit("polygon");
    reveal_strlit("path");
    reveal_strlit("g");
    reveal_strlit("a");
    reveal_strlit("symbol");
    reveal_strlit("svg");
    reveal_strlit("switch");
    reveal_strlit("use");
    reveal_strlit("defs");
    reveal_strlit("clipPath");
    reveal_strlit("linearGradient");
    reveal_strlit("radialGradient");
    reveal_strlit("title");
    reveal_strlit("desc");
    reveal_strlit("metadata");
    reveal_strlit("stop");
    reveal_strlit("style");
    let n = e.name.local;
    assert(n.len() == 4 ==> n[0] != 'd' && n[0] != 's' && n[0] != 't');
    assert(n.len() == 6 ==> n[0] != 's');
    assert(n.len() == 8 ==> n[0] != 'm' && n[1] != 'l');
}

/// The shapes and the lengths they are given by; a shape of which a size is missing
/// or not positive draws nothing, and one is a line as soon as it is named.
pub proof fn shapes_are_given_by_their_lengths(b: Basic, k: int)
    ensures
        basic_of("rect"@) == Some(Basic::Rect) && basic_of("circle"@) == Some(Basic::Circle)
            && basic_of("ellipse"@) == Some(Basic::Ellipse) && basic_of("line"@) == Some(
            Basic::Line,
        ),
        lengths_of(Basic::Rect) == seq!["x"@, "y"@, "width"@, "height"@, "rx"@, "ry"@],
        lengths_of(Basic::Circle) == seq!["cx"@, "cy"@, "r"@],
        lengths_of(Basic::Ellipse) == seq!["cx"@, "cy"@, "rx"@, "ry"@],
        lengths_of(Basic::Line) == seq!["x1"@, "y1"@, "x2"@, "y2"@],
        0 <= k < lengths_of(b).len() ==> (is_size(b, k) <==> b != Basic::Line && (lengths_of(b)[k]
            == "width"@ || lengths_of(b)[k] == "height"@ || lengths_of(b)[k] == "r"@ || (b
            == Basic::Ellipse && (lengths_of(b)[k] == "rx"@ || lengths_of(b)[k] == "ry"@)))),
{
    reveal_strlit("rect");
    reveal_strlit("circle");
    reveal_strlit("ellipse");
    reveal_strlit("line");
    reveal_strlit("x");
    reveal_strlit("y");
    reveal_strlit("width");
    reveal_strlit("height");
    reveal_strlit("rx");
    reveal_strlit("ry");
    reveal_strlit("cx");
    reveal_strlit("cy");
    reveal_strlit("r");
    reveal_strlit("x1");
    reveal_strlit("y1");
    reveal_strlit("x2");
    reveal_strlit("y2");
    assert("line"@[0] != "rect"@[0]);
    assert("rect"@.len() == 4 && "line"@.len() == 4);
    assert("circle"@.len() == 6 && "ellipse"@.len() == 7);
    assert("width"@.len() == 5 && "height"@.len() == 6 && "r"@.len() == 1);
    assert("x"@.len() == 1 && "y"@.len() == 1 && "rx"@.len() == 2 && "ry"@.len() == 2);
    assert("cx"@.len() == 2 && "cy"@.len() == 2);
    assert("x"@[0] != "r"@[0] && "y"@[0] != "r"@[0]);
    assert("cx"@[0] != "rx"@[0] && "cx"@[0] != "ry"@[0]);
    assert("cy"@[0] != "rx"@[0] && "cy"@[0] != "ry"@[0]);
}

/// A size that is missing, not a length, zero or negative leaves nothing to draw.
pub proof fn a_shape_of_no_size_is_not_drawn(e: ElementModel, hidden: Seq<(nat, nat)>, k: int)
    requires
        basic_of(e.name.local) matches Some(b) && 0 <= k < lengths_of(b).len() && is_size(b, k),
    ensures
        ({
            let b = basic_of(e.name.local)->0;
            let value = markup::plain(e, lengths_of(b)[k]);
            let missing = value is None || length(value->0) is None;
            let small = !missing && length(value->0)->0.unit != Unit::Percent && !number::positive(
                length(value->0)->0.number,
                0,
            );
            missing || small ==> shape_of(e, hidden).0 is None
        }),
{
    let b = basic_of(e.name.local)->0;
    assert(basic_lengths(e, b)[k] == length_of(e, lengths_of(b)[k]));
}

/// A polygon is a polyline that is closed.
pub proof fn a_polygon_is_a_closed_polyline(
    a: ElementModel,
    b: ElementModel,
    points: Seq<char>,
    hidden: Seq<(nat, nat)>,
)
    requires
        a.name.local == "polyline"@,
        b.name.local == "polygon"@,
        markup::plain(a, "points"@) == Some(points),
        markup::plain(b, "points"@) == Some(points),
        text::trimmed(points).len() > 0,
    ensures
        shape_of(a, hidden) == drawn_shape(seq!['M'] + text::trimmed(points)),
        shape_of(b, hidden) == drawn_shape(seq!['M'] + text::trimmed(points) + seq!['Z']),
{
    reveal_strlit("polyline");
    reveal_strlit("polygon");
    reveal_strlit("rect");
    reveal_strlit("circle");
    reveal_strlit("ellipse");
    reveal_strlit("line");
    reveal_strlit("M");
    reveal_strlit("Z");
    assert("M"@ =~= seq!['M']);
    assert("Z"@ =~= seq!['Z']);
    assert("polygon"@[0] != "ellipse"@[0]);
    assert("polyline"@.len() == 8 && "polygon"@.len() == 7 && "ellipse"@.len() == 7);
    assert("rect"@.len() == 4 && "line"@.len() == 4 && "circle"@.len() == 6);
}

/// A path is drawn as far as its data go; where they break off, that is reported.
pub proof fn path_data_are_drawn_as_far_as_they_go(d: Seq<char>)
    ensures
        drawn_shape(d).0 is None <==> path_data::drawn(d).0.steps.len() == 0,
        drawn_shape(d).0 matches Some(s) ==> s == ShapeModel::Drawn(path_data::drawn(d).0),
        drawn_shape(d).1 is Some <==> path_data::drawn(d).1 is Some,
{
}

/// A reference goes to the first element with its id, in document order.
pub proof fn a_reference_goes_to_the_first_with_its_id(
    els: Seq<ElementModel>,
    id: Seq<char>,
    i: int,
    k: int,
)
    requires
        0 <= i <= els.len(),
    ensures
        with_id(els, id, i) matches Some(e) ==> exists|j: int|
            i <= j < els.len() && #[trigger] els[j] == e && id_of(e) == Some(id) && (i <= k < j
                ==> id_of(els[k]) != Some(id)),
        with_id(els, id, i) is None && i <= k < els.len() ==> id_of(els[k]) != Some(id),
    decreases els.len() - i,
{
    if i < els.len() {
        if id_of(els[i]) == Some(id) {
            assert(els[i] == with_id(els, id, i)->0);
        } else {
            a_reference_goes_to_the_first_with_its_id(els, id, i + 1, k);
        }
    }
}

/// An empty id names nothing.
pub proof fn an_empty_id_names_nothing(e: ElementModel)
    ensures
        id_of(e) matches Some(id) ==> id.len() > 0 && markup::plain(e, "id"@) == Some(id),
        markup::plain(e, "id"@) matches Some(id) ==> (id.len() > 0 ==> id_of(e) == Some(id)),
{
}

/// Elements are walked in document order: an element before what it holds, and what
/// it holds in order.
pub proof fn elements_are_walked_in_document_order(e: ElementModel, nodes: Seq<NodeModel>, n: int)
    requires
        0 < n <= nodes.len(),
    ensures
        all(e)[0] == e,
        all(e).skip(1) == all_of(e.children, e.children.len() as int),
        nodes[n - 1] matches NodeModel::Element(c) ==> all_of(nodes, n) == all_of(nodes, n - 1)
            + all(c),
        nodes[n - 1] is Text ==> all_of(nodes, n) == all_of(nodes, n - 1),
{
    let inner = all_of(e.children, e.children.len() as int);
    assert(all(e) == seq![e] + inner);
    assert(all(e).skip(1) =~= inner);
    if nodes[n - 1] is Text {
        assert(all_of(nodes, n) =~= all_of(nodes, n - 1));
    }
}

/// A use stands for what it refers to, moved by its own x and y; one that would
/// stand for itself, however far round, or is nested sixteen deep, is left out and
/// reported.
pub proof fn a_use_never_stands_for_itself(
    w: WorldModel,
    e: ElementModel,
    values: Seq<Seq<char>>,
    depth: nat,
    stack: Seq<Seq<char>>,
    id: Seq<char>,
    to: ElementModel,
)
    requires
        e.name.local == "use"@,
        fragment(e) == Some(id),
        with_id(w.els, id, 0) == Some(to),
    ensures
        stack.contains(id) || depth >= 16 ==> content(w, e, values, depth, stack).0 is None
            && content(w, e, values, depth, stack).1.len() == 1,
        !stack.contains(id) && depth < 16 ==> (match node(w, to, values, depth + 1, stack.push(id)) {
            (Some(t), losses) => content(w, e, values, depth, stack) == (
                Some(KindModel::Group(seq![t])),
                losses,
            ),
            (None, losses) => content(w, e, values, depth, stack) == (None::<KindModel>, losses),
        }),
        shift_of(e) == Some((length_of(e, "x"@), length_of(e, "y"@))),
{
    reveal_strlit("use");
    reveal_strlit("g");
    reveal_strlit("a");
    reveal_strlit("symbol");
    reveal_strlit("svg");
    reveal_strlit("switch");
    assert("use"@[0] != "svg"@[0]);
}

/// Only a use is shifted.
pub proof fn only_a_use_is_shifted(e: ElementModel)
    ensures
        e.name.local != "use"@ ==> shift_of(e) is None,
{
}

/// Of a switch the first element counts and no other.
pub proof fn a_switch_is_its_first_element(nodes: Seq<NodeModel>, i: int, k: int)
    requires
        0 <= i <= nodes.len(),
    ensures
        first_element(nodes, i) matches Some(j) ==> i <= j < nodes.len() && nodes[j] is Element && (
        i <= k < j ==> nodes[k] is Text),
        first_element(nodes, i) is None && i <= k < nodes.len() ==> nodes[k] is Text,
    decreases nodes.len() - i,
{
    if i < nodes.len() && !(nodes[i] is Element) {
        a_switch_is_its_first_element(nodes, i + 1, k);
    }
}

/// A gradient has an attribute from itself where it has it, else from the gradient
/// that it refers to, and so on along the references.
pub proof fn a_gradient_has_what_it_refers_to(
    els: Seq<ElementModel>,
    e: ElementModel,
    name: Seq<char>,
    hops: int,
    t: ElementModel,
)
    requires
        hops > 0,
    ensures
        markup::plain(e, name) is Some ==> inherited(els, e, name, hops) == markup::plain(e, name),
        markup::plain(e, name) is None && target(els, e) == Some(t) ==> inherited(
            els,
            e,
            name,
            hops,
        ) == inherited(els, t, name, hops - 1),
        markup::plain(e, name) is None && target(els, e) is None ==> inherited(els, e, name, hops)
            is None,
        has_stops(e) ==> stop_source(els, e, hops) == e,
        !has_stops(e) && target(els, e) == Some(t) ==> stop_source(els, e, hops) == stop_source(
            els,
            t,
            hops - 1,
        ),
{
}

/// What a gradient is where neither it nor what it refers to says so: padded, in the
/// box of what it fills, untransformed. Its coordinates are by its kind.
pub proof fn a_gradient_that_says_nothing(els: Seq<ElementModel>, e: ElementModel, id: Seq<char>)
    ensures
        inherited(els, e, "spreadMethod"@, 16) is None ==> gradient(els, e, id).spread == "pad"@,
        inherited(els, e, "spreadMethod"@, 16) matches Some(v) ==> gradient(els, e, id).spread == v,
        gradient(els, e, id).user_space <==> inherited(els, e, "gradientUnits"@, 16) == Some(
            "userSpaceOnUse"@,
        ),
        inherited(els, e, "gradientTransform"@, 16) is None ==> gradient(
            els,
            e,
            id,
        ).transform.len() == 0,
        gradient(els, e, id).radial <==> e.name.local == "radialGradient"@,
        gradient(els, e, id).id == id,
        coords_of(true) == seq!["cx"@, "cy"@, "r"@, "fx"@, "fy"@],
        coords_of(false) == seq!["x1"@, "y1"@, "x2"@, "y2"@],
{
}

/// The stops of a gradient are its stop elements in order, each with its offset,
/// zero where it has none, and with the color and opacity it computes to.
pub proof fn stops_come_in_order(nodes: Seq<NodeModel>, parent: Seq<Seq<char>>, n: int)
    requires
        0 < n <= nodes.len(),
    ensures
        nodes[n - 1] matches NodeModel::Element(e) ==> (e.name.local == "stop"@ ==> stops_of(
            nodes,
            parent,
            n,
        ) == stops_of(nodes, parent, n - 1).push(stop_of(e, parent))),
        !(nodes[n - 1] matches NodeModel::Element(e) && e.name.local == "stop"@) ==> stops_of(
            nodes,
            parent,
            n,
        ) == stops_of(nodes, parent, n - 1),
        nodes[n - 1] matches NodeModel::Element(e) ==> {
            let s = stop_of(e, parent);
            &&& style::reads(style::resolved(parent, e), "stop-color"@, s.color)
            &&& style::reads(style::resolved(parent, e), "stop-opacity"@, s.opacity)
            &&& s.offset == length(
                match markup::plain(e, "offset"@) {
                    Some(v) => v,
                    None => "0"@,
                },
            )
        },
{
    style::names_are_found(15);
    style::names_are_found(16);
}

/// A shape in a clip is under the transforms of all that it stands in, outermost
/// first, and its own last.
pub proof fn a_clip_shape_is_under_its_transforms(
    nodes: Seq<NodeModel>,
    transforms: Seq<Seq<FunctionModel>>,
    hidden: Seq<(nat, nat)>,
    n: int,
    e: ElementModel,
)
    requires
        0 < n <= nodes.len(),
        nodes[n - 1] == NodeModel::Element(e),
        is_svg(e),
    ensures
        ({
            let before = clip_shapes(nodes, transforms, hidden, n - 1).0;
            let now = clip_shapes(nodes, transforms, hidden, n).0;
            let under = transforms.push(transform_of(e).0);
            &&& e.name.local == "g"@ ==> now == before + clip_shapes(
                e.children,
                under,
                hidden,
                e.children.len() as int,
            ).0
            &&& e.name.local != "g"@ && is_shape(e.name.local) ==> match shape_of(e, hidden).0 {
                Some(shape) => now == before.push(ClipShapeModel { transforms: under, shape }),
                None => now == before,
            }
            &&& e.name.local != "g"@ && !is_shape(e.name.local) ==> now == before
        }),
{
}

/// Children are imported in order, under the style of their parent; text and what is
/// left out leave no gap.
pub proof fn children_keep_their_order(
    w: WorldModel,
    nodes: Seq<NodeModel>,
    values: Seq<Seq<char>>,
    depth: nat,
    stack: Seq<Seq<char>>,
    n: int,
)
    requires
        0 < n <= nodes.len(),
    ensures
        ({
            let (front, a) = children(w, nodes, values, depth, stack, n - 1);
            let (list, b) = children(w, nodes, values, depth, stack, n);
            match nodes[n - 1] {
                NodeModel::Text(_) => list == front && b == a,
                NodeModel::Element(e) => {
                    let (tree, more) = node(w, e, values, depth, stack);
                    b == a + more && list == (match tree {
                        Some(t) => front.push(t),
                        None => front,
                    })
                },
            }
        }),
{
}

/// An effect that is not applied is reported unless it is none.
pub proof fn an_effect_is_reported_unless_none(e: ElementModel, effect: Seq<char>)
    ensures
        effect_loss(e, effect) is None <==> markup::plain(e, effect) is None || markup::plain(
            e,
            effect,
        ) == Some("none"@),
{
}

/// A transform that cannot be read is reported and leaves the element where it is.
pub proof fn an_unreadable_transform_is_ignored(e: ElementModel)
    ensures
        markup::plain(e, "transform"@) is None ==> transform_of(e) == (
            Seq::<FunctionModel>::empty(),
            None::<Seq<char>>,
        ),
        markup::plain(e, "transform"@) matches Some(v) ==> match transform::transform_list(v) {
            Ok(list) => transform_of(e) == (list, None::<Seq<char>>),
            Err(_) => transform_of(e).0.len() == 0 && transform_of(e).1 is Some,
        },
{
}

/// A reference in the document is a fragment, in an `href` of XLink or of no
/// namespace.
pub proof fn a_reference_is_a_fragment(e: ElementModel)
    ensures
        e.attributes.len() > 0 && e.attributes[0].name.local == "href"@ && (
        e.attributes[0].name.namespace is None || e.attributes[0].name.namespace == Some(
            "http://www.w3.org/1999/xlink"@,
        )) && e.attributes[0].value.len() > 0 ==> (if e.attributes[0].value[0] == '#' {
            fragment(e) == Some(e.attributes[0].value.skip(1))
        } else {
            fragment(e) is None
        }),
{
}

proof fn lemma_bare(s: Seq<char>)
    requires
        s.len() > 0,
        s[0] != '"' && s[0] != '\'',
        s.last() != '"' && s.last() != '\'',
    ensures
        unquoted_end(unquoted_start(s)) == s,
{
}

/// A paint or a clip is referred to by `url(#...)`, in quotes or not.
pub proof fn a_url_names_an_id(id: Seq<char>)
    requires
        id.len() > 0,
        forall|k: int| 0 <= k < id.len() ==> !text::is_space(#[trigger] id[k]),
        id.last() != '"' && id.last() != '\'',
    ensures
        url_id("url(#"@ + id + ")"@) == Some(id),
        url_id("url('#"@ + id + "')"@) == Some(id),
        url_id("url(\"#"@ + id + "\")"@) == Some(id),
        url_id(id) is None || id.last() == ')',
{
    lemma_plain_url(id);
    lemma_quoted_url(id, '\'');
    lemma_quoted_url(id, '"');
    assert("url('#"@ + id + "')"@ =~= seq!['u', 'r', 'l', '(', '\'', '#'] + id + seq!['\'', ')'])
        by {
        reveal_strlit("url('#");
        reveal_strlit("')");
    }
    assert("url(\"#"@ + id + "\")"@ =~= seq!['u', 'r', 'l', '(', '"', '#'] + id + seq!['"', ')'])
        by {
        reveal_strlit("url(\"#");
        reveal_strlit("\")");
    }
    assert(url_id(id) is None || id.last() == ')') by {
        lemma_untrimmed(id);
    }
}

proof fn lemma_plain_url(id: Seq<char>)
    requires
        id.len() > 0,
        !text::is_space(id.last()),
        id.last() != '"' && id.last() != '\'',
    ensures
        url_id("url(#"@ + id + ")"@) == Some(id),
{
    let bare = seq!['#'] + id;
    assert(bare.skip(1) =~= id);
    assert("url(#"@ + id + ")"@ =~= seq!['u', 'r', 'l', '('] + bare + seq![')']) by {
        reveal_strlit("url(#");
        reveal_strlit(")");
    }
    lemma_bare(bare);
    lemma_url(bare);
}

proof fn lemma_quoted_url(id: Seq<char>, q: char)
    requires
        id.len() > 0,
        !text::is_space(id.last()),
        id.last() != '"' && id.last() != '\'',
        q == '"' || q == '\'',
    ensures
        url_id(seq!['u', 'r', 'l', '(', q, '#'] + id + seq![q, ')']) == Some(id),
{
    let bare = seq!['#'] + id;
    assert(bare.skip(1) =~= id);
    let inner = seq![q] + bare + seq![q];
    assert(seq!['u', 'r', 'l', '(', q, '#'] + id + seq![q, ')'] =~= seq!['u', 'r', 'l', '(']
        + inner + seq![')']);
    lemma_quoted(bare, q);
    lemma_url(inner);
}

proof fn lemma_url(inner: Seq<char>)
    requires
        inner.len() > 0,
        !text::is_space(inner[0]),
        !text::is_space(inner.last()),
    ensures
        ({
            let bare = unquoted_end(unquoted_start(inner));
            url_id(seq!['u', 'r', 'l', '('] + inner + seq![')']) == (if bare.len() > 1 && bare[0]
                == '#' {
                Some(bare.skip(1))
            } else {
                None
            })
        }),
{
    reveal_strlit("url(");
    let v = seq!['u', 'r', 'l', '('] + inner + seq![')'];
    lemma_untrimmed(v);
    assert("url("@.len() == 4);
    assert(v.take(4) =~= "url("@);
    assert(v.subrange(4, v.len() - 1) =~= inner);
    lemma_untrimmed(inner);
}

proof fn lemma_untrimmed(s: Seq<char>)
    requires
        s.len() > 0,
        !text::is_space(s[0]),
        !text::is_space(s.last()),
    ensures
        text::trimmed(s) == s,
{
}

proof fn lemma_quoted(s: Seq<char>, q: char)
    requires
        s.len() > 0,
        s[0] != '"' && s[0] != '\'',
        s.last() != '"' && s.last() != '\'',
        q == '"' || q == '\'',
    ensures
        unquoted_end(unquoted_start(seq![q] + s + seq![q])) == s,
{
    let t = seq![q] + s + seq![q];
    reveal_with_fuel(unquoted_start, 2);
    reveal_with_fuel(unquoted_end, 2);
    let u = s + seq![q];
    assert(t.skip(1) =~= u);
    assert(u[0] == s[0]);
    assert(unquoted_start(t) == u);
    assert(u.last() == q);
    assert(u.drop_last() =~= s);
}

/// A length is a number and a unit behind it; without one it is in user units, as it
/// is in pixels.
pub proof fn a_length_is_a_number_and_a_unit(t: Seq<char>)
    requires
        number::is_number(t),
    ensures
        length(t) == Some(LengthModel { number: t, unit: Unit::User }),
        length(t + "px"@) == Some(LengthModel { number: t, unit: Unit::User }),
        length(t + "pt"@) == Some(LengthModel { number: t, unit: Unit::Point }),
        length(t + "pc"@) == Some(LengthModel { number: t, unit: Unit::Pica }),
        length(t + "mm"@) == Some(LengthModel { number: t, unit: Unit::Millimetre }),
        length(t + "cm"@) == Some(LengthModel { number: t, unit: Unit::Centimetre }),
        length(t + "in"@) == Some(LengthModel { number: t, unit: Unit::Inch }),
        length(t + "%"@) == Some(LengthModel { number: t, unit: Unit::Percent }),
{
    reveal_strlit("px");
    reveal_strlit("pt");
    reveal_strlit("pc");
    reveal_strlit("mm");
    reveal_strlit("cm");
    reveal_strlit("in");
    reveal_strlit("%");
    number::lemma_number_chars(t);
    number::lemma_number_first(t);
    lemma_untrimmed(t);
    assert(t.take(t.len() as int) =~= t);
    lemma_ending(t, Seq::empty(), t.last(), ' ');
    assert("px"@ =~= seq!['p', 'x']);
    assert("pt"@ =~= seq!['p', 't']);
    assert("pc"@ =~= seq!['p', 'c']);
    assert("mm"@ =~= seq!['m', 'm']);
    assert("cm"@ =~= seq!['c', 'm']);
    assert("in"@ =~= seq!['i', 'n']);
    assert("%"@ =~= seq!['%']);
    lemma_with_unit(t, 'p', 'x');
    lemma_with_unit(t, 'p', 't');
    lemma_with_unit(t, 'p', 'c');
    lemma_with_unit(t, 'm', 'm');
    lemma_with_unit(t, 'c', 'm');
    lemma_with_unit(t, 'i', 'n');
    lemma_ending(t + seq!['%'], t, '%', ' ');
}

proof fn lemma_with_unit(t: Seq<char>, x: char, y: char)
    requires
        number::is_number(t),
        text::trimmed(t) == t,
        t.len() > 0 && !text::is_space(t[0]),
        !text::is_space(y) && !text::is_space(x),
    ensures
        x == 'p' && y == 'x' ==> length(t + seq![x, y]) == Some(
            LengthModel { number: t, unit: Unit::User },
        ),
        x == 'p' && y == 't' ==> length(t + seq![x, y]) == Some(
            LengthModel { number: t, unit: Unit::Point },
        ),
        x == 'p' && y == 'c' ==> length(t + seq![x, y]) == Some(
            LengthModel { number: t, unit: Unit::Pica },
        ),
        x == 'm' && y == 'm' ==> length(t + seq![x, y]) == Some(
            LengthModel { number: t, unit: Unit::Millimetre },
        ),
        x == 'c' && y == 'm' ==> length(t + seq![x, y]) == Some(
            LengthModel { number: t, unit: Unit::Centimetre },
        ),
        x == 'i' && y == 'n' ==> length(t + seq![x, y]) == Some(
            LengthModel { number: t, unit: Unit::Inch },
        ),
{
    let v = t + seq![x, y];
    assert(v[0] == t[0]);
    assert(v.last() == y);
    lemma_ending(v, t, x, y);
}

/// The unit of a text that ends in a digit or a point, or in a number and one or two
/// characters more.
proof fn lemma_ending(v: Seq<char>, t: Seq<char>, x: char, y: char)
    requires
        v.len() > 0,
        !text::is_space(v[0]) && !text::is_space(v.last()),
        y == ' ' ==> v.last() == x,
        y == ' ' && x == '%' ==> v == t + seq!['%'] && text::trimmed(t) == t,
        y == ' ' && x != '%' ==> number::is_digit(x) || x == '.',
        y != ' ' ==> v == t + seq![x, y] && text::trimmed(t) == t,
    ensures
        text::trimmed(v) == v,
        y == ' ' && x != '%' ==> unit_of(v) == (Unit::User, 0nat),
        y == ' ' && x == '%' ==> unit_of(v) == (Unit::Percent, 1nat) && v.take(v.len() - 1) == t,
        y != ' ' ==> v.take(v.len() - 2) == t,
        x == 'p' && y == 'x' ==> unit_of(v) == (Unit::User, 2nat),
        x == 'p' && y == 't' ==> unit_of(v) == (Unit::Point, 2nat),
        x == 'p' && y == 'c' ==> unit_of(v) == (Unit::Pica, 2nat),
        x == 'm' && y == 'm' ==> unit_of(v) == (Unit::Millimetre, 2nat),
        x == 'c' && y == 'm' ==> unit_of(v) == (Unit::Centimetre, 2nat),
        x == 'i' && y == 'n' ==> unit_of(v) == (Unit::Inch, 2nat),
{
    reveal_strlit("px");
    reveal_strlit("pt");
    reveal_strlit("pc");
    reveal_strlit("mm");
    reveal_strlit("cm");
    reveal_strlit("in");
    reveal_strlit("%");
    lemma_untrimmed(v);
    lemma_two_end(v, "px"@);
    lemma_two_end(v, "pt"@);
    lemma_two_end(v, "pc"@);
    lemma_two_end(v, "mm"@);
    lemma_two_end(v, "cm"@);
    lemma_two_end(v, "in"@);
    if ends_with(v, "%"@) {
        assert(v.skip(v.len() - 1)[0] == v.last());
    }
    if y != ' ' {
        assert(v.take(v.len() - 2) =~= t);
        assert(v.last() == y);
        assert(v[v.len() - 2] == x);
    } else if x == '%' {
        assert(v.skip(v.len() - 1) =~= "%"@);
        assert(v.take(v.len() - 1) =~= t);
    }
}

proof fn lemma_two_end(v: Seq<char>, p: Seq<char>)
    requires
        p.len() == 2,
    ensures
        ends_with(v, p) <==> v.len() >= 2 && v[v.len() - 2] == p[0] && v.last() == p[1],
{
    if v.len() >= 2 {
        let s = v.skip(v.len() - 2);
        assert(s[0] == v[v.len() - 2] && s[1] == v.last());
        if s[0] == p[0] && s[1] == p[1] {
            assert(s =~= p);
        }
    }
}

/// A view box is four numbers of which the last two, its size, are positive.
pub proof fn a_view_box_has_a_positive_size(value: Seq<char>)
    ensures
        view_box(value) matches Some(a) ==> a.len() == 4 && number::is_number(a[0])
            && number::is_number(a[1]) && number::is_number(a[2]) && number::is_number(a[3])
            && number::positive(a[2], 0) && number::positive(a[3], 0),
        leading_numbers(value, 4) matches Some((a, _)) ==> (number::positive(a[2], 0)
            && number::positive(a[3], 0) ==> view_box(value) == Some(a)),
{
    lemma_leading(value, 4);
}

proof fn lemma_leading(s: Seq<char>, n: int)
    requires
        0 <= n,
    ensures
        leading_numbers(s, n) matches Some((a, _)) ==> a.len() == n && forall|k: int|
            0 <= k < n ==> number::is_number(#[trigger] a[k]),
    decreases n,
{
    if n > 0 {
        lemma_leading(s, n - 1);
    }
}

/// The words of a list are parted by space and commas alone.
pub proof fn words_are_parted_by_separators(s: Seq<char>, i: int, k: int)
    requires
        0 <= i <= s.len(),
    ensures
        i <= past_list_separators(s, i) <= s.len(),
        i <= word_end(s, i) <= s.len(),
        i <= k < past_list_separators(s, i) ==> s[k] == ' ' || s[k] == '\t' || s[k] == '\n' || s[k]
            == '\r' || s[k] == ',',
        i <= k < word_end(s, i) ==> s[k] != ' ' && s[k] != '\t' && s[k] != '\n' && s[k] != '\r'
            && s[k] != ',',
        past_list_separators(s, i) < s.len() ==> !is_list_separator(s[past_list_separators(s, i)]),
        word_end(s, i) < s.len() ==> is_list_separator(s[word_end(s, i)]),
    decreases s.len() - i,
{
    if i < s.len() {
        words_are_parted_by_separators(s, i + 1, k);
    }
}

/// The gradients of a document are its gradient elements with an id, in order.
pub proof fn gradients_are_those_with_an_id(els: Seq<ElementModel>, n: int)
    requires
        0 < n <= els.len(),
    ensures
        ({
            let e = els[n - 1];
            let named = is_svg(e) && (e.name.local == "linearGradient"@ || e.name.local
                == "radialGradient"@) && id_of(e) is Some;
            &&& named ==> gradients(els, n).0 == gradients(els, n - 1).0.push(
                gradient(els, e, id_of(e)->0),
            )
            &&& !named ==> gradients(els, n).0 == gradients(els, n - 1).0 && gradients(els, n).1
                == gradients(els, n - 1).1
        }),
{
}

/// The clips of a document are its clipPath elements with an id, in order, each with
/// the shapes in it.
pub proof fn clips_are_those_with_an_id(els: Seq<ElementModel>, hidden: Seq<(nat, nat)>, n: int)
    requires
        0 < n <= els.len(),
    ensures
        ({
            let e = els[n - 1];
            let named = is_svg(e) && e.name.local == "clipPath"@ && id_of(e) is Some;
            &&& named ==> clips(els, hidden, n).0 == clips(els, hidden, n - 1).0.push(
                ClipModel {
                    id: id_of(e)->0,
                    shapes: clip_shapes(
                        e.children,
                        Seq::empty(),
                        hidden,
                        e.children.len() as int,
                    ).0,
                },
            )
            &&& !named ==> clips(els, hidden, n).0 == clips(els, hidden, n - 1).0
        }),
{
}

/// Each style element is reported once, and nothing else is on its account.
pub proof fn each_stylesheet_is_reported_once(els: Seq<ElementModel>, n: int)
    requires
        0 < n <= els.len(),
    ensures
        ({
            let e = els[n - 1];
            let sheet = is_svg(e) && e.name.local == "style"@;
            &&& sheet ==> stylesheet_losses(els, n).len() == stylesheet_losses(els, n - 1).len() + 1
                && stylesheet_losses(els, n).last().line == e.line && stylesheet_losses(
                els,
                n,
            ).last().column == e.column
            &&& !sheet ==> stylesheet_losses(els, n) == stylesheet_losses(els, n - 1)
        }),
{
}

/// A paint or a clip that refers to what is not there is reported, and one that
/// refers to what is there is not.
pub proof fn a_dangling_reference_is_reported(
    w: WorldModel,
    e: ElementModel,
    values: Seq<Seq<char>>,
    i: int,
)
    ensures
        url_id(values[i]) is None ==> paint_loss(w, values, i) is None,
        url_id(values[i]) matches Some(id) ==> (paint_loss(w, values, i) is None
            <==> w.gradients.contains(id)),
        clip_of(e) is None ==> clip_loss(w, e) is None,
        clip_of(e) matches Some(id) ==> (clip_loss(w, e) is None <==> w.clips.contains(id)),
{
}

/// An element without a clip, an effect, a dangling paint or a transform that cannot
/// be read has nothing remarked of it; fill and stroke are the paints looked at.
pub proof fn an_ordinary_element_is_not_remarked_on(
    w: WorldModel,
    e: ElementModel,
    values: Seq<Seq<char>>,
)
    requires
        clip_of(e) is None,
        markup::plain(e, "mask"@) is None && markup::plain(e, "filter"@) is None && markup::plain(
            e,
            "marker-start"@,
        ) is None && markup::plain(e, "marker-mid"@) is None && markup::plain(e, "marker-end"@)
            is None,
        style::index_of("fill"@, 0) matches Some(k) && url_id(values[k]) is None,
        style::index_of("stroke"@, 0) matches Some(k) && url_id(values[k]) is None,
        markup::plain(e, "transform"@) is None,
    ensures
        remarks(w, e, values).len() == 0,
{
    style::names_are_found(1);
    style::names_are_found(4);
}

/// Each effect that is set is remarked on, once each.
pub proof fn every_effect_is_remarked_on(
    w: WorldModel,
    e: ElementModel,
    values: Seq<Seq<char>>,
    effect: Seq<char>,
)
    requires
        effect == "mask"@ || effect == "filter"@ || effect == "marker-start"@ || effect
            == "marker-mid"@ || effect == "marker-end"@,
        markup::plain(e, effect) is Some,
        markup::plain(e, effect) != Some("none"@),
    ensures
        remarks(w, e, values).len() >= 1,
        exists|k: int|
            0 <= k < remarks(w, e, values).len() && (#[trigger] remarks(w, e, values)[k]).message
                == effect + "=\""@ + markup::plain(e, effect)->0 + "\" ignored"@,
{
    let a = lost(e, clip_loss(w, e));
    let b = lost(e, effect_loss(e, "mask"@));
    let c = lost(e, effect_loss(e, "filter"@));
    let d = lost(e, effect_loss(e, "marker-start"@));
    let f = lost(e, effect_loss(e, "marker-mid"@));
    let g = lost(e, effect_loss(e, "marker-end"@));
    let h = lost(e, paint_loss(w, values, 1));
    let i = lost(e, paint_loss(w, values, 4));
    let j = lost(e, transform_of(e).1);
    let all = a + b + c + d + f + g + h + i + j;
    assert(remarks(w, e, values) == all);
    let at = a.len() as int;
    if effect == "mask"@ {
        assert(all[at] == b[0]);
    } else if effect == "filter"@ {
        assert(all[at + b.len()] == c[0]);
    } else if effect == "marker-start"@ {
        assert(all[at + b.len() + c.len()] == d[0]);
    } else if effect == "marker-mid"@ {
        assert(all[at + b.len() + c.len() + d.len()] == f[0]);
    } else {
        assert(all[at + b.len() + c.len() + d.len() + f.len()] == g[0]);
    }
}

/// A scene is what the root of a document holds, under the style of the root.
pub proof fn a_scene_is_what_its_root_holds(root: ElementModel, hidden: Seq<(nat, nat)>)
    ensures
        ({
            let s = scene(root, hidden);
            &&& s.width == markup::plain(root, "width"@)
            &&& s.height == markup::plain(root, "height"@)
            &&& markup::plain(root, "viewBox"@) is None ==> s.view_box is None
            &&& markup::plain(root, "viewBox"@) matches Some(v) ==> s.view_box == view_box(v)
            &&& s.roots == children(
                world_of(root, hidden),
                root.children,
                style::resolved(style::initials(), root),
                0,
                Seq::empty(),
                root.children.len() as int,
            ).0
            &&& s.gradients == gradients(all(root), all(root).len() as int).0
            &&& s.clips == clips(all(root), hidden, all(root).len() as int).0
        }),
{
}

/// A group is its children under its own style, and one that holds nothing to draw is
/// left out; a view box on another container than a plain group is reported.
pub proof fn a_group_is_its_children(
    w: WorldModel,
    e: ElementModel,
    values: Seq<Seq<char>>,
    depth: nat,
    stack: Seq<Seq<char>>,
)
    requires
        e.name.local == "g"@ || e.name.local == "a"@ || e.name.local == "symbol"@ || e.name.local
            == "svg"@,
    ensures
        ({
            let (nodes, losses) = children(
                w,
                e.children,
                values,
                depth,
                stack,
                e.children.len() as int,
            );
            let (kind, all) = content(w, e, values, depth, stack);
            &&& nodes.len() == 0 ==> kind is None
            &&& nodes.len() > 0 ==> kind == Some(KindModel::Group(nodes))
            &&& e.name.local == "g"@ || markup::plain(e, "viewBox"@) is None ==> all == losses
            &&& e.name.local != "g"@ && markup::plain(e, "viewBox"@) is Some ==> all.len()
                == losses.len() + 1 && all.skip(1) == losses && all[0].line == e.line
        }),
{
    let (nodes, losses) = children(w, e.children, values, depth, stack, e.children.len() as int);
    let all = content(w, e, values, depth, stack).1;
    if e.name.local == "g"@ || markup::plain(e, "viewBox"@) is None {
        assert(all =~= losses);
    } else {
        assert(all.skip(1) =~= losses);
    }
}

/// An `href` counts in no namespace and in that of XLink, and of several the first.
pub proof fn the_first_href_counts(a: Seq<markup::AttributeModel>, i: int, k: int)
    requires
        0 <= i <= k < a.len(),
        a[k].name.local == "href"@,
        a[k].name.namespace is None || a[k].name.namespace == Some("http://www.w3.org/1999/xlink"@),
        forall|j: int|
            i <= j < k ==> (#[trigger] a[j]).name.local != "href"@ || (a[j].name.namespace is Some
                && a[j].name.namespace != Some("http://www.w3.org/1999/xlink"@)),
    ensures
        href_from(a, i) == Some(a[k].value),
    decreases k - i,
{
    if i < k {
        assert(a[i].name.local != "href"@ || (a[i].name.namespace is Some && a[i].name.namespace
            != Some("http://www.w3.org/1999/xlink"@)));
        the_first_href_counts(a, i + 1, k);
    }
}

} // verus!
