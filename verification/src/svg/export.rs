//! SVG export: a scene written out as an SVG 1.1 document.
//!
//! The output is deliberately plain: absolute path commands, presentation
//! attributes, no CSS, no `xlink`. It has to open everywhere.
//!
//! A [`Page`] is what is written, with every number already as text: how many
//! digits a coordinate gets is decided before it comes here.

use vstd::prelude::*;
use super::document;
use super::path_data;
use super::path_data::Plotted;
use super::path_data::PlottedModel;
use super::style;
use super::style::Style;
use super::transform;
use super::xml;

verus! {

broadcast use vstd::string::group_string_axioms;

/// A colour stop, to be written.
#[derive(Debug, PartialEq, Eq)]
pub struct RampStop {
    pub offset: String,
    pub color: String,
    pub opacity: String,
}

/// A gradient, to be written.
#[derive(Debug, PartialEq, Eq)]
pub struct Ramp {
    pub id: String,
    pub radial: bool,
    /// `x1 y1 x2 y2` of a linear gradient, `cx cy r fx fy` of a radial one.
    pub coords: Vec<String>,
    pub user_space: bool,
    /// The six coefficients of its transform, unless that is the identity.
    pub matrix: Option<Vec<String>>,
    pub spread: String,
    pub stops: Vec<RampStop>,
}

/// A clip, to be written.
#[derive(Debug, PartialEq, Eq)]
pub struct Outline {
    pub id: String,
    pub paths: Vec<Vec<Plotted>>,
}

/// A node, to be written.
pub struct Item {
    pub kind: ItemKind,
    /// The six coefficients of its transform, unless that is the identity.
    pub matrix: Option<Vec<String>>,
    pub style: Style,
    pub clip_path: Option<String>,
}

pub enum ItemKind {
    Group(Vec<Item>),
    Path(Vec<Plotted>),
}

/// A document, to be written.
pub struct Page {
    pub width: Option<String>,
    pub height: Option<String>,
    /// `x y width height`.
    pub view_box: Option<Vec<String>>,
    pub gradients: Vec<Ramp>,
    pub clips: Vec<Outline>,
    pub roots: Vec<Item>,
}

pub struct RampStopModel {
    pub offset: Seq<char>,
    pub color: Seq<char>,
    pub opacity: Seq<char>,
}

pub struct RampModel {
    pub id: Seq<char>,
    pub radial: bool,
    pub coords: Seq<Seq<char>>,
    pub user_space: bool,
    pub matrix: Option<Seq<Seq<char>>>,
    pub spread: Seq<char>,
    pub stops: Seq<RampStopModel>,
}

pub struct OutlineModel {
    pub id: Seq<char>,
    pub paths: Seq<Seq<PlottedModel>>,
}

pub struct ItemModel {
    pub kind: ItemKindModel,
    pub matrix: Option<Seq<Seq<char>>>,
    pub style: Seq<Seq<char>>,
    pub clip: Option<Seq<char>>,
}

pub enum ItemKindModel {
    Group(Seq<ItemModel>),
    Path(Seq<PlottedModel>),
}

pub struct PageModel {
    pub width: Option<Seq<char>>,
    pub height: Option<Seq<char>>,
    pub view_box: Option<Seq<Seq<char>>>,
    pub gradients: Seq<RampModel>,
    pub clips: Seq<OutlineModel>,
    pub roots: Seq<ItemModel>,
}

pub open spec fn optional_texts(t: Option<Vec<String>>) -> Option<Seq<Seq<char>>> {
    match t {
        Some(t) => Some(path_data::texts(t@)),
        None => None,
    }
}

impl View for RampStop {
    type V = RampStopModel;

    open spec fn view(&self) -> RampStopModel {
        RampStopModel { offset: self.offset@, color: self.color@, opacity: self.opacity@ }
    }
}

impl View for Ramp {
    type V = RampModel;

    open spec fn view(&self) -> RampModel {
        RampModel {
            id: self.id@,
            radial: self.radial,
            coords: path_data::texts(self.coords@),
            user_space: self.user_space,
            matrix: optional_texts(self.matrix),
            spread: self.spread@,
            stops: self.stops@.map_values(|s: RampStop| s@),
        }
    }
}

impl View for Outline {
    type V = OutlineModel;

    open spec fn view(&self) -> OutlineModel {
        OutlineModel {
            id: self.id@,
            paths: self.paths@.map_values(|p: Vec<Plotted>| path_data::plots(p@)),
        }
    }
}

/// Items as models, in order.
pub open spec fn items_view(items: Seq<Item>) -> Seq<ItemModel>
    decreases items,
{
    if items.len() == 0 {
        Seq::empty()
    } else {
        items_view(items.drop_last()).push(item_view(items.last()))
    }
}

pub open spec fn item_kind_view(kind: ItemKind) -> ItemKindModel
    decreases kind,
{
    match kind {
        ItemKind::Group(items) => ItemKindModel::Group(items_view(items@)),
        ItemKind::Path(els) => ItemKindModel::Path(path_data::plots(els@)),
    }
}

pub open spec fn item_view(item: Item) -> ItemModel
    decreases item,
{
    ItemModel {
        kind: item_kind_view(item.kind),
        matrix: optional_texts(item.matrix),
        style: item.style@,
        clip: xml::optional_view(item.clip_path),
    }
}

impl View for Item {
    type V = ItemModel;

    open spec fn view(&self) -> ItemModel {
        item_view(*self)
    }
}

/// Clips as models, in order.
pub open spec fn outlines_view(clips: Seq<Outline>) -> Seq<OutlineModel> {
    clips.map_values(|c: Outline| c@)
}

impl View for Page {
    type V = PageModel;

    open spec fn view(&self) -> PageModel {
        PageModel {
            width: xml::optional_view(self.width),
            height: xml::optional_view(self.height),
            view_box: optional_texts(self.view_box),
            gradients: self.gradients@.map_values(|g: Ramp| g@),
            clips: outlines_view(self.clips@),
            roots: items_view(self.roots@),
        }
    }
}

/// A character as it stands in an attribute value.
pub open spec fn escape(c: char) -> Seq<char> {
    if c == '&' {
        "&amp;"@
    } else if c == '<' {
        "&lt;"@
    } else if c == '>' {
        "&gt;"@
    } else if c == '"' {
        "&quot;"@
    } else {
        seq![c]
    }
}

/// A text as it stands in an attribute value.
pub open spec fn escaped(v: Seq<char>) -> Seq<char>
    decreases v.len(),
{
    if v.len() == 0 {
        Seq::empty()
    } else {
        escaped(v.drop_last()) + escape(v.last())
    }
}

/// An attribute, with the space before it.
pub open spec fn attribute(name: Seq<char>, value: Seq<char>) -> Seq<char> {
    " "@ + name + "=\""@ + escaped(value) + "\""@
}

/// An attribute where there is a value for it.
pub open spec fn attribute_if(name: Seq<char>, value: Option<Seq<char>>) -> Seq<char> {
    match value {
        Some(v) => attribute(name, v),
        None => Seq::empty(),
    }
}

pub open spec fn indent(depth: nat) -> Seq<char>
    decreases depth,
{
    if depth == 0 {
        Seq::empty()
    } else {
        indent((depth - 1) as nat) + "  "@
    }
}

/// Whether a reimport computes the value of a property by itself: an inheriting
/// one from its parent, any other one from its initial value.
pub open spec fn implied(values: Seq<Seq<char>>, parent: Seq<Seq<char>>, i: int) -> bool {
    values[i] == (if i < style::INHERITING {
        parent[i]
    } else {
        style::initial(i)
    })
}

/// The presentation attributes that a reimport would not compute by itself, of
/// the first `n` properties.
pub open spec fn style_text(values: Seq<Seq<char>>, parent: Seq<Seq<char>>, n: int) -> Seq<char>
    decreases n,
{
    if n <= 0 {
        Seq::empty()
    } else if implied(values, parent, n - 1) {
        style_text(values, parent, n - 1)
    } else {
        style_text(values, parent, n - 1) + attribute(style::name(n - 1), values[n - 1])
    }
}

/// A transform attribute, where there is a transform.
pub open spec fn matrix_attribute(name: Seq<char>, matrix: Option<Seq<Seq<char>>>) -> Seq<char> {
    match matrix {
        Some(m) => attribute(name, transform::matrix_text(m)),
        None => Seq::empty(),
    }
}

/// Whether a clip has this id.
pub open spec fn is_clip_id(clips: Seq<OutlineModel>, id: Seq<char>) -> bool {
    exists|k: int| 0 <= k < clips.len() && (#[trigger] clips[k]).id == id
}

/// A clip reference. One to nothing would hide the element, so it is not
/// written.
pub open spec fn clip_attribute(clips: Seq<OutlineModel>, clip: Option<Seq<char>>) -> Seq<char> {
    match clip {
        Some(id) => if is_clip_id(clips, id) {
            attribute("clip-path"@, "url(#"@ + id + ")"@)
        } else {
            Seq::empty()
        },
        None => Seq::empty(),
    }
}

/// The attributes of a node behind its geometry.
pub open spec fn item_attributes(
    clips: Seq<OutlineModel>,
    item: ItemModel,
    parent: Seq<Seq<char>>,
) -> Seq<char> {
    matrix_attribute("transform"@, item.matrix) + clip_attribute(clips, item.clip) + style_text(
        item.style,
        parent,
        style::COUNT as int,
    )
}

/// A node and everything under it.
pub open spec fn item_text(
    clips: Seq<OutlineModel>,
    item: ItemModel,
    parent: Seq<Seq<char>>,
    depth: nat,
) -> Seq<char>
    decreases item,
{
    match item.kind {
        ItemKindModel::Path(els) => indent(depth) + "<path"@ + attribute(
            "d"@,
            path_data::written(els),
        ) + item_attributes(clips, item, parent) + "/>\n"@,
        ItemKindModel::Group(items) => indent(depth) + "<g"@ + item_attributes(
            clips,
            item,
            parent,
        ) + ">\n"@ + items_text(clips, items, item.style, depth + 1, items.len() as int) + indent(
            depth,
        ) + "</g>\n"@,
    }
}

/// The first `n` of these nodes.
pub open spec fn items_text(
    clips: Seq<OutlineModel>,
    items: Seq<ItemModel>,
    parent: Seq<Seq<char>>,
    depth: nat,
    n: int,
) -> Seq<char>
    decreases items, n,
{
    if n <= 0 || n > items.len() {
        Seq::empty()
    } else {
        items_text(clips, items, parent, depth, n - 1) + item_text(
            clips,
            items[n - 1],
            parent,
            depth,
        )
    }
}

/// The name of a gradient's geometry attribute.
pub open spec fn coord_name(radial: bool, i: int) -> Seq<char> {
    if radial {
        if i == 0 {
            "cx"@
        } else if i == 1 {
            "cy"@
        } else if i == 2 {
            "r"@
        } else if i == 3 {
            "fx"@
        } else {
            "fy"@
        }
    } else {
        if i == 0 {
            "x1"@
        } else if i == 1 {
            "y1"@
        } else if i == 2 {
            "x2"@
        } else {
            "y2"@
        }
    }
}

pub open spec fn coords_text(radial: bool, coords: Seq<Seq<char>>, n: int) -> Seq<char>
    decreases n,
{
    if n <= 0 {
        Seq::empty()
    } else {
        coords_text(radial, coords, n - 1) + attribute(coord_name(radial, n - 1), coords[n - 1])
    }
}

pub open spec fn stop_text(s: RampStopModel) -> Seq<char> {
    "      <stop"@ + attribute("offset"@, s.offset) + attribute("stop-color"@, s.color) + attribute(
        "stop-opacity"@,
        s.opacity,
    ) + "/>\n"@
}

pub open spec fn stops_text(stops: Seq<RampStopModel>, n: int) -> Seq<char>
    decreases n,
{
    if n <= 0 {
        Seq::empty()
    } else {
        stops_text(stops, n - 1) + stop_text(stops[n - 1])
    }
}

pub open spec fn ramp_name(radial: bool) -> Seq<char> {
    if radial {
        "radialGradient"@
    } else {
        "linearGradient"@
    }
}

pub open spec fn ramp_text(g: RampModel) -> Seq<char> {
    "    <"@ + ramp_name(g.radial) + attribute("id"@, g.id) + coords_text(
        g.radial,
        g.coords,
        g.coords.len() as int,
    ) + (if g.user_space {
        attribute("gradientUnits"@, "userSpaceOnUse"@)
    } else {
        Seq::empty()
    }) + matrix_attribute("gradientTransform"@, g.matrix) + (if g.spread == "pad"@ {
        Seq::empty()
    } else {
        attribute("spreadMethod"@, g.spread)
    }) + ">\n"@ + stops_text(g.stops, g.stops.len() as int) + "    </"@ + ramp_name(g.radial)
        + ">\n"@
}

pub open spec fn ramps_text(g: Seq<RampModel>, n: int) -> Seq<char>
    decreases n,
{
    if n <= 0 {
        Seq::empty()
    } else {
        ramps_text(g, n - 1) + ramp_text(g[n - 1])
    }
}

pub open spec fn paths_text(paths: Seq<Seq<PlottedModel>>, n: int) -> Seq<char>
    decreases n,
{
    if n <= 0 {
        Seq::empty()
    } else {
        paths_text(paths, n - 1) + "      <path"@ + attribute(
            "d"@,
            path_data::written(paths[n - 1]),
        ) + "/>\n"@
    }
}

pub open spec fn outline_text(c: OutlineModel) -> Seq<char> {
    "    <clipPath"@ + attribute("id"@, c.id) + ">\n"@ + paths_text(c.paths, c.paths.len() as int)
        + "    </clipPath>\n"@
}

pub open spec fn outlines_text(c: Seq<OutlineModel>, n: int) -> Seq<char>
    decreases n,
{
    if n <= 0 {
        Seq::empty()
    } else {
        outlines_text(c, n - 1) + outline_text(c[n - 1])
    }
}

/// The definitions, where there are any.
pub open spec fn defs_text(p: PageModel) -> Seq<char> {
    if p.gradients.len() == 0 && p.clips.len() == 0 {
        Seq::empty()
    } else {
        "  <defs>\n"@ + ramps_text(p.gradients, p.gradients.len() as int) + outlines_text(
            p.clips,
            p.clips.len() as int,
        ) + "  </defs>\n"@
    }
}

/// The declaration a document starts with.
pub open spec fn prologue() -> Seq<char> {
    "<?xml version=\"1.0\" encoding=\"UTF-8\"?>\n"@
}

/// The whole document.
pub open spec fn page_text(p: PageModel) -> Seq<char> {
    prologue() + "<svg"@ + attribute("xmlns"@, document::SVG_NS@) + attribute("version"@, "1.1"@)
        + attribute_if("width"@, p.width) + attribute_if("height"@, p.height) + attribute_if(
        "viewBox"@,
        match p.view_box {
            Some(b) => Some(transform::listed(b)),
            None => None,
        },
    ) + ">\n"@ + defs_text(p) + items_text(
        p.clips,
        p.roots,
        style::initials(),
        1,
        p.roots.len() as int,
    ) + "</svg>\n"@
}

proof fn lemma_chain(a: Seq<char>, b: Seq<char>, c: Seq<char>)
    ensures
        a + b + c == a + (b + c),
{
    assert(a + b + c =~= a + (b + c));
}

proof fn lemma_nothing(a: Seq<char>)
    ensures
        a + Seq::<char>::empty() == a,
{
    assert(a + Seq::<char>::empty() =~= a);
}

/// Writes a text as it stands in an attribute value.
fn write_escaped(out: &mut String, value: &str)
    ensures
        final(out)@ == old(out)@ + escaped(value@),
{
    let ghost before = out@;
    let chars = crate::text::to_chars(value);
    let mut i: usize = 0;
    assert(chars@.take(0) =~= Seq::<char>::empty());
    assert(out@ =~= before + escaped(chars@.take(0)));
    while i < chars.len()
        invariant
            i <= chars@.len(),
            out@ == before + escaped(chars@.take(i as int)),
        decreases chars@.len() - i,
    {
        let c = chars[i];
        let ghost so_far = out@;
        if c == '&' {
            out.append("&amp;");
        } else if c == '<' {
            out.append("&lt;");
        } else if c == '>' {
            out.append("&gt;");
        } else if c == '"' {
            out.append("&quot;");
        } else {
            out.push(c);
            assert(out@ =~= so_far + seq![c]);
        }
        proof {
            assert(chars@.take(i + 1).drop_last() =~= chars@.take(i as int));
            lemma_chain(before, escaped(chars@.take(i as int)), escape(c));
        }
        i += 1;
    }
    assert(chars@.take(i as int) =~= value@);
}

/// Writes an attribute, with the space before it.
fn write_attribute(out: &mut String, name: &str, value: &str)
    ensures
        final(out)@ == old(out)@ + attribute(name@, value@),
{
    let ghost before = out@;
    out.append(" ");
    out.append(name);
    out.append("=\"");
    write_escaped(out, value);
    out.append("\"");
    proof {
        lemma_chain(before, " "@, name@);
        lemma_chain(before, " "@ + name@, "=\""@);
        lemma_chain(before, " "@ + name@ + "=\""@, escaped(value@));
        lemma_chain(before, " "@ + name@ + "=\""@ + escaped(value@), "\""@);
    }
}

fn write_attribute_if(out: &mut String, name: &str, value: &Option<String>)
    ensures
        final(out)@ == old(out)@ + attribute_if(name@, xml::optional_view(*value)),
{
    match value {
        Some(v) => write_attribute(out, name, v.as_str()),
        None => {
            proof {
                lemma_nothing(out@);
            }
        },
    }
}

fn write_matrix(out: &mut String, name: &str, matrix: &Option<Vec<String>>)
    ensures
        final(out)@ == old(out)@ + matrix_attribute(name@, optional_texts(*matrix)),
{
    match matrix {
        Some(m) => {
            let value = transform::write_matrix(m);
            write_attribute(out, name, value.as_str());
        },
        None => {
            proof {
                lemma_nothing(out@);
            }
        },
    }
}

/// Writes the presentation attributes that a reimport would not compute by
/// itself.
fn write_style(out: &mut String, values: &Style, parent: &Style)
    requires
        values.wf(),
        parent.wf(),
    ensures
        final(out)@ == old(out)@ + style_text(values@, parent@, style::COUNT as int),
{
    let ghost before = out@;
    let mut i: usize = 0;
    proof {
        lemma_nothing(out@);
    }
    while i < style::COUNT
        invariant
            i <= style::COUNT,
            values.wf(),
            parent.wf(),
            out@ == before + style_text(values@, parent@, i as int),
        decreases style::COUNT - i,
    {
        let value = values.value(i);
        let by_itself = if i < style::INHERITING {
            crate::text::same(value, parent.value(i))
        } else {
            crate::text::same(value, style::initial_value(i))
        };
        if !by_itself {
            write_attribute(out, style::property_name(i), value);
            proof {
                lemma_chain(
                    before,
                    style_text(values@, parent@, i as int),
                    attribute(style::name(i as int), values@[i as int]),
                );
            }
        }
        i += 1;
    }
}

/// Whether a clip has this id.
fn has_clip(clips: &Vec<Outline>, id: &str) -> (r: bool)
    ensures
        r == is_clip_id(outlines_view(clips@), id@),
{
    let ghost all = outlines_view(clips@);
    let mut i: usize = 0;
    while i < clips.len()
        invariant
            i <= clips@.len(),
            all == outlines_view(clips@),
            forall|k: int| 0 <= k < i ==> (#[trigger] all[k]).id != id@,
        decreases clips@.len() - i,
    {
        assert(all[i as int].id == clips@[i as int].id@);
        if crate::text::same(clips[i].id.as_str(), id) {
            return true;
        }
        i += 1;
    }
    false
}

fn write_clip_reference(out: &mut String, clips: &Vec<Outline>, clip: &Option<String>)
    ensures
        final(out)@ == old(out)@ + clip_attribute(
            outlines_view(clips@),
            xml::optional_view(*clip),
        ),
{
    if let Some(id) = clip {
        if has_clip(clips, id.as_str()) {
            let mut value = "url(#".to_owned();
            value.append(id.as_str());
            value.append(")");
            write_attribute(out, "clip-path", value.as_str());
            return;
        }
    }
    proof {
        lemma_nothing(out@);
    }
}

/// Every style of an item and everything under it has all its values.
pub open spec fn item_wf(item: Item) -> bool
    decreases item,
{
    item.style.wf() && match item.kind {
        ItemKind::Group(items) => items_wf(items@),
        ItemKind::Path(_) => true,
    }
}

pub open spec fn items_wf(items: Seq<Item>) -> bool
    decreases items,
{
    if items.len() == 0 {
        true
    } else {
        items_wf(items.drop_last()) && item_wf(items.last())
    }
}

proof fn lemma_items(items: Seq<Item>, i: int)
    requires
        0 <= i < items.len(),
    ensures
        items_view(items).len() == items.len(),
        items_view(items)[i] == item_view(items[i]),
        items_wf(items) ==> item_wf(items[i]),
    decreases items.len(),
{
    lemma_items_len(items);
    lemma_items_len(items.drop_last());
    if i < items.len() - 1 {
        lemma_items(items.drop_last(), i);
    }
}

proof fn lemma_items_len(items: Seq<Item>)
    ensures
        items_view(items).len() == items.len(),
    decreases items.len(),
{
    if items.len() > 0 {
        lemma_items_len(items.drop_last());
    }
}

fn write_item_attributes(out: &mut String, clips: &Vec<Outline>, item: &Item, parent: &Style)
    requires
        item.style.wf(),
        parent.wf(),
    ensures
        final(out)@ == old(out)@ + item_attributes(
            outlines_view(clips@),
            item@,
            parent@,
        ),
{
    let ghost before = out@;
    let ghost all = outlines_view(clips@);
    write_matrix(out, "transform", &item.matrix);
    write_clip_reference(out, clips, &item.clip_path);
    write_style(out, &item.style, parent);
    proof {
        let a = matrix_attribute("transform"@, item@.matrix);
        let b = clip_attribute(all, item@.clip);
        let c = style_text(item@.style, parent@, style::COUNT as int);
        lemma_chain(before, a, b);
        lemma_chain(before, a + b, c);
    }
}

/// Writes a node and everything under it.
fn write_item(
    out: &mut String,
    clips: &Vec<Outline>,
    item: &Item,
    parent: &Style,
    pad: &str,
    depth: Ghost<nat>,
)
    requires
        item_wf(*item),
        parent.wf(),
        pad@ == indent(depth@),
    ensures
        final(out)@ == old(out)@ + item_text(outlines_view(clips@), item@, parent@, depth@),
    decreases item,
{
    let ghost before = out@;
    let ghost all = outlines_view(clips@);
    let ghost ind = indent(depth@);
    let ghost rest = item_attributes(all, item@, parent@);
    out.append(pad);
    match &item.kind {
        ItemKind::Path(els) => {
            out.append("<path");
            let d = path_data::write(els.as_slice());
            write_attribute(out, "d", d.as_str());
            write_item_attributes(out, clips, item, parent);
            out.append("/>\n");
            proof {
                let a = attribute("d"@, path_data::written(path_data::plots(els@)));
                lemma_chain(before, ind, "<path"@);
                lemma_chain(before, ind + "<path"@, a);
                lemma_chain(before, ind + "<path"@ + a, rest);
                lemma_chain(before, ind + "<path"@ + a + rest, "/>\n"@);
            }
        },
        ItemKind::Group(items) => {
            out.append("<g");
            write_item_attributes(out, clips, item, parent);
            out.append(">\n");
            proof {
                lemma_items_len(items@);
            }
            let mut deeper = pad.to_owned();
            deeper.append("  ");
            write_items(out, clips, items, &item.style, deeper.as_str(), Ghost(depth@ + 1));
            out.append(pad);
            out.append("</g>\n");
            proof {
                let a = items_text(
                    all,
                    items_view(items@),
                    item@.style,
                    depth@ + 1,
                    items@.len() as int,
                );
                lemma_chain(before, ind, "<g"@);
                lemma_chain(before, ind + "<g"@, rest);
                lemma_chain(before, ind + "<g"@ + rest, ">\n"@);
                lemma_chain(before, ind + "<g"@ + rest + ">\n"@, a);
                lemma_chain(before, ind + "<g"@ + rest + ">\n"@ + a, ind);
                lemma_chain(before, ind + "<g"@ + rest + ">\n"@ + a + ind, "</g>\n"@);
            }
        },
    }
}

/// Writes nodes, one after the other.
fn write_items(
    out: &mut String,
    clips: &Vec<Outline>,
    items: &Vec<Item>,
    parent: &Style,
    pad: &str,
    depth: Ghost<nat>,
)
    requires
        items_wf(items@),
        parent.wf(),
        pad@ == indent(depth@),
    ensures
        final(out)@ == old(out)@ + items_text(
            outlines_view(clips@),
            items_view(items@),
            parent@,
            depth@,
            items@.len() as int,
        ),
    decreases items,
{
    let ghost before = out@;
    let ghost all = outlines_view(clips@);
    let ghost models = items_view(items@);
    let mut i: usize = 0;
    proof {
        lemma_nothing(out@);
        lemma_items_len(items@);
    }
    while i < items.len()
        invariant
            i <= items@.len(),
            items_wf(items@),
            parent.wf(),
            pad@ == indent(depth@),
            all == outlines_view(clips@),
            models == items_view(items@),
            models.len() == items@.len(),
            out@ == before + items_text(all, models, parent@, depth@, i as int),
        decreases items@.len() - i,
    {
        proof {
            lemma_items(items@, i as int);
            assert(decreases_to!(items => items@[i as int]));
        }
        write_item(out, clips, &items[i], parent, pad, depth);
        proof {
            lemma_chain(
                before,
                items_text(all, models, parent@, depth@, i as int),
                item_text(all, models[i as int], parent@, depth@),
            );
        }
        i += 1;
    }
}

fn coordinate_name(radial: bool, i: usize) -> (r: &'static str)
    ensures
        r@ == coord_name(radial, i as int),
{
    if radial {
        match i {
            0 => "cx",
            1 => "cy",
            2 => "r",
            3 => "fx",
            _ => "fy",
        }
    } else {
        match i {
            0 => "x1",
            1 => "y1",
            2 => "x2",
            _ => "y2",
        }
    }
}

fn write_coords(out: &mut String, radial: bool, coords: &Vec<String>)
    ensures
        final(out)@ == old(out)@ + coords_text(
            radial,
            path_data::texts(coords@),
            coords@.len() as int,
        ),
{
    let ghost before = out@;
    let ghost all = path_data::texts(coords@);
    let mut i: usize = 0;
    proof {
        lemma_nothing(out@);
    }
    while i < coords.len()
        invariant
            i <= coords@.len(),
            all == path_data::texts(coords@),
            out@ == before + coords_text(radial, all, i as int),
        decreases coords@.len() - i,
    {
        assert(all[i as int] == coords@[i as int]@);
        write_attribute(out, coordinate_name(radial, i), coords[i].as_str());
        proof {
            lemma_chain(
                before,
                coords_text(radial, all, i as int),
                attribute(coord_name(radial, i as int), all[i as int]),
            );
        }
        i += 1;
    }
}

fn write_stop(out: &mut String, s: &RampStop)
    ensures
        final(out)@ == old(out)@ + stop_text(s@),
{
    let ghost before = out@;
    out.append("      <stop");
    write_attribute(out, "offset", s.offset.as_str());
    write_attribute(out, "stop-color", s.color.as_str());
    write_attribute(out, "stop-opacity", s.opacity.as_str());
    out.append("/>\n");
    proof {
        let a = "      <stop"@;
        let b = attribute("offset"@, s@.offset);
        let c = attribute("stop-color"@, s@.color);
        let d = attribute("stop-opacity"@, s@.opacity);
        lemma_chain(before, a, b);
        lemma_chain(before, a + b, c);
        lemma_chain(before, a + b + c, d);
        lemma_chain(before, a + b + c + d, "/>\n"@);
    }
}

fn write_stops(out: &mut String, stops: &Vec<RampStop>)
    ensures
        final(out)@ == old(out)@ + stops_text(
            stops@.map_values(|s: RampStop| s@),
            stops@.len() as int,
        ),
{
    let ghost before = out@;
    let ghost all = stops@.map_values(|s: RampStop| s@);
    let mut i: usize = 0;
    proof {
        lemma_nothing(out@);
    }
    while i < stops.len()
        invariant
            i <= stops@.len(),
            all == stops@.map_values(|s: RampStop| s@),
            out@ == before + stops_text(all, i as int),
        decreases stops@.len() - i,
    {
        write_stop(out, &stops[i]);
        proof {
            assert(all[i as int] == stops@[i as int]@);
            lemma_chain(before, stops_text(all, i as int), stop_text(all[i as int]));
        }
        i += 1;
    }
}

/// Writes a gradient.
fn write_ramp(out: &mut String, g: &Ramp)
    ensures
        final(out)@ == old(out)@ + ramp_text(g@),
{
    let ghost before = out@;
    let name = if g.radial {
        "radialGradient"
    } else {
        "linearGradient"
    };
    out.append("    <");
    out.append(name);
    write_attribute(out, "id", g.id.as_str());
    write_coords(out, g.radial, &g.coords);
    let ghost units = if g.user_space {
        attribute("gradientUnits"@, "userSpaceOnUse"@)
    } else {
        Seq::empty()
    };
    proof {
        lemma_nothing(out@);
    }
    if g.user_space {
        write_attribute(out, "gradientUnits", "userSpaceOnUse");
    }
    write_matrix(out, "gradientTransform", &g.matrix);
    let ghost spread = if g@.spread == "pad"@ {
        Seq::empty()
    } else {
        attribute("spreadMethod"@, g@.spread)
    };
    proof {
        lemma_nothing(out@);
    }
    if !crate::text::same(g.spread.as_str(), "pad") {
        write_attribute(out, "spreadMethod", g.spread.as_str());
    }
    out.append(">\n");
    write_stops(out, &g.stops);
    out.append("    </");
    out.append(name);
    out.append(">\n");
    proof {
        let a = "    <"@;
        let b = ramp_name(g.radial);
        let c = attribute("id"@, g@.id);
        let d = coords_text(g.radial, g@.coords, g@.coords.len() as int);
        let e = matrix_attribute("gradientTransform"@, g@.matrix);
        let f = stops_text(g@.stops, g@.stops.len() as int);
        lemma_chain(before, a, b);
        lemma_chain(before, a + b, c);
        lemma_chain(before, a + b + c, d);
        lemma_chain(before, a + b + c + d, units);
        lemma_chain(before, a + b + c + d + units, e);
        lemma_chain(before, a + b + c + d + units + e, spread);
        lemma_chain(before, a + b + c + d + units + e + spread, ">\n"@);
        lemma_chain(before, a + b + c + d + units + e + spread + ">\n"@, f);
        lemma_chain(before, a + b + c + d + units + e + spread + ">\n"@ + f, "    </"@);
        lemma_chain(before, a + b + c + d + units + e + spread + ">\n"@ + f + "    </"@, b);
        lemma_chain(
            before,
            a + b + c + d + units + e + spread + ">\n"@ + f + "    </"@ + b,
            ">\n"@,
        );
    }
}

/// Writes a clip.
fn write_outline(out: &mut String, c: &Outline)
    ensures
        final(out)@ == old(out)@ + outline_text(c@),
{
    let ghost before = out@;
    out.append("    <clipPath");
    write_attribute(out, "id", c.id.as_str());
    out.append(">\n");
    let ghost head = out@;
    let ghost all = c@.paths;
    let mut i: usize = 0;
    proof {
        lemma_nothing(out@);
    }
    while i < c.paths.len()
        invariant
            i <= c.paths@.len(),
            all == c@.paths,
            out@ == head + paths_text(all, i as int),
        decreases c.paths@.len() - i,
    {
        out.append("      <path");
        let d = path_data::write(c.paths[i].as_slice());
        write_attribute(out, "d", d.as_str());
        out.append("/>\n");
        proof {
            assert(all[i as int] == path_data::plots(c.paths@[i as int]@));
            let t = paths_text(all, i as int);
            let a = attribute("d"@, path_data::written(all[i as int]));
            lemma_chain(head, t, "      <path"@);
            lemma_chain(head, t + "      <path"@, a);
            lemma_chain(head, t + "      <path"@ + a, "/>\n"@);
        }
        i += 1;
    }
    out.append("    </clipPath>\n");
    proof {
        let a = attribute("id"@, c@.id);
        let t = paths_text(all, all.len() as int);
        lemma_chain(before, "    <clipPath"@, a);
        lemma_chain(before, "    <clipPath"@ + a, ">\n"@);
        lemma_chain(before, "    <clipPath"@ + a + ">\n"@, t);
        lemma_chain(before, "    <clipPath"@ + a + ">\n"@ + t, "    </clipPath>\n"@);
    }
}

/// Writes the definitions.
fn write_defs(out: &mut String, p: &Page)
    ensures
        final(out)@ == old(out)@ + defs_text(p@),
{
    let ghost before = out@;
    if p.gradients.len() == 0 && p.clips.len() == 0 {
        proof {
            lemma_nothing(out@);
        }
        return;
    }
    out.append("  <defs>\n");
    let ghost head = out@;
    let ghost ramps = p@.gradients;
    let mut i: usize = 0;
    proof {
        lemma_nothing(out@);
    }
    while i < p.gradients.len()
        invariant
            i <= p.gradients@.len(),
            ramps == p@.gradients,
            out@ == head + ramps_text(ramps, i as int),
        decreases p.gradients@.len() - i,
    {
        write_ramp(out, &p.gradients[i]);
        proof {
            assert(ramps[i as int] == p.gradients@[i as int]@);
            lemma_chain(head, ramps_text(ramps, i as int), ramp_text(ramps[i as int]));
        }
        i += 1;
    }
    let ghost mid = out@;
    let ghost all = p@.clips;
    i = 0;
    proof {
        lemma_nothing(out@);
    }
    while i < p.clips.len()
        invariant
            i <= p.clips@.len(),
            all == p@.clips,
            out@ == mid + outlines_text(all, i as int),
        decreases p.clips@.len() - i,
    {
        write_outline(out, &p.clips[i]);
        proof {
            assert(all[i as int] == p.clips@[i as int]@);
            lemma_chain(mid, outlines_text(all, i as int), outline_text(all[i as int]));
        }
        i += 1;
    }
    out.append("  </defs>\n");
    proof {
        let a = ramps_text(ramps, ramps.len() as int);
        let b = outlines_text(all, all.len() as int);
        lemma_chain(before, "  <defs>\n"@, a);
        lemma_chain(before, "  <defs>\n"@ + a, b);
        lemma_chain(before, "  <defs>\n"@ + a + b, "  </defs>\n"@);
    }
}

/// Write a page as an SVG 1.1 document.
pub fn write(p: &Page) -> (out: String)
    requires
        items_wf(p.roots@),
    ensures
        out@ == page_text(p@),
{
    let mut out = "<?xml version=\"1.0\" encoding=\"UTF-8\"?>\n".to_owned();
    out.append("<svg");
    write_attribute(&mut out, "xmlns", document::SVG_NS);
    write_attribute(&mut out, "version", "1.1");
    write_attribute_if(&mut out, "width", &p.width);
    write_attribute_if(&mut out, "height", &p.height);
    let list = match &p.view_box {
        Some(b) => Some(transform::write_list(b)),
        None => None,
    };
    write_attribute_if(&mut out, "viewBox", &list);
    out.append(">\n");
    write_defs(&mut out, p);
    let initial = Style::initial();
    proof {
        reveal_with_fuel(indent, 2);
        lemma_items_len(p.roots@);
        assert("  "@ =~= Seq::<char>::empty() + "  "@);
    }
    write_items(&mut out, &p.clips, &p.roots, &initial, "  ", Ghost(1));
    out.append("</svg>\n");
    out
}

/// What is escaped holds no character that would end a value or begin a tag, and
/// every character that needs no escape as it is.
pub proof fn an_escaped_value_ends_nowhere(v: Seq<char>, k: int)
    ensures
        0 <= k < escaped(v).len() ==> escaped(v)[k] != '<' && escaped(v)[k] != '>' && escaped(v)[k]
            != '"',
        escaped(v).len() >= v.len(),
        (forall|i: int|
            0 <= i < v.len() ==> (#[trigger] v[i]) != '&' && v[i] != '<' && v[i] != '>' && v[i]
                != '"') ==> escaped(v) == v,
        escape('&') == seq!['&', 'a', 'm', 'p', ';'],
        escape('<') == seq!['&', 'l', 't', ';'],
        escape('>') == seq!['&', 'g', 't', ';'],
        escape('"') == seq!['&', 'q', 'u', 'o', 't', ';'],
    decreases v.len(),
{
    reveal_strlit("&amp;");
    reveal_strlit("&lt;");
    reveal_strlit("&gt;");
    reveal_strlit("&quot;");
    assert("&amp;"@ =~= seq!['&', 'a', 'm', 'p', ';']);
    assert("&lt;"@ =~= seq!['&', 'l', 't', ';']);
    assert("&gt;"@ =~= seq!['&', 'g', 't', ';']);
    assert("&quot;"@ =~= seq!['&', 'q', 'u', 'o', 't', ';']);
    if v.len() > 0 {
        let front = v.drop_last();
        an_escaped_value_ends_nowhere(front, k);
        let tail = escape(v.last());
        if 0 <= k < escaped(v).len() {
            if k >= escaped(front).len() {
                assert(escaped(v)[k] == tail[k - escaped(front).len()]);
            } else {
                assert(escaped(v)[k] == escaped(front)[k]);
            }
        }
        if forall|i: int|
            0 <= i < v.len() ==> (#[trigger] v[i]) != '&' && v[i] != '<' && v[i] != '>' && v[i]
                != '"' {
            assert forall|i: int| 0 <= i < front.len() implies (#[trigger] front[i]) != '&'
                && front[i] != '<' && front[i] != '>' && front[i] != '"' by {
                assert(front[i] == v[i]);
            }
            assert(v[v.len() - 1] == v.last());
            assert(escaped(v) =~= v);
        }
    } else {
        assert(escaped(v) =~= v);
    }
}

/// A property is written where the reader could not know it: where it differs from
/// the parent's of one that inherits, or from the initial value of any other.
pub proof fn only_what_is_not_implied_is_written(
    values: Seq<Seq<char>>,
    parent: Seq<Seq<char>>,
    n: int,
)
    requires
        0 < n <= style::COUNT,
    ensures
        ({
            let known = if n - 1 < 13 {
                parent[n - 1]
            } else {
                style::initials()[n - 1]
            };
            &&& values[n - 1] == known ==> style_text(values, parent, n) == style_text(
                values,
                parent,
                n - 1,
            )
            &&& values[n - 1] != known ==> style_text(values, parent, n) == style_text(
                values,
                parent,
                n - 1,
            ) + attribute(style::name(n - 1), values[n - 1])
        }),
{
}

/// A clip is referred to only where it is defined.
pub proof fn only_a_defined_clip_is_referred_to(clips: Seq<OutlineModel>, id: Seq<char>, k: int)
    ensures
        clip_attribute(clips, None).len() == 0,
        0 <= k < clips.len() && clips[k].id == id ==> clip_attribute(clips, Some(id)) == attribute(
            "clip-path"@,
            "url(#"@ + id + ")"@,
        ),
        (forall|j: int| 0 <= j < clips.len() ==> (#[trigger] clips[j]).id != id) ==> clip_attribute(
            clips,
            Some(id),
        ).len() == 0,
{
}

/// Each level is indented by two spaces more.
pub proof fn each_level_is_indented_by_two(depth: nat, k: int)
    ensures
        indent(depth).len() == 2 * depth,
        0 <= k < 2 * depth ==> indent(depth)[k] == ' ',
    decreases depth,
{
    reveal_strlit("  ");
    if depth > 0 {
        each_level_is_indented_by_two((depth - 1) as nat, k);
    }
}

} // verus!
