//! A page as elements: which elements and attributes its text is made of.

use vstd::prelude::*;
use super::document;
use super::export;
use super::export::ItemKindModel;
use super::export::ItemModel;
use super::export::OutlineModel;
use super::export::PageModel;
use super::export::RampModel;
use super::export::RampStopModel;
use super::path_data;
use super::path_data::PlottedModel;
use super::style;
use super::tag;
use super::tag::Pair;
use super::tag::Tag;
use super::transform;

verus! {

broadcast use vstd::string::group_string_axioms;

/// An attribute where there is a value for it.
pub open spec fn optional(name: Seq<char>, value: Option<Seq<char>>) -> Seq<Pair> {
    match value {
        Some(v) => seq![(name, v)],
        None => Seq::empty(),
    }
}

/// The presentation attributes that are written of the first `n` properties.
pub open spec fn style_pairs(values: Seq<Seq<char>>, parent: Seq<Seq<char>>, n: int) -> Seq<Pair>
    decreases n,
{
    if n <= 0 {
        Seq::empty()
    } else if export::implied(values, parent, n - 1) {
        style_pairs(values, parent, n - 1)
    } else {
        style_pairs(values, parent, n - 1).push((style::name(n - 1), values[n - 1]))
    }
}

/// A transform as it is written.
pub open spec fn matrix_value(matrix: Option<Seq<Seq<char>>>) -> Option<Seq<char>> {
    match matrix {
        Some(m) => Some(transform::matrix_text(m)),
        None => None,
    }
}

/// The clip of a node, where the page has it.
pub open spec fn kept_clip(clips: Seq<OutlineModel>, clip: Option<Seq<char>>) -> Option<Seq<char>> {
    match clip {
        Some(id) => if export::is_clip_id(clips, id) {
            Some(id)
        } else {
            None
        },
        None => None,
    }
}

/// A reference as it is written.
pub open spec fn url_value(id: Option<Seq<char>>) -> Option<Seq<char>> {
    match id {
        Some(id) => Some("url(#"@ + id + ")"@),
        None => None,
    }
}

/// The attributes of a node behind its geometry.
pub open spec fn item_pairs(
    clips: Seq<OutlineModel>,
    item: ItemModel,
    parent: Seq<Seq<char>>,
) -> Seq<Pair> {
    optional("transform"@, matrix_value(item.matrix)) + optional(
        "clip-path"@,
        url_value(kept_clip(clips, item.clip)),
    ) + style_pairs(item.style, parent, style::COUNT as int)
}

/// A node and everything under it, as an element.
pub open spec fn item_tag(
    clips: Seq<OutlineModel>,
    item: ItemModel,
    parent: Seq<Seq<char>>,
) -> Tag
    decreases item,
{
    match item.kind {
        ItemKindModel::Path(els) => Tag {
            name: "path"@,
            attributes: seq![("d"@, path_data::written(els))] + item_pairs(clips, item, parent),
            children: Seq::empty(),
            leaf: true,
        },
        ItemKindModel::Group(items) => Tag {
            name: "g"@,
            attributes: item_pairs(clips, item, parent),
            children: item_tags(clips, items, item.style, items.len() as int),
            leaf: false,
        },
    }
}

/// The first `n` of these nodes, as elements.
pub open spec fn item_tags(
    clips: Seq<OutlineModel>,
    items: Seq<ItemModel>,
    parent: Seq<Seq<char>>,
    n: int,
) -> Seq<Tag>
    decreases items, n,
{
    if n <= 0 || n > items.len() {
        Seq::empty()
    } else {
        item_tags(clips, items, parent, n - 1).push(item_tag(clips, items[n - 1], parent))
    }
}

/// A colour stop, as an element.
pub open spec fn stop_tag(s: RampStopModel) -> Tag {
    Tag {
        name: "stop"@,
        attributes: seq![
            ("offset"@, s.offset),
            ("stop-color"@, s.color),
            ("stop-opacity"@, s.opacity),
        ],
        children: Seq::empty(),
        leaf: true,
    }
}

pub open spec fn stop_tags(stops: Seq<RampStopModel>) -> Seq<Tag> {
    Seq::new(stops.len(), |k: int| stop_tag(stops[k]))
}

/// The first `n` geometry attributes of a gradient.
pub open spec fn coord_pairs(radial: bool, coords: Seq<Seq<char>>, n: int) -> Seq<Pair>
    decreases n,
{
    if n <= 0 {
        Seq::empty()
    } else {
        coord_pairs(radial, coords, n - 1).push((export::coord_name(radial, n - 1), coords[n - 1]))
    }
}

/// The attributes of a gradient behind its geometry.
pub open spec fn ramp_pairs(g: RampModel) -> Seq<Pair> {
    (if g.user_space {
        seq![("gradientUnits"@, "userSpaceOnUse"@)]
    } else {
        Seq::empty()
    }) + optional("gradientTransform"@, matrix_value(g.matrix)) + (if g.spread == "pad"@ {
        Seq::empty()
    } else {
        seq![("spreadMethod"@, g.spread)]
    })
}

/// A gradient, as an element.
pub open spec fn ramp_tag(g: RampModel) -> Tag {
    Tag {
        name: export::ramp_name(g.radial),
        attributes: seq![("id"@, g.id)] + coord_pairs(g.radial, g.coords, g.coords.len() as int)
            + ramp_pairs(g),
        children: stop_tags(g.stops),
        leaf: false,
    }
}

/// A shape of a clip, as an element.
pub open spec fn path_tag(els: Seq<PlottedModel>) -> Tag {
    Tag {
        name: "path"@,
        attributes: seq![("d"@, path_data::written(els))],
        children: Seq::empty(),
        leaf: true,
    }
}

/// A clip, as an element.
pub open spec fn outline_tag(c: OutlineModel) -> Tag {
    Tag {
        name: "clipPath"@,
        attributes: seq![("id"@, c.id)],
        children: Seq::new(c.paths.len(), |k: int| path_tag(c.paths[k])),
        leaf: false,
    }
}

/// The definitions of a page, as elements.
pub open spec fn definition_tags(p: PageModel) -> Seq<Tag> {
    Seq::new(p.gradients.len(), |k: int| ramp_tag(p.gradients[k])) + Seq::new(
        p.clips.len(),
        |k: int| outline_tag(p.clips[k]),
    )
}

/// The element around the definitions, where there are any.
pub open spec fn defs_tags(p: PageModel) -> Seq<Tag> {
    if p.gradients.len() == 0 && p.clips.len() == 0 {
        Seq::empty()
    } else {
        seq![
            Tag {
                name: "defs"@,
                attributes: Seq::empty(),
                children: definition_tags(p),
                leaf: false,
            },
        ]
    }
}

/// A page, as an element.
pub open spec fn page_tag(p: PageModel) -> Tag {
    Tag {
        name: "svg"@,
        attributes: seq![("version"@, "1.1"@)] + optional("width"@, p.width) + optional(
            "height"@,
            p.height,
        ) + optional(
            "viewBox"@,
            match p.view_box {
                Some(b) => Some(transform::listed(b)),
                None => None,
            },
        ),
        children: defs_tags(p) + item_tags(
            p.clips,
            p.roots,
            style::initials(),
            p.roots.len() as int,
        ),
        leaf: false,
    }
}

proof fn lemma_attributes_add(a: Seq<Pair>, b: Seq<Pair>)
    ensures
        tag::attributes_text(a + b) == tag::attributes_text(a) + tag::attributes_text(b),
    decreases b.len(),
{
    if b.len() == 0 {
        assert(a + b =~= a);
        assert(tag::attributes_text(a) + Seq::<char>::empty() =~= tag::attributes_text(a));
    } else {
        assert((a + b).drop_last() =~= a + b.drop_last());
        lemma_attributes_add(a, b.drop_last());
        assert(tag::attributes_text(a + b) =~= tag::attributes_text(a) + tag::attributes_text(b));
    }
}

proof fn lemma_attributes_one(name: Seq<char>, value: Seq<char>)
    ensures
        tag::attributes_text(seq![(name, value)]) == export::attribute(name, value),
{
    let a: Seq<Pair> = seq![(name, value)];
    assert(a.drop_last() =~= Seq::<Pair>::empty());
    reveal_with_fuel(tag::attributes_text, 2);
    assert(tag::attributes_text(a) =~= export::attribute(name, value));
}

proof fn lemma_attributes_optional(name: Seq<char>, value: Option<Seq<char>>)
    ensures
        tag::attributes_text(optional(name, value)) == export::attribute_if(name, value),
{
    if let Some(v) = value {
        lemma_attributes_one(name, v);
    }
}

proof fn lemma_style_text(values: Seq<Seq<char>>, parent: Seq<Seq<char>>, n: int)
    ensures
        tag::attributes_text(style_pairs(values, parent, n)) == export::style_text(
            values,
            parent,
            n,
        ),
    decreases n,
{
    if n > 0 {
        lemma_style_text(values, parent, n - 1);
        let a = style_pairs(values, parent, n - 1);
        let x = (style::name(n - 1), values[n - 1]);
        assert(a.push(x).drop_last() =~= a);
    }
}

proof fn lemma_item_attributes(clips: Seq<OutlineModel>, item: ItemModel, parent: Seq<Seq<char>>)
    ensures
        tag::attributes_text(item_pairs(clips, item, parent)) == export::item_attributes(
            clips,
            item,
            parent,
        ),
{
    let a = optional("transform"@, matrix_value(item.matrix));
    let b = optional("clip-path"@, url_value(kept_clip(clips, item.clip)));
    let c = style_pairs(item.style, parent, style::COUNT as int);
    lemma_attributes_optional("transform"@, matrix_value(item.matrix));
    lemma_attributes_optional("clip-path"@, url_value(kept_clip(clips, item.clip)));
    lemma_style_text(item.style, parent, style::COUNT as int);
    lemma_attributes_add(a, b);
    lemma_attributes_add(a + b, c);
}

pub proof fn lemma_item_tags(
    clips: Seq<OutlineModel>,
    items: Seq<ItemModel>,
    parent: Seq<Seq<char>>,
    n: int,
)
    requires
        0 <= n <= items.len(),
    ensures
        item_tags(clips, items, parent, n).len() == n,
        forall|k: int|
            0 <= k < n ==> (#[trigger] item_tags(clips, items, parent, n)[k]) == item_tag(
                clips,
                items[k],
                parent,
            ),
    decreases n,
{
    if n > 0 {
        lemma_item_tags(clips, items, parent, n - 1);
    }
}

/// How an element without children is put together.
proof fn lemma_leaf(
    pad: Seq<char>,
    open: Seq<char>,
    name: Seq<char>,
    a: Seq<char>,
    b: Seq<char>,
    close: Seq<char>,
    end: Seq<char>,
)
    ensures
        pad + (open + name) + a + b + (close + end) == pad + (open + name + (a + b) + close) + end,
{
    assert(pad + (open + name) + a + b + (close + end) =~= pad + (open + name + (a + b) + close)
        + end);
}

/// How an element with children is put together.
proof fn lemma_container(
    pad: Seq<char>,
    open: Seq<char>,
    name: Seq<char>,
    a: Seq<char>,
    gt: Seq<char>,
    end: Seq<char>,
    kids: Seq<char>,
    shut: Seq<char>,
)
    ensures
        pad + (open + name) + a + (gt + end) + kids + pad + (shut + name + gt + end) == pad + (open
            + name + a + (gt + (end + kids + (pad + shut + name + gt)))) + end,
{
    let left = pad + (open + name) + a + (gt + end);
    let right = pad + shut + name + gt;
    assert(left + kids + pad + (shut + name + gt + end) =~= left + kids + right + end);
    let inner = end + kids + right;
    assert(left + kids + right =~= pad + (open + name) + a + gt + inner);
    assert(pad + (open + name) + a + gt + inner =~= pad + (open + name + a + (gt + inner)));
}

proof fn lemma_item_text(
    clips: Seq<OutlineModel>,
    item: ItemModel,
    parent: Seq<Seq<char>>,
    depth: nat,
)
    ensures
        export::item_text(clips, item, parent, depth) == export::indent(depth) + tag::body(
            item_tag(clips, item, parent),
            depth,
        ) + "\n"@,
    decreases item, 0int,
{
    let pad = export::indent(depth);
    let attrs = export::item_attributes(clips, item, parent);
    lemma_item_attributes(clips, item, parent);
    reveal_strlit("<");
    reveal_strlit("</");
    reveal_strlit("\n");
    reveal_strlit(">");
    reveal_strlit(">\n");
    reveal_strlit("/>");
    reveal_strlit("/>\n");
    match item.kind {
        ItemKindModel::Path(els) => {
            let d = path_data::written(els);
            lemma_attributes_one("d"@, d);
            lemma_attributes_add(seq![("d"@, d)], item_pairs(clips, item, parent));
            reveal_strlit("path");
            reveal_strlit("<path");
            assert("<path"@ =~= "<"@ + "path"@);
            assert("/>\n"@ =~= "/>"@ + "\n"@);
            lemma_leaf(
                pad,
                "<"@,
                "path"@,
                export::attribute("d"@, d),
                attrs,
                "/>"@,
                "\n"@,
            );
        },
        ItemKindModel::Group(items) => {
            let n = items.len() as int;
            lemma_items_text(clips, items, item.style, depth + 1, n);
            lemma_item_tags(clips, items, item.style, n);
            reveal_strlit("g");
            reveal_strlit("<g");
            reveal_strlit("</g>\n");
            assert("<g"@ =~= "<"@ + "g"@);
            assert("</g>\n"@ =~= "</"@ + "g"@ + ">"@ + "\n"@);
            assert(">\n"@ =~= ">"@ + "\n"@);
            let kids = export::items_text(clips, items, item.style, depth + 1, n);
            lemma_container(pad, "<"@, "g"@, attrs, ">"@, "\n"@, kids, "</"@);
        },
    }
}

proof fn lemma_items_text(
    clips: Seq<OutlineModel>,
    items: Seq<ItemModel>,
    parent: Seq<Seq<char>>,
    depth: nat,
    n: int,
)
    requires
        0 <= n <= items.len(),
    ensures
        export::items_text(clips, items, parent, depth, n) == tag::lines(
            item_tags(clips, items, parent, items.len() as int),
            depth,
            n,
        ),
    decreases items, n,
{
    let m = items.len() as int;
    lemma_item_tags(clips, items, parent, m);
    if n > 0 {
        lemma_items_text(clips, items, parent, depth, n - 1);
        lemma_item_text(clips, items[n - 1], parent, depth);
        let ts = item_tags(clips, items, parent, m);
        assert(ts[n - 1] == item_tag(clips, items[n - 1], parent));
        assert(export::items_text(clips, items, parent, depth, n) =~= tag::lines(ts, depth, n));
    }
}

proof fn lemma_indents()
    ensures
        export::indent(0) == Seq::<char>::empty(),
        export::indent(1) == "  "@,
        export::indent(2) == "    "@,
        export::indent(3) == "      "@,
{
    reveal_strlit("  ");
    reveal_strlit("    ");
    reveal_strlit("      ");
    assert(export::indent(0) =~= Seq::<char>::empty());
    assert(export::indent(1) =~= "  "@);
    assert(export::indent(2) =~= "    "@);
    assert(export::indent(3) =~= "      "@);
}

proof fn lemma_stop_text(s: RampStopModel)
    ensures
        export::stop_text(s) == export::indent(3) + tag::body(stop_tag(s), 3) + "\n"@,
{
    lemma_indents();
    let x: Pair = ("offset"@, s.offset);
    let y: Pair = ("stop-color"@, s.color);
    let z: Pair = ("stop-opacity"@, s.opacity);
    lemma_attributes_one(x.0, x.1);
    lemma_attributes_one(y.0, y.1);
    lemma_attributes_one(z.0, z.1);
    lemma_attributes_add(seq![x], seq![y]);
    lemma_attributes_add(seq![x] + seq![y], seq![z]);
    assert(seq![x] + seq![y] + seq![z] =~= stop_tag(s).attributes);
    reveal_strlit("      ");
    reveal_strlit("<");
    reveal_strlit("stop");
    reveal_strlit("      <stop");
    reveal_strlit("/>");
    reveal_strlit("\n");
    reveal_strlit("/>\n");
    assert("      <stop"@ =~= "      "@ + "<"@ + "stop"@);
    assert("/>\n"@ =~= "/>"@ + "\n"@);
    assert(export::stop_text(s) =~= export::indent(3) + tag::body(stop_tag(s), 3) + "\n"@);
}

proof fn lemma_stops_text(stops: Seq<RampStopModel>, n: int)
    requires
        0 <= n <= stops.len(),
    ensures
        export::stops_text(stops, n) == tag::lines(stop_tags(stops), 3, n),
    decreases n,
{
    if n > 0 {
        lemma_stops_text(stops, n - 1);
        lemma_stop_text(stops[n - 1]);
        assert(stop_tags(stops)[n - 1] == stop_tag(stops[n - 1]));
        assert(export::stops_text(stops, n) =~= tag::lines(stop_tags(stops), 3, n));
    }
}

proof fn lemma_coords_text(radial: bool, coords: Seq<Seq<char>>, n: int)
    ensures
        tag::attributes_text(coord_pairs(radial, coords, n)) == export::coords_text(
            radial,
            coords,
            n,
        ),
    decreases n,
{
    if n > 0 {
        lemma_coords_text(radial, coords, n - 1);
        let a = coord_pairs(radial, coords, n - 1);
        let x = (export::coord_name(radial, n - 1), coords[n - 1]);
        assert(a.push(x).drop_last() =~= a);
    }
}

proof fn lemma_ramp_attributes(g: RampModel)
    ensures
        tag::attributes_text(ramp_tag(g).attributes) == export::attribute("id"@, g.id)
            + export::coords_text(g.radial, g.coords, g.coords.len() as int) + (if g.user_space {
            export::attribute("gradientUnits"@, "userSpaceOnUse"@)
        } else {
            Seq::empty()
        }) + export::matrix_attribute("gradientTransform"@, g.matrix) + (if g.spread == "pad"@ {
            Seq::empty()
        } else {
            export::attribute("spreadMethod"@, g.spread)
        }),
{
    let id: Seq<Pair> = seq![("id"@, g.id)];
    let coords = coord_pairs(g.radial, g.coords, g.coords.len() as int);
    let units: Seq<Pair> = if g.user_space {
        seq![("gradientUnits"@, "userSpaceOnUse"@)]
    } else {
        Seq::empty()
    };
    let matrix = optional("gradientTransform"@, matrix_value(g.matrix));
    let spread: Seq<Pair> = if g.spread == "pad"@ {
        Seq::empty()
    } else {
        seq![("spreadMethod"@, g.spread)]
    };
    lemma_attributes_one("id"@, g.id);
    lemma_coords_text(g.radial, g.coords, g.coords.len() as int);
    lemma_attributes_one("gradientUnits"@, "userSpaceOnUse"@);
    lemma_attributes_optional("gradientTransform"@, matrix_value(g.matrix));
    lemma_attributes_one("spreadMethod"@, g.spread);
    lemma_attributes_add(id, coords);
    lemma_attributes_add(id + coords, units);
    lemma_attributes_add(id + coords + units, matrix);
    lemma_attributes_add(id + coords + units + matrix, spread);
    assert(ramp_tag(g).attributes =~= id + coords + units + matrix + spread);
}

proof fn lemma_ramp_parts(
    pad: Seq<char>,
    open: Seq<char>,
    name: Seq<char>,
    a: Seq<char>,
    b: Seq<char>,
    c: Seq<char>,
    d: Seq<char>,
    e: Seq<char>,
)
    ensures
        (pad + open) + name + a + b + c + d + e == pad + (open + name) + (a + b + c + d + e),
{
    let ab = a + b;
    let abc = ab + c;
    let abcd = abc + d;
    let head = pad + (open + name);
    assert((pad + open) + name =~= head);
    assert(head + a + b =~= head + ab);
    assert(head + ab + c =~= head + abc);
    assert(head + abc + d =~= head + abcd);
    assert(head + abcd + e =~= head + (abcd + e));
}

proof fn lemma_ramp_end(
    front: Seq<char>,
    pad: Seq<char>,
    shut: Seq<char>,
    name: Seq<char>,
    gt: Seq<char>,
    end: Seq<char>,
)
    ensures
        front + (pad + shut) + name + (gt + end) == front + pad + (shut + name + gt + end),
{
    assert(front + (pad + shut) + name + (gt + end) =~= front + pad + (shut + name + gt + end));
}

proof fn lemma_ramp_text(g: RampModel)
    ensures
        export::ramp_text(g) == export::indent(2) + tag::body(ramp_tag(g), 2) + "\n"@,
{
    lemma_indents();
    lemma_ramp_attributes(g);
    lemma_stops_text(g.stops, g.stops.len() as int);
    reveal_strlit("    ");
    reveal_strlit("<");
    reveal_strlit("    <");
    reveal_strlit("</");
    reveal_strlit("    </");
    reveal_strlit(">");
    reveal_strlit("\n");
    reveal_strlit(">\n");
    assert("    <"@ =~= "    "@ + "<"@);
    assert("    </"@ =~= "    "@ + "</"@);
    assert(">\n"@ =~= ">"@ + "\n"@);
    let name = export::ramp_name(g.radial);
    let id = export::attribute("id"@, g.id);
    let coords = export::coords_text(g.radial, g.coords, g.coords.len() as int);
    let units = if g.user_space {
        export::attribute("gradientUnits"@, "userSpaceOnUse"@)
    } else {
        Seq::empty()
    };
    let matrix = export::matrix_attribute("gradientTransform"@, g.matrix);
    let spread = if g.spread == "pad"@ {
        Seq::empty()
    } else {
        export::attribute("spreadMethod"@, g.spread)
    };
    let kids = export::stops_text(g.stops, g.stops.len() as int);
    lemma_ramp_parts("    "@, "<"@, name, id, coords, units, matrix, spread);
    let a = id + coords + units + matrix + spread;
    lemma_ramp_end("    "@ + ("<"@ + name) + a + (">"@ + "\n"@) + kids, "    "@, "</"@, name, ">"@, "\n"@);
    lemma_container("    "@, "<"@, name, a, ">"@, "\n"@, kids, "</"@);
}

/// How a line with an element without children is put together.
proof fn lemma_line(
    before: Seq<char>,
    pad: Seq<char>,
    open: Seq<char>,
    a: Seq<char>,
    close: Seq<char>,
    end: Seq<char>,
)
    ensures
        before + (pad + open) + a + (close + end) == before + pad + (open + a + close) + end,
{
    assert(before + (pad + open) + a + (close + end) =~= before + pad + (open + a + close) + end);
}

proof fn lemma_paths_text(c: OutlineModel, n: int)
    requires
        0 <= n <= c.paths.len(),
    ensures
        export::paths_text(c.paths, n) == tag::lines(outline_tag(c).children, 3, n),
    decreases n,
{
    if n > 0 {
        lemma_paths_text(c, n - 1);
        lemma_indents();
        let t = path_tag(c.paths[n - 1]);
        assert(outline_tag(c).children[n - 1] == t);
        lemma_attributes_one("d"@, path_data::written(c.paths[n - 1]));
        reveal_strlit("      ");
        reveal_strlit("<");
        reveal_strlit("path");
        reveal_strlit("      <path");
        reveal_strlit("/>");
        reveal_strlit("\n");
        reveal_strlit("/>\n");
        assert("      <path"@ =~= "      "@ + ("<"@ + "path"@));
        assert("/>\n"@ =~= "/>"@ + "\n"@);
        let before = export::paths_text(c.paths, n - 1);
        let d = export::attribute("d"@, path_data::written(c.paths[n - 1]));
        assert(tag::body(t, 3) == "<"@ + "path"@ + d + "/>"@);
        lemma_line(before, "      "@, "<"@ + "path"@, d, "/>"@, "\n"@);
    }
}

proof fn lemma_outline_text(c: OutlineModel)
    ensures
        export::outline_text(c) == export::indent(2) + tag::body(outline_tag(c), 2) + "\n"@,
{
    lemma_indents();
    lemma_paths_text(c, c.paths.len() as int);
    lemma_attributes_one("id"@, c.id);
    reveal_strlit("    ");
    reveal_strlit("<");
    reveal_strlit("clipPath");
    reveal_strlit("    <clipPath");
    reveal_strlit("</");
    reveal_strlit(">");
    reveal_strlit("\n");
    reveal_strlit(">\n");
    reveal_strlit("    </clipPath>\n");
    assert("    <clipPath"@ =~= "    "@ + "<"@ + "clipPath"@);
    assert(">\n"@ =~= ">"@ + "\n"@);
    assert("    </clipPath>\n"@ =~= "    "@ + "</"@ + "clipPath"@ + ">"@ + "\n"@);
    assert(export::outline_text(c) =~= export::indent(2) + tag::body(outline_tag(c), 2) + "\n"@);
}

/// The lines of some elements and then others.
proof fn lemma_lines_add(a: Seq<Tag>, b: Seq<Tag>, n: nat, m: int)
    requires
        0 <= m <= b.len(),
    ensures
        tag::lines(a + b, n, a.len() + m) == tag::lines(a, n, a.len() as int) + tag::lines(b, n, m),
    decreases m,
{
    if m == 0 {
        lemma_lines_prefix(a, b, n, a.len() as int);
        assert(tag::lines(a, n, a.len() as int) + Seq::<char>::empty() =~= tag::lines(
            a,
            n,
            a.len() as int,
        ));
    } else {
        lemma_lines_add(a, b, n, m - 1);
        assert((a + b)[a.len() + m - 1] == b[m - 1]);
        assert(tag::lines(a + b, n, a.len() + m) =~= tag::lines(a, n, a.len() as int) + tag::lines(
            b,
            n,
            m,
        ));
    }
}

proof fn lemma_lines_prefix(a: Seq<Tag>, b: Seq<Tag>, n: nat, m: int)
    requires
        0 <= m <= a.len(),
    ensures
        tag::lines(a + b, n, m) == tag::lines(a, n, m),
    decreases m,
{
    if m > 0 {
        lemma_lines_prefix(a, b, n, m - 1);
        assert((a + b)[m - 1] == a[m - 1]);
    }
}

proof fn lemma_ramps_text(p: PageModel, n: int)
    requires
        0 <= n <= p.gradients.len(),
    ensures
        export::ramps_text(p.gradients, n) == tag::lines(
            Seq::new(p.gradients.len(), |k: int| ramp_tag(p.gradients[k])),
            2,
            n,
        ),
    decreases n,
{
    let ts = Seq::new(p.gradients.len(), |k: int| ramp_tag(p.gradients[k]));
    if n > 0 {
        lemma_ramps_text(p, n - 1);
        lemma_ramp_text(p.gradients[n - 1]);
        assert(ts[n - 1] == ramp_tag(p.gradients[n - 1]));
        assert(export::ramps_text(p.gradients, n) =~= tag::lines(ts, 2, n));
    }
}

proof fn lemma_outlines_text(p: PageModel, n: int)
    requires
        0 <= n <= p.clips.len(),
    ensures
        export::outlines_text(p.clips, n) == tag::lines(
            Seq::new(p.clips.len(), |k: int| outline_tag(p.clips[k])),
            2,
            n,
        ),
    decreases n,
{
    let ts = Seq::new(p.clips.len(), |k: int| outline_tag(p.clips[k]));
    if n > 0 {
        lemma_outlines_text(p, n - 1);
        lemma_outline_text(p.clips[n - 1]);
        assert(ts[n - 1] == outline_tag(p.clips[n - 1]));
        assert(export::outlines_text(p.clips, n) =~= tag::lines(ts, 2, n));
    }
}

proof fn lemma_defs_text(p: PageModel)
    ensures
        export::defs_text(p) == tag::lines(defs_tags(p), 1, defs_tags(p).len() as int),
{
    if !(p.gradients.len() == 0 && p.clips.len() == 0) {
        let a = Seq::new(p.gradients.len(), |k: int| ramp_tag(p.gradients[k]));
        let b = Seq::new(p.clips.len(), |k: int| outline_tag(p.clips[k]));
        lemma_ramps_text(p, p.gradients.len() as int);
        lemma_outlines_text(p, p.clips.len() as int);
        lemma_lines_add(a, b, 2, b.len() as int);
        let t = defs_tags(p)[0];
        assert(t.children == a + b);
        lemma_indents();
        reveal_strlit("  ");
        reveal_strlit("<");
        reveal_strlit("defs");
        reveal_strlit("  <defs>\n");
        reveal_strlit("</");
        reveal_strlit(">");
        reveal_strlit("\n");
        reveal_strlit("  </defs>\n");
        assert("  <defs>\n"@ =~= "  "@ + "<"@ + "defs"@ + ">"@ + "\n"@);
        assert("  </defs>\n"@ =~= "  "@ + "</"@ + "defs"@ + ">"@ + "\n"@);
        assert(tag::attributes_text(t.attributes) =~= Seq::<char>::empty());
        reveal_with_fuel(tag::lines, 2);
        assert(export::defs_text(p) =~= Seq::<char>::empty() + export::indent(1) + tag::body(t, 1)
            + "\n"@);
    }
}

proof fn lemma_page_attributes(p: PageModel)
    ensures
        tag::attributes_text(page_tag(p).attributes) == export::attribute("version"@, "1.1"@)
            + export::attribute_if("width"@, p.width) + export::attribute_if("height"@, p.height)
            + export::attribute_if(
            "viewBox"@,
            match p.view_box {
                Some(b) => Some(transform::listed(b)),
                None => None,
            },
        ),
{
    let view = match p.view_box {
        Some(b) => Some(transform::listed(b)),
        None => None,
    };
    let v: Seq<Pair> = seq![("version"@, "1.1"@)];
    let w = optional("width"@, p.width);
    let h = optional("height"@, p.height);
    lemma_attributes_one("version"@, "1.1"@);
    lemma_attributes_optional("width"@, p.width);
    lemma_attributes_optional("height"@, p.height);
    lemma_attributes_optional("viewBox"@, view);
    lemma_attributes_add(v, w);
    lemma_attributes_add(v + w, h);
    lemma_attributes_add(v + w + h, optional("viewBox"@, view));
}

proof fn lemma_page_parts(
    head: Seq<char>,
    a: Seq<char>,
    b: Seq<char>,
    c: Seq<char>,
    d: Seq<char>,
)
    ensures
        head + a + b + c + d == head + (a + b + c + d),
{
    let ab = a + b;
    let abc = ab + c;
    assert(head + a + b =~= head + ab);
    assert(head + ab + c =~= head + abc);
    assert(head + abc + d =~= head + (abc + d));
}

proof fn lemma_page_end(
    head: Seq<char>,
    gt: Seq<char>,
    end: Seq<char>,
    defs: Seq<char>,
    nodes: Seq<char>,
    close: Seq<char>,
)
    ensures
        head + (gt + end) + defs + nodes + (close + end) == head + gt + (end + (defs + nodes)
            + close) + end,
{
    let front = head + gt;
    assert(head + (gt + end) =~= front + end);
    assert(front + end + defs + nodes =~= front + (end + (defs + nodes)));
    let inner = end + (defs + nodes);
    assert(front + inner + (close + end) =~= front + (inner + close) + end);
}

/// What is written of a page is the text of its elements.
pub proof fn lemma_page_text(p: PageModel)
    ensures
        export::page_text(p) == tag::document_text(page_tag(p)),
{
    let t = page_tag(p);
    let items = item_tags(p.clips, p.roots, style::initials(), p.roots.len() as int);
    lemma_page_attributes(p);
    lemma_defs_text(p);
    lemma_items_text(p.clips, p.roots, style::initials(), 1, p.roots.len() as int);
    lemma_item_tags(p.clips, p.roots, style::initials(), p.roots.len() as int);
    lemma_lines_add(defs_tags(p), items, 1, items.len() as int);
    lemma_indents();
    reveal_strlit("<");
    reveal_strlit("svg");
    reveal_strlit("<svg");
    reveal_strlit("</");
    reveal_strlit(">");
    reveal_strlit("\n");
    reveal_strlit(">\n");
    reveal_strlit("</svg>\n");
    assert("<svg"@ =~= "<"@ + "svg"@);
    assert(">\n"@ =~= ">"@ + "\n"@);
    assert("</svg>\n"@ =~= "</"@ + "svg"@ + ">"@ + "\n"@);
    let head = export::prologue() + "<"@ + "svg"@ + export::attribute(
        "xmlns"@,
        document::SVG_NS@,
    );
    let version = export::attribute("version"@, "1.1"@);
    let width = export::attribute_if("width"@, p.width);
    let height = export::attribute_if("height"@, p.height);
    let view = export::attribute_if(
        "viewBox"@,
        match p.view_box {
            Some(b) => Some(transform::listed(b)),
            None => None,
        },
    );
    let defs = export::defs_text(p);
    let nodes = export::items_text(
        p.clips,
        p.roots,
        style::initials(),
        1,
        p.roots.len() as int,
    );
    assert(export::prologue() + ("<"@ + "svg"@) =~= export::prologue() + "<"@ + "svg"@);
    lemma_page_parts(head, version, width, height, view);
    let a = version + width + height + view;
    let close = Seq::<char>::empty() + "</"@ + "svg"@ + ">"@;
    assert("</"@ + "svg"@ + ">"@ + "\n"@ =~= close + "\n"@);
    lemma_page_end(head + a, ">"@, "\n"@, defs, nodes, close);
}

} // verus!
