//! What importing gives back of what exporting wrote.

use vstd::prelude::*;
use crate::text;
use super::document;
use super::document::ClipModel;
use super::document::ClipShapeModel;
use super::document::GradientModel;
use super::document::KindModel;
use super::document::LengthModel;
use super::document::LossModel;
use super::document::SceneModel;
use super::document::ShapeModel;
use super::document::StopModel;
use super::document::TreeModel;
use super::document::Unit;
use super::document::WorldModel;
use super::export;
use super::export::ItemKindModel;
use super::export::ItemModel;
use super::export::OutlineModel;
use super::export::PageModel;
use super::export::RampModel;
use super::export::RampStopModel;
use super::import;
use super::layout;
use super::markup;
use super::markup::ElementModel;
use super::markup::NodeModel;
use super::number;
use super::path_data;
use super::path_data::PlottedModel;
use super::style;
use super::tag;
use super::tag::Pair;
use super::tag::Tag;
use super::transform;
use super::transform::FunctionModel;
use super::transform::Kind;

verus! {

broadcast use vstd::string::group_string_axioms;

/// Whether a text is a number that can be written.
pub open spec fn all_numbers(a: Seq<Seq<char>>) -> bool {
    forall|k: int| 0 <= k < a.len() ==> number::is_number(#[trigger] a[k])
}

/// Whether computed values can be written: none is a keyword that stands for
/// another, none holds what a reader would normalise.
pub open spec fn writable_style(values: Seq<Seq<char>>) -> bool {
    &&& values.len() == style::COUNT
    &&& style::plain_values(values)
    &&& forall|i: int| 0 <= i < values.len() ==> tag::survives(#[trigger] values[i])
}

/// Whether a path can be written: it starts with a moveto.
pub open spec fn writable_path(els: Seq<PlottedModel>) -> bool {
    &&& els.len() > 0
    &&& els[0].letter == 'M'
    &&& forall|k: int| 0 <= k < els.len() ==> path_data::well_plotted(#[trigger] els[k])
}

pub open spec fn writable_matrix(matrix: Option<Seq<Seq<char>>>) -> bool {
    matrix matches Some(m) ==> m.len() == 6 && all_numbers(m)
}

/// Whether an id can be written and, for a clip, be referred to: a reference is
/// read without white space or quotes at its end.
pub open spec fn writable_id(id: Seq<char>) -> bool {
    &&& id.len() > 0
    &&& tag::survives(id)
    &&& !text::is_space(id.last()) && id.last() != '"' && id.last() != '\''
}

/// Whether a node can be written `depth` elements deep. A group of nothing is
/// not read back.
pub open spec fn writable_item(item: ItemModel, depth: nat) -> bool
    decreases item,
{
    &&& depth <= markup::MAX_DEPTH
    &&& writable_style(item.style)
    &&& writable_matrix(item.matrix)
    &&& match item.kind {
        ItemKindModel::Path(els) => writable_path(els),
        ItemKindModel::Group(items) => items.len() > 0 && writable_items(
            items,
            items.len() as int,
            depth + 1,
        ),
    }
}

pub open spec fn writable_items(items: Seq<ItemModel>, n: int, depth: nat) -> bool
    decreases items, n,
{
    if n <= 0 || n > items.len() {
        true
    } else {
        writable_items(items, n - 1, depth) && writable_item(items[n - 1], depth)
    }
}

pub open spec fn is_keyword(v: Seq<char>) -> bool {
    text::alike(v, "inherit"@) || text::alike(v, "currentColor"@)
}

pub open spec fn writable_stop(s: RampStopModel) -> bool {
    &&& number::is_number(s.offset)
    &&& tag::survives(s.color) && !is_keyword(s.color)
    &&& tag::survives(s.opacity) && !is_keyword(s.opacity)
}

pub open spec fn writable_ramp(g: RampModel) -> bool {
    &&& g.id.len() > 0 && tag::survives(g.id)
    &&& g.coords.len() == document::coords_of(g.radial).len() && all_numbers(g.coords)
    &&& writable_matrix(g.matrix)
    &&& tag::survives(g.spread)
    &&& forall|k: int| 0 <= k < g.stops.len() ==> writable_stop(#[trigger] g.stops[k])
}

pub open spec fn writable_outline(c: OutlineModel) -> bool {
    &&& writable_id(c.id)
    &&& forall|k: int| 0 <= k < c.paths.len() ==> writable_path(#[trigger] c.paths[k])
}

pub open spec fn survives_if(v: Option<Seq<char>>) -> bool {
    v matches Some(v) ==> tag::survives(v)
}

pub open spec fn writable_view_box(b: Option<Seq<Seq<char>>>) -> bool {
    b matches Some(b) ==> b.len() == 4 && all_numbers(b) && number::positive(b[2], 0)
        && number::positive(b[3], 0)
}

/// Whether a page can be written and read again.
pub open spec fn writable(p: PageModel) -> bool {
    &&& survives_if(p.width) && survives_if(p.height)
    &&& writable_view_box(p.view_box)
    &&& forall|k: int| 0 <= k < p.gradients.len() ==> writable_ramp(#[trigger] p.gradients[k])
    &&& forall|k: int| 0 <= k < p.clips.len() ==> writable_outline(#[trigger] p.clips[k])
    &&& writable_items(p.roots, p.roots.len() as int, 1)
}

proof fn lemma_survives_add(a: Seq<char>, b: Seq<char>)
    requires
        tag::survives(a),
        tag::survives(b),
    ensures
        tag::survives(a + b),
{
    assert forall|k: int| 0 <= k < (a + b).len() implies #[trigger] (a + b)[k] >= ' ' by {
        if k < a.len() {
            assert((a + b)[k] == a[k]);
        } else {
            assert((a + b)[k] == b[k - a.len()]);
        }
    }
}

proof fn lemma_number_survives(t: Seq<char>)
    requires
        number::is_number(t),
    ensures
        tag::survives(t),
{
    number::lemma_number_chars(t);
    assert forall|k: int| 0 <= k < t.len() implies #[trigger] t[k] >= ' ' by {
        assert(number::is_number_char(t[k]));
    }
}

proof fn lemma_listed_survives(a: Seq<Seq<char>>)
    requires
        all_numbers(a),
    ensures
        tag::survives(transform::listed(a)),
    decreases a.len(),
{
    if a.len() == 1 {
        lemma_number_survives(a[0]);
    } else if a.len() > 1 {
        let front = a.drop_last();
        assert forall|k: int| 0 <= k < front.len() implies number::is_number(
            #[trigger] front[k],
        ) by {
            assert(front[k] == a[k]);
        }
        lemma_listed_survives(front);
        lemma_number_survives(a[a.len() - 1]);
        lemma_survives_add(transform::listed(front), seq![' ']);
        lemma_survives_add(transform::listed(front) + seq![' '], a.last());
    }
}

proof fn lemma_matrix_survives(m: Seq<Seq<char>>)
    requires
        all_numbers(m),
    ensures
        tag::survives(transform::matrix_text(m)),
{
    reveal_strlit("matrix(");
    reveal_strlit(")");
    lemma_listed_survives(m);
    lemma_survives_add("matrix("@, transform::listed(m));
    lemma_survives_add("matrix("@ + transform::listed(m), ")"@);
}

proof fn lemma_spaced_survives(a: Seq<Seq<char>>)
    requires
        all_numbers(a),
    ensures
        tag::survives(path_data::spaced(a)),
    decreases a.len(),
{
    if a.len() > 0 {
        let front = a.drop_last();
        assert forall|k: int| 0 <= k < front.len() implies number::is_number(
            #[trigger] front[k],
        ) by {
            assert(front[k] == a[k]);
        }
        lemma_spaced_survives(front);
        lemma_number_survives(a[a.len() - 1]);
        lemma_survives_add(path_data::spaced(front), seq![' ']);
        lemma_survives_add(path_data::spaced(front) + seq![' '], a.last());
    }
}

proof fn lemma_written_survives(els: Seq<PlottedModel>)
    requires
        forall|k: int| 0 <= k < els.len() ==> path_data::well_plotted(#[trigger] els[k]),
    ensures
        tag::survives(path_data::written(els)),
    decreases els.len(),
{
    if els.len() > 0 {
        let front = els.drop_last();
        assert forall|k: int| 0 <= k < front.len() implies path_data::well_plotted(
            #[trigger] front[k],
        ) by {
            assert(front[k] == els[k]);
        }
        lemma_written_survives(front);
        let e = els[els.len() - 1];
        assert(path_data::well_plotted(e));
        lemma_spaced_survives(e.numbers);
        lemma_survives_add(path_data::written(front), seq![e.letter]);
        lemma_survives_add(
            path_data::written(front) + seq![e.letter],
            path_data::spaced(e.numbers),
        );
    }
}

/// A number that tells the names used here apart.
spec fn mark(n: Seq<char>) -> int {
    n.len() * 1000000 + n[0] as int * 1000 + n[n.len() as int / 2] as int
}

/// A literal that is a name.
proof fn lemma_named(n: Seq<char>)
    requires
        0 < n.len() <= 17,
        markup::is_name_start(n[0]),
        tag::names_to(n, n.len() as int),
    ensures
        tag::is_name(n),
{
    tag::lemma_is_name(n);
}

/// The names of a node's attributes, in the order they are written.
pub open spec fn item_name(i: int) -> Seq<char> {
    if i == 0 {
        "d"@
    } else if i == 1 {
        "transform"@
    } else if i == 2 {
        "clip-path"@
    } else {
        style::name(i - 3)
    }
}

pub open spec fn item_names() -> Seq<Seq<char>> {
    Seq::new(20, |i: int| item_name(i))
}

spec fn item_mark(i: int) -> int {
    if i == 0 {
        1100100
    } else if i == 1 {
        9116115
    } else if i == 2 {
        9099045
    } else if i == 3 {
        5099108
    } else if i == 4 {
        4102108
    } else if i == 5 {
        12102112
    } else if i == 6 {
        9102045
    } else if i == 7 {
        6115111
    } else if i == 8 {
        12115045
    } else if i == 9 {
        14115108
    } else if i == 10 {
        15115108
    } else if i == 11 {
        17115105
    } else if i == 12 {
        16115097
    } else if i == 13 {
        17115097
    } else if i == 14 {
        14115111
    } else if i == 15 {
        10118105
    } else if i == 16 {
        7111099
    } else if i == 17 {
        7100112
    } else if i == 18 {
        10115099
    } else {
        12115112
    }
}

proof fn lemma_item_name(i: int)
    requires
        0 <= i < 20,
    ensures
        tag::is_name(item_name(i)),
        mark(item_name(i)) == item_mark(i),
{
    reveal_with_fuel(tag::names_to, 19);
    if i == 0 {
        reveal_strlit("d");
        lemma_named("d"@);
    } else if i == 1 {
        reveal_strlit("transform");
        lemma_named("transform"@);
    } else if i == 2 {
        reveal_strlit("clip-path");
        lemma_named("clip-path"@);
    } else if i == 3 {
        reveal_strlit("color");
        lemma_named("color"@);
    } else if i == 4 {
        reveal_strlit("fill");
        lemma_named("fill"@);
    } else if i == 5 {
        reveal_strlit("fill-opacity");
        lemma_named("fill-opacity"@);
    } else if i == 6 {
        reveal_strlit("fill-rule");
        lemma_named("fill-rule"@);
    } else if i == 7 {
        reveal_strlit("stroke");
        lemma_named("stroke"@);
    } else if i == 8 {
        reveal_strlit("stroke-width");
        lemma_named("stroke-width"@);
    } else if i == 9 {
        reveal_strlit("stroke-linecap");
        lemma_named("stroke-linecap"@);
    } else if i == 10 {
        reveal_strlit("stroke-linejoin");
        lemma_named("stroke-linejoin"@);
    } else if i == 11 {
        reveal_strlit("stroke-miterlimit");
        lemma_named("stroke-miterlimit"@);
    } else if i == 12 {
        reveal_strlit("stroke-dasharray");
        lemma_named("stroke-dasharray"@);
    } else if i == 13 {
        reveal_strlit("stroke-dashoffset");
        lemma_named("stroke-dashoffset"@);
    } else if i == 14 {
        reveal_strlit("stroke-opacity");
        lemma_named("stroke-opacity"@);
    } else if i == 15 {
        reveal_strlit("visibility");
        lemma_named("visibility"@);
    } else if i == 16 {
        reveal_strlit("opacity");
        lemma_named("opacity"@);
    } else if i == 17 {
        reveal_strlit("display");
        lemma_named("display"@);
    } else if i == 18 {
        reveal_strlit("stop-color");
        lemma_named("stop-color"@);
    } else {
        reveal_strlit("stop-opacity");
        lemma_named("stop-opacity"@);
    }
}

/// The names of a gradient's attributes.
pub open spec fn ramp_names(radial: bool) -> Seq<Seq<char>> {
    if radial {
        seq![
            "id"@,
            "cx"@,
            "cy"@,
            "r"@,
            "fx"@,
            "fy"@,
            "gradientUnits"@,
            "gradientTransform"@,
            "spreadMethod"@,
        ]
    } else {
        seq![
            "id"@,
            "x1"@,
            "y1"@,
            "x2"@,
            "y2"@,
            "gradientUnits"@,
            "gradientTransform"@,
            "spreadMethod"@,
        ]
    }
}

spec fn radial_mark(i: int) -> int {
    if i == 0 {
        2105100
    } else if i == 1 {
        2099120
    } else if i == 2 {
        2099121
    } else if i == 3 {
        1114114
    } else if i == 4 {
        2102120
    } else if i == 5 {
        2102121
    } else if i == 6 {
        13103110
    } else if i == 7 {
        17103084
    } else {
        12115077
    }
}

proof fn lemma_radial_name(i: int)
    requires
        0 <= i < 9,
    ensures
        tag::is_name(ramp_names(true)[i]),
        mark(ramp_names(true)[i]) == radial_mark(i),
{
    reveal_with_fuel(tag::names_to, 19);
    if i == 0 {
        reveal_strlit("id");
        lemma_named("id"@);
    } else if i == 1 {
        reveal_strlit("cx");
        lemma_named("cx"@);
    } else if i == 2 {
        reveal_strlit("cy");
        lemma_named("cy"@);
    } else if i == 3 {
        reveal_strlit("r");
        lemma_named("r"@);
    } else if i == 4 {
        reveal_strlit("fx");
        lemma_named("fx"@);
    } else if i == 5 {
        reveal_strlit("fy");
        lemma_named("fy"@);
    } else if i == 6 {
        reveal_strlit("gradientUnits");
        lemma_named("gradientUnits"@);
    } else if i == 7 {
        reveal_strlit("gradientTransform");
        lemma_named("gradientTransform"@);
    } else {
        reveal_strlit("spreadMethod");
        lemma_named("spreadMethod"@);
    }
}

spec fn linear_mark(i: int) -> int {
    if i == 0 {
        2105100
    } else if i == 1 {
        2120049
    } else if i == 2 {
        2121049
    } else if i == 3 {
        2120050
    } else if i == 4 {
        2121050
    } else if i == 5 {
        13103110
    } else if i == 6 {
        17103084
    } else {
        12115077
    }
}

proof fn lemma_linear_name(i: int)
    requires
        0 <= i < 8,
    ensures
        tag::is_name(ramp_names(false)[i]),
        mark(ramp_names(false)[i]) == linear_mark(i),
{
    reveal_with_fuel(tag::names_to, 19);
    if i == 0 {
        reveal_strlit("id");
        lemma_named("id"@);
    } else if i == 1 {
        reveal_strlit("x1");
        lemma_named("x1"@);
    } else if i == 2 {
        reveal_strlit("y1");
        lemma_named("y1"@);
    } else if i == 3 {
        reveal_strlit("x2");
        lemma_named("x2"@);
    } else if i == 4 {
        reveal_strlit("y2");
        lemma_named("y2"@);
    } else if i == 5 {
        reveal_strlit("gradientUnits");
        lemma_named("gradientUnits"@);
    } else if i == 6 {
        reveal_strlit("gradientTransform");
        lemma_named("gradientTransform"@);
    } else {
        reveal_strlit("spreadMethod");
        lemma_named("spreadMethod"@);
    }
}

pub open spec fn stop_names() -> Seq<Seq<char>> {
    seq!["offset"@, "stop-color"@, "stop-opacity"@]
}

spec fn stop_mark(i: int) -> int {
    if i == 0 {
        6111115
    } else if i == 1 {
        10115099
    } else {
        12115112
    }
}

proof fn lemma_stop_name(i: int)
    requires
        0 <= i < 3,
    ensures
        tag::is_name(stop_names()[i]),
        mark(stop_names()[i]) == stop_mark(i),
{
    reveal_with_fuel(tag::names_to, 19);
    if i == 0 {
        reveal_strlit("offset");
        lemma_named("offset"@);
    } else if i == 1 {
        reveal_strlit("stop-color");
        lemma_named("stop-color"@);
    } else {
        reveal_strlit("stop-opacity");
        lemma_named("stop-opacity"@);
    }
}

pub open spec fn page_names() -> Seq<Seq<char>> {
    seq!["version"@, "width"@, "height"@, "viewBox"@]
}

spec fn page_mark(i: int) -> int {
    if i == 0 {
        7118115
    } else if i == 1 {
        5119100
    } else if i == 2 {
        6104103
    } else {
        7118119
    }
}

proof fn lemma_page_name(i: int)
    requires
        0 <= i < 4,
    ensures
        tag::is_name(page_names()[i]),
        mark(page_names()[i]) == page_mark(i),
{
    reveal_with_fuel(tag::names_to, 19);
    if i == 0 {
        reveal_strlit("version");
        lemma_named("version"@);
    } else if i == 1 {
        reveal_strlit("width");
        lemma_named("width"@);
    } else if i == 2 {
        reveal_strlit("height");
        lemma_named("height"@);
    } else {
        reveal_strlit("viewBox");
        lemma_named("viewBox"@);
    }
}

/// The names used here are none of these.
proof fn lemma_other_marks()
    ensures
        mark("xmlns"@) == 5120108,
        mark("href"@) == 4104101,
        mark("style"@) == 5115121,
        mark("mask"@) == 4109115,
        mark("filter"@) == 6102116,
        mark("marker-start"@) == 12109045,
        mark("marker-mid"@) == 10109114,
        mark("marker-end"@) == 10109114,
        mark("id"@) == 2105100,
        mark("d"@) == 1100100,
        mark("transform"@) == 9116115,
        mark("clipPathUnits"@) == 13099116,
{
    reveal_strlit("xmlns");
    reveal_strlit("href");
    reveal_strlit("style");
    reveal_strlit("mask");
    reveal_strlit("filter");
    reveal_strlit("marker-start");
    reveal_strlit("marker-mid");
    reveal_strlit("marker-end");
    reveal_strlit("id");
    reveal_strlit("d");
    reveal_strlit("transform");
    reveal_strlit("clipPathUnits");
}

proof fn lemma_item_names()
    ensures
        tag::names_ok(item_names()),
        forall|k: int|
            0 <= k < 20 ==> {
                &&& (#[trigger] item_names()[k]) != "style"@
                &&& item_names()[k] != "mask"@
                &&& item_names()[k] != "filter"@
                &&& item_names()[k] != "marker-start"@
                &&& item_names()[k] != "marker-mid"@
                &&& item_names()[k] != "marker-end"@
            },
{
    lemma_other_marks();
    let names = item_names();
    assert forall|k: int| 0 <= k < 20 implies tag::is_name(#[trigger] names[k]) && mark(names[k])
        == item_mark(k) by {
        lemma_item_name(k);
        assert(names[k] == item_name(k));
    }
    assert forall|j: int, k: int| 0 <= j < k < 20 implies (#[trigger] names[j]) != (
    #[trigger] names[k]) by {
        assert(mark(names[j]) == item_mark(j));
        assert(mark(names[k]) == item_mark(k));
    }
}

proof fn lemma_ramp_names(radial: bool)
    ensures
        tag::names_ok(ramp_names(radial)),
        forall|k: int|
            0 <= k < ramp_names(radial).len() ==> (#[trigger] ramp_names(radial)[k]) != "href"@
                && ramp_names(radial)[k] != "style"@,
{
    lemma_other_marks();
    let names = ramp_names(radial);
    assert forall|k: int| 0 <= k < names.len() implies tag::is_name(#[trigger] names[k]) && mark(
        names[k],
    ) == (if radial {
        radial_mark(k)
    } else {
        linear_mark(k)
    }) by {
        if radial {
            lemma_radial_name(k);
        } else {
            lemma_linear_name(k);
        }
    }
}

proof fn lemma_stop_names()
    ensures
        tag::names_ok(stop_names()),
        forall|k: int| 0 <= k < 3 ==> (#[trigger] stop_names()[k]) != "style"@,
{
    lemma_other_marks();
    let names = stop_names();
    assert forall|k: int| 0 <= k < 3 implies tag::is_name(#[trigger] names[k]) && mark(names[k])
        == stop_mark(k) by {
        lemma_stop_name(k);
    }
}

proof fn lemma_page_names()
    ensures
        tag::names_ok(page_names()),
        forall|k: int| 0 <= k < 4 ==> (#[trigger] page_names()[k]) != "style"@,
        forall|k: int, i: int|
            0 <= k < 4 && 0 <= i < style::COUNT ==> (#[trigger] page_names()[k])
                != #[trigger] style::name(i),
{
    lemma_other_marks();
    let names = page_names();
    assert forall|k: int| 0 <= k < 4 implies tag::is_name(#[trigger] names[k]) && mark(names[k])
        == page_mark(k) by {
        lemma_page_name(k);
    }
    assert forall|k: int, i: int| 0 <= k < 4 && 0 <= i < style::COUNT implies (
    #[trigger] page_names()[k]) != #[trigger] style::name(i) by {
        lemma_item_name(i + 3);
        assert(mark(names[k]) == page_mark(k));
    }
}

/// The values of a node's attributes, by name.
pub open spec fn item_value(
    clips: Seq<OutlineModel>,
    item: ItemModel,
    parent: Seq<Seq<char>>,
    i: int,
) -> Option<Seq<char>> {
    if i == 0 {
        match item.kind {
            ItemKindModel::Path(els) => Some(path_data::written(els)),
            ItemKindModel::Group(_) => None,
        }
    } else if i == 1 {
        layout::matrix_value(item.matrix)
    } else if i == 2 {
        layout::url_value(layout::kept_clip(clips, item.clip))
    } else if export::implied(item.style, parent, i - 3) {
        None
    } else {
        Some(item.style[i - 3])
    }
}

pub open spec fn item_values(
    clips: Seq<OutlineModel>,
    item: ItemModel,
    parent: Seq<Seq<char>>,
) -> Seq<Option<Seq<char>>> {
    Seq::new(20, |i: int| item_value(clips, item, parent, i))
}

proof fn lemma_style_listing(
    clips: Seq<OutlineModel>,
    item: ItemModel,
    parent: Seq<Seq<char>>,
    n: int,
)
    requires
        0 <= n <= style::COUNT,
    ensures
        tag::listing(item_names(), item_values(clips, item, parent), 3 + n) == tag::listing(
            item_names(),
            item_values(clips, item, parent),
            3,
        ) + layout::style_pairs(item.style, parent, n),
    decreases n,
{
    let names = item_names();
    let values = item_values(clips, item, parent);
    if n == 0 {
        assert(tag::listing(names, values, 3) + Seq::<Pair>::empty() =~= tag::listing(
            names,
            values,
            3,
        ));
    } else {
        lemma_style_listing(clips, item, parent, n - 1);
        assert(names[2 + n] == style::name(n - 1));
        assert(values[2 + n] == item_value(clips, item, parent, 2 + n));
        assert(tag::listing(names, values, 3 + n) =~= tag::listing(names, values, 3)
            + layout::style_pairs(item.style, parent, n));
    }
}

proof fn lemma_item_listing(clips: Seq<OutlineModel>, item: ItemModel, parent: Seq<Seq<char>>)
    ensures
        layout::item_tag(clips, item, parent).attributes == tag::listing(
            item_names(),
            item_values(clips, item, parent),
            20,
        ),
{
    let names = item_names();
    let values = item_values(clips, item, parent);
    lemma_style_listing(clips, item, parent, style::COUNT as int);
    reveal_with_fuel(tag::listing, 4);
    assert(names[0] == "d"@ && names[1] == "transform"@ && names[2] == "clip-path"@);
    assert(values[0] == item_value(clips, item, parent, 0));
    assert(values[1] == item_value(clips, item, parent, 1));
    assert(values[2] == item_value(clips, item, parent, 2));
    let d = match item.kind {
        ItemKindModel::Path(els) => seq![("d"@, path_data::written(els))],
        ItemKindModel::Group(_) => Seq::<Pair>::empty(),
    };
    let t = layout::optional("transform"@, layout::matrix_value(item.matrix));
    let c = layout::optional(
        "clip-path"@,
        layout::url_value(layout::kept_clip(clips, item.clip)),
    );
    let rest = layout::style_pairs(item.style, parent, style::COUNT as int);
    assert(tag::listing(names, values, 3) =~= d + t + c);
    assert(d + (t + c + rest) =~= d + t + c + rest);
    assert(layout::item_tag(clips, item, parent).attributes =~= d + (t + c + rest));
}

pub open spec fn ramp_values(g: RampModel) -> Seq<Option<Seq<char>>> {
    seq![Some(g.id)] + g.coords.map_values(|c: Seq<char>| Some(c)) + seq![
        if g.user_space {
            Some("userSpaceOnUse"@)
        } else {
            None
        },
        layout::matrix_value(g.matrix),
        if g.spread == "pad"@ {
            None
        } else {
            Some(g.spread)
        },
    ]
}

proof fn lemma_ramp_listing(g: RampModel)
    requires
        g.coords.len() == document::coords_of(g.radial).len(),
    ensures
        ramp_values(g).len() == ramp_names(g.radial).len(),
        layout::ramp_tag(g).attributes == tag::listing(
            ramp_names(g.radial),
            ramp_values(g),
            ramp_names(g.radial).len() as int,
        ),
{
    let names = ramp_names(g.radial);
    let values = ramp_values(g);
    let n = g.coords.len() as int;
    let id: Seq<Pair> = seq![("id"@, g.id)];
    let coords = layout::coord_pairs(g.radial, g.coords, n);
    assert forall|k: int| 0 <= k < n implies #[trigger] values[k + 1] == Some(g.coords[k]) by {}
    assert(tag::listing(names, values, n + 1) =~= id + coords) by {
        lemma_coord_listing(g, n);
        reveal_with_fuel(tag::listing, 2);
        assert(tag::listing(names, values, 1) =~= id);
    }
    assert(names[n + 1] == "gradientUnits"@);
    assert(names[n + 2] == "gradientTransform"@);
    assert(names[n + 3] == "spreadMethod"@);
    let units: Seq<Pair> = if g.user_space {
        seq![("gradientUnits"@, "userSpaceOnUse"@)]
    } else {
        Seq::empty()
    };
    let matrix = layout::optional("gradientTransform"@, layout::matrix_value(g.matrix));
    let spread: Seq<Pair> = if g.spread == "pad"@ {
        Seq::empty()
    } else {
        seq![("spreadMethod"@, g.spread)]
    };
    assert(tag::listing(names, values, n + 2) =~= id + coords + units);
    assert(tag::listing(names, values, n + 3) =~= id + coords + units + matrix);
    assert(tag::listing(names, values, n + 4) =~= id + coords + units + matrix + spread);
    assert(layout::ramp_tag(g).attributes =~= id + coords + units + matrix + spread);
}

proof fn lemma_coord_listing(g: RampModel, n: int)
    requires
        g.coords.len() == document::coords_of(g.radial).len(),
        0 <= n <= g.coords.len(),
    ensures
        tag::listing(ramp_names(g.radial), ramp_values(g), n + 1) == tag::listing(
            ramp_names(g.radial),
            ramp_values(g),
            1,
        ) + layout::coord_pairs(g.radial, g.coords, n),
    decreases n,
{
    let names = ramp_names(g.radial);
    let values = ramp_values(g);
    let first = tag::listing(names, values, 1);
    if n == 0 {
        assert(first + Seq::<Pair>::empty() =~= first);
    } else {
        lemma_coord_listing(g, n - 1);
        assert(names[n] == export::coord_name(g.radial, n - 1));
        assert(values[n] == Some(g.coords[n - 1]));
        assert(tag::listing(names, values, n + 1) =~= first + layout::coord_pairs(
            g.radial,
            g.coords,
            n,
        ));
    }
}

pub open spec fn stop_values(s: RampStopModel) -> Seq<Option<Seq<char>>> {
    seq![Some(s.offset), Some(s.color), Some(s.opacity)]
}

proof fn lemma_stop_listing(s: RampStopModel)
    ensures
        layout::stop_tag(s).attributes == tag::listing(stop_names(), stop_values(s), 3),
{
    reveal_with_fuel(tag::listing, 4);
    assert(layout::stop_tag(s).attributes =~= tag::listing(stop_names(), stop_values(s), 3));
}

/// One attribute.
proof fn lemma_single(name: Seq<char>, value: Seq<char>)
    ensures
        seq![(name, value)] == tag::listing(seq![name], seq![Some(value)], 1),
{
    reveal_with_fuel(tag::listing, 2);
    let a: Seq<Pair> = seq![(name, value)];
    assert(a =~= tag::listing(seq![name], seq![Some(value)], 1));
}

pub open spec fn page_values(p: PageModel) -> Seq<Option<Seq<char>>> {
    seq![
        Some("1.1"@),
        p.width,
        p.height,
        match p.view_box {
            Some(b) => Some(transform::listed(b)),
            None => None,
        },
    ]
}

proof fn lemma_page_listing(p: PageModel)
    ensures
        layout::page_tag(p).attributes == tag::listing(page_names(), page_values(p), 4),
{
    reveal_with_fuel(tag::listing, 5);
    let names = page_names();
    let values = page_values(p);
    let v: Seq<Pair> = seq![("version"@, "1.1"@)];
    let w = layout::optional("width"@, p.width);
    let h = layout::optional("height"@, p.height);
    let b = layout::optional("viewBox"@, values[3]);
    assert(tag::listing(names, values, 1) =~= v);
    assert(tag::listing(names, values, 2) =~= v + w);
    assert(tag::listing(names, values, 3) =~= v + w + h);
    assert(tag::listing(names, values, 4) =~= v + w + h + b);
}

proof fn lemma_element_names()
    ensures
        tag::is_name("svg"@),
        tag::is_name("defs"@),
        tag::is_name("g"@),
        tag::is_name("path"@),
        tag::is_name("stop"@),
        tag::is_name("clipPath"@),
        tag::is_name("linearGradient"@),
        tag::is_name("radialGradient"@),
{
    reveal_strlit("svg");
    reveal_strlit("defs");
    reveal_strlit("g");
    reveal_strlit("path");
    reveal_strlit("stop");
    reveal_strlit("clipPath");
    reveal_strlit("linearGradient");
    reveal_strlit("radialGradient");
    reveal_with_fuel(tag::names_to, 15);
    lemma_named("svg"@);
    lemma_named("defs"@);
    lemma_named("g"@);
    lemma_named("path"@);
    lemma_named("stop"@);
    lemma_named("clipPath"@);
    lemma_named("linearGradient"@);
    lemma_named("radialGradient"@);
}

/// Whether every clip can be written.
pub open spec fn writable_outlines(clips: Seq<OutlineModel>) -> bool {
    forall|k: int| 0 <= k < clips.len() ==> writable_outline(#[trigger] clips[k])
}

proof fn lemma_kept_clip(clips: Seq<OutlineModel>, clip: Option<Seq<char>>)
    requires
        writable_outlines(clips),
    ensures
        layout::kept_clip(clips, clip) matches Some(id) ==> writable_id(id),
{
    if let Some(id) = layout::kept_clip(clips, clip) {
        let k = choose|k: int| 0 <= k < clips.len() && (#[trigger] clips[k]).id == id;
        assert(writable_outline(clips[k]));
    }
}

proof fn lemma_item_survives(clips: Seq<OutlineModel>, item: ItemModel, parent: Seq<Seq<char>>)
    requires
        writable_outlines(clips),
        writable_style(item.style),
        writable_matrix(item.matrix),
        item.kind matches ItemKindModel::Path(els) ==> writable_path(els),
    ensures
        tag::all_survive(item_values(clips, item, parent)),
{
    let values = item_values(clips, item, parent);
    assert forall|k: int| 0 <= k < values.len() implies ((#[trigger] values[k]) matches Some(v)
        ==> tag::survives(v)) by {
        assert(values[k] == item_value(clips, item, parent, k));
        if k == 0 {
            if let ItemKindModel::Path(els) = item.kind {
                lemma_written_survives(els);
            }
        } else if k == 1 {
            if let Some(m) = item.matrix {
                lemma_matrix_survives(m);
            }
        } else if k == 2 {
            lemma_kept_clip(clips, item.clip);
            if let Some(id) = layout::kept_clip(clips, item.clip) {
                reveal_strlit("url(#");
                reveal_strlit(")");
                lemma_survives_add("url(#"@, id);
                lemma_survives_add("url(#"@ + id, ")"@);
            }
        } else {
            assert(tag::survives(item.style[k - 3]));
        }
    }
}

proof fn lemma_item_fits(
    clips: Seq<OutlineModel>,
    item: ItemModel,
    parent: Seq<Seq<char>>,
    depth: nat,
)
    requires
        writable_outlines(clips),
        writable_item(item, depth),
    ensures
        tag::fits(layout::item_tag(clips, item, parent), depth),
    decreases item, 0int,
{
    let t = layout::item_tag(clips, item, parent);
    lemma_element_names();
    lemma_item_names();
    lemma_item_survives(clips, item, parent);
    lemma_item_listing(clips, item, parent);
    tag::lemma_listing_ok(item_names(), item_values(clips, item, parent), 20);
    match item.kind {
        ItemKindModel::Path(els) => {
            tag::lemma_fits_all(t.children, 0, depth + 1);
        },
        ItemKindModel::Group(items) => {
            let n = items.len() as int;
            lemma_items_fit(clips, items, item.style, n, depth + 1);
            layout::lemma_item_tags(clips, items, item.style, n);
        },
    }
}

proof fn lemma_items_fit(
    clips: Seq<OutlineModel>,
    items: Seq<ItemModel>,
    parent: Seq<Seq<char>>,
    n: int,
    depth: nat,
)
    requires
        writable_outlines(clips),
        0 <= n <= items.len(),
        writable_items(items, n, depth),
    ensures
        tag::all_fit(layout::item_tags(clips, items, parent, items.len() as int), n, depth),
    decreases items, n,
{
    layout::lemma_item_tags(clips, items, parent, items.len() as int);
    if n > 0 {
        lemma_items_fit(clips, items, parent, n - 1, depth);
        lemma_item_fits(clips, items[n - 1], parent, depth);
        let ts = layout::item_tags(clips, items, parent, items.len() as int);
        assert(ts[n - 1] == layout::item_tag(clips, items[n - 1], parent));
    }
}

proof fn lemma_stop_fits(s: RampStopModel)
    requires
        writable_stop(s),
    ensures
        tag::fits(layout::stop_tag(s), 3),
{
    lemma_element_names();
    lemma_stop_names();
    lemma_stop_listing(s);
    lemma_number_survives(s.offset);
    tag::lemma_listing_ok(stop_names(), stop_values(s), 3);
    tag::lemma_fits_all(layout::stop_tag(s).children, 0, 4);
}

proof fn lemma_ramp_fits(g: RampModel)
    requires
        writable_ramp(g),
    ensures
        tag::fits(layout::ramp_tag(g), 2),
{
    let t = layout::ramp_tag(g);
    let names = ramp_names(g.radial);
    let values = ramp_values(g);
    lemma_element_names();
    lemma_ramp_names(g.radial);
    lemma_ramp_listing(g);
    lemma_user_space_survives();
    assert forall|k: int| 0 <= k < values.len() implies ((#[trigger] values[k]) matches Some(v)
        ==> tag::survives(v)) by {
        if 0 < k <= g.coords.len() {
            assert(values[k] == Some(g.coords[k - 1]));
            assert(number::is_number(g.coords[k - 1]));
            lemma_number_survives(g.coords[k - 1]);
        } else if k == g.coords.len() + 2 {
            if let Some(m) = g.matrix {
                lemma_matrix_survives(m);
            }
        }
    }
    tag::lemma_listing_ok(names, values, names.len() as int);
    assert forall|k: int| 0 <= k < t.children.len() implies tag::fits(#[trigger] t.children[k], 3) by {
        assert(writable_stop(g.stops[k]));
        lemma_stop_fits(g.stops[k]);
    }
    tag::lemma_fits_all(t.children, t.children.len() as int, 3);
}

proof fn lemma_user_space_survives()
    ensures
        tag::survives("userSpaceOnUse"@),
        tag::survives("1.1"@),
{
    reveal_strlit("userSpaceOnUse");
    reveal_strlit("1.1");
    reveal_with_fuel(tag::survives_to, 16);
    assert(tag::survives_to("userSpaceOnUse"@, 14));
    tag::lemma_survives("userSpaceOnUse"@, 14);
}

proof fn lemma_outline_fits(c: OutlineModel)
    requires
        writable_outline(c),
    ensures
        tag::fits(layout::outline_tag(c), 2),
{
    let t = layout::outline_tag(c);
    lemma_element_names();
    lemma_clip_names();
    lemma_single("id"@, c.id);
    tag::lemma_listing_ok(seq!["id"@], seq![Some(c.id)], 1);
    assert forall|k: int| 0 <= k < t.children.len() implies tag::fits(#[trigger] t.children[k], 3) by {
        let els = c.paths[k];
        assert(writable_path(els));
        let d = path_data::written(els);
        lemma_written_survives(els);
        lemma_single("d"@, d);
        tag::lemma_listing_ok(seq!["d"@], seq![Some(d)], 1);
        tag::lemma_fits_all(layout::path_tag(els).children, 0, 4);
        assert(t.children[k] == layout::path_tag(els));
        assert(tag::fits(layout::path_tag(els), 3));
    }
    tag::lemma_fits_all(t.children, t.children.len() as int, 3);
}

proof fn lemma_clip_names()
    ensures
        tag::names_ok(seq!["id"@]),
        tag::names_ok(seq!["d"@]),
        "id"@ != "clipPathUnits"@,
        "d"@ != "transform"@,
{
    lemma_linear_name(0);
    lemma_item_name(0);
    lemma_other_marks();
}

proof fn lemma_page_fits(p: PageModel)
    requires
        writable(p),
    ensures
        tag::fits(layout::page_tag(p), 0),
{
    let t = layout::page_tag(p);
    let values = page_values(p);
    lemma_element_names();
    lemma_page_names();
    lemma_page_listing(p);
    lemma_user_space_survives();
    assert forall|k: int| 0 <= k < values.len() implies ((#[trigger] values[k]) matches Some(v)
        ==> tag::survives(v)) by {
        if k == 3 {
            if let Some(b) = p.view_box {
                lemma_listed_survives(b);
            }
        }
    }
    tag::lemma_listing_ok(page_names(), values, 4);
    assert(writable_outlines(p.clips));
    let n = p.roots.len() as int;
    let items = layout::item_tags(p.clips, p.roots, style::initials(), n);
    lemma_items_fit(p.clips, p.roots, style::initials(), n, 1);
    layout::lemma_item_tags(p.clips, p.roots, style::initials(), n);
    assert forall|k: int| 0 <= k < t.children.len() implies tag::fits(#[trigger] t.children[k], 1) by {
        let defs = layout::defs_tags(p);
        if k < defs.len() {
            lemma_defs_fit(p);
            assert(t.children[k] == defs[0]);
        } else {
            tag::lemma_all_fit(items, n, 1, k - defs.len());
            assert(t.children[k] == items[k - defs.len()]);
        }
    }
    tag::lemma_fits_all(t.children, t.children.len() as int, 1);
}

proof fn lemma_defs_fit(p: PageModel)
    requires
        writable(p),
        layout::defs_tags(p).len() > 0,
    ensures
        layout::defs_tags(p).len() == 1,
        tag::fits(layout::defs_tags(p)[0], 1),
{
    lemma_element_names();
    let t = layout::defs_tags(p)[0];
    let g = p.gradients.len() as int;
    assert forall|k: int| 0 <= k < t.children.len() implies tag::fits(#[trigger] t.children[k], 2) by {
        if k < g {
            assert(writable_ramp(p.gradients[k]));
            lemma_ramp_fits(p.gradients[k]);
            assert(t.children[k] == layout::ramp_tag(p.gradients[k]));
        } else {
            assert(writable_outline(p.clips[k - g]));
            lemma_outline_fits(p.clips[k - g]);
            assert(t.children[k] == layout::outline_tag(p.clips[k - g]));
        }
    }
    tag::lemma_fits_all(t.children, t.children.len() as int, 2);
}

/// A text that neither starts nor ends with white space is trimmed already.
proof fn lemma_trimmed(v: Seq<char>)
    requires
        v.len() > 0,
        !text::is_space(v[0]),
        !text::is_space(v.last()),
    ensures
        text::trimmed(v) == v,
{
}

/// A reference reads as the id it was written with.
proof fn lemma_url_id(id: Seq<char>)
    requires
        writable_id(id),
    ensures
        document::url_id("url(#"@ + id + ")"@) == Some(id),
{
    reveal_strlit("url(#");
    reveal_strlit(")");
    reveal_strlit("url(");
    let v = "url(#"@ + id + ")"@;
    assert(v[0] == 'u');
    assert(v.last() == ')');
    lemma_trimmed(v);
    assert(v.take(4) =~= "url("@);
    let inner = v.subrange(4, v.len() - 1);
    assert(inner =~= seq!['#'] + id);
    assert(inner[0] == '#');
    assert(inner.last() == id.last());
    lemma_trimmed(inner);
    assert(document::unquoted_start(inner) == inner);
    assert(document::unquoted_end(inner) == inner);
    assert(inner.skip(1) =~= id);
}

/// An element without a `style` attribute declares nothing inline.
proof fn lemma_no_inline(e: ElementModel)
    requires
        markup::plain(e, "style"@) is None,
    ensures
        style::inline(e) == Seq::<(Seq<char>, Seq<char>)>::empty(),
{
    let none = Seq::<char>::empty();
    assert(none.subrange(0, 0) =~= none);
    assert(style::first(none, ';', 0) == 0);
    assert(style::first(none, ':', 0) == 0);
    assert(style::declaration(none) is None);
    assert(style::declarations(none, 0) =~= Seq::<(Seq<char>, Seq<char>)>::empty());
}

/// What an element says of a property, or says nothing because it is computed
/// without: either way a property computes to its value.
proof fn lemma_computed(parent: Seq<Seq<char>>, e: ElementModel, values: Seq<Seq<char>>)
    requires
        style::plain_values(values),
        values.len() == style::COUNT,
        markup::plain(e, "style"@) is None,
        forall|i: int|
            0 <= i < style::COUNT ==> markup::plain(e, #[trigger] style::name(i)) == (
            if export::implied(values, parent, i) {
                None
            } else {
                Some(values[i])
            }),
    ensures
        style::resolved(parent, e) == values,
{
    lemma_no_inline(e);
    assert forall|i: int| 0 <= i < style::COUNT implies #[trigger] style::cascaded(parent, e, i)
        == values[i] by {
        assert(markup::plain(e, style::name(i)) == (if export::implied(values, parent, i) {
            None
        } else {
            Some(values[i])
        }));
        assert(!text::alike(values[i], "inherit"@));
    }
    assert forall|i: int| 0 <= i < style::COUNT implies #[trigger] style::computed(parent, e, i)
        == values[i] by {
        assert(style::cascaded(parent, e, i) == values[i]);
        assert(style::cascaded(parent, e, 0) == values[0]);
        assert(!text::alike(values[i], "currentColor"@));
        assert(!text::alike(values[0], "currentColor"@));
    }
    assert(style::resolved(parent, e) =~= values);
}

/// Writing only the values that a reader would not compute by itself loses
/// none: a node's style comes back.
proof fn lemma_style_back(
    e: ElementModel,
    clips: Seq<OutlineModel>,
    item: ItemModel,
    parent: Seq<Seq<char>>,
)
    requires
        writable_style(item.style),
        e.attributes == tag::attribute_models(layout::item_tag(clips, item, parent).attributes),
    ensures
        style::resolved(parent, e) == item.style,
{
    let names = item_names();
    let values = item_values(clips, item, parent);
    lemma_item_names();
    lemma_item_listing(clips, item, parent);
    tag::lemma_listing_absent(names, values, 20, "style"@);
    assert forall|i: int| 0 <= i < style::COUNT implies markup::plain(
        e,
        #[trigger] style::name(i),
    ) == (if export::implied(item.style, parent, i) {
        None
    } else {
        Some(item.style[i])
    }) by {
        tag::lemma_listing_found(names, values, 20, i + 3);
        assert(names[i + 3] == style::name(i));
        assert(values[i + 3] == item_value(clips, item, parent, i + 3));
    }
    lemma_computed(parent, e, item.style);
}

/// A transform as it is read: a matrix, or nothing.
pub open spec fn matrix_functions(matrix: Option<Seq<Seq<char>>>) -> Seq<FunctionModel> {
    match matrix {
        Some(m) => seq![FunctionModel { kind: Kind::Matrix, args: m }],
        None => Seq::empty(),
    }
}

/// Whether a node of the scene is this one, with everything under it. A clip
/// that the page does not have is gone.
pub open spec fn comes_back(clips: Seq<OutlineModel>, item: ItemModel, t: TreeModel) -> bool
    decreases item, 0int,
{
    &&& t.style == item.style
    &&& t.transform == matrix_functions(item.matrix)
    &&& t.shift is None
    &&& t.clip == layout::kept_clip(clips, item.clip)
    &&& match (item.kind, t.kind) {
        (
            ItemKindModel::Path(els),
            KindModel::Shape(ShapeModel::Drawn(d)),
        ) => path_data::all_plotted(d) == els,
        (ItemKindModel::Group(items), KindModel::Group(nodes)) => nodes.len() == items.len()
            && all_come_back(clips, items, nodes, items.len() as int),
        _ => false,
    }
}

/// Whether the first `n` nodes are these, in order.
pub open spec fn all_come_back(
    clips: Seq<OutlineModel>,
    items: Seq<ItemModel>,
    nodes: Seq<TreeModel>,
    n: int,
) -> bool
    decreases items, n,
{
    n <= 0 || n > items.len() || (all_come_back(clips, items, nodes, n - 1) && comes_back(
        clips,
        items[n - 1],
        nodes[n - 1],
    ))
}

/// Whether every paint reference of a node and of those under it names one of
/// these gradients.
pub open spec fn painted(gradients: Seq<Seq<char>>, item: ItemModel) -> bool
    decreases item, 0int,
{
    &&& document::url_id(item.style[1]) matches Some(id) ==> gradients.contains(id)
    &&& document::url_id(item.style[4]) matches Some(id) ==> gradients.contains(id)
    &&& item.kind matches ItemKindModel::Group(items) ==> all_painted(
        gradients,
        items,
        items.len() as int,
    )
}

pub open spec fn all_painted(gradients: Seq<Seq<char>>, items: Seq<ItemModel>, n: int) -> bool
    decreases items, n,
{
    n <= 0 || n > items.len() || (all_painted(gradients, items, n - 1) && painted(
        gradients,
        items[n - 1],
    ))
}

proof fn lemma_all_come_back_prefix(
    clips: Seq<OutlineModel>,
    items: Seq<ItemModel>,
    a: Seq<TreeModel>,
    b: Seq<TreeModel>,
    n: int,
)
    requires
        all_come_back(clips, items, a, n),
        0 <= n <= items.len(),
        n <= a.len(),
        n <= b.len(),
        forall|k: int| 0 <= k < n ==> (#[trigger] a[k]) == b[k],
    ensures
        all_come_back(clips, items, b, n),
    decreases n,
{
    if n > 0 {
        assert(a[n - 1] == b[n - 1]);
        lemma_all_come_back_prefix(clips, items, a, b, n - 1);
    }
}

/// What is read of a node's attributes besides its style.
proof fn lemma_attributes_back(
    w: WorldModel,
    e: ElementModel,
    clips: Seq<OutlineModel>,
    item: ItemModel,
    parent: Seq<Seq<char>>,
)
    requires
        writable_outlines(clips),
        writable_matrix(item.matrix),
        forall|k: int| 0 <= k < clips.len() ==> w.clips.contains((#[trigger] clips[k]).id),
        e.attributes == tag::attribute_models(layout::item_tag(clips, item, parent).attributes),
    ensures
        markup::plain(e, "d"@) == item_value(clips, item, parent, 0),
        document::transform_of(e) == (matrix_functions(item.matrix), None::<Seq<char>>),
        document::clip_of(e) == layout::kept_clip(clips, item.clip),
        document::clip_loss(w, e) is None,
        document::effect_loss(e, "mask"@) is None,
        document::effect_loss(e, "filter"@) is None,
        document::effect_loss(e, "marker-start"@) is None,
        document::effect_loss(e, "marker-mid"@) is None,
        document::effect_loss(e, "marker-end"@) is None,
{
    let names = item_names();
    let values = item_values(clips, item, parent);
    lemma_item_names();
    lemma_item_listing(clips, item, parent);
    tag::lemma_listing_absent(names, values, 20, "mask"@);
    tag::lemma_listing_absent(names, values, 20, "filter"@);
    tag::lemma_listing_absent(names, values, 20, "marker-start"@);
    tag::lemma_listing_absent(names, values, 20, "marker-mid"@);
    tag::lemma_listing_absent(names, values, 20, "marker-end"@);
    tag::lemma_listing_found(names, values, 20, 0);
    tag::lemma_listing_found(names, values, 20, 1);
    tag::lemma_listing_found(names, values, 20, 2);
    assert(names[0] == "d"@ && names[1] == "transform"@ && names[2] == "clip-path"@);
    assert(values[0] == item_value(clips, item, parent, 0));
    assert(values[1] == item_value(clips, item, parent, 1));
    assert(values[2] == item_value(clips, item, parent, 2));
    if let Some(m) = item.matrix {
        transform::parsing_undoes_writing_a_matrix(m);
    }
    lemma_kept_clip(clips, item.clip);
    if let Some(id) = layout::kept_clip(clips, item.clip) {
        lemma_url_id(id);
        let k = choose|k: int| 0 <= k < clips.len() && (#[trigger] clips[k]).id == id;
        assert(w.clips.contains(clips[k].id));
    }
}

/// What the elements of a page are and are not.
proof fn lemma_kinds()
    ensures
        document::is_group("g"@),
        !document::is_group("path"@),
        "path"@ != "switch"@,
        "path"@ != "use"@,
        "g"@ != "use"@,
        !document::is_silent("path"@),
        document::is_shape("path"@),
        document::basic_of("path"@) is None,
        "path"@ != "polyline"@,
        "path"@ != "polygon"@,
        document::is_silent("defs"@),
        !document::is_group("defs"@),
        "defs"@ != "switch"@,
        "defs"@ != "use"@,
        "path"@ != "g"@,
{
    reveal_strlit("g");
    reveal_strlit("a");
    reveal_strlit("symbol");
    reveal_strlit("svg");
    reveal_strlit("path");
    reveal_strlit("switch");
    reveal_strlit("use");
    reveal_strlit("defs");
    reveal_strlit("clipPath");
    reveal_strlit("linearGradient");
    reveal_strlit("radialGradient");
    reveal_strlit("title");
    reveal_strlit("desc");
    reveal_strlit("metadata");
    reveal_strlit("stop");
    reveal_strlit("style");
    reveal_strlit("rect");
    reveal_strlit("circle");
    reveal_strlit("ellipse");
    reveal_strlit("line");
    reveal_strlit("polyline");
    reveal_strlit("polygon");
    assert("g"@.len() == 1);
    assert("a"@.len() == 1);
    assert("symbol"@.len() == 6);
    assert("svg"@.len() == 3);
    assert("path"@.len() == 4);
    assert("switch"@.len() == 6);
    assert("use"@.len() == 3);
    assert("defs"@.len() == 4);
    assert("clipPath"@.len() == 8);
    assert("linearGradient"@.len() == 14);
    assert("radialGradient"@.len() == 14);
    assert("title"@.len() == 5);
    assert("desc"@.len() == 4);
    assert("metadata"@.len() == 8);
    assert("stop"@.len() == 4);
    assert("style"@.len() == 5);
    assert("rect"@.len() == 4);
    assert("circle"@.len() == 6);
    assert("ellipse"@.len() == 7);
    assert("line"@.len() == 4);
    assert("polyline"@.len() == 8);
    assert("polygon"@.len() == 7);
    assert("path"@[0] == 'p');
    assert("defs"@[0] == 'd');
    assert("desc"@[0] == 'd');
    assert("stop"@[0] == 's');
    assert("rect"@[0] == 'r');
    assert("line"@[0] == 'l');
}

/// A path comes back as the elements it was written with.
proof fn lemma_shape_back(e: ElementModel, els: Seq<PlottedModel>, hidden: Seq<(nat, nat)>)
    requires
        writable_path(els),
        e.name.local == "path"@,
        markup::plain(e, "d"@) == Some(path_data::written(els)),
    ensures
        document::shape_of(e, hidden).0 matches Some(ShapeModel::Drawn(d))
            && path_data::all_plotted(d) == els,
        document::shape_of(e, hidden).1 is None,
{
    lemma_kinds();
    path_data::parsing_undoes_writing(els);
    let d = path_data::drawn(path_data::written(els)).0;
    assert(path_data::all_plotted(d).len() == d.steps.len());
}

/// A node comes back, and nothing of it is lost.
proof fn lemma_node_back(
    w: WorldModel,
    e: ElementModel,
    clips: Seq<OutlineModel>,
    item: ItemModel,
    parent: Seq<Seq<char>>,
    deep: nat,
)
    requires
        tag::reads(e, layout::item_tag(clips, item, parent)),
        writable_outlines(clips),
        writable_item(item, deep),
        forall|k: int| 0 <= k < clips.len() ==> w.clips.contains((#[trigger] clips[k]).id),
    ensures
        document::node(w, e, parent, 0, Seq::empty()).0 matches Some(t) && comes_back(
            clips,
            item,
            t,
        ),
        painted(w.gradients, item) ==> document::node(w, e, parent, 0, Seq::empty()).1.len() == 0,
    decreases item, 0int,
{
    let none = Seq::<Seq<char>>::empty();
    lemma_kinds();
    lemma_style_back(e, clips, item, parent);
    lemma_attributes_back(w, e, clips, item, parent);
    assert(document::is_svg(e));
    let values = item.style;
    match item.kind {
        ItemKindModel::Path(els) => {
            lemma_shape_back(e, els, w.hidden);
            let (kind, losses) = document::content(w, e, values, 0, none);
            assert(losses.len() == 0);
        },
        ItemKindModel::Group(items) => {
            let n = items.len() as int;
            let ts = layout::item_tags(clips, items, values, n);
            layout::lemma_item_tags(clips, items, values, n);
            lemma_children_back(
                w,
                e.children,
                e.children.len() as int,
                ts,
                n,
                clips,
                items,
                values,
                0,
                deep + 1,
            );
            let (nodes, losses) = document::children(
                w,
                e.children,
                values,
                0,
                none,
                e.children.len() as int,
            );
            assert(document::content(w, e, values, 0, none).0 == Some(KindModel::Group(nodes)));
            assert(painted(w.gradients, item) ==> losses.len() == 0);
        },
    }
    if painted(w.gradients, item) {
        assert(document::remarks(w, e, values).len() == 0);
    }
}

/// The nodes among the children of an element come back, in order. The first
/// `off` elements are definitions, which draw nothing.
proof fn lemma_children_back(
    w: WorldModel,
    nodes: Seq<NodeModel>,
    n: int,
    ts: Seq<Tag>,
    m: int,
    clips: Seq<OutlineModel>,
    items: Seq<ItemModel>,
    parent: Seq<Seq<char>>,
    off: int,
    deep: nat,
)
    requires
        0 <= n <= nodes.len(),
        0 <= m <= ts.len(),
        0 <= off,
        ts.len() == off + items.len(),
        forall|k: int| 0 <= k < off ==> (#[trigger] ts[k]).name == "defs"@,
        forall|k: int|
            off <= k < ts.len() ==> (#[trigger] ts[k]) == layout::item_tag(
                clips,
                items[k - off],
                parent,
            ),
        tag::all_read(nodes, n, ts, m),
        writable_outlines(clips),
        writable_items(items, items.len() as int, deep),
        forall|k: int| 0 <= k < clips.len() ==> w.clips.contains((#[trigger] clips[k]).id),
    ensures
        ({
            let (found, losses) = document::children(w, nodes, parent, 0, Seq::empty(), n);
            let count = if m <= off {
                0
            } else {
                m - off
            };
            &&& found.len() == count
            &&& all_come_back(clips, items, found, count)
            &&& all_painted(w.gradients, items, count) ==> losses.len() == 0
        }),
    decreases items, n,
{
    let none = Seq::<Seq<char>>::empty();
    if n > 0 {
        let front = document::children(w, nodes, parent, 0, none, n - 1).0;
        match nodes[n - 1] {
            NodeModel::Text(_) => {
                lemma_children_back(w, nodes, n - 1, ts, m, clips, items, parent, off, deep);
            },
            NodeModel::Element(e) => {
                lemma_children_back(w, nodes, n - 1, ts, m - 1, clips, items, parent, off, deep);
                let t = ts[m - 1];
                assert(tag::reads(e, t));
                if m <= off {
                    lemma_kinds();
                    assert(e.name.local == "defs"@);
                    assert(document::node(w, e, parent, 0, none).0 is None);
                    assert(document::node(w, e, parent, 0, none).1.len() == 0);
                } else {
                    let k = m - 1 - off;
                    lemma_writable_item(items, items.len() as int, deep, k);
                    lemma_node_back(w, e, clips, items[k], parent, deep);
                    let found = document::node(w, e, parent, 0, none).0->0;
                    lemma_all_come_back_prefix(clips, items, front, front.push(found), k);
                }
            },
        }
    }
}

proof fn lemma_writable_item(items: Seq<ItemModel>, n: int, depth: nat, k: int)
    requires
        writable_items(items, n, depth),
        0 <= k < n <= items.len(),
    ensures
        writable_item(items[k], depth),
    decreases n,
{
    if k < n - 1 {
        lemma_writable_item(items, n - 1, depth, k);
    }
}

/// A number as a length: in user units.
pub open spec fn user_length(t: Seq<char>) -> LengthModel {
    LengthModel { number: t, unit: Unit::User }
}

proof fn lemma_not_ending(v: Seq<char>, u: Seq<char>)
    requires
        v.len() > 0,
        u.len() > 0,
        v.last() != u.last(),
    ensures
        !document::ends_with(v, u),
{
    if document::ends_with(v, u) {
        assert(v.skip(v.len() - u.len()).last() == v.last());
    }
}

/// A number reads as a length.
proof fn lemma_length_back(t: Seq<char>)
    requires
        number::is_number(t),
    ensures
        document::length(t) == Some(user_length(t)),
{
    number::lemma_number_chars(t);
    assert(number::is_number_char(t[0]));
    lemma_trimmed(t);
    reveal_strlit("px");
    reveal_strlit("pt");
    reveal_strlit("pc");
    reveal_strlit("mm");
    reveal_strlit("cm");
    reveal_strlit("in");
    reveal_strlit("%");
    lemma_not_ending(t, "px"@);
    lemma_not_ending(t, "pt"@);
    lemma_not_ending(t, "pc"@);
    lemma_not_ending(t, "mm"@);
    lemma_not_ending(t, "cm"@);
    lemma_not_ending(t, "in"@);
    lemma_not_ending(t, "%"@);
    assert(t.take(t.len() as int) =~= t);
}

/// Whether a colour stop is this one.
pub open spec fn stop_comes_back(s: RampStopModel, m: StopModel) -> bool {
    m == StopModel { offset: Some(user_length(s.offset)), color: s.color, opacity: s.opacity }
}

/// Whether a gradient is this one.
pub open spec fn ramp_comes_back(g: RampModel, m: GradientModel) -> bool {
    &&& m.id == g.id
    &&& m.radial == g.radial
    &&& m.coords.len() == g.coords.len()
    &&& forall|k: int|
        0 <= k < g.coords.len() ==> (#[trigger] m.coords[k]) == Some(user_length(g.coords[k]))
    &&& m.transform == matrix_functions(g.matrix)
    &&& m.user_space == g.user_space
    &&& m.spread == g.spread
    &&& m.stops.len() == g.stops.len()
    &&& forall|k: int| 0 <= k < g.stops.len() ==> stop_comes_back(g.stops[k], #[trigger] m.stops[k])
}

/// Whether a clip is this one.
pub open spec fn outline_comes_back(c: OutlineModel, m: ClipModel) -> bool {
    &&& m.id == c.id
    &&& m.shapes.len() == c.paths.len()
    &&& forall|k: int|
        0 <= k < c.paths.len() ==> path_comes_back(c.paths[k], #[trigger] m.shapes[k])
}

/// Whether a shape of a clip is this path, with no transform on it.
pub open spec fn path_comes_back(els: Seq<PlottedModel>, m: ClipShapeModel) -> bool {
    &&& m.transforms == seq![Seq::<FunctionModel>::empty()]
    &&& m.shape matches ShapeModel::Drawn(d) && path_data::all_plotted(d) == els
}

proof fn lemma_stop_back(e: ElementModel, s: RampStopModel, parent: Seq<Seq<char>>)
    requires
        writable_stop(s),
        tag::reads(e, layout::stop_tag(s)),
    ensures
        stop_comes_back(s, document::stop_of(e, parent)),
{
    let names = stop_names();
    let values = stop_values(s);
    lemma_stop_names();
    lemma_stop_listing(s);
    tag::lemma_listing_absent(names, values, 3, "style"@);
    tag::lemma_listing_found(names, values, 3, 0);
    tag::lemma_listing_found(names, values, 3, 1);
    tag::lemma_listing_found(names, values, 3, 2);
    lemma_no_inline(e);
    lemma_length_back(s.offset);
    assert(style::declared(e, 15) == Some(s.color));
    assert(style::declared(e, 16) == Some(s.opacity));
    assert(style::computed(parent, e, 15) == s.color);
    assert(style::computed(parent, e, 16) == s.opacity);
}

proof fn lemma_stops_back(
    nodes: Seq<NodeModel>,
    n: int,
    stops: Seq<RampStopModel>,
    m: int,
    parent: Seq<Seq<char>>,
)
    requires
        0 <= n <= nodes.len(),
        0 <= m <= stops.len(),
        tag::all_read(nodes, n, layout::stop_tags(stops), m),
        forall|k: int| 0 <= k < stops.len() ==> writable_stop(#[trigger] stops[k]),
    ensures
        document::stops_of(nodes, parent, n).len() == m,
        forall|k: int|
            0 <= k < m ==> stop_comes_back(
                stops[k],
                #[trigger] document::stops_of(nodes, parent, n)[k],
            ),
    decreases n,
{
    if n > 0 {
        match nodes[n - 1] {
            NodeModel::Text(_) => {
                lemma_stops_back(nodes, n - 1, stops, m, parent);
            },
            NodeModel::Element(e) => {
                lemma_stops_back(nodes, n - 1, stops, m - 1, parent);
                assert(layout::stop_tags(stops)[m - 1] == layout::stop_tag(stops[m - 1]));
                assert(tag::reads(e, layout::stop_tag(stops[m - 1])));
                assert(writable_stop(stops[m - 1]));
                lemma_stop_back(e, stops[m - 1], parent);
            },
        }
    }
}

/// An attribute of a gradient without references is its own.
proof fn lemma_inherited(els: Seq<ElementModel>, e: ElementModel, g: RampModel, j: int)
    requires
        writable_ramp(g),
        tag::reads(e, layout::ramp_tag(g)),
        0 <= j < ramp_names(g.radial).len(),
    ensures
        markup::plain(e, ramp_names(g.radial)[j]) == ramp_values(g)[j],
        document::inherited(els, e, ramp_names(g.radial)[j], document::MAX_USE_DEPTH as int)
            == ramp_values(g)[j],
        document::target(els, e) is None,
{
    let names = ramp_names(g.radial);
    let values = ramp_values(g);
    let n = names.len() as int;
    lemma_ramp_names(g.radial);
    lemma_ramp_listing(g);
    tag::lemma_listing_found(names, values, n, j);
    let a = layout::ramp_tag(g).attributes;
    lemma_listing_names(names, values, n);
    assert forall|k: int| 0 <= k < a.len() implies (#[trigger] a[k]).0 != "href"@ by {
        assert(names.contains(a[k].0));
        let i = choose|i: int| 0 <= i < names.len() && names[i] == a[k].0;
        assert(names[i] != "href"@);
    }
    tag::lemma_no_href(a, 0);
}

/// Every attribute that is listed has one of the names.
proof fn lemma_listing_names(names: Seq<Seq<char>>, values: Seq<Option<Seq<char>>>, n: int)
    requires
        0 <= n <= names.len(),
    ensures
        forall|k: int|
            0 <= k < tag::listing(names, values, n).len() ==> names.contains(
                (#[trigger] tag::listing(names, values, n)[k]).0,
            ),
    decreases n,
{
    if n > 0 {
        lemma_listing_names(names, values, n - 1);
        let a = tag::listing(names, values, n - 1);
        let b = tag::listing(names, values, n);
        assert forall|k: int| 0 <= k < b.len() implies names.contains((#[trigger] b[k]).0) by {
            if k < a.len() {
                assert(b[k] == a[k]);
            } else {
                assert(names[n - 1] == b[k].0);
            }
        }
    }
}

proof fn lemma_gradient_back(els: Seq<ElementModel>, e: ElementModel, g: RampModel)
    requires
        writable_ramp(g),
        tag::reads(e, layout::ramp_tag(g)),
    ensures
        ramp_comes_back(g, document::gradient(els, e, g.id)),
        document::gradient_transform(els, e).1 is None,
        document::id_of(e) == Some(g.id),
{
    let names = ramp_names(g.radial);
    let values = ramp_values(g);
    let n = g.coords.len() as int;
    lemma_ramp_listing(g);
    lemma_inherited(els, e, g, 0);
    lemma_inherited(els, e, g, n + 1);
    lemma_inherited(els, e, g, n + 2);
    lemma_inherited(els, e, g, n + 3);
    assert(names[0] == "id"@);
    assert(names[n + 1] == "gradientUnits"@);
    assert(names[n + 2] == "gradientTransform"@);
    assert(names[n + 3] == "spreadMethod"@);
    if let Some(m) = g.matrix {
        transform::parsing_undoes_writing_a_matrix(m);
    }
    reveal_strlit("linearGradient");
    reveal_strlit("radialGradient");
    assert("linearGradient"@[0] != "radialGradient"@[0]);
    let m = document::gradient(els, e, g.id);
    assert(m.radial == g.radial);
    assert forall|k: int| 0 <= k < n implies (#[trigger] m.coords[k]) == Some(
        user_length(g.coords[k]),
    ) by {
        lemma_inherited(els, e, g, k + 1);
        assert(names[k + 1] == document::coords_of(g.radial)[k]);
        assert(values[k + 1] == Some(g.coords[k]));
        assert(number::is_number(g.coords[k]));
        lemma_length_back(g.coords[k]);
    }
    assert(document::stop_source(els, e, document::MAX_USE_DEPTH as int) == e);
    lemma_stops_back(
        e.children,
        e.children.len() as int,
        g.stops,
        g.stops.len() as int,
        style::resolved(style::initials(), e),
    );
}

proof fn lemma_clip_shapes_back(
    nodes: Seq<NodeModel>,
    n: int,
    c: OutlineModel,
    m: int,
    hidden: Seq<(nat, nat)>,
)
    requires
        0 <= n <= nodes.len(),
        0 <= m <= c.paths.len(),
        tag::all_read(nodes, n, layout::outline_tag(c).children, m),
        writable_outline(c),
    ensures
        document::clip_shapes(nodes, Seq::empty(), hidden, n).0.len() == m,
        forall|k: int|
            0 <= k < m ==> path_comes_back(
                c.paths[k],
                #[trigger] document::clip_shapes(nodes, Seq::empty(), hidden, n).0[k],
            ),
        document::clip_shapes(nodes, Seq::empty(), hidden, n).1.len() == 0,
    decreases n,
{
    if n > 0 {
        match nodes[n - 1] {
            NodeModel::Text(_) => {
                lemma_clip_shapes_back(nodes, n - 1, c, m, hidden);
            },
            NodeModel::Element(e) => {
                lemma_clip_shapes_back(nodes, n - 1, c, m - 1, hidden);
                let els = c.paths[m - 1];
                let d = path_data::written(els);
                assert(layout::outline_tag(c).children[m - 1] == layout::path_tag(els));
                assert(tag::reads(e, layout::path_tag(els)));
                assert(writable_path(els));
                lemma_clip_names();
                lemma_single("d"@, d);
                tag::lemma_listing_found(seq!["d"@], seq![Some(d)], 1, 0);
                tag::lemma_listing_absent(seq!["d"@], seq![Some(d)], 1, "transform"@);
                lemma_kinds();
                lemma_shape_back(e, els, hidden);
                let none = Seq::<Seq<FunctionModel>>::empty();
                assert(none.push(Seq::<FunctionModel>::empty()) =~= seq![
                    Seq::<FunctionModel>::empty(),
                ]);
            },
        }
    }
}

/// The definitions among some elements, and what is lost of them and of
/// stylesheets.
struct Found {
    gradients: Seq<GradientModel>,
    clips: Seq<ClipModel>,
    of_gradients: Seq<LossModel>,
    of_clips: Seq<LossModel>,
    of_sheets: Seq<LossModel>,
}

spec fn found_nothing() -> Found {
    Found {
        gradients: Seq::empty(),
        clips: Seq::empty(),
        of_gradients: Seq::empty(),
        of_clips: Seq::empty(),
        of_sheets: Seq::empty(),
    }
}

/// What one element adds. `els` is the whole document.
spec fn found_at(els: Seq<ElementModel>, hidden: Seq<(nat, nat)>, e: ElementModel) -> Found {
    let shapes = document::clip_shapes(
        e.children,
        Seq::empty(),
        hidden,
        e.children.len() as int,
    );
    let units = if markup::plain(e, "clipPathUnits"@) == Some("objectBoundingBox"@) {
        Some("clipPathUnits=\"objectBoundingBox\" ignored"@)
    } else {
        None
    };
    Found {
        gradients: if document::is_gradient(e) {
            match document::id_of(e) {
                Some(id) => seq![document::gradient(els, e, id)],
                None => Seq::empty(),
            }
        } else {
            Seq::empty()
        },
        of_gradients: if document::is_gradient(e) && document::id_of(e) is Some {
            document::lost(e, document::gradient_transform(els, e).1)
        } else {
            Seq::empty()
        },
        clips: if document::is_clip(e) {
            match document::id_of(e) {
                Some(id) => seq![ClipModel { id, shapes: shapes.0 }],
                None => Seq::empty(),
            }
        } else {
            Seq::empty()
        },
        of_clips: if document::is_clip(e) && document::id_of(e) is Some {
            document::lost(e, units) + shapes.1
        } else {
            Seq::empty()
        },
        of_sheets: if document::is_svg(e) && e.name.local == "style"@ {
            document::lost(e, Some("CSS in a <style> element is not applied"@))
        } else {
            Seq::empty()
        },
    }
}

spec fn both(a: Found, b: Found) -> Found {
    Found {
        gradients: a.gradients + b.gradients,
        clips: a.clips + b.clips,
        of_gradients: a.of_gradients + b.of_gradients,
        of_clips: a.of_clips + b.of_clips,
        of_sheets: a.of_sheets + b.of_sheets,
    }
}

spec fn found(els: Seq<ElementModel>, hidden: Seq<(nat, nat)>, list: Seq<ElementModel>) -> Found
    decreases list.len(),
{
    if list.len() == 0 {
        found_nothing()
    } else {
        both(found(els, hidden, list.drop_last()), found_at(els, hidden, list.last()))
    }
}

proof fn lemma_both_nothing(a: Found)
    ensures
        both(a, found_nothing()) == a,
        both(found_nothing(), a) == a,
{
    let n = found_nothing();
    assert(both(a, n).gradients =~= a.gradients);
    assert(both(a, n).clips =~= a.clips);
    assert(both(a, n).of_gradients =~= a.of_gradients);
    assert(both(a, n).of_clips =~= a.of_clips);
    assert(both(a, n).of_sheets =~= a.of_sheets);
    assert(both(n, a).gradients =~= a.gradients);
    assert(both(n, a).clips =~= a.clips);
    assert(both(n, a).of_gradients =~= a.of_gradients);
    assert(both(n, a).of_clips =~= a.of_clips);
    assert(both(n, a).of_sheets =~= a.of_sheets);
}

proof fn lemma_both_chain(a: Found, b: Found, c: Found)
    ensures
        both(both(a, b), c) == both(a, both(b, c)),
{
    let l = both(both(a, b), c);
    let r = both(a, both(b, c));
    assert(l.gradients =~= r.gradients);
    assert(l.clips =~= r.clips);
    assert(l.of_gradients =~= r.of_gradients);
    assert(l.of_clips =~= r.of_clips);
    assert(l.of_sheets =~= r.of_sheets);
}

proof fn lemma_found_add(
    els: Seq<ElementModel>,
    hidden: Seq<(nat, nat)>,
    a: Seq<ElementModel>,
    b: Seq<ElementModel>,
)
    ensures
        found(els, hidden, a + b) == both(found(els, hidden, a), found(els, hidden, b)),
    decreases b.len(),
{
    if b.len() == 0 {
        assert(a + b =~= a);
        lemma_both_nothing(found(els, hidden, a));
    } else {
        assert((a + b).drop_last() =~= a + b.drop_last());
        lemma_found_add(els, hidden, a, b.drop_last());
        lemma_both_chain(
            found(els, hidden, a),
            found(els, hidden, b.drop_last()),
            found_at(els, hidden, b.last()),
        );
    }
}

proof fn lemma_found_one(els: Seq<ElementModel>, hidden: Seq<(nat, nat)>, e: ElementModel)
    ensures
        found(els, hidden, seq![e]) == found_at(els, hidden, e),
{
    assert(seq![e].drop_last() =~= Seq::<ElementModel>::empty());
    reveal_with_fuel(found, 2);
    lemma_both_nothing(found_at(els, hidden, e));
}

/// What the document finds is what is found among all its elements.
proof fn lemma_found_all(els: Seq<ElementModel>, hidden: Seq<(nat, nat)>, n: int)
    requires
        0 <= n <= els.len(),
    ensures
        ({
            let f = found(els, hidden, els.take(n));
            &&& document::gradients(els, n) == (f.gradients, f.of_gradients)
            &&& document::clips(els, hidden, n) == (f.clips, f.of_clips)
            &&& document::stylesheet_losses(els, n) == f.of_sheets
        }),
    decreases n,
{
    if n > 0 {
        lemma_found_all(els, hidden, n - 1);
        assert(els.take(n).drop_last() =~= els.take(n - 1));
        let e = els[n - 1];
        let a = found(els, hidden, els.take(n - 1));
        let f = both(a, found_at(els, hidden, e));
        assert(els.take(n).last() == e);
        assert(document::gradients(els, n).0 =~= f.gradients);
        assert(document::gradients(els, n).1 =~= f.of_gradients);
        assert(document::clips(els, hidden, n).0 =~= f.clips);
        assert(document::clips(els, hidden, n).1 =~= f.of_clips);
        assert(document::stylesheet_losses(els, n) =~= f.of_sheets);
    }
}

/// Whether elements of this name are looked for wherever they stand.
spec fn defines(name: Seq<char>) -> bool {
    name == "linearGradient"@ || name == "radialGradient"@ || name == "clipPath"@ || name
        == "style"@
}

/// Whether an element and those under it define nothing.
spec fn inert(t: Tag) -> bool
    decreases t, 0int,
{
    &&& !defines(t.name)
    &&& all_inert(t.children, t.children.len() as int)
}

spec fn all_inert(ts: Seq<Tag>, m: int) -> bool
    decreases ts, m,
{
    m <= 0 || m > ts.len() || (all_inert(ts, m - 1) && inert(ts[m - 1]))
}

proof fn lemma_found_inert(
    els: Seq<ElementModel>,
    hidden: Seq<(nat, nat)>,
    e: ElementModel,
    t: Tag,
)
    requires
        tag::reads(e, t),
        inert(t),
    ensures
        found(els, hidden, document::all(e)) == found_nothing(),
    decreases t, 0int,
{
    let n = e.children.len() as int;
    lemma_found_all_inert(els, hidden, e.children, n, t.children, t.children.len() as int);
    lemma_found_one(els, hidden, e);
    lemma_found_add(els, hidden, seq![e], document::all_of(e.children, n));
    lemma_both_nothing(found_nothing());
}

proof fn lemma_found_all_inert(
    els: Seq<ElementModel>,
    hidden: Seq<(nat, nat)>,
    nodes: Seq<NodeModel>,
    n: int,
    ts: Seq<Tag>,
    m: int,
)
    requires
        0 <= n <= nodes.len(),
        0 <= m <= ts.len(),
        tag::all_read(nodes, n, ts, m),
        all_inert(ts, m),
    ensures
        found(els, hidden, document::all_of(nodes, n)) == found_nothing(),
    decreases ts, n,
{
    if n > 0 {
        let front = document::all_of(nodes, n - 1);
        match nodes[n - 1] {
            NodeModel::Text(_) => {
                lemma_found_all_inert(els, hidden, nodes, n - 1, ts, m);
                assert(front + Seq::<ElementModel>::empty() =~= front);
            },
            NodeModel::Element(e) => {
                lemma_found_all_inert(els, hidden, nodes, n - 1, ts, m - 1);
                lemma_found_inert(els, hidden, e, ts[m - 1]);
                lemma_found_add(els, hidden, front, document::all(e));
                lemma_both_nothing(found_nothing());
            },
        }
    }
}

/// The names of the elements that define something, and of others.
proof fn lemma_definers()
    ensures
        "linearGradient"@ != "clipPath"@,
        "radialGradient"@ != "clipPath"@,
        "linearGradient"@ != "style"@,
        "radialGradient"@ != "style"@,
        "clipPath"@ != "style"@,
        !defines("path"@),
        !defines("g"@),
        !defines("stop"@),
        !defines("defs"@),
        !defines("svg"@),
{
    reveal_strlit("linearGradient");
    reveal_strlit("radialGradient");
    reveal_strlit("clipPath");
    reveal_strlit("style");
    reveal_strlit("path");
    reveal_strlit("g");
    reveal_strlit("stop");
    reveal_strlit("defs");
    reveal_strlit("svg");
    assert("linearGradient"@.len() == 14);
    assert("radialGradient"@.len() == 14);
    assert("clipPath"@.len() == 8);
    assert("style"@.len() == 5);
    assert("path"@.len() == 4);
    assert("g"@.len() == 1);
    assert("stop"@.len() == 4);
    assert("defs"@.len() == 4);
    assert("svg"@.len() == 3);
}

proof fn lemma_item_inert(clips: Seq<OutlineModel>, item: ItemModel, parent: Seq<Seq<char>>)
    ensures
        inert(layout::item_tag(clips, item, parent)),
    decreases item, 0int,
{
    lemma_definers();
    match item.kind {
        ItemKindModel::Path(els) => {},
        ItemKindModel::Group(items) => {
            let n = items.len() as int;
            layout::lemma_item_tags(clips, items, item.style, n);
            lemma_items_inert(clips, items, item.style, n);
        },
    }
}

proof fn lemma_items_inert(
    clips: Seq<OutlineModel>,
    items: Seq<ItemModel>,
    parent: Seq<Seq<char>>,
    n: int,
)
    requires
        0 <= n <= items.len(),
    ensures
        all_inert(layout::item_tags(clips, items, parent, items.len() as int), n),
    decreases items, n,
{
    layout::lemma_item_tags(clips, items, parent, items.len() as int);
    if n > 0 {
        lemma_items_inert(clips, items, parent, n - 1);
        lemma_item_inert(clips, items[n - 1], parent);
        let ts = layout::item_tags(clips, items, parent, items.len() as int);
        assert(ts[n - 1] == layout::item_tag(clips, items[n - 1], parent));
    }
}

proof fn lemma_all_inert(ts: Seq<Tag>, m: int)
    requires
        m <= ts.len(),
        forall|k: int| 0 <= k < m ==> inert(#[trigger] ts[k]),
    ensures
        all_inert(ts, m),
    decreases m,
{
    if m > 0 {
        lemma_all_inert(ts, m - 1);
        assert(inert(ts[m - 1]));
    }
}

/// What is found of a gradient: itself.
proof fn lemma_found_ramp(
    els: Seq<ElementModel>,
    hidden: Seq<(nat, nat)>,
    e: ElementModel,
    g: RampModel,
)
    requires
        tag::reads(e, layout::ramp_tag(g)),
        writable_ramp(g),
    ensures
        ({
            let f = found(els, hidden, document::all(e));
            &&& f == Found { gradients: f.gradients, ..found_nothing() }
            &&& f.gradients.len() == 1
            &&& ramp_comes_back(g, f.gradients[0])
        }),
{
    let t = layout::ramp_tag(g);
    let n = e.children.len() as int;
    lemma_definers();
    assert forall|k: int| 0 <= k < t.children.len() implies inert(#[trigger] t.children[k]) by {
        assert(t.children[k] == layout::stop_tag(g.stops[k]));
        assert(all_inert(layout::stop_tag(g.stops[k]).children, 0));
    }
    lemma_all_inert(t.children, t.children.len() as int);
    lemma_found_all_inert(els, hidden, e.children, n, t.children, t.children.len() as int);
    lemma_found_one(els, hidden, e);
    lemma_found_add(els, hidden, seq![e], document::all_of(e.children, n));
    lemma_gradient_back(els, e, g);
    let f = found_at(els, hidden, e);
    lemma_both_nothing(f);
    assert(document::is_gradient(e));
    assert(f.of_gradients =~= Seq::<LossModel>::empty());
}

/// What is found of a clip: itself.
proof fn lemma_found_outline(
    els: Seq<ElementModel>,
    hidden: Seq<(nat, nat)>,
    e: ElementModel,
    c: OutlineModel,
)
    requires
        tag::reads(e, layout::outline_tag(c)),
        writable_outline(c),
    ensures
        ({
            let f = found(els, hidden, document::all(e));
            &&& f == Found { clips: f.clips, ..found_nothing() }
            &&& f.clips.len() == 1
            &&& outline_comes_back(c, f.clips[0])
        }),
{
    let t = layout::outline_tag(c);
    let n = e.children.len() as int;
    let m = t.children.len() as int;
    lemma_definers();
    assert forall|k: int| 0 <= k < t.children.len() implies inert(#[trigger] t.children[k]) by {
        assert(t.children[k] == layout::path_tag(c.paths[k]));
        assert(all_inert(layout::path_tag(c.paths[k]).children, 0));
    }
    lemma_all_inert(t.children, m);
    lemma_found_all_inert(els, hidden, e.children, n, t.children, m);
    lemma_found_one(els, hidden, e);
    lemma_found_add(els, hidden, seq![e], document::all_of(e.children, n));
    lemma_clip_shapes_back(e.children, n, c, m, hidden);
    lemma_clip_names();
    lemma_single("id"@, c.id);
    tag::lemma_listing_found(seq!["id"@], seq![Some(c.id)], 1, 0);
    tag::lemma_listing_absent(seq!["id"@], seq![Some(c.id)], 1, "clipPathUnits"@);
    let f = found_at(els, hidden, e);
    lemma_both_nothing(f);
    assert(document::is_clip(e));
    assert(document::id_of(e) == Some(c.id));
    assert(f.of_clips =~= Seq::<LossModel>::empty());
}

/// Whether definitions are the first `g` gradients and the first `c` clips of
/// a page, and nothing of them is lost.
spec fn defined(p: PageModel, f: Found, g: int, c: int) -> bool {
    &&& f.gradients.len() == g
    &&& forall|k: int| 0 <= k < g ==> ramp_comes_back(p.gradients[k], #[trigger] f.gradients[k])
    &&& f.clips.len() == c
    &&& forall|k: int| 0 <= k < c ==> outline_comes_back(p.clips[k], #[trigger] f.clips[k])
    &&& f.of_gradients.len() == 0
    &&& f.of_clips.len() == 0
    &&& f.of_sheets.len() == 0
}

/// The definitions come back, in order.
proof fn lemma_found_definitions(
    els: Seq<ElementModel>,
    hidden: Seq<(nat, nat)>,
    p: PageModel,
    nodes: Seq<NodeModel>,
    n: int,
    m: int,
)
    requires
        writable(p),
        0 <= n <= nodes.len(),
        0 <= m <= layout::definition_tags(p).len(),
        tag::all_read(nodes, n, layout::definition_tags(p), m),
    ensures
        ({
            let f = found(els, hidden, document::all_of(nodes, n));
            let g = p.gradients.len() as int;
            if m <= g {
                defined(p, f, m, 0)
            } else {
                defined(p, f, g, m - g)
            }
        }),
    decreases n,
{
    let ts = layout::definition_tags(p);
    let g = p.gradients.len() as int;
    if n > 0 {
        let front = document::all_of(nodes, n - 1);
        match nodes[n - 1] {
            NodeModel::Text(_) => {
                lemma_found_definitions(els, hidden, p, nodes, n - 1, m);
                assert(front + Seq::<ElementModel>::empty() =~= front);
            },
            NodeModel::Element(e) => {
                lemma_found_definitions(els, hidden, p, nodes, n - 1, m - 1);
                lemma_found_add(els, hidden, front, document::all(e));
                let a = found(els, hidden, front);
                let b = found(els, hidden, document::all(e));
                if m <= g {
                    assert(ts[m - 1] == layout::ramp_tag(p.gradients[m - 1]));
                    assert(tag::reads(e, ts[m - 1]));
                    assert(writable_ramp(p.gradients[m - 1]));
                    lemma_found_ramp(els, hidden, e, p.gradients[m - 1]);
                } else {
                    assert(ts[m - 1] == layout::outline_tag(p.clips[m - 1 - g]));
                    assert(tag::reads(e, ts[m - 1]));
                    assert(writable_outline(p.clips[m - 1 - g]));
                    lemma_found_outline(els, hidden, e, p.clips[m - 1 - g]);
                }
            },
        }
    }
}

/// What is found in the whole document: the definitions of the page.
proof fn lemma_found_page(
    els: Seq<ElementModel>,
    hidden: Seq<(nat, nat)>,
    p: PageModel,
    nodes: Seq<NodeModel>,
    n: int,
    m: int,
)
    requires
        writable(p),
        0 <= n <= nodes.len(),
        0 <= m <= layout::page_tag(p).children.len(),
        tag::all_read(nodes, n, layout::page_tag(p).children, m),
    ensures
        ({
            let f = found(els, hidden, document::all_of(nodes, n));
            if m >= layout::defs_tags(p).len() {
                defined(p, f, p.gradients.len() as int, p.clips.len() as int)
            } else {
                defined(p, f, 0, 0)
            }
        }),
    decreases n,
{
    let ts = layout::page_tag(p).children;
    let defs = layout::defs_tags(p);
    let k = p.roots.len() as int;
    let items = layout::item_tags(p.clips, p.roots, style::initials(), k);
    layout::lemma_item_tags(p.clips, p.roots, style::initials(), k);
    if n > 0 {
        let front = document::all_of(nodes, n - 1);
        match nodes[n - 1] {
            NodeModel::Text(_) => {
                lemma_found_page(els, hidden, p, nodes, n - 1, m);
                assert(front + Seq::<ElementModel>::empty() =~= front);
            },
            NodeModel::Element(e) => {
                lemma_found_page(els, hidden, p, nodes, n - 1, m - 1);
                lemma_found_add(els, hidden, front, document::all(e));
                let a = found(els, hidden, front);
                let b = found(els, hidden, document::all(e));
                assert(tag::reads(e, ts[m - 1]));
                if m <= defs.len() {
                    assert(ts[m - 1] == defs[0]);
                    lemma_found_defs(els, hidden, p, e);
                } else {
                    let j = m - 1 - defs.len();
                    assert(ts[m - 1] == items[j]);
                    lemma_item_inert(p.clips, p.roots[j], style::initials());
                    lemma_found_inert(els, hidden, e, ts[m - 1]);
                    lemma_both_nothing(a);
                }
            },
        }
    }
}

proof fn lemma_found_defs(
    els: Seq<ElementModel>,
    hidden: Seq<(nat, nat)>,
    p: PageModel,
    e: ElementModel,
)
    requires
        writable(p),
        layout::defs_tags(p).len() > 0,
        tag::reads(e, layout::defs_tags(p)[0]),
    ensures
        defined(
            p,
            found(els, hidden, document::all(e)),
            p.gradients.len() as int,
            p.clips.len() as int,
        ),
{
    let n = e.children.len() as int;
    lemma_definers();
    lemma_found_definitions(
        els,
        hidden,
        p,
        e.children,
        n,
        layout::definition_tags(p).len() as int,
    );
    lemma_found_one(els, hidden, e);
    lemma_found_add(els, hidden, seq![e], document::all_of(e.children, n));
    lemma_both_nothing(found(els, hidden, document::all_of(e.children, n)));
}

/// The first numbers of a list stand at its start, with a space behind them.
proof fn lemma_listed_prefix(a: Seq<Seq<char>>, n: int)
    requires
        1 <= n <= a.len(),
    ensures
        transform::listed(a.take(n)).len() <= transform::listed(a).len(),
        transform::listed(a).take(transform::listed(a.take(n)).len() as int) == transform::listed(
            a.take(n),
        ),
        n < a.len() ==> transform::listed(a).len() > transform::listed(a.take(n)).len()
            && transform::listed(a)[transform::listed(a.take(n)).len() as int] == ' ',
    decreases a.len(),
{
    let s = transform::listed(a);
    if n == a.len() {
        assert(a.take(n) =~= a);
        assert(s.take(s.len() as int) =~= s);
    } else {
        let front = a.drop_last();
        lemma_listed_prefix(front, n);
        assert(front.take(n) =~= a.take(n));
        let t = transform::listed(front);
        let m = transform::listed(a.take(n)).len() as int;
        assert(s == t + seq![' '] + a.last());
        assert(s.take(m) =~= t.take(m));
    }
}

/// The end of a word that is a number.
proof fn lemma_word_end(s: Seq<char>, i: int, t: Seq<char>, k: int)
    requires
        0 <= i,
        0 <= k <= t.len(),
        i + t.len() <= s.len(),
        s.subrange(i, i + t.len()) == t,
        forall|j: int| 0 <= j < t.len() ==> number::is_number_char(#[trigger] t[j]),
        i + t.len() < s.len() ==> s[i + t.len()] == ' ',
    ensures
        document::word_end(s, i + k) == i + t.len(),
    decreases t.len() - k,
{
    if k < t.len() {
        assert(s.subrange(i, i + t.len())[k] == t[k]);
        assert(number::is_number_char(t[k]));
        lemma_word_end(s, i, t, k + 1);
    }
}

proof fn lemma_numbers_back(a: Seq<Seq<char>>, n: int)
    requires
        all_numbers(a),
        0 <= n <= a.len(),
    ensures
        document::leading_numbers(transform::listed(a), n) == Some(
            (
                a.take(n),
                if n == 0 {
                    0
                } else {
                    transform::listed(a.take(n)).len() as int
                },
            ),
        ),
    decreases n,
{
    let s = transform::listed(a);
    if n == 0 {
        assert(a.take(0) =~= Seq::<Seq<char>>::empty());
    } else {
        lemma_numbers_back(a, n - 1);
        let t = a[n - 1];
        number::lemma_number_chars(t);
        assert(number::is_number_char(t[0]));
        let done = transform::listed(a.take(n));
        lemma_listed_prefix(a, n);
        assert(a.take(n).drop_last() =~= a.take(n - 1));
        assert(a.take(n).last() == t);
        let j = done.len() - t.len();
        assert(done.subrange(j, done.len() as int) =~= t) by {
            if n == 1 {
                assert(done == a.take(1)[0]);
            }
        }
        assert(s.subrange(j, j + t.len()) =~= t) by {
            assert forall|k: int| 0 <= k < t.len() implies s[j + k] == t[k] by {
                assert(s.take(done.len() as int)[j + k] == done[j + k]);
                assert(done.subrange(j, done.len() as int)[k] == done[j + k]);
            }
        }
        assert(s[j] == t[0]) by {
            assert(s.subrange(j, j + t.len())[0] == t[0]);
        }
        assert(document::past_list_separators(s, j) == j);
        if n > 1 {
            lemma_listed_prefix(a, n - 1);
            assert(transform::listed(a.take(n - 1)).len() == j - 1);
            assert(s[j - 1] == ' ');
            assert(document::past_list_separators(s, j - 1) == j);
        } else {
            assert(j == 0);
        }
        lemma_word_end(s, j, t, 0);
        assert(a.take(n) =~= a.take(n - 1).push(t));
    }
}

proof fn lemma_view_box_back(b: Seq<Seq<char>>)
    requires
        writable_view_box(Some(b)),
    ensures
        document::view_box(transform::listed(b)) == Some(b),
{
    lemma_numbers_back(b, 4);
    assert(b.take(4) =~= b);
}

/// Whether a scene is this page.
pub open spec fn page_comes_back(p: PageModel, scene: SceneModel) -> bool {
    &&& scene.width == p.width
    &&& scene.height == p.height
    &&& scene.view_box == p.view_box
    &&& scene.gradients.len() == p.gradients.len()
    &&& forall|k: int|
        0 <= k < p.gradients.len() ==> ramp_comes_back(
            p.gradients[k],
            #[trigger] scene.gradients[k],
        )
    &&& scene.clips.len() == p.clips.len()
    &&& forall|k: int|
        0 <= k < p.clips.len() ==> outline_comes_back(p.clips[k], #[trigger] scene.clips[k])
    &&& scene.roots.len() == p.roots.len()
    &&& all_come_back(p.clips, p.roots, scene.roots, p.roots.len() as int)
}

/// The ids of a page's gradients.
pub open spec fn gradient_ids(p: PageModel) -> Seq<Seq<char>> {
    Seq::new(p.gradients.len(), |k: int| p.gradients[k].id)
}

/// What is read of the root's attributes.
proof fn lemma_root_back(p: PageModel, root: ElementModel)
    requires
        writable(p),
        root.attributes == tag::attribute_models(layout::page_tag(p).attributes),
    ensures
        markup::plain(root, "width"@) == p.width,
        markup::plain(root, "height"@) == p.height,
        (match markup::plain(root, "viewBox"@) {
            Some(v) => document::view_box(v),
            None => None,
        }) == p.view_box,
        style::resolved(style::initials(), root) == style::initials(),
{
    let names = page_names();
    let values = page_values(p);
    lemma_page_names();
    lemma_page_listing(p);
    tag::lemma_listing_found(names, values, 4, 1);
    tag::lemma_listing_found(names, values, 4, 2);
    tag::lemma_listing_found(names, values, 4, 3);
    if let Some(b) = p.view_box {
        lemma_view_box_back(b);
    }
    tag::lemma_listing_absent(names, values, 4, "style"@);
    let initials = style::initials();
    style::initial_values_are_plain();
    assert forall|i: int| 0 <= i < style::COUNT implies markup::plain(
        root,
        #[trigger] style::name(i),
    ) == (if export::implied(initials, initials, i) {
        None
    } else {
        Some(initials[i])
    }) by {
        assert forall|k: int| 0 <= k < 4 implies (#[trigger] names[k]) != style::name(i) by {}
        tag::lemma_listing_absent(names, values, 4, style::name(i));
        assert(initials[i] == style::initial(i));
    }
    lemma_computed(initials, root, initials);
}

/// A scene survives its export: a page that is written and imported again is
/// the same page, node for node and number for number, and where its paint
/// references name its gradients nothing is reported as lost.
pub proof fn importing_undoes_exporting(p: PageModel, hidden: Seq<(nat, nat)>)
    requires
        writable(p),
    ensures
        markup::document(markup::normal(export::page_text(p))) matches Ok(root)
            && import::starts_svg(root) && page_comes_back(p, document::scene(root, hidden)) && (
        all_painted(gradient_ids(p), p.roots, p.roots.len() as int) ==> document::scene(
            root,
            hidden,
        ).losses.len() == 0),
{
    layout::lemma_page_text(p);
    lemma_page_fits(p);
    tag::reading_undoes_writing(layout::page_tag(p));
    let root = markup::document(markup::normal(export::page_text(p)))->Ok_0;
    lemma_root_back(p, root);
    lemma_scene_back(p, root, hidden);
}

/// The page of one gradient and nothing else.
pub open spec fn only_gradient(g: RampModel) -> PageModel {
    PageModel {
        width: None,
        height: None,
        view_box: None,
        gradients: seq![g],
        clips: Seq::empty(),
        roots: Seq::empty(),
    }
}

/// A gradient survives its export: written among the definitions of a page and
/// imported again it is the only gradient, the same in id, kind, numbers,
/// transform, units, spread and stops, and nothing is reported as lost.
pub proof fn a_gradient_comes_back(g: RampModel, hidden: Seq<(nat, nat)>)
    requires
        writable_ramp(g),
    ensures
        markup::document(markup::normal(export::page_text(only_gradient(g)))) matches Ok(root)
            && import::starts_svg(root) && ({
            let scene = document::scene(root, hidden);
            &&& scene.gradients.len() == 1
            &&& ramp_comes_back(g, scene.gradients[0])
            &&& scene.roots.len() == 0
            &&& scene.losses.len() == 0
        }),
{
    let p = only_gradient(g);
    assert(p.gradients[0] == g);
    importing_undoes_exporting(p, hidden);
    let root = markup::document(markup::normal(export::page_text(p)))->Ok_0;
    let scene = document::scene(root, hidden);
    assert(ramp_comes_back(p.gradients[0], scene.gradients[0]));
}

proof fn lemma_scene_back(p: PageModel, root: ElementModel, hidden: Seq<(nat, nat)>)
    requires
        writable(p),
        tag::reads(root, layout::page_tag(p)),
        style::resolved(style::initials(), root) == style::initials(),
        markup::plain(root, "width"@) == p.width,
        markup::plain(root, "height"@) == p.height,
        (match markup::plain(root, "viewBox"@) {
            Some(v) => document::view_box(v),
            None => None,
        }) == p.view_box,
    ensures
        page_comes_back(p, document::scene(root, hidden)),
        all_painted(gradient_ids(p), p.roots, p.roots.len() as int) ==> document::scene(
            root,
            hidden,
        ).losses.len() == 0,
{
    let els = document::all(root);
    let n = root.children.len() as int;
    let t = layout::page_tag(p);
    let defs = layout::defs_tags(p);
    let m = p.roots.len() as int;
    layout::lemma_item_tags(p.clips, p.roots, style::initials(), m);
    lemma_definers();
    lemma_found_page(els, hidden, p, root.children, n, t.children.len() as int);
    lemma_found_one(els, hidden, root);
    lemma_found_add(els, hidden, seq![root], document::all_of(root.children, n));
    lemma_both_nothing(found(els, hidden, document::all_of(root.children, n)));
    lemma_found_all(els, hidden, els.len() as int);
    assert(els.take(els.len() as int) =~= els);
    let f = found(els, hidden, els);
    let w = document::world_of(root, hidden);
    assert(w.gradients =~= gradient_ids(p)) by {
        assert forall|k: int| 0 <= k < p.gradients.len() implies w.gradients[k]
            == p.gradients[k].id by {
            assert(ramp_comes_back(p.gradients[k], f.gradients[k]));
        }
    }
    assert forall|k: int| 0 <= k < p.clips.len() implies w.clips.contains(
        (#[trigger] p.clips[k]).id,
    ) by {
        assert(outline_comes_back(p.clips[k], f.clips[k]));
        assert(w.clips[k] == p.clips[k].id);
    }
    lemma_children_back(
        w,
        root.children,
        n,
        t.children,
        t.children.len() as int,
        p.clips,
        p.roots,
        style::initials(),
        defs.len() as int,
        1,
    );
    let met = document::stylesheet_losses(els, els.len() as int) + document::gradients(
        els,
        els.len() as int,
    ).1 + document::clips(els, hidden, els.len() as int).1 + document::children(
        w,
        root.children,
        style::initials(),
        0,
        Seq::empty(),
        n,
    ).1;
    document::sorting_keeps_every_loss(met);
}

} // verus!
