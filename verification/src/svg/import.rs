//! SVG import: an element tree into the [`Scene`].
//!
//! One walk, top down, carrying the computed [`Style`] of the parent. Shapes
//! and groups become nodes, `use` is expanded into a copy of what it points at,
//! and everything else is recorded in [`Scene::losses`].
//!
//! Text, images, filters, masks, patterns, markers and animation are dropped,
//! each with a [`Loss`] naming the element and where it was.

use vstd::prelude::*;
use crate::scene::arena;
use crate::scene::arena::Arena;
use crate::scene::arena::NodeId;
use crate::scene::arena::CAPACITY;
use crate::text;
use super::document;
use super::document::Basic;
use super::document::ClipModel;
use super::document::ClipShapeModel;
use super::document::GradientModel;
use super::document::KindModel;
use super::document::LossModel;
use super::document::StopModel;
use super::document::TreeModel;
use super::document::Unit;
use super::document::MAX_USE_DEPTH;
use super::document::SVG_NS;
use super::document::XLINK_NS;
use super::markup;
use super::markup::ElementModel;
use super::number;
use super::path_data;
use super::graph;
use super::scene;
use super::scene::Clip;
use super::scene::ClipShape;
use super::scene::Gradient;
use super::scene::Length;
use super::scene::Loss;
use super::scene::Node;
use super::scene::Scene;
use super::scene::Shape;
use super::scene::Shift;
use super::scene::Stop;
use super::scene::Tree;
use super::scene::TreeKind;
use super::style::Style;
use super::transform;
use super::transform::Function;
use super::transform::FunctionModel;
use super::xml;
use super::xml::Element;
use super::xml::Error;

verus! {

broadcast use vstd::string::group_string_axioms;

/// Whether `el` is in the SVG namespace, or in none at all.
pub fn is_svg(el: &Element) -> (r: bool)
    ensures
        r == document::is_svg(el@),
{
    match &el.name.namespace {
        None => true,
        Some(ns) => text::same(ns.as_str(), SVG_NS),
    }
}

/// Whether `name` is that of a basic shape.
pub fn is_shape(name: &str) -> (r: bool)
    ensures
        r == document::is_shape(name@),
{
    text::same(name, "rect") || text::same(name, "circle") || text::same(name, "ellipse")
        || text::same(name, "line") || text::same(name, "polyline") || text::same(name, "polygon")
        || text::same(name, "path")
}

/// The `href` or `xlink:href` of `el`.
pub fn href(el: &Element) -> (r: Option<&str>)
    ensures
        match document::href_from(el@.attributes, 0) {
            Some(h) => r matches Some(v) && v@ == h,
            None => r is None,
        },
{
    let mut i: usize = 0;
    while i < el.attributes.len()
        invariant
            i <= el.attributes@.len(),
            el@.attributes == xml::attributes_view(el.attributes@),
            document::href_from(el@.attributes, 0) == document::href_from(
                el@.attributes,
                i as int,
            ),
        decreases el.attributes@.len() - i,
    {
        let a = &el.attributes[i];
        assert(el@.attributes[i as int] == a@);
        let here = text::same(a.name.local.as_str(), "href") && (match &a.name.namespace {
            None => true,
            Some(ns) => text::same(ns.as_str(), XLINK_NS),
        });
        if here {
            return Some(a.value.as_str());
        }
        i += 1;
    }
    None
}

/// What follows the `#` of a reference into this document.
fn fragment(el: &Element) -> (r: Option<String>)
    ensures
        xml::optional_view(r) == document::fragment(el@),
{
    match href(el) {
        None => None,
        Some(h) => {
            let chars = text::to_chars(h);
            if chars.len() > 0 && chars[0] == '#' {
                assert(chars@.subrange(1, chars@.len() as int) =~= h@.skip(1));
                Some(text::from_chars(&chars, 1, chars.len()))
            } else {
                None
            }
        },
    }
}

/// The id an element can be referred to by.
fn id_of(el: &Element) -> (r: Option<&str>)
    ensures
        match document::id_of(el@) {
            Some(id) => r matches Some(v) && v@ == id,
            None => r is None,
        },
{
    match el.attribute("id") {
        None => None,
        Some(id) => {
            let chars = text::to_chars(id);
            if chars.len() > 0 {
                Some(id)
            } else {
                None
            }
        },
    }
}

/// The `id` inside `url(#id)`, for a paint or clip reference.
pub fn url_fragment(value: &str) -> (r: Option<String>)
    ensures
        xml::optional_view(r) == document::url_id(value@),
{
    let trimmed = text::trim(value);
    let v = text::to_chars(trimmed.as_str());
    let p = text::to_chars("url(");
    let n: usize = v.len();
    let k: usize = p.len();
    if n <= k || v[n - 1] != ')' {
        return None;
    }
    let head = text::from_chars(&v, 0, k);
    assert(v@.subrange(0, k as int) =~= v@.take(k as int));
    if !text::same(head.as_str(), "url(") {
        return None;
    }
    let (a, b) = text::trim_range(&v, k, n - 1);
    let ghost inner = v@.subrange(a as int, b as int);
    let mut from: usize = a;
    while from < b && (v[from] == '"' || v[from] == '\'')
        invariant
            a <= from <= b <= v@.len(),
            document::unquoted_start(inner) == document::unquoted_start(
                v@.subrange(from as int, b as int),
            ),
        decreases b - from,
    {
        assert(v@.subrange(from as int, b as int).skip(1) =~= v@.subrange(from + 1, b as int));
        from += 1;
    }
    let mut to: usize = b;
    while to > from && (v[to - 1] == '"' || v[to - 1] == '\'')
        invariant
            a <= from <= to <= b <= v@.len(),
            document::unquoted_end(v@.subrange(from as int, b as int)) == document::unquoted_end(
                v@.subrange(from as int, to as int),
            ),
        decreases to,
    {
        assert(v@.subrange(from as int, to as int).drop_last() =~= v@.subrange(
            from as int,
            to - 1,
        ));
        to -= 1;
    }
    let ghost bare = v@.subrange(from as int, to as int);
    assert(bare == document::unquoted_end(document::unquoted_start(inner)));
    if to - from > 1 && v[from] == '#' {
        assert(bare.skip(1) =~= v@.subrange(from + 1, to as int));
        Some(text::from_chars(&v, from + 1, to))
    } else {
        None
    }
}

/// Whether `v` ends with `suffix`, and where that begins.
fn strip_suffix(v: &Vec<char>, suffix: &str) -> (r: Option<usize>)
    ensures
        match r {
            Some(k) => document::ends_with(v@, suffix@) && k == v@.len() - suffix@.len(),
            None => !document::ends_with(v@, suffix@),
        },
{
    let s = text::to_chars(suffix);
    if s.len() > v.len() {
        return None;
    }
    let k: usize = v.len() - s.len();
    let tail = text::from_chars(v, k, v.len());
    assert(tail@ =~= v@.skip(k as int));
    if text::same(tail.as_str(), suffix) {
        Some(k)
    } else {
        None
    }
}

/// The unit a length ends with, and where it begins.
fn unit_of(v: &Vec<char>) -> (r: (Unit, usize))
    ensures
        r.0 == document::unit_of(v@).0,
        r.1 == v@.len() - document::unit_of(v@).1,
        r.1 <= v@.len(),
{
    if let Some(k) = strip_suffix(v, "px") {
        return (Unit::User, k);
    }
    if let Some(k) = strip_suffix(v, "pt") {
        return (Unit::Point, k);
    }
    if let Some(k) = strip_suffix(v, "pc") {
        return (Unit::Pica, k);
    }
    if let Some(k) = strip_suffix(v, "mm") {
        return (Unit::Millimetre, k);
    }
    if let Some(k) = strip_suffix(v, "cm") {
        return (Unit::Centimetre, k);
    }
    if let Some(k) = strip_suffix(v, "in") {
        return (Unit::Inch, k);
    }
    if let Some(k) = strip_suffix(v, "%") {
        return (Unit::Percent, k);
    }
    (Unit::User, v.len())
}

/// A `<length>` or `<coordinate>`.
pub fn length(value: &str) -> (r: Option<Length>)
    ensures
        scene::length_view(r) == document::length(value@),
{
    let trimmed = text::trim(value);
    let v = text::to_chars(trimmed.as_str());
    let (unit, k) = unit_of(&v);
    let (a, b) = text::trim_range(&v, 0, k);
    assert(v@.subrange(0, k as int) =~= v@.take(k as int));
    let number = text::from_chars(&v, a, b);
    if number::is_finite_number(number.as_str()) {
        Some(Length { number, unit })
    } else {
        None
    }
}

/// The length of an attribute.
fn length_of(el: &Element, name: &str) -> (r: Option<Length>)
    ensures
        scene::length_view(r) == document::length_of(el@, name@),
{
    match el.attribute(name) {
        Some(v) => length(v),
        None => None,
    }
}

/// `viewBox="x y width height"` as its four numbers.
///
/// A non-positive width or height disables rendering of the whole document, and
/// a `viewBox` that cannot be read is better absent than half-applied.
pub fn parse_view_box(value: &str) -> (r: Option<Vec<String>>)
    ensures
        scene::texts_view(r) == document::view_box(value@),
{
    let s = text::to_chars(value);
    let mut out: Vec<String> = Vec::new();
    let mut i: usize = 0;
    let mut n: usize = 0;
    proof {
        assert(path_data::texts(out@) =~= Seq::<Seq<char>>::empty());
    }
    while n < 4
        invariant
            n <= 4,
            s@ == value@,
            i <= s@.len(),
            out@.len() == n,
            document::leading_numbers(s@, n as int) == Some((path_data::texts(out@), i as int)),
            forall|k: int| 0 <= k < n ==> number::is_number(#[trigger] path_data::texts(out@)[k]),
        decreases 4 - n,
    {
        let ghost before = out@;
        let mut j: usize = i;
        while j < s.len() && list_separator(s[j])
            invariant
                i <= j <= s@.len(),
                document::past_list_separators(s@, i as int) == document::past_list_separators(
                    s@,
                    j as int,
                ),
            decreases s@.len() - j,
        {
            j += 1;
        }
        let mut e: usize = j;
        while e < s.len() && !list_separator(s[e])
            invariant
                j <= e <= s@.len(),
                document::word_end(s@, j as int) == document::word_end(s@, e as int),
            decreases s@.len() - e,
        {
            e += 1;
        }
        let word = text::from_chars(&s, j, e);
        if !number::is_finite_number(word.as_str()) {
            proof {
                lemma_leading_none(s@, n + 1, 4);
            }
            return None;
        }
        out.push(word);
        assert(path_data::texts(out@) =~= path_data::texts(before).push(word@));
        i = e;
        n += 1;
    }
    assert(path_data::texts(out@)[2] == out@[2]@ && path_data::texts(out@)[3] == out@[3]@);
    assert(number::is_number(path_data::texts(out@)[2]));
    assert(number::is_number(path_data::texts(out@)[3]));
    if number::is_positive(out[2].as_str()) && number::is_positive(out[3].as_str()) {
        Some(out)
    } else {
        None
    }
}

proof fn lemma_leading_none(s: Seq<char>, n: int, m: int)
    requires
        0 < n <= m,
        document::leading_numbers(s, n) is None,
    ensures
        document::leading_numbers(s, m) is None,
    decreases m - n,
{
    if n < m {
        lemma_leading_none(s, n, m - 1);
    }
}

fn list_separator(c: char) -> (r: bool)
    ensures
        r == document::is_list_separator(c),
{
    c == ' ' || c == '\t' || c == '\n' || c == '\r' || c == ','
}

/// Positions as models.
pub open spec fn positions_view(p: Seq<(usize, usize)>) -> Seq<(nat, nat)> {
    p.map_values(|q: (usize, usize)| (q.0 as nat, q.1 as nat))
}

/// Whether an element is among those listed by position.
fn is_hidden(el: &Element, hidden: &Vec<(usize, usize)>) -> (r: bool)
    ensures
        r == positions_view(hidden@).contains(document::position(el@)),
{
    let ghost all = positions_view(hidden@);
    let mut i: usize = 0;
    while i < hidden.len()
        invariant
            i <= hidden@.len(),
            all == positions_view(hidden@),
            forall|j: int| 0 <= j < i ==> #[trigger] all[j] != document::position(el@),
        decreases hidden@.len() - i,
    {
        assert(all[i as int] == (hidden@[i as int].0 as nat, hidden@[i as int].1 as nat));
        if hidden[i].0 == el.line && hidden[i].1 == el.column {
            assert(all.contains(document::position(el@)));
            return true;
        }
        i += 1;
    }
    false
}

pub open spec fn names_view(n: Seq<&str>) -> Seq<Seq<char>> {
    n.map_values(|s: &str| s@)
}

/// The attributes that give a shape.
pub fn attribute_names(b: Basic) -> (r: Vec<&'static str>)
    ensures
        names_view(r@) == document::lengths_of(b),
{
    let mut r: Vec<&'static str> = Vec::new();
    match b {
        Basic::Rect => {
            r.push("x");
            r.push("y");
            r.push("width");
            r.push("height");
            r.push("rx");
            r.push("ry");
        },
        Basic::Circle => {
            r.push("cx");
            r.push("cy");
            r.push("r");
        },
        Basic::Ellipse => {
            r.push("cx");
            r.push("cy");
            r.push("rx");
            r.push("ry");
        },
        Basic::Line => {
            r.push("x1");
            r.push("y1");
            r.push("x2");
            r.push("y2");
        },
    }
    assert(names_view(r@) =~= document::lengths_of(b));
    r
}

fn basic_lengths(el: &Element, b: Basic) -> (r: Vec<Option<Length>>)
    ensures
        scene::lengths_view(r@) == document::basic_lengths(el@, b),
{
    let names = attribute_names(b);
    let ghost want = document::basic_lengths(el@, b);
    let mut r: Vec<Option<Length>> = Vec::new();
    let mut i: usize = 0;
    while i < names.len()
        invariant
            i <= names@.len(),
            names_view(names@) == document::lengths_of(b),
            want == document::basic_lengths(el@, b),
            r@.len() == i,
            forall|j: int| 0 <= j < i ==> scene::length_view(#[trigger] r@[j]) == want[j],
        decreases names@.len() - i,
    {
        assert(names_view(names@)[i as int] == names@[i as int]@);
        r.push(length_of(el, names[i]));
        i += 1;
    }
    assert(names_view(names@).len() == names@.len());
    assert(scene::lengths_view(r@) =~= want);
    r
}

/// Whether a size comes to nothing.
fn comes_to_nothing(size: &Option<Length>, hidden: bool) -> (r: bool)
    requires
        scene::length_view(*size) matches Some(l) ==> number::is_number(l.number),
    ensures
        r == document::comes_to_nothing(scene::length_view(*size), hidden),
{
    match size {
        None => true,
        Some(l) => if l.unit == Unit::Percent {
            hidden
        } else {
            !number::is_positive(l.number.as_str())
        },
    }
}

/// Whether a shape given by lengths draws anything.
fn has_size(el: &Element, b: Basic, lengths: &Vec<Option<Length>>, hidden: &Vec<(usize, usize)>)
    -> (r: bool)
    requires
        scene::lengths_view(lengths@) == document::basic_lengths(el@, b),
    ensures
        r == document::has_size(el@, b, positions_view(hidden@)),
{
    let ghost want = document::basic_lengths(el@, b);
    let ghost gone = positions_view(hidden@).contains(document::position(el@));
    let out = is_hidden(el, hidden);
    let mut i: usize = 0;
    while i < lengths.len()
        invariant
            i <= lengths@.len(),
            want == document::basic_lengths(el@, b),
            want == scene::lengths_view(lengths@),
            want.len() == document::lengths_of(b).len(),
            out == gone,
            gone == positions_view(hidden@).contains(document::position(el@)),
            forall|k: int|
                0 <= k < i && document::is_size(b, k) ==> !document::comes_to_nothing(
                    #[trigger] want[k],
                    gone,
                ),
        decreases lengths@.len() - i,
    {
        let size = match b {
            Basic::Rect => i == 2 || i == 3,
            Basic::Circle => i == 2,
            Basic::Ellipse => i == 2 || i == 3,
            Basic::Line => false,
        };
        assert(want[i as int] == scene::length_view(lengths@[i as int]));
        assert(want[i as int] == document::length_of(el@, document::lengths_of(b)[i as int]));
        if size && comes_to_nothing(&lengths[i], out) {
            return false;
        }
        i += 1;
    }
    true
}

pub open spec fn shape_view(s: Option<Shape>) -> Option<document::ShapeModel> {
    match s {
        Some(s) => Some(s@),
        None => None,
    }
}

/// Path data with its shape, a parse failure reported and the valid prefix
/// kept.
fn drawn_shape(d: &str) -> (r: (Option<Shape>, Option<String>))
    ensures
        shape_view(r.0) == document::drawn_shape(d@).0,
        xml::optional_view(r.1) == document::drawn_shape(d@).1,
{
    let (drawing, stop) = path_data::parse(d);
    let message = match stop {
        Some(e) => {
            let mut m = "path data truncated at offset ".to_owned();
            text::push_decimal(&mut m, e.offset);
            m.append(": ");
            m.append(e.message.as_str());
            Some(m)
        },
        None => None,
    };
    if drawing.steps.len() == 0 {
        (None, message)
    } else {
        (Some(Shape::Drawn(drawing)), message)
    }
}

fn or_empty(el: &Element, name: &str) -> (r: String)
    ensures
        r@ == document::or_empty(el@, name@),
{
    match el.attribute(name) {
        Some(v) => v.to_owned(),
        None => String::new(),
    }
}

/// The shape a name stands for, where it is one given by lengths.
fn basic_of(name: &str) -> (r: Option<Basic>)
    ensures
        r == document::basic_of(name@),
{
    if text::same(name, "rect") {
        Some(Basic::Rect)
    } else if text::same(name, "circle") {
        Some(Basic::Circle)
    } else if text::same(name, "ellipse") {
        Some(Basic::Ellipse)
    } else if text::same(name, "line") {
        Some(Basic::Line)
    } else {
        None
    }
}

/// The geometry of a basic shape, or none when the shape draws nothing, and
/// what is lost of it.
pub fn shape(el: &Element, hidden: &Vec<(usize, usize)>) -> (r: (Option<Shape>, Option<String>))
    ensures
        shape_view(r.0) == document::shape_of(el@, positions_view(hidden@)).0,
        xml::optional_view(r.1) == document::shape_of(el@, positions_view(hidden@)).1,
{
    let name = el.name.local.as_str();
    match basic_of(name) {
        Some(b) => {
            let lengths = basic_lengths(el, b);
            if has_size(el, b, &lengths, hidden) {
                (Some(Shape::Basic(b, lengths)), None)
            } else {
                (None, None)
            }
        },
        None => if text::same(name, "polyline") || text::same(name, "polygon") {
            let given = or_empty(el, "points");
            let points = text::trim(given.as_str());
            let chars = text::to_chars(points.as_str());
            if chars.len() == 0 {
                return (None, None);
            }
            let mut d = "M".to_owned();
            d.append(points.as_str());
            if text::same(name, "polygon") {
                d.append("Z");
            }
            drawn_shape(d.as_str())
        } else {
            let d = or_empty(el, "d");
            drawn_shape(d.as_str())
        },
    }
}

/// A transform list, or none with what is lost of it.
fn transform_or_loss(value: &str, what: &str) -> (r: (Vec<Function>, Option<String>))
    ensures
        match transform::transform_list(value@) {
            Ok(list) => transform::functions_view(r.0@) == list && r.1 is None,
            Err(f) => transform::functions_view(r.0@) == Seq::<FunctionModel>::empty() && (r.1
                matches Some(m) && m@ == what@ + f.1),
        },
{
    match transform::parse_transform(value) {
        Ok(list) => (list, None),
        Err(e) => {
            let mut m = what.to_owned();
            m.append(e.message.as_str());
            let none: Vec<Function> = Vec::new();
            assert(transform::functions_view(none@) =~= Seq::<FunctionModel>::empty());
            (none, Some(m))
        },
    }
}

/// The transform of an element, and what is lost of it.
fn transform_of(el: &Element) -> (r: (Vec<Function>, Option<String>))
    ensures
        transform::functions_view(r.0@) == document::transform_of(el@).0,
        xml::optional_view(r.1) == document::transform_of(el@).1,
{
    match el.attribute("transform") {
        None => {
            let none: Vec<Function> = Vec::new();
            assert(transform::functions_view(none@) =~= Seq::<FunctionModel>::empty());
            (none, None)
        },
        Some(v) => transform_or_loss(v, "transform ignored: "),
    }
}

/// Records a loss at an element, where there is one.
fn lose(losses: &mut Vec<Loss>, el: &Element, message: Option<String>)
    ensures
        scene::losses_view(final(losses)@) == scene::losses_view(old(losses)@) + document::lost(
            el@,
            xml::optional_view(message),
        ),
{
    let ghost before = losses@;
    match message {
        Some(message) => {
            let loss = Loss { message, line: el.line, column: el.column };
            losses.push(loss);
            assert(scene::losses_view(losses@) =~= scene::losses_view(before) + seq![loss@]);
        },
        None => {
            assert(scene::losses_view(losses@) =~= scene::losses_view(before) + Seq::<
                LossModel,
            >::empty());
        },
    }
}

pub open spec fn elements_view(els: Seq<&Element>) -> Seq<ElementModel> {
    els.map_values(|e: &Element| e@)
}

/// Everything under an element, in document order.
fn collect<'a>(el: &'a Element, out: &mut Vec<&'a Element>)
    ensures
        elements_view(final(out)@) == elements_view(old(out)@) + document::all(el@),
    decreases el,
{
    let ghost before = elements_view(out@);
    out.push(el);
    assert(elements_view(out@) =~= before + seq![el@]);
    let ghost nodes = el@.children;
    proof {
        xml::lemma_nodes_len(el.children@);
    }
    let mut i: usize = 0;
    assert(elements_view(out@) =~= before + seq![el@] + document::all_of(nodes, 0));
    while i < el.children.len()
        invariant
            i <= el.children@.len(),
            nodes == xml::nodes_view(el.children@),
            nodes.len() == el.children@.len(),
            elements_view(out@) == before + seq![el@] + document::all_of(nodes, i as int),
        decreases el.children@.len() - i,
    {
        let ghost so_far = elements_view(out@);
        proof {
            xml::lemma_nodes_index(el.children@, i as int);
        }
        match &el.children[i] {
            xml::Node::Element(child) => {
                proof {
                    assert(decreases_to!(el => el.children@[i as int]));
                }
                collect(child, out);
            },
            xml::Node::Text(_) => {},
        }
        assert(elements_view(out@) =~= before + seq![el@] + document::all_of(nodes, i + 1));
        i += 1;
    }
    assert(elements_view(out@) =~= before + document::all(el@));
}

/// The first element with this id.
fn find<'a>(els: &Vec<&'a Element>, id: &str) -> (r: Option<&'a Element>)
    ensures
        match document::with_id(elements_view(els@), id@, 0) {
            Some(e) => r matches Some(f) && f@ == e,
            None => r is None,
        },
{
    let ghost all = elements_view(els@);
    let mut i: usize = 0;
    while i < els.len()
        invariant
            i <= els@.len(),
            all == elements_view(els@),
            document::with_id(all, id@, 0) == document::with_id(all, id@, i as int),
        decreases els@.len() - i,
    {
        let e: &'a Element = els[i];
        assert(all[i as int] == e@);
        if let Some(have) = id_of(e) {
            if text::same(have, id) {
                return Some(e);
            }
        }
        i += 1;
    }
    None
}

/// Whether a text is in a list.
fn listed(list: &Vec<String>, t: &str) -> (r: bool)
    ensures
        r == path_data::texts(list@).contains(t@),
{
    let ghost all = path_data::texts(list@);
    let mut i: usize = 0;
    while i < list.len()
        invariant
            i <= list@.len(),
            all == path_data::texts(list@),
            forall|j: int| 0 <= j < i ==> #[trigger] all[j] != t@,
        decreases list@.len() - i,
    {
        assert(all[i as int] == list@[i as int]@);
        if text::same(list[i].as_str(), t) {
            assert(all.contains(t@));
            return true;
        }
        i += 1;
    }
    false
}

/// The document around an element.
struct World<'a> {
    els: Vec<&'a Element>,
    gradients: Vec<String>,
    clips: Vec<String>,
    hidden: &'a Vec<(usize, usize)>,
}

impl<'a> World<'a> {
    spec fn model(&self) -> document::WorldModel {
        document::WorldModel {
            els: elements_view(self.els@),
            gradients: path_data::texts(self.gradients@),
            clips: path_data::texts(self.clips@),
            hidden: positions_view(self.hidden@),
        }
    }

    /// What is lost of a clip reference.
    fn clip_loss(&self, clip: &Option<String>) -> (r: Option<String>)
        ensures
            xml::optional_view(r) == (match xml::optional_view(*clip) {
                Some(id) => if self.model().clips.contains(id) {
                    None
                } else {
                    Some("clip-path references #"@ + id + ", which is not a clipPath"@)
                },
                None => None,
            }),
    {
        match clip {
            None => None,
            Some(id) => if listed(&self.clips, id.as_str()) {
                None
            } else {
                let mut m = "clip-path references #".to_owned();
                m.append(id.as_str());
                m.append(", which is not a clipPath");
                Some(m)
            },
        }
    }

    /// What is lost of a paint reference.
    fn paint_loss(&self, style: &Style, i: usize) -> (r: Option<String>)
        requires
            style.wf(),
            i < super::style::COUNT,
        ensures
            xml::optional_view(r) == document::paint_loss(self.model(), style@, i as int),
    {
        match url_fragment(style.value(i)) {
            None => None,
            Some(id) => if listed(&self.gradients, id.as_str()) {
                None
            } else {
                let mut m = super::style::property_name(i).to_owned();
                m.append(" references #");
                m.append(id.as_str());
                m.append(", which is not a gradient");
                Some(m)
            },
        }
    }

    /// What is lost of an element that is drawn, but for its transform.
    fn remark(&self, el: &Element, style: &Style, clip: &Option<String>, losses: &mut Vec<Loss>)
        requires
            style.wf(),
            xml::optional_view(*clip) == document::clip_of(el@),
        ensures
            scene::losses_view(final(losses)@) + document::lost(
                el@,
                document::transform_of(el@).1,
            ) == scene::losses_view(old(losses)@) + document::remarks(
                self.model(),
                el@,
                style@,
            ),
    {
        let ghost w = self.model();
        let ghost e = el@;
        let ghost before = scene::losses_view(losses@);
        let ghost l1 = document::lost(e, document::clip_loss(w, e));
        lose(losses, el, self.clip_loss(clip));
        let ghost l2 = document::lost(e, document::effect_loss(e, "mask"@));
        lose(losses, el, effect_loss(el, "mask"));
        let ghost l3 = document::lost(e, document::effect_loss(e, "filter"@));
        lose(losses, el, effect_loss(el, "filter"));
        let ghost l4 = document::lost(e, document::effect_loss(e, "marker-start"@));
        lose(losses, el, effect_loss(el, "marker-start"));
        let ghost l5 = document::lost(e, document::effect_loss(e, "marker-mid"@));
        lose(losses, el, effect_loss(el, "marker-mid"));
        let ghost l6 = document::lost(e, document::effect_loss(e, "marker-end"@));
        lose(losses, el, effect_loss(el, "marker-end"));
        let ghost l7 = document::lost(e, document::paint_loss(w, style@, 1));
        lose(losses, el, self.paint_loss(style, 1));
        let ghost l8 = document::lost(e, document::paint_loss(w, style@, 4));
        lose(losses, el, self.paint_loss(style, 4));
        let ghost l9 = document::lost(e, document::transform_of(e).1);
        proof {
            lemma_chain(before, l1, l2);
            lemma_chain(before, l1 + l2, l3);
            lemma_chain(before, l1 + l2 + l3, l4);
            lemma_chain(before, l1 + l2 + l3 + l4, l5);
            lemma_chain(before, l1 + l2 + l3 + l4 + l5, l6);
            lemma_chain(before, l1 + l2 + l3 + l4 + l5 + l6, l7);
            lemma_chain(before, l1 + l2 + l3 + l4 + l5 + l6 + l7, l8);
            lemma_chain(before, l1 + l2 + l3 + l4 + l5 + l6 + l7 + l8, l9);
        }
    }
}

proof fn lemma_chain(a: Seq<LossModel>, b: Seq<LossModel>, c: Seq<LossModel>)
    ensures
        a + b + c == a + (b + c),
{
    assert(a + b + c =~= a + (b + c));
}

/// What is lost of an effect that is not rendered.
fn effect_loss(el: &Element, effect: &str) -> (r: Option<String>)
    ensures
        xml::optional_view(r) == document::effect_loss(el@, effect@),
{
    match el.attribute(effect) {
        None => None,
        Some(v) => if text::same(v, "none") {
            None
        } else {
            let mut m = effect.to_owned();
            m.append("=\"");
            m.append(v);
            m.append("\" ignored");
            Some(m)
        },
    }
}

/// The clip an element names.
fn clip_of(el: &Element) -> (r: Option<String>)
    ensures
        xml::optional_view(r) == document::clip_of(el@),
{
    match el.attribute("clip-path") {
        Some(v) => url_fragment(v),
        None => None,
    }
}

/// Where a `use` places its copy.
fn shift_of(el: &Element) -> (r: Option<Shift>)
    ensures
        scene::shift_view(r) == document::shift_of(el@),
{
    if text::same(el.name.local.as_str(), "use") {
        Some(Shift { x: length_of(el, "x"), y: length_of(el, "y") })
    } else {
        None
    }
}

fn is_group(name: &str) -> (r: bool)
    ensures
        r == document::is_group(name@),
{
    text::same(name, "g") || text::same(name, "a") || text::same(name, "symbol") || text::same(
        name,
        "svg",
    )
}

fn is_silent(name: &str) -> (r: bool)
    ensures
        r == document::is_silent(name@),
{
    text::same(name, "defs") || text::same(name, "clipPath") || text::same(name, "linearGradient")
        || text::same(name, "radialGradient") || text::same(name, "title") || text::same(
        name,
        "desc",
    ) || text::same(name, "metadata") || text::same(name, "stop") || text::same(name, "style")
}

pub open spec fn kind_model(k: Option<TreeKind>) -> Option<KindModel> {
    match k {
        Some(k) => Some(scene::kind_view(k)),
        None => None,
    }
}

pub open spec fn tree_model(n: Option<Tree>) -> Option<TreeModel> {
    match n {
        Some(n) => Some(n@),
        None => None,
    }
}

/// Three texts, one behind the other.
fn joined(a: &str, b: &str, c: &str) -> (r: String)
    ensures
        r@ == a@ + b@ + c@,
{
    let mut m = a.to_owned();
    m.append(b);
    m.append(c);
    m
}

/// One element, and everything under it. None when the element draws nothing.
fn node<'a>(
    w: &World<'a>,
    el: &'a Element,
    parent: &Style,
    depth: usize,
    stack: &mut Vec<String>,
    losses: &mut Vec<Loss>,
) -> (r: Option<Tree>)
    requires
        parent.wf(),
        depth <= MAX_USE_DEPTH,
    ensures
        path_data::texts(final(stack)@) == path_data::texts(old(stack)@),
        ({
            let (tree, lost) = document::node(
                w.model(),
                el@,
                parent@,
                depth as nat,
                path_data::texts(old(stack)@),
            );
            &&& tree_model(r) == tree
            &&& scene::losses_view(final(losses)@) == scene::losses_view(old(losses)@) + lost
        }),
    decreases MAX_USE_DEPTH - depth, el, 2int,
{
    let ghost before = scene::losses_view(losses@);
    if !is_svg(el) {
        assert(scene::losses_view(losses@) =~= before + Seq::<LossModel>::empty());
        return None;
    }
    let style = parent.resolve(el);
    let ghost stacked = path_data::texts(stack@);
    let kind = match content(w, el, &style, depth, stack, losses) {
        None => {
            return None;
        },
        Some(kind) => kind,
    };
    let ghost mid = scene::losses_view(losses@);
    let clip_path = clip_of(el);
    w.remark(el, &style, &clip_path, losses);
    let (transform, message) = transform_of(el);
    lose(losses, el, message);
    proof {
        let (k, lost) = document::content(w.model(), el@, style@, depth as nat, stacked);
        assert(mid == before + lost);
        assert(before + (lost + document::remarks(w.model(), el@, style@)) =~= mid
            + document::remarks(w.model(), el@, style@));
    }
    Some(Tree { kind, transform, shift: shift_of(el), style, clip_path })
}

/// What an element groups or draws.
fn content<'a>(
    w: &World<'a>,
    el: &'a Element,
    style: &Style,
    depth: usize,
    stack: &mut Vec<String>,
    losses: &mut Vec<Loss>,
) -> (r: Option<TreeKind>)
    requires
        style.wf(),
        depth <= MAX_USE_DEPTH,
    ensures
        path_data::texts(final(stack)@) == path_data::texts(old(stack)@),
        ({
            let (kind, lost) = document::content(
                w.model(),
                el@,
                style@,
                depth as nat,
                path_data::texts(old(stack)@),
            );
            &&& kind_model(r) == kind
            &&& scene::losses_view(final(losses)@) == scene::losses_view(old(losses)@) + lost
        }),
    decreases MAX_USE_DEPTH - depth, el, 1int,
{
    let ghost before = scene::losses_view(losses@);
    let ghost stacked = path_data::texts(stack@);
    let ghost e = el@;
    let name = el.name.local.as_str();
    if is_group(name) {
        let ghost pre = if name@ != "g"@ && markup::plain(e, "viewBox"@) is Some {
            document::lost(e, Some("viewBox on <"@ + name@ + "> ignored"@))
        } else {
            Seq::empty()
        };
        if !text::same(name, "g") && el.attribute("viewBox").is_some() {
            lose(losses, el, Some(joined("viewBox on <", name, "> ignored")));
        } else {
            assert(scene::losses_view(losses@) =~= before + Seq::<LossModel>::empty());
        }
        assert(scene::losses_view(losses@) == before + pre);
        let nodes = children(w, &el.children, style, depth, stack, losses);
        proof {
            scene::lemma_trees_len(nodes@);
            xml::lemma_nodes_len(el.children@);
            let (_, lost) = document::children(
                w.model(),
                e.children,
                style@,
                depth as nat,
                stacked,
                e.children.len() as int,
            );
            lemma_chain(before, pre, lost);
        }
        if nodes.len() == 0 {
            None
        } else {
            Some(TreeKind::Group(nodes))
        }
    } else if text::same(name, "switch") {
        lose(losses, el, Some("<switch> imported as its first branch".to_owned()));
        let ghost pre = document::lost(e, Some("<switch> imported as its first branch"@));
        let ghost mid = scene::losses_view(losses@);
        assert(mid == before + pre);
        let total: usize = el.children.len();
        let mut k: usize = 0;
        proof {
            xml::lemma_nodes_len(el.children@);
        }
        while k < total && !is_element(&el.children[k])
            invariant
                k <= total,
                total == el.children@.len(),
                e == el@,
                e.children.len() == total,
                document::first_element(e.children, 0) == document::first_element(
                    e.children,
                    k as int,
                ),
            decreases total - k,
        {
            proof {
                xml::lemma_nodes_index(el.children@, k as int);
            }
            k += 1;
        }
        if k == total {
            return None;
        }
        proof {
            xml::lemma_nodes_index(el.children@, k as int);
        }
        match &el.children[k] {
            xml::Node::Text(_) => None,
            xml::Node::Element(child) => {
                proof {
                    assert(decreases_to!(el => el.children@[k as int]));
                }
                let inner = node(w, child, style, depth, stack, losses);
                proof {
                    let (_, lost) = document::node(
                        w.model(),
                        child@,
                        style@,
                        depth as nat,
                        stacked,
                    );
                    assert(before + (pre + lost) =~= mid + lost);
                }
                match inner {
                    Some(t) => {
                        let mut nodes: Vec<Tree> = Vec::new();
                        nodes.push(t);
                        proof {
                            scene::lemma_trees_push(Seq::empty(), t);
                            assert(nodes@ =~= Seq::<Tree>::empty().push(t));
                            assert(scene::trees_view(nodes@) =~= seq![t@]);
                        }
                        Some(TreeKind::Group(nodes))
                    },
                    None => None,
                }
            },
        }
    } else if text::same(name, "use") {
        use_element(w, el, style, depth, stack, losses)
    } else if is_silent(name) {
        assert(scene::losses_view(losses@) =~= before + Seq::<LossModel>::empty());
        None
    } else if is_shape(name) {
        let (found, message) = shape(el, w.hidden);
        lose(losses, el, message);
        match found {
            Some(s) => Some(TreeKind::Path(s)),
            None => None,
        }
    } else {
        lose(losses, el, Some(joined("<", name, "> is not supported and was dropped")));
        None
    }
}

fn is_element(n: &xml::Node) -> (r: bool)
    ensures
        r == (xml::node_view(*n) is Element),
{
    match n {
        xml::Node::Element(_) => true,
        xml::Node::Text(_) => false,
    }
}

/// The children a `use` expands to: a copy of what it points at.
fn use_element<'a>(
    w: &World<'a>,
    el: &'a Element,
    style: &Style,
    depth: usize,
    stack: &mut Vec<String>,
    losses: &mut Vec<Loss>,
) -> (r: Option<TreeKind>)
    requires
        style.wf(),
        depth <= MAX_USE_DEPTH,
        el@.name.local == "use"@,
        !document::is_group(el@.name.local),
        el@.name.local != "switch"@,
    ensures
        path_data::texts(final(stack)@) == path_data::texts(old(stack)@),
        ({
            let (kind, lost) = document::content(
                w.model(),
                el@,
                style@,
                depth as nat,
                path_data::texts(old(stack)@),
            );
            &&& kind_model(r) == kind
            &&& scene::losses_view(final(losses)@) == scene::losses_view(old(losses)@) + lost
        }),
    decreases MAX_USE_DEPTH - depth, el, 0int,
{
    let ghost stacked = path_data::texts(stack@);
    let id = match fragment(el) {
        None => {
            lose(losses, el, Some("<use> without a same-document href".to_owned()));
            return None;
        },
        Some(id) => id,
    };
    let target = match find(&w.els, id.as_str()) {
        None => {
            lose(
                losses,
                el,
                Some(joined("<use> references #", id.as_str(), ", which does not exist")),
            );
            return None;
        },
        Some(target) => target,
    };
    if listed(stack, id.as_str()) || depth >= MAX_USE_DEPTH {
        lose(
            losses,
            el,
            Some(joined("<use> of #", id.as_str(), " recurses; expansion stopped")),
        );
        return None;
    }
    let ghost word = id@;
    stack.push(id);
    assert(path_data::texts(stack@) =~= stacked.push(word));
    let inner = node(w, target, style, depth + 1, stack, losses);
    let ghost after = path_data::texts(stack@);
    stack.pop();
    assert(path_data::texts(stack@) =~= after.drop_last());
    assert(stacked.push(word).drop_last() =~= stacked);
    match inner {
        None => None,
        Some(t) => {
            let mut nodes: Vec<Tree> = Vec::new();
            nodes.push(t);
            proof {
                scene::lemma_trees_push(Seq::empty(), t);
                assert(nodes@ =~= Seq::<Tree>::empty().push(t));
                assert(scene::trees_view(nodes@) =~= seq![t@]);
            }
            Some(TreeKind::Group(nodes))
        },
    }
}

/// The nodes for the elements among these, in paint order.
fn children<'a>(
    w: &World<'a>,
    nodes: &'a Vec<xml::Node>,
    style: &Style,
    depth: usize,
    stack: &mut Vec<String>,
    losses: &mut Vec<Loss>,
) -> (r: Vec<Tree>)
    requires
        style.wf(),
        depth <= MAX_USE_DEPTH,
    ensures
        path_data::texts(final(stack)@) == path_data::texts(old(stack)@),
        ({
            let (trees, lost) = document::children(
                w.model(),
                xml::nodes_view(nodes@),
                style@,
                depth as nat,
                path_data::texts(old(stack)@),
                nodes@.len() as int,
            );
            &&& scene::trees_view(r@) == trees
            &&& scene::losses_view(final(losses)@) == scene::losses_view(old(losses)@) + lost
        }),
    decreases MAX_USE_DEPTH - depth, nodes, 0int,
{
    let ghost before = scene::losses_view(losses@);
    let ghost stacked = path_data::texts(stack@);
    let ghost all = xml::nodes_view(nodes@);
    proof {
        xml::lemma_nodes_len(nodes@);
    }
    let mut out: Vec<Tree> = Vec::new();
    let mut i: usize = 0;
    assert(scene::losses_view(losses@) =~= before + Seq::<LossModel>::empty());
    assert(scene::trees_view(out@) =~= Seq::<TreeModel>::empty());
    while i < nodes.len()
        invariant
            i <= nodes@.len(),
            all == xml::nodes_view(nodes@),
            all.len() == nodes@.len(),
            style.wf(),
            depth <= MAX_USE_DEPTH,
            path_data::texts(stack@) == stacked,
            scene::trees_view(out@) == document::children(
                w.model(),
                all,
                style@,
                depth as nat,
                stacked,
                i as int,
            ).0,
            scene::losses_view(losses@) == before + document::children(
                w.model(),
                all,
                style@,
                depth as nat,
                stacked,
                i as int,
            ).1,
        decreases nodes@.len() - i,
    {
        proof {
            xml::lemma_nodes_index(nodes@, i as int);
        }
        let ghost so_far = document::children(
            w.model(),
            all,
            style@,
            depth as nat,
            stacked,
            i as int,
        ).1;
        match &nodes[i] {
            xml::Node::Text(_) => {},
            xml::Node::Element(child) => {
                proof {
                    assert(decreases_to!(nodes => nodes@[i as int]));
                }
                let inner = node(w, child, style, depth, stack, losses);
                proof {
                    let (_, lost) = document::node(
                        w.model(),
                        child@,
                        style@,
                        depth as nat,
                        stacked,
                    );
                    assert((before + so_far) + lost =~= before + (so_far + lost));
                }
                if let Some(t) = inner {
                    proof {
                        scene::lemma_trees_push(out@, t);
                    }
                    out.push(t);
                }
            },
        }
        i += 1;
    }
    out
}

/// The element that an `href` points at, within this document.
fn href_target<'a>(els: &Vec<&'a Element>, el: &Element) -> (r: Option<&'a Element>)
    ensures
        match document::target(elements_view(els@), el@) {
            Some(e) => r matches Some(f) && f@ == e,
            None => r is None,
        },
{
    match fragment(el) {
        Some(id) => find(els, id.as_str()),
        None => None,
    }
}

/// An attribute of `el`, or of the first element in its `href` chain that has
/// it.
fn inherited<'a>(els: &Vec<&'a Element>, el: &'a Element, name: &str) -> (r: Option<&'a str>)
    ensures
        match document::inherited(elements_view(els@), el@, name@, MAX_USE_DEPTH as int) {
            Some(v) => r matches Some(t) && t@ == v,
            None => r is None,
        },
{
    let ghost all = elements_view(els@);
    let mut cur: &'a Element = el;
    let mut hops: usize = MAX_USE_DEPTH;
    while hops > 0
        invariant
            hops <= MAX_USE_DEPTH,
            all == elements_view(els@),
            document::inherited(all, el@, name@, MAX_USE_DEPTH as int) == document::inherited(
                all,
                cur@,
                name@,
                hops as int,
            ),
        decreases hops,
    {
        if let Some(v) = cur.attribute(name) {
            return Some(v);
        }
        match href_target(els, cur) {
            Some(next) => {
                cur = next;
            },
            None => {
                return None;
            },
        }
        hops -= 1;
    }
    None
}

/// Whether an element has stops of its own.
fn has_stops(el: &Element) -> (r: bool)
    ensures
        r == document::has_stops(el@),
{
    let ghost nodes = el@.children;
    proof {
        xml::lemma_nodes_len(el.children@);
    }
    let mut i: usize = 0;
    while i < el.children.len()
        invariant
            i <= el.children@.len(),
            nodes == xml::nodes_view(el.children@),
            nodes.len() == el.children@.len(),
            nodes == el@.children,
            forall|k: int| 0 <= k < i ==> !document::is_stop(#[trigger] nodes[k]),
        decreases el.children@.len() - i,
    {
        proof {
            xml::lemma_nodes_index(el.children@, i as int);
        }
        if let xml::Node::Element(child) = &el.children[i] {
            if text::same(child.name.local.as_str(), "stop") {
                assert(document::is_stop(nodes[i as int]));
                return true;
            }
        }
        i += 1;
    }
    false
}

/// `el`, or the nearest gradient in its `href` chain that has stops.
fn stop_source<'a>(els: &Vec<&'a Element>, el: &'a Element) -> (r: &'a Element)
    ensures
        r@ == document::stop_source(elements_view(els@), el@, MAX_USE_DEPTH as int),
{
    let ghost all = elements_view(els@);
    let mut cur: &'a Element = el;
    let mut hops: usize = MAX_USE_DEPTH;
    while hops > 0
        invariant
            hops <= MAX_USE_DEPTH,
            all == elements_view(els@),
            document::stop_source(all, el@, MAX_USE_DEPTH as int) == document::stop_source(
                all,
                cur@,
                hops as int,
            ),
        decreases hops,
    {
        if has_stops(cur) {
            return cur;
        }
        match href_target(els, cur) {
            Some(next) => {
                cur = next;
            },
            None => {
                return cur;
            },
        }
        hops -= 1;
    }
    cur
}

/// A colour stop.
fn stop_of(el: &Element, parent: &Style) -> (r: Stop)
    requires
        parent.wf(),
    ensures
        r@ == document::stop_of(el@, parent@),
{
    let style = parent.resolve(el);
    let offset = match el.attribute("offset") {
        Some(v) => length(v),
        None => length("0"),
    };
    Stop { offset, color: style.value(15).to_owned(), opacity: style.value(16).to_owned() }
}

/// The stops of a gradient.
fn stops<'a>(els: &Vec<&'a Element>, el: &'a Element) -> (r: Vec<Stop>)
    ensures
        r@.map_values(|s: Stop| s@) == ({
            let source = document::stop_source(
                elements_view(els@),
                el@,
                MAX_USE_DEPTH as int,
            );
            document::stops_of(
                source.children,
                super::style::resolved(super::style::initials(), source),
                source.children.len() as int,
            )
        }),
{
    let source = stop_source(els, el);
    let root = Style::initial();
    let parent = root.resolve(source);
    let ghost nodes = source@.children;
    proof {
        xml::lemma_nodes_len(source.children@);
    }
    let mut out: Vec<Stop> = Vec::new();
    let mut i: usize = 0;
    assert(out@.map_values(|s: Stop| s@) =~= Seq::<StopModel>::empty());
    while i < source.children.len()
        invariant
            i <= source.children@.len(),
            nodes == xml::nodes_view(source.children@),
            nodes.len() == source.children@.len(),
            parent.wf(),
            out@.map_values(|s: Stop| s@) == document::stops_of(nodes, parent@, i as int),
        decreases source.children@.len() - i,
    {
        proof {
            xml::lemma_nodes_index(source.children@, i as int);
        }
        if let xml::Node::Element(child) = &source.children[i] {
            if text::same(child.name.local.as_str(), "stop") {
                let ghost before = out@;
                let stop = stop_of(child, &parent);
                out.push(stop);
                assert(out@.map_values(|s: Stop| s@) =~= before.map_values(|s: Stop| s@).push(
                    stop@,
                ));
            }
        }
        i += 1;
    }
    out
}

/// The attributes that give a gradient's geometry.
pub fn coordinate_names(radial: bool) -> (r: Vec<&'static str>)
    ensures
        names_view(r@) == document::coords_of(radial),
{
    let mut r: Vec<&'static str> = Vec::new();
    if radial {
        r.push("cx");
        r.push("cy");
        r.push("r");
        r.push("fx");
        r.push("fy");
    } else {
        r.push("x1");
        r.push("y1");
        r.push("x2");
        r.push("y2");
    }
    assert(names_view(r@) =~= document::coords_of(radial));
    r
}

fn coordinates<'a>(els: &Vec<&'a Element>, el: &'a Element, radial: bool) -> (r: Vec<
    Option<Length>,
>)
    ensures
        scene::lengths_view(r@) == document::coords_of(radial).map_values(
            |n: Seq<char>| document::inherited_length(elements_view(els@), el@, n),
        ),
{
    let names = coordinate_names(radial);
    let ghost want = document::coords_of(radial).map_values(
        |n: Seq<char>| document::inherited_length(elements_view(els@), el@, n),
    );
    let mut r: Vec<Option<Length>> = Vec::new();
    let mut i: usize = 0;
    while i < names.len()
        invariant
            i <= names@.len(),
            names_view(names@) == document::coords_of(radial),
            want == document::coords_of(radial).map_values(
                |n: Seq<char>| document::inherited_length(elements_view(els@), el@, n),
            ),
            r@.len() == i,
            forall|j: int| 0 <= j < i ==> scene::length_view(#[trigger] r@[j]) == want[j],
        decreases names@.len() - i,
    {
        assert(names_view(names@)[i as int] == names@[i as int]@);
        let l = match inherited(els, el, names[i]) {
            Some(v) => length(v),
            None => None,
        };
        r.push(l);
        i += 1;
    }
    assert(names_view(names@).len() == names@.len());
    assert(scene::lengths_view(r@) =~= want);
    r
}

/// A gradient definition, and what is lost of it.
fn gradient<'a>(els: &Vec<&'a Element>, el: &'a Element, id: &str, losses: &mut Vec<Loss>) -> (r:
    Gradient)
    ensures
        r@ == document::gradient(elements_view(els@), el@, id@),
        scene::losses_view(final(losses)@) == scene::losses_view(old(losses)@) + document::lost(
            el@,
            document::gradient_transform(elements_view(els@), el@).1,
        ),
{
    let radial = text::same(el.name.local.as_str(), "radialGradient");
    let user_space = match inherited(els, el, "gradientUnits") {
        Some(v) => text::same(v, "userSpaceOnUse"),
        None => false,
    };
    let coords = coordinates(els, el, radial);
    let (transform, message) = match inherited(els, el, "gradientTransform") {
        Some(v) => transform_or_loss(v, "gradientTransform ignored: "),
        None => {
            let none: Vec<Function> = Vec::new();
            assert(transform::functions_view(none@) =~= Seq::<FunctionModel>::empty());
            (none, None)
        },
    };
    lose(losses, el, message);
    let spread = match inherited(els, el, "spreadMethod") {
        Some(v) => v.to_owned(),
        None => "pad".to_owned(),
    };
    Gradient {
        id: id.to_owned(),
        radial,
        coords,
        transform,
        user_space,
        spread,
        stops: stops(els, el),
    }
}

/// Every gradient that something can name.
fn gradients<'a>(els: &Vec<&'a Element>, losses: &mut Vec<Loss>) -> (r: Vec<Gradient>)
    ensures
        ({
            let all = elements_view(els@);
            let (found, lost) = document::gradients(all, all.len() as int);
            &&& r@.map_values(|g: Gradient| g@) == found
            &&& scene::losses_view(final(losses)@) == scene::losses_view(old(losses)@) + lost
        }),
{
    let ghost all = elements_view(els@);
    let ghost before = scene::losses_view(losses@);
    let mut out: Vec<Gradient> = Vec::new();
    let mut i: usize = 0;
    assert(out@.map_values(|g: Gradient| g@) =~= Seq::<GradientModel>::empty());
    assert(scene::losses_view(losses@) =~= before + Seq::<LossModel>::empty());
    while i < els.len()
        invariant
            i <= els@.len(),
            all == elements_view(els@),
            out@.map_values(|g: Gradient| g@) == document::gradients(all, i as int).0,
            scene::losses_view(losses@) == before + document::gradients(all, i as int).1,
        decreases els@.len() - i,
    {
        let el: &'a Element = els[i];
        assert(all[i as int] == el@);
        let name = el.name.local.as_str();
        if is_svg(el) && (text::same(name, "linearGradient") || text::same(
            name,
            "radialGradient",
        )) {
            if let Some(id) = id_of(el) {
                let ghost old_out = out@;
                let g = gradient(els, el, id, losses);
                out.push(g);
                proof {
                    assert(out@.map_values(|g: Gradient| g@) =~= old_out.map_values(
                        |g: Gradient| g@,
                    ).push(g@));
                    lemma_chain(
                        before,
                        document::gradients(all, i as int).1,
                        document::lost(el@, document::gradient_transform(all, el@).1),
                    );
                }
            }
        }
        i += 1;
    }
    out
}

/// A copy of a transform list.
fn copy_functions(list: &Vec<Function>) -> (r: Vec<Function>)
    ensures
        transform::functions_view(r@) == transform::functions_view(list@),
{
    let mut r: Vec<Function> = Vec::new();
    let mut i: usize = 0;
    while i < list.len()
        invariant
            i <= list@.len(),
            r@.len() == i,
            forall|j: int| 0 <= j < i ==> (#[trigger] r@[j])@ == list@[j]@,
        decreases list@.len() - i,
    {
        let mut args: Vec<String> = Vec::new();
        let mut k: usize = 0;
        while k < list[i as usize].args.len()
            invariant
                i < list@.len(),
                k <= list@[i as int].args@.len(),
                args@.len() == k,
                forall|j: int| 0 <= j < k ==> (#[trigger] args@[j])@ == list@[i as int].args@[j]@,
            decreases list@[i as int].args@.len() - k,
        {
            args.push(list[i].args[k].clone());
            k += 1;
        }
        let f = Function { kind: list[i].kind, args };
        assert(path_data::texts(f.args@) =~= path_data::texts(list@[i as int].args@));
        r.push(f);
        i += 1;
    }
    assert(transform::functions_view(r@) =~= transform::functions_view(list@));
    r
}

fn copy_transforms(list: &Vec<Vec<Function>>) -> (r: Vec<Vec<Function>>)
    ensures
        scene::transforms_view(r@) == scene::transforms_view(list@),
{
    let mut r: Vec<Vec<Function>> = Vec::new();
    let mut i: usize = 0;
    while i < list.len()
        invariant
            i <= list@.len(),
            r@.len() == i,
            forall|j: int|
                0 <= j < i ==> transform::functions_view((#[trigger] r@[j])@)
                    == transform::functions_view(list@[j]@),
        decreases list@.len() - i,
    {
        r.push(copy_functions(&list[i]));
        i += 1;
    }
    assert(scene::transforms_view(r@) =~= scene::transforms_view(list@));
    r
}

pub open spec fn clip_shapes_view(s: Seq<ClipShape>) -> Seq<ClipShapeModel> {
    s.map_values(|c: ClipShape| c@)
}

/// Shapes inside a `<clipPath>`, each with the transforms on it.
fn clip_shapes(
    nodes: &Vec<xml::Node>,
    transforms: &Vec<Vec<Function>>,
    hidden: &Vec<(usize, usize)>,
    out: &mut Vec<ClipShape>,
    losses: &mut Vec<Loss>,
)
    ensures
        ({
            let all = xml::nodes_view(nodes@);
            let (found, lost) = document::clip_shapes(
                all,
                scene::transforms_view(transforms@),
                positions_view(hidden@),
                all.len() as int,
            );
            &&& clip_shapes_view(final(out)@) == clip_shapes_view(old(out)@) + found
            &&& scene::losses_view(final(losses)@) == scene::losses_view(old(losses)@) + lost
        }),
    decreases nodes,
{
    let ghost all = xml::nodes_view(nodes@);
    let ghost ts = scene::transforms_view(transforms@);
    let ghost gone = positions_view(hidden@);
    let ghost before = scene::losses_view(losses@);
    let ghost had = clip_shapes_view(out@);
    proof {
        xml::lemma_nodes_len(nodes@);
    }
    let mut i: usize = 0;
    assert(clip_shapes_view(out@) =~= had + Seq::<ClipShapeModel>::empty());
    assert(scene::losses_view(losses@) =~= before + Seq::<LossModel>::empty());
    while i < nodes.len()
        invariant
            i <= nodes@.len(),
            all == xml::nodes_view(nodes@),
            all.len() == nodes@.len(),
            ts == scene::transforms_view(transforms@),
            gone == positions_view(hidden@),
            clip_shapes_view(out@) == had + document::clip_shapes(all, ts, gone, i as int).0,
            scene::losses_view(losses@) == before + document::clip_shapes(
                all,
                ts,
                gone,
                i as int,
            ).1,
        decreases nodes@.len() - i,
    {
        let ghost front = document::clip_shapes(all, ts, gone, i as int).0;
        let ghost lost0 = document::clip_shapes(all, ts, gone, i as int).1;
        proof {
            xml::lemma_nodes_index(nodes@, i as int);
        }
        if let xml::Node::Element(el) = &nodes[i] {
            let ghost e = el@;
            let (t, message) = transform_of(el);
            lose(losses, el, message);
            let ghost lost1 = document::lost(e, document::transform_of(e).1);
            proof {
                lemma_chain(before, lost0, lost1);
            }
            let mut inner = copy_transforms(transforms);
            let ghost was = inner@;
            inner.push(t);
            assert(scene::transforms_view(inner@) =~= ts.push(document::transform_of(e).0));
            let name = el.name.local.as_str();
            if text::same(name, "g") && is_svg(el) {
                proof {
                    assert(decreases_to!(nodes => nodes@[i as int]));
                    xml::lemma_nodes_len(el.children@);
                }
                clip_shapes(&el.children, &inner, hidden, out, losses);
                proof {
                    let (more, rest) = document::clip_shapes(
                        e.children,
                        ts.push(document::transform_of(e).0),
                        gone,
                        e.children.len() as int,
                    );
                    lemma_chain(before, lost0 + lost1, rest);
                    assert(had + front + more =~= had + (front + more));
                }
            } else if is_shape(name) {
                let (found, trouble) = shape(el, hidden);
                lose(losses, el, trouble);
                proof {
                    lemma_chain(
                        before,
                        lost0 + lost1,
                        document::lost(e, document::shape_of(e, gone).1),
                    );
                }
                if let Some(s) = found {
                    let ghost had_out = out@;
                    let c = ClipShape { transforms: inner, shape: s };
                    out.push(c);
                    assert(clip_shapes_view(out@) =~= clip_shapes_view(had_out).push(c@));
                    assert((had + front).push(c@) =~= had + front.push(c@));
                }
            } else {
                let m = joined("<", name, "> in a clipPath ignored");
                lose(losses, el, Some(m));
                proof {
                    lemma_chain(before, lost0 + lost1, document::lost(e, Some(m@)));
                }
            }
        }
        i += 1;
    }
}

/// Every clip that something can name.
fn clips<'a>(els: &Vec<&'a Element>, hidden: &Vec<(usize, usize)>, losses: &mut Vec<Loss>) -> (r:
    Vec<Clip>)
    ensures
        ({
            let all = elements_view(els@);
            let (found, lost) = document::clips(all, positions_view(hidden@), all.len() as int);
            &&& r@.map_values(|c: Clip| c@) == found
            &&& scene::losses_view(final(losses)@) == scene::losses_view(old(losses)@) + lost
        }),
{
    let ghost all = elements_view(els@);
    let ghost gone = positions_view(hidden@);
    let ghost before = scene::losses_view(losses@);
    let mut out: Vec<Clip> = Vec::new();
    let none: Vec<Vec<Function>> = Vec::new();
    let mut i: usize = 0;
    assert(scene::transforms_view(none@) =~= Seq::<Seq<FunctionModel>>::empty());
    assert(out@.map_values(|c: Clip| c@) =~= Seq::<ClipModel>::empty());
    assert(scene::losses_view(losses@) =~= before + Seq::<LossModel>::empty());
    while i < els.len()
        invariant
            i <= els@.len(),
            all == elements_view(els@),
            gone == positions_view(hidden@),
            scene::transforms_view(none@) == Seq::<Seq<FunctionModel>>::empty(),
            out@.map_values(|c: Clip| c@) == document::clips(all, gone, i as int).0,
            scene::losses_view(losses@) == before + document::clips(all, gone, i as int).1,
        decreases els@.len() - i,
    {
        let el: &'a Element = els[i];
        assert(all[i as int] == el@);
        let ghost lost0 = document::clips(all, gone, i as int).1;
        if is_svg(el) && text::same(el.name.local.as_str(), "clipPath") {
            if let Some(id) = id_of(el) {
                let boxed = match el.attribute("clipPathUnits") {
                    Some(v) => text::same(v, "objectBoundingBox"),
                    None => false,
                };
                let units = if boxed {
                    Some("clipPathUnits=\"objectBoundingBox\" ignored".to_owned())
                } else {
                    None
                };
                let ghost lost1 = document::lost(el@, xml::optional_view(units));
                lose(losses, el, units);
                let mut shapes: Vec<ClipShape> = Vec::new();
                assert(clip_shapes_view(shapes@) =~= Seq::<ClipShapeModel>::empty());
                clip_shapes(&el.children, &none, hidden, &mut shapes, losses);
                proof {
                    xml::lemma_nodes_len(el.children@);
                    let (found, more) = document::clip_shapes(
                        el@.children,
                        Seq::empty(),
                        gone,
                        el@.children.len() as int,
                    );
                    assert(Seq::<ClipShapeModel>::empty() + found =~= found);
                    lemma_chain(before, lost0, lost1);
                    lemma_chain(before, lost0 + lost1, more);
                }
                let ghost had = out@;
                let c = Clip { id: id.to_owned(), shapes };
                out.push(c);
                assert(out@.map_values(|c: Clip| c@) =~= had.map_values(|c: Clip| c@).push(c@));
            }
        }
        i += 1;
    }
    out
}

/// What is lost to stylesheets.
fn stylesheet_losses<'a>(els: &Vec<&'a Element>, losses: &mut Vec<Loss>)
    ensures
        ({
            let all = elements_view(els@);
            scene::losses_view(final(losses)@) == scene::losses_view(old(losses)@)
                + document::stylesheet_losses(all, all.len() as int)
        }),
{
    let ghost all = elements_view(els@);
    let ghost before = scene::losses_view(losses@);
    let mut i: usize = 0;
    assert(scene::losses_view(losses@) =~= before + Seq::<LossModel>::empty());
    while i < els.len()
        invariant
            i <= els@.len(),
            all == elements_view(els@),
            scene::losses_view(losses@) == before + document::stylesheet_losses(all, i as int),
        decreases els@.len() - i,
    {
        let el: &'a Element = els[i];
        assert(all[i as int] == el@);
        if is_svg(el) && text::same(el.name.local.as_str(), "style") {
            let ghost lost0 = document::stylesheet_losses(all, i as int);
            let m = "CSS in a <style> element is not applied".to_owned();
            lose(losses, el, Some(m));
            proof {
                lemma_chain(before, lost0, document::lost(el@, Some(m@)));
            }
        }
        i += 1;
    }
}

/// The ids of gradients.
fn gradient_ids(list: &Vec<Gradient>) -> (r: Vec<String>)
    ensures
        path_data::texts(r@) == list@.map_values(|g: Gradient| g@).map_values(
            |g: GradientModel| g.id,
        ),
{
    let mut r: Vec<String> = Vec::new();
    let mut i: usize = 0;
    while i < list.len()
        invariant
            i <= list@.len(),
            r@.len() == i,
            forall|j: int| 0 <= j < i ==> (#[trigger] r@[j])@ == list@[j].id@,
        decreases list@.len() - i,
    {
        r.push(list[i].id.clone());
        i += 1;
    }
    assert(path_data::texts(r@) =~= list@.map_values(|g: Gradient| g@).map_values(
        |g: GradientModel| g.id,
    ));
    r
}

/// The ids of clips.
fn clip_ids(list: &Vec<Clip>) -> (r: Vec<String>)
    ensures
        path_data::texts(r@) == list@.map_values(|c: Clip| c@).map_values(|c: ClipModel| c.id),
{
    let mut r: Vec<String> = Vec::new();
    let mut i: usize = 0;
    while i < list.len()
        invariant
            i <= list@.len(),
            r@.len() == i,
            forall|j: int| 0 <= j < i ==> (#[trigger] r@[j])@ == list@[j].id@,
        decreases list@.len() - i,
    {
        r.push(list[i].id.clone());
        i += 1;
    }
    assert(path_data::texts(r@) =~= list@.map_values(|c: Clip| c@).map_values(
        |c: ClipModel| c.id,
    ));
    r
}

/// A copy of an attribute.
fn copied(el: &Element, name: &str) -> (r: Option<String>)
    ensures
        xml::optional_view(r) == markup::plain(el@, name@),
{
    match el.attribute(name) {
        Some(v) => Some(v.to_owned()),
        None => None,
    }
}

/// Whether `root` starts an SVG document.
pub open spec fn starts_svg(root: ElementModel) -> bool {
    document::is_svg(root) && root.name.local == "svg"@
}

/// Puts a loss at its place in a list in document order.
fn file(list: &mut Vec<Loss>, l: Loss)
    ensures
        scene::losses_view(final(list)@) == document::filed(scene::losses_view(old(list)@), l@),
{
    let n: usize = list.len();
    let mut k: usize = n;
    let ghost s = scene::losses_view(list@);
    while k > 0 && (l.line < list[k - 1].line || l.line == list[k - 1].line && l.column < list[k
        - 1].column)
        invariant
            k <= n == list@.len(),
            s == scene::losses_view(list@),
            forall|i: int| k <= i < n ==> document::earlier(l@, #[trigger] s[i]),
        decreases k,
    {
        assert(s[k - 1] == list@[k - 1]@);
        k -= 1;
    }
    let ghost before = list@;
    let ghost one = l@;
    list.insert(k, l);
    proof {
        if k > 0 {
            assert(s[k - 1] == before[k - 1]@);
        }
        lemma_filed_at(s, one, k as int);
        assert(scene::losses_view(list@) =~= s.insert(k as int, one));
    }
}

proof fn lemma_filed_at(s: Seq<LossModel>, l: LossModel, k: int)
    requires
        0 <= k <= s.len(),
        forall|i: int| k <= i < s.len() ==> document::earlier(l, #[trigger] s[i]),
        k > 0 ==> !document::earlier(l, s[k - 1]),
    ensures
        s.insert(k, l) == document::filed(s, l),
    decreases s.len(),
{
    if k < s.len() {
        let front = s.drop_last();
        assert(document::earlier(l, s[s.len() - 1]));
        lemma_filed_at(front, l, k);
        assert(s.insert(k, l) =~= front.insert(k, l).push(s.last()));
    } else {
        assert(s.insert(k, l) =~= s.push(l));
    }
}

/// The losses in document order.
fn sorted(losses: Vec<Loss>) -> (r: Vec<Loss>)
    ensures
        scene::losses_view(r@) == document::in_document_order(scene::losses_view(losses@)),
{
    let mut rest = losses;
    let mut r: Vec<Loss> = Vec::new();
    let ghost all = scene::losses_view(losses@);
    let ghost mut done: int = 0;
    assert(all.take(0) =~= Seq::<LossModel>::empty());
    assert(scene::losses_view(r@) =~= Seq::<LossModel>::empty());
    assert(all.skip(0) =~= all);
    while rest.len() > 0
        invariant
            0 <= done <= all.len(),
            scene::losses_view(rest@) == all.skip(done),
            rest@.len() == all.len() - done,
            scene::losses_view(r@) == document::in_document_order(all.take(done)),
        decreases rest.len(),
    {
        let ghost before = rest@;
        let l = rest.remove(0);
        proof {
            assert(all.skip(done)[0] == l@);
            assert(scene::losses_view(before)[0] == before[0]@);
            assert(all.take(done + 1).drop_last() =~= all.take(done));
            assert(all.take(done + 1).last() == l@);
            assert forall|i: int| 0 <= i < rest@.len() implies scene::losses_view(rest@)[i]
                == all.skip(done + 1)[i] by {
                assert(scene::losses_view(before)[i + 1] == all.skip(done)[i + 1]);
            }
            assert(scene::losses_view(rest@) =~= all.skip(done + 1));
        }
        file(&mut r, l);
        proof {
            done = done + 1;
        }
    }
    assert(all.take(done) =~= all);
    r
}

/// Whether a result is the scene of a document: the scene itself, or an error at
/// the root where it has more nodes than an arena can hold.
pub open spec fn imports(root: ElementModel, hidden: Seq<(nat, nat)>, r: Result<Scene, Error>) -> bool {
    let scene = document::scene(root, hidden);
    let count = graph::sizes(scene.roots, scene.roots.len() as int);
    if count <= CAPACITY {
        r matches Ok(s) && s@ == scene && s.wf() && graph::is_forest(s.nodes@, s.roots@)
            && s.nodes@.dom().len() == count
    } else {
        r matches Err(e) && e.message@ == "more nodes than a scene can hold"@ && e.line
            == root.line && e.column == root.column
    }
}

/// Import the document under a root element.
///
/// What a percentage comes to depends on the viewport: `hidden` lists, by line
/// and column, the shapes with a percentage for a size that comes to nothing.
pub fn import_tree(root: &Element, hidden: &Vec<(usize, usize)>) -> (r: Result<Scene, Error>)
    ensures
        if starts_svg(root@) {
            imports(root@, positions_view(hidden@), r)
        } else {
            r matches Err(e) && e.message@ == "root element is <"@ + root@.name.local
                + ">, not <svg>"@ && e.line == root@.line && e.column == root@.column
        },
{
    if !is_svg(root) || !text::same(root.name.local.as_str(), "svg") {
        let message = joined("root element is <", root.name.local.as_str(), ">, not <svg>");
        return Err(Error { message, line: root.line, column: root.column });
    }
    let ghost gone = positions_view(hidden@);
    let ghost e = root@;
    let mut els: Vec<&Element> = Vec::new();
    assert(elements_view(els@) =~= Seq::<ElementModel>::empty());
    collect(root, &mut els);
    let ghost all = document::all(e);
    assert(elements_view(els@) =~= all);
    let mut losses: Vec<Loss> = Vec::new();
    assert(scene::losses_view(losses@) =~= Seq::<LossModel>::empty());
    stylesheet_losses(&els, &mut losses);
    let ghost l1 = document::stylesheet_losses(all, all.len() as int);
    assert(scene::losses_view(losses@) =~= l1);
    let found_gradients = gradients(&els, &mut losses);
    let found_clips = clips(&els, hidden, &mut losses);
    let w = World {
        els,
        gradients: gradient_ids(&found_gradients),
        clips: clip_ids(&found_clips),
        hidden,
    };
    proof {
        let want = document::world_of(e, gone);
        assert(w.model().gradients =~= want.gradients);
        assert(w.model().clips =~= want.clips);
        assert(w.model() == want);
        xml::lemma_nodes_len(root.children@);
    }
    let initial = Style::initial();
    let style = initial.resolve(root);
    let mut stack: Vec<String> = Vec::new();
    assert(path_data::texts(stack@) =~= Seq::<Seq<char>>::empty());
    let trees = children(&w, &root.children, &style, 0, &mut stack, &mut losses);
    let ghost list = trees@;
    let ghost want = document::scene(e, gone);
    assert(scene::trees_view(list) == want.roots);
    let mut nodes: Arena<Node> = Arena::new();
    proof {
        scene::lemma_trees_len(list);
        document::imported_nodes_are_sound(e, gone);
        assert(nodes@.dom() =~= Set::<NodeId>::empty());
    }
    let ghost none = nodes@;
    let roots = match graph::plant_all(trees, &mut nodes) {
        Some(ids) => ids,
        None => {
            let message = "more nodes than a scene can hold".to_owned();
            return Err(Error { message, line: root.line, column: root.column });
        },
    };
    proof {
        let n = roots@.len() as int;
        graph::lemma_trees_at(nodes@, roots@, CAPACITY as nat, n);
        assert forall|k: int| 0 <= k < n implies graph::trees_at(
            nodes@,
            roots@,
            CAPACITY as nat,
            n,
        )[k] == want.roots[k] by {
            assert(nodes@.contains_key(roots@[k]));
            assert(roots@[k].slot() < CAPACITY);
        }
        assert(graph::trees_at(nodes@, roots@, CAPACITY as nat, n) =~= want.roots);
        arena::every_slot_is_live_or_vacant(nodes);
        assert forall|id: NodeId| #[trigger] graph::loose(nodes@, id) <==> roots@.contains(id) by {
            assert(!graph::loose(none, id));
        }
    }
    let view_box = match root.attribute("viewBox") {
        Some(v) => parse_view_box(v),
        None => None,
    };
    Ok(
        Scene {
            nodes,
            roots,
            gradients: found_gradients,
            clips: found_clips,
            view_box,
            width: copied(root, "width"),
            height: copied(root, "height"),
            losses: sorted(losses),
        },
    )
}

/// Import an SVG document.
///
/// Everything the scene cannot represent is reported in [`Scene::losses`]
/// rather than dropped silently, and never stops the import. What fails is XML
/// that does not parse, a root element that is not `<svg>`, and a document of
/// more nodes than ids can tell apart.
pub fn import(source: &str, hidden: &Vec<(usize, usize)>) -> (r: Result<Scene, Error>)
    requires
        source@.len() < usize::MAX,
    ensures
        match markup::document(markup::normal(source@)) {
            Err(f) => r matches Err(e) && xml::reports(e, markup::normal(source@), f),
            Ok(root) => if starts_svg(root) {
                imports(root, positions_view(hidden@), r)
            } else {
                r matches Err(e) && e.message@ == "root element is <"@ + root.name.local
                    + ">, not <svg>"@ && e.line == root.line && e.column == root.column
            },
        },
{
    match xml::parse(source) {
        Err(e) => Err(e),
        Ok(root) => import_tree(&root, hidden),
    }
}

} // verus!
