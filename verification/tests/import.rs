//! Documents into scenes.

use hane::svg::document::{Basic, Unit};
use hane::svg::import::{import, import_tree, length, parse_view_box, url_fragment};
use hane::svg::path_data::{Drawing, Place, Step, Term};
use hane::scene::arena::NodeId;
use hane::svg::scene::{Gradient, Length, Node, NodeKind, Scene, Shape};
use hane::svg::transform::{Function, Kind};
use hane::svg::xml::{Element, Node as XmlNode, parse};

type Affine = [f64; 6];

const IDENTITY: Affine = [1.0, 0.0, 0.0, 1.0, 0.0, 0.0];

fn times(p: Affine, q: Affine) -> Affine {
    [
        p[0] * q[0] + p[2] * q[1],
        p[1] * q[0] + p[3] * q[1],
        p[0] * q[2] + p[2] * q[3],
        p[1] * q[2] + p[3] * q[3],
        p[0] * q[4] + p[2] * q[5] + p[4],
        p[1] * q[4] + p[3] * q[5] + p[5],
    ]
}

/// The matrix of one function, for those the documents here use.
fn matrix(f: &Function) -> Affine {
    let a: Vec<f64> = f.args.iter().map(|t| t.parse().unwrap()).collect();
    match f.kind {
        Kind::Translate => [1.0, 0.0, 0.0, 1.0, a[0], a.get(1).copied().unwrap_or(0.0)],
        Kind::Scale => [a[0], 0.0, 0.0, a.get(1).copied().unwrap_or(a[0]), 0.0, 0.0],
        _ => panic!("not used here"),
    }
}

fn compose(list: &[Function]) -> Affine {
    list.iter().fold(IDENTITY, |acc, f| times(acc, matrix(f)))
}

/// A length in user units.
fn measure(l: &Length, percent_of: f64) -> f64 {
    let factor = match l.unit {
        Unit::User => 1.0,
        Unit::Point => 96.0 / 72.0,
        Unit::Pica => 16.0,
        Unit::Millimetre => 96.0 / 25.4,
        Unit::Centimetre => 96.0 / 2.54,
        Unit::Inch => 96.0,
        Unit::Percent => percent_of / 100.0,
    };
    l.number.parse::<f64>().unwrap() * factor
}

fn or_zero(l: &Option<Length>) -> f64 {
    l.as_ref().map_or(0.0, |l| measure(l, 100.0))
}

fn number(text: &str, percent_of: f64) -> Option<f64> {
    length(text).map(|l| measure(&l, percent_of))
}

/// The corners of a shape's box, or the points of a drawing.
fn points(shape: &Shape) -> Vec<(f64, f64)> {
    match shape {
        Shape::Basic(b, l) => {
            let v: Vec<f64> = l.iter().map(or_zero).collect();
            let (x0, y0, x1, y1) = match b {
                Basic::Rect => (v[0], v[1], v[0] + v[2], v[1] + v[3]),
                Basic::Circle => (v[0] - v[2], v[1] - v[2], v[0] + v[2], v[1] + v[2]),
                Basic::Ellipse => (v[0] - v[2], v[1] - v[3], v[0] + v[2], v[1] + v[3]),
                Basic::Line => (v[0], v[1], v[2], v[3]),
            };
            vec![(x0, y0), (x1, y0), (x1, y1), (x0, y1)]
        }
        Shape::Drawn(d) => drawn(d),
    }
}

fn drawn(d: &Drawing) -> Vec<(f64, f64)> {
    let mut at: Vec<(f64, f64)> = Vec::new();
    for Place { x, y } in &d.places {
        let value = |t: &Term, of: fn((f64, f64)) -> f64| match t {
            Term::Zero => 0.0,
            Term::Number(t) => t.parse().unwrap(),
            Term::Plus(k, t) => of(at[*k]) + t.parse::<f64>().unwrap(),
            Term::Same(k) => of(at[*k]),
            Term::Mirror(k, j) => of(at[*k]) + (of(at[*k]) - of(at[*j])),
        };
        let p = (value(x, |p| p.0), value(y, |p| p.1));
        at.push(p);
    }
    d.steps
        .iter()
        .filter_map(|s| match s {
            Step::MoveTo(a) | Step::LineTo(a) => Some(at[*a]),
            _ => None,
        })
        .collect()
}

fn node(scene: &Scene, id: NodeId) -> &Node {
    scene.nodes.get(id).expect("a live node")
}

fn root(scene: &Scene, k: usize) -> &Node {
    node(scene, scene.roots[k])
}

/// Every leaf with the transform on it.
fn leaves<'a>(
    scene: &'a Scene,
    ids: &[NodeId],
    outer: Affine,
    out: &mut Vec<(Affine, &'a Shape)>,
) {
    for id in ids {
        let n = node(scene, *id);
        let mut t = times(outer, compose(&n.transform));
        if let Some(s) = &n.shift {
            t = times(t, [1.0, 0.0, 0.0, 1.0, or_zero(&s.x), or_zero(&s.y)]);
        }
        match &n.kind {
            NodeKind::Group(children) => leaves(scene, children, t, out),
            NodeKind::Path(shape) => out.push((t, shape)),
        }
    }
}

fn flatten(scene: &Scene) -> Vec<(Affine, &Shape)> {
    let mut out = Vec::new();
    leaves(scene, &scene.roots, IDENTITY, &mut out);
    out
}

fn bounds_of(shapes: &[(Affine, &Shape)]) -> (f64, f64, f64, f64) {
    let inf = f64::INFINITY;
    let mut b = (inf, inf, -inf, -inf);
    for (t, s) in shapes {
        for (x, y) in points(s) {
            let (px, py) = (t[0] * x + t[2] * y + t[4], t[1] * x + t[3] * y + t[5]);
            b = (b.0.min(px), b.1.min(py), b.2.max(px), b.3.max(py));
        }
    }
    b
}

fn bounds(scene: &Scene) -> (f64, f64, f64, f64) {
    bounds_of(&flatten(scene))
}

fn scene(source: &str) -> Scene {
    import(source, &vec![]).expect("well-formed")
}

/// The one-line document the shape tests vary.
fn wrap(body: &str) -> String {
    format!("<svg xmlns=\"http://www.w3.org/2000/svg\" viewBox=\"0 0 100 100\">{body}</svg>")
}

#[test]
fn every_basic_shape_imports() {
    for body in [
        "<rect x='10' y='20' width='30' height='30'/>",
        "<circle cx='25' cy='35' r='15'/>",
        "<ellipse cx='25' cy='35' rx='15' ry='15'/>",
        "<line x1='10' y1='20' x2='40' y2='50'/>",
        "<polyline points='10,20 40,20 40,50'/>",
        "<polygon points='10,20 40,20 40,50'/>",
        "<path d='M10 20 L40 20 L40 50 Z'/>",
    ] {
        let scene = scene(&wrap(&body.replace('\'', "\"")));
        assert_eq!(scene.roots.len(), 1, "{body}");
        assert!(scene.losses.is_empty(), "{body}: {:?}", scene.losses);
        let b = bounds(&scene);
        // Every shape above spans the same box, which is only true if the
        // attribute-to-geometry mapping of each is right.
        for (got, want) in [(b.0, 10.0), (b.1, 20.0), (b.2, 40.0), (b.3, 50.0)] {
            assert!((got - want).abs() < 1e-9, "{body}: {b:?}");
        }
    }
}

#[test]
fn a_rects_corner_radii_are_capped_at_half_the_side() {
    // The radius is kept as written; the side it is capped by comes with it.
    let scene = scene(&wrap("<rect width=\"40\" height=\"20\" rx=\"999\"/>"));
    let b = bounds(&scene);
    assert!((b.2 - 40.0).abs() < 1e-9 && (b.3 - 20.0).abs() < 1e-9, "{b:?}");
    let NodeKind::Path(Shape::Basic(Basic::Rect, lengths)) = &root(&scene, 0).kind else {
        panic!("expected a rect");
    };
    assert_eq!(lengths[4].as_ref().map(|l| l.number.as_str()), Some("999"));
    assert_eq!(lengths[5], None);
}

#[test]
fn a_degenerate_shape_draws_nothing_and_is_not_a_loss() {
    for body in [
        "<rect width=\"0\" height=\"10\"/>",
        "<circle r=\"0\"/>",
        "<polyline points=\"\"/>",
        "<rect width=\"10\"/>",
        "<rect width=\"-1\" height=\"10\"/>",
        "<ellipse rx=\"1e-400\" ry=\"1\"/>",
        "<path/>",
    ] {
        let scene = scene(&wrap(body));
        assert!(scene.roots.is_empty(), "{body}");
        assert!(scene.losses.is_empty(), "{body}: {:?}", scene.losses);
    }
}

#[test]
fn a_percentage_is_drawn_unless_it_comes_to_nothing() {
    let source = "<svg><rect width=\"50%\" height=\"5\"/><circle r=\"5%\"/></svg>";
    assert_eq!(scene(source).roots.len(), 2);
    // The rect stands at line 1, column 6.
    let scene = import(source, &vec![(1, 6)]).unwrap();
    assert_eq!(scene.roots.len(), 1);
    assert!(matches!(
        &root(&scene, 0).kind,
        NodeKind::Path(Shape::Basic(Basic::Circle, _))
    ));
    // A size that is no percentage is not asked about.
    let plain = "<svg><rect width=\"5\" height=\"5\"/></svg>";
    assert_eq!(import(plain, &vec![(1, 6)]).unwrap().roots.len(), 1);
}

#[test]
fn nested_group_transforms_compose_outermost_last() {
    let scene = scene(&wrap(
        "<g transform=\"translate(10 0)\"><g transform=\"scale(2)\">\
         <rect width=\"1\" height=\"1\"/></g></g>",
    ));
    // scale first, then translate: (0,0)-(1,1) -> (10,0)-(12,2). The other
    // order would give (20,0)-(22,2).
    let b = bounds(&scene);
    assert!((b.0 - 10.0).abs() < 1e-9 && (b.2 - 12.0).abs() < 1e-9, "{b:?}");
}

#[test]
fn presentation_style_inherits_through_groups() {
    let scene = scene(&wrap(
        "<g fill=\"red\" style=\"stroke: blue\"><path d=\"M0 0L1 1\" stroke=\"green\"/></g>",
    ));
    let group = root(&scene, 0);
    let NodeKind::Group(children) = &group.kind else {
        panic!("expected a group");
    };
    let leaf = node(&scene, children[0]);
    assert_eq!(leaf.style.get("fill"), Some("red"));
    // The child's own presentation attribute beats the inherited value.
    assert_eq!(leaf.style.get("stroke"), Some("green"));
    assert_eq!(group.style.get("stroke"), Some("blue"));
}

#[test]
fn use_resolves_with_its_own_offset() {
    let scene = scene(&wrap(
        "<defs><rect id=\"r\" width=\"10\" height=\"10\"/></defs>\
         <use href=\"#r\" x=\"5\" y=\"7\"/>",
    ));
    assert!(scene.losses.is_empty(), "{:?}", scene.losses);
    let b = bounds(&scene);
    assert!((b.0 - 5.0).abs() < 1e-9 && (b.1 - 7.0).abs() < 1e-9, "{b:?}");
    // The definition itself is not drawn a second time.
    assert_eq!(flatten(&scene).len(), 1);
}

#[test]
fn a_circular_use_is_reported_rather_than_expanded_forever() {
    let scene = scene(&wrap(
        "<g id=\"a\"><use href=\"#b\"/></g><g id=\"b\"><use href=\"#a\"/></g>",
    ));
    assert!(
        scene.losses.iter().any(|l| l.message.contains("recurses")),
        "{:?}",
        scene.losses
    );
}

#[test]
fn a_use_that_finds_nothing_is_reported() {
    let scene = scene(&wrap("<use/><use href=\"other.svg#a\"/><use href=\"#gone\"/>"));
    let messages: Vec<&str> = scene.losses.iter().map(|l| l.message.as_str()).collect();
    assert_eq!(
        messages,
        [
            "<use> without a same-document href",
            "<use> without a same-document href",
            "<use> references #gone, which does not exist",
        ]
    );
    assert!(scene.roots.is_empty());
}

#[test]
fn a_chain_of_uses_stops_at_its_depth() {
    // Each element uses the one before it, which is no cycle.
    let mut body = String::from("<defs><rect id=\"u0\" width=\"1\" height=\"1\"/>");
    for i in 1..=20 {
        body.push_str(&format!("<g id=\"u{i}\"><use href=\"#u{}\"/></g>", i - 1));
    }
    body.push_str("</defs>");
    let short = scene(&wrap(&format!("{body}<use href=\"#u15\"/>")));
    assert!(short.losses.is_empty());
    assert_eq!(flatten(&short).len(), 1);
    let long = scene(&wrap(&format!("{body}<use href=\"#u16\"/>")));
    assert_eq!(long.losses.len(), 1);
    assert_eq!(long.losses[0].message, "<use> of #u0 recurses; expansion stopped");
    assert!(long.roots.is_empty());
}

#[test]
fn unsupported_elements_are_reported_with_their_position() {
    let scene = scene(
        "<svg xmlns=\"http://www.w3.org/2000/svg\">\n  <text>hi</text>\n  <image/>\n</svg>",
    );
    assert_eq!(scene.losses.len(), 2, "{:?}", scene.losses);
    assert!(scene.losses[0].message.contains("<text>"));
    assert_eq!((scene.losses[0].line, scene.losses[0].column), (2, 3));
    assert!(scene.losses[1].message.contains("<image>"));
    assert_eq!(
        scene.losses[0].to_string(),
        "line 2, column 3: <text> is not supported and was dropped"
    );
}

#[test]
fn malformed_path_data_keeps_its_valid_prefix_and_reports_the_rest() {
    let scene = scene(&wrap("<path d=\"M0 0 L10 10 L20 banana\"/>"));
    assert_eq!(points(flatten(&scene)[0].1).len(), 2);
    assert!(scene.losses[0].message.contains("truncated"));
    assert_eq!(
        scene.losses[0].message,
        "path data truncated at offset 16: expected a number"
    );
}

fn find<'a>(scene: &'a Scene, id: &str) -> &'a Gradient {
    scene.gradients.iter().find(|g| g.id == id).unwrap()
}

#[test]
fn gradients_resolve_their_href_chain() {
    let scene = scene(&wrap(
        "<defs>\
           <linearGradient id=\"base\"><stop offset=\"0\" stop-color=\"red\"/>\
           <stop offset=\"1\" stop-color=\"blue\" stop-opacity=\"0.5\"/></linearGradient>\
           <linearGradient id=\"used\" xlink:href=\"#base\" x1=\"0.25\" \
            gradientTransform=\"translate(3)\" \
            xmlns:xlink=\"http://www.w3.org/1999/xlink\"/>\
           <radialGradient id=\"r\" cx=\"2\" r=\"3\" gradientUnits=\"userSpaceOnUse\"/>\
         </defs>\
         <path d=\"M0 0L1 1\" fill=\"url(#used)\"/>",
    ));
    let used = find(&scene, "used");
    // Stops came from the chain, not from the empty element itself.
    assert_eq!(used.stops.len(), 2);
    assert_eq!(used.stops[1].color, "blue");
    assert_eq!(used.stops[1].opacity, "0.5");
    assert_eq!(compose(&used.transform)[4], 3.0);
    assert!(!used.user_space);
    assert!(!used.radial);
    assert_eq!(used.spread, "pad");
    // `x1` was given; `x2` was not, and is 1 by default.
    assert_eq!(used.coords[0].as_ref().map(|l| l.number.as_str()), Some("0.25"));
    assert_eq!(used.coords[2], None);
    let r = find(&scene, "r");
    assert!(r.user_space);
    assert!(r.radial);
    assert_eq!(r.coords[2].as_ref().map(|l| l.number.as_str()), Some("3"));
    assert!(scene.losses.is_empty(), "{:?}", scene.losses);
}

#[test]
fn a_paint_reference_to_something_that_is_not_a_gradient_is_reported() {
    let scene = scene(&wrap(
        "<pattern id=\"p\"/><path d=\"M0 0L1 1\" fill=\"url(#p)\"/>",
    ));
    assert!(
        scene
            .losses
            .iter()
            .any(|l| l.message.contains("fill references #p")),
        "{:?}",
        scene.losses
    );
}

#[test]
fn clip_paths_flatten_their_own_transforms() {
    let scene = scene(&wrap(
        "<clipPath id=\"c\"><g transform=\"translate(5 0)\">\
         <rect width=\"10\" height=\"10\"/></g></clipPath>\
         <path d=\"M0 0L20 20\" clip-path=\"url(#c)\"/>",
    ));
    assert_eq!(scene.clips.len(), 1);
    let clip = &scene.clips[0].shapes[0];
    let t = clip
        .transforms
        .iter()
        .fold(IDENTITY, |acc, list| times(acc, compose(list)));
    let b = bounds_of(&[(t, &clip.shape)]);
    assert!((b.0 - 5.0).abs() < 1e-9 && (b.2 - 15.0).abs() < 1e-9, "{b:?}");
    assert_eq!(root(&scene, 0).clip_path.as_deref(), Some("c"));
    assert!(scene.losses.is_empty(), "{:?}", scene.losses);
}

#[test]
fn effects_we_cannot_render_are_reported_where_they_are_applied() {
    // Both definitions sit inside `<defs>`, which the node walk never enters,
    // so the reference is the only place the loss can surface.
    let scene = scene(&wrap(
        "<defs><style>* { fill: red }</style><filter id=\"f\"/></defs>\
         <path d=\"M0 0L1 1\" filter=\"url(#f)\" mask=\"url(#m)\"/>",
    ));
    let messages: Vec<&str> = scene.losses.iter().map(|l| l.message.as_str()).collect();
    assert_eq!(messages.len(), 3, "{messages:?}");
    assert!(messages[0].contains("<style>"));
    assert!(messages.iter().any(|m| m.starts_with("filter=")));
    assert!(messages.iter().any(|m| m.starts_with("mask=")));
}

#[test]
fn lengths_carry_units_and_percentages() {
    assert_eq!(number("12", 0.0), Some(12.0));
    assert_eq!(number(" -3.5px ", 0.0), Some(-3.5));
    assert_eq!(number("1in", 0.0), Some(96.0));
    assert_eq!(number("50%", 200.0), Some(100.0));
    assert_eq!(number("3pc", 0.0), Some(48.0));
    // No font, so no em; and nothing that is not a number.
    assert_eq!(number("2em", 10.0), None);
    assert_eq!(number("inf", 0.0), None);
    assert_eq!(number("", 0.0), None);
    assert_eq!(number("px", 0.0), None);
}

#[test]
fn a_root_that_is_not_svg_fails_and_malformed_xml_fails() {
    let error = import("<html/>", &vec![]).err().expect("not svg");
    assert_eq!(error.message, "root element is <html>, not <svg>");
    assert_eq!((error.line, error.column), (1, 1));
    assert!(import("<svg", &vec![]).is_err());
    assert!(import("<x:svg xmlns:x='urn:x'/>", &vec![]).is_err());
}

#[test]
fn a_view_box_is_four_numbers_with_a_size() {
    let read = |t: &str| parse_view_box(t).map(|v| v.join("|"));
    assert_eq!(read("0 0 100 50").as_deref(), Some("0|0|100|50"));
    assert_eq!(read(" -1,2\n3 , 4 5 x").as_deref(), Some("-1|2|3|4"));
    assert_eq!(read("0 0 0 50"), None);
    assert_eq!(read("0 0 10 -5"), None);
    assert_eq!(read("0 0 10"), None);
    assert_eq!(read("0 0 1e999 5"), None);
    assert_eq!(read("0 x 10 5"), None);
}

#[test]
fn a_url_gives_its_fragment() {
    let read = |t: &str| url_fragment(t);
    assert_eq!(read(" url( '#a b' ) ").as_deref(), Some("a b"));
    assert_eq!(read("url(#x)").as_deref(), Some("x"));
    assert_eq!(read("url(\"#x\")").as_deref(), Some("x"));
    assert_eq!(read("url(#)"), None);
    assert_eq!(read("url(x)"), None);
    assert_eq!(read("url("), None);
    assert_eq!(read("red"), None);
}

#[test]
fn definitions_without_an_id_are_dropped_and_the_first_id_wins() {
    let scene = scene(&wrap(
        "<linearGradient/><clipPath/><clipPath id=\"\"/>\
         <rect id=\"d\" width=\"1\" height=\"1\"/><rect id=\"d\" width=\"2\" height=\"2\"/>\
         <use href=\"#d\" x=\"50\"/>",
    ));
    assert!(scene.gradients.is_empty() && scene.clips.is_empty());
    assert_eq!(bounds(&scene).2, 51.0);
}

#[test]
fn the_odd_elements_are_handled() {
    let scene = scene(&wrap(
        "<switch><rect width=\"1\" height=\"1\"/><rect width=\"9\" height=\"9\"/></switch>\
         <switch/><svg viewBox=\"0 0 1 1\"><line/></svg><x:y xmlns:x=\"urn:x\"/><title>t</title>\
         <clipPath id=\"k\" clipPathUnits=\"objectBoundingBox\"><text/></clipPath>\
         <line clip-path=\"url(#none)\" marker-end=\"none\" marker-mid=\"url(#m)\" transform=\"bad\"/>",
    ));
    let messages: Vec<&str> = scene.losses.iter().map(|l| l.message.as_str()).collect();
    assert_eq!(
        messages,
        [
            "<switch> imported as its first branch",
            "<switch> imported as its first branch",
            "viewBox on <svg> ignored",
            "clipPathUnits=\"objectBoundingBox\" ignored",
            "<text> in a clipPath ignored",
            "clip-path references #none, which is not a clipPath",
            "marker-mid=\"url(#m)\" ignored",
            "transform ignored: expected `(`",
        ]
    );
    assert_eq!(scene.roots.len(), 3);
    assert_eq!(bounds(&scene).2, 1.0);
}

#[test]
fn a_switch_that_draws_nothing_is_not_imported() {
    let source = "<svg xmlns=\"http://www.w3.org/2000/svg\">\
        <switch><rect width='0' height='1'/></switch><g><switch><g/></switch></g></svg>";
    let scene = scene(source);
    assert_eq!(scene.roots.len(), 0);
    assert_eq!(scene.nodes.len(), 0);
    assert_eq!(scene.losses.len(), 2);
    assert!(scene.losses.iter().all(|l| l.message.contains("<switch>")));
}

#[test]
fn losses_are_told_in_document_order() {
    let plain = import("<svg><text/><style/></svg>", &Vec::new()).unwrap();
    assert_eq!(plain.losses.len(), 2);
    assert!(plain.losses[0].message.contains("<text>"));
    assert_eq!((plain.losses[0].line, plain.losses[0].column), (1, 6));
    assert!(plain.losses[1].message.contains("<style>"));
    assert_eq!((plain.losses[1].line, plain.losses[1].column), (1, 13));

    let mixed = scene(&wrap(
        "<text/>\n<defs><linearGradient id=\"g\" gradientTransform=\"bad\"/>\n<style/></defs>\
         <g mask=\"url(#m)\" filter=\"url(#f)\"><image/><line x2=\"1\"/></g>\n<style/><text/>",
    ));
    let places: Vec<(usize, usize)> = mixed.losses.iter().map(|l| (l.line, l.column)).collect();
    assert!(places.windows(2).all(|p| p[0] <= p[1]), "{places:?}");
    assert_eq!(mixed.losses.len(), 8);
    // What is lost of one element keeps the order in which it was met.
    let group: Vec<&str> = mixed
        .losses
        .iter()
        .map(|l| l.message.as_str())
        .filter(|m| m.starts_with("mask=") || m.starts_with("filter="))
        .collect();
    assert_eq!(group, ["mask=\"url(#m)\" ignored", "filter=\"url(#f)\" ignored"]);
}

#[test]
fn every_loss_stands_at_an_element() {
    fn positions(e: &Element, out: &mut Vec<(usize, usize)>) {
        out.push((e.line, e.column));
        for c in &e.children {
            if let XmlNode::Element(c) = c {
                positions(c, out);
            }
        }
    }
    let source = "<svg>\n<text/>\n <style/><g>\n<use/></g><clipPath id='a'><b/></clipPath></svg>";
    let root = parse(source).unwrap();
    let mut all = Vec::new();
    positions(&root, &mut all);
    let scene = import_tree(&root, &vec![]).unwrap();
    assert_eq!(scene.losses.len(), 4);
    assert!(scene.losses.iter().all(|l| all.contains(&(l.line, l.column))));
}

#[test]
fn flattening_follows_paint_order() {
    let scene = scene(&wrap(
        "<g fill=\"red\"><rect id=\"a\" width=\"1\" height=\"1\"/>\
         <g><circle id=\"b\" r=\"2\"/></g></g><line id=\"c\" x2=\"3\"/><g/>",
    ));
    let leaves = scene.flatten();
    let shapes: Vec<&str> = leaves
        .iter()
        .map(|l| match l.shape {
            Shape::Basic(Basic::Rect, _) => "rect",
            Shape::Basic(Basic::Circle, _) => "circle",
            Shape::Basic(Basic::Line, _) => "line",
            _ => "other",
        })
        .collect();
    assert_eq!(shapes, vec!["rect", "circle", "line"]);
    let depths: Vec<usize> = leaves.iter().map(|l| l.chain.len()).collect();
    assert_eq!(depths, vec![2, 3, 1]);
    assert_eq!(node(&scene, leaves[1].chain[0]).style.get("fill"), Some("red"));
}

#[test]
fn every_node_has_one_place() {
    let scene = scene(&wrap(
        "<defs><g id=\"d\"><line x2=\"1\"/><circle r=\"1\"/></g></defs>\
         <g><use href=\"#d\"/><g><use href=\"#d\"/></g></g><rect width=\"1\" height=\"1\"/>",
    ));
    // A group of a use of a group of two, and a group of another; and a rect.
    assert_eq!(scene.nodes.len(), 11);
    let mut placed = scene.roots.clone();
    for (id, n) in scene.nodes.iter() {
        if let NodeKind::Group(children) = &n.kind {
            // What hangs under a node was planted before it.
            assert!(!children.is_empty() && children.iter().all(|c| c.index() < id.index()));
            placed.extend(children);
        }
    }
    let mut all: Vec<NodeId> = scene.nodes.iter().iter().map(|(id, _)| *id).collect();
    placed.sort();
    all.sort();
    assert_eq!(placed, all);
}
