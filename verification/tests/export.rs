//! Scenes into documents, and back.

use hane::scene::arena::NodeId;
use hane::svg::export::{Item, ItemKind, Page, Ramp, RampStop};
use hane::svg::export;
use hane::svg::import::import;
use hane::svg::page::Plotter;
use hane::svg::path_data::{Drawing, Pair, Plotted, Step, Term};
use hane::svg::scene::{ClipShape, Gradient, Length, Node, NodeKind, Scene, Shape, Stop};
use hane::svg::style::{COUNT, Style};
use hane::svg::transform::{Function, Kind};
use hane::svg::xml::parse;

/// The text of a coordinate that was written absolute.
fn text(t: &Term) -> String {
    match t {
        Term::Number(t) => t.clone(),
        _ => panic!("not written absolute"),
    }
}

fn plotted(d: &Drawing) -> Vec<Plotted> {
    let p = |k: usize| Pair { x: text(&d.places[k].x), y: text(&d.places[k].y) };
    d.steps
        .iter()
        .map(|s| match s {
            Step::MoveTo(a) => Plotted::MoveTo(p(*a)),
            Step::LineTo(a) => Plotted::LineTo(p(*a)),
            Step::QuadTo(a, b) => Plotted::QuadTo(p(*a), p(*b)),
            Step::CurveTo(a, b, c) => Plotted::CurveTo(p(*a), p(*b), p(*c)),
            Step::Arc { .. } => panic!("no arcs here"),
            Step::ClosePath => Plotted::ClosePath,
        })
        .collect()
}

fn outline(s: &Shape) -> Vec<Plotted> {
    match s {
        Shape::Drawn(d) => plotted(d),
        Shape::Basic(..) => panic!("only path data here"),
    }
}

/// A matrix, where there is a transform.
fn coefficients(list: &[Function]) -> Option<Vec<String>> {
    match list {
        [] => None,
        [f] if f.kind == Kind::Matrix => Some(f.args.clone()),
        _ => panic!("only matrices here"),
    }
}

fn node(scene: &Scene, id: NodeId) -> &Node {
    scene.nodes.get(id).expect("a live node")
}

fn words(l: &Option<Length>, default: &str) -> String {
    l.as_ref().map_or(default.to_string(), |l| l.number.clone())
}

/// A scene whose numbers can be written as they were read.
fn page(scene: &Scene) -> Page {
    let plotter = Plotter {
        plot: |s: &Shape| outline(s),
        place: |n: &Node| coefficients(&n.transform),
        cut: |s: &ClipShape| outline(&s.shape),
        coords: |g: &Gradient| {
            let defaults: &[&str] = if g.radial {
                &["0.5", "0.5", "0.5", "0.5", "0.5"]
            } else {
                &["0", "0", "1", "0"]
            };
            g.coords.iter().zip(defaults).map(|(c, d)| words(c, d)).collect()
        },
        bend: |g: &Gradient| coefficients(&g.transform),
        offset: |s: &Stop| words(&s.offset, "0"),
        side: |t: &String| t.clone(),
    };
    plotter.page(scene)
}

fn read(source: &str) -> Scene {
    import(source, &vec![]).expect("should import")
}

fn rewritten(source: &str) -> String {
    export::write(&page(&read(source)))
}

/// One document with every feature both ways have.
const DOCUMENT: &str = r##"<svg xmlns="http://www.w3.org/2000/svg"
    xmlns:xlink="http://www.w3.org/1999/xlink"
    width="200" height="100" viewBox="0 0 200 100">
  <defs>
    <linearGradient id="base">
      <stop offset="0" stop-color="#ff0000"/>
      <stop offset="0.5" stop-color="rgb(0, 255, 0)" stop-opacity="0.25"/>
      <stop offset="1" stop-color="blue"/>
    </linearGradient>
    <linearGradient id="slanted" xlink:href="#base" x1="0.1" y1="0.2" x2="0.9"
      gradientTransform="matrix(0.5 0 0 -1e-3 1 2)"/>
    <radialGradient id="glow" cx="30" cy="40" r="25" fx="35" fy="40"
      gradientUnits="userSpaceOnUse" spreadMethod="reflect">
      <stop offset="0" stop-color="white"/>
      <stop offset="1" stop-color="black"/>
    </radialGradient>
    <clipPath id="window"><path d="M5 5 L95 5 L95 95 Z"/></clipPath>
    <g id="stamp"><path d="M0 0 Q 4 8 8 0"/></g>
  </defs>
  <g transform="matrix(1 2 3 4 5 6)" fill="url(#slanted)" opacity="0.75">
    <path d="M1.5 2.25 L30 17"/>
    <g transform="matrix(2 0 0 3 0 0)">
      <polygon points="0,0 10,0 10,10 0,10" fill="url(#glow)" opacity="0.75"/>
      <polyline points="0,0 3,4 9,-2" stroke="green" stroke-width="0.5"/>
      <path d="M-1e2 0.001 L1234567.5 -9"/>
    </g>
    <path d="M0 0 C 1 2 3 4 5 6 L 20 25 Z" clip-path="url(#window)"/>
  </g>
  <use xlink:href="#stamp" fill="teal"/>
</svg>"##;

/// A scene's nodes with everything that export writes, one line each.
fn describe(scene: &Scene, ids: &[NodeId], depth: usize, out: &mut String) {
    for id in ids {
        let n = node(scene, *id);
        let kind = match &n.kind {
            NodeKind::Group(_) => "group".to_string(),
            NodeKind::Path(s) => format!("{:?}", outline(s)),
        };
        let style: Vec<&str> = (0..COUNT).map(|i| n.style.value(i)).collect();
        out.push_str(&format!(
            "{depth} {kind} {:?} {style:?} {:?}\n",
            coefficients(&n.transform),
            n.clip_path
        ));
        if let NodeKind::Group(children) = &n.kind {
            describe(scene, children, depth + 1, out);
        }
    }
}

fn description(scene: &Scene) -> String {
    let mut out = String::new();
    describe(scene, &scene.roots, 0, &mut out);
    out
}

#[test]
fn a_plain_document_is_written_number_for_number() {
    let first = read(DOCUMENT);
    let second = read(&rewritten(DOCUMENT));
    assert!(second.losses.is_empty(), "{:?}", second.losses);
    assert_eq!(description(&first), description(&second));
    // Writing again changes nothing.
    assert_eq!(export::write(&page(&first)), export::write(&page(&second)));
}

#[test]
fn only_plain_elements_are_written() {
    let out = rewritten(DOCUMENT);
    assert!(out.starts_with("<?xml version=\"1.0\" encoding=\"UTF-8\"?>\n<svg "));
    assert!(out.contains("xmlns=\"http://www.w3.org/2000/svg\""));
    assert!(out.contains("version=\"1.1\""));
    assert!(out.contains("width=\"200\" height=\"100\" viewBox=\"0 0 200 100\""));
    // No element outside the SVG 1.1 subset we claim to write.
    let allowed = [
        "svg",
        "defs",
        "g",
        "path",
        "clipPath",
        "stop",
        "linearGradient",
        "radialGradient",
    ];
    for tag in out.split('<').skip(1).filter(|s| !s.starts_with('/')) {
        let name = tag.split([' ', '>', '/']).next().unwrap();
        assert!(
            allowed.contains(&name) || name.starts_with('?'),
            "wrote <{name}>"
        );
    }
}

#[test]
fn definitions_are_written_where_they_are_named() {
    let scene = read(&rewritten(DOCUMENT));
    assert_eq!(scene.gradients.len(), 3);
    assert_eq!(scene.clips.len(), 1);
    let glow = scene.gradients.iter().find(|g| g.id == "glow").unwrap();
    assert!(glow.user_space && glow.spread == "reflect");
    let coords: Vec<String> = glow.coords.iter().map(|c| words(c, "?")).collect();
    assert!(glow.radial);
    assert_eq!(coords, ["30", "40", "25", "35", "40"]);
    assert_eq!(glow.stops.len(), 2);
    // The href chain was resolved on the way in, so the second pass sees the
    // stops directly and the reference no longer has to exist.
    let slanted = scene.gradients.iter().find(|g| g.id == "slanted").unwrap();
    assert_eq!(slanted.stops.len(), 3);
    assert_eq!(slanted.stops[1].opacity, "0.25");
    assert!(scene.nodes.iter().iter().any(|(_, n)| n.clip_path.as_deref() == Some("window")));
}

#[test]
fn a_property_repeating_its_parents_value_survives_the_trip() {
    // `opacity` does not inherit, so writing only the parent-differing
    // properties would drop the child's copy and change what it means.
    let source = "<svg xmlns=\"http://www.w3.org/2000/svg\"><g opacity=\"0.5\">\
                  <path d=\"M0 0L1 1\" opacity=\"0.5\" fill=\"red\"/></g></svg>";
    let out = rewritten(source);
    let scene = read(&out);
    let NodeKind::Group(children) = &node(&scene, scene.roots[0]).kind else {
        panic!("expected a group");
    };
    let child = node(&scene, children[0]);
    assert_eq!(child.style.get("opacity"), Some("0.5"));
    assert_eq!(child.style.get("fill"), Some("red"));
    // Inherited and unchanged, so it is written once on the group.
    assert_eq!(out.matches("fill=\"red\"").count(), 1);
}

#[test]
fn attribute_values_are_escaped() {
    let source = "<svg xmlns=\"http://www.w3.org/2000/svg\">\
                  <path d=\"M0 0L1 1\" fill=\"&quot;a&amp;b&lt;c&quot;\"/></svg>";
    let out = rewritten(source);
    assert!(out.contains("fill=\"&quot;a&amp;b&lt;c&quot;\""), "{out}");
    let scene = read(&out);
    assert_eq!(node(&scene, scene.roots[0]).style.get("fill"), Some("\"a&b<c\""));
}

#[test]
fn a_dangling_clip_reference_is_not_written_back() {
    // A clip-path pointing at nothing hides the element in a conforming
    // renderer, so exporting it verbatim would turn a reported loss into a
    // blank file.
    let source = "<svg xmlns=\"http://www.w3.org/2000/svg\">\
                  <path d=\"M0 0L1 1\" clip-path=\"url(#gone)\"/></svg>";
    let scene = read(source);
    assert_eq!(scene.losses.len(), 1);
    assert!(!export::write(&page(&scene)).contains("clip-path"));
}

#[test]
fn a_page_is_written_letter_for_letter() {
    let leaf = |fill: &str| {
        let source = format!("<path fill=\"{fill}\"/>");
        Style::initial().resolve(&parse(&source).unwrap())
    };
    let pair = |x: &str, y: &str| Pair { x: x.to_string(), y: y.to_string() };
    let path = |fill: &str| Item {
        kind: ItemKind::Path(vec![
            Plotted::MoveTo(pair("0", "0")),
            Plotted::LineTo(pair("1.5", "-2")),
            Plotted::ClosePath,
        ]),
        matrix: None,
        style: leaf(fill),
        clip_path: None,
    };
    let page = Page {
        width: Some("10%".to_string()),
        height: None,
        view_box: None,
        gradients: vec![],
        clips: vec![],
        roots: vec![Item {
            kind: ItemKind::Group(vec![path("red"), path("black")]),
            matrix: Some(["1", "0", "0", "1", "5", "6"].map(String::from).to_vec()),
            style: leaf("red"),
            clip_path: Some("gone".to_string()),
        }],
    };
    assert_eq!(
        export::write(&page),
        "<?xml version=\"1.0\" encoding=\"UTF-8\"?>\n\
         <svg xmlns=\"http://www.w3.org/2000/svg\" version=\"1.1\" width=\"10%\">\n  \
         <g transform=\"matrix(1 0 0 1 5 6)\" fill=\"red\">\n    \
         <path d=\"M 0 0L 1.5 -2Z\"/>\n    \
         <path d=\"M 0 0L 1.5 -2Z\" fill=\"black\"/>\n  \
         </g>\n</svg>\n"
    );
}

#[test]
fn a_gradient_alone_comes_back() {
    let stop = |offset: &str| RampStop {
        offset: offset.to_string(),
        color: "red".to_string(),
        opacity: "0.5".to_string(),
    };
    for radial in [false, true] {
        let coords: Vec<String> = if radial { "1 2 3 4 5" } else { "1 2 3 4" }
            .split(' ')
            .map(str::to_string)
            .collect();
        let matrix: Vec<String> = "1 0 0 1 7 8".split(' ').map(str::to_string).collect();
        let only = Page {
            width: None,
            height: None,
            view_box: None,
            gradients: vec![Ramp {
                id: "a & b".to_string(),
                radial,
                coords: coords.clone(),
                user_space: radial,
                matrix: Some(matrix),
                spread: "reflect".to_string(),
                stops: vec![stop("0"), stop("0.25"), stop("1")],
            }],
            clips: Vec::new(),
            roots: Vec::new(),
        };
        let scene = read(&export::write(&only));
        assert!(scene.losses.is_empty() && scene.roots.is_empty());
        assert_eq!(scene.gradients.len(), 1);
        let g = &scene.gradients[0];
        assert_eq!((g.id.as_str(), g.radial, g.user_space), ("a & b", radial, radial));
        assert_eq!(g.spread, "reflect");
        let back: Vec<String> = g.coords.iter().map(|c| words(c, "?")).collect();
        assert_eq!(back, coords);
        assert_eq!(g.transform.len(), 1);
        assert_eq!(g.transform[0].args, ["1", "0", "0", "1", "7", "8"]);
        let offsets: Vec<String> = g.stops.iter().map(|s| words(&s.offset, "?")).collect();
        assert_eq!(offsets, ["0", "0.25", "1"]);
        assert!(g.stops.iter().all(|s| s.color == "red" && s.opacity == "0.5"));
    }
}
