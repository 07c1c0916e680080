//! Documents with every kind of shape, read, evaluated and written again.

use hane::geom::Point;
use hane::geom::Real;
use hane::path::outline::PathEl;
use hane::svg::document::{Basic, Unit};
use hane::svg::export;
use hane::svg::export::Page;
use hane::svg::figure::{corner_radii, ellipse, is_round, rounded_rect, sharp_rect};
use hane::svg::import::{import_tree, length, parse_view_box};
use hane::svg::page::Plotter;
use hane::svg::path_data::{Drawing, Pair, Plotted, Step, Term};
use hane::scene::arena::NodeId;
use hane::svg::scene::{ClipShape, Gradient, Length, Node, Scene, Shape, Stop};
use hane::svg::transform::{Function, Kind};
use hane::svg::xml::{parse, Element, Error, Node as XmlNode};

fn num(v: f64) -> Real {
    Real::from_bits(v.to_bits())
}

fn val(r: Real) -> f64 {
    f64::from_bits(r.bits)
}

fn point(x: f64, y: f64) -> Point {
    Point::new(num(x), num(y))
}

/// The coefficients of an affine map, in the order that SVG writes them.
type Affine = [f64; 6];

const IDENTITY: Affine = [1.0, 0.0, 0.0, 1.0, 0.0, 0.0];

/// The map that applies `q` and then `p`.
fn times(p: Affine, q: Affine) -> Affine {
    [
        p[0] * q[0] + p[2] * q[1],
        p[1] * q[0] + p[3] * q[1],
        p[0] * q[2] + p[2] * q[3],
        p[1] * q[2] + p[3] * q[3],
        p[0] * q[4] + p[2] * q[5] + p[4],
        p[1] * q[4] + p[3] * q[5] + p[5],
    ]
}

fn moved(m: Affine, q: Point) -> Point {
    let (x, y) = (val(q.x), val(q.y));
    point(m[0] * x + m[2] * y + m[4], m[1] * x + m[3] * y + m[5])
}

fn moved_el(m: Affine, el: PathEl) -> PathEl {
    match el {
        PathEl::MoveTo(a) => PathEl::MoveTo(moved(m, a)),
        PathEl::LineTo(a) => PathEl::LineTo(moved(m, a)),
        PathEl::QuadTo(a, b) => PathEl::QuadTo(moved(m, a), moved(m, b)),
        PathEl::CurveTo(a, b, c) => PathEl::CurveTo(moved(m, a), moved(m, b), moved(m, c)),
        PathEl::ClosePath => PathEl::ClosePath,
    }
}

/// A number that the grammar has already accepted.
fn read(text: &str) -> f64 {
    text.parse().unwrap_or(0.0)
}

/// The map of one function of a transform list.
fn function(f: &Function) -> Affine {
    let a: Vec<f64> = f.args.iter().map(|t| read(t)).collect();
    let second = a.get(1).copied();
    match f.kind {
        Kind::Matrix => [a[0], a[1], a[2], a[3], a[4], a[5]],
        Kind::Translate => [1.0, 0.0, 0.0, 1.0, a[0], second.unwrap_or(0.0)],
        Kind::Scale => [a[0], 0.0, 0.0, second.unwrap_or(a[0]), 0.0, 0.0],
        Kind::Rotate => {
            let (sin, cos) = a[0].to_radians().sin_cos();
            let turn = [cos, sin, -sin, cos, 0.0, 0.0];
            if a.len() < 3 {
                return turn;
            }
            let there = [1.0, 0.0, 0.0, 1.0, a[1], a[2]];
            let back = [1.0, 0.0, 0.0, 1.0, -a[1], -a[2]];
            times(times(there, turn), back)
        }
        Kind::SkewX => [1.0, 0.0, a[0].to_radians().tan(), 1.0, 0.0, 0.0],
        Kind::SkewY => [1.0, a[0].to_radians().tan(), 0.0, 1.0, 0.0, 0.0],
    }
}

fn compose(list: &[Function]) -> Affine {
    list.iter().fold(IDENTITY, |acc, f| times(acc, function(f)))
}

/// A length in user units.
fn measure(l: &Length, percent_of: f64) -> f64 {
    let factor = match l.unit {
        Unit::User => 1.0,
        Unit::Point => 96.0 / 72.0,
        Unit::Pica => 16.0,
        Unit::Millimetre => 96.0 / 25.4,
        Unit::Centimetre => 96.0 / 2.54,
        Unit::Inch => 96.0,
        Unit::Percent => percent_of / 100.0,
    };
    read(&l.number) * factor
}

fn measure_or(l: &Option<Length>, percent_of: f64, default: f64) -> f64 {
    l.as_ref().map_or(default, |l| measure(l, percent_of))
}

/// What a percentage is a percentage of: across, down and along the diagonal.
#[derive(Clone, Copy)]
struct Viewport {
    width: f64,
    height: f64,
    diagonal: f64,
}

fn viewport(view_box: Option<&Vec<String>>, width: Option<&str>, height: Option<&str>) -> Viewport {
    let side = |t: Option<&str>| t.and_then(length).map_or(0.0, |l| measure(&l, 0.0));
    let (width, height) = match view_box {
        Some(b) => (read(&b[2]), read(&b[3])),
        None => (side(width), side(height)),
    };
    Viewport { width, height, diagonal: ((width * width + height * height) / 2.0).sqrt() }
}

/// The elements whose size is a percentage that comes to nothing.
fn hidden(el: &Element, port: Viewport, out: &mut Vec<(usize, usize)>) {
    let sizes: &[(&str, f64)] = match el.name.local.as_str() {
        "rect" => &[("width", port.width), ("height", port.height)],
        "circle" => &[("r", port.diagonal)],
        "ellipse" => &[("rx", port.width), ("ry", port.height)],
        _ => &[],
    };
    let nothing = |&(name, of): &(&str, f64)| {
        el.attribute(name)
            .and_then(length)
            .is_some_and(|l| l.unit == Unit::Percent && !(measure(&l, of) > 0.0))
    };
    if sizes.iter().any(nothing) {
        out.push((el.line, el.column));
    }
    for child in &el.children {
        if let XmlNode::Element(child) = child {
            hidden(child, port, out);
        }
    }
}

/// Reads a document into a scene.
fn load(source: &str) -> Result<Scene, Error> {
    let root = parse(source)?;
    let view_box = root.attribute("viewBox").and_then(parse_view_box);
    let port = viewport(view_box.as_ref(), root.attribute("width"), root.attribute("height"));
    let mut list = Vec::new();
    hidden(&root, port, &mut list);
    import_tree(&root, &list)
}

/// An elliptical arc as cubics, its rotation in radians.
fn arc(from: Point, radii: (f64, f64), turn: f64, large: bool, sweep: bool, to: Point) -> Vec<PathEl> {
    let ((x1, y1), (x2, y2)) = ((val(from.x), val(from.y)), (val(to.x), val(to.y)));
    let (mut rx, mut ry) = (radii.0.abs(), radii.1.abs());
    if x1 == x2 && y1 == y2 {
        return Vec::new();
    }
    if !(rx > 0.0 && ry > 0.0) || !rx.is_finite() || !ry.is_finite() {
        return vec![PathEl::LineTo(to)];
    }
    let (sin, cos) = turn.sin_cos();
    let (hx, hy) = ((x1 - x2) / 2.0, (y1 - y2) / 2.0);
    let (px, py) = (cos * hx + sin * hy, cos * hy - sin * hx);
    let over = (px / rx).powi(2) + (py / ry).powi(2);
    if over > 1.0 {
        rx *= over.sqrt();
        ry *= over.sqrt();
    }
    let (a, b) = ((rx * py).powi(2), (ry * px).powi(2));
    let mut k = ((((rx * ry).powi(2) - a - b) / (a + b)).max(0.0)).sqrt();
    if large == sweep {
        k = -k;
    }
    let (ux, uy) = (k * rx * py / ry, -k * ry * px / rx);
    let center = (cos * ux - sin * uy + (x1 + x2) / 2.0, sin * ux + cos * uy + (y1 + y2) / 2.0);
    let first = ((py - uy) / ry).atan2((px - ux) / rx);
    let mut span = ((-py - uy) / ry).atan2((-px - ux) / rx) - first;
    let full = std::f64::consts::TAU;
    if sweep && span < 0.0 {
        span += full;
    } else if !sweep && span > 0.0 {
        span -= full;
    }
    let n = (span.abs() / std::f64::consts::FRAC_PI_2 - 1e-9).ceil().max(1.0);
    let step = span / n;
    let reach = 4.0 / 3.0 * (step / 4.0).tan();
    let on = |x: f64, y: f64| {
        let (x, y) = (rx * x, ry * y);
        point(center.0 + cos * x - sin * y, center.1 + sin * x + cos * y)
    };
    let mut out = Vec::new();
    for i in 0..n as usize {
        let (s0, c0) = (first + i as f64 * step).sin_cos();
        let (s1, c1) = (first + (i + 1) as f64 * step).sin_cos();
        let end = if i + 1 == n as usize { to } else { on(c1, s1) };
        out.push(PathEl::CurveTo(
            on(c0 - reach * s0, s0 + reach * c0),
            on(c1 + reach * s1, s1 - reach * c1),
            end,
        ));
    }
    out
}

/// The elements of path data.
fn drawn(d: &Drawing) -> Vec<PathEl> {
    let mut at: Vec<(f64, f64)> = Vec::new();
    for place in &d.places {
        let value = |t: &Term, of: fn((f64, f64)) -> f64| match t {
            Term::Zero => 0.0,
            Term::Number(t) => read(t),
            Term::Plus(k, t) => of(at[*k]) + read(t),
            Term::Same(k) => of(at[*k]),
            Term::Mirror(k, j) => of(at[*k]) + (of(at[*k]) - of(at[*j])),
        };
        let p = (value(&place.x, |p| p.0), value(&place.y, |p| p.1));
        at.push(p);
    }
    let p = |k: &usize| point(at[*k].0, at[*k].1);
    let mut out = Vec::new();
    for step in &d.steps {
        match step {
            Step::MoveTo(a) => out.push(PathEl::MoveTo(p(a))),
            Step::LineTo(a) => out.push(PathEl::LineTo(p(a))),
            Step::QuadTo(a, b) => out.push(PathEl::QuadTo(p(a), p(b))),
            Step::CurveTo(a, b, c) => out.push(PathEl::CurveTo(p(a), p(b), p(c))),
            Step::Arc { from, rx, ry, rotation, large, sweep, to } => out.extend(arc(
                p(from),
                (read(rx), read(ry)),
                read(rotation).to_radians(),
                *large,
                *sweep,
                p(to),
            )),
            Step::ClosePath => out.push(PathEl::ClosePath),
        }
    }
    out
}

/// The outline of a shape.
fn outline(shape: &Shape, port: Viewport) -> Vec<PathEl> {
    let (basic, l) = match shape {
        Shape::Drawn(d) => return drawn(d),
        Shape::Basic(basic, l) => (basic, l),
    };
    let across = |k: usize| measure_or(&l[k], port.width, 0.0);
    let down = |k: usize| measure_or(&l[k], port.height, 0.0);
    let round = |radii: (f64, f64)| {
        move |a: Point, b: Point| arc(a, radii, 0.0, false, true, b)
    };
    match basic {
        Basic::Rect => {
            let (x0, y0, w, h) = (across(0), down(1), across(2), down(3));
            let (x1, y1) = (x0 + w, y0 + h);
            let rx = l[4].as_ref().map(|l| num(measure(l, port.width)));
            let ry = l[5].as_ref().map(|l| num(measure(l, port.height)));
            let radii = corner_radii(rx, ry, (num(w / 2.0), num(h / 2.0)));
            if !is_round(radii) {
                return sharp_rect(point(x0, y0), point(x1, y0), point(x1, y1), point(x0, y1));
            }
            let (rx, ry) = (val(radii.0), val(radii.1));
            let corners = vec![
                (point(x1 - rx, y0), point(x1, y0 + ry)),
                (point(x1, y1 - ry), point(x1 - rx, y1)),
                (point(x0 + rx, y1), point(x0, y1 - ry)),
                (point(x0, y0 + ry), point(x0 + rx, y0)),
            ];
            rounded_rect(&corners, &round((rx, ry)))
        }
        Basic::Circle => {
            let (cx, cy, r) = (across(0), down(1), measure_or(&l[2], port.diagonal, 0.0));
            ellipse(point(cx + r, cy), point(cx - r, cy), &round((r, r)))
        }
        Basic::Ellipse => {
            let (cx, cy, rx, ry) = (across(0), down(1), across(2), down(3));
            ellipse(point(cx + rx, cy), point(cx - rx, cy), &round((rx, ry)))
        }
        Basic::Line => {
            vec![
                PathEl::MoveTo(point(across(0), down(1))),
                PathEl::LineTo(point(across(2), down(3))),
            ]
        }
    }
}

/// A node's own map, with the translation of a `use`.
fn own_map(node: &Node, port: Viewport) -> Affine {
    let m = compose(&node.transform);
    match &node.shift {
        None => m,
        Some(s) => {
            let (x, y) = (measure_or(&s.x, port.width, 0.0), measure_or(&s.y, port.height, 0.0));
            times(m, [1.0, 0.0, 0.0, 1.0, x, y])
        }
    }
}

fn port_of(scene: &Scene) -> Viewport {
    viewport(scene.view_box.as_ref(), scene.width.as_deref(), scene.height.as_deref())
}

/// Every leaf in paint order, in the root coordinate system.
fn flattened(scene: &Scene) -> Vec<Vec<PathEl>> {
    let port = port_of(scene);
    scene
        .flatten()
        .iter()
        .map(|leaf| {
            let m = leaf
                .chain
                .iter()
                .fold(IDENTITY, |m, id| times(m, own_map(node(scene, *id), port)));
            outline(leaf.shape, port).into_iter().map(|el| moved_el(m, el)).collect()
        })
        .collect()
}

/// A number as the shortest text that reads back to it, rounded first to as many
/// decimals as asked for. One that is too large to be scaled has none to lose.
fn written(v: f64, decimals: Option<u8>) -> String {
    let Some(decimals) = decimals else {
        return v.to_string();
    };
    let scale = 10f64.powi(i32::from(decimals));
    let scaled = v * scale;
    if scaled.is_finite() { (scaled.round() / scale).to_string() } else { v.to_string() }
}

fn plotted(els: &[PathEl], decimals: Option<u8>) -> Vec<Plotted> {
    let p = |q: Point| Pair { x: written(val(q.x), decimals), y: written(val(q.y), decimals) };
    els.iter()
        .map(|&el| match el {
            PathEl::MoveTo(a) => Plotted::MoveTo(p(a)),
            PathEl::LineTo(a) => Plotted::LineTo(p(a)),
            PathEl::QuadTo(a, b) => Plotted::QuadTo(p(a), p(b)),
            PathEl::CurveTo(a, b, c) => Plotted::CurveTo(p(a), p(b), p(c)),
            PathEl::ClosePath => Plotted::ClosePath,
        })
        .collect()
}

/// The coefficients of a map, unless it is the identity.
fn matrix(m: Affine, decimals: Option<u8>) -> Option<Vec<String>> {
    (m != IDENTITY).then_some(m.iter().map(|&v| written(v, decimals)).collect())
}

fn node(scene: &Scene, id: NodeId) -> &Node {
    scene.nodes.get(id).expect("a live node")
}

/// The numbers of a gradient: `x1 y1 x2 y2` or `cx cy r fx fy`.
fn coordinates(g: &Gradient, port: Viewport) -> Vec<f64> {
    let unit = Viewport { width: 1.0, height: 1.0, diagonal: 1.0 };
    let of = if g.user_space { port } else { unit };
    let get = |k: usize, percent_of: f64, default: f64| measure_or(&g.coords[k], percent_of, default);
    if g.radial {
        let cx = get(0, of.width, 0.5 * of.width);
        let cy = get(1, of.height, 0.5 * of.height);
        let r = get(2, of.diagonal, 0.5 * of.diagonal);
        vec![cx, cy, r, get(3, of.width, cx), get(4, of.height, cy)]
    } else {
        vec![
            get(0, of.width, 0.0),
            get(1, of.height, 0.0),
            get(2, of.width, of.width),
            get(3, of.height, 0.0),
        ]
    }
}

/// A scene with its numbers as they are to be written.
fn page(scene: &Scene, decimals: Option<u8>) -> Page {
    let port = port_of(scene);
    let plotter = Plotter {
        plot: |s: &Shape| plotted(&outline(s, port), decimals),
        place: |n: &Node| matrix(own_map(n, port), decimals),
        cut: |s: &ClipShape| {
            let m = s.transforms.iter().fold(IDENTITY, |m, t| times(m, compose(t)));
            let els: Vec<PathEl> =
                outline(&s.shape, port).into_iter().map(|el| moved_el(m, el)).collect();
            plotted(&els, decimals)
        },
        coords: |g: &Gradient| {
            coordinates(g, port).iter().map(|&v| written(v, decimals)).collect()
        },
        bend: |g: &Gradient| matrix(compose(&g.transform), decimals),
        offset: |s: &Stop| written(measure_or(&s.offset, 1.0, 0.0).clamp(0.0, 1.0), decimals),
        side: |t: &String| written(read(t), decimals),
    };
    plotter.page(scene)
}

/// Writes a scene with the shortest numbers that read back to the same.
fn save(scene: &Scene) -> String {
    export::write(&page(scene, None))
}

/// Writes a scene with every coordinate rounded to `decimals` decimal places.
fn write_with_precision(scene: &Scene, decimals: u8) -> String {
    export::write(&page(scene, Some(decimals)))
}

/// One document exercising every feature that reading and writing both claim:
/// each shape, nested transforms, inherited and overridden style, a gradient
/// with an href chain, a radial gradient, a clip and a `use`.
const DOCUMENT: &str = r##"<svg xmlns="http://www.w3.org/2000/svg"
        xmlns:xlink="http://www.w3.org/1999/xlink"
        width="200" height="100" viewBox="0 0 200 100">
      <defs>
        <linearGradient id="base">
          <stop offset="0" stop-color="#ff0000"/>
          <stop offset="0.5" stop-color="rgb(0, 255, 0)" stop-opacity="0.25"/>
          <stop offset="1" stop-color="blue"/>
        </linearGradient>
        <linearGradient id="slanted" xlink:href="#base" x1="0.1" y1="0.2" x2="0.9"
          gradientTransform="rotate(30 1 2)"/>
        <radialGradient id="glow" cx="30" cy="40" r="25" fx="35" gradientUnits="userSpaceOnUse"
          spreadMethod="reflect">
          <stop offset="0" stop-color="white"/>
          <stop offset="1" stop-color="black"/>
        </radialGradient>
        <clipPath id="window">
          <rect x="5" y="5" width="90" height="90" rx="8"/>
        </clipPath>
        <g id="stamp"><circle cx="3" cy="3" r="2.5"/><path d="M0 0 Q 4 8 8 0 T 16 0"/></g>
      </defs>
      <g transform="translate(10 20) rotate(15)" fill="url(#slanted)" opacity="0.75">
        <rect x="1.5" y="2.25" width="30" height="17" rx="3" ry="6"/>
        <ellipse cx="40" cy="10" rx="9" ry="4"/>
        <g transform="scale(2 3) skewX(12)">
          <polygon points="0,0 10,0 10,10 0,10" fill="url(#glow)" opacity="0.75"/>
          <polyline points="0,0 3,4 9,-2" stroke="green" stroke-width="0.5"/>
          <line x1="-1e2" y1="0.001" x2="1234567.5" y2="-9"/>
        </g>
        <path d="M0 0 C 1 2 3 4 5 6 S 9 8 11 10 A 5 4 30 1 0 20 25 z" clip-path="url(#window)"/>
      </g>
      <use xlink:href="#stamp" x="150" y="40" fill="teal"/>
    </svg>"##;

fn opened(source: &str) -> Scene {
    load(source).expect("well-formed")
}

fn geometry(source: &str) -> Vec<Vec<PathEl>> {
    flattened(&opened(source))
}

fn points(el: PathEl) -> Vec<Point> {
    match el {
        PathEl::MoveTo(a) | PathEl::LineTo(a) => vec![a],
        PathEl::QuadTo(a, b) => vec![a, b],
        PathEl::CurveTo(a, b, c) => vec![a, b, c],
        PathEl::ClosePath => Vec::new(),
    }
}

/// The largest difference between coordinates, element by element.
fn difference(a: &[Vec<PathEl>], b: &[Vec<PathEl>]) -> f64 {
    assert_eq!(a.len(), b.len(), "different number of paths");
    let mut worst: f64 = 0.0;
    for (pa, pb) in a.iter().zip(b) {
        assert_eq!(pa.len(), pb.len(), "different number of elements");
        for (ea, eb) in pa.iter().zip(pb) {
            let (xs, ys) = (points(*ea), points(*eb));
            assert_eq!(xs.len(), ys.len(), "different element kinds");
            for (p, q) in xs.iter().zip(&ys) {
                let (dx, dy) = (val(p.x) - val(q.x), val(p.y) - val(q.y));
                worst = worst.max(dx.abs()).max(dy.abs());
            }
        }
    }
    worst
}

/// The largest coordinate in play.
fn magnitude(paths: &[Vec<PathEl>]) -> f64 {
    paths
        .iter()
        .flatten()
        .flat_map(|el| points(*el))
        .fold(1.0f64, |m, p| m.max(val(p.x).abs()).max(val(p.y).abs()))
}

#[test]
fn a_round_trip_reproduces_geometry_exactly() {
    let scene = opened(DOCUMENT);
    assert!(scene.losses.is_empty(), "{:?}", scene.losses);
    let once = save(&scene);
    let twice = save(&opened(&once));
    assert_eq!(once, twice);
    assert_eq!(difference(&geometry(DOCUMENT), &geometry(&once)), 0.0);
}

#[test]
fn a_rounded_round_trip_stays_within_its_precision() {
    let scene = opened(DOCUMENT);
    let rounded = write_with_precision(&scene, 9);
    let (before, after) = (geometry(DOCUMENT), geometry(&rounded));
    assert!(difference(&before, &after) <= 1e-9 * magnitude(&before));
    // Rounding twice is idempotent, so the file stops changing.
    assert_eq!(rounded, write_with_precision(&opened(&rounded), 9));
    assert!(write_with_precision(&scene, 3).len() < rounded.len());
}

#[test]
fn the_output_reparses_as_svg() {
    let out = save(&opened(DOCUMENT));
    assert!(out.starts_with("<?xml version=\"1.0\" encoding=\"UTF-8\"?>\n<svg "));
    assert!(out.contains("xmlns=\"http://www.w3.org/2000/svg\""));
    assert!(out.contains("version=\"1.1\""));
    assert!(out.contains("width=\"200\" height=\"100\" viewBox=\"0 0 200 100\""));
    // No element outside the SVG 1.1 subset that is written.
    let allowed = [
        "svg",
        "defs",
        "g",
        "path",
        "clipPath",
        "stop",
        "linearGradient",
        "radialGradient",
    ];
    for tag in out.split('<').skip(1).filter(|s| !s.starts_with('/')) {
        let name = tag.split([' ', '>', '/']).next().unwrap();
        assert!(
            allowed.contains(&name) || name.starts_with('?'),
            "wrote <{name}>"
        );
    }
}

#[test]
fn gradients_and_clips_keep_their_references() {
    let scene = opened(&save(&opened(DOCUMENT)));
    assert_eq!(scene.gradients.len(), 3);
    assert_eq!(scene.clips.len(), 1);
    let glow = scene.gradients.iter().find(|g| g.id == "glow").unwrap();
    assert!(glow.user_space && glow.spread == "reflect");
    assert!(glow.radial);
    assert_eq!(coordinates(glow, port_of(&scene)), [30.0, 40.0, 25.0, 35.0, 40.0]);
    assert_eq!(glow.stops.len(), 2);
    // The href chain was resolved on the way in, so the second pass sees the
    // stops directly and the reference no longer has to exist.
    let slanted = scene.gradients.iter().find(|g| g.id == "slanted").unwrap();
    assert_eq!(slanted.stops.len(), 3);
    assert_eq!(slanted.stops[1].opacity, "0.25");
    assert!(scene.flatten().len() > 1);
    let leaves = scene.flatten();
    assert!(leaves.iter().any(|l| {
        l.chain.iter().any(|id| node(&scene, *id).clip_path.as_deref() == Some("window"))
    }));
}

#[test]
fn a_percentage_of_nothing_hides_a_shape() {
    let shapes = "<rect width=\"50%\" height=\"10\"/><circle r=\"5%\"/>\
                  <ellipse rx=\"1\" ry=\"10%\"/><rect width=\"4\" height=\"4\"/>";
    let bare = format!("<svg xmlns=\"http://www.w3.org/2000/svg\">{shapes}</svg>");
    assert_eq!(geometry(&bare).len(), 1);
    let boxed =
        format!("<svg xmlns=\"http://www.w3.org/2000/svg\" viewBox=\"0 0 10 10\">{shapes}</svg>");
    assert_eq!(geometry(&boxed).len(), 4);
}

#[test]
fn corners_are_capped_and_either_radius_gives_both() {
    let radii = |rx: Option<f64>, ry: Option<f64>| {
        let r = corner_radii(rx.map(num), ry.map(num), (num(10.0), num(4.0)));
        (val(r.0), val(r.1))
    };
    assert_eq!(radii(None, None), (0.0, 0.0));
    assert_eq!(radii(Some(3.0), None), (3.0, 3.0));
    assert_eq!(radii(None, Some(6.0)), (6.0, 4.0));
    assert_eq!(radii(Some(99.0), Some(-1.0)), (10.0, 0.0));
    assert!(is_round((num(1.0), num(1.0))));
    assert!(!is_round((num(1.0), num(0.0))));
}
